# event-listener

Notify async tasks or threads, with the notification logic verified by Verus.

An event has listeners. A plain notification makes sure that at least so many
listeners are notified; an additional one notifies so many more. A notified
listener that goes away without picking its notification up hands it on.

## Layout

- `src/roster.rs` says what a list of listeners is and what its operations do,
  apart from how it is stored. `src/laws.rs` holds what follows from that.
- `src/chain.rs` is about doubly linked lists over numbered slots.
- `src/event.rs`, with `src/linked_list/mutex.rs` and `src/linked_list/list.rs`,
  is the event and its list behind one lock.
- `src/linked_list/lock_free/` keeps the list in slots that never move, with a
  word of flags per slot.
- `src/no_std/` guards a list by a spinlock (`src/spin.rs`) and puts operations
  off while it is locked.
- `src/inner.rs`, `src/list.rs`, `src/node.rs` and `src/queue.rs` do the same with
  storage from `slab` and cells from `crossbeam-utils`.
- `src/intrusive.rs` is the plainest of the lists, and `src/listener.rs` a
  listener whose state is a single word.
- `app/` shares an event between threads and tasks.

Operations take exclusive access, which stands for holding the lock, or for
running without interference where there is none. What several threads decide
by looking at a shared word stands in functions of their own.
