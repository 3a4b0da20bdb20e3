//! A list of listeners whose entries are kept by the `slab` crate.

use crate::chain::{
    is_chain, key_at, lemma_link_back, lemma_unlink, linked_at, linked_back, unlinked, Links,
};
use crate::notify::untagged;
use crate::roster::{
    all_stay, first_pending, granted, has_key, is_fifo, keys, lemma_fifo_prefix,
    lemma_first_notified, lemma_newcomer, lemma_notified, lemma_notified_none, lemma_notified_stay,
    lemma_notified_step, lemma_pushed, lemma_removed, lemma_removed_stay, lemma_restated,
    lemma_restated_stay, notified_count, others_stay, pending_count, position, state_of,
    with_notified, with_state, without, woken, Roster,
};
use crate::state::State;
use crate::task::{all_woken, Task, TaskSink, WakeNow};
use crate::util::replace;
use slab::Slab;
use vstd::prelude::*;

verus! {

/// The storage that `slab` provides.
#[verifier::external_type_specification]
#[verifier::external_body]
#[verifier::reject_recursive_types(T)]
pub struct ExSlab<T>(slab::Slab<T>);

/// The entries that a slab holds, by their keys.
pub uninterp spec fn held(storage: slab::Slab<Entry>) -> Map<usize, Entry>;

/// The keys of entries that were removed and not replaced, the last one removed
/// first.
pub uninterp spec fn vacant(storage: slab::Slab<Entry>) -> Seq<usize>;

/// The key of the next entry, by the vacant keys and the number of entries: the
/// last one that became vacant, or a new one.
pub open spec fn next_key(vacant: Seq<usize>, len: nat) -> nat {
    if vacant.len() > 0 {
        vacant[0] as nat
    } else {
        len
    }
}

/// So many entries can be kept, whatever memory there is.
pub const MAX_ENTRIES: usize = usize::MAX / 256;

/// Makes a slab by `Slab::new`: it holds nothing and no key is vacant.
#[verifier::external_body]
fn new_slab() -> (made: Slab<Entry>)
    ensures
        held(made).dom() == Set::<usize>::empty(),
        vacant(made) == Seq::<usize>::empty(),
{
    Slab::new()
}

/// The number of entries, by `Slab::len`.
#[verifier::external_body]
fn slab_len(storage: &Slab<Entry>) -> (len: usize)
    ensures
        len == held(*storage).len(),
{
    storage.len()
}

/// The key that the next entry will get, by `Slab::vacant_key`: the last one
/// that became vacant, or the number of entries if none is vacant.
#[verifier::external_body]
fn slab_vacant_key(storage: &Slab<Entry>) -> (key: usize)
    ensures
        key == next_key(vacant(*storage), held(*storage).len()),
{
    storage.vacant_key()
}

/// Puts an entry into a slab by `Slab::insert`: it gets the next key, which is
/// not vacant any more. `Slab::insert` panics if the storage outgrows the
/// address space, which so many entries do not.
#[verifier::external_body]
fn slab_insert(storage: &mut Slab<Entry>, entry: Entry) -> (key: usize)
    requires
        held(*old(storage)).len() + vacant(*old(storage)).len() < MAX_ENTRIES,
    ensures
        key == next_key(vacant(*old(storage)), held(*old(storage)).len()),
        held(*final(storage)) == held(*old(storage)).insert(key, entry),
        vacant(*final(storage)) == if vacant(*old(storage)).len() > 0 {
            vacant(*old(storage)).drop_first()
        } else {
            vacant(*old(storage))
        },
{
    storage.insert(entry)
}

/// Takes an entry out of a slab by `Slab::remove`: its key becomes vacant.
#[verifier::external_body]
fn slab_remove(storage: &mut Slab<Entry>, key: usize) -> (entry: Entry)
    requires
        held(*old(storage)).contains_key(key),
    ensures
        entry == held(*old(storage))[key],
        held(*final(storage)) == held(*old(storage)).remove(key),
        vacant(*final(storage)) == seq![key] + vacant(*old(storage)),
{
    storage.remove(key)
}

/// The entry with the given key, by `Slab`'s `index`.
#[verifier::external_body]
fn slab_get(storage: &Slab<Entry>, key: usize) -> (entry: &Entry)
    requires
        held(*storage).contains_key(key),
    ensures
        *entry == held(*storage)[key],
{
    &storage[key]
}

/// The entry with the given key, to be changed, by `Slab`'s `index_mut`.
#[verifier::external_body]
fn slab_get_mut(storage: &mut Slab<Entry>, key: usize) -> (entry: &mut Entry)
    requires
        held(*old(storage)).contains_key(key),
    ensures
        *entry == held(*old(storage))[key],
        held(*final(storage)) == held(*old(storage)).insert(key, *final(entry)),
        vacant(*final(storage)) == vacant(*old(storage)),
{
    &mut storage[key]
}

/// An entry representing a registered listener.
#[derive(Debug)]
pub struct Entry {
    state: State<()>,
    prev: Option<usize>,
    next: Option<usize>,
}

impl Entry {
    /// An entry that has just been created and is in no list.
    pub closed spec fn fresh(&self) -> bool {
        self.state is Created && self.prev is None && self.next is None
    }

    spec fn links(self) -> Links {
        Links { prev: self.prev, next: self.next }
    }

    /// Creates an entry.
    pub fn new() -> (entry: Self)
        ensures
            entry.fresh(),
    {
        Entry { state: State::Created, prev: None, next: None }
    }
}

/// The neighbours of the listeners. The entry at key zero is none of them.
spec fn links_in(entries: Map<usize, Entry>) -> Map<usize, Links> {
    entries.remove(0).map_values(|e: Entry| e.links())
}

/// A linked list of entries.
pub struct ListenerSlab {
    entries: Slab<Entry>,
    head: Option<usize>,
    tail: Option<usize>,
    start: Option<usize>,
    notified: usize,
    order: Ghost<Seq<usize>>,
}

impl View for ListenerSlab {
    type V = Roster<()>;

    closed spec fn view(&self) -> Roster<()> {
        Seq::new(
            self.order@.len(),
            |i: int| (self.order@[i], held(self.entries)[self.order@[i]].state),
        )
    }
}

impl ListenerSlab {
    /// The keys that are free to be used again, in the order in which they are
    /// used.
    pub closed spec fn free_keys(&self) -> Seq<usize> {
        vacant(self.entries)
    }

    spec fn storage_wf(&self) -> bool {
        let entries = held(self.entries);
        let free = vacant(self.entries);
        &&& entries.dom().finite()
        &&& entries.contains_key(0)
        &&& entries.len() == self.order@.len() + 1
        &&& entries.len() + free.len() <= MAX_ENTRIES
        &&& forall|k: usize| #[trigger]
            entries.contains_key(k) ==> k < entries.len() + free.len()
        &&& free.no_duplicates()
        &&& forall|i: int|
            0 <= i < free.len() ==> 0 < #[trigger] free[i] < entries.len() + free.len()
                && !entries.contains_key(free[i])
    }

    /// The entries form one list, in which the notified listeners come first.
    pub closed spec fn wf(&self) -> bool {
        &&& self.storage_wf()
        &&& is_chain(self.order@, links_in(held(self.entries)), self.head, self.tail)
        &&& is_fifo(self@)
        &&& self.notified == notified_count(self@)
        &&& self.start == key_at(self.order@, self.notified as int)
        &&& forall|i: int| 0 <= i < self@.len() ==> !((#[trigger] self@[i]).1 is NotifiedTaken)
    }

    /// What can be known of the listeners.
    pub proof fn lemma_slab(&self)
        requires
            self.wf(),
        ensures
            keys(self@).no_duplicates(),
            is_fifo(self@),
            self@.len() < MAX_ENTRIES,
            0 <= notified_count(self@) <= self@.len(),
            forall|i: int| 0 <= i < self@.len() ==> (#[trigger] self@[i]).0 != 0,
            forall|i: int| 0 <= i < self@.len() ==> !((#[trigger] self@[i]).1 is NotifiedTaken),
    {
        self.lemma_order();
        lemma_fifo_prefix(self@, 0);
    }

    proof fn lemma_order(&self)
        requires
            self.wf(),
        ensures
            keys(self@) == self.order@,
            keys(self@).no_duplicates(),
            forall|i: int|
                0 <= i < self.order@.len() ==> (#[trigger] self.order@[i]) != 0 && held(
                    self.entries,
                ).contains_key(self.order@[i]),
            forall|k: usize| k != 0 && held(self.entries).contains_key(k) ==> self.order@.contains(k),
    {
        assert(keys(self@) =~= self.order@);
        let links = links_in(held(self.entries));
        assert forall|i: int| 0 <= i < self.order@.len() implies (#[trigger] self.order@[i]) != 0
            && held(self.entries).contains_key(self.order@[i]) by {
            assert(self.order@.to_set().contains(self.order@[i]));
            assert(links.contains_key(self.order@[i]));
        }
        assert forall|k: usize| k != 0 && held(self.entries).contains_key(k) implies self.order@.contains(k) by {
            assert(links.contains_key(k));
            assert(self.order@.to_set().contains(k));
        }
    }

    /// Creates an empty list. The entry at key zero is never used, so that zero
    /// is no listener's key.
    pub fn new() -> (list: Self)
        ensures
            list.wf(),
            list@ == Roster::<()>::empty(),
            list.free_keys() == Seq::<usize>::empty(),
    {
        let mut entries = new_slab();
        slab_insert(&mut entries, Entry::new());
        let list = ListenerSlab {
            entries,
            head: None,
            tail: None,
            start: None,
            notified: 0,
            order: Ghost(Seq::empty()),
        };
        proof {
            assert(list@ =~= Roster::<()>::empty());
            assert(links_in(held(entries)).dom() =~= list.order@.to_set());
        }
        list
    }

    /// The number of listeners in the list.
    pub fn len(&self) -> (len: usize)
        requires
            self.wf(),
        ensures
            len == self@.len(),
    {
        slab_len(&self.entries) - 1
    }

    /// The number of notified listeners in the list.
    pub fn notified(&self) -> (notified: usize)
        requires
            self.wf(),
        ensures
            notified == notified_count(self@),
    {
        self.notified
    }

    /// The state of the listener with the given key.
    pub fn state(&self, key: usize) -> (state: &State<()>)
        requires
            self.wf(),
            has_key(self@, key),
        ensures
            *state == state_of(self@, key),
    {
        proof {
            self.lemma_order();
            assert(self.order@[position(self@, key)] == key);
        }
        &slab_get(&self.entries, key).state
    }

    /// Appends a listener, and returns its key.
    pub fn insert(&mut self, entry: Entry) -> (key: usize)
        requires
            old(self).wf(),
            entry.fresh(),
            old(self)@.len() + old(self).free_keys().len() + 1 < MAX_ENTRIES,
        ensures
            final(self).wf(),
            !has_key(old(self)@, key),
            final(self)@ == old(self)@.push((key, State::Created)),
            has_key(final(self)@, key),
            state_of(final(self)@, key) is Created,
            all_stay(old(self)@, final(self)@),
            key == next_key(old(self).free_keys(), old(self)@.len() + 1),
            final(self).free_keys() == if old(self).free_keys().len() > 0 {
                old(self).free_keys().drop_first()
            } else {
                old(self).free_keys()
            },
    {
        let ghost before = *self;
        let ghost order = self.order@;
        let ghost links = links_in(held(self.entries));
        let mut entry = entry;
        let key = slab_vacant_key(&self.entries);
        proof {
            self.lemma_order();
            if vacant(self.entries).len() > 0 {
                assert(vacant(self.entries)[0] == key);
            }
            assert(!held(self.entries).contains_key(key));
            assert(!has_key(self@, key)) by {
                if has_key(self@, key) {
                    assert(order[position(self@, key)] == key);
                }
            }
        }
        match replace(&mut self.tail, Some(key)) {
            None => {
                self.head = Some(key);
            },
            Some(tail) => {
                proof {
                    assert(order.last() == tail);
                }
                slab_get_mut(&mut self.entries, tail).next = Some(key);
                entry.prev = Some(tail);
            },
        }
        if self.start.is_none() {
            self.start = self.tail;
        }
        slab_insert(&mut self.entries, entry);
        proof {
            self.order@ = order.push(key);
            lemma_link_back(order, links, before.head, before.tail, key);
            assert(links_in(held(self.entries)) =~= linked_back(links, before.tail, key));
            assert(self@ =~= before@.push((key, State::Created)));
            lemma_pushed(before@, key, State::<()>::Created);
            lemma_newcomer(before@, before@.len() as int, key, State::<()>::Created);
            lemma_fifo_prefix(before@, 0);
        }
        key
    }

    /// Removes a listener from the list and returns its state.
    pub fn remove(&mut self, key: usize) -> (state: State<()>)
        requires
            old(self).wf(),
            has_key(old(self)@, key),
        ensures
            final(self).wf(),
            state == state_of(old(self)@, key),
            final(self)@ == without(old(self)@, key),
            others_stay(old(self)@, final(self)@, key),
            final(self).free_keys() == seq![key] + old(self).free_keys(),
    {
        let ghost before = *self;
        let ghost order = self.order@;
        let ghost links = links_in(held(self.entries));
        let ghost at = position(self@, key);
        proof {
            self.lemma_order();
            assert(order[at] == key);
            assert(linked_at(order, links, at));
        }
        let entry = slab_remove(&mut self.entries, key);
        let prev = entry.prev;
        let next = entry.next;
        match prev {
            None => {
                self.head = next;
            },
            Some(p) => {
                slab_get_mut(&mut self.entries, p).next = next;
            },
        }
        match next {
            None => {
                self.tail = prev;
            },
            Some(n) => {
                slab_get_mut(&mut self.entries, n).prev = prev;
            },
        }
        if self.start == Some(key) {
            self.start = next;
        }
        let state = entry.state;
        if state.is_notified() {
            self.notified = self.notified.saturating_sub(1);
        }
        proof {
            let rest = order.remove(at);
            self.order@ = rest;
            lemma_unlink(order, links, before.head, before.tail, at);
            assert(links_in(held(self.entries)) =~= unlinked(links, key));
            assert(held(self.entries).dom() =~= held(before.entries).dom().remove(key));
            assert forall|i: int| 0 <= i < rest.len() implies self@[i] == before@.remove(at)[i] by {
                let o = if i < at { i } else { i + 1 };
                assert(rest[i] == order[o]);
            }
            assert(self@ =~= before@.remove(at));
            lemma_removed(before@, at);
            lemma_removed_stay(before@, key, false);
            lemma_fifo_prefix(before@, 0);
            lemma_free_key(vacant(before.entries), key);
            assert forall|i: int| 0 <= i < self@.len() implies !((#[trigger] self@[i]).1
                is NotifiedTaken) by {
                let o = if i < at { i } else { i + 1 };
                assert(self@[i] == before@[o]);
            }
        }
        state
    }

    /// Puts another state in place of a listener's, which must not be more or
    /// less notified. Returns what it was.
    pub fn replace_state(&mut self, key: usize, state: State<()>) -> (previous: State<()>)
        requires
            old(self).wf(),
            has_key(old(self)@, key),
            state.notified() == state_of(old(self)@, key).notified(),
            !(state is NotifiedTaken),
        ensures
            final(self).wf(),
            previous == state_of(old(self)@, key),
            final(self)@ == with_state(old(self)@, key, state),
            has_key(final(self)@, key),
            others_stay(old(self)@, final(self)@, key),
            final(self).free_keys() == old(self).free_keys(),
    {
        let ghost before = *self;
        let ghost at = position(self@, key);
        proof {
            self.lemma_order();
            assert(self.order@[at] == key);
        }
        let previous = replace(&mut slab_get_mut(&mut self.entries, key).state, state);
        proof {
            lemma_restated(before@, at, state);
            lemma_restated_stay(before@, key, state);
            assert(links_in(held(self.entries)) =~= links_in(held(before.entries)));
            assert(held(self.entries).dom() =~= held(before.entries).dom());
            assert(self@ =~= before@.update(at, (key, state)));
        }
        previous
    }

    /// Notifies the first listener that has no notification, whose key is
    /// given, and returns the task that waits on it.
    fn notify_start(&mut self, key: usize, additional: bool) -> (task: Option<Task>)
        requires
            old(self).wf(),
            old(self).start == Some(key),
        ensures
            final(self).wf(),
            first_pending(old(self)@) < old(self)@.len(),
            final(self)@ == old(self)@.update(
                first_pending(old(self)@),
                (key, State::Notified { additional, tag: () }),
            ),
            key == old(self)@[first_pending(old(self)@)].0,
            task == match old(self)@[first_pending(old(self)@)].1 {
                State::Task(task) => Some(task),
                _ => None,
            },
            final(self).free_keys() == old(self).free_keys(),
    {
        let ghost before = *self;
        let ghost order = self.order@;
        let ghost at = first_pending(self@);
        proof {
            self.lemma_order();
            lemma_fifo_prefix(self@, 0);
            assert(order[at] == key);
            assert(linked_at(order, links_in(held(self.entries)), at));
            lemma_first_notified(self@, additional, ());
        }
        let entry = slab_get_mut(&mut self.entries, key);
        self.start = entry.next;
        let previous = replace(&mut entry.state, State::Notified { additional, tag: () });
        self.notified = self.notified + 1;
        proof {
            assert(links_in(held(self.entries)) =~= links_in(held(before.entries)));
            assert(held(self.entries).dom() =~= held(before.entries).dom());
            assert(self@ =~= before@.update(at, (key, State::Notified { additional, tag: () })));
        }
        match previous {
            State::Task(task) => Some(task),
            _ => None,
        }
    }

    /// Notifies up to `wanted` of the listeners that have no notification, first
    /// to last. Puts the tasks to be woken behind those in `tasks`.
    fn notify_pending<S: TaskSink>(&mut self, wanted: usize, additional: bool, tasks: &mut S)
        requires
            old(self).wf(),
        ensures
            final(self).wf(),
            ({
                let n = if wanted <= pending_count(old(self)@) {
                    wanted as nat
                } else {
                    pending_count(old(self)@)
                };
                &&& final(self)@ == with_notified(
                    old(self)@,
                    additional,
                    Seq::new(n, |i: int| ()),
                )
                &&& final(tasks).gathered() == old(tasks).gathered() + woken(old(self)@, n)
            }),
            final(self).free_keys() == old(self).free_keys(),
    {
        let ghost r = self@;
        let ghost mut done: nat = 0;
        let mut n: usize = wanted;
        proof {
            lemma_notified_none(r, additional);
            assert(Seq::new(0, |i: int| ()) =~= Seq::empty());
            assert(tasks.gathered() + Seq::<Task>::empty() =~= tasks.gathered());
        }
        while n > 0
            invariant
                self.wf(),
                r == old(self)@,
                done + n == wanted,
                done <= pending_count(r),
                self@ == with_notified(r, additional, Seq::new(done, |i: int| ())),
                tasks.gathered() == old(tasks).gathered() + woken(r, done),
                self.free_keys() == old(self).free_keys(),
            ensures
                n == 0 || done == pending_count(r),
            decreases n,
        {
            let ghost tags = Seq::new(done, |i: int| ());
            proof {
                self.lemma_order();
                lemma_fifo_prefix(self@, 0);
                lemma_notified(r, additional, tags);
            }
            match self.start {
                None => {
                    break;
                },
                Some(key) => {
                    let ghost at = first_pending(self@);
                    let task = self.notify_start(key, additional);
                    n = n - 1;
                    match task {
                        Some(task) => tasks.accept(task),
                        None => {},
                    }
                    proof {
                        lemma_notified_step(r, additional, tags, (), at);
                        assert(tags.push(()) =~= Seq::new((done + 1) as nat, |i: int| ()));
                        done = done + 1;
                    }
                },
            }
        }
    }

    /// Sees to it that `n` listeners are notified. Puts the tasks to be woken
    /// behind those in `tasks`.
    pub fn notify_unnotified_into<S: TaskSink>(&mut self, n: usize, tasks: &mut S)
        requires
            old(self).wf(),
        ensures
            final(self).wf(),
            final(self)@ == untagged(old(self)@, n, false),
            all_stay(old(self)@, final(self)@),
            final(tasks).gathered() == old(tasks).gathered() + woken(old(self)@, granted(old(self)@, n, false)),
            final(self).free_keys() == old(self).free_keys(),
    {
        proof {
            self.lemma_slab();
            lemma_notified_stay(self@, false, Seq::new(granted(self@, n, false), |i: int| ()));
        }
        if n <= self.notified {
            proof {
                lemma_notified_none(self@, false);
                assert(Seq::new(0, |i: int| ()) =~= Seq::empty());
                assert(tasks.gathered() + Seq::<Task>::empty() =~= tasks.gathered());
            }
            return;
        }
        self.notify_pending(n - self.notified, false, tasks);
    }

    /// Notifies `n` more listeners. Puts the tasks to be woken behind those in
    /// `tasks`.
    pub fn notify_additional_into<S: TaskSink>(&mut self, n: usize, tasks: &mut S)
        requires
            old(self).wf(),
        ensures
            final(self).wf(),
            final(self)@ == untagged(old(self)@, n, true),
            all_stay(old(self)@, final(self)@),
            final(tasks).gathered() == old(tasks).gathered() + woken(old(self)@, granted(old(self)@, n, true)),
            final(self).free_keys() == old(self).free_keys(),
    {
        proof {
            self.lemma_slab();
            lemma_notified_stay(self@, true, Seq::new(granted(self@, n, true), |i: int| ()));
        }
        self.notify_pending(n, true, tasks);
    }

    /// Sees to it that `n` listeners are notified, and wakes their tasks.
    pub fn notify_unnotified(&mut self, n: usize)
        requires
            old(self).wf(),
        ensures
            final(self).wf(),
            final(self)@ == untagged(old(self)@, n, false),
            all_stay(old(self)@, final(self)@),
            all_woken(woken(old(self)@, granted(old(self)@, n, false))),
            final(self).free_keys() == old(self).free_keys(),
    {
        let mut tasks = WakeNow::new();
        self.notify_unnotified_into(n, &mut tasks);
        tasks.attest();
        proof {
            assert(tasks.gathered() =~= woken(old(self)@, granted(old(self)@, n, false)));
        }
    }

    /// Notifies `n` more listeners, and wakes their tasks.
    pub fn notify_additional(&mut self, n: usize)
        requires
            old(self).wf(),
        ensures
            final(self).wf(),
            final(self)@ == untagged(old(self)@, n, true),
            all_stay(old(self)@, final(self)@),
            all_woken(woken(old(self)@, granted(old(self)@, n, true))),
            final(self).free_keys() == old(self).free_keys(),
    {
        let mut tasks = WakeNow::new();
        self.notify_additional_into(n, &mut tasks);
        tasks.attest();
        proof {
            assert(tasks.gathered() =~= woken(old(self)@, granted(old(self)@, n, true)));
        }
    }

    /// Notifies listeners, either plainly or additionally. Puts the tasks to be
    /// woken behind those in `tasks`.
    pub fn notify_into<S: TaskSink>(&mut self, count: usize, additional: bool, tasks: &mut S)
        requires
            old(self).wf(),
        ensures
            final(self).wf(),
            final(self)@ == untagged(old(self)@, count, additional),
            all_stay(old(self)@, final(self)@),
            final(tasks).gathered() == old(tasks).gathered() + woken(
                old(self)@,
                granted(old(self)@, count, additional),
            ),
            final(self).free_keys() == old(self).free_keys(),
    {
        if additional {
            self.notify_additional_into(count, tasks);
        } else {
            self.notify_unnotified_into(count, tasks);
        }
    }

    /// Notifies listeners, either plainly or additionally, and wakes their
    /// tasks.
    pub fn notify(&mut self, count: usize, additional: bool)
        requires
            old(self).wf(),
        ensures
            final(self).wf(),
            final(self)@ == untagged(old(self)@, count, additional),
            all_stay(old(self)@, final(self)@),
            all_woken(woken(old(self)@, granted(old(self)@, count, additional))),
            final(self).free_keys() == old(self).free_keys(),
    {
        if additional {
            self.notify_additional(count);
        } else {
            self.notify_unnotified(count);
        }
    }
}

/// Putting a key that is not vacant on top of the vacant ones leaves them
/// distinct.
proof fn lemma_free_key(free: Seq<usize>, key: usize)
    requires
        free.no_duplicates(),
        !free.contains(key),
    ensures
        (seq![key] + free).no_duplicates(),
        forall|i: int|
            0 <= i < free.len() + 1 ==> (#[trigger] (seq![key] + free)[i]) == key || free.contains(
                (seq![key] + free)[i],
            ),
{
    let more = seq![key] + free;
    assert forall|i: int| 0 <= i < more.len() implies (#[trigger] more[i]) == key || free.contains(
        more[i],
    ) by {
        if i > 0 {
            assert(more[i] == free[i - 1]);
        }
    }
    assert forall|i: int, j: int| 0 <= i < j < more.len() implies more[i] != more[j] by {
        assert(more[j] == free[j - 1]);
        if i > 0 {
            assert(more[i] == free[i - 1]);
        }
    }
}

} // verus!
