//! One slot of the list, and what can happen to it.

use crate::state::State;
use crate::task::{wake_by_ref, woken_by_ref, Task, TaskRef};
use std::task::Waker;
use vstd::prelude::*;

verus! {

/// The slot has no data.
pub const NEW: usize = 0;

/// The slot belongs to a listener.
pub const OCCUPIED: usize = 1;

/// The listener is notified.
pub const NOTIFIED: usize = 2;

/// The listener's notification is an additional one.
pub const ADDITIONAL: usize = 4;

/// The listener is in the process of registering a new waker.
pub const REGISTERING: usize = 8;

/// A previous waker of the slot is in the process of being notified.
pub const NOTIFYING: usize = 16;

/// What the state word of a slot says.
pub struct Flags {
    /// The slot belongs to a listener.
    pub occupied: bool,
    /// The listener is notified.
    pub notified: bool,
    /// The listener's notification is an additional one.
    pub additional: bool,
    /// The listener is in the process of registering a new waker.
    pub registering: bool,
    /// A previous waker of the slot is in the process of being notified.
    pub notifying: bool,
}

/// Reads a state word.
pub open spec fn flags(word: usize) -> Flags {
    Flags {
        occupied: word & OCCUPIED != 0,
        notified: word & NOTIFIED != 0,
        additional: word & ADDITIONAL != 0,
        registering: word & REGISTERING != 0,
        notifying: word & NOTIFYING != 0,
    }
}

/// The flags once somebody has begun to notify the listener.
pub open spec fn notify_begun(f: Flags, additional: bool) -> Flags {
    Flags { notified: true, notifying: true, additional: additional || f.additional, ..f }
}

/// The flags once nobody is notifying the listener any more.
pub open spec fn notify_ended(f: Flags) -> Flags {
    Flags { notifying: false, ..f }
}

/// The flags once the listener has begun to register a waker.
pub open spec fn register_begun(f: Flags) -> Flags {
    Flags { registering: true, ..f }
}

/// The flags once the listener has registered a waker.
pub open spec fn register_ended(f: Flags) -> Flags {
    Flags { registering: false, ..f }
}

/// Whether whoever begins to notify wakes the waker in the slot.
pub open spec fn notifier_wakes(f: Flags) -> bool {
    !f.notified && !f.registering
}

/// Whether the listener, once it has begun to register, has a waker to wait with.
/// Otherwise it wakes its own at once.
pub open spec fn listener_waits(f: Flags) -> bool {
    !f.notified
}

/// Whether the listener, when it has put its waker into the slot, finds that it
/// has to wake it.
pub open spec fn listener_wakes(f: Flags) -> bool {
    f.notified
}

/// However a notification and the registration of a waker meet, the waker is
/// woken, and by one of the two only: by the notifier if it comes afterwards, by
/// the listener if the notification comes first or in between.
pub proof fn registered_waker_is_woken_once(f: Flags, additional: bool)
    requires
        !f.notified,
        !f.registering,
    ensures
        // The notification comes after the registration.
        ({
            let begun = register_begun(f);
            let ended = register_ended(begun);
            &&& listener_waits(f)
            &&& !listener_wakes(begun)
            &&& notifier_wakes(ended)
        }),
        // It comes in between.
        ({
            let begun = register_begun(f);
            let notified = notify_begun(begun, additional);
            &&& listener_waits(f)
            &&& !notifier_wakes(begun)
            &&& listener_wakes(notified)
            &&& listener_wakes(notify_ended(notified))
            &&& !notifier_wakes(register_ended(notified))
        }),
        // It comes before.
        ({
            let notified = notify_begun(f, additional);
            &&& !listener_waits(notified)
            &&& !listener_waits(notify_ended(notified))
            &&& !notifier_wakes(notified)
        }),
{
}

/// Setting the bits of a notification sets those flags and no others.
proof fn lemma_set_notified(word: usize, additional: bool)
    ensures
        flags(word | (if additional { 22 } else { 18 })) == notify_begun(flags(word), additional),
{
    assert((word | 22) & 1 == word & 1 && (word | 22) & 2 != 0 && (word | 22) & 4 != 0 && (word
        | 22) & 8 == word & 8 && (word | 22) & 16 != 0) by (bit_vector);
    assert((word | 18) & 1 == word & 1 && (word | 18) & 2 != 0 && (word | 18) & 4 == word & 4 && (
    word | 18) & 8 == word & 8 && (word | 18) & 16 != 0) by (bit_vector);
}

/// Clearing one flag clears no other.
pub proof fn lemma_clear(word: usize)
    ensures
        flags(word & !NOTIFYING) == notify_ended(flags(word)),
        flags(word & !REGISTERING) == register_ended(flags(word)),
        flags(word & !OCCUPIED) == (Flags { occupied: false, ..flags(word) }),
        flags(word | REGISTERING) == register_begun(flags(word)),
        !flags(word).registering ==> (word | REGISTERING) & !REGISTERING == word,
        (word | REGISTERING) & !REGISTERING == word & !REGISTERING,
{
    assert((word & !16) & 1 == word & 1 && (word & !16) & 2 == word & 2 && (word & !16) & 4 == word
        & 4 && (word & !16) & 8 == word & 8 && (word & !16) & 16 == 0) by (bit_vector);
    assert((word & !8) & 1 == word & 1 && (word & !8) & 2 == word & 2 && (word & !8) & 4 == word
        & 4 && (word & !8) & 16 == word & 16 && (word & !8) & 8 == 0) by (bit_vector);
    assert((word & !1) & 8 == word & 8 && (word & !1) & 2 == word & 2 && (word & !1) & 4 == word
        & 4 && (word & !1) & 16 == word & 16 && (word & !1) & 1 == 0) by (bit_vector);
    assert((word | 8) & 1 == word & 1 && (word | 8) & 2 == word & 2 && (word | 8) & 4 == word & 4
        && (word | 8) & 16 == word & 16 && (word | 8) & 8 != 0) by (bit_vector);
    assert(word & 8 == 0 ==> (word | 8) & !8 == word) by (bit_vector);
    assert((word | 8) & !8 == word & !8) by (bit_vector);
}

/// A slot that is notified says so from then on, and of which kind the
/// notification is. It belongs to the same listener as before.
pub proof fn notified_slot_says_so(link: Link, additional: bool)
    requires
        !flags(link.state).notified,
        !flags(link.state).additional,
    ensures
        ({
            let after = Link {
                state: (link.state | (if additional { 22 } else { 18 })) & !NOTIFYING,
                ..link
            };
            &&& after.listener_state() == (State::Notified { additional, tag: () })
            &&& flags(after.state).occupied == flags(link.state).occupied
            &&& flags(after.state).registering == flags(link.state).registering
            &&& !flags(after.state).notifying
        }),
{
    lemma_set_notified(link.state, additional);
    lemma_clear(link.state | (if additional { 22 } else { 18 }));
}

/// A listener without a notification waits with the waker in its slot, if there
/// is one.
pub proof fn slot_waits_with_its_waker(link: Link)
    requires
        !flags(link.state).notified,
    ensures
        link.waker matches Some(waker) ==> link.listener_state() == State::<()>::Task(
            Task::Waker(waker),
        ),
        link.waker is None ==> link.listener_state() is Created,
{
}

/// What the word of a new listener says.
pub proof fn lemma_occupied()
    ensures
        flags(OCCUPIED) == (Flags {
            occupied: true,
            notified: false,
            additional: false,
            registering: false,
            notifying: false,
        }),
        flags(NEW) == (Flags {
            occupied: false,
            notified: false,
            additional: false,
            registering: false,
            notifying: false,
        }),
{
    assert(1usize & 1 == 1 && 1usize & 2 == 0 && 1usize & 4 == 0 && 1usize & 8 == 0 && 1usize & 16
        == 0) by (bit_vector);
    assert(0usize & 1 == 0 && 0usize & 2 == 0 && 0usize & 4 == 0 && 0usize & 8 == 0 && 0usize & 16
        == 0) by (bit_vector);
}

/// A slot of the list. A zero stands for no neighbour.
pub struct Link {
    /// Next entry in the list.
    pub next: usize,
    /// Previous entry in the list.
    pub prev: usize,
    /// State word of the slot.
    pub state: usize,
    /// The waker that a notification wakes.
    pub waker: Option<Waker>,
}

/// A slot that has never been used.
pub open spec fn blank() -> Link {
    Link { next: 0, prev: 0, state: NEW, waker: None }
}

/// The state of a listener without a notification, by its waker.
pub open spec fn waiting_state(waker: Option<Waker>) -> State<()> {
    match waker {
        Some(w) => State::Task(Task::Waker(w)),
        None => State::Created,
    }
}

impl Link {
    /// The state of the listener in this slot.
    pub open spec fn listener_state(self) -> State<()> {
        if flags(self.state).notified {
            State::Notified { additional: flags(self.state).additional, tag: () }
        } else {
            waiting_state(self.waker)
        }
    }

    /// Creates a slot that nobody uses.
    pub fn new() -> (link: Self)
        ensures
            link == blank(),
    {
        Link { next: 0, prev: 0, state: NEW, waker: None }
    }

    /// Marks the listener as notified, and returns the waker to be woken.
    ///
    /// There is none if the listener was notified before, and none while the
    /// listener is registering a waker: then it will see the notification.
    pub fn begin_notify(&mut self, additional: bool) -> (waker: Option<Waker>)
        ensures
            final(self).state == old(self).state | (if additional { 22 } else { 18 }),
            flags(final(self).state) == notify_begun(flags(old(self).state), additional),
            final(self).next == old(self).next,
            final(self).prev == old(self).prev,
            if notifier_wakes(flags(old(self).state)) {
                waker == old(self).waker && final(self).waker is None
            } else {
                waker is None && final(self).waker == old(self).waker
            },
    {
        let mask: usize = if additional {
            NOTIFYING | NOTIFIED | ADDITIONAL
        } else {
            NOTIFYING | NOTIFIED
        };
        proof {
            assert(16usize | 2 | 4 == 22 && 16usize | 2 == 18) by (bit_vector);
            lemma_set_notified(self.state, additional);
        }
        let old_state = self.state;
        self.state = old_state | mask;
        if old_state & NOTIFIED != 0 {
            None
        } else if old_state & REGISTERING == 0 {
            self.waker.take()
        } else {
            None
        }
    }

    /// Marks the slot as free of notifications in progress.
    pub fn end_notify(&mut self)
        ensures
            final(self).state == old(self).state & !NOTIFYING,
            flags(final(self).state) == notify_ended(flags(old(self).state)),
            final(self).next == old(self).next,
            final(self).prev == old(self).prev,
            final(self).waker == old(self).waker,
    {
        proof {
            lemma_clear(self.state);
        }
        self.state = self.state & !NOTIFYING;
    }

    /// Notifies this listener. Returns the waker that is to be woken by it.
    pub fn notify_quietly(&mut self, additional: bool) -> (waker: Option<Waker>)
        ensures
            flags(final(self).state) == notify_ended(
                notify_begun(flags(old(self).state), additional),
            ),
            final(self).state == (old(self).state | (if additional { 22 } else { 18 }))
                & !NOTIFYING,
            final(self).next == old(self).next,
            final(self).prev == old(self).prev,
            if notifier_wakes(flags(old(self).state)) {
                waker == old(self).waker && final(self).waker is None
            } else {
                waker is None && final(self).waker == old(self).waker
            },
    {
        let waker = self.begin_notify(additional);
        self.end_notify();
        waker
    }

    /// Notifies this listener and wakes its waker.
    pub fn notify(&mut self, additional: bool)
        ensures
            flags(final(self).state) == notify_ended(
                notify_begun(flags(old(self).state), additional),
            ),
            final(self).state == (old(self).state | (if additional { 22 } else { 18 }))
                & !NOTIFYING,
            final(self).next == old(self).next,
            final(self).prev == old(self).prev,
            final(self).waker == (if notifier_wakes(flags(old(self).state)) {
                None
            } else {
                old(self).waker
            }),
            notifier_wakes(flags(old(self).state)) && old(self).waker is Some ==> Task::Waker(
                old(self).waker->0,
            ).was_woken(),
    {
        match self.notify_quietly(additional) {
            Some(waker) => Task::Waker(waker).wake(),
            None => {},
        }
    }

    /// Announces that a waker is going to be registered. Returns `false` if the
    /// listener is notified, so that there is nothing to wait for.
    pub fn begin_register(&mut self) -> (waiting: bool)
        ensures
            waiting == listener_waits(flags(old(self).state)),
            final(self).state == old(self).state | REGISTERING,
            flags(final(self).state) == register_begun(flags(old(self).state)),
            final(self).next == old(self).next,
            final(self).prev == old(self).prev,
            final(self).waker == old(self).waker,
    {
        proof {
            lemma_clear(self.state);
        }
        let old_state = self.state;
        self.state = old_state | REGISTERING;
        old_state & NOTIFIED == 0
    }

    /// Announces that a waker has been registered. If a notification came in
    /// the meantime, the waker is returned to be woken.
    pub fn end_register(&mut self) -> (waker: Option<Waker>)
        ensures
            final(self).state == old(self).state & !REGISTERING,
            flags(final(self).state) == register_ended(flags(old(self).state)),
            final(self).next == old(self).next,
            final(self).prev == old(self).prev,
            if listener_wakes(flags(old(self).state)) {
                waker == old(self).waker && final(self).waker is None
            } else {
                waker is None && final(self).waker == old(self).waker
            },
    {
        proof {
            lemma_clear(self.state);
        }
        let old_state = self.state;
        self.state = old_state & !REGISTERING;
        if old_state & NOTIFIED != 0 {
            self.waker.take()
        } else {
            None
        }
    }

    /// Registers a waker with this listener. If the listener is notified
    /// already, the waker is woken at once instead.
    pub fn register(&mut self, waker: &Waker)
        ensures
            final(self).next == old(self).next,
            final(self).prev == old(self).prev,
            flags(final(self).state) == register_ended(flags(old(self).state)),
            flags(old(self).state).notified ==> woken_by_ref(*waker),
            if flags(old(self).state).notified {
                final(self).state == old(self).state & !REGISTERING && final(self).waker == old(
                    self,
                ).waker
            } else {
                &&& !flags(old(self).state).registering ==> final(self).state == old(self).state
                &&& final(self).waker matches Some(kept) && match old(self).waker {
                    Some(other) => Task::Waker(other).may_become(
                        TaskRef::Waker(waker),
                        Task::Waker(kept),
                    ),
                    None => TaskRef::Waker(waker).copies_to(Task::Waker(kept)),
                }
            },
    {
        proof {
            lemma_clear(self.state);
            lemma_clear(self.state | REGISTERING);
        }
        if !self.begin_register() {
            self.state = self.state & !REGISTERING;
            wake_by_ref(waker);
            return;
        }
        let kept = match self.waker.take() {
            Some(w) => if waker.will_wake(&w) {
                w
            } else {
                waker.clone()
            },
            None => waker.clone(),
        };
        self.waker = Some(kept);
        match self.end_register() {
            Some(waker) => Task::Waker(waker).wake(),
            None => {},
        }
    }
}

} // verus!
