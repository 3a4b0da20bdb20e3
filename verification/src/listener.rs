//! A listener whose whole state is one word, so that it can be shared.
//!
//! The word says where the listener stands and whether it is in the queue of
//! its event. Every operation looks at the word, decides, and replaces it; the
//! decisions are functions of their own, for those who share the word.

use crate::task::Task;
use crate::util::replace;
use parking::Unparker;
use std::task::Waker;
use vstd::prelude::*;

verus! {

/// The part of the word that says where the listener stands.
pub const LISTEN_STATE_MASK: usize = 7;

/// The part of the word that says whether the listener is in the queue.
pub const QUEUED_BIT: usize = 8;

/// Where a listener stands.
#[derive(Clone, Copy, Debug, PartialEq, Eq, Structural)]
pub enum ListenState {
    /// It has just been created and has no waker yet.
    Created,
    /// It has a waker.
    Registered,
    /// Somebody is changing the waker.
    SettingWaker,
    /// It has received a plain notification.
    Notified,
    /// It has received an additional notification.
    NotifiedAdditional,
    /// Nobody pays attention to it any more.
    Orphaned,
}

/// What the word of a listener says.
#[derive(Clone, Copy, Debug, PartialEq, Eq, Structural)]
pub struct State {
    /// Where the listener stands.
    pub listen: ListenState,
    /// Whether it is in the queue.
    pub queued: bool,
}

/// The number that stands for a listen state.
pub open spec fn code(listen: ListenState) -> usize {
    match listen {
        ListenState::Created => 0,
        ListenState::Registered => 1,
        ListenState::SettingWaker => 2,
        ListenState::Notified => 3,
        ListenState::NotifiedAdditional => 4,
        ListenState::Orphaned => 5,
    }
}

/// The word that stands for a state.
pub open spec fn word_of(state: State) -> usize {
    (code(state.listen) + if state.queued {
        8int
    } else {
        0
    }) as usize
}

/// A word that says something.
pub open spec fn is_word(word: usize) -> bool {
    word & LISTEN_STATE_MASK < 6
}

/// What a word says. All bits above the queued bit are ignored.
pub open spec fn state_in(word: usize) -> State {
    State {
        listen: match word & LISTEN_STATE_MASK {
            0 => ListenState::Created,
            1 => ListenState::Registered,
            2 => ListenState::SettingWaker,
            3 => ListenState::Notified,
            4 => ListenState::NotifiedAdditional,
            _ => ListenState::Orphaned,
        },
        queued: word & QUEUED_BIT != 0,
    }
}

/// A word says what it was made to say.
pub proof fn lemma_word(state: State)
    ensures
        is_word(word_of(state)),
        state_in(word_of(state)) == state,
{
    assert(0usize & 7 == 0 && 1usize & 7 == 1 && 2usize & 7 == 2 && 3usize & 7 == 3 && 4usize & 7
        == 4 && 5usize & 7 == 5) by (bit_vector);
    assert(8usize & 7 == 0 && 9usize & 7 == 1 && 10usize & 7 == 2 && 11usize & 7 == 3 && 12usize & 7
        == 4 && 13usize & 7 == 5) by (bit_vector);
    assert(0usize & 8 == 0 && 1usize & 8 == 0 && 2usize & 8 == 0 && 3usize & 8 == 0 && 4usize & 8
        == 0 && 5usize & 8 == 0) by (bit_vector);
    assert(8usize & 8 != 0 && 9usize & 8 != 0 && 10usize & 8 != 0 && 11usize & 8 != 0 && 12usize & 8
        != 0 && 13usize & 8 != 0) by (bit_vector);
}

/// The low bits of a word are the number of the listen state, in the order in
/// which the states are declared, and one bit more says whether the listener is
/// in the queue.
pub proof fn lemma_word_numbers(state: State)
    ensures
        word_of(state) % 8 == match state.listen {
            ListenState::Created => 0int,
            ListenState::Registered => 1,
            ListenState::SettingWaker => 2,
            ListenState::Notified => 3,
            ListenState::NotifiedAdditional => 4,
            ListenState::Orphaned => 5,
        },
        word_of(state) / 8 == if state.queued {
            1int
        } else {
            0
        },
{
}

/// Two states with the same word are the same.
pub proof fn lemma_words_apart(a: State, b: State)
    ensures
        word_of(a) == word_of(b) ==> a == b,
{
    lemma_word(a);
    lemma_word(b);
}

impl State {
    /// Reads a word.
    pub fn from_word(word: usize) -> (state: State)
        requires
            is_word(word),
        ensures
            state == state_in(word),
    {
        let listen = match word & LISTEN_STATE_MASK {
            0 => ListenState::Created,
            1 => ListenState::Registered,
            2 => ListenState::SettingWaker,
            3 => ListenState::Notified,
            4 => ListenState::NotifiedAdditional,
            _ => ListenState::Orphaned,
        };
        State { listen, queued: word & QUEUED_BIT != 0 }
    }

    /// Makes the word that stands for this state.
    pub fn to_word(self) -> (word: usize)
        ensures
            word == word_of(self),
    {
        let low: usize = match self.listen {
            ListenState::Created => 0,
            ListenState::Registered => 1,
            ListenState::SettingWaker => 2,
            ListenState::Notified => 3,
            ListenState::NotifiedAdditional => 4,
            ListenState::Orphaned => 5,
        };
        let high: usize = if self.queued {
            QUEUED_BIT
        } else {
            0
        };
        proof {
            assert(low < 8 ==> low | 8 == low + 8 && low | 0 == low) by (bit_vector);
        }
        low | high
    }
}

/// A waker or thread handle that is used when the listener is notified.
#[derive(Debug)]
pub enum Wakeup {
    /// There is none.
    Nobody,
    /// The waker of an asynchronous task.
    Waker(Waker),
    /// The handle of a blocked thread.
    Thread(Unparker),
}

impl Wakeup {
    /// The task or the thread was woken, if there is one.
    pub open spec fn was_woken(self) -> bool {
        match self {
            Wakeup::Nobody => true,
            Wakeup::Waker(waker) => Task::Waker(waker).was_woken(),
            Wakeup::Thread(unparker) => Task::Unparker(unparker).was_woken(),
        }
    }

    /// Wakes the task or the thread, if there is one.
    pub fn wake(self)
        ensures
            self.was_woken(),
    {
        match self {
            Wakeup::Nobody => {},
            Wakeup::Waker(waker) => Task::Waker(waker).wake(),
            Wakeup::Thread(unparker) => Task::Unparker(unparker).wake(),
        }
    }
}

/// The state to go to so as to be in the queue, if the listener is not.
pub fn enqueue_step(state: State) -> (next: Option<State>)
    ensures
        next == if state.queued {
            None
        } else {
            Some(State { queued: true, ..state })
        },
{
    if state.queued {
        None
    } else {
        Some(State { queued: true, ..state })
    }
}

/// The state to go to so as to be out of the queue, if the listener is in it.
pub fn dequeue_step(state: State) -> (next: Option<State>)
    ensures
        next == if state.queued {
            Some(State { queued: false, ..state })
        } else {
            None
        },
{
    if state.queued {
        Some(State { queued: false, ..state })
    } else {
        None
    }
}

/// What somebody who shares a listener does next.
#[derive(Clone, Copy, Debug, PartialEq, Eq, Structural)]
pub enum Step {
    /// Nothing: there is nothing more to do.
    Stop,
    /// Waits until whoever is changing the waker has finished, and looks again.
    Wait,
    /// Goes to the given state.
    Go(State),
    /// Goes to the first state, in which the waker is theirs alone, and from
    /// there to the second.
    Lock {
        /// The state in which the waker is theirs.
        held: State,
        /// The state in which the listener ends up.
        done: State,
    },
}

/// How to orphan a listener.
pub open spec fn orphaning(state: State) -> Step {
    match state.listen {
        ListenState::Orphaned => Step::Stop,
        ListenState::SettingWaker => Step::Wait,
        _ => Step::Go(State { listen: ListenState::Orphaned, ..state }),
    }
}

/// How to register a waker with a listener.
pub open spec fn registering(state: State) -> Step {
    match state.listen {
        ListenState::Created | ListenState::Registered => Step::Lock {
            held: State { listen: ListenState::SettingWaker, ..state },
            done: State { listen: ListenState::Registered, ..state },
        },
        ListenState::SettingWaker => Step::Wait,
        _ => Step::Stop,
    }
}

/// How to notify a listener.
pub open spec fn notifying(state: State, additional: bool) -> Step {
    let done = State {
        listen: if additional {
            ListenState::NotifiedAdditional
        } else {
            ListenState::Notified
        },
        ..state
    };
    match state.listen {
        ListenState::Created => Step::Go(done),
        ListenState::Registered => Step::Lock {
            held: State { listen: ListenState::SettingWaker, ..state },
            done,
        },
        ListenState::SettingWaker => Step::Wait,
        _ => Step::Stop,
    }
}

/// The state that a step ends in.
pub open spec fn end_of(step: Step, state: State) -> State {
    match step {
        Step::Go(done) => done,
        Step::Lock { done, .. } => done,
        _ => state,
    }
}

/// Decides how to orphan a listener.
pub fn orphan_step(state: State) -> (step: Step)
    ensures
        step == orphaning(state),
{
    match state.listen {
        ListenState::Orphaned => Step::Stop,
        ListenState::SettingWaker => Step::Wait,
        _ => Step::Go(State { listen: ListenState::Orphaned, ..state }),
    }
}

/// Decides how to register a waker with a listener.
pub fn register_step(state: State) -> (step: Step)
    ensures
        step == registering(state),
{
    match state.listen {
        ListenState::Created | ListenState::Registered => Step::Lock {
            held: State { listen: ListenState::SettingWaker, ..state },
            done: State { listen: ListenState::Registered, ..state },
        },
        ListenState::SettingWaker => Step::Wait,
        _ => Step::Stop,
    }
}

/// Decides how to notify a listener.
pub fn notify_step(state: State, additional: bool) -> (step: Step)
    ensures
        step == notifying(state, additional),
{
    let listen = if additional {
        ListenState::NotifiedAdditional
    } else {
        ListenState::Notified
    };
    let done = State { listen, ..state };
    match state.listen {
        ListenState::Created => Step::Go(done),
        ListenState::Registered => Step::Lock {
            held: State { listen: ListenState::SettingWaker, ..state },
            done,
        },
        ListenState::SettingWaker => Step::Wait,
        _ => Step::Stop,
    }
}

/// The notification that a listener in the given state has received: whether
/// it is an additional one, if there is one.
pub open spec fn notification_in(listen: ListenState) -> Option<bool> {
    match listen {
        ListenState::Notified => Some(false),
        ListenState::NotifiedAdditional => Some(true),
        _ => None,
    }
}

/// Whether nothing holds the listener any more once it is out of the queue.
pub open spec fn dequeue_is_last(state: State) -> bool {
    state.queued && state.listen is Orphaned
}

/// Whether nothing holds the listener any more once it is let go of.
pub open spec fn orphan_is_last(state: State) -> bool {
    !state.queued && !(state.listen is Orphaned)
}

/// A listener, held by whoever has exclusive access to it.
#[derive(Debug)]
pub struct Listener {
    state: usize,
    waker: Wakeup,
}

impl Listener {
    /// What the word of the listener says.
    pub closed spec fn state(&self) -> State {
        state_in(self.state)
    }

    /// What is woken when the listener is notified.
    pub closed spec fn wakeup(&self) -> Wakeup {
        self.waker
    }

    /// The word says something, and nobody is in the middle of changing the
    /// waker.
    pub closed spec fn wf(&self) -> bool {
        is_word(self.state) && self.state == word_of(self.state()) && !(self.state().listen
            is SettingWaker)
    }

    /// Creates a listener.
    pub fn new() -> (listener: Self)
        ensures
            listener.wf(),
            listener.state() == (State { listen: ListenState::Created, queued: false }),
            listener.wakeup() is Nobody,
    {
        let state = State { listen: ListenState::Created, queued: false };
        proof {
            lemma_word(state);
        }
        Listener { state: state.to_word(), waker: Wakeup::Nobody }
    }

    /// Replaces the word, which nobody else has changed meanwhile.
    fn go(&mut self, state: State)
        requires
            is_word(old(self).state),
        ensures
            final(self).state == word_of(state),
            is_word(final(self).state),
            final(self).state() == state,
            final(self).waker == old(self).waker,
    {
        proof {
            lemma_word(state);
        }
        self.state = state.to_word();
    }

    /// Puts the listener into the queue.
    pub fn enqueue(&mut self)
        requires
            old(self).wf(),
        ensures
            final(self).wf(),
            final(self).state() == (State { queued: true, ..old(self).state() }),
            final(self).wakeup() == old(self).wakeup(),
    {
        match enqueue_step(State::from_word(self.state)) {
            Some(next) => self.go(next),
            None => {},
        }
    }

    /// Takes the listener out of the queue. Returns `true` if that was the last
    /// thing that held it.
    pub fn dequeue(&mut self) -> (last: bool)
        requires
            old(self).wf(),
        ensures
            final(self).wf(),
            final(self).state() == (State { queued: false, ..old(self).state() }),
            final(self).wakeup() == old(self).wakeup(),
            last == dequeue_is_last(old(self).state()),
    {
        let state = State::from_word(self.state);
        match dequeue_step(state) {
            Some(next) => {
                self.go(next);
                state.listen == ListenState::Orphaned
            },
            None => false,
        }
    }

    /// Lets go of the listener. Returns `true` if that was the last thing that
    /// held it, and the notification that it had received: whether that was an
    /// additional one.
    pub fn orphan(&mut self) -> (result: (bool, Option<bool>))
        requires
            old(self).wf(),
        ensures
            final(self).wf(),
            final(self).state() == (State {
                listen: ListenState::Orphaned,
                ..old(self).state()
            }),
            result.0 == orphan_is_last(old(self).state()),
            result.1 == notification_in(old(self).state().listen),
            if old(self).state().listen is Registered {
                final(self).wakeup() is Nobody
            } else {
                final(self).wakeup() == old(self).wakeup()
            },
    {
        let state = State::from_word(self.state);
        match orphan_step(state) {
            Step::Go(next) => self.go(next),
            _ => {
                return (false, None);
            },
        }
        let notified = match state.listen {
            ListenState::Notified => Some(false),
            ListenState::NotifiedAdditional => Some(true),
            ListenState::Registered => {
                self.waker = Wakeup::Nobody;
                None
            },
            _ => None,
        };
        (!state.queued, notified)
    }

    /// Registers what `init` makes, to be woken when the listener is notified.
    /// Returns `true` if it is notified already.
    pub fn register<F: FnOnce() -> Wakeup>(&mut self, init: F) -> (notified: bool)
        requires
            old(self).wf(),
            call_requires(init, ()),
        ensures
            final(self).wf(),
            notified == notification_in(old(self).state().listen) is Some,
            final(self).state() == end_of(registering(old(self).state()), old(self).state()),
            if old(self).state().listen is Created || old(self).state().listen is Registered {
                call_ensures(init, (), final(self).wakeup())
            } else {
                final(self).wakeup() == old(self).wakeup()
            },
    {
        let state = State::from_word(self.state);
        match register_step(state) {
            Step::Lock { held, done } => {
                self.go(held);
                self.waker = init();
                self.go(done);
                false
            },
            _ => match state.listen {
                ListenState::Notified | ListenState::NotifiedAdditional => true,
                _ => false,
            },
        }
    }

    /// Notifies the listener. Returns whether that changed anything, and what is
    /// to be woken.
    pub fn notify_quietly(&mut self, additional: bool) -> (result: (bool, Wakeup))
        requires
            old(self).wf(),
        ensures
            final(self).wf(),
            final(self).state() == end_of(
                notifying(old(self).state(), additional),
                old(self).state(),
            ),
            result.0 == (old(self).state().listen is Created || old(self).state().listen
                is Registered),
            if old(self).state().listen is Registered {
                result.1 == old(self).wakeup() && final(self).wakeup() is Nobody
            } else {
                result.1 is Nobody && final(self).wakeup() == old(self).wakeup()
            },
    {
        match notify_step(State::from_word(self.state), additional) {
            Step::Go(done) => {
                self.go(done);
                (true, Wakeup::Nobody)
            },
            Step::Lock { held, done } => {
                self.go(held);
                let wakeup = replace(&mut self.waker, Wakeup::Nobody);
                self.go(done);
                (true, wakeup)
            },
            _ => (false, Wakeup::Nobody),
        }
    }

    /// Notifies the listener and wakes what is registered with it. Returns
    /// whether the notification did anything.
    pub fn notify(&mut self, additional: bool) -> (changed: bool)
        requires
            old(self).wf(),
        ensures
            final(self).wf(),
            final(self).state() == end_of(
                notifying(old(self).state(), additional),
                old(self).state(),
            ),
            changed == (old(self).state().listen is Created || old(self).state().listen
                is Registered),
            final(self).wakeup() == (if old(self).state().listen is Registered {
                Wakeup::Nobody
            } else {
                old(self).wakeup()
            }),
            old(self).state().listen is Registered ==> old(self).wakeup().was_woken(),
    {
        let (changed, wakeup) = self.notify_quietly(additional);
        wakeup.wake();
        changed
    }
}

/// A notification reaches a listener at most once: a second one, of either
/// kind, finds nothing to do, and neither does registering a waker.
pub proof fn lemma_notified_once(state: State, first: bool, second: bool)
    requires
        state.listen is Created || state.listen is Registered,
    ensures
        ({
            let after = end_of(notifying(state, first), state);
            &&& notification_in(after.listen) == Some(first)
            &&& notifying(after, second) == Step::Stop
            &&& registering(after) == Step::Stop
            &&& after.queued == state.queued
        }),
{
}

/// Of taking a listener out of the queue and letting go of it, whichever comes
/// last, and only that, is told to drop the listener.
pub proof fn lemma_dropped_once(state: State)
    requires
        state.queued,
        !(state.listen is Orphaned),
        !(state.listen is SettingWaker),
    ensures
        ({
            let let_go = end_of(orphaning(state), state);
            let taken_out = State { queued: false, ..state };
            let neither = State { queued: false, ..let_go };
            &&& !orphan_is_last(state) && dequeue_is_last(let_go)
            &&& !dequeue_is_last(state) && orphan_is_last(taken_out)
            &&& !orphan_is_last(let_go) && !dequeue_is_last(taken_out)
            &&& !orphan_is_last(neither) && !dequeue_is_last(neither)
        }),
{
}

/// To be woken is what it is for a task and for a thread.
pub proof fn lemma_wakeup_is_a_task(wakeup: Wakeup)
    requires
        wakeup.was_woken(),
    ensures
        wakeup matches Wakeup::Waker(waker) ==> Task::Waker(waker).was_woken(),
        wakeup matches Wakeup::Thread(unparker) ==> Task::Unparker(unparker).was_woken(),
{
}

/// No operation but to enter and to leave the queue touches the queue.
pub proof fn lemma_queue_untouched(state: State, additional: bool)
    ensures
        end_of(registering(state), state).queued == state.queued,
        end_of(notifying(state, additional), state).queued == state.queued,
        end_of(orphaning(state), state).queued == state.queued,
{
}

/// While somebody changes the waker, everybody else waits, and nothing is
/// received meanwhile.
pub proof fn lemma_waker_is_changed_alone(state: State, additional: bool)
    ensures
        registering(state) matches Step::Lock { held, .. } ==> {
            &&& registering(held) == Step::Wait
            &&& notifying(held, additional) == Step::Wait
            &&& orphaning(held) == Step::Wait
            &&& notification_in(held.listen) is None
        },
        notifying(state, additional) matches Step::Lock { held, .. } ==> {
            &&& registering(held) == Step::Wait
            &&& notifying(held, !additional) == Step::Wait
            &&& orphaning(held) == Step::Wait
        },
{
}

/// A listener that has not received anything and is not let go of can be
/// registered with, and has a waker then. Registering is no notification.
pub proof fn lemma_registered_waits(state: State, additional: bool)
    requires
        notification_in(state.listen) is None,
        !(state.listen is Orphaned),
        !(state.listen is SettingWaker),
    ensures
        ({
            let after = end_of(registering(state), state);
            &&& after.listen is Registered
            &&& notification_in(after.listen) is None
            &&& notifying(after, additional) is Lock
            &&& notification_in(end_of(notifying(after, additional), after).listen) == Some(
                additional,
            )
        }),
{
}

/// A listener that is let go of stays so, whatever is tried, and whoever lets go
/// of it learns what it had received.
pub proof fn lemma_orphan_stays_orphaned(state: State, additional: bool)
    requires
        !(state.listen is SettingWaker),
    ensures
        ({
            let after = end_of(orphaning(state), state);
            &&& after.listen is Orphaned
            &&& notifying(after, additional) == Step::Stop
            &&& registering(after) == Step::Stop
            &&& orphaning(after) == Step::Stop
            &&& notification_in(after.listen) is None
        }),
{
}

} // verus!
