//! The state of one listener.

use crate::task::Task;
use crate::util::replace;
use vstd::prelude::*;

verus! {

/// The state of a listener that is registered with an event.
#[derive(Debug, PartialEq)]
pub enum State<T> {
    /// It has just been created.
    Created,
    /// It has received a notification.
    Notified {
        /// Whether the notification was an additional one.
        additional: bool,
        /// The tag that came with the notification.
        tag: T,
    },
    /// It has received a notification and the tag has been taken out.
    NotifiedTaken,
    /// A task or a thread is waiting on it.
    Task(Task),
}

impl<T> State<T> {
    /// Whether the listener has received a notification.
    pub open spec fn notified(self) -> bool {
        self is Notified || self is NotifiedTaken
    }

    /// Returns `true` if the listener has received a notification.
    pub fn is_notified(&self) -> (b: bool)
        ensures
            b == self.notified(),
    {
        match self {
            State::Notified { .. } | State::NotifiedTaken => true,
            State::Created | State::Task(_) => false,
        }
    }
}

impl<T> State<T> {
    /// Takes the tag out of a notified state.
    pub fn take(&mut self) -> (tag: Option<T>)
        requires
            !(*old(self) is NotifiedTaken),
        ensures
            match *old(self) {
                State::Notified { tag: held, .. } => tag == Some(held) && *final(self)
                    is NotifiedTaken,
                _ => tag is None && *final(self) == *old(self),
            },
    {
        match replace(self, State::NotifiedTaken) {
            State::Notified { tag, .. } => Some(tag),
            state => {
                *self = state;
                None
            },
        }
    }
}

/// Takes the state out of its slot, but leaves a notification where it is.
pub fn take_state<T>(slot: &mut State<T>) -> (state: State<T>)
    ensures
        old(slot).notified() ==> state is NotifiedTaken && *final(slot) == *old(slot),
        !old(slot).notified() ==> state == *old(slot) && *final(slot) is NotifiedTaken,
{
    match replace(slot, State::NotifiedTaken) {
        State::Notified { additional, tag } => replace(slot, State::Notified { additional, tag }),
        state => state,
    }
}

/// What came of registering a task with a listener.
#[derive(Debug, PartialEq, Eq)]
pub enum RegisterResult<T> {
    /// The listener had a notification, whose tag this is, and is now gone.
    Notified(T),
    /// The task will be woken when the listener gets a notification.
    Registered,
    /// The listener was never inserted into a list.
    NeverInserted,
}

} // verus!
