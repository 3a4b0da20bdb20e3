//! The state of an event whose list is guarded by one lock.
//!
//! Whoever calls these functions holds the lock; exclusive access stands for it.

use crate::linked_list::list::{joined, lemma_joined, List, QueueStrategy};
use crate::notify::{carried_out, has_tags, GenericNotify, Notification, OneTag};
use crate::roster::{
    all_stay, granted, has_key, is_pollable, lemma_carried_out_stay, lemma_passed_on,
    lemma_registered_stay, lemma_removed_stay, notified_count, others_stay, published, registered,
    removed, state_of, tag_of, without, woken, woken_by_removal, Roster,
};
use crate::state::{RegisterResult, State};
use crate::task::{all_woken, Task, TaskRef, TaskSink, WakeNow};
use crate::util::Identity;
use parking::Unparker;
use std::task::Waker;
use vstd::prelude::*;

verus! {

/// Inner state of an event.
pub struct Inner<T> {
    notified: usize,
    list: List<T>,
    identity: Identity,
}

/// Inner state of a listener.
#[derive(Debug)]
pub struct Listener {
    /// The key of the listener's entry, until its notification is picked up.
    pub entry: Option<usize>,
}

/// What a blocked thread has to do next.
#[derive(Debug, PartialEq, Eq)]
pub enum WaitStep<T> {
    /// Stop waiting. There is a tag if a notification was received.
    Finished(Option<T>),
    /// Go to sleep, then come back with this key.
    Park(usize),
}

/// How a blocked thread goes to sleep.
#[derive(Clone, Copy, Debug, PartialEq, Eq, Structural)]
pub enum Sleep {
    /// Until it is woken.
    UntilWoken,
    /// Until it is woken, but no longer than this.
    For(u128),
    /// Not at all: its deadline is reached.
    Expired,
}

/// Decides how to go to sleep at the time `now`. Times are counted in one unit
/// from one moment on.
pub fn go_to_sleep(now: u128, deadline: Option<u128>) -> (sleep: Sleep)
    ensures
        sleep == match deadline {
            None => Sleep::UntilWoken,
            Some(end) => if now >= end {
                Sleep::Expired
            } else {
                Sleep::For((end - now) as u128)
            },
        },
{
    match deadline {
        None => Sleep::UntilWoken,
        Some(end) => if now >= end {
            Sleep::Expired
        } else {
            Sleep::For(end - now)
        },
    }
}

impl<T> View for Inner<T> {
    type V = Roster<T>;

    closed spec fn view(&self) -> Roster<T> {
        self.list@
    }
}

impl<T> Inner<T> {
    /// What tells this state apart from that of other events.
    pub closed spec fn id(&self) -> usize {
        self.identity.id()
    }

    /// The order in which listeners are notified.
    pub closed spec fn order_by(&self) -> QueueStrategy {
        self.list.order_by()
    }

    /// The list is in order, the published counter goes with it, and the state
    /// can be told apart from that of other events.
    pub closed spec fn wf(&self) -> bool {
        &&& self.identity.wf()
        &&& self.list.wf()
        &&& self.notified == published(self@)
    }

    /// What can be known of the listeners of an event.
    pub proof fn lemma_inner(&self)
        requires
            self.wf(),
        ensures
            crate::roster::keys(self@).no_duplicates(),
            forall|i: int| 0 <= i < self@.len() ==> !((#[trigger] self@[i]).1 is NotifiedTaken),
            self.order_by() is Fifo ==> crate::roster::is_fifo(self@),
            0 <= notified_count(self@) <= self@.len() <= usize::MAX,
    {
        self.list.lemma_list();
    }

    /// Creates the state of an event without listeners.
    pub fn new(strategy: QueueStrategy) -> (inner: Self)
        ensures
            inner.wf(),
            inner@ == Roster::<T>::empty(),
            inner.order_by() == strategy,
    {
        Inner { notified: usize::MAX, list: List::new(strategy), identity: Identity::new() }
    }

    /// Publishes the number of notified listeners, before the lock is released.
    fn publish(&mut self)
        requires
            old(self).identity.wf(),
            old(self).list.wf(),
        ensures
            final(self).wf(),
            final(self).list == old(self).list,
            final(self).identity == old(self).identity,
    {
        let notified = self.list.notified();
        self.notified = if notified < self.list.len() {
            notified
        } else {
            usize::MAX
        };
    }

    /// The identity of this state.
    pub fn identity(&self) -> (identity: &Identity)
        ensures
            identity.id() == self.id(),
            self.wf() ==> identity.wf(),
    {
        &self.identity
    }

    /// Whether fewer than `limit` listeners are notified, and not all.
    pub fn notifyable(&self, limit: usize) -> (b: bool)
        requires
            self.wf(),
        ensures
            b == (published(self@) < limit),
    {
        self.notified < limit
    }

    /// Whether any listener is notified.
    pub fn is_notified(&self) -> (b: bool)
        requires
            self.wf(),
        ensures
            b == (notified_count(self@) > 0),
    {
        proof {
            self.lemma_inner();
        }
        self.notified > 0 && self.list.len() > 0
    }

    /// The number of listeners.
    pub fn total_listeners(&self) -> (len: usize)
        requires
            self.wf(),
        ensures
            len == self@.len(),
    {
        self.list.len()
    }

    /// The number of listeners that are notified.
    pub fn notified_listeners(&self) -> (notified: usize)
        requires
            self.wf(),
        ensures
            notified == notified_count(self@),
    {
        self.list.notified()
    }

    /// Creates a listener.
    pub fn listen(&mut self) -> (listener: Listener)
        requires
            old(self).wf(),
        ensures
            final(self).wf(),
            final(self).id() == old(self).id(),
            final(self).order_by() == old(self).order_by(),
            listener.entry is Some,
            !has_key(old(self)@, listener.entry->0),
            final(self)@ == joined(old(self)@, old(self).order_by(), listener.entry->0),
            has_key(final(self)@, listener.entry->0),
            state_of(final(self)@, listener.entry->0) is Created,
            all_stay(old(self)@, final(self)@),
    {
        let key = self.list.insert();
        proof {
            old(self).list.lemma_list();
            lemma_joined(old(self)@, self.order_by(), key);
        }
        self.publish();
        Listener { entry: Some(key) }
    }

    /// Notifies listeners, and returns how many. Puts the tasks to be woken
    /// behind those in `tasks`.
    pub fn notify_into<N: Notification<Tag = T>, S: TaskSink>(
        &mut self,
        notify: N,
        tasks: &mut S,
    ) -> (count: usize)
        requires
            old(self).wf(),
            has_tags(old(self)@, notify),
        ensures
            final(self).wf(),
            final(self).id() == old(self).id(),
            final(self).order_by() == old(self).order_by(),
            carried_out(old(self)@, notify, final(self)@),
            count == granted(old(self)@, notify.asks(), notify.wants_additional()),
            final(tasks).gathered() == old(tasks).gathered() + woken(old(self)@, count as nat),
            all_stay(old(self)@, final(self)@),
    {
        let count = self.list.notify_into(notify, tasks);
        proof {
            old(self).list.lemma_list();
            lemma_carried_out_stay(old(self)@, notify, self@);
        }
        self.publish();
        count
    }

    /// Notifies listeners, wakes their tasks, and returns how many.
    pub fn notify<N: Notification<Tag = T>>(&mut self, notify: N) -> (count: usize)
        requires
            old(self).wf(),
            has_tags(old(self)@, notify),
        ensures
            final(self).wf(),
            final(self).id() == old(self).id(),
            final(self).order_by() == old(self).order_by(),
            carried_out(old(self)@, notify, final(self)@),
            count == granted(old(self)@, notify.asks(), notify.wants_additional()),
            all_stay(old(self)@, final(self)@),
            all_woken(woken(old(self)@, count as nat)),
    {
        let mut tasks = WakeNow::new();
        let count = self.notify_into(notify, &mut tasks);
        tasks.attest();
        proof {
            assert(tasks.gathered() =~= woken(old(self)@, count as nat));
        }
        count
    }

    /// Removes a listener without passing its notification on. Returns whether
    /// it had one.
    pub fn discard(&mut self, listener: &mut Listener) -> (notified: bool)
        requires
            old(self).wf(),
            old(listener).entry matches Some(key) ==> has_key(old(self)@, key),
        ensures
            final(self).wf(),
            final(self).id() == old(self).id(),
            final(self).order_by() == old(self).order_by(),
            final(listener).entry is None,
            match old(listener).entry {
                Some(key) => {
                    &&& final(self)@ == without(old(self)@, key)
                    &&& others_stay(old(self)@, final(self)@, key)
                    &&& notified == state_of(old(self)@, key).notified()
                },
                None => final(self)@ == old(self)@ && !notified,
            },
    {
        match listener.entry.take() {
            Some(key) => {
                proof {
                    self.list.lemma_list();
                    lemma_removed_stay(self@, key, false);
                }
                let state = self.list.remove(key);
                self.publish();
                state.is_notified()
            },
            None => false,
        }
    }

    /// Polls a listener for its notification. If there is none, `waker` is woken
    /// when there is.
    pub fn poll(&mut self, listener: &mut Listener, waker: &Waker) -> (ready: Option<T>)
        requires
            old(self).wf(),
            old(listener).entry is Some,
            is_pollable(old(self)@, old(listener).entry->0),
        ensures
            final(self).wf(),
            final(self).id() == old(self).id(),
            final(self).order_by() == old(self).order_by(),
            registered(
                old(self)@,
                old(listener).entry->0,
                TaskRef::Waker(waker),
                final(self)@,
                match ready {
                    Some(tag) => RegisterResult::Notified(tag),
                    None => RegisterResult::Registered,
                },
            ),
            final(listener).entry == (if ready is Some {
                None
            } else {
                old(listener).entry
            }),
            others_stay(old(self)@, final(self)@, old(listener).entry->0),
            ready is None ==> all_stay(old(self)@, final(self)@),
    {
        let key = listener.entry.unwrap();
        let result = self.list.register(key, TaskRef::Waker(waker));
        proof {
            old(self).list.lemma_list();
            lemma_registered_stay(old(self)@, key, TaskRef::Waker(waker), self@, result);
        }
        self.publish();
        match result {
            RegisterResult::Notified(tag) => {
                listener.entry = None;
                Some(tag)
            },
            _ => None,
        }
    }

    /// Begins to block on a listener. The listener is used up by it.
    pub fn wait(&mut self, listener: &mut Listener, unparker: &Unparker) -> (step: WaitStep<T>)
        requires
            old(self).wf(),
            old(listener).entry is Some,
            has_key(old(self)@, old(listener).entry->0),
        ensures
            final(self).wf(),
            final(self).id() == old(self).id(),
            final(self).order_by() == old(self).order_by(),
            final(listener).entry is None,
            match step {
                WaitStep::Finished(tag) => tag is Some && registered(
                    old(self)@,
                    old(listener).entry->0,
                    TaskRef::Unparker(unparker),
                    final(self)@,
                    RegisterResult::Notified(tag->0),
                ),
                WaitStep::Park(key) => key == old(listener).entry->0 && registered(
                    old(self)@,
                    key,
                    TaskRef::Unparker(unparker),
                    final(self)@,
                    RegisterResult::Registered,
                ),
            },
            others_stay(old(self)@, final(self)@, old(listener).entry->0),
            step is Park ==> has_key(final(self)@, old(listener).entry->0),
    {
        let key = listener.entry.take().unwrap();
        let result = self.list.register(key, TaskRef::Unparker(unparker));
        proof {
            old(self).list.lemma_list();
            lemma_registered_stay(old(self)@, key, TaskRef::Unparker(unparker), self@, result);
        }
        self.publish();
        match result {
            RegisterResult::Notified(tag) => WaitStep::Finished(Some(tag)),
            _ => WaitStep::Park(key),
        }
    }

    /// Goes on after a blocked thread woke up: picks the notification up if
    /// there is one, and sends the thread back to sleep if not.
    pub fn wait_unparked(&mut self, key: usize) -> (step: WaitStep<T>)
        requires
            old(self).wf(),
            has_key(old(self)@, key),
        ensures
            final(self).wf(),
            final(self).id() == old(self).id(),
            final(self).order_by() == old(self).order_by(),
            match state_of(old(self)@, key) {
                State::Notified { tag, .. } => step == WaitStep::Finished(Some(tag))
                    && final(self)@ == without(old(self)@, key),
                _ => step == WaitStep::<T>::Park(key) && final(self)@ == old(self)@,
            },
            others_stay(old(self)@, final(self)@, key),
    {
        proof {
            self.list.lemma_list();
            lemma_removed_stay(self@, key, false);
        }
        if self.list.is_notified(key) {
            let mut state = self.list.remove(key);
            self.publish();
            WaitStep::Finished(state.take())
        } else {
            WaitStep::Park(key)
        }
    }

    /// Stops waiting at the deadline. A notification that came in the last
    /// moment still counts.
    pub fn wait_expired(&mut self, key: usize) -> (tag: Option<T>)
        requires
            old(self).wf(),
            has_key(old(self)@, key),
        ensures
            final(self).wf(),
            final(self).id() == old(self).id(),
            final(self).order_by() == old(self).order_by(),
            tag == tag_of(state_of(old(self)@, key)),
            final(self)@ == without(old(self)@, key),
            others_stay(old(self)@, final(self)@, key),
    {
        proof {
            self.list.lemma_list();
            lemma_removed_stay(self@, key, false);
        }
        let mut state = self.list.remove(key);
        self.publish();
        state.take()
    }

    /// Drops a listener. A notification that it had is passed on. Puts the task
    /// to be woken by that behind those in `tasks`.
    pub fn remove_into<S: TaskSink>(&mut self, listener: &mut Listener, tasks: &mut S)
        requires
            old(self).wf(),
            old(listener).entry matches Some(key) ==> has_key(old(self)@, key),
        ensures
            final(self).wf(),
            final(self).id() == old(self).id(),
            final(self).order_by() == old(self).order_by(),
            final(listener).entry is None,
            match old(listener).entry {
                Some(key) => {
                    &&& final(self)@ == removed(old(self)@, key, true)
                    &&& final(tasks).gathered() == old(tasks).gathered() + woken_by_removal(
                        old(self)@,
                        key,
                    )
                    &&& others_stay(old(self)@, final(self)@, key)
                },
                None => final(self)@ == old(self)@ && final(tasks).gathered() == old(tasks).gathered(),
            },
    {
        match listener.entry.take() {
            Some(key) => {
                proof {
                    self.list.lemma_list();
                    lemma_removed_stay(self@, key, true);
                }
                let state = self.list.remove(key);
                proof {
                    assert(tasks.gathered() + Seq::<Task>::empty() =~= tasks.gathered());
                }
                match state {
                    State::Notified { additional, tag } => {
                        let ghost r1 = self@;
                        proof {
                            self.list.lemma_list();
                        }
                        let notify = GenericNotify::new(1, additional, OneTag { tag: Some(tag) });
                        self.list.notify_into(notify, tasks);
                        proof {
                            lemma_passed_on(r1, notify, self@);
                        }
                    },
                    _ => {},
                }
                self.publish();
            },
            None => {},
        }
    }

    /// Drops a listener. A notification that it had is passed on.
    pub fn remove(&mut self, listener: &mut Listener)
        requires
            old(self).wf(),
            old(listener).entry matches Some(key) ==> has_key(old(self)@, key),
        ensures
            final(self).wf(),
            final(self).id() == old(self).id(),
            final(self).order_by() == old(self).order_by(),
            final(listener).entry is None,
            final(self)@ == match old(listener).entry {
                Some(key) => removed(old(self)@, key, true),
                None => old(self)@,
            },
            old(listener).entry matches Some(key) ==> others_stay(old(self)@, final(self)@, key),
            old(listener).entry matches Some(key) ==> all_woken(woken_by_removal(old(self)@, key)),
    {
        let mut tasks = WakeNow::new();
        self.remove_into(listener, &mut tasks);
        tasks.attest();
        proof {
            match old(listener).entry {
                Some(key) => {
                    assert(tasks.gathered() =~= woken_by_removal(old(self)@, key));
                },
                None => {},
            }
        }
    }
}

} // verus!
