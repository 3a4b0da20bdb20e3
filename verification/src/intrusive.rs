//! The state of an event whose listeners carry their own links.
//!
//! Whoever calls these functions holds the lock; exclusive access stands for it.

use crate::linked_list::list::{List, QueueStrategy};
use crate::notify::{lemma_untagged, untagged, GenericNotify, NothingProducer, Notification, OneTag};
use crate::roster::{
    all_stay, granted, has_key, is_fifo, keys, lemma_carried_out_stay, lemma_newcomer, lemma_passed_on,
    lemma_registered_stay, lemma_removed_stay, notified_count, others_stay, published, registered,
    removed, state_of, woken, woken_if, Roster,
};
use crate::state::{RegisterResult, State};
use crate::task::{all_woken, Task, TaskRef, TaskSink, WakeNow};
use vstd::prelude::*;

verus! {

/// A listener that is linked into the list.
#[derive(Debug)]
pub struct Listener {
    /// The key of its link.
    pub link: usize,
}

/// The state of an event.
pub struct Inner {
    notified: usize,
    list: List<()>,
}

impl View for Inner {
    type V = Roster<()>;

    closed spec fn view(&self) -> Roster<()> {
        self.list@
    }
}

impl Inner {
    /// The list is in order, and the published counter goes with it.
    pub closed spec fn wf(&self) -> bool {
        &&& self.list.wf()
        &&& self.list.order_by() is Fifo
        &&& self.notified == published(self@)
    }

    /// The published number of notified listeners.
    pub closed spec fn known(&self) -> usize {
        self.notified
    }

    /// What can be known of the listeners.
    pub proof fn lemma_inner(&self)
        requires
            self.wf(),
        ensures
            keys(self@).no_duplicates(),
            is_fifo(self@),
            self.known() == published(self@),
            0 <= notified_count(self@) <= self@.len(),
    {
        self.list.lemma_list();
    }

    /// Creates the state of an event without listeners.
    pub fn new() -> (inner: Self)
        ensures
            inner.wf(),
            inner@ == Roster::<()>::empty(),
            inner.known() == usize::MAX,
    {
        Inner { notified: usize::MAX, list: List::new(QueueStrategy::Fifo) }
    }

    /// Publishes the number of notified listeners, before the lock is released.
    fn publish(&mut self)
        requires
            old(self).list.wf(),
            old(self).list.order_by() is Fifo,
        ensures
            final(self).wf(),
            final(self).list == old(self).list,
    {
        let notified = self.list.notified();
        self.notified = if notified < self.list.len() {
            notified
        } else {
            usize::MAX
        };
    }

    /// The number of listeners.
    pub fn len(&self) -> (len: usize)
        requires
            self.wf(),
        ensures
            len == self@.len(),
    {
        self.list.len()
    }

    /// Adds a new listener to the list.
    ///
    /// Does nothing if the listener is registered already.
    pub fn insert(&mut self, listener: &mut Option<Listener>)
        requires
            old(self).wf(),
        ensures
            final(self).wf(),
            match *old(listener) {
                Some(_) => *final(listener) == *old(listener) && final(self)@ == old(self)@,
                None => {
                    &&& *final(listener) is Some
                    &&& !has_key(old(self)@, (*final(listener))->0.link)
                    &&& final(self)@ == old(self)@.push(
                        ((*final(listener))->0.link, State::Created),
                    )
                    &&& has_key(final(self)@, (*final(listener))->0.link)
                    &&& state_of(final(self)@, (*final(listener))->0.link) is Created
                    &&& all_stay(old(self)@, final(self)@)
                },
            },
    {
        if listener.is_none() {
            let ghost before = self@;
            let link = self.list.insert();
            proof {
                old(self).list.lemma_list();
                lemma_newcomer(before, before.len() as int, link, State::<()>::Created);
            }
            *listener = Some(Listener { link });
        }
        self.publish();
    }

    /// Removes a listener from the list and returns its state. With `propagate`,
    /// a notification that it had is passed on. Puts the tasks to be woken by
    /// that behind those in `tasks`.
    pub fn remove_into<S: TaskSink>(
        &mut self,
        listener: &mut Option<Listener>,
        propagate: bool,
        tasks: &mut S,
    ) -> (state: Option<State<()>>)
        requires
            old(self).wf(),
            *old(listener) matches Some(l) ==> has_key(old(self)@, l.link),
        ensures
            final(self).wf(),
            *final(listener) is None,
            match *old(listener) {
                Some(l) => {
                    &&& state == Some(state_of(old(self)@, l.link))
                    &&& final(self)@ == removed(old(self)@, l.link, propagate)
                    &&& others_stay(old(self)@, final(self)@, l.link)
                    &&& final(tasks).gathered() == old(tasks).gathered() + woken_if(
                        old(self)@,
                        l.link,
                        propagate,
                    )
                },
                None => {
                    &&& state is None
                    &&& final(self)@ == old(self)@
                    &&& final(tasks).gathered() == old(tasks).gathered()
                },
            },
    {
        proof {
            assert(tasks.gathered() + Seq::<Task>::empty() =~= tasks.gathered());
        }
        let state = match listener.take() {
            Some(l) => {
                proof {
                    self.list.lemma_list();
                    lemma_removed_stay(self@, l.link, propagate);
                }
                let state = self.list.remove(l.link);
                match state {
                    State::Notified { additional, tag } => if propagate {
                        let ghost rest = self@;
                        proof {
                            self.list.lemma_list();
                        }
                        let notify = GenericNotify::new(1, additional, OneTag { tag: Some(tag) });
                        self.list.notify_into(notify, tasks);
                        proof {
                            lemma_passed_on(rest, notify, self@);
                        }
                    },
                    _ => {},
                }
                Some(state)
            },
            None => None,
        };
        self.publish();
        state
    }

    /// Removes a listener from the list and returns its state. With `propagate`,
    /// a notification that it had is passed on.
    pub fn remove(&mut self, listener: &mut Option<Listener>, propagate: bool) -> (state: Option<
        State<()>,
    >)
        requires
            old(self).wf(),
            *old(listener) matches Some(l) ==> has_key(old(self)@, l.link),
        ensures
            final(self).wf(),
            *final(listener) is None,
            match *old(listener) {
                Some(l) => {
                    &&& state == Some(state_of(old(self)@, l.link))
                    &&& final(self)@ == removed(old(self)@, l.link, propagate)
                    &&& others_stay(old(self)@, final(self)@, l.link)
                    &&& all_woken(woken_if(old(self)@, l.link, propagate))
                },
                None => state is None && final(self)@ == old(self)@,
            },
    {
        let mut tasks = WakeNow::new();
        let state = self.remove_into(listener, propagate, &mut tasks);
        tasks.attest();
        proof {
            match *old(listener) {
                Some(l) => {
                    assert(tasks.gathered() =~= woken_if(old(self)@, l.link, propagate));
                },
                None => {},
            }
        }
        state
    }

    /// Notifies a number of listeners. Puts the tasks to be woken behind those in
    /// `tasks`.
    pub fn notify_into<S: TaskSink>(&mut self, n: usize, additional: bool, tasks: &mut S)
        requires
            old(self).wf(),
        ensures
            final(self).wf(),
            final(self)@ == untagged(old(self)@, n, additional),
            all_stay(old(self)@, final(self)@),
            final(tasks).gathered() == old(tasks).gathered() + woken(
                old(self)@,
                granted(old(self)@, n, additional),
            ),
    {
        let ghost before = self@;
        let notify = GenericNotify::new(n, additional, NothingProducer);
        self.list.notify_into(notify, tasks);
        proof {
            lemma_untagged(before, notify, self@);
            old(self).list.lemma_list();
            lemma_carried_out_stay(before, notify, self@);
        }
        self.publish();
    }

    /// Notifies a number of listeners.
    pub fn notify(&mut self, n: usize, additional: bool)
        requires
            old(self).wf(),
        ensures
            final(self).wf(),
            final(self)@ == untagged(old(self)@, n, additional),
            all_stay(old(self)@, final(self)@),
            all_woken(woken(old(self)@, granted(old(self)@, n, additional))),
    {
        let mut tasks = WakeNow::new();
        self.notify_into(n, additional, &mut tasks);
        tasks.attest();
        proof {
            assert(tasks.gathered() =~= woken(old(self)@, granted(old(self)@, n, additional)));
        }
    }

    /// Registers a task to be woken when the listener is notified.
    ///
    /// Returns `true` if the listener was notified already, and `false`
    /// otherwise. If the listener is not inserted, returns `None`.
    pub fn register(&mut self, listener: &mut Option<Listener>, task: TaskRef) -> (notified: Option<
        bool,
    >)
        requires
            old(self).wf(),
            *old(listener) matches Some(l) ==> has_key(old(self)@, l.link),
        ensures
            final(self).wf(),
            match *old(listener) {
                Some(l) => {
                    &&& notified == Some(state_of(old(self)@, l.link) is Notified)
                    &&& registered(
                        old(self)@,
                        l.link,
                        task,
                        final(self)@,
                        if notified == Some(true) {
                            RegisterResult::Notified(())
                        } else {
                            RegisterResult::Registered
                        },
                    )
                    &&& *final(listener) == (if notified == Some(true) {
                        None
                    } else {
                        *old(listener)
                    })
                    &&& others_stay(old(self)@, final(self)@, l.link)
                    &&& notified == Some(false) ==> has_key(final(self)@, l.link)
                },
                None => {
                    &&& notified is None
                    &&& final(self)@ == old(self)@
                    &&& *final(listener) is None
                },
            },
    {
        let notified = match listener {
            Some(l) => {
                let link = l.link;
                let result = self.list.register(link, task);
                proof {
                    old(self).list.lemma_list();
                    lemma_registered_stay(old(self)@, link, task, self@, result);
                }
                match result {
                    RegisterResult::Notified(_) => {
                        *listener = None;
                        Some(true)
                    },
                    _ => Some(false),
                }
            },
            None => None,
        };
        self.publish();
        notified
    }
}

} // verus!
