//! Events and the handles that listen to them.

use crate::linked_list::list::{joined, QueueStrategy};
use crate::linked_list::mutex::{Inner, Listener as Handle, WaitStep};
use crate::notify::{
    carried_out, has_tags, lemma_nothing_to_do, lemma_untagged, untagged, IntoNotification,
    Notification,
};
use crate::roster::{
    all_stay, granted, has_key, is_fifo, is_pollable, keys, lemma_notified_none, notified_count,
    others_stay, position, registered, removed, state_of, tag_of, without, woken,
    woken_by_removal, Roster,
};
use crate::state::{RegisterResult, State};
use crate::task::{all_woken, lemma_last_woken, Task, TaskRef, TaskSink, WakeNow};
use crate::util::{replace, Identity};
use crate::wakeups::{
    exactly_the_told_are_woken, exactly_the_told_are_woken_by_removal, told_tasks,
};
use parking::Unparker;
use std::marker::PhantomData;
use std::task::Waker;
use vstd::prelude::*;

verus! {

/// Emits a sequentially consistent fence, by `std::sync::atomic::fence`.
#[verifier::external_body]
fn full_fence() {
    std::sync::atomic::fence(std::sync::atomic::Ordering::SeqCst)
}

/// A fence was emitted. Nothing but doing so shows it.
pub closed spec fn is_fenced() -> bool {
    call_ensures(full_fence, (), ())
}

/// To be fenced is to have called for the fence.
proof fn fenced_by_the_call()
    requires
        is_fenced(),
    ensures
        call_ensures(full_fence, (), ()),
{
}

/// A synchronization primitive for notifying async tasks and threads.
///
/// Listeners can be registered using [`Event::listen`]. There are two ways to
/// notify listeners:
///
/// 1. [`Event::notify`] notifies a number of listeners.
/// 2. [`Event::notify_additional`] notifies a number of previously unnotified
///    listeners.
///
/// If there are no active listeners at the time a notification is sent, it
/// simply gets lost.
///
/// Listeners are registered and notified in the first-in first-out fashion,
/// unless another [`QueueStrategy`] is asked for.
pub struct Event<T = ()> {
    inner: Option<Inner<T>>,
    strategy: QueueStrategy,
    record: WakeNow,
}

impl<T> View for Event<T> {
    type V = Roster<T>;

    closed spec fn view(&self) -> Roster<T> {
        match self.inner {
            Some(inner) => inner@,
            None => Seq::empty(),
        }
    }
}

impl<T> Event<T> {
    /// The inner state is in order, once it is there.
    pub closed spec fn wf(&self) -> bool {
        self.inner matches Some(inner) ==> inner.wf() && inner.order_by() == self.strategy
    }

    /// What tells this event apart, once it has had a listener.
    pub closed spec fn id(&self) -> Option<usize> {
        match self.inner {
            Some(inner) => Some(inner.id()),
            None => None,
        }
    }

    /// The order in which listeners are notified.
    pub closed spec fn order_by(&self) -> QueueStrategy {
        self.strategy
    }

    /// The tasks that this event has woken, first to last.
    pub closed spec fn record(&self) -> Seq<Task> {
        self.record.gathered()
    }

    /// What can be known of the listeners of every event.
    pub proof fn lemma_event(&self)
        requires
            self.wf(),
        ensures
            keys(self@).no_duplicates(),
            forall|i: int| 0 <= i < self@.len() ==> !((#[trigger] self@[i]).1 is NotifiedTaken),
            self.order_by() is Fifo ==> is_fifo(self@),
            0 <= notified_count(self@) <= self@.len() <= usize::MAX,
            self.id() is None ==> self@.len() == 0,
    {
        match self.inner {
            Some(inner) => inner.lemma_inner(),
            None => {},
        }
    }

    /// Creates an event whose notifications carry a tag.
    pub fn with_tag() -> (event: Self)
        ensures
            event.wf(),
            event@ == Roster::<T>::empty(),
            event.order_by() == QueueStrategy::Fifo,
            event.id() is None,
            event.record() == Seq::<Task>::empty(),
    {
        Event { inner: None, strategy: QueueStrategy::Fifo, record: WakeNow::new() }
    }

    /// Creates an event whose notifications carry a tag, and that notifies its
    /// listeners in the given order.
    pub fn with_tag_and_queue_strategy(strategy: QueueStrategy) -> (event: Self)
        ensures
            event.wf(),
            event@ == Roster::<T>::empty(),
            event.order_by() == strategy,
            event.id() is None,
            event.record() == Seq::<Task>::empty(),
    {
        Event { inner: None, strategy, record: WakeNow::new() }
    }

    /// The inner state, if it was initialized.
    fn try_inner(&self) -> (inner: Option<&Inner<T>>)
        ensures
            match self.inner {
                Some(held) => inner == Some(&held),
                None => inner is None,
            },
    {
        match &self.inner {
            Some(inner) => Some(inner),
            None => None,
        }
    }

    /// The inner state, which is initialized if need be.
    fn inner(&mut self) -> (inner: &mut Inner<T>)
        requires
            old(self).wf(),
        ensures
            inner.wf(),
            inner@ == old(self)@,
            inner.order_by() == old(self).strategy,
            old(self).inner matches Some(held) ==> *inner == held,
            final(self).inner == Some(*final(inner)),
            final(self).strategy == old(self).strategy,
            final(self).record == old(self).record,
    {
        if self.inner.is_none() {
            self.inner = Some(Inner::new(self.strategy));
        }
        self.inner.as_mut().unwrap()
    }

    /// Returns a handle that listens for a notification.
    ///
    /// This method emits a `SeqCst` fence after registering a listener.
    pub fn listen(&mut self) -> (listener: EventListener<T>)
        requires
            old(self).wf(),
        ensures
            final(self).wf(),
            final(self).order_by() == old(self).order_by(),
            old(self).id() is Some ==> final(self).id() == old(self).id(),
            listener.entry() is Some,
            !has_key(old(self)@, listener.entry()->0),
            final(self)@ == joined(old(self)@, old(self).order_by(), listener.entry()->0),
            listener.listens(final(self)),
            state_of(final(self)@, listener.entry()->0) is Created,
            all_stay(old(self)@, final(self)@),
            final(self).record() == old(self).record(),
            is_fenced(),
    {
        let inner = self.inner();
        let handle = inner.listen();
        let identity = inner.identity().again();
        let listener = EventListener { identity, listener: handle, tag: PhantomData };
        full_fence();
        listener
    }

    /// Notifies a number of active listeners. Instead of waking their tasks it
    /// puts them behind those in `tasks`. See [`Event::notify`].
    pub fn notify_into<N: IntoNotification<Tag = T>, S: TaskSink>(
        &mut self,
        notify: N,
        tasks: &mut S,
    ) -> (count: usize)
        requires
            old(self).wf(),
            notify.is_valid(),
            has_tags(old(self)@, notify.notification()),
        ensures
            final(self).wf(),
            final(self).order_by() == old(self).order_by(),
            final(self).id() == old(self).id(),
            carried_out(old(self)@, notify.notification(), final(self)@),
            count == granted(
                old(self)@,
                notify.notification().asks(),
                notify.notification().wants_additional(),
            ),
            final(tasks).gathered() == old(tasks).gathered() + woken(old(self)@, count as nat),
            all_stay(old(self)@, final(self)@),
            final(self).record() == old(self).record(),
            notify.notification().wants_fence() ==> is_fenced(),
    {
        let notify = notify.into_notification();
        if notify.fence() {
            full_fence();
        }
        let limit = if notify.is_additional() {
            // Notify if there is at least one unnotified listener.
            usize::MAX
        } else {
            // Notify if there is at least one unnotified listener and the number
            // of notified listeners is less than asked for.
            notify.count()
        };
        proof {
            self.lemma_event();
            lemma_nothing_to_do(self@, notify);
            lemma_notified_none(self@, false);
            assert(tasks.gathered() + Seq::<Task>::empty() =~= tasks.gathered());
        }
        match &mut self.inner {
            Some(inner) => {
                if inner.notifyable(limit) {
                    return inner.notify_into(notify, tasks);
                }
            },
            None => {},
        }
        0
    }

    /// Notifies a number of active listeners.
    ///
    /// The number is allowed to be zero or exceed the current number of
    /// listeners.
    ///
    /// In contrast to [`Event::notify_additional`], this method only makes sure
    /// *at least* `n` listeners among the active ones are notified.
    ///
    /// This method emits a `SeqCst` fence before notifying listeners, unless the
    /// notification is a relaxed one.
    pub fn notify<N: IntoNotification<Tag = T>>(&mut self, notify: N) -> (count: usize)
        requires
            old(self).wf(),
            notify.is_valid(),
            has_tags(old(self)@, notify.notification()),
        ensures
            final(self).wf(),
            final(self).order_by() == old(self).order_by(),
            final(self).id() == old(self).id(),
            carried_out(old(self)@, notify.notification(), final(self)@),
            count == granted(
                old(self)@,
                notify.notification().asks(),
                notify.notification().wants_additional(),
            ),
            all_stay(old(self)@, final(self)@),
            final(self).record() == old(self).record() + woken(old(self)@, count as nat),
            all_woken(woken(old(self)@, count as nat)),
            final(self).record() == old(self).record() + told_tasks(
                old(self)@,
                final(self)@,
                old(self)@.len() as int,
            ),
            notify.notification().wants_fence() ==> is_fenced(),
    {
        let ghost sent = notify.notification();
        let mut record = replace(&mut self.record, WakeNow::new());
        let count = self.notify_into(notify, &mut record);
        record.attest();
        proof {
            lemma_last_woken(old(self).record(), woken(old(self)@, count as nat));
            exactly_the_told_are_woken(old(self)@, sent, self@);
        }
        self.record = record;
        count
    }
}

/// A handle that is listening to an [`Event`].
///
/// If a notified listener is removed without receiving the notification, another
/// active listener is notified. Whether one *additional* listener is notified
/// depends on what kind of notification was delivered.
#[derive(Debug)]
pub struct EventListener<T = ()> {
    identity: Identity,
    listener: Handle,
    tag: PhantomData<T>,
}

impl<T> EventListener<T> {
    /// The key by which the event knows the listener, until it has received its
    /// notification.
    pub closed spec fn entry(&self) -> Option<usize> {
        self.listener.entry
    }

    /// The identity of the event that the listener listens to.
    pub closed spec fn event_id(&self) -> usize {
        self.identity.id()
    }

    /// The listener listens to `event`, and, unless it has received its
    /// notification, is known to it without a thread that is blocked on it.
    pub open spec fn listens(&self, event: &Event<T>) -> bool {
        &&& event.id() == Some(self.event_id())
        &&& self.entry() matches Some(key) ==> is_pollable(event@, key)
    }
}

/// The mark of the listeners of this crate.
pub trait Sealed {

}

impl<T> Sealed for EventListener<T> {

}

/// What can be done with a handle that is listening to an [`Event`].
pub trait Listener<T = ()>: Sealed + Sized {
    /// The key by which the event knows the listener, until it has received its
    /// notification.
    spec fn key(&self) -> Option<usize>;

    /// The identity of the event that the listener listens to.
    spec fn hears(&self) -> usize;

    /// Begins to block until a notification is received.
    ///
    /// The caller does what the result says: it is finished, or it goes to
    /// sleep until `unparker` wakes it, and then comes back by
    /// [`Event::wait_unparked`], or by [`Event::wait_expired`] at its deadline.
    fn wait(self, event: &mut Event<T>, unparker: &Unparker) -> (step: WaitStep<T>)
        requires
            old(event).wf(),
            old(event).id() == Some(self.hears()),
            self.key() is Some,
            has_key(old(event)@, self.key()->0),
        ensures
            final(event).wf(),
            final(event).id() == old(event).id(),
            final(event).order_by() == old(event).order_by(),
            final(event).record() == old(event).record(),
            match step {
                WaitStep::Finished(tag) => tag is Some && registered(
                    old(event)@,
                    self.key()->0,
                    TaskRef::Unparker(unparker),
                    final(event)@,
                    RegisterResult::Notified(tag->0),
                ),
                WaitStep::Park(key) => key == self.key()->0 && registered(
                    old(event)@,
                    key,
                    TaskRef::Unparker(unparker),
                    final(event)@,
                    RegisterResult::Registered,
                ) && has_key(final(event)@, key),
            },
            others_stay(old(event)@, final(event)@, self.key()->0),
    ;

    /// Removes this listener and discards its notification (if any) without
    /// notifying another active listener.
    ///
    /// Returns `true` if a notification was discarded.
    fn discard(self, event: &mut Event<T>) -> (notified: bool)
        requires
            old(event).wf(),
            old(event).id() == Some(self.hears()),
            self.key() matches Some(key) ==> has_key(old(event)@, key),
        ensures
            final(event).wf(),
            final(event).id() == old(event).id(),
            final(event).order_by() == old(event).order_by(),
            final(event).record() == old(event).record(),
            match self.key() {
                Some(key) => {
                    &&& final(event)@ == without(old(event)@, key)
                    &&& others_stay(old(event)@, final(event)@, key)
                    &&& notified == state_of(old(event)@, key).notified()
                },
                None => final(event)@ == old(event)@ && !notified,
            },
    ;

    /// Returns `true` if this listener listens to the given `Event`.
    fn listens_to(&self, event: &Event<T>) -> (b: bool)
        ensures
            b == (event.id() == Some(self.hears())),
    ;

    /// Returns `true` if both listeners listen to the same `Event`.
    fn same_event(&self, other: &Self) -> (b: bool)
        ensures
            b == (self.hears() == other.hears()),
    ;
}

impl<T> Listener<T> for EventListener<T> {
    open spec fn key(&self) -> Option<usize> {
        self.entry()
    }

    open spec fn hears(&self) -> usize {
        self.event_id()
    }

    fn wait(self, event: &mut Event<T>, unparker: &Unparker) -> (step: WaitStep<T>) {
        let mut handle = self.listener;
        match &mut event.inner {
            Some(inner) => inner.wait(&mut handle, unparker),
            None => vstd::pervasive::unreached(),
        }
    }

    fn discard(self, event: &mut Event<T>) -> (notified: bool) {
        let mut handle = self.listener;
        match &mut event.inner {
            Some(inner) => inner.discard(&mut handle),
            None => vstd::pervasive::unreached(),
        }
    }

    fn listens_to(&self, event: &Event<T>) -> (b: bool) {
        match event.try_inner() {
            Some(inner) => self.identity.is(inner.identity()),
            None => false,
        }
    }

    fn same_event(&self, other: &Self) -> (b: bool) {
        self.identity.is(&other.identity)
    }
}

impl<T> EventListener<T> {
    /// Whether the listener has yet to receive its notification.
    pub fn is_waiting(&self) -> (b: bool)
        ensures
            b == self.entry() is Some,
    {
        self.listener.entry.is_some()
    }

    /// Polls for the notification. If there is none yet, `waker` is woken when
    /// there is.
    pub fn poll(&mut self, event: &mut Event<T>, waker: &Waker) -> (ready: Option<T>)
        requires
            old(event).wf(),
            old(self).listens(old(event)),
            old(self).entry() is Some,
        ensures
            final(event).wf(),
            final(event).id() == old(event).id(),
            final(event).order_by() == old(event).order_by(),
            final(event).record() == old(event).record(),
            registered(
                old(event)@,
                old(self).entry()->0,
                TaskRef::Waker(waker),
                final(event)@,
                match ready {
                    Some(tag) => RegisterResult::Notified(tag),
                    None => RegisterResult::Registered,
                },
            ),
            final(self).event_id() == old(self).event_id(),
            final(self).entry() == (if ready is Some {
                None
            } else {
                old(self).entry()
            }),
            final(self).listens(final(event)),
            others_stay(old(event)@, final(event)@, old(self).entry()->0),
    {
        match &mut event.inner {
            Some(inner) => inner.poll(&mut self.listener, waker),
            None => vstd::pervasive::unreached(),
        }
    }

    /// Removes the listener. A notification that it had but did not receive is
    /// passed on to another listener. Puts the tasks to be woken by that behind
    /// those in `tasks`.
    pub fn remove_into<S: TaskSink>(self, event: &mut Event<T>, tasks: &mut S)
        requires
            old(event).wf(),
            self.listens(old(event)),
        ensures
            final(event).wf(),
            final(event).id() == old(event).id(),
            final(event).order_by() == old(event).order_by(),
            final(event).record() == old(event).record(),
            final(event)@ == match self.entry() {
                Some(key) => removed(old(event)@, key, true),
                None => old(event)@,
            },
            self.entry() matches Some(key) ==> others_stay(old(event)@, final(event)@, key),
            final(tasks).gathered() == old(tasks).gathered() + (match self.entry() {
                Some(key) => woken_by_removal(old(event)@, key),
                None => Seq::empty(),
            }),
    {
        proof {
            assert(tasks.gathered() + Seq::<Task>::empty() =~= tasks.gathered());
        }
        let mut handle = self.listener;
        match &mut event.inner {
            Some(inner) => inner.remove_into(&mut handle, tasks),
            None => {},
        }
    }

    /// Removes the listener. A notification that it had but did not receive is
    /// passed on to another listener.
    pub fn remove(self, event: &mut Event<T>)
        requires
            old(event).wf(),
            self.listens(old(event)),
        ensures
            final(event).wf(),
            final(event).id() == old(event).id(),
            final(event).order_by() == old(event).order_by(),
            final(event).record() == old(event).record() + (match self.entry() {
                Some(key) => woken_by_removal(old(event)@, key),
                None => Seq::empty(),
            }),
            self.entry() matches Some(key) ==> all_woken(woken_by_removal(old(event)@, key)),
            final(event).record() == old(event).record() + (match self.entry() {
                Some(key) => told_tasks(
                    old(event)@.remove(position(old(event)@, key)),
                    final(event)@,
                    old(event)@.len() - 1,
                ),
                None => Seq::empty(),
            }),
            final(event)@ == match self.entry() {
                Some(key) => removed(old(event)@, key, true),
                None => old(event)@,
            },
            self.entry() matches Some(key) ==> others_stay(old(event)@, final(event)@, key),
    {
        let ghost key = self.entry();
        let mut record = replace(&mut event.record, WakeNow::new());
        self.remove_into(event, &mut record);
        record.attest();
        proof {
            match key {
                Some(key) => {
                    lemma_last_woken(old(event).record(), woken_by_removal(old(event)@, key));
                    exactly_the_told_are_woken_by_removal(old(event)@, key, true);
                },
                None => {},
            }
        }
        event.record = record;
    }
}

impl<T> Event<T> {
    /// Goes on after a thread that waits on a listener woke up. See
    /// [`Listener::wait`].
    pub fn wait_unparked(&mut self, key: usize) -> (step: WaitStep<T>)
        requires
            old(self).wf(),
            has_key(old(self)@, key),
        ensures
            final(self).wf(),
            final(self).id() == old(self).id(),
            final(self).order_by() == old(self).order_by(),
            final(self).record() == old(self).record(),
            match state_of(old(self)@, key) {
                State::Notified { tag, .. } => step == WaitStep::Finished(Some(tag))
                    && final(self)@ == without(old(self)@, key),
                _ => step == WaitStep::<T>::Park(key) && final(self)@ == old(self)@,
            },
            others_stay(old(self)@, final(self)@, key),
    {
        match &mut self.inner {
            Some(inner) => inner.wait_unparked(key),
            None => vstd::pervasive::unreached(),
        }
    }

    /// Stops waiting on a listener at the deadline. See [`Listener::wait`].
    pub fn wait_expired(&mut self, key: usize) -> (tag: Option<T>)
        requires
            old(self).wf(),
            has_key(old(self)@, key),
        ensures
            final(self).wf(),
            final(self).id() == old(self).id(),
            final(self).order_by() == old(self).order_by(),
            final(self).record() == old(self).record(),
            tag == tag_of(state_of(old(self)@, key)),
            final(self)@ == without(old(self)@, key),
            others_stay(old(self)@, final(self)@, key),
    {
        match &mut self.inner {
            Some(inner) => inner.wait_expired(key),
            None => vstd::pervasive::unreached(),
        }
    }

    /// The number of active listeners.
    pub fn total_listeners(&self) -> (len: usize)
        requires
            self.wf(),
        ensures
            len == self@.len(),
    {
        match self.try_inner() {
            Some(inner) => inner.total_listeners(),
            None => 0,
        }
    }

    /// The number of active listeners that are notified.
    pub fn notified_listeners(&self) -> (notified: usize)
        requires
            self.wf(),
        ensures
            notified == notified_count(self@),
    {
        match self.try_inner() {
            Some(inner) => inner.notified_listeners(),
            None => 0,
        }
    }
}

impl Event<()> {
    /// Creates an event.
    pub fn new() -> (event: Event)
        ensures
            event.wf(),
            event@ == Roster::<()>::empty(),
            event.order_by() == QueueStrategy::Fifo,
            event.id() is None,
            event.record() == Seq::<Task>::empty(),
    {
        Self::with_tag()
    }

    /// Creates an event that notifies its listeners in the given order.
    pub fn new_with_queue_strategy(strategy: QueueStrategy) -> (event: Event)
        ensures
            event.wf(),
            event@ == Roster::<()>::empty(),
            event.order_by() == strategy,
            event.id() is None,
            event.record() == Seq::<Task>::empty(),
    {
        Self::with_tag_and_queue_strategy(strategy)
    }

    /// Notifies a number of active listeners without emitting a `SeqCst` fence.
    pub fn notify_relaxed(&mut self, n: usize) -> (count: usize)
        requires
            old(self).wf(),
        ensures
            final(self).wf(),
            final(self).order_by() == old(self).order_by(),
            final(self).id() == old(self).id(),
            count == granted(old(self)@, n, false),
            final(self).record() == old(self).record() + woken(old(self)@, count as nat),
            all_woken(woken(old(self)@, count as nat)),
            final(self).record() == old(self).record() + told_tasks(
                old(self)@,
                final(self)@,
                old(self)@.len() as int,
            ),
            final(self)@ == untagged(old(self)@, n, false),
            all_stay(old(self)@, final(self)@),
    {
        let ghost before = self@;
        let notify = n.relaxed();
        let count = self.notify(notify);
        proof {
            lemma_untagged(before, notify, self@);
        }
        count
    }

    /// Notifies a number of active and still unnotified listeners.
    ///
    /// In contrast to [`Event::notify`], this method will notify `n`
    /// *additional* listeners that were previously unnotified.
    ///
    /// This method emits a `SeqCst` fence before notifying listeners.
    pub fn notify_additional(&mut self, n: usize) -> (count: usize)
        requires
            old(self).wf(),
        ensures
            final(self).wf(),
            final(self).order_by() == old(self).order_by(),
            final(self).id() == old(self).id(),
            count == granted(old(self)@, n, true),
            final(self).record() == old(self).record() + woken(old(self)@, count as nat),
            all_woken(woken(old(self)@, count as nat)),
            final(self).record() == old(self).record() + told_tasks(
                old(self)@,
                final(self)@,
                old(self)@.len() as int,
            ),
            final(self)@ == untagged(old(self)@, n, true),
            all_stay(old(self)@, final(self)@),
            is_fenced(),
    {
        let ghost before = self@;
        let notify = n.additional();
        let count = self.notify(notify);
        proof {
            lemma_untagged(before, notify, self@);
        }
        count
    }

    /// Notifies a number of active and still unnotified listeners without
    /// emitting a `SeqCst` fence.
    pub fn notify_additional_relaxed(&mut self, n: usize) -> (count: usize)
        requires
            old(self).wf(),
        ensures
            final(self).wf(),
            final(self).order_by() == old(self).order_by(),
            final(self).id() == old(self).id(),
            count == granted(old(self)@, n, true),
            final(self).record() == old(self).record() + woken(old(self)@, count as nat),
            all_woken(woken(old(self)@, count as nat)),
            final(self).record() == old(self).record() + told_tasks(
                old(self)@,
                final(self)@,
                old(self)@.len() as int,
            ),
            final(self)@ == untagged(old(self)@, n, true),
            all_stay(old(self)@, final(self)@),
    {
        let ghost before = self@;
        let notify = n.additional().relaxed();
        let count = self.notify(notify);
        proof {
            lemma_untagged(before, notify, self@);
        }
        count
    }
}

impl Default for Event<()> {
    fn default() -> (event: Event)
        ensures
            event.wf(),
            event@ == Roster::<()>::empty(),
            event.order_by() == QueueStrategy::Fifo,
            event.id() is None,
            event.record() == Seq::<Task>::empty(),
    {
        Event::new()
    }
}

} // verus!
