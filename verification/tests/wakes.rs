//! Tests of which tasks are to be woken, and in which order.

use event_listener::event::Event;
use event_listener::inner::Inner as SlabInner;
use event_listener::intrusive::Inner as IntrusiveInner;
use event_listener::linked_list::lock_free::inner::Inner as LockFreeInner;
use event_listener::no_std::entries::{Listener, ListenerSlab};
use event_listener::no_std::inner::Inner;
use event_listener::no_std::node::TaskWaiting;
use event_listener::node::{Node, TaskWaiting as SlabWaiting};
use event_listener::notify::{GenericNotify, IntoNotification, NothingProducer};
use event_listener::state::{RegisterResult, State};
use event_listener::task::{wake_all, Task, TaskRef};
use std::sync::{Arc, Mutex};
use std::task::Waker;
use waker_fn::waker_fn;

type Log = Arc<Mutex<Vec<i32>>>;

fn recorder(log: &Log, n: i32) -> Waker {
    let log = log.clone();
    waker_fn(move || log.lock().unwrap().push(n))
}

/// Wakes the tasks and tells in which order they wake up.
fn order(log: &Log, tasks: &mut Vec<Task>) -> Vec<i32> {
    assert!(log.lock().unwrap().is_empty());
    wake_all(tasks.drain(..).collect());
    log.lock().unwrap().drain(..).collect()
}

#[test]
fn removing_a_listener_of_an_event_wakes_the_next() {
    let log = Log::default();
    let mut tasks: Vec<Task> = Vec::new();
    let mut event = Event::new();
    let l1 = event.listen();
    let mut l2 = event.listen();
    let mut l3 = event.listen();
    assert!(l2.poll(&mut event, &recorder(&log, 2)).is_none());
    assert!(l3.poll(&mut event, &recorder(&log, 3)).is_none());
    event.notify(1);

    l1.remove_into(&mut event, &mut tasks);
    assert_eq!(order(&log, &mut tasks), [2]);

    // Without a notification nobody is woken.
    l3.remove_into(&mut event, &mut tasks);
    assert!(tasks.is_empty());
}

#[test]
fn removing_a_listener_of_a_slot_wakes_the_next() {
    let log = Log::default();
    let mut tasks: Vec<Task> = Vec::new();
    let mut inner = LockFreeInner::new();
    let mut l1 = inner.listen();
    let mut l2 = inner.listen();
    let mut l3 = inner.listen();
    assert!(!inner.poll(&mut l2, &recorder(&log, 2)));
    assert!(!inner.poll(&mut l3, &recorder(&log, 3)));
    inner.notify(1.additional());

    inner.remove_into(&mut l1, &mut tasks);
    assert_eq!(order(&log, &mut tasks), [2]);

    // A busy notifier is left to wake the others.
    assert!(inner.become_notifier());
    inner.remove_into(&mut l2, &mut tasks);
    assert!(tasks.is_empty());
    inner.finish_notifying();
    inner.notify_into(0.additional(), &mut tasks);
    assert_eq!(order(&log, &mut tasks), [3]);
}

#[test]
fn removing_from_the_vector_wakes_the_next() {
    let log = Log::default();
    let mut tasks: Vec<Task> = Vec::new();
    let mut slab = ListenerSlab::<()>::new();
    let k1 = slab.insert(State::Created);
    let k2 = slab.insert(State::Created);
    let mut l2 = Some(Listener::HasNode(k2));
    slab.register(&mut l2, TaskRef::Waker(&recorder(&log, 2)));
    slab.notify(GenericNotify::new(1, false, NothingProducer));

    let state = slab.remove_into(k1, true, &mut tasks);
    assert_eq!(state, Some(State::NotifiedTaken));
    assert_eq!(order(&log, &mut tasks), [2]);
}

#[test]
fn intrusive_listeners_are_woken_in_order() {
    let log = Log::default();
    let mut tasks: Vec<Task> = Vec::new();
    let mut inner = IntrusiveInner::new();
    let mut listeners = [None, None, None, None];
    for (i, listener) in listeners.iter_mut().enumerate() {
        inner.insert(listener);
        inner.register(listener, TaskRef::Waker(&recorder(&log, i as i32)));
    }
    inner.notify_into(2, false, &mut tasks);
    assert_eq!(order(&log, &mut tasks), [0, 1]);
    inner.remove_into(&mut listeners[0], false, &mut tasks);
    assert!(tasks.is_empty());
    inner.notify_into(1, true, &mut tasks);
    assert_eq!(order(&log, &mut tasks), [2]);

    // An additional notification is passed on, a plain one is not, as another
    // listener is notified already.
    inner.remove_into(&mut listeners[1], true, &mut tasks);
    assert!(tasks.is_empty());
    inner.remove_into(&mut listeners[2], true, &mut tasks);
    assert_eq!(order(&log, &mut tasks), [3]);
}

fn listen(inner: &mut Inner<()>) -> Option<Listener> {
    let mut listener = None;
    inner.insert(&mut listener);
    listener
}

#[test]
fn an_unlocked_event_wakes_its_listeners() {
    let log = Log::default();
    let mut tasks: Vec<Task> = Vec::new();
    let mut inner = Inner::new();
    let mut l1 = listen(&mut inner);
    let mut l2 = listen(&mut inner);
    for (n, listener) in [(1, &mut l1), (2, &mut l2)] {
        let waker = recorder(&log, n);
        let result = inner.register_into(listener, TaskRef::Waker(&waker), &mut tasks);
        assert_eq!(result, RegisterResult::Registered);
    }
    assert!(tasks.is_empty());
    assert_eq!(inner.notify_into(1.into_notification(), &mut tasks), 1);
    assert_eq!(order(&log, &mut tasks), [1]);
    inner.remove_into(&mut l1, true, &mut tasks);
    assert_eq!(order(&log, &mut tasks), [2]);
}

#[test]
fn unlocking_wakes_in_two_waves() {
    let log = Log::default();
    let mut tasks: Vec<Task> = Vec::new();
    let mut inner = Inner::new();
    let mut l1 = listen(&mut inner);
    let mut l2 = listen(&mut inner);
    inner.register(&mut l1, TaskRef::Waker(&recorder(&log, 1)));
    inner.register(&mut l2, TaskRef::Waker(&recorder(&log, 2)));

    let lock = inner.try_lock().unwrap();
    let mut l3 = listen(&mut inner);
    inner.register_into(&mut l3, TaskRef::Waker(&recorder(&log, 30)), &mut tasks);
    assert!(tasks.is_empty());

    // The task that has been waiting is woken.
    inner.register_into(&mut l3, TaskRef::Waker(&recorder(&log, 31)), &mut tasks);
    assert_eq!(order(&log, &mut tasks), [30]);

    // These are put off.
    assert_eq!(inner.notify_into(1.into_notification(), &mut tasks), 0);
    inner.remove_into(&mut l1, true, &mut tasks);
    assert!(tasks.is_empty());

    // Those who are notified while the list is locked come first.
    inner.unlock_into(lock, &mut tasks);
    assert_eq!(order(&log, &mut tasks), [1, 2, 31]);
}

#[test]
fn removing_a_queued_listener_wakes_its_task() {
    let log = Log::default();
    let mut tasks: Vec<Task> = Vec::new();
    let mut inner = Inner::new();
    let lock = inner.try_lock().unwrap();
    let mut l1 = listen(&mut inner);
    inner.register(&mut l1, TaskRef::Waker(&recorder(&log, 1)));
    inner.remove_into(&mut l1, true, &mut tasks);
    assert_eq!(order(&log, &mut tasks), [1]);
    inner.unlock_into(lock, &mut tasks);
    assert!(tasks.is_empty());
}

#[test]
fn cancelling_hands_the_waiting_task_out() {
    let log = Log::default();
    let mut tasks: Vec<Task> = Vec::new();
    let mut waiting = TaskWaiting::new();
    waiting.register_into(Task::Waker(recorder(&log, 1)), &mut tasks);
    assert!(tasks.is_empty());
    waiting.register_into(Task::Waker(recorder(&log, 2)), &mut tasks);
    assert_eq!(order(&log, &mut tasks), [1]);
    assert_eq!(waiting.cancel_into(&mut tasks), None);
    assert_eq!(order(&log, &mut tasks), [2]);
    waiting.register_into(Task::Waker(recorder(&log, 3)), &mut tasks);
    assert_eq!(order(&log, &mut tasks), [3]);
}

#[test]
fn waiting_for_a_place_in_the_slab() {
    let log = Log::default();
    let mut tasks: Vec<Task> = Vec::new();
    let mut waiting = SlabWaiting::new();
    waiting.register_into(Task::Waker(recorder(&log, 1)), &mut tasks);
    assert!(tasks.is_empty());
    waiting.register_into(Task::Waker(recorder(&log, 2)), &mut tasks);
    assert_eq!(order(&log, &mut tasks), [1]);
    assert!(waiting.enter(7).is_some());
    waiting.register_into(Task::Waker(recorder(&log, 3)), &mut tasks);
    assert_eq!(order(&log, &mut tasks), [3]);
}

#[test]
fn an_added_listener_can_be_forgotten() {
    let log = Log::default();
    let mut tasks: Vec<Task> = Vec::new();
    let mut inner = SlabInner::new();
    let guard = inner.lock();
    let t1 = inner.put_off_listener();
    let t2 = inner.put_off_listener();
    inner.register_into(t2, Task::Waker(recorder(&log, 2)), &mut tasks);
    inner.put_off_operation(Node::Notify { count: 1, additional: false });
    inner.put_off_operation(Node::Waiting(Task::Waker(recorder(&log, 9))));
    assert!(tasks.is_empty());
    inner.unlock_into(guard, &mut tasks);
    assert_eq!(order(&log, &mut tasks), [2, 9]);

    assert_eq!(inner.status(t1), Some(1));
    inner.forget(t1);
    assert_eq!(inner.status(t2), Some(2));

    // The listener itself stays.
    let guard = inner.lock();
    assert_eq!(inner.list(&guard).len(), 2);
    inner.unlock(guard);
}
