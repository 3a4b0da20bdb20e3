//! Tests of the list that the `slab` crate keeps, and of its queue.

use event_listener::inner::Inner;
use event_listener::list::{Entry, ListenerSlab};
use event_listener::node::{Node, TaskWaiting};
use event_listener::queue::Queue;
use event_listener::state::State;
use event_listener::task::Task;
use std::sync::atomic::{AtomicUsize, Ordering};
use std::sync::Arc;
use std::task::Waker;
use waker_fn::waker_fn;

fn counting(count: &Arc<AtomicUsize>) -> Waker {
    let count = count.clone();
    waker_fn(move || {
        count.fetch_add(1, Ordering::SeqCst);
    })
}

#[test]
fn keys_are_used_again_last_first() {
    let mut list = ListenerSlab::new();
    assert_eq!(list.len(), 0);
    assert_eq!(list.insert(Entry::new()), 1);
    assert_eq!(list.insert(Entry::new()), 2);
    assert_eq!(list.insert(Entry::new()), 3);
    assert_eq!(list.remove(1), State::Created);
    assert_eq!(list.remove(3), State::Created);
    assert_eq!(list.len(), 1);
    assert_eq!(list.insert(Entry::new()), 3);
    assert_eq!(list.insert(Entry::new()), 1);
    assert_eq!(list.insert(Entry::new()), 4);
    assert_eq!(list.len(), 4);
}

#[test]
fn notifications_of_the_slab() {
    let count = Arc::new(AtomicUsize::new(0));
    let mut list = ListenerSlab::new();
    let k1 = list.insert(Entry::new());
    let k2 = list.insert(Entry::new());
    let k3 = list.insert(Entry::new());
    let previous = list.replace_state(k1, State::Task(Task::Waker(counting(&count))));
    assert_eq!(previous, State::Created);

    list.notify(1, false);
    assert_eq!(list.notified(), 1);
    assert_eq!(count.load(Ordering::SeqCst), 1);
    list.notify_unnotified(1);
    assert_eq!(list.notified(), 1);
    list.notify_additional(1);
    assert_eq!(list.notified(), 2);
    assert_eq!(*list.state(k1), State::Notified { additional: false, tag: () });
    assert_eq!(*list.state(k2), State::Notified { additional: true, tag: () });
    assert_eq!(*list.state(k3), State::Created);
    assert_eq!(list.remove(k2), State::Notified { additional: true, tag: () });
    assert_eq!(list.notified(), 1);
    list.notify(9, true);
    assert_eq!(list.notified(), 2);
}

#[test]
fn padded_queue_keeps_the_order() {
    let mut queue = Queue::new();
    assert_eq!(queue.pop(), None);
    for i in 0..5 {
        queue.push(i);
    }
    assert_eq!(queue.pop(), Some(0));
    queue.push(5);
    for i in 1..6 {
        assert_eq!(queue.pop(), Some(i));
    }
    assert_eq!(queue.pop(), None);
    queue.push(7);
    assert_eq!(queue.pop(), Some(7));
}

#[test]
fn waiting_tasks_are_woken() {
    let count = Arc::new(AtomicUsize::new(0));
    let mut waiting = TaskWaiting::new();
    assert_eq!(waiting.status(), None);
    waiting.register(Task::Waker(counting(&count)));
    assert_eq!(count.load(Ordering::SeqCst), 0);
    waiting.register(Task::Waker(counting(&count)));
    assert_eq!(count.load(Ordering::SeqCst), 1);
    assert!(waiting.enter(4).is_some());
    assert_eq!(waiting.status(), Some(4));
    waiting.register(Task::Waker(counting(&count)));
    assert_eq!(count.load(Ordering::SeqCst), 2);
    assert!(waiting.enter(4).is_none());
}

#[test]
fn put_off_operations_are_carried_out() {
    let count = Arc::new(AtomicUsize::new(0));
    let mut inner = Inner::new();
    assert_eq!(inner.notified(), usize::MAX);

    let guard = inner.lock();
    assert!(inner.try_lock().is_none());
    let t1 = inner.put_off_listener();
    let t2 = inner.put_off_listener();
    let t3 = inner.put_off_listener();
    inner.register(t2, Task::Waker(counting(&count)));
    inner.put_off_operation(Node::Notify { count: 1, additional: true });
    inner.put_off_operation(Node::Waiting(Task::Waker(counting(&count))));
    assert_eq!(inner.status(t1), None);
    inner.unlock(guard);

    assert_eq!(count.load(Ordering::SeqCst), 2);
    assert_eq!(inner.status(t1), Some(1));
    assert_eq!(inner.status(t2), Some(2));
    assert_eq!(inner.status(t3), Some(3));
    assert_eq!(inner.notified(), 1);

    let guard = inner.try_lock().unwrap();
    inner.put_off_operation(Node::RemoveListener { listener: 1, propagate: true });
    inner.unlock(guard);
    let guard = inner.lock();
    assert_eq!(inner.list(&guard).len(), 2);
    assert_eq!(
        *inner.list(&guard).state(2),
        State::Notified { additional: true, tag: () }
    );
    inner.unlock(guard);
    assert_eq!(inner.notified(), 1);
}
