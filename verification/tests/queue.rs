//! Tests involving the backup queue used under heavy contention.

use event_listener::no_std::entries::Listener;
use event_listener::no_std::inner::Inner;
use event_listener::no_std::node::Node;
use event_listener::no_std::node::VecProducer;
use event_listener::no_std::queue::Queue;
use event_listener::notify::{GenericNotify, IntoNotification, NothingProducer};
use event_listener::state::{RegisterResult, State};
use event_listener::task::TaskRef;
use std::collections::VecDeque;
use std::sync::atomic::{AtomicUsize, Ordering};
use std::sync::Arc;
use waker_fn::waker_fn;

fn is_notified(inner: &mut Inner<()>, listener: &mut Option<Listener>) -> bool {
    let waker = waker_fn(|| ());
    inner.register(listener, TaskRef::Waker(&waker)) == RegisterResult::Notified(())
}

fn listen(inner: &mut Inner<()>) -> Option<Listener> {
    let mut listener = None;
    inner.insert(&mut listener);
    listener
}

#[test]
fn insert_and_notify() {
    let mut event = Inner::new();

    // Lock to simulate contention.
    let lock = event.try_lock().unwrap();

    let mut l1 = listen(&mut event);
    let mut l2 = listen(&mut event);
    let mut l3 = listen(&mut event);

    assert!(!is_notified(&mut event, &mut l1));
    assert!(!is_notified(&mut event, &mut l2));
    assert!(!is_notified(&mut event, &mut l3));

    event.notify(2.into_notification());
    event.notify(1.into_notification());

    // Unlock to simulate contention being released.
    event.unlock(lock);

    assert!(is_notified(&mut event, &mut l1));
    assert!(is_notified(&mut event, &mut l2));
    assert!(!is_notified(&mut event, &mut l3));
}

#[test]
fn insert_then_contention() {
    let mut event = Inner::new();

    // Allow the listeners to be created without contention.
    let mut l1 = listen(&mut event);
    let mut l2 = listen(&mut event);
    let mut l3 = listen(&mut event);

    assert!(!is_notified(&mut event, &mut l1));
    assert!(!is_notified(&mut event, &mut l2));
    assert!(!is_notified(&mut event, &mut l3));

    // Lock to simulate contention.
    let lock = event.try_lock().unwrap();

    assert!(!is_notified(&mut event, &mut l1));
    assert!(!is_notified(&mut event, &mut l2));
    assert!(!is_notified(&mut event, &mut l3));

    event.notify(2.into_notification());

    // Unlock to simulate contention being released.
    event.unlock(lock);

    assert!(is_notified(&mut event, &mut l1));
    assert!(is_notified(&mut event, &mut l2));
    assert!(!is_notified(&mut event, &mut l3));
}

fn node_from_num(num: usize) -> Node<()> {
    let tags: VecDeque<()> = VecDeque::new();
    Node::Notify(GenericNotify::new(num, true, VecProducer { tags }))
}

fn node_to_num(node: Node<()>) -> usize {
    match node {
        Node::Notify(notify) => notify.count,
        _ => panic!("unexpected node"),
    }
}

#[test]
fn push_pop() {
    let mut queue = Queue::new();

    queue.push(node_from_num(1));
    queue.push(node_from_num(2));
    queue.push(node_from_num(3));

    assert_eq!(node_to_num(queue.pop().unwrap()), 1);
    assert_eq!(node_to_num(queue.pop().unwrap()), 2);
    assert_eq!(node_to_num(queue.pop().unwrap()), 3);
    assert!(queue.pop().is_none());
}

#[test]
fn push_pop_many() {
    const COUNT: usize = 1_000;

    for i in 0..COUNT {
        let mut queue = Queue::new();

        for j in 0..i {
            queue.push(node_from_num(j));
        }

        for j in 0..i {
            assert_eq!(node_to_num(queue.pop().unwrap()), j);
        }

        assert!(queue.pop().is_none());
    }
}

#[test]
fn push_between_pops() {
    let mut queue = Queue::new();
    queue.push(node_from_num(1));
    queue.push(node_from_num(2));
    assert_eq!(node_to_num(queue.pop().unwrap()), 1);
    queue.push(node_from_num(3));
    assert_eq!(node_to_num(queue.pop().unwrap()), 2);
    assert_eq!(node_to_num(queue.pop().unwrap()), 3);
    queue.push(node_from_num(4));
    assert_eq!(node_to_num(queue.pop().unwrap()), 4);
    assert!(queue.pop().is_none());
}

#[test]
fn cancelled_listener_is_not_added() {
    let mut event: Inner<()> = Inner::new();
    let lock = event.try_lock().unwrap();
    let mut l1 = listen(&mut event);
    let mut l2 = listen(&mut event);
    assert_eq!(l1, Some(Listener::Queued(0)));
    assert_eq!(l2, Some(Listener::Queued(1)));

    assert_eq!(event.remove(&mut l1, true), None);
    assert_eq!(l1, None);
    event.unlock(lock);

    assert!(!is_notified(&mut event, &mut l2));
    assert_eq!(l2, Some(Listener::HasNode(1)));
    assert_eq!(event.notify(GenericNotify::new(5, true, NothingProducer)), 1);
    assert!(is_notified(&mut event, &mut l2));
}

#[test]
fn put_off_removal_passes_the_notification_on() {
    let mut event: Inner<()> = Inner::new();
    let mut l1 = listen(&mut event);
    let mut l2 = listen(&mut event);
    assert_eq!(event.notify(1.into_notification()), 1);

    let lock = event.try_lock().unwrap();
    assert!(event.try_lock().is_none());
    assert_eq!(event.remove(&mut l1, true), None);
    event.unlock(lock);

    assert!(is_notified(&mut event, &mut l2));
    assert_eq!(l2, None);
    assert_eq!(
        event.register(&mut l2, TaskRef::Waker(&waker_fn(|| ()))),
        RegisterResult::NeverInserted
    );
}

#[test]
fn added_listener_is_removed_by_its_ticket() {
    let mut event: Inner<()> = Inner::new();
    let lock = event.try_lock().unwrap();
    let mut l1 = listen(&mut event);
    event.unlock(lock);
    assert_eq!(l1, Some(Listener::Queued(0)));
    assert_eq!(event.remove(&mut l1, false), Some(State::Created));
    assert_eq!(event.remove(&mut l1, false), None);
    assert!(!event.notifyable(usize::MAX));
}

#[test]
fn unlocking_wakes_those_who_waited_for_it() {
    let count = Arc::new(AtomicUsize::new(0));
    let waker = waker_fn({
        let count = count.clone();
        move || {
            count.fetch_add(1, Ordering::SeqCst);
        }
    });
    let mut event: Inner<()> = Inner::new();
    let mut l1 = listen(&mut event);
    let lock = event.try_lock().unwrap();
    let mut l2 = listen(&mut event);
    for listener in [&mut l1, &mut l2] {
        assert_eq!(
            event.register(listener, TaskRef::Waker(&waker)),
            RegisterResult::Registered
        );
    }
    assert_eq!(count.load(Ordering::SeqCst), 0);
    event.unlock(lock);
    assert_eq!(count.load(Ordering::SeqCst), 2);
}

#[test]
fn tags_are_made_at_once() {
    let mut event: Inner<i32> = Inner::new();
    let mut l1 = None;
    let mut l2 = None;
    event.insert(&mut l1);
    event.insert(&mut l2);
    let lock = event.try_lock().unwrap();
    let mut next = 0;
    assert_eq!(
        event.notify(2.additional().tag_with(|| {
            next += 10;
            next
        })),
        0
    );
    event.unlock(lock);
    let waker = waker_fn(|| ());
    assert_eq!(
        event.register(&mut l1, TaskRef::Waker(&waker)),
        RegisterResult::Notified(10)
    );
    assert_eq!(
        event.register(&mut l2, TaskRef::Waker(&waker)),
        RegisterResult::Notified(20)
    );
}
