//! Tests of the list in slots that never move.

use event_listener::linked_list::lock_free::indexes::{Indexes, Lock};
use event_listener::linked_list::lock_free::inner::{
    cursor_step, CursorStep, Inner, Listener, NotifyMethod, NotifyState,
};
use event_listener::linked_list::lock_free::link::{
    Link, ADDITIONAL, NEW, NOTIFIED, NOTIFYING, OCCUPIED, REGISTERING,
};
use event_listener::linked_list::lock_free::slots::{
    bucket_index_to_size, index_to_bucket, index_to_slot_index, Slots, BUCKETS,
};
use event_listener::notify::IntoNotification;
use std::collections::HashSet;
use std::sync::atomic::{AtomicUsize, Ordering};
use std::sync::{Arc, Mutex};
use std::task::Waker;
use waker_fn::waker_fn;

fn is_notified(inner: &mut Inner, listener: &mut Listener) -> bool {
    let waker = waker_fn(|| ());
    inner.poll(listener, &waker)
}

#[test]
fn lock() {
    let mut lock = Lock::new(());

    // The lock cannot be had again while it is held.
    assert!(lock.acquire());
    let y: Option<()> = lock.access(|_: &mut ()| unreachable!());
    assert!(y.is_none());
    lock.release();

    let x = lock.access(|_: &mut ()| ());
    assert!(x.is_some());
    let z = lock.access(|_: &mut ()| ());
    assert!(z.is_some());
}

#[test]
fn access_changes_the_data() {
    let mut lock = Lock::new(3);
    assert_eq!(
        lock.access(|x: &mut i32| {
            *x += 1;
            *x
        }),
        Some(4)
    );
    assert_eq!(lock.access(|x: &mut i32| *x), Some(4));
}

#[test]
fn slots() {
    let mut slots = Slots::new();
    let mut seen_ptrs: HashSet<String> = HashSet::new();

    // Don't exhaust our memory; only do this many.
    let count = 0xFFFF;
    for i in 1..count {
        let not_yet_seen = seen_ptrs.insert(format!("{:p}", slots.get(i)));
        assert!(not_yet_seen);
    }
}

#[test]
fn indexes_alloc() {
    let mut index = Indexes::new();
    let mut last = 0;

    for _ in 0..0xFFFF {
        let val = index.allocate();
        assert_eq!(val, last + 1);
        last = val;
    }
}

#[test]
fn indexes_realloc() {
    let mut index = Indexes::new();

    assert_eq!(index.allocate(), 1);
    assert_eq!(index.allocate(), 2);
    assert_eq!(index.allocate(), 3);
    assert_eq!(index.allocate(), 4);

    index.free(3);
    index.free(2);

    assert_eq!(index.allocate(), 2);
    assert_eq!(index.allocate(), 3);
    assert_eq!(index.allocate(), 5);
    assert_eq!(index.allocate(), 6);
}

#[test]
fn indexes_given_back_under_contention_are_lost() {
    let mut index = Indexes::new();
    assert_eq!(index.allocate(), 1);
    assert_eq!(index.allocate(), 2);
    index.free(1);
    assert!(index.hold());
    assert!(!index.hold());
    assert_eq!(index.allocate(), 3);
    index.free(2);
    index.let_go();
    assert_eq!(index.allocate(), 1);
    assert_eq!(index.allocate(), 4);
}

#[test]
fn link_notify() {
    let mut link = Link::new();
    let waker = waker_fn(|| ());

    link.register(&waker);
    assert_eq!(link.state, NEW);
    link.notify(false);
    assert_eq!(link.state, NOTIFIED);
}

#[test]
fn link_notify_additional() {
    let mut link = Link::new();
    let waker = waker_fn(|| ());

    link.register(&waker);
    assert_eq!(link.state, NEW);
    link.notify(true);
    assert_eq!(link.state, NOTIFIED | ADDITIONAL);
}

#[test]
fn a_notification_during_registration_wakes_afterwards() {
    let count = Arc::new(AtomicUsize::new(0));
    let waker = waker_fn({
        let count = count.clone();
        move || {
            count.fetch_add(1, Ordering::SeqCst);
        }
    });
    let mut link = Link::new();
    assert!(link.begin_register());
    link.waker = Some(waker.clone());
    assert!(link.begin_notify(false).is_none());
    assert_eq!(link.state, REGISTERING | NOTIFYING | NOTIFIED);
    link.end_notify();
    assert!(link.end_register().is_some());
    assert_eq!(link.state, NOTIFIED);

    // Registering with a notified listener wakes at once.
    link.register(&waker);
    assert_eq!(count.load(Ordering::SeqCst), 1);
    assert_eq!(link.state, NOTIFIED);
    assert!(link.waker.is_none());
}

#[test]
fn a_second_notification_wakes_nobody() {
    let count = Arc::new(AtomicUsize::new(0));
    let waker = waker_fn({
        let count = count.clone();
        move || {
            count.fetch_add(1, Ordering::SeqCst);
        }
    });
    let mut link = Link::new();
    link.register(&waker);
    link.notify(false);
    link.notify(true);
    assert_eq!(count.load(Ordering::SeqCst), 1);
    assert_eq!(link.state, NOTIFIED | ADDITIONAL);
}

#[test]
fn buckets_double_in_size() {
    assert_eq!(bucket_index_to_size(0), 1);
    assert_eq!(bucket_index_to_size(5), 32);
    assert_eq!(index_to_bucket(0), 0);
    assert_eq!(index_to_bucket(1), 1);
    assert_eq!(index_to_bucket(2), 1);
    assert_eq!(index_to_bucket(3), 2);
    assert_eq!(index_to_bucket(6), 2);
    assert_eq!(index_to_bucket(7), 3);
    assert_eq!(index_to_slot_index(0), 0);
    assert_eq!(index_to_slot_index(2), 1);
    assert_eq!(index_to_slot_index(6), 3);
    assert_eq!(index_to_slot_index(7), 0);

    // There is a bucket for every index but the very last.
    assert_eq!(index_to_bucket(usize::MAX / 2 - 1), BUCKETS - 2);
    assert_eq!(index_to_bucket(usize::MAX / 2), BUCKETS - 1);
    assert_eq!(index_to_bucket(usize::MAX - 2), BUCKETS - 1);
}

#[test]
fn the_smallest_free_index_is_handed_out() {
    let mut indexes = Indexes::new();
    for i in 1..6 {
        assert_eq!(indexes.allocate(), i);
    }
    indexes.free(4);
    indexes.free(2);
    assert_eq!(indexes.allocate(), 2);
    assert_eq!(indexes.allocate(), 4);
    assert_eq!(indexes.allocate(), 6);
}

#[test]
fn a_second_poll_of_a_slot_replaces_the_waker() {
    let v = Arc::new(Mutex::new(vec![]));
    let mut inner = Inner::new();
    let mut l1 = inner.listen();
    assert!(!inner.poll(&mut l1, &recorder(&v, 1)));
    assert!(!inner.poll(&mut l1, &recorder(&v, 2)));
    assert_eq!(inner.notify(1.into_notification()), 1);
    assert_eq!(&*v.lock().unwrap(), &[2]);
}

#[test]
fn listeners_are_notified_in_order() {
    let mut inner = Inner::new();
    let mut l1 = inner.listen();
    let mut l2 = inner.listen();
    let mut l3 = inner.listen();
    assert_eq!((l1.index, l2.index, l3.index), (Some(1), Some(2), Some(3)));
    assert!(inner.notifyable(0));

    assert_eq!(inner.notify(2.into_notification()), 2);
    assert_eq!(inner.notify(1.into_notification()), 0);
    assert!(is_notified(&mut inner, &mut l1));
    assert_eq!(l1.index, None);
    assert!(is_notified(&mut inner, &mut l2));
    assert!(!is_notified(&mut inner, &mut l3));

    assert_eq!(inner.notify(5.additional()), 1);
    assert!(inner.discard(&mut l3));
    assert!(!inner.discard(&mut l3));
    assert_eq!(inner.listen().index, Some(1));
}

#[test]
fn removal_passes_the_notification_on() {
    let mut inner = Inner::new();
    let mut l1 = inner.listen();
    let mut l2 = inner.listen();
    let mut l3 = inner.listen();
    let mut l4 = inner.listen();
    assert_eq!(inner.notify(1.additional()), 1);
    assert_eq!(inner.notify(2.into_notification()), 1);
    inner.remove(&mut l1);
    assert!(is_notified(&mut inner, &mut l2));
    assert!(is_notified(&mut inner, &mut l3));
    inner.remove(&mut l4);
    inner.remove(&mut l4);
    assert_eq!(inner.notify(9.into_notification()), 0);
}

#[test]
fn plain_notification_is_passed_on_to_the_first_only() {
    let mut inner = Inner::new();
    let mut l1 = inner.listen();
    let mut l2 = inner.listen();
    let mut l3 = inner.listen();
    assert_eq!(inner.notify(1.into_notification()), 1);
    inner.remove(&mut l1);
    assert!(is_notified(&mut inner, &mut l2));
    assert!(!is_notified(&mut inner, &mut l3));
}

#[test]
fn a_busy_notifier_takes_the_request_over() {
    let mut inner = Inner::new();
    let mut l1 = inner.listen();
    let mut l2 = inner.listen();
    let mut l3 = inner.listen();
    assert!(inner.become_notifier());
    assert!(!inner.become_notifier());
    assert_eq!(inner.notify(1.into_notification()), 0);
    assert_eq!(inner.notify(1.additional()), 0);
    assert!(!is_notified(&mut inner, &mut l1));
    inner.finish_notifying();

    // Two are notified, but only one was asked for here.
    assert_eq!(inner.notify(1.additional()), 1);
    assert!(is_notified(&mut inner, &mut l1));
    assert!(is_notified(&mut inner, &mut l2));
    assert!(!is_notified(&mut inner, &mut l3));
}

fn recorder(v: &Arc<Mutex<Vec<i32>>>, n: i32) -> Waker {
    let v = v.clone();
    waker_fn(move || v.lock().unwrap().push(n))
}

#[test]
fn wakers_are_woken_in_order() {
    let v = Arc::new(Mutex::new(vec![]));
    let mut inner = Inner::new();
    let mut l1 = inner.listen();
    let mut l2 = inner.listen();
    assert!(!inner.poll(&mut l2, &recorder(&v, 2)));
    assert!(!inner.poll(&mut l1, &recorder(&v, 1)));
    assert_eq!(inner.notify(usize::MAX.into_notification()), 2);
    assert_eq!(&*v.lock().unwrap(), &[1, 2]);
}

#[test]
fn a_waker_left_in_a_slot_stays() {
    let v = Arc::new(Mutex::new(vec![]));
    let mut inner = Inner::new();
    let mut l1 = inner.listen();
    assert_eq!(l1.index, Some(1));
    assert!(!inner.poll(&mut l1, &recorder(&v, 1)));
    assert!(!inner.discard(&mut l1));

    // The slot is used again, with the waker in it.
    let l2 = inner.listen();
    assert_eq!(l2.index, Some(1));
    assert_eq!(inner.notify(1.into_notification()), 1);
    assert_eq!(&*v.lock().unwrap(), &[1]);
}

#[test]
fn a_notified_listener_leaves_its_slot_without_a_waker() {
    let v = Arc::new(Mutex::new(vec![]));
    let mut inner = Inner::new();
    let mut l1 = inner.listen();
    assert!(!inner.poll(&mut l1, &recorder(&v, 1)));
    assert_eq!(inner.notify(1.into_notification()), 1);
    assert!(inner.discard(&mut l1));

    let l2 = inner.listen();
    assert_eq!(l2.index, Some(1));
    assert_eq!(inner.notify(1.into_notification()), 1);
    assert_eq!(&*v.lock().unwrap(), &[1]);
}

#[test]
fn many_listeners_come_and_go() {
    let mut inner = Inner::new();
    let mut listeners: Vec<Listener> = Vec::new();
    for i in 0..200 {
        listeners.push(inner.listen());
        if i % 3 == 0 {
            let mut gone = listeners.remove(listeners.len() / 2);
            inner.remove(&mut gone);
        }
    }
    let len = listeners.len();
    assert_eq!(inner.notify(usize::MAX.additional()), len);
    for listener in &mut listeners {
        assert!(is_notified(&mut inner, listener));
    }
    assert_eq!(inner.notify(1.into_notification()), 0);
}

#[test]
fn the_notifier_looks_at_both_kinds() {
    let mut state = NotifyState::new();
    assert_eq!(state.next_method(), Some(NotifyMethod::Additional));
    assert_eq!(state.next_method(), Some(NotifyMethod::Standard));
    state.make_progress();
    assert_eq!(state.next_method(), Some(NotifyMethod::Additional));
    assert_eq!(state.next_method(), None);
}

#[test]
fn the_notifier_decides_by_the_word() {
    assert_eq!(cursor_step(OCCUPIED, true, false), CursorStep::Notify);
    assert_eq!(
        cursor_step(OCCUPIED | NOTIFIED, false, false),
        CursorStep::Skip { spend: true }
    );
    assert_eq!(
        cursor_step(OCCUPIED | NOTIFIED, false, true),
        CursorStep::Skip { spend: false }
    );
    assert_eq!(cursor_step(NOTIFIED, false, true), CursorStep::Retry);
    assert_eq!(cursor_step(NEW, true, true), CursorStep::Stop);
}
