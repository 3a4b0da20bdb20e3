use event_listener::intrusive::{Inner, Listener};
use event_listener::state::State;
use event_listener::task::TaskRef;
use std::sync::atomic::{AtomicBool, Ordering};
use std::sync::Arc;
use waker_fn::waker_fn;

#[test]
fn insert() {
    let mut inner = Inner::new();
    let mut listen1: Option<Listener> = None;
    let mut listen2: Option<Listener> = None;
    let mut listen3: Option<Listener> = None;

    // Register the listeners.
    inner.insert(&mut listen1);
    inner.insert(&mut listen2);
    inner.insert(&mut listen3);

    assert_eq!(inner.len(), 3);

    // Remove one.
    assert_eq!(inner.remove(&mut listen2, false), Some(State::Created));
    assert_eq!(inner.len(), 2);

    // Remove another.
    assert_eq!(inner.remove(&mut listen1, false), Some(State::Created));
    assert_eq!(inner.len(), 1);
}

#[test]
fn drop_non_notified() {
    let mut inner = Inner::new();
    let mut listen1: Option<Listener> = None;
    let mut listen2: Option<Listener> = None;
    let mut listen3: Option<Listener> = None;

    // Register the listeners.
    inner.insert(&mut listen1);
    inner.insert(&mut listen2);
    inner.insert(&mut listen3);

    // Notify one.
    inner.notify(1, false);

    // Remove one.
    inner.remove(&mut listen3, true);

    // Remove the rest.
    inner.remove(&mut listen1, true);
    inner.remove(&mut listen2, true);
    assert_eq!(inner.len(), 0);
}

#[test]
fn inserting_twice_does_nothing() {
    let mut inner = Inner::new();
    let mut listener: Option<Listener> = None;
    inner.insert(&mut listener);
    inner.insert(&mut listener);
    assert_eq!(inner.len(), 1);
}

#[test]
fn register_tells_whether_notified() {
    let woken = Arc::new(AtomicBool::new(false));
    let waker = waker_fn({
        let woken = woken.clone();
        move || woken.store(true, Ordering::SeqCst)
    });
    let mut inner = Inner::new();
    let mut listen1: Option<Listener> = None;
    let mut listen2: Option<Listener> = None;
    assert_eq!(inner.register(&mut listen1, TaskRef::Waker(&waker)), None);
    inner.insert(&mut listen1);
    inner.insert(&mut listen2);
    assert_eq!(inner.register(&mut listen1, TaskRef::Waker(&waker)), Some(false));
    inner.notify(1, false);
    assert!(woken.load(Ordering::SeqCst));
    assert_eq!(inner.register(&mut listen1, TaskRef::Waker(&waker)), Some(true));
    assert!(listen1.is_none());
    assert_eq!(
        inner.remove(&mut listen2, true),
        Some(State::Created)
    );
    assert_eq!(inner.remove(&mut listen2, true), None);
}

#[test]
fn additional_notification_is_passed_on() {
    let mut inner = Inner::new();
    let mut listen1: Option<Listener> = None;
    let mut listen2: Option<Listener> = None;
    let mut listen3: Option<Listener> = None;
    inner.insert(&mut listen1);
    inner.insert(&mut listen2);
    inner.insert(&mut listen3);
    inner.notify(2, true);
    let notified = State::Notified { additional: true, tag: () };
    assert_eq!(inner.remove(&mut listen1, true), Some(notified));
    let notified = State::Notified { additional: true, tag: () };
    assert_eq!(inner.remove(&mut listen3, false), Some(notified));
}
