use event_listener::no_std::entries::{Entry, Listener, ListenerSlab};
use event_listener::no_std::inner::Inner;
use event_listener::no_std::node::TaskWaiting;
use event_listener::notify::{GenericNotify, NothingProducer};
use event_listener::state::{RegisterResult, State};
use event_listener::task::{Task, TaskRef};
use std::sync::atomic::{AtomicBool, Ordering};
use std::sync::Arc;
use waker_fn::waker_fn;

fn created(prev: Option<usize>, next: Option<usize>) -> Entry<()> {
    Entry::Listener { state: State::Created, prev, next }
}

fn notified(additional: bool, prev: Option<usize>, next: Option<usize>) -> Entry<()> {
    Entry::Listener { state: State::Notified { additional, tag: () }, prev, next }
}

#[test]
fn smoke_listener_slab() {
    let mut listeners = ListenerSlab::<()>::new();

    // Insert a few listeners.
    let key1 = listeners.insert(State::Created);
    let key2 = listeners.insert(State::Created);
    let key3 = listeners.insert(State::Created);

    assert_eq!(listeners.len(), 3);
    assert_eq!(listeners.notified(), 0);
    assert_eq!(listeners.tail(), Some(key3));
    assert_eq!(listeners.head(), Some(key1));
    assert_eq!(listeners.start(), Some(key1));
    assert_eq!(listeners.first_empty(), 4);
    assert_eq!(*listeners.entry(0), Entry::Sentinel);
    assert_eq!(*listeners.entry(1), created(None, Some(key2)));
    assert_eq!(*listeners.entry(2), created(Some(key1), Some(key3)));
    assert_eq!(*listeners.entry(3), created(Some(key2), None));

    // Remove one.
    assert_eq!(listeners.remove(key2, false), Some(State::Created));

    assert_eq!(listeners.len(), 2);
    assert_eq!(listeners.notified(), 0);
    assert_eq!(listeners.tail(), Some(key3));
    assert_eq!(listeners.head(), Some(key1));
    assert_eq!(listeners.start(), Some(key1));
    assert_eq!(listeners.first_empty(), 2);
    assert_eq!(*listeners.entry(0), Entry::Sentinel);
    assert_eq!(*listeners.entry(1), created(None, Some(key3)));
    assert_eq!(*listeners.entry(2), Entry::Empty(4));
    assert_eq!(*listeners.entry(3), created(Some(key1), None));
}

#[test]
fn listener_slab_notify() {
    let mut listeners = ListenerSlab::new();

    // Insert a few listeners.
    let key1 = listeners.insert(State::Created);
    let key2 = listeners.insert(State::Created);
    let key3 = listeners.insert(State::Created);

    // Notify one.
    listeners.notify(GenericNotify::new(1, true, NothingProducer));

    assert_eq!(listeners.len(), 3);
    assert_eq!(listeners.notified(), 1);
    assert_eq!(listeners.tail(), Some(key3));
    assert_eq!(listeners.head(), Some(key1));
    assert_eq!(listeners.start(), Some(key2));
    assert_eq!(listeners.first_empty(), 4);
    assert_eq!(*listeners.entry(0), Entry::Sentinel);
    assert_eq!(*listeners.entry(1), notified(true, None, Some(key2)));
    assert_eq!(*listeners.entry(2), created(Some(key1), Some(key3)));
    assert_eq!(*listeners.entry(3), created(Some(key2), None));

    // Remove the notified listener.
    assert_eq!(
        listeners.remove(key1, false),
        Some(State::Notified { additional: true, tag: () })
    );

    assert_eq!(listeners.len(), 2);
    assert_eq!(listeners.notified(), 0);
    assert_eq!(listeners.tail(), Some(key3));
    assert_eq!(listeners.head(), Some(key2));
    assert_eq!(listeners.start(), Some(key2));
    assert_eq!(listeners.first_empty(), 1);
    assert_eq!(*listeners.entry(0), Entry::Sentinel);
    assert_eq!(*listeners.entry(1), Entry::Empty(4));
    assert_eq!(*listeners.entry(2), created(None, Some(key3)));
    assert_eq!(*listeners.entry(3), created(Some(key2), None));
}

#[test]
fn listener_slab_register() {
    let woken = Arc::new(AtomicBool::new(false));
    let waker = waker_fn({
        let woken = woken.clone();
        move || woken.store(true, Ordering::SeqCst)
    });

    let mut listeners = ListenerSlab::new();

    // Insert a few listeners.
    let key1 = listeners.insert(State::Created);
    let key2 = listeners.insert(State::Created);
    let key3 = listeners.insert(State::Created);

    // Register one.
    assert_eq!(
        listeners.register(&mut Some(Listener::HasNode(key2)), TaskRef::Waker(&waker)),
        RegisterResult::Registered
    );

    assert_eq!(listeners.len(), 3);
    assert_eq!(listeners.notified(), 0);
    assert_eq!(listeners.tail(), Some(key3));
    assert_eq!(listeners.head(), Some(key1));
    assert_eq!(listeners.start(), Some(key1));
    assert_eq!(listeners.first_empty(), 4);
    assert_eq!(*listeners.entry(0), Entry::Sentinel);
    assert_eq!(*listeners.entry(1), created(None, Some(key2)));
    assert_eq!(
        *listeners.entry(2),
        Entry::Listener {
            state: State::Task(Task::Waker(waker.clone())),
            prev: Some(key1),
            next: Some(key3),
        }
    );
    assert_eq!(*listeners.entry(3), created(Some(key2), None));

    // Notify the listener.
    listeners.notify(GenericNotify::new(2, false, NothingProducer));

    assert_eq!(listeners.len(), 3);
    assert_eq!(listeners.notified(), 2);
    assert_eq!(listeners.tail(), Some(key3));
    assert_eq!(listeners.head(), Some(key1));
    assert_eq!(listeners.start(), Some(key3));
    assert_eq!(listeners.first_empty(), 4);
    assert_eq!(*listeners.entry(0), Entry::Sentinel);
    assert_eq!(*listeners.entry(1), notified(false, None, Some(key2)));
    assert_eq!(*listeners.entry(2), notified(false, Some(key1), Some(key3)));
    assert_eq!(*listeners.entry(3), created(Some(key2), None));

    assert!(woken.load(Ordering::SeqCst));
    assert_eq!(
        listeners.register(&mut Some(Listener::HasNode(key2)), TaskRef::Waker(&waker)),
        RegisterResult::Notified(())
    );
}

#[test]
fn listener_slab_notify_prop() {
    let woken = Arc::new(AtomicBool::new(false));
    let waker = waker_fn({
        let woken = woken.clone();
        move || woken.store(true, Ordering::SeqCst)
    });

    let mut listeners = ListenerSlab::new();

    // Insert a few listeners.
    let key1 = listeners.insert(State::Created);
    let key2 = listeners.insert(State::Created);
    let key3 = listeners.insert(State::Created);

    // Register one.
    assert_eq!(
        listeners.register(&mut Some(Listener::HasNode(key2)), TaskRef::Waker(&waker)),
        RegisterResult::Registered
    );

    assert_eq!(listeners.len(), 3);
    assert_eq!(listeners.notified(), 0);
    assert_eq!(listeners.tail(), Some(key3));
    assert_eq!(listeners.head(), Some(key1));
    assert_eq!(listeners.start(), Some(key1));
    assert_eq!(listeners.first_empty(), 4);
    assert_eq!(*listeners.entry(0), Entry::Sentinel);
    assert_eq!(*listeners.entry(1), created(None, Some(key2)));
    assert_eq!(
        *listeners.entry(2),
        Entry::Listener {
            state: State::Task(Task::Waker(waker.clone())),
            prev: Some(key1),
            next: Some(key3),
        }
    );
    assert_eq!(*listeners.entry(3), created(Some(key2), None));

    // Notify the first listener.
    listeners.notify(GenericNotify::new(1, false, NothingProducer));

    assert_eq!(listeners.len(), 3);
    assert_eq!(listeners.notified(), 1);
    assert_eq!(listeners.tail(), Some(key3));
    assert_eq!(listeners.head(), Some(key1));
    assert_eq!(listeners.start(), Some(key2));
    assert_eq!(listeners.first_empty(), 4);
    assert_eq!(*listeners.entry(0), Entry::Sentinel);
    assert_eq!(*listeners.entry(1), notified(false, None, Some(key2)));
    assert_eq!(
        *listeners.entry(2),
        Entry::Listener {
            state: State::Task(Task::Waker(waker.clone())),
            prev: Some(key1),
            next: Some(key3),
        }
    );
    assert_eq!(*listeners.entry(3), created(Some(key2), None));

    // Calling notify again should not change anything.
    listeners.notify(GenericNotify::new(1, false, NothingProducer));

    assert_eq!(listeners.len(), 3);
    assert_eq!(listeners.notified(), 1);
    assert_eq!(listeners.tail(), Some(key3));
    assert_eq!(listeners.head(), Some(key1));
    assert_eq!(listeners.start(), Some(key2));
    assert_eq!(listeners.first_empty(), 4);
    assert_eq!(*listeners.entry(0), Entry::Sentinel);
    assert_eq!(*listeners.entry(1), notified(false, None, Some(key2)));
    assert_eq!(
        *listeners.entry(2),
        Entry::Listener {
            state: State::Task(Task::Waker(waker.clone())),
            prev: Some(key1),
            next: Some(key3),
        }
    );
    assert_eq!(*listeners.entry(3), created(Some(key2), None));

    // Remove the first listener.
    assert_eq!(
        listeners.remove(key1, false),
        Some(State::Notified { additional: false, tag: () })
    );

    assert_eq!(listeners.len(), 2);
    assert_eq!(listeners.notified(), 0);
    assert_eq!(listeners.tail(), Some(key3));
    assert_eq!(listeners.head(), Some(key2));
    assert_eq!(listeners.start(), Some(key2));
    assert_eq!(listeners.first_empty(), 1);
    assert_eq!(*listeners.entry(0), Entry::Sentinel);
    assert_eq!(*listeners.entry(1), Entry::Empty(4));
    assert_eq!(
        *listeners.entry(2),
        Entry::Listener {
            state: State::Task(Task::Waker(waker)),
            prev: None,
            next: Some(key3),
        }
    );
    assert_eq!(*listeners.entry(3), created(Some(key2), None));

    // Notify the second listener.
    listeners.notify(GenericNotify::new(1, false, NothingProducer));
    assert!(woken.load(Ordering::SeqCst));

    assert_eq!(listeners.len(), 2);
    assert_eq!(listeners.notified(), 1);
    assert_eq!(listeners.tail(), Some(key3));
    assert_eq!(listeners.head(), Some(key2));
    assert_eq!(listeners.start(), Some(key3));
    assert_eq!(listeners.first_empty(), 1);
    assert_eq!(*listeners.entry(0), Entry::Sentinel);
    assert_eq!(*listeners.entry(1), Entry::Empty(4));
    assert_eq!(*listeners.entry(2), notified(false, None, Some(key3)));
    assert_eq!(*listeners.entry(3), created(Some(key2), None));

    // Remove and propogate the second listener.
    assert_eq!(listeners.remove(key2, true), Some(State::NotifiedTaken));

    // The third listener should be notified.
    assert_eq!(listeners.len(), 1);
    assert_eq!(listeners.notified(), 1);
    assert_eq!(listeners.tail(), Some(key3));
    assert_eq!(listeners.head(), Some(key3));
    assert_eq!(listeners.start(), None);
    assert_eq!(listeners.first_empty(), 2);
    assert_eq!(*listeners.entry(0), Entry::Sentinel);
    assert_eq!(*listeners.entry(1), Entry::Empty(4));
    assert_eq!(*listeners.entry(2), Entry::Empty(1));
    assert_eq!(*listeners.entry(3), notified(false, None, None));

    // Remove the third listener.
    assert_eq!(
        listeners.remove(key3, false),
        Some(State::Notified { additional: false, tag: () })
    );
}

#[test]
fn uncontended_inner() {
    let mut inner = Inner::new();

    // Register two listeners.
    let (mut listener1, mut listener2, mut listener3) = (None, None, None);
    inner.insert(&mut listener1);
    inner.insert(&mut listener2);
    inner.insert(&mut listener3);

    assert_eq!(listener1, Some(Listener::HasNode(1)));
    assert_eq!(listener2, Some(Listener::HasNode(2)));

    // Register a waker in the second listener.
    let woken = Arc::new(AtomicBool::new(false));
    let waker = waker_fn({
        let woken = woken.clone();
        move || woken.store(true, Ordering::SeqCst)
    });
    assert_eq!(
        inner.register(&mut listener2, TaskRef::Waker(&waker)),
        RegisterResult::Registered
    );

    // Notify the first listener.
    inner.notify(GenericNotify::new(1, false, NothingProducer));
    assert!(!woken.load(Ordering::SeqCst));

    // Another notify should do nothing.
    inner.notify(GenericNotify::new(1, false, NothingProducer));
    assert!(!woken.load(Ordering::SeqCst));

    // Receive the notification.
    assert_eq!(
        inner.register(&mut listener1, TaskRef::Waker(&waker)),
        RegisterResult::Notified(())
    );

    // First listener is already removed.
    assert!(listener1.is_none());

    // Notify the second listener.
    inner.notify(GenericNotify::new(1, false, NothingProducer));
    assert!(woken.load(Ordering::SeqCst));

    // Remove the second listener and propogate the notification.
    assert_eq!(
        inner.remove(&mut listener2, true),
        Some(State::NotifiedTaken)
    );

    // Second listener is already removed.
    assert!(listener2.is_none());

    // Third listener should be notified.
    assert_eq!(
        inner.register(&mut listener3, TaskRef::Waker(&waker)),
        RegisterResult::Notified(())
    );
}

#[test]
fn waiting_listener_states() {
    let woken = Arc::new(AtomicBool::new(false));
    let waker = waker_fn({
        let woken = woken.clone();
        move || woken.store(true, Ordering::SeqCst)
    });
    let mut waiting = TaskWaiting::new();
    assert_eq!(waiting.status(), None);
    waiting.register(Task::Waker(waker.clone()));
    assert!(!woken.load(Ordering::SeqCst));
    assert_eq!(waiting.cancel(), None);
    assert!(woken.load(Ordering::SeqCst));
    assert_eq!(waiting.status(), None);

    // There is still no entry.
    assert_eq!(waiting.cancel(), None);

    let mut waiting = TaskWaiting::new();
    assert_eq!(waiting.enter(3).0, 0);
    assert_eq!(waiting.status(), Some(3));
    woken.store(false, Ordering::SeqCst);
    waiting.register(Task::Waker(waker));
    assert!(woken.load(Ordering::SeqCst));
    assert_eq!(waiting.cancel(), Some(3));
}

#[test]
fn a_listener_without_an_entry_is_not_registered() {
    let waker = waker_fn(|| ());
    let mut listeners = ListenerSlab::<()>::new();
    assert_eq!(
        listeners.register(&mut None, TaskRef::Waker(&waker)),
        RegisterResult::NeverInserted
    );
    assert_eq!(
        listeners.register(&mut Some(Listener::Queued(0)), TaskRef::Waker(&waker)),
        RegisterResult::NeverInserted
    );
}

#[test]
fn a_waiting_task_is_handed_out_once() {
    let waker = waker_fn(|| ());
    let task = || Task::Waker(waker.clone());

    // Place, settle, tell, take.
    let mut waiting = TaskWaiting::new();
    assert!(waiting.place(task()).is_none());
    assert!(waiting.settle().is_none());
    assert_eq!(waiting.tell(5), 0);
    assert!(waiting.take_task().is_some());

    // Place, tell, settle, take.
    let mut waiting = TaskWaiting::new();
    assert!(waiting.place(task()).is_none());
    waiting.tell(5);
    assert!(waiting.settle().is_some());
    assert!(waiting.take_task().is_none());

    // Tell, take, place, settle.
    let mut waiting = TaskWaiting::new();
    waiting.tell(5);
    assert!(waiting.take_task().is_none());
    assert!(waiting.place(task()).is_none());
    assert!(waiting.settle().is_some());
}
