//! Tests relating to tagging.

use event_listener::event::{Event, EventListener, Listener};
use event_listener::notify::IntoNotification;
use event_listener::task::{wake_all, Task};
use std::sync::{Arc, Mutex};
use waker_fn::waker_fn;

fn notified<T>(event: &mut Event<T>, listener: &mut EventListener<T>) -> Option<T> {
    let waker = waker_fn(|| ());
    listener.poll(event, &waker)
}

#[test]
fn notify_tag() {
    let mut event = Event::with_tag();

    let mut l1 = event.listen();
    let mut l2 = event.listen();
    let mut l3 = event.listen();

    assert!(notified(&mut event, &mut l1).is_none());
    assert!(notified(&mut event, &mut l2).is_none());
    assert!(notified(&mut event, &mut l3).is_none());

    assert_eq!(event.notify(2.tag(true)), 2);
    assert_eq!(event.notify(1.tag(false)), 0);
    assert_eq!(notified(&mut event, &mut l1), Some(true));
    assert_eq!(notified(&mut event, &mut l2), Some(true));
    assert!(notified(&mut event, &mut l3).is_none());
}

#[test]
fn notify_additional_tag() {
    let mut event = Event::with_tag();

    let mut l1 = event.listen();
    let mut l2 = event.listen();
    let mut l3 = event.listen();

    assert_eq!(event.notify(1.additional().tag(1)), 1);
    assert_eq!(event.notify(1.tag(2)), 0);
    assert_eq!(event.notify(1.additional().tag(3)), 1);

    assert_eq!(notified(&mut event, &mut l1), Some(1));
    assert_eq!(notified(&mut event, &mut l2), Some(3));
    assert!(notified(&mut event, &mut l3).is_none());
}

#[test]
fn notify_with_tag() {
    let mut event = Event::with_tag();

    let mut l1 = event.listen();
    let mut l2 = event.listen();
    let mut l3 = event.listen();

    assert!(notified(&mut event, &mut l1).is_none());
    assert!(notified(&mut event, &mut l2).is_none());
    assert!(notified(&mut event, &mut l3).is_none());

    let mut i = 0usize;

    event.notify(2.tag_with(|| {
        i += 1;
        i
    }));
    assert_eq!(notified(&mut event, &mut l1), Some(1));
    assert_eq!(notified(&mut event, &mut l2), Some(2));
    assert!(notified(&mut event, &mut l3).is_none());
}

#[test]
fn drop_notify_with_tag() {
    let mut event = Event::with_tag();

    let l1 = event.listen();
    let mut l2 = event.listen();
    let mut l3 = event.listen();

    assert_eq!(event.notify(1.tag_with(|| 5i32)), 1);
    l1.remove(&mut event);
    assert_eq!(notified(&mut event, &mut l2), Some(5));
    assert!(notified(&mut event, &mut l3).is_none());
}

#[test]
fn tag_is_passed_on_to_nobody_when_discarded() {
    let mut event = Event::with_tag();
    let l1 = event.listen();
    let mut l2 = event.listen();

    assert_eq!(event.notify(1.additional().tag("x")), 1);
    assert!(l1.discard(&mut event));
    assert!(notified(&mut event, &mut l2).is_none());
}

#[test]
fn a_task_is_woken_before_the_next_tag_is_made() {
    let log = Arc::new(Mutex::new(vec![]));
    let mut event = Event::with_tag();
    let mut l1 = event.listen();
    let mut l2 = event.listen();
    for (n, listener) in [(1, &mut l1), (2, &mut l2)] {
        let log = log.clone();
        let waker = waker_fn(move || log.lock().unwrap().push(format!("wake {}", n)));
        assert!(listener.poll(&mut event, &waker).is_none());
    }
    let mut next = 0;
    let count = event.notify(2.tag_with(|| {
        next += 1;
        log.lock().unwrap().push(format!("tag {}", next));
        next
    }));
    assert_eq!(count, 2);
    assert_eq!(*log.lock().unwrap(), ["tag 1", "wake 1", "tag 2", "wake 2"]);
    assert_eq!(notified(&mut event, &mut l2), Some(2));
    assert_eq!(notified(&mut event, &mut l1), Some(1));
}

#[test]
fn tasks_can_be_gathered_instead_of_woken() {
    let woken = Arc::new(Mutex::new(0));
    let waker = {
        let woken = woken.clone();
        waker_fn(move || *woken.lock().unwrap() += 1)
    };
    let mut event = Event::with_tag();
    let mut l1 = event.listen();
    let mut l2 = event.listen();
    let _l3 = event.listen();
    assert!(l1.poll(&mut event, &waker).is_none());
    assert!(l2.poll(&mut event, &waker).is_none());

    let mut tasks: Vec<Task> = Vec::new();
    assert_eq!(event.notify_into(3.tag('t'), &mut tasks), 3);
    assert_eq!(tasks.len(), 2);
    assert_eq!(*woken.lock().unwrap(), 0);
    wake_all(tasks);
    assert_eq!(*woken.lock().unwrap(), 2);
}
