use event_listener::event::{Event, EventListener, Listener};
use event_listener::linked_list::list::QueueStrategy;
use event_listener::linked_list::mutex::Inner;
use event_listener::notify::IntoNotification;
use std::sync::{Arc, Mutex};
use std::task::Waker;
use waker_fn::waker_fn;

fn is_notified(event: &mut Event, listener: &mut EventListener) -> bool {
    let waker = waker_fn(|| ());
    listener.poll(event, &waker).is_some()
}

#[test]
fn notify_fifo() {
    notify(QueueStrategy::Fifo)
}

#[test]
fn notify_lifo() {
    notify(QueueStrategy::Lifo)
}

fn notify(queue_strategy: QueueStrategy) {
    let mut event = Event::new_with_queue_strategy(queue_strategy);

    let mut l1 = event.listen();
    let mut l2 = event.listen();
    let mut l3 = event.listen();

    assert!(!is_notified(&mut event, &mut l1));
    assert!(!is_notified(&mut event, &mut l2));
    assert!(!is_notified(&mut event, &mut l3));

    assert_eq!(event.notify(2), 2);
    assert_eq!(event.notify(1), 0);

    match queue_strategy {
        QueueStrategy::Fifo => {
            assert!(is_notified(&mut event, &mut l1));
            assert!(is_notified(&mut event, &mut l2));
            assert!(!is_notified(&mut event, &mut l3));
        }
        QueueStrategy::Lifo => {
            assert!(is_notified(&mut event, &mut l3));
            assert!(is_notified(&mut event, &mut l2));
            assert!(!is_notified(&mut event, &mut l1));
        }
    }
}

#[test]
fn notify_additional_fifo() {
    notify_additional(QueueStrategy::Fifo)
}

#[test]
fn notify_additional_lifo() {
    notify_additional(QueueStrategy::Lifo)
}

fn notify_additional(queue_strategy: QueueStrategy) {
    let mut event = Event::new_with_queue_strategy(queue_strategy);

    let mut l1 = event.listen();
    let mut l2 = event.listen();
    let mut l3 = event.listen();

    assert_eq!(event.notify_additional(1), 1);
    assert_eq!(event.notify(1), 0);
    assert_eq!(event.notify_additional(1), 1);

    match queue_strategy {
        QueueStrategy::Fifo => {
            assert!(is_notified(&mut event, &mut l1));
            assert!(is_notified(&mut event, &mut l2));
            assert!(!is_notified(&mut event, &mut l3));
        }
        QueueStrategy::Lifo => {
            assert!(is_notified(&mut event, &mut l3));
            assert!(is_notified(&mut event, &mut l2));
            assert!(!is_notified(&mut event, &mut l1));
        }
    }
}

#[test]
fn notify_one_fifo() {
    notify_one(QueueStrategy::Fifo)
}

#[test]
fn notify_one_lifo() {
    notify_one(QueueStrategy::Lifo)
}

fn notify_one(queue_strategy: QueueStrategy) {
    let mut event = Event::new_with_queue_strategy(queue_strategy);

    let mut l1 = event.listen();
    let mut l2 = event.listen();

    assert!(!is_notified(&mut event, &mut l1));
    assert!(!is_notified(&mut event, &mut l2));

    assert_eq!(event.notify(1), 1);
    match queue_strategy {
        QueueStrategy::Fifo => {
            assert!(is_notified(&mut event, &mut l1));
            assert!(!is_notified(&mut event, &mut l2));
        }
        QueueStrategy::Lifo => {
            assert!(is_notified(&mut event, &mut l2));
            assert!(!is_notified(&mut event, &mut l1));
        }
    }

    assert_eq!(event.notify(1), 1);
    match queue_strategy {
        QueueStrategy::Fifo => assert!(is_notified(&mut event, &mut l2)),
        QueueStrategy::Lifo => assert!(is_notified(&mut event, &mut l1)),
    }
}

#[test]
fn notify_all_fifo() {
    notify_all(QueueStrategy::Fifo)
}

#[test]
fn notify_all_lifo() {
    notify_all(QueueStrategy::Lifo)
}

fn notify_all(queue_strategy: QueueStrategy) {
    let mut event = Event::new_with_queue_strategy(queue_strategy);

    let mut l1 = event.listen();
    let mut l2 = event.listen();

    assert!(!is_notified(&mut event, &mut l1));
    assert!(!is_notified(&mut event, &mut l2));

    assert_eq!(event.notify(usize::MAX), 2);
    assert!(is_notified(&mut event, &mut l1));
    assert!(is_notified(&mut event, &mut l2));
}

#[test]
fn drop_notified_fifo() {
    let mut event = Event::new_with_queue_strategy(QueueStrategy::Fifo);

    let l1 = event.listen();
    let mut l2 = event.listen();
    let mut l3 = event.listen();

    assert_eq!(event.notify(1), 1);
    l1.remove(&mut event);
    assert!(is_notified(&mut event, &mut l2));
    assert!(!is_notified(&mut event, &mut l3));
}

#[test]
fn drop_notified_lifo() {
    let mut event = Event::new_with_queue_strategy(QueueStrategy::Lifo);

    let mut l1 = event.listen();
    let mut l2 = event.listen();
    let l3 = event.listen();

    assert_eq!(event.notify(1), 1);
    l3.remove(&mut event);
    assert!(is_notified(&mut event, &mut l2));
    assert!(!is_notified(&mut event, &mut l1));
}

#[test]
fn drop_notified2_fifo() {
    let mut event = Event::new_with_queue_strategy(QueueStrategy::Fifo);

    let l1 = event.listen();
    let mut l2 = event.listen();
    let mut l3 = event.listen();

    assert_eq!(event.notify(2), 2);
    l1.remove(&mut event);
    assert!(is_notified(&mut event, &mut l2));
    assert!(!is_notified(&mut event, &mut l3));
}

#[test]
fn drop_notified2_lifo() {
    let mut event = Event::new_with_queue_strategy(QueueStrategy::Lifo);

    let mut l1 = event.listen();
    let mut l2 = event.listen();
    let l3 = event.listen();

    assert_eq!(event.notify(2), 2);
    l3.remove(&mut event);
    assert!(is_notified(&mut event, &mut l2));
    assert!(!is_notified(&mut event, &mut l1));
}

#[test]
fn drop_notified_additional_fifo() {
    let mut event = Event::new_with_queue_strategy(QueueStrategy::Fifo);

    let l1 = event.listen();
    let mut l2 = event.listen();
    let mut l3 = event.listen();
    let mut l4 = event.listen();

    assert_eq!(event.notify_additional(1), 1);
    assert_eq!(event.notify(2), 1);
    l1.remove(&mut event);
    assert!(is_notified(&mut event, &mut l2));
    assert!(is_notified(&mut event, &mut l3));
    assert!(!is_notified(&mut event, &mut l4));
}

#[test]
fn drop_notified_additional_lifo() {
    let mut event = Event::new_with_queue_strategy(QueueStrategy::Lifo);

    let mut l1 = event.listen();
    let mut l2 = event.listen();
    let mut l3 = event.listen();
    let l4 = event.listen();

    assert_eq!(event.notify_additional(1), 1);
    assert_eq!(event.notify(2), 1);
    l4.remove(&mut event);
    assert!(is_notified(&mut event, &mut l3));
    assert!(is_notified(&mut event, &mut l2));
    assert!(!is_notified(&mut event, &mut l1));
}

#[test]
fn drop_non_notified_fifo() {
    let mut event = Event::new_with_queue_strategy(QueueStrategy::Fifo);

    let mut l1 = event.listen();
    let mut l2 = event.listen();
    let l3 = event.listen();

    assert_eq!(event.notify(1), 1);
    l3.remove(&mut event);
    assert!(is_notified(&mut event, &mut l1));
    assert!(!is_notified(&mut event, &mut l2));
}

#[test]
fn drop_non_notified_lifo() {
    let mut event = Event::new_with_queue_strategy(QueueStrategy::Lifo);

    let l1 = event.listen();
    let mut l2 = event.listen();
    let mut l3 = event.listen();

    assert_eq!(event.notify(1), 1);
    l1.remove(&mut event);
    assert!(is_notified(&mut event, &mut l3));
    assert!(!is_notified(&mut event, &mut l2));
}

#[test]
fn notify_all_fair_fifo() {
    notify_all_fair(QueueStrategy::Fifo)
}

#[test]
fn notify_all_fair_lifo() {
    notify_all_fair(QueueStrategy::Lifo)
}

fn recorder(v: &Arc<Mutex<Vec<i32>>>, n: i32) -> Waker {
    let v = v.clone();
    waker_fn(move || v.lock().unwrap().push(n))
}

fn notify_all_fair(queue_strategy: QueueStrategy) {
    let mut event = Event::new_with_queue_strategy(queue_strategy);
    let v = Arc::new(Mutex::new(vec![]));

    let mut l1 = event.listen();
    let mut l2 = event.listen();
    let mut l3 = event.listen();

    let waker1 = recorder(&v, 1);
    let waker2 = recorder(&v, 2);
    let waker3 = recorder(&v, 3);

    assert!(l1.poll(&mut event, &waker1).is_none());
    assert!(l2.poll(&mut event, &waker2).is_none());
    assert!(l3.poll(&mut event, &waker3).is_none());

    assert_eq!(event.notify(usize::MAX), 3);

    match queue_strategy {
        QueueStrategy::Fifo => assert_eq!(&*v.lock().unwrap(), &[1, 2, 3]),
        QueueStrategy::Lifo => assert_eq!(&*v.lock().unwrap(), &[3, 2, 1]),
    }

    assert!(l1.poll(&mut event, &waker1).is_some());
    assert!(l2.poll(&mut event, &waker2).is_some());
    assert!(l3.poll(&mut event, &waker3).is_some());
}

#[test]
fn notification_without_listeners_is_lost() {
    let mut event = Event::new();
    assert_eq!(event.notify(1), 0);

    let mut l1 = event.listen();
    assert!(!is_notified(&mut event, &mut l1));
    assert_eq!(event.notify(0), 0);
    assert_eq!(event.notify_additional(0), 0);
    assert!(!is_notified(&mut event, &mut l1));
}

#[test]
fn relaxed_notifications_reach_the_same_listeners() {
    let mut event = Event::default();
    let mut l1 = event.listen();
    let mut l2 = event.listen();
    let mut l3 = event.listen();

    assert_eq!(event.notify_relaxed(1), 1);
    assert_eq!(event.notify_relaxed(1), 0);
    assert_eq!(event.notify_additional_relaxed(1), 1);
    assert_eq!(event.notified_listeners(), 2);

    assert!(is_notified(&mut event, &mut l1));
    assert!(is_notified(&mut event, &mut l2));
    assert!(!is_notified(&mut event, &mut l3));
}

#[test]
fn notifications_are_built_from_each_other() {
    let mut event = Event::new();
    let l1 = event.listen();
    let l2 = event.listen();
    let l3 = event.listen();

    assert_eq!(event.notify(1.relaxed()), 1);
    assert_eq!(event.notify(1usize.additional()), 1);
    assert_eq!(event.notify(3.additional().relaxed()), 1);
    assert_eq!(event.notify(usize::MAX), 0);
    assert_eq!(event.notified_listeners(), 3);
    assert!(l1.discard(&mut event));
    assert!(l2.discard(&mut event));
    assert!(l3.discard(&mut event));
}

#[test]
fn discard_notifies_nobody() {
    let mut event = Event::new();
    let l1 = event.listen();
    let l2 = event.listen();
    let mut l3 = event.listen();

    event.notify(1);

    assert!(l1.discard(&mut event));
    assert!(!l2.discard(&mut event));
    assert!(!is_notified(&mut event, &mut l3));
    assert_eq!(event.total_listeners(), 1);
}

#[test]
fn dropped_plain_notification_stops_at_a_notified_listener() {
    let mut event = Event::new();
    let l1 = event.listen();
    let mut l2 = event.listen();
    let mut l3 = event.listen();

    assert_eq!(event.notify(2), 2);
    l1.remove(&mut event);
    assert_eq!(event.notified_listeners(), 1);
    assert!(is_notified(&mut event, &mut l2));
    assert!(!is_notified(&mut event, &mut l3));
}

#[test]
fn listeners_know_their_event() {
    let mut event = Event::new();
    let mut other = Event::new();
    let l1 = event.listen();
    let l2 = event.listen();
    let l3 = other.listen();

    assert!(l1.listens_to(&event));
    assert!(!l1.listens_to(&other));
    assert!(l1.same_event(&l2));
    assert!(!l1.same_event(&l3));
    assert!(!l1.listens_to(&Event::new()));
}

#[test]
fn a_second_poll_replaces_the_waker() {
    let v = Arc::new(Mutex::new(vec![]));
    let mut event = Event::new();
    let mut l1 = event.listen();
    let waker1 = recorder(&v, 1);
    let waker2 = recorder(&v, 2);

    assert!(l1.poll(&mut event, &waker1).is_none());
    assert!(l1.poll(&mut event, &waker1.clone()).is_none());
    assert!(l1.poll(&mut event, &waker2).is_none());
    assert_eq!(event.notify(1), 1);
    assert_eq!(&*v.lock().unwrap(), &[2]);
}

#[test]
fn negative_numbers_stand_for_nothing() {
    assert!(!(-1).stands_for_one());
    assert!(0.stands_for_one());
    assert!(usize::MAX.stands_for_one());
    assert!(3.additional().stands_for_one());
}

#[test]
fn nobody_is_notified_without_listeners() {
    let mut inner: Inner<()> = Inner::new(QueueStrategy::Fifo);
    assert!(!inner.is_notified());
    let mut l1 = inner.listen();
    let mut l2 = inner.listen();
    assert!(!inner.is_notified());
    inner.notify(1.into_notification());
    assert!(inner.is_notified());
    inner.notify(2.into_notification());
    assert!(inner.is_notified());
    assert!(inner.discard(&mut l1));
    assert!(inner.is_notified());
    assert!(inner.discard(&mut l2));
    assert!(!inner.is_notified());
}

#[test]
fn a_listener_waits_until_it_is_notified() {
    let mut event = Event::new();
    let mut l1 = event.listen();
    assert!(l1.is_waiting());
    event.notify(1);
    assert!(is_notified(&mut event, &mut l1));
    assert!(!l1.is_waiting());
}
