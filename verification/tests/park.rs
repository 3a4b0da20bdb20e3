//! Test the wait() family of methods.

use event_listener::event::{Event, EventListener, Listener};
use event_listener::linked_list::mutex::{go_to_sleep, Sleep, WaitStep};
use event_listener::notify::IntoNotification;
use std::time::{Duration, Instant};

/// Blocks on a listener until it is notified or the time is up.
fn block<T>(
    event: &mut Event<T>,
    listener: EventListener<T>,
    timeout: Option<Duration>,
) -> Option<T> {
    let start = Instant::now();
    let deadline = timeout.map(|timeout| timeout.as_nanos());
    let (parker, unparker) = parking::pair();
    let mut step = listener.wait(event, &unparker);
    loop {
        match step {
            WaitStep::Finished(tag) => return tag,
            WaitStep::Park(key) => {
                match go_to_sleep(start.elapsed().as_nanos(), deadline) {
                    Sleep::UntilWoken => parker.park(),
                    Sleep::For(nanos) => {
                        parker.park_timeout(Duration::from_nanos(nanos as u64));
                    }
                    Sleep::Expired => return event.wait_expired(key),
                }
                step = event.wait_unparked(key);
            }
        }
    }
}

#[test]
fn total_listeners() {
    let mut event = Event::new();
    assert_eq!(event.total_listeners(), 0);

    let listener = event.listen();
    assert_eq!(event.total_listeners(), 1);

    listener.remove(&mut event);
    assert_eq!(event.total_listeners(), 0);
}

#[test]
fn wait() {
    let mut event = Event::new();
    let listener = event.listen();

    assert_eq!(event.notify(1), 1);
    assert_eq!(block(&mut event, listener, None), Some(()));
}

#[test]
fn wait_tag() {
    let mut event = Event::with_tag();
    let listener = event.listen();

    assert_eq!(event.notify(1.tag(5i32)), 1);
    assert_eq!(block(&mut event, listener, None), Some(5i32));
}

#[test]
fn wait_timeout() {
    let mut event = Event::new();
    let listener = event.listen();

    assert_eq!(event.notify(1), 1);
    let timeout = Duration::from_millis(50);
    assert_eq!(block(&mut event, listener, Some(timeout)), Some(()));
}

#[test]
fn wait_deadline() {
    let mut event = Event::new();
    let listener = event.listen();

    assert_eq!(event.notify(1), 1);
    let deadline = Instant::now() + Duration::from_millis(50);
    let timeout = deadline.duration_since(Instant::now());
    assert_eq!(block(&mut event, listener, Some(timeout)), Some(()));
}

#[test]
fn wait_timeout_expiry() {
    let mut event = Event::new();
    let listener = event.listen();

    let start = Instant::now();
    let timeout = Duration::from_millis(200);
    assert_eq!(block(&mut event, listener, Some(timeout)), None);
    assert!(Instant::now().duration_since(start) >= Duration::from_millis(200));
    assert_eq!(event.total_listeners(), 0);
}

#[test]
fn notification_unparks_the_waiting_thread() {
    let mut event = Event::with_tag();
    let listener = event.listen();
    let (parker, unparker) = parking::pair();

    let key = match listener.wait(&mut event, &unparker) {
        WaitStep::Park(key) => key,
        WaitStep::Finished(_) => panic!("not notified yet"),
    };
    assert_eq!(event.wait_unparked(key), WaitStep::Park(key));
    assert_eq!(event.notify(1.tag(7)), 1);
    assert!(parker.park_timeout(Duration::from_millis(0)));
    assert_eq!(event.wait_unparked(key), WaitStep::Finished(Some(7)));
    assert_eq!(event.total_listeners(), 0);
}

#[test]
fn last_moment_notification_counts() {
    let mut event = Event::with_tag();
    let listener = event.listen();
    let (_parker, unparker) = parking::pair();

    match listener.wait(&mut event, &unparker) {
        WaitStep::Park(key) => {
            event.notify(1.tag('c'));
            assert_eq!(event.wait_expired(key), Some('c'));
        }
        WaitStep::Finished(_) => panic!("not notified yet"),
    }
}

#[test]
fn sleeping_ends_at_the_deadline() {
    assert_eq!(go_to_sleep(7, None), Sleep::UntilWoken);
    assert_eq!(go_to_sleep(7, Some(9)), Sleep::For(2));
    assert_eq!(go_to_sleep(9, Some(9)), Sleep::Expired);
    assert_eq!(go_to_sleep(10, Some(9)), Sleep::Expired);
}
