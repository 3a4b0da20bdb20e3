//! Tests of the listener whose state is one word.

use event_listener::listener::{
    dequeue_step, enqueue_step, notify_step, orphan_step, register_step, ListenState, Listener,
    State, Step, Wakeup,
};
use std::sync::atomic::{AtomicUsize, Ordering};
use std::sync::Arc;
use std::task::Waker;
use waker_fn::waker_fn;

fn counting(count: &Arc<AtomicUsize>) -> Waker {
    let count = count.clone();
    waker_fn(move || {
        count.fetch_add(1, Ordering::SeqCst);
    })
}

#[test]
fn words_are_read_back() {
    let all = [
        ListenState::Created,
        ListenState::Registered,
        ListenState::SettingWaker,
        ListenState::Notified,
        ListenState::NotifiedAdditional,
        ListenState::Orphaned,
    ];
    for (i, listen) in all.iter().enumerate() {
        let state = State { listen: *listen, queued: false };
        assert_eq!(state.to_word(), i);
        assert_eq!(State::from_word(i), state);
        let state = State { listen: *listen, queued: true };
        assert_eq!(state.to_word(), i + 8);
        assert_eq!(State::from_word(i + 8), state);
    }
}

#[test]
fn notification_is_received_once() {
    let count = Arc::new(AtomicUsize::new(0));
    let mut listener = Listener::new();
    let waker = counting(&count);
    assert!(!listener.register(move || Wakeup::Waker(waker)));
    assert!(listener.notify(false));
    assert_eq!(count.load(Ordering::SeqCst), 1);
    assert!(!listener.notify(true));
    assert!(listener.register(|| Wakeup::Nobody));
    assert_eq!(listener.orphan(), (true, Some(false)));
    assert_eq!(listener.orphan(), (false, None));
    assert!(!listener.register(|| Wakeup::Nobody));
    assert!(!listener.notify(true));
}

#[test]
fn additional_notification_before_any_waker() {
    let mut listener = Listener::new();
    assert!(listener.notify(true));
    assert_eq!(listener.orphan(), (true, Some(true)));
}

#[test]
fn a_thread_is_unparked() {
    let (parker, unparker) = parking::pair();
    let mut listener = Listener::new();
    assert!(!listener.register(move || Wakeup::Thread(unparker)));
    assert!(listener.notify(false));
    assert!(parker.park_timeout(std::time::Duration::from_millis(0)));
}

#[test]
fn the_last_holder_drops_the_listener() {
    let mut listener = Listener::new();
    listener.enqueue();
    listener.enqueue();
    assert_eq!(listener.orphan(), (false, None));
    assert!(listener.dequeue());
    assert!(!listener.dequeue());

    let mut listener = Listener::new();
    listener.enqueue();
    assert!(!listener.dequeue());
    assert_eq!(listener.orphan(), (true, None));
}

#[test]
fn steps_for_those_who_share() {
    let at = |listen| State { listen, queued: true };
    assert_eq!(enqueue_step(at(ListenState::Created)), None);
    assert_eq!(
        dequeue_step(at(ListenState::Orphaned)),
        Some(State { listen: ListenState::Orphaned, queued: false })
    );
    assert_eq!(orphan_step(at(ListenState::SettingWaker)), Step::Wait);
    assert_eq!(orphan_step(at(ListenState::Orphaned)), Step::Stop);
    assert_eq!(register_step(at(ListenState::SettingWaker)), Step::Wait);
    assert_eq!(register_step(at(ListenState::Notified)), Step::Stop);
    assert_eq!(
        notify_step(at(ListenState::Created), true),
        Step::Go(at(ListenState::NotifiedAdditional))
    );
    assert_eq!(
        notify_step(at(ListenState::Registered), false),
        Step::Lock {
            held: at(ListenState::SettingWaker),
            done: at(ListenState::Notified),
        }
    );
}
