use event_listener::no_std::node::AtomicCell;
use event_listener::spin::{Mutex, SpinStep, SpinWait, SPINS};
use event_listener::util::RacyArc;
use std::sync::Arc;

#[test]
fn smoke_mutex() {
    let mut mutex = Mutex::new(0);

    {
        let guard = mutex.try_lock().unwrap();
        *mutex.get_mut(&guard) += 1;
        mutex.unlock(guard);
    }

    {
        let guard = mutex.try_lock().unwrap();
        *mutex.get_mut(&guard) += 1;
        mutex.unlock(guard);
    }

    let guard = mutex.try_lock().unwrap();
    assert_eq!(*mutex.get(&guard), 2);
}

#[test]
fn a_locked_mutex_is_not_had() {
    let mut mutex = Mutex::new('x');
    let guard = mutex.lock();
    assert!(mutex.try_lock().is_none());
    assert!(mutex.try_lock_slow().is_none());
    mutex.unlock(guard);
    let guard = mutex.lock_slow();
    assert_eq!(*mutex.get(&guard), 'x');
}

#[test]
fn patience_runs_out() {
    let mut wait = SpinWait::new();
    assert_eq!(wait.observe(false), SpinStep::Take);
    for _ in 0..SPINS {
        assert_eq!(wait.observe(true), SpinStep::Look);
    }
    assert_eq!(wait.observe(true), SpinStep::GiveUp);
    assert_eq!(wait.observe(false), SpinStep::Take);
}

#[test]
fn cell_hands_values_over() {
    let mut cell: AtomicCell<i32> = AtomicCell::new();
    assert_eq!(cell.take(), None);
    assert_eq!(cell.replace(Some(Box::new(1))), None);
    assert_eq!(cell.replace(Some(Box::new(2))), Some(Box::new(1)));
    assert_eq!(cell.take(), Some(Box::new(2)));
    assert_eq!(cell.take(), None);
}

#[test]
fn first_value_wins() {
    let mut racy: RacyArc<i32> = RacyArc::new();
    assert_eq!(racy.get(), None);
    assert_eq!(racy.with_or_init(|| 1, |x: &Arc<i32>| **x), 1);
    assert_eq!(racy.with_or_init(|| 2, |x: &Arc<i32>| **x), 1);
    assert_eq!(*racy.offer(Arc::new(3)), 1);
    assert_eq!(racy.get(), Some(&1));
}
