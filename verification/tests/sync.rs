use hyperion::sync::{Waiters, AutoFutex, Condvar, Futex, SpinLock, TakeOnce, UserFutex};

#[test]
fn spin_lock_has_one_holder() {
    let mut l = SpinLock::new();
    assert!(l.try_lock(1));
    assert!(!l.try_lock(2));
    assert!(l.is_deadlock(1));
    assert!(!l.is_deadlock(2));
    l.unlock();
    assert!(l.try_lock(2));
}

#[test]
fn kernel_futexes() {
    let mut f = Futex::new();
    assert!(f.try_lock());
    assert!(!f.try_lock());
    f.unlock();
    assert!(f.try_lock());
    let mut a = AutoFutex::new();
    assert!(a.try_lock());
    assert!(!a.unlock(false));
    assert!(a.try_lock());
    assert!(a.unlock(true));
}

#[test]
fn user_futex_records_waiters() {
    let mut f = UserFutex::new();
    assert!(f.try_lock());
    assert!(!f.lock_round());
    // a waiter was recorded: unlocking wakes it
    assert!(f.unlock());
    assert!(f.lock_round());
    assert!(!f.unlock());
}

#[test]
fn condvar_counts_notifications() {
    let mut c = Condvar::new();
    let seen = c.value();
    assert!(c.should_wait(seen));
    c.notify_one();
    assert!(!c.should_wait(seen));
    let seen = c.value();
    c.notify_all();
    assert!(!c.should_wait(seen));
}

#[test]
fn take_once_gives_its_value_once() {
    let mut t = TakeOnce::new(5);
    assert_eq!(t.take(), Some(5));
    assert_eq!(t.take(), None);
    let mut n: TakeOnce<u8> = TakeOnce::none();
    assert_eq!(n.take(), None);
}

#[test]
fn waiters_queue_by_address() {
    let mut w: Waiters<u32> = Waiters::new();
    assert_eq!(w.push(0x1000, 1, false), None);
    assert_eq!(w.push(0x1000, 2, false), None);
    assert_eq!(w.push(0x2000, 3, false), None);
    // a cancelled wait hands the task back
    assert_eq!(w.push(0x1000, 4, true), Some(4));
    // waking drops the newest waiters of the address
    assert_eq!((w.waiting(0x1000), w.waiting(0x2000), w.waiting(0x3000)), (2, 1, 0));
    w.pop(0x1000, 1);
    w.pop(0x3000, 5);
    w.pop(0x2000, 5);
    assert_eq!((w.waiting(0x1000), w.waiting(0x2000), w.waiting(0x3000)), (1, 0, 0));
    assert_eq!(w.push(0x1000, 5, false), None);
    w.pop(0x1000, usize::MAX);
    assert_eq!(w.waiting(0x1000), 0);
}
