use hyperion::timer::{sleep, ticks, SleepPoll, SleepUntil};

#[test]
fn sleeping_until_a_deadline() {
    let mut s = SleepUntil::new(100);
    assert_eq!(s.poll(10), SleepPoll::Arm { deadline: 100 });
    assert!(!s.after_arm(20));
    assert_eq!(s.poll(50), SleepPoll::Pending);
    assert_eq!(s.poll(100), SleepPoll::Ready);
    assert_eq!(sleep(5, 7).deadline(), 12);
    let mut late = SleepUntil::new(3);
    assert_eq!(late.poll(4), SleepPoll::Ready);
}

#[test]
fn ticks_do_not_drift() {
    let mut t = ticks(1000, 10);
    assert_eq!(t.poll_next(1005), SleepPoll::Arm { deadline: 1010 });
    assert_eq!(t.poll_next(1009), SleepPoll::Pending);
    // polled late: the next tick is still one interval after this one's deadline
    assert_eq!(t.poll_next(1017), SleepPoll::Ready);
    assert_eq!(t.poll_next(1018), SleepPoll::Arm { deadline: 1020 });
    assert_eq!(t.poll_next(1020), SleepPoll::Ready);
    // each late poll catches up one tick: 1030, 1040, 1050
    assert_eq!(t.poll_next(1055), SleepPoll::Ready);
    assert_eq!(t.poll_next(1055), SleepPoll::Ready);
    assert_eq!(t.poll_next(1055), SleepPoll::Ready);
    assert_eq!(t.poll_next(1055), SleepPoll::Arm { deadline: 1060 });
}
