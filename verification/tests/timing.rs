use scx_rusty::timing::{timespec_ns, Deadlines};

#[test]
fn first_deadlines() {
    let dl = Deadlines::new(1000, 100, 2000);
    assert_eq!(dl.next_tune_at, 1100);
    assert_eq!(dl.next_sched_at, 3000);
    assert!(!dl.tune_due(1099));
    assert!(dl.tune_due(1100));
    assert!(dl.tune_due(1101));
    assert!(!dl.sched_due(2999));
    assert!(dl.sched_due(3000));
}

#[test]
fn deadlines_follow_each_other() {
    let mut dl = Deadlines::new(0, 100, 250);
    dl.tuned(105);
    assert_eq!((dl.next_tune_at, dl.next_sched_at), (200, 250));
    // Late, but not by a whole interval.
    dl.tuned(300);
    assert_eq!(dl.next_tune_at, 300);
    dl.balanced(260);
    assert_eq!((dl.next_tune_at, dl.next_sched_at), (300, 500));
    assert_eq!((dl.tune_interval, dl.sched_interval), (100, 250));
}

#[test]
fn missed_deadlines_do_not_pile_up() {
    let mut dl = Deadlines::new(0, 100, 250);
    dl.tuned(1000);
    assert_eq!(dl.next_tune_at, 1100);
    dl.balanced(1000);
    assert_eq!(dl.next_sched_at, 1250);
    for now in [100u128, 150, 199, 200, 201, 5000] {
        let mut dl = Deadlines::new(0, 100, 250);
        dl.tuned(now);
        assert!(now <= dl.next_tune_at && dl.next_tune_at <= now + 100);
    }
}

#[test]
fn sleeping_until_the_earlier_deadline() {
    let dl = Deadlines::new(0, 100, 250);
    assert_eq!(dl.sleep_for(0), 100);
    assert_eq!(dl.sleep_for(99), 1);
    assert_eq!(dl.sleep_for(100), 0);
    assert_eq!(dl.sleep_for(170), 0);
    let dl = Deadlines::new(0, 300, 250);
    assert_eq!(dl.sleep_for(10), 240);
}

#[test]
fn clock_in_nanoseconds() {
    assert_eq!(timespec_ns(0, 0), 0);
    assert_eq!(timespec_ns(12, 345), 12_000_000_345);
    assert_eq!(timespec_ns(0, 999_999_999), 999_999_999);
}
