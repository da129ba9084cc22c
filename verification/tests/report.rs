use scx_rusty::double::Double;
use scx_rusty::report::{report, sum_percpu, BpfStats};
use scx_rusty::tuner::TuneInput;

fn d(x: f64) -> Double {
    Double::from_bits(x.to_bits())
}

fn f(x: Double) -> f64 {
    f64::from_bits(x.to_bits())
}

fn stats() -> BpfStats {
    BpfStats {
        wake_sync: 1,
        prev_idle: 2,
        greedy_idle: 3,
        pinned: 4,
        direct_dispatch: 5,
        direct_greedy: 6,
        direct_greedy_far: 7,
        dsq_dispatch: 8,
        greedy: 14,
        repatriate: 25,
        kick_greedy: 100,
        load_balance: 77,
        task_get_err: 88,
    }
}

fn input() -> TuneInput {
    let mut ti =
        TuneInput { gen: 1, direct_greedy_cpumask: [0; 8], kick_greedy_cpumask: [0; 8] };
    ti.direct_greedy_cpumask[0] = 0xf0;
    ti.kick_greedy_cpumask[0] = 0x0f;
    ti
}

#[test]
fn counters_are_added_up_over_cpus() {
    assert_eq!(sum_percpu(&[]), Some(0));
    assert_eq!(sum_percpu(&[1, 2, 30]), Some(33));
    assert_eq!(sum_percpu(&[u64::MAX - 1, 1]), Some(u64::MAX));
    assert_eq!(sum_percpu(&[u64::MAX - 1, 1, 1]), None);
}

#[test]
fn shares_are_in_percent() {
    let utils = [d(0.5), d(0.25)];
    let loads = [d(10.0), d(4.0)];
    let imbal = [d(3.0), d(0.0)];
    let r = report(&stats(), d(0.125), 9, d(7.0), &utils, &loads, &imbal, &input(), 8, 2);
    assert_eq!(r.total, 50);
    assert_eq!(f(r.cpu_busy), 12.5);
    assert_eq!(r.load_balance, 77);
    assert_eq!(f(r.load_avg), 7.0);
    assert_eq!(r.task_err, 88);
    assert_eq!(r.lb_data_err, 9);
    assert_eq!(f(r.wake_sync), 2.0);
    assert_eq!(f(r.prev_idle), 4.0);
    assert_eq!(f(r.greedy_idle), 6.0);
    assert_eq!(f(r.pinned), 8.0);
    assert_eq!(f(r.direct_dispatch), 10.0);
    assert_eq!(f(r.direct_greedy), 12.0);
    assert_eq!(f(r.direct_greedy_far), 7.0 / 50.0 * 100.0);
    assert_eq!(f(r.dsq_dispatch), 16.0);
    assert_eq!(f(r.greedy), 14.0 / 50.0 * 100.0);
    assert_eq!(f(r.kick_greedy), 200.0);
    assert_eq!(f(r.repatriate), 50.0);
    assert_eq!(r.direct_greedy_cpumask, " 00000000000000F0");
    assert_eq!(r.kick_greedy_cpumask, " 000000000000000F");
}

#[test]
fn dispatched_tasks_are_counted() {
    let mut s = stats();
    assert_eq!(s.total(), Some(50));
    s.greedy = u64::MAX - 36;
    assert_eq!(s.total(), Some(u64::MAX));
    s.wake_sync += 1;
    assert_eq!(s.total(), None);
}

#[test]
fn figures_of_the_domains() {
    let utils = [d(0.5), d(0.25), d(1.0)];
    let loads = [d(10.0), d(4.0), d(1.5)];
    let imbal = [d(3.0), d(-0.0), d(-2.0)];
    let r = report(&stats(), d(0.5), 0, d(7.0), &utils, &loads, &imbal, &input(), 8, 3);
    assert_eq!(r.doms.len(), 3);
    assert_eq!(f(r.doms[0].util), 50.0);
    assert_eq!(f(r.doms[0].load), 10.0);
    assert_eq!(f(r.doms[0].imbal), 3.0);
    assert!(!r.doms[0].balanced);
    assert_eq!(f(r.doms[1].util), 25.0);
    assert!(r.doms[1].balanced);
    assert_eq!(f(r.doms[2].imbal), -2.0);
    assert!(!r.doms[2].balanced);
}

#[test]
fn nothing_dispatched_has_no_shares() {
    let zero = BpfStats {
        wake_sync: 0,
        prev_idle: 0,
        greedy_idle: 0,
        pinned: 0,
        direct_dispatch: 0,
        direct_greedy: 0,
        direct_greedy_far: 0,
        dsq_dispatch: 0,
        greedy: 0,
        repatriate: 3,
        kick_greedy: 0,
        load_balance: 0,
        task_get_err: 0,
    };
    let r = report(&zero, d(0.0), 0, d(0.0), &[], &[], &[], &input(), 8, 0);
    assert_eq!(r.total, 0);
    assert!(r.wake_sync.is_nan());
    assert_eq!(f(r.repatriate), f64::INFINITY);
    assert!(r.doms.is_empty());
}
