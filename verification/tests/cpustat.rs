use scx_rusty::cpustat::{calc_util, get_cpu_busy, is_countable, sub_or_zero, CpuStat, MissingStats};

fn stat(v: [u64; 8]) -> CpuStat {
    CpuStat {
        user_usec: Some(v[0]),
        nice_usec: Some(v[1]),
        system_usec: Some(v[2]),
        idle_usec: Some(v[3]),
        iowait_usec: Some(v[4]),
        irq_usec: Some(v[5]),
        softirq_usec: Some(v[6]),
        stolen_usec: Some(v[7]),
    }
}

fn without(mut s: CpuStat, kind: usize) -> CpuStat {
    match kind {
        0 => s.user_usec = None,
        1 => s.nice_usec = None,
        2 => s.system_usec = None,
        3 => s.idle_usec = None,
        4 => s.iowait_usec = None,
        5 => s.irq_usec = None,
        6 => s.softirq_usec = None,
        _ => s.stolen_usec = None,
    }
    s
}

fn util(curr: [u64; 8], prev: [u64; 8]) -> f64 {
    f64::from_bits(calc_util(&stat(curr), &stat(prev)).unwrap().to_bits())
}

const ZERO: [u64; 8] = [0; 8];

#[test]
fn counters_that_go_back_count_as_zero() {
    assert_eq!(sub_or_zero(&10, &3), 7);
    assert_eq!(sub_or_zero(&3, &3), 0);
    assert_eq!(sub_or_zero(&3, &10), 0);
    assert_eq!(sub_or_zero(&u64::MAX, &0), u64::MAX);
}

#[test]
fn utilization_is_the_busy_share() {
    // user, nice, system, idle, iowait, irq, softirq, stolen
    assert_eq!(util([10, 0, 0, 30, 0, 0, 0, 0], ZERO), 0.25);
    assert_eq!(util([1, 2, 3, 10, 10, 4, 5, 5], ZERO), 0.5);
    assert_eq!(util([7, 7, 7, 0, 0, 7, 7, 7], ZERO), 1.0);
    assert_eq!(util([0, 0, 0, 5, 5, 0, 0, 0], ZERO), 0.0);
    assert_eq!(util([110, 0, 0, 230, 0, 0, 0, 0], [100, 0, 0, 200, 0, 0, 0, 0]), 0.25);
    // The idle counter went back.
    assert_eq!(util([110, 0, 0, 100, 30, 0, 0, 0], [100, 0, 0, 200, 0, 0, 0, 0]), 0.25);
    assert_eq!(util([1, 0, 0, 2, 0, 0, 0, 0], ZERO), 1.0 / 3.0);
}

#[test]
fn no_time_counts_as_busy() {
    assert_eq!(util(ZERO, ZERO), 1.0);
    assert_eq!(util([1; 8], [2; 8]), 1.0);
}

#[test]
fn every_kind_of_time_is_needed() {
    let full = stat([1; 8]);
    for kind in 0..8 {
        let part = without(full, kind);
        assert_eq!(calc_util(&part, &full).unwrap_err(), MissingStats);
        assert_eq!(calc_util(&full, &part).unwrap_err(), MissingStats);
        let mut prev = full;
        assert_eq!(get_cpu_busy(&mut prev, part).unwrap_err(), MissingStats);
        assert_eq!(prev.user_usec, Some(1));
    }
}

#[test]
fn utilization_lies_between_zero_and_one() {
    let mut x: u64 = 1;
    for _ in 0..2000 {
        let mut v = [ZERO, ZERO];
        for side in v.iter_mut() {
            for c in side.iter_mut() {
                x = x.wrapping_mul(6364136223846793005).wrapping_add(1442695040888963407);
                *c = x >> 40;
            }
        }
        let u = util(v[0], v[1]);
        assert!((0.0..=1.0).contains(&u));
    }
}

#[test]
fn busy_share_of_the_machine() {
    let mut prev = stat(ZERO);
    let busy = get_cpu_busy(&mut prev, stat([3, 1, 2, 10, 4, 1, 1, 2])).unwrap();
    assert_eq!(f64::from_bits(busy.to_bits()), 10.0 / 24.0);
    assert_eq!(prev.idle_usec, Some(10));
    let busy = get_cpu_busy(&mut prev, stat([4, 1, 2, 13, 4, 1, 1, 2])).unwrap();
    assert_eq!(f64::from_bits(busy.to_bits()), 0.25);
    // No time passed: there is no share to speak of.
    let busy = get_cpu_busy(&mut prev, stat([4, 1, 2, 13, 4, 1, 1, 2])).unwrap();
    assert!(busy.is_nan());
}

#[test]
fn intervals_have_to_fit() {
    let zero = stat(ZERO);
    assert!(is_countable(&stat([u64::MAX, 0, 0, 0, 0, 0, 0, 0]), &zero));
    assert!(!is_countable(&stat([u64::MAX, 0, 0, 1, 0, 0, 0, 0]), &zero));
    assert!(is_countable(&stat([u64::MAX; 8]), &stat([u64::MAX; 8])));
    assert!(is_countable(&without(stat([u64::MAX; 8]), 3), &zero));
    assert_eq!(util([u64::MAX, 0, 0, 0, 0, 0, 0, 0], ZERO), 1.0);
}
