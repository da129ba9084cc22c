use std::collections::BTreeMap;

use scx_rusty::cpustat::{CpuStat, MissingStats};
use scx_rusty::double::Double;
use scx_rusty::topology::Topology;
use scx_rusty::tuner::{TuneInput, Tuner};

fn d(x: f64) -> Double {
    Double::from_bits(x.to_bits())
}

fn f(x: Double) -> f64 {
    f64::from_bits(x.to_bits())
}

/// A reading with the given busy and idle time.
fn stat(busy: u64, idle: u64) -> CpuStat {
    CpuStat {
        user_usec: Some(busy),
        nice_usec: Some(0),
        system_usec: Some(0),
        idle_usec: Some(idle),
        iowait_usec: Some(0),
        irq_usec: Some(0),
        softirq_usec: Some(0),
        stolen_usec: Some(0),
    }
}

fn readings(v: &[(u64, u64)]) -> BTreeMap<u32, CpuStat> {
    v.iter().enumerate().map(|(cpu, (b, i))| (cpu as u32, stat(*b, *i))).collect()
}

fn input() -> TuneInput {
    TuneInput { gen: 4, direct_greedy_cpumask: [0; 8], kick_greedy_cpumask: [0; 8] }
}

#[test]
fn a_new_tuner_has_measured_nothing() {
    let top = Topology::new(3, vec![Some(0), Some(2)]).unwrap();
    let tuner = Tuner::new(top, d(90.0), d(100.0), BTreeMap::new());
    assert_eq!(f(tuner.direct_greedy_under), 0.9);
    assert_eq!(f(tuner.kick_greedy_under), 1.0);
    assert!(!tuner.lb_apply_weight);
    let utils: Vec<f64> = tuner.dom_utils.iter().map(|u| f(*u)).collect();
    assert_eq!(utils, vec![0.0; 3]);
}

#[test]
fn a_step_measures_and_marks() {
    let top = Topology::new(2, vec![Some(0), Some(0), Some(1), Some(1)]).unwrap();
    let mut tuner = Tuner::new(top, d(50.0), d(90.0), readings(&[(0, 0); 4]));
    let mut ti = input();
    let curr = readings(&[(10, 90), (30, 70), (60, 40), (100, 0)]);
    assert_eq!(tuner.step(curr, &mut ti), Ok(()));
    assert_eq!(f(tuner.dom_utils[0]), (0.1 + 0.3) / 2.0);
    assert_eq!(f(tuner.dom_utils[1]), (0.6 + 1.0) / 2.0);
    assert!(!tuner.lb_apply_weight);
    assert_eq!(ti.gen, 5);
    assert_eq!(ti.direct_greedy_cpumask[0], 0b0011);
    assert_eq!(ti.kick_greedy_cpumask[0], 0b1111);
    assert_eq!(tuner.prev_cpu_stats[&1].user_usec, Some(30));

    // In the next step domain 0 is busy and domain 1 is not.
    let curr = readings(&[(20, 90), (40, 70), (60, 50), (100, 10)]);
    assert_eq!(tuner.step(curr, &mut ti), Ok(()));
    assert_eq!(f(tuner.dom_utils[0]), 1.0);
    assert_eq!(f(tuner.dom_utils[1]), 0.0);
    assert_eq!(ti.gen, 6);
    assert_eq!(ti.direct_greedy_cpumask[0], 0b1100);
    assert_eq!(ti.kick_greedy_cpumask[0], 0b1100);
}

#[test]
fn a_busy_machine_goes_by_weight() {
    let top = Topology::new(1, vec![Some(0), Some(0)]).unwrap();
    let mut tuner = Tuner::new(top, d(90.0), d(100.0), readings(&[(0, 0); 2]));
    let mut ti = input();
    assert_eq!(tuner.step(readings(&[(10, 0), (10, 0)]), &mut ti), Ok(()));
    assert!(tuner.lb_apply_weight);
    assert_eq!(tuner.step(readings(&[(20, 0), (10, 10)]), &mut ti), Ok(()));
    assert!(!tuner.lb_apply_weight);
    // 0.9999 on average is within the tolerance of 0.99999.
    assert_eq!(tuner.step(readings(&[(10019, 1), (10009, 11)]), &mut ti), Ok(()));
    assert!(tuner.lb_apply_weight);
}

#[test]
fn cpus_without_domain_or_reading_are_left_out() {
    let top = Topology::new(2, vec![Some(0), None, Some(0), Some(1)]).unwrap();
    let mut tuner = Tuner::new(top, d(90.0), d(100.0), readings(&[(0, 0); 4]));
    let mut ti = input();
    ti.direct_greedy_cpumask[0] = 0b0010;
    let mut curr = readings(&[(1, 3), (5, 0), (9, 0), (9, 0)]);
    curr.remove(&2);
    curr.remove(&3);
    assert_eq!(tuner.step(curr, &mut ti), Ok(()));
    assert_eq!(f(tuner.dom_utils[0]), 0.25);
    assert_eq!(f(tuner.dom_utils[1]), 0.0);
    assert_eq!(ti.direct_greedy_cpumask[0], 0b1111);
    assert_eq!(ti.kick_greedy_cpumask[0], 0b1101);
    assert!(!tuner.prev_cpu_stats.contains_key(&3));
}

#[test]
fn hundred_enables_and_zero_disables() {
    let top = Topology::new(2, vec![Some(0), Some(1)]).unwrap();
    let mut tuner = Tuner::new(top, d(100.0), d(0.0), readings(&[(0, 0); 2]));
    let mut ti = input();
    ti.kick_greedy_cpumask[0] = 0b11;
    assert_eq!(tuner.step(readings(&[(10, 0), (0, 10)]), &mut ti), Ok(()));
    assert_eq!(ti.direct_greedy_cpumask[0], 0b11);
    assert_eq!(ti.kick_greedy_cpumask[0], 0);
}

#[test]
fn a_missing_counter_stops_the_step() {
    let top = Topology::new(1, vec![Some(0), Some(0)]).unwrap();
    let mut tuner = Tuner::new(top, d(90.0), d(100.0), readings(&[(0, 0); 2]));
    let mut ti = input();
    let mut curr = readings(&[(10, 0), (10, 0)]);
    curr.get_mut(&1).unwrap().irq_usec = None;
    assert_eq!(tuner.step(curr, &mut ti), Err(MissingStats));
    assert_eq!(ti.gen, 4);
    assert_eq!(ti.kick_greedy_cpumask[0], 0);
    assert!(!tuner.lb_apply_weight);
    assert_eq!(tuner.prev_cpu_stats[&0].user_usec, Some(0));
}

#[test]
fn counted_time_has_to_fit() {
    let top = Topology::new(1, vec![Some(0), None]).unwrap();
    let tuner = Tuner::new(top, d(90.0), d(100.0), readings(&[(0, 0); 2]));
    assert!(tuner.is_countable(&readings(&[(u64::MAX, 0), (u64::MAX, 1)])));
    assert!(!tuner.is_countable(&readings(&[(u64::MAX, 1), (0, 0)])));
}

#[test]
fn steps_agree_with_the_hardware() {
    let mut x: u64 = 9;
    let mut next = move || {
        x = x.wrapping_mul(6364136223846793005).wrapping_add(1442695040888963407);
        x >> 45
    };
    for _ in 0..200 {
        let doms: Vec<Option<usize>> = (0..40).map(|_| Some((next() % 5) as usize)).collect();
        let top = Topology::new(5, doms.clone()).unwrap();
        let times: Vec<(u64, u64)> = (0..40).map(|_| (next() % 1000, next() % 50)).collect();
        let (direct, kick) = (next() as f64 % 110.0, next() as f64 % 110.0);
        let mut tuner = Tuner::new(top, d(direct), d(kick), readings(&[(0, 0); 40]));
        let mut ti = input();
        assert_eq!(tuner.step(readings(&times), &mut ti), Ok(()));

        let utils: Vec<f64> = times
            .iter()
            .map(|(b, i)| if b + i > 0 { *b as f64 / (b + i) as f64 } else { 1.0 })
            .collect();
        let avg = utils.iter().fold(0.0, |s, u| s + u) / 40.0;
        assert_eq!(tuner.lb_apply_weight, avg > 0.99999 || (avg - 0.99999f64).abs() <= 0.0001);
        let (direct, kick) = (direct / 100.0, kick / 100.0);
        for dom in 0..5 {
            let of_dom: Vec<usize> = (0..40).filter(|cpu| doms[*cpu] == Some(dom)).collect();
            let sum = of_dom.iter().fold(0.0, |s, cpu| s + utils[*cpu]);
            let util = if of_dom.is_empty() { 0.0 } else { sum / of_dom.len() as f64 };
            assert_eq!(f(tuner.dom_utils[dom]), util);
            assert!((0.0..=1.0).contains(&util));
            for cpu in of_dom {
                let bit = |mask: &[u64; 8]| mask[0] >> cpu & 1 == 1;
                assert_eq!(bit(&ti.direct_greedy_cpumask), direct > 0.99999 || util < direct);
                assert_eq!(bit(&ti.kick_greedy_cpumask), kick > 0.99999 || util < kick);
            }
        }
    }
}
