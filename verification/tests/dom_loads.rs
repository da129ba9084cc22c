use scx_rusty::double::Double;
use scx_rusty::load_balancer::LoadBalancer;
use scx_rusty::topology::Topology;

const NR_BUCKETS: usize = 100;

fn d(x: f64) -> Double {
    Double::from_bits(x.to_bits())
}

fn f(x: Double) -> f64 {
    f64::from_bits(x.to_bits())
}

fn fs(v: &[Double]) -> Vec<f64> {
    v.iter().map(|x| f(*x)).collect()
}

fn machine(cpus: usize, doms: usize) -> Topology {
    Topology::new(doms, (0..cpus).map(|cpu| Some(cpu % doms)).collect()).unwrap()
}

/// The duty cycles of the buckets of a domain, all but a few of them zero.
fn buckets(used: &[(usize, f64)]) -> Vec<f64> {
    let mut v = vec![0.0; NR_BUCKETS];
    for (bucket, dcycle) in used {
        v[*bucket] = *dcycle;
    }
    v
}

fn readings(v: &[Option<Vec<f64>>]) -> Vec<Option<Vec<Double>>> {
    v.iter()
        .map(|dom| dom.as_ref().map(|b| b.iter().map(|x| d(*x)).collect()))
        .collect()
}

fn near(a: f64, b: f64) -> bool {
    (a - b).abs() <= 0.0001
}

fn weight(bucket: usize) -> f64 {
    (1 + 100 * bucket) as f64 + 49.5
}

/// Threshold, average and loads, worked out with the hardware.
fn expected(
    readings: &[Option<Vec<f64>>],
    cpus: usize,
    apply_weight: bool,
) -> (f64, f64, Vec<f64>) {
    let doms = readings.len();
    let mut by_bucket = vec![0.0; NR_BUCKETS];
    let mut recorded = vec![0.0; NR_BUCKETS * doms];
    let mut dcycles = vec![0.0; doms];
    let mut loads = vec![0.0; doms];
    let (mut all_dcycle, mut all_load, mut max_weight) = (0.0, 0.0, 0.0);
    for (dom, reading) in readings.iter().enumerate() {
        if let Some(reading) = reading {
            let (mut dcycle, mut load) = (0.0, 0.0);
            for (bucket, x) in reading.iter().enumerate() {
                if near(0.0, *x) {
                    continue;
                }
                dcycle += x;
                by_bucket[bucket] += x;
                recorded[dom * NR_BUCKETS + bucket] = *x;
                load += weight(bucket) * x;
                if weight(bucket) > max_weight {
                    max_weight = weight(bucket);
                }
            }
            all_dcycle += dcycle;
            dcycles[dom] = dcycle;
            all_load += load;
            loads[dom] = load;
        }
    }
    if !apply_weight {
        return (10000.0, all_dcycle / doms as f64, dcycles);
    }
    let p = cpus as f64;
    let threshold = all_load / p;
    if max_weight > threshold {
        let (mut infeasible, mut feasible_load, mut lambda) = (0.0, all_load, all_load / p);
        for bucket in (0..NR_BUCKETS).rev() {
            let x = by_bucket[bucket];
            if near(x, 0.0) {
                continue;
            }
            if lambda > weight(bucket) || near(lambda, weight(bucket)) {
                let mut sum = 0.0;
                for dom in 0..doms {
                    let mut load = 0.0;
                    for i in 0..NR_BUCKETS {
                        load += recorded[dom * NR_BUCKETS + i] * weight(i).min(lambda);
                    }
                    loads[dom] = load;
                    sum += load;
                }
                return (lambda, sum / doms as f64, loads);
            }
            infeasible += x;
            feasible_load -= weight(bucket) * x;
            lambda = feasible_load / (p - infeasible);
        }
    }
    (10000.0, all_load / doms as f64, loads)
}

fn run(readings_f: &[Option<Vec<f64>>], cpus: usize, apply_weight: bool) -> (f64, f64, Vec<f64>) {
    let top = machine(cpus, readings_f.len());
    let mut lb = LoadBalancer::new(&top, false, apply_weight);
    lb.read_dom_loads(&readings(readings_f));
    (f(lb.infeas_threshold), f(lb.load_avg), fs(&lb.dom_loads))
}

#[test]
fn a_new_balancer_knows_no_loads() {
    let top = machine(4, 2);
    let lb = LoadBalancer::new(&top, true, false);
    assert!(lb.skip_kworkers);
    assert!(!lb.lb_apply_weight);
    assert_eq!(f(lb.infeas_threshold), 10000.0);
    assert_eq!(f(lb.load_avg), 0.0);
    assert_eq!(fs(&lb.dom_loads), vec![0.0; 2]);
    assert_eq!(fs(&lb.imbal), vec![0.0; 2]);
    assert!(lb.tasks_by_load.iter().all(|t| t.is_none()));
    assert_eq!(lb.doms_to_push.len() + lb.doms_to_pull.len(), 0);
}

#[test]
fn an_idle_machine_goes_by_duty_cycle() {
    let r = [Some(buckets(&[(0, 0.5), (99, 0.25)])), Some(buckets(&[(3, 0.25)]))];
    assert_eq!(run(&r, 4, false), (10000.0, 0.5, vec![0.75, 0.25]));
}

#[test]
fn a_domain_without_reading_has_no_load() {
    let r = [Some(buckets(&[(0, 0.5)])), None];
    let (_, avg, loads) = run(&r, 4, false);
    assert_eq!((avg, loads.clone()), (0.25, vec![0.5, 0.0]));
    assert_eq!(avg * 2.0, loads[0] + loads[1]);
    let r = [None, Some(buckets(&[(0, 8.0)]))];
    assert_eq!(run(&r, 2, true), (10000.0, 202.0, vec![0.0, 404.0]));
}

#[test]
fn tiny_duty_cycles_do_not_count() {
    let r = [Some(buckets(&[(0, 0.0001), (1, 0.00009)])), Some(buckets(&[(0, 0.5)]))];
    assert_eq!(run(&r, 4, false), (10000.0, 0.25, vec![0.0, 0.5]));
}

#[test]
fn loads_of_a_busy_machine_go_by_weight() {
    // 50.5 * 8 = 404 in each domain, 808 over 2 CPUs: the weight 50.5 is feasible.
    let r = [Some(buckets(&[(0, 8.0)])), Some(buckets(&[(0, 8.0)]))];
    assert_eq!(run(&r, 2, true), (10000.0, 404.0, vec![404.0, 404.0]));
}

#[test]
fn a_weight_that_equals_the_load_of_a_cpu_is_feasible() {
    // 50.5 * 2 over 2 CPUs is the weight itself.
    let r = [Some(buckets(&[(0, 1.0)])), Some(buckets(&[(0, 1.0)]))];
    assert_eq!(run(&r, 2, true), (10000.0, 50.5, vec![50.5, 50.5]));
    // 4 * 50.5 + 150.5 * 2 over 3 CPUs is more than 150.5, over 4 CPUs less.
    let r = [Some(buckets(&[(0, 4.0), (1, 2.0)]))];
    assert_eq!(run(&r, 3, true), (10000.0, 503.0, vec![503.0]));
    assert_eq!(run(&r, 4, true), (101.0, 404.0, vec![202.0 + 2.0 * 101.0]));
    // The load of a CPU just above the weight, by less than the tolerance.
    let more = 1.0 + 1.0 / 1048576.0;
    let r = [Some(buckets(&[(0, more)])), Some(buckets(&[(0, more)]))];
    assert_eq!(run(&r, 2, true), (10000.0, 50.5 * more, vec![50.5 * more; 2]));
    // Just below it: the weight exceeds it and is limited to it.
    let less = 1.0 - 1.0 / 1048576.0;
    let r = [Some(buckets(&[(0, less)])), Some(buckets(&[(0, less)]))];
    let (threshold, _, loads) = run(&r, 2, true);
    assert_eq!(threshold, 50.5 * less);
    assert_eq!(loads, vec![less * (50.5 * less); 2]);
}

#[test]
fn infeasible_weights_are_limited() {
    // One task of the highest weight with a CPU to itself; the others share
    // what is left: 50.5 * 6 / (4 - 1) = 101.
    let r = [Some(buckets(&[(0, 2.0), (99, 1.0)])), Some(buckets(&[(0, 4.0)]))];
    assert_eq!(run(&r, 4, true), (101.0, 202.0, vec![101.0 + 101.0, 202.0]));
    assert_eq!(run(&r, 4, true), expected(&r, 4, true));
}

#[test]
fn an_idle_domain_has_no_load() {
    let r = [Some(buckets(&[(0, 6.0), (99, 1.0)])), Some(buckets(&[])), None];
    let (threshold, avg, loads) = run(&r, 4, true);
    assert_eq!((threshold, loads), (101.0, vec![404.0, 0.0, 0.0]));
    assert_eq!(avg, 404.0 / 3.0);
}

#[test]
fn where_no_weight_is_feasible_the_loads_stay() {
    // All of the load is in one bucket, whose weight is above the average.
    let r = [Some(buckets(&[(99, 1.0)])), Some(buckets(&[]))];
    assert_eq!(run(&r, 4, true), (10000.0, 9950.5 / 2.0, vec![9950.5, 0.0]));
}

#[test]
fn adjusting_from_given_sums() {
    let top = machine(4, 1);
    let mut lb = LoadBalancer::new(&top, false, true);
    let dcycles: Vec<Double> = buckets(&[(0, 6.0), (99, 1.0)]).iter().map(|x| d(*x)).collect();
    lb.adjust_infeas_weights(&dcycles, &dcycles, d(50.5 * 6.0 + 9950.5));
    assert_eq!(f(lb.infeas_threshold), 101.0);
    assert_eq!(fs(&lb.dom_loads), vec![303.0 + 101.0]);
    assert_eq!(f(lb.load_avg), 404.0);
    // lambda is the load after the adjustment over the number of CPUs.
    assert_eq!(404.0 / 4.0, 101.0);
}

#[test]
fn threshold_is_applied_to_every_bucket() {
    let top = machine(2, 2);
    let mut lb = LoadBalancer::new(&top, false, true);
    let mut dcycles = buckets(&[(0, 1.0), (1, 1.0), (2, 1.0)]);
    dcycles.extend(buckets(&[(1, 2.0)]));
    let dcycles: Vec<Double> = dcycles.iter().map(|x| d(*x)).collect();
    lb.apply_infeas_threshold(&dcycles, d(160.0));
    assert_eq!(fs(&lb.dom_loads), vec![50.5 + 150.5 + 160.0, 301.0]);
    assert_eq!(f(lb.load_avg), (361.0 + 301.0) / 2.0);
    assert_eq!(f(lb.infeas_threshold), 160.0);
}

#[test]
fn loads_agree_with_the_hardware() {
    let mut x: u64 = 21;
    let mut next = move || {
        x = x.wrapping_mul(6364136223846793005).wrapping_add(1442695040888963407);
        x >> 33
    };
    let (mut limited, mut full) = (0, 0);
    for round in 0..150u64 {
        let doms = 1 + (next() % 5) as usize;
        let cpus = doms + (next() % 20) as usize;
        let busy = 1 + next() % 40;
        let r: Vec<Option<Vec<f64>>> = (0..doms)
            .map(|_| {
                if next() % 9 == 0 {
                    return None;
                }
                let used: Vec<(usize, f64)> = (0..busy)
                    .map(|_| {
                        let bucket = match next() % 3 {
                            0 => 0,
                            1 => next() % 4,
                            _ => next() % 100,
                        };
                        (bucket as usize, (next() % 4096) as f64 / 1000.0)
                    })
                    .collect();
                Some(buckets(&used))
            })
            .collect();
        let got = run(&r, cpus, round % 4 != 0);
        let want = expected(&r, cpus, round % 4 != 0);
        assert_eq!(got.0.to_bits(), want.0.to_bits());
        assert_eq!(got.1.to_bits(), want.1.to_bits());
        assert_eq!(got.2, want.2);
        if got.0 == 10000.0 {
            full += 1;
        } else {
            limited += 1;
        }
    }
    assert!(limited > 10 && full > 10, "{} {}", limited, full);
}
