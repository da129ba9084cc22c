use scx_rusty::double::Double;
use scx_rusty::load_balancer::LoadBalancer;
use scx_rusty::load_map::LoadMap;
use scx_rusty::topology::Topology;

fn d(x: f64) -> Double {
    Double::from_bits(x.to_bits())
}

fn f(x: Double) -> f64 {
    f64::from_bits(x.to_bits())
}

fn machine(doms: usize) -> Topology {
    Topology::new(doms, (0..doms).map(Some).collect()).unwrap()
}

fn entries(m: &LoadMap<u32>) -> Vec<(f64, u32)> {
    (0..m.len()).map(|i| (f(m.entry(i).0), m.entry(i).1)).collect()
}

fn balance<'a>(top: &'a Topology, loads: &[f64], avg: f64) -> LoadBalancer<'a> {
    let mut lb = LoadBalancer::new(top, false, false);
    lb.dom_loads = loads.iter().map(|x| d(*x)).collect();
    lb.load_avg = d(avg);
    lb.calculate_dom_load_balance();
    lb
}

#[test]
fn domains_above_and_below_the_average() {
    let top = machine(4);
    let lb = balance(&top, &[10.0, 4.0, 7.0, 1.0], 5.5);
    assert_eq!(entries(&lb.doms_to_push), vec![(1.5, 2), (4.5, 0)]);
    assert_eq!(entries(&lb.doms_to_pull), vec![(1.5, 1), (4.5, 3)]);
    let imbal: Vec<f64> = lb.imbal.iter().map(|x| f(*x)).collect();
    assert_eq!(imbal, vec![4.5, -1.5, 1.5, -4.5]);
    assert_eq!(f(lb.load_avg), 5.5);
}

#[test]
fn small_differences_are_left_alone() {
    let top = machine(3);
    let lb = balance(&top, &[104.0, 96.0, 100.0], 100.0);
    assert_eq!(entries(&lb.doms_to_push), vec![]);
    assert_eq!(entries(&lb.doms_to_pull), vec![]);
    assert!(lb.imbal.iter().all(|x| f(*x) == 0.0));
    // Exactly 5 percent is not higher than 5 percent.
    let lb = balance(&top, &[105.0, 95.0, 100.0], 100.0);
    assert_eq!(lb.doms_to_push.len() + lb.doms_to_pull.len(), 0);
    let lb = balance(&top, &[105.5, 94.5, 100.0], 100.0);
    assert_eq!(entries(&lb.doms_to_push), vec![(5.5, 0)]);
    assert_eq!(entries(&lb.doms_to_pull), vec![(5.5, 1)]);
}

#[test]
fn equal_differences_are_kept_apart() {
    let top = machine(4);
    let lb = balance(&top, &[30.0, 30.0, 0.0, 0.0], 15.0);
    assert_eq!(entries(&lb.doms_to_push), vec![(15.0, 0), (15.0, 1)]);
    assert_eq!(entries(&lb.doms_to_pull), vec![(15.0, 2), (15.0, 3)]);
    let imbal: Vec<f64> = lb.imbal.iter().map(|x| f(*x)).collect();
    assert_eq!(imbal, vec![15.0, 15.0, -15.0, -15.0]);
}

#[test]
fn an_idle_machine_is_balanced() {
    let top = machine(3);
    let lb = balance(&top, &[0.0, 0.0, 0.0], 0.0);
    assert_eq!(entries(&lb.doms_to_push), vec![]);
    assert_eq!(entries(&lb.doms_to_pull), vec![]);
    assert!(lb.imbal.iter().all(|x| f(*x) == 0.0));
}

#[test]
fn the_most_loaded_domain_pushes_first() {
    let top = machine(5);
    let mut lb = balance(&top, &[12.0, 30.0, 2.0, 20.0, 1.0], 13.0);
    let push = lb.next_push().unwrap();
    assert_eq!(push.dom, 1);
    assert_eq!(f(push.to_push), 17.0);
    assert_eq!(f(push.push_max), 15.0);
    assert!(push.needs_tasks);
    let push = lb.next_push().unwrap();
    assert_eq!(push.dom, 3);
    assert_eq!(f(push.push_max), 10.0);
    assert!(lb.next_push().is_none());
}

#[test]
fn tasks_are_not_needed_where_nobody_pulls() {
    let top = machine(1);
    let mut lb = balance(&top, &[10.0], 5.0);
    let push = lb.next_push().unwrap();
    assert!(!push.needs_tasks);
    assert_eq!(lb.push_out(push), vec![]);
}

#[test]
fn listed_domains_agree_with_the_hardware() {
    let mut x: u64 = 8;
    let mut next = move || {
        x = x.wrapping_mul(6364136223846793005).wrapping_add(1442695040888963407);
        x >> 33
    };
    for _ in 0..500 {
        let n = 1 + (next() % 64) as usize;
        let top = machine(n);
        let loads: Vec<f64> = (0..n).map(|_| 100.0 + (next() % 200) as f64 / 8.0).collect();
        let avg = loads.iter().fold(0.0, |s, l| s + l) / n as f64;
        let lb = balance(&top, &loads, avg);
        let push = entries(&lb.doms_to_push);
        let pull = entries(&lb.doms_to_pull);
        for (i, load) in loads.iter().enumerate() {
            let imbal = load - avg;
            let worth = imbal.abs() > avg * 0.05;
            assert_eq!(f(lb.imbal[i]), if worth { imbal } else { 0.0 });
            let count = |s: &Vec<(f64, u32)>| s.iter().filter(|e| e.1 == i as u32).count();
            assert_eq!(count(&push), (worth && imbal > 0.0) as usize);
            assert_eq!(count(&pull), (worth && imbal < 0.0) as usize);
        }
        for (key, dom) in push.iter() {
            assert_eq!(*key, loads[*dom as usize] - avg);
            assert!(loads[*dom as usize] > avg);
            assert!(pull.iter().all(|e| e.1 != *dom));
        }
        for (key, dom) in pull.iter() {
            assert_eq!(*key, -(loads[*dom as usize] - avg));
            assert!(loads[*dom as usize] < avg);
        }
        if let Some(top_pusher) = push.last() {
            assert!(loads.iter().all(|l| *l <= loads[top_pusher.1 as usize]));
        }
    }
}
