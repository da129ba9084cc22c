use std::collections::BTreeMap;

use ordered_float::OrderedFloat;
use scx_rusty::double::Double;
use scx_rusty::load_balancer::{LoadBalancer, TaskInfo};
use scx_rusty::load_map::LoadMap;
use scx_rusty::migration::{
    drain_active_pids, find_first_candidate, Migration, TaskSample, MAX_DOM_ACTIVE_PIDS,
};
use scx_rusty::topology::Topology;

fn d(x: f64) -> Double {
    Double::from_bits(x.to_bits())
}

fn f(x: Double) -> f64 {
    f64::from_bits(x.to_bits())
}

fn machine(doms: usize) -> Topology {
    Topology::new(doms, (0..doms).map(Some).collect()).unwrap()
}

fn sample(pid: i32, dom_id: u32, load: f64) -> TaskSample {
    TaskSample { pid, dom_id, weight: 1, dcycle: d(load), dom_mask: u64::MAX, is_kworker: false }
}

fn balance<'a>(top: &'a Topology, skip_kworkers: bool, loads: &[f64]) -> LoadBalancer<'a> {
    let mut lb = LoadBalancer::new(top, skip_kworkers, false);
    lb.dom_loads = loads.iter().map(|x| d(*x)).collect();
    lb.load_avg = d(loads.iter().fold(0.0, |s, l| s + l) / loads.len() as f64);
    lb.calculate_dom_load_balance();
    lb
}

#[test]
fn active_pids_are_drained_once() {
    let pids: Vec<i32> = (0..MAX_DOM_ACTIVE_PIDS as i32).collect();
    let (mut read_idx, mut gen) = (5u64, 7u64);
    assert_eq!(drain_active_pids(&pids, &mut read_idx, 8, &mut gen), vec![5, 6, 7]);
    assert_eq!((read_idx, gen), (8, 8));
    assert_eq!(drain_active_pids(&pids, &mut read_idx, 8, &mut gen), Vec::<i32>::new());
    assert_eq!((read_idx, gen), (8, 9));
}

#[test]
fn active_pids_wrap_around() {
    let pids: Vec<i32> = (0..1024).collect();
    let (mut read_idx, mut gen) = (1022u64, 0u64);
    assert_eq!(drain_active_pids(&pids, &mut read_idx, 1026, &mut gen), vec![1022, 1023, 0, 1]);
    assert_eq!(read_idx, 1026);
}

#[test]
fn overwritten_pids_are_lost() {
    let pids: Vec<i32> = (0..1024).collect();
    let (mut read_idx, mut gen) = (0u64, 0u64);
    let got = drain_active_pids(&pids, &mut read_idx, 3000, &mut gen);
    let want: Vec<i32> = (3000 - 1024..3000).map(|i| i % 1024).collect();
    assert_eq!(got, want);
    assert_eq!(read_idx, 3000);
    let (mut read_idx, mut gen) = (0u64, 0u64);
    assert_eq!(drain_active_pids(&pids, &mut read_idx, 1024, &mut gen), pids);
}

fn task(pid: i32, dom_mask: u64, migrated: bool, is_kworker: bool) -> TaskInfo {
    TaskInfo { pid, dom_mask, migrated, is_kworker }
}

#[test]
fn candidates_have_to_be_able_to_move() {
    let mut tasks = LoadMap::new();
    tasks.insert(d(1.0), task(1, 0b11, true, false));
    tasks.insert(d(2.0), task(2, 0b01, false, false));
    tasks.insert(d(3.0), task(3, 0b10, false, true));
    tasks.insert(d(4.0), task(4, 0b10, false, false));
    tasks.insert(d(5.0), task(5, 0b11, false, false));
    assert_eq!(find_first_candidate(&tasks, 0, 5, false, 0, false), Some(1));
    assert_eq!(find_first_candidate(&tasks, 0, 5, false, 1, false), Some(2));
    assert_eq!(find_first_candidate(&tasks, 0, 5, false, 1, true), Some(3));
    assert_eq!(find_first_candidate(&tasks, 0, 5, true, 1, false), Some(4));
    assert_eq!(find_first_candidate(&tasks, 0, 4, true, 0, false), Some(1));
    assert_eq!(find_first_candidate(&tasks, 0, 3, true, 1, true), None);
    assert_eq!(find_first_candidate(&tasks, 0, 5, false, 2, false), None);
    assert_eq!(find_first_candidate(&tasks, 3, 3, false, 1, false), None);
}

#[test]
fn tasks_are_listed_by_load() {
    let top = machine(2);
    let mut lb = LoadBalancer::new(&top, false, true);
    lb.infeas_threshold = d(50.0);
    let mut s = vec![sample(1, 0, 0.5), sample(2, 1, 0.5), sample(3, 0, 0.25), sample(4, 0, 0.5)];
    s[0].weight = 100;
    s[2].weight = 20;
    s[3].weight = 50;
    s[3].is_kworker = true;
    s[3].dom_mask = 5;
    lb.populate_tasks_by_load(0, &s);
    let tasks = lb.tasks_by_load[0].as_ref().unwrap();
    // Task 1 counts with the threshold, which gives it the same load as task 4.
    assert_eq!(tasks.len(), 3);
    assert_eq!((f(tasks.entry(0).0), tasks.entry(0).1.pid), (5.0, 3));
    assert_eq!((f(tasks.entry(1).0), tasks.entry(1).1.pid), (25.0, 1));
    assert_eq!((f(tasks.entry(2).0), tasks.entry(2).1.pid), (25.0, 4));
    assert!(tasks.entry(2).1.is_kworker);
    assert_eq!(tasks.entry(2).1.dom_mask, 5);
    assert!(!tasks.entry(2).1.migrated);
    assert!(lb.tasks_by_load[1].is_none());
    // A second list is not taken in.
    lb.populate_tasks_by_load(0, &vec![sample(9, 0, 1.0)]);
    assert_eq!(lb.tasks_by_load[0].as_ref().unwrap().len(), 3);
}

#[test]
fn a_task_that_was_active_twice_is_listed_once() {
    let top = machine(1);
    let mut lb = LoadBalancer::new(&top, false, true);
    lb.populate_tasks_by_load(0, &vec![sample(1, 0, 0.5), sample(2, 0, 0.5), sample(1, 0, 0.5)]);
    let tasks = lb.tasks_by_load[0].as_ref().unwrap();
    assert_eq!((tasks.len(), tasks.entry(0).1.pid, tasks.entry(1).1.pid), (2, 1, 2));
}

#[test]
fn the_victim_is_closest_to_half_of_the_imbalance() {
    let top = machine(2);
    let mut lb = LoadBalancer::new(&top, false, false);
    let s: Vec<TaskSample> = (1..=9).map(|i| sample(i, 0, i as f64)).collect();
    lb.populate_tasks_by_load(0, &s);
    // Half of the lesser of 10 and 8.
    let (at, load) = lb.pick_victim((0, d(10.0)), (1, d(8.0))).unwrap();
    assert_eq!((at, f(load)), (3, 4.0));
    let (_, load) = lb.pick_victim((0, d(4.0)), (1, d(8.0))).unwrap();
    assert_eq!(f(load), 2.0);
    // Halfway between two tasks the lower one is taken.
    let (_, load) = lb.pick_victim((0, d(5.0)), (1, d(5.0))).unwrap();
    assert_eq!(f(load), 2.0);
    let (_, load) = lb.pick_victim((0, d(9.0)), (1, d(3.0))).unwrap();
    assert_eq!(f(load), 1.0);
    let (_, load) = lb.pick_victim((0, d(3.5)), (1, d(100.0))).unwrap();
    assert_eq!(f(load), 2.0);
}

#[test]
fn the_closer_of_two_sides_is_picked() {
    let top = machine(2);
    let mut lb = LoadBalancer::new(&top, false, false);
    lb.populate_tasks_by_load(0, &vec![sample(1, 0, 3.0), sample(2, 0, 8.0)]);
    // The target is 5.
    assert_eq!(f(lb.pick_victim((0, d(10.0)), (1, d(10.0))).unwrap().1), 3.0);
    // The target is 6.
    assert_eq!(f(lb.pick_victim((0, d(12.0)), (1, d(12.0))).unwrap().1), 8.0);
}

#[test]
fn a_move_has_to_reduce_the_imbalance() {
    let top = machine(2);
    let mut lb = LoadBalancer::new(&top, false, false);
    lb.populate_tasks_by_load(0, &vec![sample(1, 0, 10.0)]);
    assert!(lb.pick_victim((0, d(4.0)), (1, d(4.0))).is_none());
    // 10 against 10 is no better.
    assert!(lb.pick_victim((0, d(5.0)), (1, d(5.0))).is_none());
    assert!(lb.pick_victim((0, d(10.0)), (1, d(0.0))).is_none());
    assert_eq!(f(lb.pick_victim((0, d(5.5)), (1, d(5.0))).unwrap().1), 10.0);
    // A task without load changes nothing.
    lb.tasks_by_load[0] = None;
    lb.populate_tasks_by_load(0, &vec![sample(1, 0, 0.0)]);
    assert!(lb.pick_victim((0, d(4.0)), (1, d(4.0))).is_none());
    lb.tasks_by_load[0] = Some(LoadMap::new());
    assert!(lb.pick_victim((0, d(4.0)), (1, d(4.0))).is_none());
}

#[test]
fn tasks_move_to_where_most_is_lacking() {
    let top = machine(3);
    let mut lb = balance(&top, false, &[24.0, 3.0, 6.0]);
    let push = lb.next_push().unwrap();
    assert_eq!((push.dom, f(push.to_push), f(push.push_max)), (0, 13.0, 12.0));
    assert!(push.needs_tasks);
    let s: Vec<TaskSample> = (1..=6).map(|i| sample(i, 0, i as f64)).collect();
    lb.populate_tasks_by_load(0, &s);
    let moves = lb.push_out(push);
    // Domain 1 lacks 8 and domain 2 lacks 5. Each move goes to the one that
    // lacks more, and aims at half of what it lacks: 4 of 8, 2 of 5 (2.5), then
    // 1 of 4 (2), and 3 of 3 (1.5 and nothing closer), with 10 of 12 pushed.
    let pids: Vec<(i32, u32)> = moves.iter().map(|m| (m.pid, m.dom)).collect();
    assert_eq!(pids, vec![(4, 1), (2, 2), (1, 1), (3, 2)]);
    assert!(lb.next_push().is_none());
    let tasks = lb.tasks_by_load[0].as_ref().unwrap();
    for i in 0..tasks.len() {
        let t = tasks.entry(i).1;
        assert_eq!(t.migrated, moves.iter().any(|m| m.pid == t.pid));
    }
}

#[test]
fn no_more_is_pushed_than_the_limit() {
    let top = machine(2);
    let mut lb = balance(&top, false, &[20.0, 0.0]);
    let mut push = lb.next_push().unwrap();
    assert_eq!(f(push.push_max), 10.0);
    push.push_max = d(3.0);
    let s: Vec<TaskSample> = (1..=8).map(|i| sample(i, 0, i as f64 / 4.0)).collect();
    lb.populate_tasks_by_load(0, &s);
    let pids: Vec<i32> = lb.push_out(push).iter().map(|m| m.pid).collect();
    // After 2 the next would be 1.75, which is more than what is left of 3.
    assert_eq!(pids, vec![8]);

    // A task of load 12 from a domain of load 20.
    let mut lb = balance(&top, false, &[20.0, -8.0]);
    let push = lb.next_push().unwrap();
    assert_eq!((f(push.to_push), f(push.push_max)), (14.0, 10.0));
    lb.populate_tasks_by_load(0, &vec![sample(1, 0, 12.0)]);
    assert_eq!(lb.push_out(push), vec![]);
    // Exactly the limit may go.
    let mut lb = balance(&top, false, &[20.0, -8.0]);
    let push = lb.next_push().unwrap();
    lb.populate_tasks_by_load(0, &vec![sample(1, 0, 10.0)]);
    assert_eq!(lb.push_out(push), vec![Migration { pid: 1, dom: 1 }]);
}

#[test]
fn domains_that_lack_the_same_both_get_tasks() {
    let top = machine(3);
    let mut lb = balance(&top, false, &[12.0, 0.0, 0.0]);
    let push = lb.next_push().unwrap();
    let s: Vec<TaskSample> = (1..=3).map(|i| sample(i, 0, 2.0)).collect();
    lb.populate_tasks_by_load(0, &s);
    let moves: Vec<(i32, u32)> = lb.push_out(push).iter().map(|m| (m.pid, m.dom)).collect();
    assert_eq!(moves, vec![(3, 2), (2, 1), (1, 2)]);
    assert_eq!(lb.doms_to_pull.len(), 2);
}

#[test]
fn kworkers_can_be_left_alone() {
    for skip in [false, true] {
        let top = machine(2);
        let mut lb = balance(&top, skip, &[10.0, 0.0]);
        let push = lb.next_push().unwrap();
        let mut s = vec![sample(1, 0, 2.5), sample(2, 0, 1.0)];
        s[0].is_kworker = true;
        lb.populate_tasks_by_load(0, &s);
        let moves = lb.push_out(push);
        assert_eq!(moves.contains(&Migration { pid: 1, dom: 1 }), !skip);
        assert!(moves.contains(&Migration { pid: 2, dom: 1 }));
    }
}

#[test]
fn tasks_without_load_stay() {
    let top = machine(2);
    let mut lb = balance(&top, false, &[10.0, 0.0]);
    let push = lb.next_push().unwrap();
    let mut s = vec![sample(1, 0, 0.0), sample(2, 0, 1.0)];
    s[1].dom_mask = 0;
    lb.populate_tasks_by_load(0, &s);
    assert_eq!(lb.push_out(push), vec![]);
}

#[test]
fn a_load_that_is_not_a_number_stays() {
    let top = machine(2);
    let mut lb = balance(&top, false, &[10.0, 0.0]);
    let push = lb.next_push().unwrap();
    lb.populate_tasks_by_load(0, &vec![sample(1, 0, f64::NAN)]);
    assert_eq!(lb.push_out(push), vec![]);
}

/// A task of the tree-map model.
#[derive(Clone)]
struct Task {
    dom_mask: u64,
    migrated: bool,
    is_kworker: bool,
}

type Key = (OrderedFloat<f64>, i32);
type Tasks = BTreeMap<Key, Task>;

fn model_victim(tasks: &Tasks, to_push: f64, to_pull: f64, dom: u32, skip: bool) -> Option<Key> {
    let target = to_pull.min(to_push) * 0.5;
    let after = |load: f64| (to_push - load).abs() + (to_pull - load).abs();
    let fits = |t: &Task| {
        !t.migrated && t.dom_mask & (1 << dom) != 0 && !(skip && t.is_kworker)
    };
    // The lowest distance; from below before from above, and from below the
    // highest pid.
    let mut best: Option<(f64, Key)> = None;
    for (key, _) in tasks.iter().filter(|(_, t)| fits(t)) {
        let distance = (key.0 .0 - target).abs();
        let nearer = match best {
            None => true,
            Some((d, _)) => distance < d || (distance == d && key.0 .0 <= target),
        };
        if nearer {
            best = Some((distance, *key));
        }
    }
    best.map(|(_, key)| key).filter(|key| after(key.0 .0) < to_push + to_pull)
}

/// All moves of a round, worked out on tree maps with the hardware.
fn model_round(
    loads: &[f64],
    avg: f64,
    all_tasks: &[Vec<TaskSample>],
    skip: bool,
) -> Vec<(i32, u32)> {
    let mut push = vec![];
    let mut pull = vec![];
    for (dom, load) in loads.iter().enumerate() {
        let imbal = load - avg;
        if imbal.abs() > avg * 0.05 {
            if imbal > 0.0 {
                push.push((OrderedFloat(imbal), dom as u32));
            } else {
                pull.push((OrderedFloat(-imbal), dom as u32));
            }
        }
    }
    let mut moves = vec![];
    push.sort();
    while let Some((OrderedFloat(mut to_push), push_dom)) = push.pop() {
        let push_max = loads[push_dom as usize] * 0.5;
        let mut tasks: Tasks = BTreeMap::new();
        for s in all_tasks[push_dom as usize].iter().filter(|s| s.dom_id == push_dom) {
            let t = Task {
                dom_mask: s.dom_mask,
                migrated: false,
                is_kworker: s.is_kworker,
            };
            let load = (s.weight as f64).min(10000.0) * f(s.dcycle);
            tasks.insert((OrderedFloat(load), s.pid), t);
        }
        let mut pushed = 0.0;
        loop {
            let last_pushed = pushed;
            pull.sort();
            for (to_pull, dom) in pull.iter_mut().rev() {
                if let Some(key) = model_victim(&tasks, to_push, to_pull.0, *dom, skip) {
                    let load = key.0 .0;
                    if pushed + load > push_max {
                        continue;
                    }
                    tasks.get_mut(&key).unwrap().migrated = true;
                    to_push -= load;
                    to_pull.0 -= load;
                    pushed += load;
                    moves.push((key.1, *dom));
                    break;
                }
            }
            if pushed == last_pushed || pushed >= push_max {
                break;
            }
        }
    }
    moves
}

#[test]
fn rounds_agree_with_tree_maps() {
    let mut x: u64 = 77;
    let mut next = move || {
        x = x.wrapping_mul(6364136223846793005).wrapping_add(1442695040888963407);
        x >> 33
    };
    let mut total = 0;
    for round in 0..400 {
        let n = 2 + (next() % 7) as usize;
        let top = machine(n);
        let loads: Vec<f64> = (0..n).map(|_| (next() % 4000) as f64 / 16.0).collect();
        let mut pid = 0;
        let samples: Vec<Vec<TaskSample>> = (0..n)
            .map(|dom| {
                (0..next() % 40)
                    .map(|_| {
                        pid += 1;
                        TaskSample {
                            pid,
                            dom_id: if next() % 8 == 0 { 63 } else { dom as u32 },
                            weight: 1 + (next() % 100) as u32,
                            dcycle: d((next() % 500) as f64 / 300.0),
                            dom_mask: next() | next() << 20,
                            is_kworker: next() % 5 == 0,
                        }
                    })
                    .collect()
            })
            .collect();
        let skip = round % 2 == 0;
        let mut lb = balance(&top, skip, &loads);
        let avg = f(lb.load_avg);
        let mut moves = vec![];
        while let Some(push) = lb.next_push() {
            if push.needs_tasks {
                lb.populate_tasks_by_load(push.dom, &samples[push.dom as usize]);
            }
            let out = lb.push_out(push);
            let tasks = &samples[push.dom as usize];
            let load = |m: &Migration| {
                let s = tasks.iter().find(|s| s.pid == m.pid).unwrap();
                s.weight as f64 * f(s.dcycle)
            };
            let pushed = out.iter().fold(0.0, |sum, m| sum + load(m));
            assert!(pushed <= loads[push.dom as usize] * 0.5);
            moves.extend(out.iter().map(|m| (m.pid, m.dom)));
        }
        assert_eq!(moves, model_round(&loads, avg, &samples, skip));
        total += moves.len();
        // No task moves twice, and every task may run where it goes.
        let mut pids: Vec<i32> = moves.iter().map(|m| m.0).collect();
        pids.sort();
        pids.dedup();
        assert_eq!(pids.len(), moves.len());
        for (pid, dom) in moves {
            let s = samples.iter().flatten().find(|s| s.pid == pid).unwrap();
            assert!(s.dom_mask & (1 << dom) != 0);
            assert!(!(skip && s.is_kworker));
            assert!(s.dom_id != 63 && loads[s.dom_id as usize] > avg);
            assert!(loads[dom as usize] < avg);
        }
    }
    assert!(total > 400, "{}", total);
}
