use std::collections::BTreeMap;

use ordered_float::OrderedFloat;
use scx_rusty::double::Double;
use scx_rusty::load_balancer::TaskInfo;
use scx_rusty::load_map::LoadMap;

fn d(x: f64) -> Double {
    Double::from_bits(x.to_bits())
}

fn entries(m: &LoadMap<u32>) -> Vec<(f64, u32)> {
    (0..m.len())
        .map(|i| {
            let (load, v) = *m.entry(i);
            (f64::from_bits(load.to_bits()), v)
        })
        .collect()
}

#[test]
fn entries_are_in_order() {
    let mut m = LoadMap::new();
    assert_eq!(m.len(), 0);
    for (load, v) in [(2.0, 0), (-1.0, 1), (7.5, 2), (0.0, 3)] {
        m.insert(d(load), v);
    }
    assert_eq!(entries(&m), vec![(-1.0, 1), (0.0, 3), (2.0, 0), (7.5, 2)]);
}

#[test]
fn equal_loads_are_kept_apart_by_tag() {
    let mut m = LoadMap::new();
    for (load, v) in [(3.0, 5), (3.0, 2), (1.0, 9), (3.0, 7)] {
        m.insert(d(load), v);
    }
    assert_eq!(entries(&m), vec![(1.0, 9), (3.0, 2), (3.0, 5), (3.0, 7)]);
    m.insert(d(f64::NAN), 1);
    m.insert(d(f64::NAN), 0);
    assert_eq!(m.len(), 6);
    assert_eq!((m.entry(4).1, m.entry(5).1), (0, 1));
}

#[test]
fn an_equal_key_is_kept_once() {
    let mut m = LoadMap::new();
    m.insert(d(-0.0), 1);
    m.insert(d(3.0), 2);
    m.insert(d(0.0), 1);
    assert_eq!(entries(&m), vec![(0.0, 1), (3.0, 2)]);
    // The load that came first stays.
    assert_eq!(m.entry(0).0.to_bits(), (-0.0f64).to_bits());
}

#[test]
fn the_highest_leaves_first() {
    let mut m = LoadMap::new();
    for (load, v) in [(2.0, 0), (9.0, 1), (4.0, 2)] {
        m.insert(d(load), v);
    }
    let (load, v) = m.pop_last().unwrap();
    assert_eq!((load.to_bits(), v), (9.0f64.to_bits(), 1));
    assert_eq!(m.pop_last().unwrap().1, 2);
    assert_eq!(m.pop_last().unwrap().1, 0);
    assert!(m.pop_last().is_none());
}

#[test]
fn values_can_be_replaced() {
    let task = |migrated| TaskInfo { pid: 4, dom_mask: 1, migrated, is_kworker: false };
    let mut m = LoadMap::new();
    m.insert(d(1.0), task(false));
    m.set_value(0, task(true));
    assert!(m.entry(0).1.migrated);
    // A later value with the same key takes the place of the one before.
    m.insert(d(1.0), task(false));
    assert_eq!(m.len(), 1);
    assert!(!m.entry(0).1.migrated);
}

#[test]
fn entries_can_be_taken_out() {
    let mut m = LoadMap::new();
    for (load, v) in [(1.0, 1), (2.0, 2), (3.0, 3)] {
        m.insert(d(load), v);
    }
    let (load, v) = m.remove(1);
    assert_eq!((load.to_bits(), v), (2.0f64.to_bits(), 2));
    assert_eq!(entries(&m), vec![(1.0, 1), (3.0, 3)]);
}

#[test]
fn agrees_with_a_tree_map() {
    let mut x: u64 = 3;
    let mut next = move || {
        x = x.wrapping_mul(6364136223846793005).wrapping_add(1442695040888963407);
        x >> 33
    };
    for _ in 0..300 {
        let mut m = LoadMap::new();
        let mut tree = BTreeMap::new();
        for _ in 0..60 {
            let v = (next() % 8) as u32;
            let load = match next() % 20 {
                0 => f64::NAN,
                1 => f64::INFINITY,
                2 => -0.0,
                3 => 0.0,
                r => (next() % 30) as f64 - r as f64,
            };
            m.insert(d(load), v);
            tree.insert((OrderedFloat(load), v), v);
            if next() % 7 == 0 {
                let (a, b) = (m.pop_last(), tree.pop_last());
                assert_eq!(a.map(|e| (e.0.to_bits(), e.1)), b.map(|e| (e.0 .0.to_bits(), e.1)));
            }
        }
        let got: Vec<(u64, u32)> =
            (0..m.len()).map(|i| (m.entry(i).0.to_bits(), m.entry(i).1)).collect();
        let want: Vec<(u64, u32)> = tree.iter().map(|(k, v)| (k.0.to_bits(), *v)).collect();
        assert_eq!(got, want);
    }
}
