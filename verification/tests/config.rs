use scx_rusty::config::{rodata, Opts};
use scx_rusty::double::Double;
use scx_rusty::topology::Topology;

fn opts() -> Opts {
    Opts {
        slice_us: 20000,
        load_half_life: Double::from_bits(1.0f64.to_bits()),
        greedy_threshold: 1,
        kthreads_local: false,
        fifo_sched: false,
        no_preemption: false,
        partial: false,
        verbose: 0,
    }
}

#[test]
fn default_settings() {
    let top = Topology::new(2, vec![Some(0), Some(1), Some(1)]).unwrap();
    let ro = rodata(&opts(), &top);
    assert_eq!(ro.nr_doms, 2);
    assert_eq!(ro.nr_cpus, 3);
    assert_eq!(ro.slice_ns, 20_000_000);
    assert_eq!(ro.load_half_life, 1_000_000_000);
    assert!(!ro.kthreads_local);
    assert!(!ro.fifo_sched);
    assert!(!ro.switch_partial);
    assert!(ro.enable_preemption);
    assert_eq!(ro.greedy_threshold, 1);
    assert_eq!(ro.debug, 0);
}

#[test]
fn options_are_handed_on() {
    let top = Topology::new(1, vec![Some(0)]).unwrap();
    let mut o = opts();
    o.kthreads_local = true;
    o.partial = true;
    o.greedy_threshold = 7;
    o.verbose = 3;
    let ro = rodata(&o, &top);
    assert!(ro.kthreads_local);
    assert!(ro.switch_partial);
    assert_eq!(ro.greedy_threshold, 7);
    assert_eq!(ro.debug, 3);
}

#[test]
fn preemption_needs_vtime_scheduling() {
    let top = Topology::new(1, vec![Some(0)]).unwrap();
    for (fifo, no_preemption, want) in
        [(false, false, true), (true, false, false), (false, true, false), (true, true, false)]
    {
        let mut o = opts();
        o.fifo_sched = fifo;
        o.no_preemption = no_preemption;
        let ro = rodata(&o, &top);
        assert_eq!(ro.enable_preemption, want);
        assert_eq!(ro.fifo_sched, fifo);
    }
}

#[test]
fn half_life_in_nanoseconds() {
    let top = Topology::new(1, vec![Some(0)]).unwrap();
    for (secs, want) in [
        (0.1, 100_000_000),
        (1.5, 1_500_000_000),
        (4.294967295, 4_294_967_295),
        (10.0, u32::MAX),
        (-1.0, 0),
        (f64::NAN, 0),
    ] {
        let mut o = opts();
        o.load_half_life = Double::from_bits(secs.to_bits());
        assert_eq!(rodata(&o, &top).load_half_life, want);
        assert_eq!(rodata(&o, &top).load_half_life, (secs * 1000000000.0) as u32);
    }
}
