use scx_rusty::topology::{InTwoDomains, LimitError, Topology, MAX_CPUS, MAX_DOMS};

#[test]
fn cpus_have_domains() {
    let top = Topology::new(2, vec![Some(0), Some(1), None, Some(0)]).unwrap();
    assert_eq!(top.nr_cpus(), 4);
    assert_eq!(top.nr_doms(), 2);
    assert_eq!(top.cpu_domain_id(0), Some(0));
    assert_eq!(top.cpu_domain_id(1), Some(1));
    assert_eq!(top.cpu_domain_id(2), None);
    assert_eq!(top.cpu_domain_id(3), Some(0));
}

#[test]
fn domains_have_to_exist() {
    assert!(Topology::new(2, vec![Some(0), Some(2)]).is_none());
    assert!(Topology::new(0, vec![Some(0)]).is_none());
    assert!(Topology::new(0, vec![None]).is_some());
    assert!(Topology::new(3, vec![]).is_some());
}

#[test]
fn machine_limits() {
    let fits = Topology::new(MAX_DOMS, vec![Some(0); MAX_CPUS]).unwrap();
    assert_eq!(fits.check_limits(), Ok(()));
    let cpus = Topology::new(1, vec![Some(0); MAX_CPUS + 1]).unwrap();
    assert_eq!(cpus.check_limits(), Err(LimitError::TooManyCpus));
    let doms = Topology::new(MAX_DOMS + 1, vec![Some(0)]).unwrap();
    assert_eq!(doms.check_limits(), Err(LimitError::TooManyDoms));
    // The number of CPUs is looked at first.
    let both = Topology::new(MAX_DOMS + 1, vec![Some(0); MAX_CPUS + 1]).unwrap();
    assert_eq!(both.check_limits(), Err(LimitError::TooManyCpus));
}

#[test]
fn domain_of_each_cpu() {
    let top = Topology::new(3, vec![Some(2), Some(0), Some(1), Some(2)]).unwrap();
    assert_eq!(top.cpu_dom_id_map(), vec![2, 0, 1, 2]);
    assert_eq!(Topology::new(1, vec![]).unwrap().cpu_dom_id_map(), Vec::<u32>::new());
    // CPUs that were offline are ignored.
    let top = Topology::new(3, vec![Some(2), None, Some(1), None]).unwrap();
    assert_eq!(top.cpu_dom_id_map(), vec![2, 0, 1, 0]);
}

#[test]
fn domains_from_masks() {
    // 0xff_00ff and 0xff00 on a machine with 24 CPUs.
    let top = Topology::from_masks(24, &[vec![0xff_00ff], vec![0xff00]]).unwrap();
    assert_eq!((top.nr_cpus(), top.nr_doms()), (24, 2));
    assert_eq!(top.cpu_domain_id(0), Some(0));
    assert_eq!(top.cpu_domain_id(7), Some(0));
    assert_eq!(top.cpu_domain_id(8), Some(1));
    assert_eq!(top.cpu_domain_id(16), Some(0));
    assert_eq!(top.first_without_domain(), None);
    // The second word.
    let top = Topology::from_masks(66, &[vec![u64::MAX, 1], vec![0, 2]]).unwrap();
    assert_eq!(top.cpu_domain_id(64), Some(0));
    assert_eq!(top.cpu_domain_id(65), Some(1));
    // Bits behind the last CPU do not count.
    let top = Topology::from_masks(2, &[vec![0b101], vec![0b110]]).unwrap();
    assert_eq!(top.cpu_dom_id_map(), vec![0, 1]);
}

#[test]
fn each_cpu_belongs_to_one_domain() {
    let err = Topology::from_masks(8, &[vec![0b1110], vec![0b1100_0001], vec![0b0100_0100]]);
    assert_eq!(err.unwrap_err(), InTwoDomains { cpu: 2 });
    let top = Topology::from_masks(8, &[vec![0b0000_1111], vec![0b1101_0000]]).unwrap();
    assert_eq!(top.first_without_domain(), Some(5));
    assert_eq!(top.cpu_domain_id(5), None);
    let top = Topology::from_masks(3, &[]).unwrap();
    assert_eq!((top.nr_doms(), top.first_without_domain()), (0, Some(0)));
    assert_eq!(Topology::from_masks(0, &[]).unwrap().first_without_domain(), None);
}

#[test]
fn domains_from_caches() {
    let ids = [Some(7), Some(3), None, Some(7), Some(12), Some(3)];
    let top = Topology::from_cache_ids(&ids);
    assert_eq!((top.nr_cpus(), top.nr_doms()), (6, 3));
    let doms: Vec<Option<usize>> = (0..6).map(|cpu| top.cpu_domain_id(cpu)).collect();
    assert_eq!(doms, vec![Some(1), Some(0), None, Some(1), Some(2), Some(0)]);
    assert_eq!(top.first_without_domain(), Some(2));
    assert_eq!(Topology::from_cache_ids(&[None, None]).nr_doms(), 0);
    assert_eq!(Topology::from_cache_ids(&[]).nr_cpus(), 0);
    let one = Topology::from_cache_ids(&[Some(usize::MAX); 4]);
    assert_eq!(one.cpu_dom_id_map(), vec![0; 4]);
}
