use scx_rusty::cpumask::{copy_mask, format_cpumask, update_dom_bits};
use scx_rusty::topology::Topology;

#[test]
fn masks_in_hexadecimal() {
    assert_eq!(format_cpumask(&[0xff, 0, 0], 8), " 00000000000000FF");
    assert_eq!(format_cpumask(&[0x0123_4567_89ab_cdef, 0], 63), " 0123456789ABCDEF");
    // A full last word shows the word after it.
    assert_eq!(format_cpumask(&[1, 2, 3], 64), " 0000000000000002 0000000000000001");
    assert_eq!(
        format_cpumask(&[1, u64::MAX, 3], 128),
        " 0000000000000003 FFFFFFFFFFFFFFFF 0000000000000001"
    );
    assert_eq!(format_cpumask(&[1], 500), " 0000000000000001");
    assert_eq!(format_cpumask(&[5], 0), " 0000000000000005");
    assert_eq!(format_cpumask(&[], 8), "");
}

#[test]
fn masks_are_formatted_as_std_does() {
    let mask: Vec<u64> = (0..8u64).map(|i| i.wrapping_mul(0x9e37_79b9_7f4a_7c15)).collect();
    for nr_cpus in 0..512 {
        let want = mask
            .iter()
            .take((nr_cpus + 64) / 64)
            .rev()
            .fold(String::new(), |acc, x| format!("{} {:016X}", acc, x));
        assert_eq!(format_cpumask(&mask, nr_cpus), want);
    }
}

#[test]
fn bits_of_one_domain() {
    let doms: Vec<Option<usize>> = (0..130)
        .map(|cpu| if cpu == 5 { None } else { Some(cpu % 2) })
        .collect();
    let top = Topology::new(2, doms).unwrap();
    let mut mask = [0u64; 8];
    update_dom_bits(&mut mask, &top, 1, true);
    assert_eq!(mask[0], 0xaaaa_aaaa_aaaa_aaaa & !(1 << 5));
    assert_eq!(mask[1], 0xaaaa_aaaa_aaaa_aaaa);
    assert_eq!(mask[2], 0b10);
    assert_eq!(mask[3..], [0; 5]);
    update_dom_bits(&mut mask, &top, 0, true);
    assert_eq!(mask[0], !(1 << 5));
    assert_eq!(mask[2], 0b11);
    update_dom_bits(&mut mask, &top, 1, false);
    assert_eq!(mask[0], 0x5555_5555_5555_5555);
    // CPUs without a domain, and domains without CPUs, change nothing.
    let mut all = [u64::MAX; 8];
    update_dom_bits(&mut all, &top, 7, false);
    assert_eq!(all, [u64::MAX; 8]);
    update_dom_bits(&mut all, &top, 1, false);
    assert_eq!(all[0], 0x5555_5555_5555_5555 | 1 << 5);
    assert_eq!(all[3], u64::MAX);
}

#[test]
fn masks_are_copied_to_the_front() {
    let mut target = [9u64; 4];
    copy_mask(&mut target, &[1, 2]);
    assert_eq!(target, [1, 2, 9, 9]);
    copy_mask(&mut target, &[]);
    assert_eq!(target, [1, 2, 9, 9]);
    copy_mask(&mut target, &[4, 5, 6, 7]);
    assert_eq!(target, [4, 5, 6, 7]);
}
