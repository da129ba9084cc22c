use scx_rusty::approx::{approx_eq, approx_ge};
use scx_rusty::double::Double;

fn d(x: f64) -> Double {
    Double::from_bits(x.to_bits())
}

#[test]
fn equal_within_the_tolerance() {
    assert!(approx_eq(d(1.0), d(1.0)));
    assert!(approx_eq(d(0.0), d(0.0001)));
    assert!(approx_eq(d(0.0001), d(0.0)));
    assert!(!approx_eq(d(0.0), d(0.00010001)));
    assert!(approx_eq(d(0.5), d(0.50009)));
    assert!(!approx_eq(d(0.5), d(0.5002)));
    assert!(approx_eq(d(-0.00005), d(0.00005)));
}

#[test]
fn above_or_equal_within_the_tolerance() {
    assert!(approx_ge(d(2.0), d(1.0)));
    assert!(approx_ge(d(1.0), d(1.0)));
    assert!(approx_ge(d(0.99995), d(1.0)));
    assert!(!approx_ge(d(0.9998), d(1.0)));
}

#[test]
fn not_a_number_is_near_nothing() {
    assert!(!approx_eq(d(f64::NAN), d(f64::NAN)));
    assert!(!approx_ge(d(f64::NAN), d(0.0)));
    assert!(!approx_ge(d(0.0), d(f64::NAN)));
    assert!(approx_ge(d(f64::INFINITY), d(0.0)));
    assert!(!approx_eq(d(f64::INFINITY), d(f64::INFINITY)));
}

#[test]
fn agrees_with_the_hardware_around_the_tolerance() {
    for i in 0..4000 {
        for j in [0.0, 0.3, 1.0, 77.7] {
            let (a, b) = (j + i as f64 * 0.0000001, j);
            assert_eq!(approx_eq(d(a), d(b)), (a - b).abs() <= 0.0001);
            assert_eq!(approx_ge(d(b), d(a)), b > a || (b - a).abs() <= 0.0001);
        }
    }
}
