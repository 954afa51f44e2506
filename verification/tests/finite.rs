use progress_element::finite::{Finite, MINUS_ONE_BITS, ONE_BITS, ZERO_BITS};

fn finite(x: f64) -> Finite {
    Finite::from_bits(x.to_bits()).unwrap()
}

fn next(state: &mut u64) -> u64 {
    *state ^= *state << 13;
    *state ^= *state >> 7;
    *state ^= *state << 17;
    *state
}

#[test]
fn from_bits_accepts_exactly_the_finite_patterns() {
    for x in [0.0, -0.0, 1.0, -1.0, 5e-324, -5e-324, f64::MAX, f64::MIN, f64::MIN_POSITIVE, 0.1] {
        let f = Finite::from_bits(x.to_bits());
        assert!(f.is_some());
        assert_eq!(f.unwrap().to_bits(), x.to_bits());
    }
    for x in [f64::INFINITY, f64::NEG_INFINITY, f64::NAN, -f64::NAN] {
        assert!(Finite::from_bits(x.to_bits()).is_none());
    }
    assert!(Finite::from_bits(0x7ff0_0000_0000_0001).is_none());
    assert!(Finite::from_bits(0xffff_ffff_ffff_ffff).is_none());
    assert!(Finite::from_bits(0x7fef_ffff_ffff_ffff).is_some());
    assert!(Finite::from_bits(0xffef_ffff_ffff_ffff).is_some());
}

#[test]
fn from_bits_agrees_with_is_finite_on_many_patterns() {
    let mut state = 0x9e37_79b9_7f4a_7c15u64;
    for _ in 0..100_000 {
        let bits = next(&mut state);
        let wide = bits | 0x7fe0_0000_0000_0000;
        for b in [bits, wide] {
            assert_eq!(Finite::from_bits(b).is_some(), f64::from_bits(b).is_finite());
        }
    }
}

#[test]
fn named_numbers_have_their_patterns() {
    assert_eq!(Finite::zero().to_bits(), 0.0f64.to_bits());
    assert_eq!(Finite::one().to_bits(), 1.0f64.to_bits());
    assert_eq!(Finite::minus_one().to_bits(), (-1.0f64).to_bits());
    assert_eq!(ZERO_BITS, 0.0f64.to_bits());
    assert_eq!(ONE_BITS, 1.0f64.to_bits());
    assert_eq!(MINUS_ONE_BITS, (-1.0f64).to_bits());
}

#[test]
fn order_treats_the_two_zeros_as_equal() {
    let pz = finite(0.0);
    let nz = finite(-0.0);
    assert!(!pz.lt(&nz));
    assert!(!nz.lt(&pz));
    assert!(pz.le(&nz));
    assert!(nz.le(&pz));
}

#[test]
fn order_on_chosen_numbers() {
    let xs = [
        f64::MIN,
        -1e300,
        -2.0,
        -1.0,
        -f64::MIN_POSITIVE,
        -5e-324,
        -0.0,
        0.0,
        5e-324,
        1e-320,
        f64::MIN_POSITIVE,
        0.5,
        1.0,
        1.0000000000000002,
        2.0,
        1e300,
        f64::MAX,
    ];
    for &x in &xs {
        for &y in &xs {
            assert_eq!(finite(x).lt(&finite(y)), x < y);
            assert_eq!(finite(x).le(&finite(y)), x <= y);
        }
    }
}

#[test]
fn order_agrees_with_the_machine_on_many_numbers() {
    let mut state = 0x2545_f491_4f6c_dd1du64;
    let mut seen = 0;
    while seen < 100_000 {
        let a = next(&mut state);
        let b = next(&mut state);
        let (x, y) = (f64::from_bits(a), f64::from_bits(b));
        if !x.is_finite() || !y.is_finite() {
            continue;
        }
        seen += 1;
        assert_eq!(finite(x).lt(&finite(y)), x < y);
        assert_eq!(finite(x).le(&finite(y)), x <= y);
        assert!(finite(x).le(&finite(x)));
        assert!(!finite(x).lt(&finite(x)));
    }
}
