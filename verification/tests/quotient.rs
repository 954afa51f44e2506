use progress_element::finite::Finite;

fn finite(x: f64) -> Finite {
    Finite::from_bits(x.to_bits()).unwrap()
}

fn next(state: &mut u64) -> u64 {
    *state ^= *state << 13;
    *state ^= *state >> 7;
    *state ^= *state << 17;
    *state
}

fn check(part: f64, whole: f64) {
    assert!(0.0 <= part && part <= whole && 0.0 < whole);
    let q = finite(part).fraction_of(&finite(whole));
    assert_eq!(
        q.to_bits(),
        (part / whole).to_bits(),
        "{:e} / {:e}",
        part,
        whole
    );
}

#[test]
fn exact_quotients() {
    check(1.0, 2.0);
    check(1.0, 4.0);
    check(3.0, 4.0);
    check(5.0, 10.0);
    check(2.0, 2.0);
    check(0.0, 2.0);
    check(1.0, 1.0);
    check(f64::MAX, f64::MAX);
    check(5e-324, 5e-324);
    check(5e-324, 1e-323);
    check(1e-323, 2e-323);
    check(f64::MIN_POSITIVE, 2.0 * f64::MIN_POSITIVE);
    assert_eq!(finite(1.0).fraction_of(&finite(2.0)).to_bits(), 0x3fe0_0000_0000_0000);
    assert_eq!(finite(3.0).fraction_of(&finite(4.0)).to_bits(), 0x3fe8_0000_0000_0000);
}

#[test]
fn inexact_quotients() {
    check(1.0, 3.0);
    check(2.0, 3.0);
    check(1.0, 10.0);
    check(0.1, 0.3);
    check(1.0, 1.0000000000000002);
    check(0.9999999999999999, 1.0);
    check(0.9999999999999999, 1.0000000000000002);
    check(1e-5, 1e5);
    check(1e300, 1.7e308);
    assert_eq!(finite(1.0).fraction_of(&finite(3.0)).to_bits(), 0x3fd5_5555_5555_5555);
    assert_eq!(finite(2.0).fraction_of(&finite(3.0)).to_bits(), 0x3fe5_5555_5555_5555);
    assert_eq!(finite(1.0).fraction_of(&finite(10.0)).to_bits(), 0x3fb9_9999_9999_999a);
}

#[test]
fn zero_numerator_keeps_its_sign() {
    assert_eq!(finite(0.0).fraction_of(&finite(3.0)).to_bits(), 0.0f64.to_bits());
    assert_eq!(finite(-0.0).fraction_of(&finite(3.0)).to_bits(), (-0.0f64).to_bits());
    assert_eq!(finite(-0.0).fraction_of(&finite(5e-324)).to_bits(), (-0.0f64).to_bits());
}

#[test]
fn ties_go_to_the_even_neighbour() {
    let unit = f64::from_bits(1);
    check(unit, 2.0);
    check(f64::from_bits(3), 2.0);
    check(f64::from_bits(5), 2.0);
    check(f64::from_bits(7), 2.0);
    check(f64::from_bits(3), 4.0);
    check(f64::from_bits(5), 4.0);
    check(f64::from_bits(6), 4.0);
    check(f64::from_bits(0x000f_ffff_ffff_ffff), 2.0);
    check(f64::from_bits(0x0010_0000_0000_0001), 2.0);
    check(f64::from_bits(0x0010_0000_0000_0003), 2.0);
    check(f64::from_bits(0x001f_ffff_ffff_ffff), 2.0);
    check(f64::from_bits(0x001f_ffff_ffff_ffff), 4.0);
    assert_eq!(finite(unit).fraction_of(&finite(2.0)).to_bits(), 0);
    assert_eq!(finite(f64::from_bits(3)).fraction_of(&finite(2.0)).to_bits(), 2);
    assert_eq!(finite(f64::from_bits(5)).fraction_of(&finite(2.0)).to_bits(), 2);
    assert_eq!(finite(f64::from_bits(7)).fraction_of(&finite(2.0)).to_bits(), 4);
}

#[test]
fn quotients_that_underflow() {
    check(5e-324, f64::MAX);
    check(5e-324, 1.0);
    check(5e-324, 3.0);
    check(1e-320, 1e10);
    check(f64::MIN_POSITIVE, f64::MAX);
    check(1.0, f64::MAX);
    check(1e-300, 1e20);
    check(3e-308, 5.0);
    check(f64::MIN_POSITIVE, 1.0000000000000002);
    check(f64::MIN_POSITIVE, 3.0);
    check(2.0 * f64::MIN_POSITIVE, 3.0);
    assert_eq!(finite(5e-324).fraction_of(&finite(f64::MAX)).to_bits(), 0);
}

#[test]
fn quotients_of_subnormals() {
    for a in [1u64, 2, 3, 5, 1000, 0x000f_ffff_ffff_ffff, 0x0008_0000_0000_0000] {
        for b in [1u64, 2, 3, 7, 1001, 0x000f_ffff_ffff_ffff, 0x0008_0000_0000_0001] {
            if a <= b {
                check(f64::from_bits(a), f64::from_bits(b));
            }
        }
    }
}

#[test]
fn quotient_agrees_with_the_machine_on_many_numbers() {
    let mut state = 0x1234_5678_9abc_def1u64;
    let mut seen = 0;
    while seen < 200_000 {
        let a = next(&mut state) >> 1;
        let b = next(&mut state) >> 1;
        let (x, y) = (f64::from_bits(a), f64::from_bits(b));
        if !x.is_finite() || !y.is_finite() || (x == 0.0 && y == 0.0) {
            continue;
        }
        seen += 1;
        if x <= y {
            check(x, y);
        } else {
            check(y, x);
        }
    }
}

#[test]
fn quotient_agrees_with_the_machine_on_close_numbers() {
    let mut state = 0x0fed_cba9_8765_4321u64;
    for _ in 0..200_000 {
        let a = next(&mut state) >> 1;
        let spread = next(&mut state) % 0x0080_0000_0000_0000;
        let b = a + spread;
        let (x, y) = (f64::from_bits(a), f64::from_bits(b));
        if !x.is_finite() || !y.is_finite() || y <= 0.0 {
            continue;
        }
        check(x, y);
    }
}

#[test]
fn quotient_agrees_with_the_machine_near_the_subnormal_range() {
    let mut state = 0x7777_1234_4321_7777u64;
    for _ in 0..200_000 {
        let a = next(&mut state) % 0x0040_0000_0000_0000;
        let b = next(&mut state) % 0x0400_0000_0000_0000;
        let (x, y) = (f64::from_bits(a), f64::from_bits(b));
        if y == 0.0 {
            continue;
        }
        if x <= y {
            check(x, y);
        } else {
            check(y, x);
        }
    }
}

#[test]
fn quotient_agrees_with_the_machine_on_results_that_underflow() {
    let mut state = 0x4242_4242_1357_9bdfu64;
    for _ in 0..200_000 {
        let a = next(&mut state) % 0x0200_0000_0000_0000;
        let b = 0x3ff0_0000_0000_0000 + next(&mut state) % 0x0300_0000_0000_0000;
        check(f64::from_bits(a), f64::from_bits(b));
    }
}

#[test]
fn quotient_lies_between_zero_and_one() {
    let mut state = 0x0bad_cafe_dead_beefu64;
    let mut seen = 0;
    while seen < 50_000 {
        let a = next(&mut state) >> 1;
        let b = next(&mut state) >> 1;
        let (x, y) = (f64::from_bits(a), f64::from_bits(b));
        if !x.is_finite() || !y.is_finite() || (x == 0.0 && y == 0.0) {
            continue;
        }
        seen += 1;
        let (lo, hi) = if x <= y { (x, y) } else { (y, x) };
        let q = f64::from_bits(finite(lo).fraction_of(&finite(hi)).to_bits());
        assert!(0.0 <= q && q <= 1.0);
    }
}
