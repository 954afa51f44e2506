//! Division of a finite number by a larger positive one, correctly rounded.
//!
//! The quotient of two doubles is in general no double. The result of a
//! division is the double nearest to the exact quotient; where two doubles
//! are equally near, it is the one whose pattern is even.
use crate::finite::{
    abs_bits, is_finite_bits, lemma_magnitude_at_increases, lemma_magnitude_sign,
    lemma_named_values, lemma_pattern_of_value, magnitude_at, scaled_value, sign_bit, unit,
    Finite, HIDDEN_BIT, INFINITY_BITS, ONE_BITS, SIGN_BIT, ZERO_BITS,
};
use crate::rounding::{lemma_round_half_even, lemma_round_small, round_half_even, step_error};
use vstd::arithmetic::div_mod::*;
use vstd::arithmetic::mul::*;
use vstd::arithmetic::power2::*;
use vstd::prelude::*;

verus! {

/// The distance between two integers.
pub open spec fn distance(x: int, y: int) -> int {
    if x < y {
        y - x
    } else {
        x - y
    }
}

/// How far the number with scaled value `c` lies from the exact quotient of
/// the numbers with scaled values `n` and `d`. The distance `|c - n / d|` is
/// no integer, but its product with `d`, taken in scaled values, is: so for
/// one `n` and one `d` other than zero, the candidate with the smaller error
/// is the nearer one.
pub open spec fn quotient_error(c: int, n: int, d: int) -> int {
    distance(c * d, n * unit())
}

/// The error of the number that the pattern `c` encodes.
pub open spec fn candidate_error(c: u64, n: int, d: int) -> int {
    quotient_error(scaled_value(c), n, d)
}

/// The pattern `q` is the correctly rounded quotient of the numbers with
/// patterns `n` and `d`: it is finite, carries the sign of the quotient, no
/// finite double is nearer to the exact quotient, and if another is as near,
/// `q` is even. This is what a division in double precision yields as long
/// as the quotient does not leave the finite range.
pub open spec fn is_rounded_quotient(q: u64, n: u64, d: u64) -> bool {
    let nv = scaled_value(n);
    let dv = scaled_value(d);
    &&& is_finite_bits(q)
    &&& sign_bit(q) == (sign_bit(n) != sign_bit(d))
    &&& forall|c: u64|
        is_finite_bits(c) ==> candidate_error(q, nv, dv) <= #[trigger] candidate_error(c, nv, dv)
    &&& forall|c: u64|
        is_finite_bits(c) && scaled_value(c) != scaled_value(q) && #[trigger] candidate_error(
            c,
            nv,
            dv,
        ) == candidate_error(q, nv, dv) ==> abs_bits(q) % 2 == 0
}

/// The pattern with exponent `g` above the subnormal range and `m` in the
/// place of fraction and hidden bit encodes `m * 2^g`. A carry out of the
/// fraction field moves into the exponent field as it should.
proof fn lemma_magnitude_on_grid(g: int, m: int)
    requires
        0 <= g,
        (g == 0 && 0 <= m <= 2 * HIDDEN_BIT) || (HIDDEN_BIT <= m <= 2 * HIDDEN_BIT),
    ensures
        magnitude_at(g * HIDDEN_BIT + m) == m * pow2(g as nat),
{
    let h = HIDDEN_BIT as int;
    let u = g * h + m;
    lemma2_to64();
    let p = pow2(g as nat) as int;
    if m < h {
        assert(u / h == 0 && u % h == m);
        assert(m * p == m);
    } else if m < 2 * h {
        assert(u / h == g + 1 && u % h == m - h);
        assert(h + (m - h) == m);
        assert(magnitude_at(u) == (h + (m - h)) * pow2(((g + 1) - 1) as nat));
    } else {
        assert(u / h == g + 2 && u % h == 0);
        lemma_pow2_unfold((g + 1) as nat);
        assert(magnitude_at(u) == (h + 0) * pow2(((g + 2) - 1) as nat));
        assert(h * (2 * p) == (2 * h) * p) by {
            lemma_mul_is_associative(h, 2, p);
        }
    }
}

/// With numerator `a` and denominator `b` given by normalized significands
/// `sa`, `sb` and exponents `xa`, `xb`, and with the integer quotient `quo`
/// and remainder `rem` of `sa * 2^55` by `sb`: the error of the candidate
/// `m * 2^g` is the step error of `m` steps of `2^d`, up to a positive factor.
proof fn lemma_error_scaling(
    m: int,
    g: nat,
    d: nat,
    a: int,
    b: int,
    sa: int,
    xa: nat,
    sb: int,
    xb: nat,
    quo: int,
    rem: int,
)
    requires
        a * HIDDEN_BIT == sa * pow2(xa),
        b * HIDDEN_BIT == sb * pow2(xb),
        xa <= xb,
        g + (xb - xa) == 1019 + d,
        sa * pow2(55) == quo * sb + rem,
    ensures
        ((m * pow2(g)) * b - a * unit()) * HIDDEN_BIT == (pow2(xa) * pow2(1019)) * step_error(
            m,
            pow2(d) as int,
            quo,
            rem,
            sb,
        ),
{
    let h = HIDDEN_BIT as int;
    let x = pow2(xa) as int;
    let s = pow2((xb - xa) as nat) as int;
    let pg = pow2(g) as int;
    let pd = pow2(d) as int;
    let k = pow2(1019) as int;
    let lift = pow2(55) as int;
    let u = unit();
    assert(pow2(xb) == x * s) by {
        lemma_pow2_adds(xa, (xb - xa) as nat);
    }
    assert(pg * s == k * pd) by {
        lemma_pow2_adds(g, (xb - xa) as nat);
        lemma_pow2_adds(1019, d);
    }
    assert(u == lift * k) by {
        lemma_pow2_adds(55, 1019);
    }
    let bh = b * h;
    let ah = a * h;
    assert(bh == sb * (x * s));
    assert(((m * pg) * b) * h == (m * pg) * bh) by (nonlinear_arith)
        requires
            bh == b * h,
    ;
    assert((m * pg) * bh == (m * sb * x) * (pg * s)) by (nonlinear_arith)
        requires
            bh == sb * (x * s),
    ;
    assert((m * sb * x) * (pg * s) == (x * k) * (sb * (m * pd))) by (nonlinear_arith)
        requires
            pg * s == k * pd,
    ;
    assert((a * u) * h == ah * u) by (nonlinear_arith)
        requires
            ah == a * h,
    ;
    assert(ah * u == (x * k) * (sa * lift)) by (nonlinear_arith)
        requires
            ah == sa * x,
            u == lift * k,
    ;
    let big = quo * sb + rem;
    assert((x * k) * (sb * (m * pd)) - (x * k) * big == (x * k) * (sb * (m * pd - quo) - rem))
        by (nonlinear_arith)
        requires
            big == quo * sb + rem,
    ;
    assert(((m * pg) * b - a * u) * h == ((m * pg) * b) * h - (a * u) * h) by (nonlinear_arith);
}

/// Two quantities with a common positive factor on each side compare as
/// their cofactors do.
proof fn lemma_common_factor(x: int, y: int, ex: int, ey: int, h: int, f: int)
    requires
        0 < h,
        0 < f,
        x * h == f * ex,
        y * h == f * ey,
    ensures
        x <= y <==> ex <= ey,
        x == y <==> ex == ey,
{
    assert(x <= y <==> ex <= ey) by (nonlinear_arith)
        requires
            0 < h,
            0 < f,
            x * h == f * ex,
            y * h == f * ey,
    ;
    assert(y <= x <==> ey <= ex) by (nonlinear_arith)
        requires
            0 < h,
            0 < f,
            x * h == f * ex,
            y * h == f * ey,
    ;
}

/// Where the magnitudes of two neighbouring patterns `u` and `u + 1` enclose
/// the exact quotient, the nearer of the two is nearest among all finite
/// doubles, and only the other neighbour can be as near.
proof fn lemma_nearest_of_neighbours(u: int, r: u64, n: int, d: int)
    requires
        0 <= u,
        u + 1 < INFINITY_BITS,
        r == u || r == u + 1,
        0 <= n,
        0 < d,
        magnitude_at(u) * d <= n * unit() < magnitude_at(u + 1) * d,
        r == u ==> n * unit() - magnitude_at(u) * d <= magnitude_at(u + 1) * d - n * unit(),
        r == u + 1 ==> magnitude_at(u + 1) * d - n * unit() <= n * unit() - magnitude_at(u) * d,
        n * unit() - magnitude_at(u) * d == magnitude_at(u + 1) * d - n * unit() ==> r % 2 == 0,
    ensures
        forall|c: u64|
            is_finite_bits(c) ==> candidate_error(r, n, d) <= #[trigger] candidate_error(c, n, d),
        forall|c: u64|
            is_finite_bits(c) && scaled_value(c) != scaled_value(r) && #[trigger] candidate_error(
                c,
                n,
                d,
            ) == candidate_error(r, n, d) ==> abs_bits(r) % 2 == 0,
{
    let lo = magnitude_at(u);
    let hi = magnitude_at(u + 1);
    let t = n * unit();
    lemma_magnitude_at_increases(u, u + 1);
    assert(abs_bits(r) == r);
    assert(scaled_value(r) == magnitude_at(r as int));
    assert forall|c: u64| is_finite_bits(c) implies (candidate_error(r, n, d)
        <= #[trigger] candidate_error(c, n, d) && (scaled_value(c) != scaled_value(r)
        && candidate_error(c, n, d) == candidate_error(r, n, d) ==> r % 2 == 0)) by {
        let v = scaled_value(c);
        let x = abs_bits(c);
        lemma_magnitude_sign(c);
        if sign_bit(c) || x <= u {
            if !sign_bit(c) && x < u {
                lemma_magnitude_at_increases(x, u);
            }
            assert(v <= lo);
            lemma_mul_inequality(v, lo, d);
            if v < lo {
                lemma_mul_strict_inequality(v, lo, d);
            }
        } else {
            if u + 1 < x {
                lemma_magnitude_at_increases(u + 1, x);
            }
            assert(hi <= v);
            lemma_mul_inequality(hi, v, d);
            if hi < v {
                lemma_mul_strict_inequality(hi, v, d);
            }
        }
    }
}

/// The heart of the division. The numerator `a` and the denominator `b` are
/// given by normalized significands and exponents; `quo` and `rem` are the
/// quotient and remainder of `sa * 2^55` by `sb`; the result keeps the digits
/// of `quo` above the lowest `d` and has exponent `g`. Then the pattern
/// `g * 2^52 + n`, with `n` the rounded digits, is the correctly rounded
/// quotient.
proof fn lemma_rounded_digits(
    nb: u64,
    db: u64,
    sa: int,
    xa: nat,
    sb: int,
    xb: nat,
    quo: int,
    rem: int,
    d: nat,
    g: nat,
    r: u64,
)
    requires
        !sign_bit(nb),
        !sign_bit(db),
        0 < scaled_value(db),
        scaled_value(nb) * HIDDEN_BIT == sa * pow2(xa),
        scaled_value(db) * HIDDEN_BIT == sb * pow2(xb),
        xa <= xb,
        0 < sa,
        0 < sb,
        0 <= quo,
        sa * pow2(55) == quo * sb + rem,
        0 <= rem < sb,
        1 <= d,
        g + (xb - xa) == 1019 + d,
        g <= 1022,
        (g == 0 && quo / (pow2(d) as int) < 2 * HIDDEN_BIT) || (HIDDEN_BIT <= quo / (pow2(
            d,
        ) as int) < 2 * HIDDEN_BIT),
        r == g * HIDDEN_BIT + round_half_even(quo, rem > 0, pow2(d) as int),
    ensures
        is_rounded_quotient(r, nb, db),
{
    let h = HIDDEN_BIT as int;
    let a = scaled_value(nb);
    let b = scaled_value(db);
    let p = pow2(d) as int;
    let pg = pow2(g) as int;
    let below = quo / p;
    let n = round_half_even(quo, rem > 0, p);
    let u = g * h + below;
    lemma_magnitude_sign(nb);
    lemma_pow2_unfold(d);
    lemma_pow2_pos((d - 1) as nat);
    lemma_round_half_even(quo, rem, sb, p);
    let e0 = step_error(below, p, quo, rem, sb);
    let e1 = step_error(below + 1, p, quo, rem, sb);
    lemma_magnitude_on_grid(g as int, below);
    lemma_magnitude_on_grid(g as int, below + 1);
    let lo = magnitude_at(u);
    let hi = magnitude_at(u + 1);
    assert(lo == below * pg);
    assert(hi == (below + 1) * pg);
    lemma_error_scaling(below, g, d, a, b, sa, xa, sb, xb, quo, rem);
    lemma_error_scaling(below + 1, g, d, a, b, sa, xa, sb, xb, quo, rem);
    let f = (pow2(xa) * pow2(1019)) as int;
    assert(0 < f) by {
        lemma_pow2_pos(xa);
        lemma_pow2_pos(1019);
        lemma_mul_strictly_positive(pow2(xa) as int, pow2(1019) as int);
    }
    let t = a * unit();
    let dlo = lo * b - t;
    let dhi = hi * b - t;
    assert(dlo * h == f * e0);
    assert(dhi * h == f * e1);
    assert(0 * h == f * 0) by {
        lemma_mul_basics(f);
    }
    lemma_common_factor(dlo, 0, e0, 0, h, f);
    lemma_common_factor(0, dhi, 0, e1, h, f);
    assert((-dlo) * h == f * (-e0)) by (nonlinear_arith)
        requires
            dlo * h == f * e0,
    ;
    lemma_common_factor(-dlo, dhi, -e0, e1, h, f);
    lemma_common_factor(dhi, -dlo, e1, -e0, h, f);
    assert(u + 1 < INFINITY_BITS);
    assert(r == u || r == u + 1);
    assert(r % 2 == n % 2);
    lemma_nearest_of_neighbours(u, r, a, b);
    assert(is_finite_bits(r));
}

/// Of two normalized numbers, the smaller has no larger exponent.
proof fn lemma_exponents_ordered(sa: int, xa: nat, sb: int, xb: nat)
    requires
        HIDDEN_BIT <= sa < 2 * HIDDEN_BIT,
        HIDDEN_BIT <= sb < 2 * HIDDEN_BIT,
        sa * pow2(xa) <= sb * pow2(xb),
    ensures
        xa <= xb,
{
    if xa > xb {
        let h = HIDDEN_BIT as int;
        let pa = pow2(xa) as int;
        let pb = pow2(xb) as int;
        lemma_pow2_unfold((xb + 1) as nat);
        if xb + 1 < xa {
            lemma_pow2_strictly_increases((xb + 1) as nat, xa);
        }
        lemma_pow2_pos(xb);
        assert(2 * pb <= pa);
        assert(sb * pb < sa * pa) by (nonlinear_arith)
            requires
                h <= sa,
                sb < 2 * h,
                2 * pb <= pa,
                0 < pb,
                0 < h,
        ;
    }
}

/// The quotient of one normalized significand, 55 places up, by another has
/// 55 or 56 digits.
proof fn lemma_quotient_digits(sa: int, sb: int)
    requires
        HIDDEN_BIT <= sa < 2 * HIDDEN_BIT,
        HIDDEN_BIT <= sb < 2 * HIDDEN_BIT,
    ensures
        ({
            let wide = sa * 0x80_0000_0000_0000;
            &&& wide == (wide / sb) * sb + wide % sb
            &&& 0 <= wide % sb < sb
            &&& 0x40_0000_0000_0000 <= wide / sb < 0x100_0000_0000_0000
        }),
{
    let wide = sa * 0x80_0000_0000_0000;
    let q = wide / sb;
    let r = wide % sb;
    lemma_fundamental_div_mod(wide, sb);
    lemma_mod_bound(wide, sb);
    lemma_mul_is_commutative(sb, q);
    assert(0x40_0000_0000_0000 <= q < 0x100_0000_0000_0000) by (nonlinear_arith)
        requires
            wide == q * sb + r,
            0 <= r < sb,
            0x10_0000_0000_0000 <= sb < 0x20_0000_0000_0000,
            0x10_0000_0000_0000 * 0x80_0000_0000_0000 <= wide < 0x20_0000_0000_0000
                * 0x80_0000_0000_0000,
    ;
}

/// Dropping the lowest `keep` digits of a quotient of `53 + keep` digits
/// leaves a normalized significand; dropping more leaves less.
proof fn lemma_kept_digits(quo: int, d: nat, keep: nat)
    requires
        keep == 2 || keep == 3,
        keep == 2 ==> 0x40_0000_0000_0000 <= quo < 0x80_0000_0000_0000,
        keep == 3 ==> 0x80_0000_0000_0000 <= quo < 0x100_0000_0000_0000,
        keep <= d,
    ensures
        quo / (pow2(d) as int) < 2 * HIDDEN_BIT,
        d == keep ==> HIDDEN_BIT <= quo / (pow2(d) as int),
{
    lemma2_to64();
    let p = pow2(d) as int;
    let pk = pow2(keep) as int;
    if keep == 2 {
        assert(pk == 4);
        assert(HIDDEN_BIT <= quo / 4 < 2 * HIDDEN_BIT);
    } else {
        assert(pk == 8);
        assert(HIDDEN_BIT <= quo / 8 < 2 * HIDDEN_BIT);
    }
    if keep < d {
        lemma_pow2_strictly_increases(keep, d);
        lemma_div_is_ordered_by_denominator(quo, pk, p);
    }
}

/// A zero numerator gives a zero quotient of the same sign.
proof fn lemma_zero_quotient(n: u64, d: u64)
    requires
        abs_bits(n) == 0,
        !sign_bit(d),
        0 < scaled_value(d),
    ensures
        is_rounded_quotient(n, n, d),
{
    lemma_magnitude_sign(n);
    assert(scaled_value(n) == 0);
    let dv = scaled_value(d);
    assert(0 * dv == 0);
    assert(0 * unit() == 0);
    assert(candidate_error(n, 0, dv) == 0);
}

/// A correctly rounded quotient of a non-negative number by one that is
/// positive and no smaller lies between zero and one.
pub proof fn lemma_rounded_quotient_in_unit(q: u64, n: u64, d: u64)
    requires
        is_rounded_quotient(q, n, d),
        0 <= scaled_value(n) <= scaled_value(d),
        0 < scaled_value(d),
    ensures
        0 <= scaled_value(q) <= unit(),
{
    let nv = scaled_value(n);
    let dv = scaled_value(d);
    let qv = scaled_value(q);
    let u = unit();
    lemma_named_values();
    assert(is_finite_bits(ZERO_BITS) && is_finite_bits(ONE_BITS));
    assert(candidate_error(q, nv, dv) <= candidate_error(ZERO_BITS, nv, dv));
    assert(candidate_error(q, nv, dv) <= candidate_error(ONE_BITS, nv, dv));
    assert(0 * dv == 0);
    lemma_mul_nonnegative(nv, u);
    lemma_mul_inequality(nv, dv, u);
    lemma_mul_is_commutative(u, dv);
    assert(candidate_error(ZERO_BITS, nv, dv) == nv * u);
    assert(candidate_error(ONE_BITS, nv, dv) == u * dv - nv * u);
    if qv < 0 {
        lemma_mul_strict_inequality(qv, 0, dv);
    }
    if qv > u {
        lemma_mul_strict_inequality(u, qv, dv);
    }
}

/// Where the exact quotient is itself a double, the correctly rounded
/// quotient is that number.
pub proof fn lemma_exact_quotient(q: u64, n: u64, d: u64, c: u64)
    requires
        is_rounded_quotient(q, n, d),
        is_finite_bits(c),
        scaled_value(d) != 0,
        scaled_value(c) * scaled_value(d) == scaled_value(n) * unit(),
    ensures
        scaled_value(q) == scaled_value(c),
{
    let nv = scaled_value(n);
    let dv = scaled_value(d);
    assert(candidate_error(c, nv, dv) == 0);
    assert(candidate_error(q, nv, dv) <= candidate_error(c, nv, dv));
    assert(scaled_value(q) * dv == scaled_value(c) * dv);
    lemma_mul_is_commutative(dv, scaled_value(q));
    lemma_mul_is_commutative(dv, scaled_value(c));
    lemma_mul_equality_converse(dv, scaled_value(q), scaled_value(c));
}

/// Of two doubles of one sign that lie equally far on either side of the
/// exact quotient, with no double nearer than they, the patterns differ by
/// one: one of them is odd.
proof fn lemma_tied_neighbours(lo: u64, hi: u64, n: int, d: int)
    requires
        is_finite_bits(lo),
        is_finite_bits(hi),
        sign_bit(lo) == sign_bit(hi),
        0 < d,
        scaled_value(lo) < scaled_value(hi),
        candidate_error(lo, n, d) == candidate_error(hi, n, d),
        forall|c: u64|
            is_finite_bits(c) ==> candidate_error(lo, n, d) <= #[trigger] candidate_error(c, n, d),
    ensures
        abs_bits(lo) % 2 != abs_bits(hi) % 2,
{
    let x = abs_bits(lo);
    let y = abs_bits(hi);
    let vl = scaled_value(lo);
    let vh = scaled_value(hi);
    lemma_mul_strict_inequality(vl, vh, d);
    // The smaller pattern of the two, and the pattern next to it towards the other.
    let (small, large) = if sign_bit(lo) {
        (y, x)
    } else {
        (x, y)
    };
    if small >= large {
        if small > large {
            lemma_magnitude_at_increases(large, small);
        }
        assert(false);
    }
    if small + 1 < large {
        let between: u64 = if sign_bit(lo) {
            (small + 1 + SIGN_BIT) as u64
        } else {
            (small + 1) as u64
        };
        assert(abs_bits(between) == small + 1);
        assert(is_finite_bits(between));
        lemma_magnitude_at_increases(small, small + 1);
        lemma_magnitude_at_increases(small + 1, large);
        let vb = scaled_value(between);
        assert(vl < vb < vh);
        lemma_mul_strict_inequality(vl, vb, d);
        lemma_mul_strict_inequality(vb, vh, d);
        assert(candidate_error(between, n, d) < candidate_error(lo, n, d));
        assert(false);
    }
}

/// The correctly rounded quotient by a positive number is unique: the
/// conditions of `is_rounded_quotient` single out one pattern.
pub proof fn lemma_rounded_quotient_unique(q1: u64, q2: u64, n: u64, d: u64)
    requires
        is_rounded_quotient(q1, n, d),
        is_rounded_quotient(q2, n, d),
        0 < scaled_value(d),
    ensures
        q1 == q2,
{
    let nv = scaled_value(n);
    let dv = scaled_value(d);
    assert(candidate_error(q1, nv, dv) <= candidate_error(q2, nv, dv));
    assert(candidate_error(q2, nv, dv) <= candidate_error(q1, nv, dv));
    if scaled_value(q1) < scaled_value(q2) {
        lemma_tied_neighbours(q1, q2, nv, dv);
        assert(false);
    } else if scaled_value(q2) < scaled_value(q1) {
        lemma_tied_neighbours(q2, q1, nv, dv);
        assert(false);
    } else {
        lemma_pattern_of_value(q1, q2);
    }
}

/// The significand of a positive number, normalized to 53 bits, and the
/// exponent that goes with it: the magnitude is
/// `significand * 2^(exponent - 52)`.
fn significand(abs: u64) -> (r: (u64, u32))
    requires
        0 < abs < INFINITY_BITS,
    ensures
        HIDDEN_BIT <= r.0 < 2 * HIDDEN_BIT,
        r.1 <= 2097,
        magnitude_at(abs as int) * HIDDEN_BIT == r.0 * pow2(r.1 as nat),
{
    let e: u64 = abs / HIDDEN_BIT;
    let f: u64 = abs % HIDDEN_BIT;
    proof {
        lemma2_to64_rest();
    }
    if e > 0 {
        let xp: u32 = (e + 51) as u32;
        proof {
            let m = (HIDDEN_BIT + f) as int;
            let p = pow2((e - 1) as nat) as int;
            lemma_pow2_adds((e - 1) as nat, 52);
            assert((m * p) * pow2(52) == m * (p * pow2(52))) by {
                lemma_mul_is_associative(m, p, pow2(52) as int);
            }
        }
        (HIDDEN_BIT + f, xp)
    } else {
        let mut sig: u64 = f;
        let mut xp: u32 = 52;
        proof {
            lemma2_to64();
        }
        while sig < HIDDEN_BIT
            invariant
                0 < sig < 2 * HIDDEN_BIT,
                xp <= 52,
                sig * pow2(xp as nat) == f * pow2(52),
                pow2((52 - xp) as nat) <= sig,
            decreases xp,
        {
            proof {
                lemma2_to64_rest();
                if xp == 0 {
                    assert(false);
                }
                lemma_pow2_unfold(xp as nat);
                lemma_pow2_unfold((52 - xp + 1) as nat);
                assert((sig * 2) * pow2((xp - 1) as nat) == sig * (2 * pow2((xp - 1) as nat)))
                    by {
                    lemma_mul_is_associative(sig as int, 2, pow2((xp - 1) as nat) as int);
                }
            }
            sig = sig * 2;
            xp = xp - 1;
        }
        (sig, xp)
    }
}

/// The digits of `quo` above the lowest `d`, rounded to nearest, ties to
/// even; `sticky` tells whether anything non-zero lies below `quo`.
fn round_digits(quo: u64, sticky: bool, d: u32) -> (n: u64)
    requires
        1 <= d,
        quo < 0x100_0000_0000_0000,
    ensures
        n == round_half_even(quo as int, sticky, pow2(d as nat) as int),
        n <= quo / 2 + 1,
{
    if d >= 58 {
        proof {
            lemma2_to64_rest();
            if d > 58 {
                lemma_pow2_strictly_increases(58, d as nat);
            }
            lemma_pow2_unfold(d as nat);
            lemma_round_small(quo as int, sticky, pow2(d as nat) as int);
        }
        0
    } else {
        let p: u64 = 1u64 << d;
        proof {
            lemma2_to64_rest();
            lemma_pow2_strictly_increases(d as nat, 58);
            vstd::bits::lemma_u64_shl_is_mul(1, d as u64);
            lemma_pow2_unfold(d as nat);
            lemma_pow2_pos((d - 1) as nat);
        }
        let below: u64 = quo / p;
        let low: u64 = quo % p;
        let half: u64 = p / 2;
        proof {
            lemma_fundamental_div_mod(quo as int, p as int);
            lemma_mul_inequality(2, p as int, below as int);
            lemma_mul_is_commutative(p as int, below as int);
        }
        if low > half || (low == half && (sticky || below % 2 == 1)) {
            below + 1
        } else {
            below
        }
    }
}

impl Finite {
    /// The quotient of this number by `whole`, correctly rounded, for a
    /// non-negative number and a positive `whole` that is no smaller: the
    /// share of `whole` that the number makes up.
    pub fn fraction_of(&self, whole: &Finite) -> (q: Finite)
        requires
            0 <= self@ <= whole@,
            0 < whole@,
        ensures
            is_rounded_quotient(q.bits(), self.bits(), whole.bits()),
            0 <= q@ <= unit(),
            q.wf(),
    {
        let nb: u64 = self.to_bits();
        let db: u64 = whole.to_bits();
        let a: u64 = nb % SIGN_BIT;
        let b: u64 = db % SIGN_BIT;
        proof {
            lemma_magnitude_sign(nb);
            lemma_magnitude_sign(db);
        }
        if a == 0 {
            proof {
                lemma_zero_quotient(nb, db);
                lemma_rounded_quotient_in_unit(nb, nb, db);
            }
            return *self;
        }
        let (sa, xa) = significand(a);
        let (sb, xb) = significand(b);
        proof {
            lemma_exponents_ordered(sa as int, xa as nat, sb as int, xb as nat);
        }
        let s: u32 = xb - xa;
        let wide: u128 = (sa as u128) * 0x80_0000_0000_0000u128;
        let quo: u64 = (wide / (sb as u128)) as u64;
        let rem: u64 = (wide % (sb as u128)) as u64;
        proof {
            lemma2_to64_rest();
            lemma_quotient_digits(sa as int, sb as int);
        }
        let keep: u32 = if quo < 0x80_0000_0000_0000 {
            2
        } else {
            3
        };
        let (d, g): (u32, u64) = if s <= 1019 + keep {
            (keep, (1019 + keep - s) as u64)
        } else {
            (s - 1019, 0)
        };
        let n: u64 = round_digits(quo, rem > 0, d);
        proof {
            lemma_kept_digits(quo as int, d as nat, keep as nat);
        }
        let r: u64 = g * HIDDEN_BIT + n;
        proof {
            lemma_rounded_digits(
                nb,
                db,
                sa as int,
                xa as nat,
                sb as int,
                xb as nat,
                quo as int,
                rem as int,
                d as nat,
                g as nat,
                r,
            );
            lemma_rounded_quotient_in_unit(r, nb, db);
        }
        Finite::from_finite_bits(r)
    }
}

} // verus!
