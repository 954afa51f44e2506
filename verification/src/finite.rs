//! Finite IEEE 754 double-precision numbers, held by their bit patterns.
//!
//! Every finite double is an integer multiple of 2^-1074, the smallest
//! positive subnormal. The mathematical model of a number `x` is therefore
//! the integer `x * 2^1074`, called its scaled value: comparisons between
//! numbers are comparisons between scaled values, and `1.0` is `unit()`.
use vstd::arithmetic::mul::*;
use vstd::arithmetic::power2::*;
use vstd::prelude::*;

verus! {

/// Bit pattern of positive zero.
pub const ZERO_BITS: u64 = 0;

/// Bit pattern of `1.0`.
pub const ONE_BITS: u64 = 0x3ff0_0000_0000_0000;

/// Bit pattern of `-1.0`.
pub const MINUS_ONE_BITS: u64 = 0xbff0_0000_0000_0000;

/// The sign bit, 2^63.
pub const SIGN_BIT: u64 = 0x8000_0000_0000_0000;

/// The implicit leading bit of a normal number's significand, 2^52; also
/// the number of values that the fraction field takes.
pub const HIDDEN_BIT: u64 = 0x10_0000_0000_0000;

/// The least pattern, sign aside, that encodes no number: positive infinity.
pub const INFINITY_BITS: u64 = 0x7ff0_0000_0000_0000;

/// Whether the sign bit of the pattern is set.
pub open spec fn sign_bit(bits: u64) -> bool {
    bits >= SIGN_BIT
}

/// The pattern without its sign bit: exponent field and fraction field.
pub open spec fn abs_bits(bits: u64) -> int {
    bits as int % SIGN_BIT as int
}

/// The pattern encodes a number: neither an infinity nor a NaN.
pub open spec fn is_finite_bits(bits: u64) -> bool {
    abs_bits(bits) < INFINITY_BITS
}

/// The scaled value of `1.0`.
pub open spec fn unit() -> int {
    pow2(1074) as int
}

/// The absolute value encoded by exponent field `e` and fraction field `f`,
/// in units of 2^-1074: subnormals count the units directly, normal numbers
/// carry an implicit leading bit.
pub open spec fn magnitude_of(e: int, f: int) -> int {
    if e <= 0 {
        f
    } else {
        (HIDDEN_BIT + f) * pow2((e - 1) as nat)
    }
}

/// The absolute value encoded by a pattern without sign bit, scaled: the
/// exponent field is the pattern's quotient by 2^52, the fraction field the
/// remainder.
pub open spec fn magnitude_at(abs: int) -> int {
    magnitude_of(abs / HIDDEN_BIT as int, abs % HIDDEN_BIT as int)
}

/// The absolute value of the number that a finite pattern encodes, scaled.
pub open spec fn magnitude(bits: u64) -> int {
    magnitude_at(abs_bits(bits))
}

/// The number that a finite pattern encodes, scaled by 2^1074.
pub open spec fn scaled_value(bits: u64) -> int {
    if sign_bit(bits) {
        -magnitude(bits)
    } else {
        magnitude(bits)
    }
}

/// An integer that orders patterns as their numbers are ordered: the
/// pattern without its sign bit, negated where the sign bit is set.
pub open spec fn order_key(bits: u64) -> int {
    if sign_bit(bits) {
        -abs_bits(bits)
    } else {
        abs_bits(bits)
    }
}

/// A larger exponent field, or the same with a larger fraction field, encodes
/// a larger magnitude.
pub proof fn lemma_magnitude_of_increases(e1: int, f1: int, e2: int, f2: int)
    requires
        0 <= e1,
        0 <= f1 < HIDDEN_BIT,
        0 <= f2 < HIDDEN_BIT,
        e1 < e2 || (e1 == e2 && f1 < f2),
    ensures
        0 <= magnitude_of(e1, f1) < magnitude_of(e2, f2),
{
    let h = HIDDEN_BIT as int;
    if e1 > 0 {
        lemma_pow2_pos((e1 - 1) as nat);
        lemma_mul_strictly_positive(h + f1, pow2((e1 - 1) as nat) as int);
    }
    if e1 == e2 {
        if e1 > 0 {
            lemma_mul_strict_inequality(h + f1, h + f2, pow2((e1 - 1) as nat) as int);
        }
    } else {
        let high_power = pow2((e2 - 1) as nat) as int;
        lemma_pow2_pos((e2 - 1) as nat);
        lemma_mul_inequality(h, h + f2, high_power);
        lemma_mul_inequality(1, high_power, h);
        assert(h <= h * high_power) by {
            lemma_mul_is_commutative(h, high_power);
        }
        if e1 > 0 {
            let low_power = pow2((e1 - 1) as nat) as int;
            lemma_pow2_unfold(e1 as nat);
            if e1 < e2 - 1 {
                lemma_pow2_strictly_increases(e1 as nat, (e2 - 1) as nat);
            }
            assert(2 * low_power <= high_power);
            lemma_mul_strict_inequality(h + f1, 2 * h, low_power);
            assert((2 * h) * low_power == h * (2 * low_power)) by {
                lemma_mul_is_associative(h, 2, low_power);
            }
            lemma_mul_inequality(2 * low_power, high_power, h);
            assert(h * (2 * low_power) <= h * high_power) by {
                lemma_mul_is_commutative(h, 2 * low_power);
                lemma_mul_is_commutative(h, high_power);
            }
        }
    }
}

/// Among patterns without sign bit, the larger pattern encodes the larger
/// magnitude; no magnitude is negative.
pub proof fn lemma_magnitude_at_increases(a: int, b: int)
    requires
        0 <= a < b,
    ensures
        0 <= magnitude_at(a) < magnitude_at(b),
{
    let h = HIDDEN_BIT as int;
    lemma_magnitude_of_increases(a / h, a % h, b / h, b % h);
}

/// The magnitude of a pattern is zero for the two zeros and positive for
/// every other pattern.
pub proof fn lemma_magnitude_sign(bits: u64)
    ensures
        magnitude(bits) >= 0,
        magnitude(bits) == 0 <==> abs_bits(bits) == 0,
{
    assert(magnitude_at(0) == 0);
    if abs_bits(bits) > 0 {
        lemma_magnitude_at_increases(0, abs_bits(bits));
    }
}

/// Numbers are ordered as the order keys of their patterns.
pub proof fn lemma_order_key(a: u64, b: u64)
    ensures
        scaled_value(a) < scaled_value(b) <==> order_key(a) < order_key(b),
        scaled_value(a) == scaled_value(b) <==> order_key(a) == order_key(b),
{
    lemma_magnitude_sign(a);
    lemma_magnitude_sign(b);
    let x = abs_bits(a);
    let y = abs_bits(b);
    if x < y {
        lemma_magnitude_at_increases(x, y);
    } else if y < x {
        lemma_magnitude_at_increases(y, x);
    }
}

/// Two numbers of one sign and one scaled value have one pattern.
pub proof fn lemma_pattern_of_value(a: u64, b: u64)
    requires
        is_finite_bits(a),
        is_finite_bits(b),
        sign_bit(a) == sign_bit(b),
        scaled_value(a) == scaled_value(b),
    ensures
        a == b,
{
    let x = abs_bits(a);
    let y = abs_bits(b);
    if x < y {
        lemma_magnitude_at_increases(x, y);
    } else if y < x {
        lemma_magnitude_at_increases(y, x);
    }
}

/// The scaled values of the named patterns.
pub proof fn lemma_named_values()
    ensures
        scaled_value(ZERO_BITS) == 0,
        scaled_value(SIGN_BIT) == 0,
        scaled_value(ONE_BITS) == unit(),
        scaled_value(MINUS_ONE_BITS) == -unit(),
        unit() > 0,
{
    lemma2_to64_rest();
    lemma_pow2_adds(52, 1022);
    lemma_pow2_pos(1074);
    assert(abs_bits(ONE_BITS) / HIDDEN_BIT as int == 1023);
    assert(abs_bits(MINUS_ONE_BITS) / HIDDEN_BIT as int == 1023);
    assert(magnitude_of(1023, 0) == unit());
}

/// A finite double-precision number.
#[derive(Clone, Copy, Debug)]
pub struct Finite {
    bits: u64,
}

impl View for Finite {
    type V = int;

    /// The scaled value of the number.
    open spec fn view(&self) -> int {
        scaled_value(self.bits())
    }
}

impl Finite {
    /// The bit pattern of the number.
    pub closed spec fn bits(self) -> u64 {
        self.bits
    }

    /// The invariant of the type: the pattern is finite.
    #[verifier::type_invariant]
    pub open spec fn wf(self) -> bool {
        is_finite_bits(self.bits())
    }

    /// The number with the given bit pattern, if the pattern is finite.
    pub fn from_bits(bits: u64) -> (r: Option<Finite>)
        ensures
            r is Some <==> is_finite_bits(bits),
            r matches Some(x) ==> x.bits() == bits && x.wf(),
    {
        if bits % SIGN_BIT < INFINITY_BITS {
            Some(Finite { bits })
        } else {
            None
        }
    }

    /// The number with the given finite bit pattern.
    pub(crate) fn from_finite_bits(bits: u64) -> (r: Finite)
        requires
            is_finite_bits(bits),
        ensures
            r.bits() == bits,
            r.wf(),
    {
        Finite { bits }
    }

    /// The bit pattern of the number.
    pub fn to_bits(&self) -> (bits: u64)
        ensures
            bits == self.bits(),
            self.wf(),
    {
        proof {
            use_type_invariant(self);
        }
        self.bits
    }

    /// Positive zero.
    pub fn zero() -> (r: Finite)
        ensures
            r.bits() == ZERO_BITS,
            r@ == 0,
            r.wf(),
    {
        proof {
            lemma_named_values();
        }
        Finite { bits: ZERO_BITS }
    }

    /// The number `1.0`.
    pub fn one() -> (r: Finite)
        ensures
            r.bits() == ONE_BITS,
            r@ == unit(),
            r.wf(),
    {
        proof {
            lemma_named_values();
        }
        Finite { bits: ONE_BITS }
    }

    /// The number `-1.0`.
    pub fn minus_one() -> (r: Finite)
        ensures
            r.bits() == MINUS_ONE_BITS,
            r@ == -unit(),
            r.wf(),
    {
        proof {
            lemma_named_values();
        }
        Finite { bits: MINUS_ONE_BITS }
    }

    /// The order key of the number's pattern.
    fn key(&self) -> (k: i64)
        ensures
            k == order_key(self.bits()),
    {
        let abs: u64 = self.bits % SIGN_BIT;
        if self.bits >= SIGN_BIT {
            -(abs as i64)
        } else {
            abs as i64
        }
    }

    /// Whether this number is less than the other. The two zeros are equal.
    pub fn lt(&self, other: &Finite) -> (r: bool)
        ensures
            r == (self@ < other@),
    {
        proof {
            lemma_order_key(self.bits, other.bits);
        }
        self.key() < other.key()
    }

    /// Whether this number is at most the other. The two zeros are equal.
    pub fn le(&self, other: &Finite) -> (r: bool)
        ensures
            r == (self@ <= other@),
    {
        proof {
            lemma_order_key(self.bits, other.bits);
        }
        self.key() <= other.key()
    }
}

} // verus!
