//! Rounding of an integer quotient to the nearest multiple of a power of two,
//! ties to the even multiple.
use vstd::arithmetic::div_mod::*;
use vstd::arithmetic::mul::*;
use vstd::arithmetic::power2::*;
use vstd::prelude::*;

verus! {

/// The number of whole steps `p` nearest to `q + r`, where `r` is a fraction
/// in `[0, 1)` of which only `sticky`, whether it is positive, is known; of
/// two equally near, the even one.
pub(crate) open spec fn round_half_even(q: int, sticky: bool, p: int) -> int {
    let below = q / p;
    let low = q % p;
    let half = p / 2;
    if low > half || (low == half && (sticky || below % 2 == 1)) {
        below + 1
    } else {
        below
    }
}

/// How far `m` steps of `p` lie from `q + rem / sb`, multiplied by `sb`;
/// negative where they lie below.
pub(crate) open spec fn step_error(m: int, p: int, q: int, rem: int, sb: int) -> int {
    sb * (m * p - q) - rem
}

/// The steps below and above `q + rem / sb` enclose it, and the rounded
/// number of steps is one of the two, no farther than the other; where both
/// are equally far, it is even.
pub(crate) proof fn lemma_round_half_even(q: int, rem: int, sb: int, p: int)
    requires
        0 <= q,
        0 <= rem < sb,
        2 <= p,
        p % 2 == 0,
    ensures
        ({
            let below = q / p;
            let n = round_half_even(q, rem > 0, p);
            let e0 = step_error(below, p, q, rem, sb);
            let e1 = step_error(below + 1, p, q, rem, sb);
            &&& 0 <= below
            &&& n == below || n == below + 1
            &&& e0 <= 0 < e1
            &&& n == below ==> -e0 <= e1
            &&& n == below + 1 ==> e1 <= -e0
            &&& -e0 == e1 ==> n % 2 == 0
        }),
{
    let below = q / p;
    let low = q % p;
    let half = p / 2;
    lemma_fundamental_div_mod(q, p);
    lemma_mod_bound(q, p);
    lemma_div_pos_is_pos(q, p);
    assert(below * p - q == -low) by {
        lemma_mul_is_commutative(below, p);
    }
    assert((below + 1) * p - q == p - low) by {
        lemma_mul_is_distributive_add_other_way(p, below, 1);
        lemma_mul_is_commutative(below, p);
    }
    let e0 = step_error(below, p, q, rem, sb);
    let e1 = step_error(below + 1, p, q, rem, sb);
    assert(e0 == -(sb * low) - rem) by {
        lemma_mul_unary_negation(sb, low);
    }
    assert(e1 == sb * p - sb * low - rem) by {
        lemma_mul_is_distributive_sub(sb, p, low);
    }
    assert(sb * p == 2 * (sb * half)) by {
        lemma_mul_is_associative(sb, half, 2);
    }
    assert(0 <= sb * low) by {
        lemma_mul_nonnegative(sb, low);
    }
    assert(sb * low + sb <= sb * p) by {
        lemma_mul_is_distributive_add(sb, low, 1);
        lemma_mul_left_inequality(sb, low + 1, p);
    }
    if low > half {
        assert(sb * half + sb <= sb * low) by {
            lemma_mul_is_distributive_add(sb, half, 1);
            lemma_mul_left_inequality(sb, half + 1, low);
        }
    } else if low < half {
        assert(sb * low + sb <= sb * half) by {
            lemma_mul_is_distributive_add(sb, low, 1);
            lemma_mul_left_inequality(sb, low + 1, half);
        }
    }
}

/// A number below half a step rounds to no step at all.
pub(crate) proof fn lemma_round_small(q: int, sticky: bool, p: int)
    requires
        0 <= q,
        2 * q < p,
        p % 2 == 0,
    ensures
        round_half_even(q, sticky, p) == 0,
{
    lemma_small_mod(q as nat, p as nat);
    lemma_basic_div(q, p);
}

} // verus!
