//! Laws of the cap on a ratio.

use crate::double;
use crate::double::Double;
use vstd::prelude::*;

verus! {

/// A power of two.
pub open spec fn two_to(n: nat) -> nat {
    vstd::arithmetic::power2::pow2(n)
}

proof fn lemma_small_numbers(n: nat)
    requires
        n < 0x20_0000_0000_0000,
    ensures
        double::nearest(n) == n,
{
    assert(double::spacing(n) == 1);
}

/// A ratio of two numbers that a double holds exactly is within a cap where it
/// is at most the cap, and beyond it where it is at least the next double; the
/// cap is `significand / 2^down`.
pub proof fn law_ratio_is_held_to_its_cap(a: nat, b: nat, cap: Double, down: nat)
    requires
        a < 0x20_0000_0000_0000,
        0 < b < 0x20_0000_0000_0000,
        cap.finite_positive(),
        cap.exponent() == -(down as int),
    ensures
        a * two_to(down) <= cap.significand() * b ==> double::quotient_at_most(a, b, cap),
        a * two_to(down) >= (cap.significand() + 1) * b ==> !double::quotient_at_most(a, b, cap),
{
    lemma_small_numbers(a);
    lemma_small_numbers(b);
    let s = cap.significand();
    let midpoint = (2 * s + 1) * b;
    vstd::arithmetic::power2::lemma_pow2_unfold(down + 1);
    let p = two_to(down);
    assert(two_to(down + 1) == 2 * p);
    assert(a * two_to(down + 1) == 2 * (a * p)) by (nonlinear_arith)
        requires
            two_to(down + 1) == 2 * p,
    ;
    assert(midpoint == 2 * (s * b) + b) by (nonlinear_arith)
        requires
            midpoint == (2 * s + 1) * b,
    ;
    assert((s + 1) * b == s * b + b) by (nonlinear_arith);
    assert(!cap.unbounded());
    assert(cap.exponent() - 1 == -((down + 1) as int));
    assert(double::scaled_less(midpoint, cap.exponent() - 1, a as int) == (midpoint < a * two_to(
        down + 1,
    )));
    assert(double::scaled_less(a as int, 1 - cap.exponent(), midpoint) == (a * two_to(down + 1)
        < midpoint));
}

/// No ratio is beyond an infinite cap, and every one is beyond a negative cap or
/// one that is no number.
pub proof fn law_caps_without_a_value(a: nat, b: nat, cap: Double)
    ensures
        cap.bits == 0x7ff0_0000_0000_0000 ==> double::quotient_at_most(a, b, cap),
        cap.bits > 0x7ff0_0000_0000_0000 && cap.bits != 0x8000_0000_0000_0000
            ==> !double::quotient_at_most(a, b, cap),
{
}

} // verus!
