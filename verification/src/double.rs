//! Ratios of counts against a double-precision cap, in exact integer
//! arithmetic.

use vstd::prelude::*;

verus! {

/// A double-precision number (IEEE 754 binary64), by its bit pattern.
#[derive(Debug, Clone, Copy, PartialEq, Eq, Structural)]
pub struct Double {
    pub bits: u64,
}

impl Double {
    /// The eleven bits of the exponent, as they are stored.
    pub open spec fn stored_exponent(self) -> int {
        (self.bits as int / 0x10_0000_0000_0000) % 2048
    }

    /// The fifty-two bits of the fraction, as they are stored.
    pub open spec fn fraction(self) -> int {
        self.bits as int % 0x10_0000_0000_0000
    }

    /// Whether the sign bit is set; negative zero is zero.
    pub open spec fn negative(self) -> bool {
        self.bits > 0x8000_0000_0000_0000
    }

    /// The bits without the sign: they order the numbers by their size.
    pub open spec fn magnitude(self) -> int {
        self.bits as int % 0x8000_0000_0000_0000
    }

    /// Whether this is not a number.
    pub open spec fn undefined(self) -> bool {
        self.stored_exponent() == 2047 && self.fraction() != 0
    }

    /// Whether one number is at most another; nothing is, and is at most, what is
    /// not a number.
    pub open spec fn at_most(self, other: Double) -> bool {
        &&& !self.undefined()
        &&& !other.undefined()
        &&& if self.negative() {
            !other.negative() || other.magnitude() <= self.magnitude()
        } else {
            !other.negative() && self.magnitude() <= other.magnitude()
        }
    }

    /// Whether this is positive infinity.
    pub open spec fn unbounded(self) -> bool {
        !self.negative() && self.stored_exponent() == 2047 && self.fraction() == 0
    }

    /// Whether this is a number that is neither negative nor infinite.
    pub open spec fn finite_positive(self) -> bool {
        !self.negative() && self.stored_exponent() != 2047
    }

    /// A finite number is `significand * 2^exponent`, but for its sign.
    pub open spec fn significand(self) -> int {
        if self.stored_exponent() == 0 {
            self.fraction()
        } else {
            self.fraction() + 0x10_0000_0000_0000
        }
    }

    /// A finite number is `significand * 2^exponent`, but for its sign.
    pub open spec fn exponent(self) -> int {
        if self.stored_exponent() == 0 {
            -1074
        } else {
            self.stored_exponent() - 1075
        }
    }
}

/// The distance between the doubles next to a whole number: the largest power
/// of two that leaves at least fifty-three bits, or one.
pub open spec fn spacing(n: nat) -> nat
    decreases n,
{
    if n < 0x20_0000_0000_0000 {
        1
    } else {
        2 * spacing(n / 2)
    }
}

/// The double nearest to a whole number; of two that are equally near, the one
/// whose significand is even.
pub open spec fn nearest(n: nat) -> nat {
    let unit = spacing(n);
    let below = n / unit;
    let rest = n % unit;
    if 2 * rest < unit || (2 * rest == unit && below % 2 == 0) {
        below * unit
    } else {
        (below + 1) * unit
    }
}

/// Whether `a * 2^up < b`, where `up` may be negative.
pub open spec fn scaled_less(a: int, up: int, b: int) -> bool {
    if up >= 0 {
        a * vstd::arithmetic::power2::pow2(up as nat) < b
    } else {
        a < b * vstd::arithmetic::power2::pow2((-up) as nat)
    }
}

/// Whether the quotient `a / b`, computed in double precision, is at most
/// `cap`.
///
/// The operands are rounded to doubles, and the exact quotient of those is
/// rounded once more. Rounding to nearest takes to `cap` or below what is less
/// than the midpoint between `cap` and the next double, and the midpoint itself
/// where the significand of `cap` is even.
pub open spec fn quotient_at_most(a: nat, b: nat, cap: Double) -> bool {
    let midpoint = (2 * cap.significand() + 1) * nearest(b);
    ||| cap.unbounded()
    ||| cap.finite_positive() && if cap.significand() % 2 == 0 {
        !scaled_less(midpoint, cap.exponent() - 1, nearest(a) as int)
    } else {
        scaled_less(nearest(a) as int, 1 - cap.exponent(), midpoint)
    }
}

/// Rounds a whole number to a double.
fn round_to_double(n: u64) -> (rounded: u128)
    ensures
        rounded == nearest(n as nat),
        rounded <= 0x1_0000_0000_0000_0000,
        n > 0 ==> rounded > 0,
{
    let mut below: u64 = n;
    let mut unit: u64 = 1;
    let mut shifts: u64 = 0;
    proof {
        vstd::arithmetic::power2::lemma2_to64();
    }
    while below >= 0x20_0000_0000_0000
        invariant
            unit == vstd::arithmetic::power2::pow2(shifts as nat),
            shifts <= 11,
            unit >= 1,
            below == n as nat / unit as nat,
            spacing(n as nat) == unit * spacing(below as nat),
            unit <= 2048,
            below > 0 || n == 0,
            below * unit <= n,
        decreases below,
    {
        proof {
            vstd::arithmetic::div_mod::lemma_div_denominator(n as int, unit as int, 2);
            assert(unit < 2048) by (nonlinear_arith)
                requires
                    below * unit <= n,
                    below >= 0x20_0000_0000_0000,
                    n <= 0xffff_ffff_ffff_ffff,
            ;
            vstd::arithmetic::power2::lemma2_to64();
            if shifts < 10 {
                vstd::arithmetic::power2::lemma_pow2_strictly_increases(shifts as nat, 10);
            }
            assert((below / 2) * (unit * 2) <= below * unit) by (nonlinear_arith)
                requires
                    unit >= 1,
            ;
            assert(unit * (2 * spacing(below as nat / 2)) == (2 * unit) * spacing(
                below as nat / 2,
            )) by (nonlinear_arith);
            vstd::arithmetic::power2::lemma_pow2_unfold((shifts + 1) as nat);
        }
        below = below / 2;
        unit = unit * 2;
        shifts = shifts + 1;
    }
    let rest: u64 = n % unit;
    let kept: u128 = if 2 * rest < unit || (2 * rest == unit && below % 2 == 0) {
        below as u128
    } else {
        below as u128 + 1
    };
    proof {
        assert(spacing(below as nat) == 1);
        assert(unit * 1 == unit);
        assert(kept * unit <= 0x1_0000_0000_0000_0000 && kept * unit >= 0) by (nonlinear_arith)
            requires
                kept <= below + 1,
                below * unit <= n,
                below < 0x20_0000_0000_0000,
                unit <= 2048,
                unit >= 1,
                n <= 0xffff_ffff_ffff_ffff,
        ;
        assert(kept > 0 ==> kept * unit > 0) by (nonlinear_arith)
            requires
                unit >= 1,
                kept >= 0,
        ;
    }
    kept * (unit as u128)
}

/// Whether `a * 2^up < b`.
fn shifted_less(a: u128, up: u64, b: u128) -> (less: bool)
    requires
        b <= 0x1_0000_0000_0000_0000_0000_0000_0000_000,
    ensures
        less == (a * vstd::arithmetic::power2::pow2(up as nat) < b),
{
    let mut scaled: u128 = a;
    let mut left: u64 = up;
    proof {
        vstd::arithmetic::power2::lemma2_to64();
    }
    while left > 0
        invariant
            left <= up,
            b <= 0x1_0000_0000_0000_0000_0000_0000_0000_000,
            scaled * vstd::arithmetic::power2::pow2(left as nat)
                == a * vstd::arithmetic::power2::pow2(up as nat),
        decreases left,
    {
        proof {
            vstd::arithmetic::power2::lemma_pow2_unfold(left as nat);
            vstd::arithmetic::power2::lemma_pow2_pos(left as nat);
        }
        if scaled >= b {
            assert(scaled * vstd::arithmetic::power2::pow2(left as nat) >= b) by (nonlinear_arith)
                requires
                    scaled >= b,
                    vstd::arithmetic::power2::pow2(left as nat) >= 1,
            ;
            return false;
        }
        assert((scaled * 2) * vstd::arithmetic::power2::pow2((left - 1) as nat)
            == scaled * (2 * vstd::arithmetic::power2::pow2((left - 1) as nat)))
            by (nonlinear_arith);
        scaled = scaled * 2;
        left = left - 1;
    }
    assert(scaled * 1 == scaled);
    scaled < b
}

/// Whether `a < b * 2^up`.
fn less_shifted(a: u128, b: u128, up: u64) -> (less: bool)
    requires
        a <= 0x1_0000_0000_0000_0000_0000_0000_0000_000,
    ensures
        less == (a < b * vstd::arithmetic::power2::pow2(up as nat)),
{
    let mut scaled: u128 = b;
    let mut left: u64 = up;
    proof {
        vstd::arithmetic::power2::lemma2_to64();
    }
    while left > 0
        invariant
            left <= up,
            a <= 0x1_0000_0000_0000_0000_0000_0000_0000_000,
            scaled * vstd::arithmetic::power2::pow2(left as nat)
                == b * vstd::arithmetic::power2::pow2(up as nat),
        decreases left,
    {
        proof {
            vstd::arithmetic::power2::lemma_pow2_unfold(left as nat);
            vstd::arithmetic::power2::lemma_pow2_pos(left as nat);
        }
        if scaled > a {
            assert(scaled * vstd::arithmetic::power2::pow2(left as nat) > a) by (nonlinear_arith)
                requires
                    scaled > a,
                    vstd::arithmetic::power2::pow2(left as nat) >= 1,
            ;
            return true;
        }
        assert((scaled * 2) * vstd::arithmetic::power2::pow2((left - 1) as nat)
            == scaled * (2 * vstd::arithmetic::power2::pow2((left - 1) as nat)))
            by (nonlinear_arith);
        scaled = scaled * 2;
        left = left - 1;
    }
    assert(scaled * 1 == scaled);
    a < scaled
}

/// Whether the quotient `a / b`, computed in double precision, is at most
/// `cap`.
pub fn ratio_at_most(a: u64, b: u64, cap: Double) -> (within: bool)
    requires
        b > 0,
    ensures
        within == quotient_at_most(a as nat, b as nat, cap),
{
    let stored: u64 = (cap.bits / 0x10_0000_0000_0000) % 2048;
    let fraction: u64 = cap.bits % 0x10_0000_0000_0000;
    if cap.bits > 0x8000_0000_0000_0000 {
        return false;
    }
    if stored == 2047 {
        return fraction == 0;
    }
    let significand: u64 = if stored == 0 {
        fraction
    } else {
        fraction + 0x10_0000_0000_0000
    };
    let over: u128 = round_to_double(a);
    let under: u128 = round_to_double(b);
    let twice: u128 = 2 * (significand as u128) + 1;
    assert(0 <= twice * under <= 0x80_0000_0000_0000 * 0x1_0000_0000_0000_0000) by (nonlinear_arith)
        requires
            0 <= twice <= 0x80_0000_0000_0000,
            0 <= under <= 0x1_0000_0000_0000_0000,
    ;
    let midpoint: u128 = twice * under;
    proof {
        vstd::arithmetic::power2::lemma2_to64();
        assert(midpoint * 1 == midpoint && over * 1 == over);
    }
    // The midpoint stands for `midpoint * 2^(exponent - 1)`.
    if stored > 1075 {
        let up: u64 = stored - 1076;
        if significand % 2 == 0 {
            !shifted_less(midpoint, up, over)
        } else {
            less_shifted(over, midpoint, up)
        }
    } else {
        let up: u64 = if stored == 0 {
            1075
        } else {
            1076 - stored
        };
        if significand % 2 == 0 {
            !less_shifted(midpoint, over, up)
        } else {
            shifted_less(over, up, midpoint)
        }
    }
}

proof fn lemma_nearest_positive(n: nat)
    requires
        n > 0,
    ensures
        nearest(n) > 0,
{
    lemma_spacing(n);
    let unit = spacing(n);
    let below = n / unit;
    assert(below >= 1 && below * unit > 0 && (below + 1) * unit > 0) by (nonlinear_arith)
        requires
            1 <= unit <= n,
            below == n / unit,
    ;
}

proof fn lemma_spacing(n: nat)
    requires
        n > 0,
    ensures
        1 <= spacing(n) <= n,
    decreases n,
{
    if n >= 0x20_0000_0000_0000 {
        lemma_spacing(n / 2);
    }
}

/// A comparison across a power of two, with all powers made whole.
proof fn lemma_scaled(a: int, up: int, b: int)
    requires
        -1500 <= up <= 1500,
    ensures
        scaled_less(a, up, b) <==> a * vstd::arithmetic::power2::pow2((up + 1500) as nat) < b
            * vstd::arithmetic::power2::pow2(1500),
{
    let whole = vstd::arithmetic::power2::pow2(1500);
    let moved = vstd::arithmetic::power2::pow2((up + 1500) as nat);
    vstd::arithmetic::power2::lemma_pow2_pos(1500);
    vstd::arithmetic::power2::lemma_pow2_pos((up + 1500) as nat);
    if up >= 0 {
        let p = vstd::arithmetic::power2::pow2(up as nat);
        vstd::arithmetic::power2::lemma_pow2_adds(up as nat, 1500);
        assert(a * p < b <==> a * (p * whole) < b * whole) by (nonlinear_arith)
            requires
                whole > 0,
        ;
    } else {
        let p = vstd::arithmetic::power2::pow2((-up) as nat);
        vstd::arithmetic::power2::lemma_pow2_adds((-up) as nat, (up + 1500) as nat);
        assert(a < b * p <==> a * moved < b * (p * moved)) by (nonlinear_arith)
            requires
                moved > 0,
        ;
    }
}

/// The quotient stays below a cap exactly where it stays below the midpoint
/// above it, or at it where the significand is even.
proof fn lemma_below_midpoint(a: int, mid: int, exponent: int)
    requires
        -1074 <= exponent <= 971,
    ensures
        scaled_less(a, 1 - exponent, mid) <==> a * vstd::arithmetic::power2::pow2(1500) < mid
            * vstd::arithmetic::power2::pow2((exponent + 1499) as nat),
        !scaled_less(mid, exponent - 1, a) <==> a * vstd::arithmetic::power2::pow2(1500) <= mid
            * vstd::arithmetic::power2::pow2((exponent + 1499) as nat),
{
    let whole = vstd::arithmetic::power2::pow2(1500);
    let up = vstd::arithmetic::power2::pow2((exponent + 1499) as nat);
    let down = vstd::arithmetic::power2::pow2((1501 - exponent) as nat);
    lemma_scaled(a, 1 - exponent, mid);
    lemma_scaled(mid, exponent - 1, a);
    vstd::arithmetic::power2::lemma_pow2_pos(1500);
    vstd::arithmetic::power2::lemma_pow2_pos((exponent + 1499) as nat);
    vstd::arithmetic::power2::lemma_pow2_adds((exponent + 1499) as nat, (1501 - exponent) as nat);
    vstd::arithmetic::power2::lemma_pow2_adds(1500, 1500);
    assert(up * down == whole * whole);
    assert(a * down < mid * whole <==> a * whole < mid * up) by (nonlinear_arith)
        requires
            up * down == whole * whole,
            up > 0,
            whole > 0,
    {
        assert((a * down) * up == (a * whole) * whole);
        assert((mid * whole) * up == (mid * up) * whole);
    }
}

/// A quotient within a cap is within every larger one.
pub proof fn law_larger_cap_allows_more(a: nat, b: nat, cap: Double, larger: Double)
    requires
        b > 0,
        cap.at_most(larger),
        quotient_at_most(a, b, cap),
    ensures
        quotient_at_most(a, b, larger),
{
    if cap.magnitude() != larger.magnitude() && !larger.unbounded() {
        let e1 = cap.exponent();
        let e2 = larger.exponent();
        let k1 = 2 * cap.significand() + 1;
        let k2 = 2 * larger.significand() + 1;
        let under = nearest(b) as int;
        let over = nearest(a) as int;
        let p1 = vstd::arithmetic::power2::pow2((e1 + 1499) as nat) as int;
        let p2 = vstd::arithmetic::power2::pow2((e2 + 1499) as nat) as int;
        let whole = vstd::arithmetic::power2::pow2(1500) as int;
        lemma_nearest_positive(b);
        lemma_below_midpoint(over, k1 * under, e1);
        lemma_below_midpoint(over, k2 * under, e2);
        vstd::arithmetic::power2::lemma_pow2_pos((e1 + 1499) as nat);
        vstd::arithmetic::power2::lemma_pow2_pos((e2 + 1499) as nat);
        assert(over * whole <= (k1 * under) * p1);
        if e1 == e2 {
            assert(k1 < k2);
            assert(k1 * p1 < k2 * p2) by (nonlinear_arith)
                requires
                    k1 < k2,
                    p1 == p2,
                    p1 > 0,
            ;
        } else {
            assert(e1 < e2);
            vstd::arithmetic::power2::lemma_pow2_unfold((e1 + 1500) as nat);
            if e1 + 1 < e2 {
                vstd::arithmetic::power2::lemma_pow2_strictly_increases(
                    (e1 + 1500) as nat,
                    (e2 + 1499) as nat,
                );
            }
            assert(p2 >= 2 * p1);
            assert(k1 * p1 < k2 * p2) by (nonlinear_arith)
                requires
                    0 < k1 < 2 * k2,
                    p2 >= 2 * p1,
                    p1 > 0,
            ;
        }
        assert((k1 * under) * p1 < (k2 * under) * p2) by (nonlinear_arith)
            requires
                k1 * p1 < k2 * p2,
                under > 0,
        ;
    }
}

} // verus!
