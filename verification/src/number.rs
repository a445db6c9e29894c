//! Single-precision numbers, carried by their bit patterns.
//!
//! Skills, window bounds, distances and scores are IEEE 754 single-precision
//! numbers. The engine never adds or divides them: it orders them, bounds them,
//! counts their thousandths and hands them on. All of that can be read off the
//! bit pattern, so that is what a [`Real`] holds.

use vstd::arithmetic::div_mod::{
    lemma_div_by_multiple, lemma_div_denominator, lemma_fundamental_div_mod,
    lemma_fundamental_div_mod_converse,
};
use vstd::arithmetic::power2::{
    lemma2_to64, lemma_pow2_adds, lemma_pow2_pos, lemma_pow2_strictly_increases, lemma_pow2_unfold,
    pow2,
};
use vstd::prelude::*;

verus! {

/// The place of a NaN in the total order: above positive infinity.
pub const NAN_RANK: i64 = 0x8000_0000;

/// A single-precision number.
///
/// `==` compares bit patterns; the order of the numbers is [`Real::order`].
#[derive(Clone, Copy, Debug, PartialEq, Eq, Structural)]
pub struct Real {
    pub bits: u32,
}

/// The bit patterns of the infinities.
pub const INFINITY_BITS: u32 = 0x7f80_0000;

pub const NEG_INFINITY_BITS: u32 = 0xff80_0000;

/// The bit pattern of a NaN.
pub const NAN_BITS: u32 = 0x7fc0_0000;

impl Real {
    /// The pattern without its sign bit.
    pub open spec fn magnitude(self) -> int {
        self.bits as int % 0x8000_0000
    }

    pub open spec fn is_negative(self) -> bool {
        self.bits >= 0x8000_0000
    }

    pub open spec fn is_nan_spec(self) -> bool {
        self.magnitude() > 0x7f80_0000
    }

    pub open spec fn is_finite(self) -> bool {
        self.magnitude() < 0x7f80_0000
    }

    /// The number's place in the total order: the two zeros share a place, and
    /// every NaN stands in one place above positive infinity.
    pub open spec fn order(self) -> int {
        if self.is_nan_spec() {
            NAN_RANK as int
        } else if self.is_negative() {
            -self.magnitude()
        } else {
            self.magnitude()
        }
    }

    /// The exact value of a finite number, in units of 2^-149, which is the
    /// smallest positive single-precision number.
    pub open spec fn units(self) -> int {
        if self.is_negative() {
            -magnitude_units(self.magnitude())
        } else {
            magnitude_units(self.magnitude())
        }
    }

    /// `self >= other` as the IEEE comparison has it: false if either is a NaN.
    pub open spec fn at_least_spec(self, other: Real) -> bool {
        !self.is_nan_spec() && !other.is_nan_spec() && self.order() >= other.order()
    }

    /// `self` brought into `[lo, hi]`; a NaN stays a NaN.
    pub open spec fn clamp_spec(self, lo: Real, hi: Real) -> Real {
        if self.is_nan_spec() {
            self
        } else if self.order() < lo.order() {
            lo
        } else if self.order() > hi.order() {
            hi
        } else {
            self
        }
    }

    /// The larger of `self` and the number `floor`; `floor` in place of a NaN.
    pub open spec fn at_least_floor_spec(self, floor: Real) -> Real {
        if self.is_nan_spec() || self.order() < floor.order() {
            floor
        } else {
            self
        }
    }

    /// A thousand times the number, as single-precision multiplication has it,
    /// with the fraction cut off: zero for a NaN or a negative number, and
    /// `u64::MAX` where that is exceeded.
    pub open spec fn thousandths_spec(self) -> u64 {
        if self.is_nan_spec() || self.is_negative() {
            0
        } else if !self.is_finite() {
            u64::MAX
        } else {
            let whole = rounded((1000 * self.units()) as nat) / pow2(149);
            if whole <= u64::MAX {
                whole as u64
            } else {
                u64::MAX
            }
        }
    }

    pub fn is_nan(self) -> (r: bool)
        ensures
            r == self.is_nan_spec(),
    {
        self.bits % 0x8000_0000 > 0x7f80_0000
    }

    /// The number's place in the total order.
    pub fn rank(self) -> (r: i64)
        ensures
            r == self.order(),
            -0x7f80_0000 <= r <= NAN_RANK,
    {
        let magnitude: u32 = self.bits % 0x8000_0000;
        if magnitude > 0x7f80_0000 {
            NAN_RANK
        } else if self.bits >= 0x8000_0000 {
            -(magnitude as i64)
        } else {
            magnitude as i64
        }
    }

    /// The IEEE comparison `self >= other`.
    pub fn at_least(self, other: Real) -> (r: bool)
        ensures
            r == self.at_least_spec(other),
    {
        !self.is_nan() && !other.is_nan() && self.rank() >= other.rank()
    }

    /// Bring `self` into `[lo, hi]`; a NaN stays a NaN.
    pub fn clamp(self, lo: Real, hi: Real) -> (r: Real)
        requires
            hi.at_least_spec(lo),
        ensures
            r == self.clamp_spec(lo, hi),
    {
        if self.is_nan() {
            self
        } else if self.rank() < lo.rank() {
            lo
        } else if self.rank() > hi.rank() {
            hi
        } else {
            self
        }
    }

    /// A thousand times the number, rounded to single precision, with the
    /// fraction cut off.
    pub fn thousandths(self) -> (r: u64)
        ensures
            r == self.thousandths_spec(),
    {
        let magnitude: u32 = self.bits % 0x8000_0000;
        if magnitude > 0x7f80_0000 || self.bits >= 0x8000_0000 {
            return 0;
        }
        if magnitude == 0x7f80_0000 {
            return u64::MAX;
        }
        let exponent: u32 = magnitude / 0x80_0000;
        let fraction: u64 = (magnitude % 0x80_0000) as u64;
        // The number is `whole * 2^scale` units.
        let (whole, scale): (u64, u32) = if exponent == 0 {
            (fraction, 0)
        } else {
            (0x80_0000 + fraction, exponent - 1)
        };
        let near: u64 = round(1000 * whole);
        proof {
            lemma_pow2_pos(scale as nat);
            assert(pow2(0) == 1) by {
                lemma2_to64();
            }
            assert(self.units() == whole * pow2(scale as nat));
            assert(1000 * (whole * pow2(scale as nat)) == (1000 * whole) * pow2(scale as nat))
                by (nonlinear_arith);
            lemma_rounded_scales((1000 * whole) as nat, scale as nat);
            assert(rounded((1000 * self.units()) as nat) == near * pow2(scale as nat));
        }
        if scale >= 149 {
            proof {
                let up = pow2((scale - 149) as nat);
                lemma_pow2_adds((scale - 149) as nat, 149);
                lemma_pow2_pos(149);
                assert(near * (up * pow2(149)) == (near * up) * pow2(149)) by (nonlinear_arith);
                lemma_div_by_multiple((near * up) as int, pow2(149) as int);
            }
            shifted_up(near, scale - 149)
        } else {
            proof {
                let up = pow2(scale as nat);
                let down = pow2((149 - scale) as nat);
                lemma_pow2_adds(scale as nat, (149 - scale) as nat);
                lemma_pow2_pos((149 - scale) as nat);
                lemma_div_denominator((near * up) as int, up as int, down as int);
                lemma_div_by_multiple(near as int, up as int);
            }
            shifted_down(near, 149 - scale)
        }
    }

    /// The larger of `self` and the number `floor`; `floor` in place of a NaN.
    pub fn at_least_floor(self, floor: Real) -> (r: Real)
        requires
            !floor.is_nan_spec(),
        ensures
            r == self.at_least_floor_spec(floor),
    {
        if self.is_nan() || self.rank() < floor.rank() {
            floor
        } else {
            self
        }
    }
}

/// The exact value of a finite magnitude pattern, in units of 2^-149: the
/// exponent field is `m / 2^23`, the fraction field `m % 2^23`.
pub open spec fn magnitude_units(m: int) -> int {
    if m < 0x80_0000 {
        m
    } else {
        (0x80_0000 + m % 0x80_0000) * pow2((m / 0x80_0000 - 1) as nat)
    }
}

/// How many of the lowest bits of `x` lie below its 24 highest, which are what
/// single precision holds.
pub open spec fn excess_bits(x: nat) -> nat
    decreases x,
{
    if x < 0x100_0000 {
        0
    } else {
        1 + excess_bits(x / 2)
    }
}

/// The multiple of `step` nearest to `x`; of two, the even one.
pub open spec fn nearest_multiple(x: nat, step: nat) -> nat {
    let (q, r) = (x / step, x % step);
    if 2 * r < step || (2 * r == step && q % 2 == 0) {
        q * step
    } else {
        (q + 1) * step
    }
}

/// `x` rounded to 24 significant bits, to the nearest and to even.
pub open spec fn rounded(x: nat) -> nat {
    nearest_multiple(x, pow2(excess_bits(x)))
}

/// Twice a number is rounded to twice what the number is rounded to.
proof fn lemma_rounded_doubles(x: nat)
    ensures
        rounded(2 * x) == 2 * rounded(x),
{
    let step = pow2(excess_bits(x));
    lemma_pow2_pos(excess_bits(x));
    assert(pow2(0) == 1) by {
        lemma2_to64();
    }
    if 2 * x < 0x100_0000 {
        assert(rounded(2 * x) == 2 * x);
        assert(rounded(x) == x);
    } else {
        assert((2 * x) / 2 == x);
        assert(excess_bits(2 * x) == excess_bits(x) + 1);
        lemma_pow2_unfold(excess_bits(x) + 1);
        assert(pow2(excess_bits(2 * x)) == 2 * step);
        let (q, r) = (x / step, x % step);
        lemma_fundamental_div_mod(x as int, step as int);
        assert(2 * x == q * (2 * step) + 2 * r) by (nonlinear_arith)
            requires
                x == step * q + r,
        ;
        lemma_fundamental_div_mod_converse(
            (2 * x) as int,
            (2 * step) as int,
            q as int,
            (2 * r) as int,
        );
        assert(q * (2 * step) == 2 * (q * step)) by (nonlinear_arith);
        assert((q + 1) * (2 * step) == 2 * ((q + 1) * step)) by (nonlinear_arith);
    }
}

/// Rounding does not depend on the scale, whatever power of two that is.
proof fn lemma_rounded_scales(x: nat, scale: nat)
    ensures
        rounded(x * pow2(scale)) == rounded(x) * pow2(scale),
    decreases scale,
{
    if scale == 0 {
        assert(pow2(0) == 1) by {
            lemma2_to64();
        }
    } else {
        let half = pow2((scale - 1) as nat);
        lemma_pow2_unfold(scale);
        lemma_rounded_scales(x, (scale - 1) as nat);
        lemma_rounded_doubles(x * half);
        assert(x * (2 * half) == 2 * (x * half)) by (nonlinear_arith);
        assert(rounded(x) * (2 * half) == 2 * (rounded(x) * half)) by (nonlinear_arith);
    }
}

/// A number is rounded by at most one part in 2^24.
proof fn lemma_rounding_error(x: nat)
    ensures
        0x100_0000 * rounded(x) <= 0x100_0001 * x,
        0xff_ffff * x <= 0x100_0000 * rounded(x),
{
    let step = pow2(excess_bits(x));
    lemma_excess_bits(x);
    lemma_pow2_pos(excess_bits(x));
    let (q, r) = (x / step, x % step);
    lemma_fundamental_div_mod(x as int, step as int);
    assert(q * step == step * q) by (nonlinear_arith);
    assert((q + 1) * step == q * step + step) by (nonlinear_arith);
    if step == 1 {
        assert(r == 0);
    }
}

/// The 24 highest bits start with a one, unless there are fewer.
proof fn lemma_excess_bits(x: nat)
    ensures
        pow2(excess_bits(x)) == 1 || 0x80_0000 * pow2(excess_bits(x)) <= x,
    decreases x,
{
    assert(pow2(0) == 1 && pow2(1) == 2) by {
        lemma2_to64();
    }
    if x >= 0x100_0000 {
        lemma_excess_bits(x / 2);
        lemma_pow2_unfold(excess_bits(x));
    }
}

/// `x` rounded to 24 significant bits.
fn round(x: u64) -> (r: u64)
    requires
        x < 0x100_0000_0000,
    ensures
        r == rounded(x as nat),
{
    let mut step: u64 = 1;
    let mut rest: u64 = x;
    let ghost mut bits: nat = 0;
    assert(pow2(0) == 1) by {
        lemma2_to64();
    }
    while rest >= 0x100_0000
        invariant
            step == pow2(bits),
            excess_bits(x as nat) == bits + excess_bits(rest as nat),
            rest * step <= x,
            x < 0x100_0000_0000,
            step >= 1,
        decreases rest,
    {
        proof {
            lemma_pow2_unfold(bits + 1);
            assert(step <= x) by (nonlinear_arith)
                requires
                    rest * step <= x,
                    rest >= 0x100_0000,
                    step >= 1,
            ;
            assert((rest / 2) * (2 * step) <= rest * step) by (nonlinear_arith)
                requires
                    2 * (rest / 2) <= rest,
                    step >= 1,
            ;
            bits = bits + 1;
        }
        rest = rest / 2;
        step = 2 * step;
    }
    let q: u64 = x / step;
    let r: u64 = x % step;
    proof {
        lemma_excess_bits(x as nat);
        lemma_fundamental_div_mod(x as int, step as int);
        assert(q * step == step * q) by (nonlinear_arith);
        assert((q + 1) * step == q * step + step) by (nonlinear_arith);
        assert(step <= 1 || 0x80_0000 * step <= x);
    }
    if 2 * r < step || (2 * r == step && q % 2 == 0) {
        q * step
    } else {
        (q + 1) * step
    }
}

/// `x * 2^by`, `u64::MAX` at most.
fn shifted_up(x: u64, by: u32) -> (r: u64)
    ensures
        r == (if x * pow2(by as nat) <= u64::MAX {
            x * pow2(by as nat)
        } else {
            u64::MAX as int
        }),
{
    let mut r: u64 = x;
    let mut i: u32 = 0;
    assert(pow2(0) == 1) by {
        lemma2_to64();
    }
    while i < by
        invariant
            0 <= i <= by,
            r == x * pow2(i as nat),
        decreases by - i,
    {
        proof {
            lemma_pow2_unfold((i + 1) as nat);
            assert(x * (2 * pow2(i as nat)) == 2 * (x * pow2(i as nat))) by (nonlinear_arith);
        }
        if r > u64::MAX / 2 {
            proof {
                if i + 1 < by {
                    lemma_pow2_strictly_increases((i + 1) as nat, by as nat);
                }
                assert(x * pow2((i + 1) as nat) <= x * pow2(by as nat)) by (nonlinear_arith)
                    requires
                        pow2((i + 1) as nat) <= pow2(by as nat),
                        x >= 0,
                ;
            }
            return u64::MAX;
        }
        r = 2 * r;
        i = i + 1;
    }
    r
}

/// `x / 2^by`, rounded down.
fn shifted_down(x: u64, by: u32) -> (r: u64)
    ensures
        r == x as int / pow2(by as nat) as int,
{
    let mut r: u64 = x;
    let mut i: u32 = 0;
    assert(pow2(0) == 1) by {
        lemma2_to64();
    }
    while i < by
        invariant
            0 <= i <= by,
            r == x as int / pow2(i as nat) as int,
        decreases by - i,
    {
        proof {
            lemma_pow2_pos(i as nat);
            lemma_pow2_unfold((i + 1) as nat);
            lemma_div_denominator(x as int, pow2(i as nat) as int, 2);
            assert(pow2(i as nat) * 2 == 2 * pow2(i as nat)) by (nonlinear_arith);
        }
        r = r / 2;
        i = i + 1;
    }
    r
}

/// The thousandths of a number between 0 and 1 are at most 1000. They fall short
/// of a thousand times the number by less than 1.001, and exceed it by at most
/// 0.001. Both sides are in units of 2^-149, multiplied out by 1000.
pub proof fn law_thousandths_are_close(x: Real)
    requires
        x.is_finite(),
        x.order() >= 0,
        x.units() <= pow2(149),
    ensures
        0 <= x.thousandths_spec() <= 1000,
        1_000_000 * x.units() - 1001 * pow2(149) < 1000 * (x.thousandths_spec() * pow2(149)),
        1000 * (x.thousandths_spec() * pow2(149)) <= 1_000_000 * x.units() + pow2(149),
{
    let unit = pow2(149);
    lemma_pow2_pos(149);
    if x.is_negative() {
        // The negative zero.
        assert(x.units() == 0);
        assert(0 * unit == 0) by (nonlinear_arith);
    } else {
        if x.magnitude() > 0 {
            lemma_magnitude_units_increase(0, x.magnitude());
        }
        let exact = (1000 * x.units()) as nat;
        let near = rounded(exact);
        lemma_rounding_error(exact);
        lemma_fundamental_div_mod(near as int, unit as int);
        let whole = near / unit;
        assert(whole * unit == unit * whole) by (nonlinear_arith);
        assert(whole <= 1000) by {
            if whole >= 1001 {
                assert(whole * unit >= 1001 * unit) by (nonlinear_arith)
                    requires
                        whole >= 1001,
                        unit > 0,
                ;
            }
        }
    }
}

/// Magnitude patterns are ordered as the values they stand for.
proof fn lemma_magnitude_units_increase(a: int, b: int)
    requires
        0 <= a < b,
    ensures
        0 <= magnitude_units(a) < magnitude_units(b),
{
    let (ea, fa) = (a / 0x80_0000, a % 0x80_0000);
    let (eb, fb) = (b / 0x80_0000, b % 0x80_0000);
    if eb > 0 {
        let pb = pow2((eb - 1) as nat) as int;
        lemma_pow2_pos((eb - 1) as nat);
        assert((0x80_0000 + fb) * pb >= 0x80_0000 * pb) by (nonlinear_arith)
            requires
                fb >= 0,
                pb > 0,
        ;
        if ea > 0 {
            let pa = pow2((ea - 1) as nat) as int;
            lemma_pow2_pos((ea - 1) as nat);
            assert((0x80_0000 + fa) * pa > 0) by (nonlinear_arith)
                requires
                    fa >= 0,
                    pa > 0,
            ;
            if ea == eb {
                assert((0x80_0000 + fa) * pa < (0x80_0000 + fb) * pa) by (nonlinear_arith)
                    requires
                        fa < fb,
                        pa > 0,
                ;
            } else {
                lemma_pow2_unfold(ea as nat);
                if ea < eb - 1 {
                    lemma_pow2_strictly_increases(ea as nat, (eb - 1) as nat);
                }
                assert((0x80_0000 + fa) * pa < 0x80_0000 * (2 * pa)) by (nonlinear_arith)
                    requires
                        fa < 0x80_0000,
                        pa > 0,
                ;
            }
        }
    }
}

/// Finite numbers are ordered by their exact values, and two of them share a
/// place just when they are the same value.
pub proof fn law_order_is_by_value(a: Real, b: Real)
    requires
        a.is_finite(),
        b.is_finite(),
    ensures
        a.order() < b.order() <==> a.units() < b.units(),
        a.order() == b.order() <==> a.units() == b.units(),
{
    let (ma, mb) = (a.magnitude(), b.magnitude());
    if ma < mb {
        lemma_magnitude_units_increase(ma, mb);
    } else if mb < ma {
        lemma_magnitude_units_increase(mb, ma);
    }
    if ma > 0 {
        lemma_magnitude_units_increase(0, ma);
    }
    if mb > 0 {
        lemma_magnitude_units_increase(0, mb);
    }
}

/// Every finite number stands between the infinities, and a NaN stands above
/// all numbers.
pub proof fn law_order_ends(x: Real, nan: Real)
    requires
        x.is_finite(),
        nan.is_nan_spec(),
    ensures
        (Real { bits: NEG_INFINITY_BITS }).order() < x.order(),
        x.order() < (Real { bits: INFINITY_BITS }).order(),
        (Real { bits: INFINITY_BITS }).order() < nan.order(),
{
}

/// The IEEE comparison of finite numbers is that of their values.
pub proof fn law_comparison_is_by_value(a: Real, b: Real)
    requires
        a.is_finite(),
        b.is_finite(),
    ensures
        a.at_least_spec(b) <==> a.units() >= b.units(),
{
    law_order_is_by_value(a, b);
}

/// A NaN is not at least anything, and nothing is at least a NaN. Of other
/// numbers, the infinities too, one is at least another just when it does not
/// stand before it.
pub proof fn law_comparison_of_any(a: Real, b: Real)
    ensures
        a.order() > (Real { bits: INFINITY_BITS }).order() ==> !a.at_least_spec(b)
            && !b.at_least_spec(a),
        a.order() <= (Real { bits: INFINITY_BITS }).order() && b.order() <= (Real {
            bits: INFINITY_BITS,
        }).order() ==> (a.at_least_spec(b) <==> a.order() >= b.order()),
{
}

/// A number in `[lo, hi]` is left as it is; one below becomes `lo`, one above
/// `hi`.
pub proof fn law_clamp_keeps_what_fits(x: Real, lo: Real, hi: Real)
    requires
        hi.at_least_spec(lo),
    ensures
        lo.order() <= x.order() <= hi.order() ==> x.clamp_spec(lo, hi).bits == x.bits,
        x.order() < lo.order() ==> x.clamp_spec(lo, hi).bits == lo.bits,
        hi.order() < x.order() <= (Real { bits: INFINITY_BITS }).order() ==> x.clamp_spec(
            lo,
            hi,
        ).bits == hi.bits,
        x.is_nan_spec() ==> x.clamp_spec(lo, hi).bits == x.bits,
{
}

/// A number is raised to the floor only from below it.
pub proof fn law_floor_is_the_larger(x: Real, floor: Real)
    requires
        !floor.is_nan_spec(),
    ensures
        floor.order() <= x.order() && !x.is_nan_spec() ==> x.at_least_floor_spec(floor).bits
            == x.bits,
        x.order() < floor.order() || x.is_nan_spec() ==> x.at_least_floor_spec(floor).bits
            == floor.bits,
{
}

/// The thousandths of a number whose thousandfold needs no rounding, because it
/// is `m * 2^s` units with `m` below 2^24, are that thousandfold with the fraction
/// cut off.
pub proof fn law_thousandths_without_rounding(x: Real, m: nat, s: nat, t: nat)
    requires
        x.is_finite(),
        x.order() > 0,
        m < 0x100_0000,
        1000 * x.units() == m * pow2(s),
        t * pow2(149) <= 1000 * x.units(),
        1000 * x.units() < (t + 1) * pow2(149),
        t <= u64::MAX,
    ensures
        x.thousandths_spec() == t,
{
    let exact = (1000 * x.units()) as nat;
    lemma_pow2_pos(149);
    assert(pow2(0) == 1) by {
        lemma2_to64();
    }
    lemma_rounded_scales(m, s);
    assert(rounded(m) == m);
    assert(rounded(exact) == exact);
    let unit = pow2(149) as int;
    assert(exact == t * unit + (exact - t * unit));
    assert(0 <= exact - t * unit < unit) by (nonlinear_arith)
        requires
            t * unit <= exact,
            exact < (t + 1) * unit,
    ;
    lemma_fundamental_div_mod_converse(exact as int, unit, t as int, exact - t * unit);
}

/// What is not a positive number has no thousandths, and infinity has the most.
pub proof fn law_thousandths_of_the_rest(x: Real)
    ensures
        x.order() < 0 || x.is_nan_spec() || x.order() == 0 ==> x.thousandths_spec() == 0,
        x.bits == INFINITY_BITS ==> x.thousandths_spec() == u64::MAX,
{
    lemma_pow2_pos(149);
    assert(pow2(0) == 1) by {
        lemma2_to64();
    }
    if x.order() == 0 && !x.is_negative() {
        assert(x.units() == 0);
        assert(rounded(0) == 0);
        vstd::arithmetic::div_mod::lemma_div_basics_1(pow2(149) as int);
    }
}

/// A number brought into `[lo, hi]` lies in `[lo, hi]`, and bringing it there
/// again changes nothing.
pub proof fn law_clamp_bounds(x: Real, lo: Real, hi: Real)
    requires
        !x.is_nan_spec(),
        hi.at_least_spec(lo),
    ensures
        x.clamp_spec(lo, hi).at_least_spec(lo),
        hi.at_least_spec(x.clamp_spec(lo, hi)),
        x.clamp_spec(lo, hi).clamp_spec(lo, hi) == x.clamp_spec(lo, hi),
{
}

} // verus!
