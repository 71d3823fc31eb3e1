//! Binary floating-point numbers, held by their bit patterns: what can be read
//! off a pattern is their order and the integer nearest to a multiple of them.
use vstd::prelude::*;

use vstd::arithmetic::power2::pow2;

verus! {

/// The sign bit of a pattern.
pub const SIGN_BIT: u64 = 0x8000_0000_0000_0000;

/// The pattern of positive infinity.
pub const INFINITY_BITS: u64 = 0x7ff0_0000_0000_0000;

/// One more than the largest fraction.
pub const FRACTION_SIZE: u64 = 0x0010_0000_0000_0000;

/// A double-precision number of IEEE 754, held by its bit pattern.
#[derive(Debug, Clone, Copy, PartialEq, Eq, Structural)]
pub struct Real {
    pub bits: u64,
}

impl Real {
    /// The sign bit is set.
    pub open spec fn negative(self) -> bool {
        self.bits >= SIGN_BIT
    }

    /// The pattern without the sign bit.
    pub open spec fn magnitude(self) -> nat {
        if self.bits >= SIGN_BIT {
            (self.bits - SIGN_BIT) as nat
        } else {
            self.bits as nat
        }
    }

    pub open spec fn nan(self) -> bool {
        self.magnitude() > INFINITY_BITS
    }

    pub open spec fn finite(self) -> bool {
        self.magnitude() < INFINITY_BITS
    }

    /// The integer by which a number is ordered: two numbers compare as their
    /// keys do.
    pub open spec fn key(self) -> int {
        if self.negative() {
            -(self.magnitude() as int)
        } else {
            self.magnitude() as int
        }
    }

    /// The numeric value of a finite number, in units of the smallest positive
    /// one (2 to the power of -1074).
    pub open spec fn value(self) -> int {
        if self.negative() {
            -(scaled(self.magnitude()) as int)
        } else {
            scaled(self.magnitude()) as int
        }
    }

    /// The integer by which all patterns are ordered, NaNs and the two zeros
    /// too.
    pub open spec fn rank(self) -> int {
        if self.negative() {
            -(self.magnitude() as int) - 1
        } else {
            self.magnitude() as int
        }
    }

    /// Neither is a NaN, and `self` is at most `other`.
    pub open spec fn at_most(self, other: Real) -> bool {
        !self.nan() && !other.nan() && self.key() <= other.key()
    }

    /// Neither is a NaN, and `self` is less than `other`.
    pub open spec fn less(self, other: Real) -> bool {
        !self.nan() && !other.nan() && self.key() < other.key()
    }

    pub fn is_nan(self) -> (r: bool)
        ensures
            r == self.nan(),
    {
        self.mag() > INFINITY_BITS
    }

    pub fn is_finite(self) -> (r: bool)
        ensures
            r == self.finite(),
    {
        self.mag() < INFINITY_BITS
    }

    /// True for both zeros.
    pub fn is_zero(self) -> (r: bool)
        ensures
            r == (self.key() == 0),
    {
        self.mag() == 0
    }

    fn mag(self) -> (r: u64)
        ensures
            r == self.magnitude(),
            r < SIGN_BIT,
    {
        if self.bits >= SIGN_BIT {
            self.bits - SIGN_BIT
        } else {
            self.bits
        }
    }

    fn ord(self) -> (r: i64)
        ensures
            r == self.key(),
    {
        if self.bits >= SIGN_BIT {
            -(self.mag() as i64)
        } else {
            self.mag() as i64
        }
    }

    /// `self` comes before `other` in the order of all patterns.
    pub fn ranks_below(self, other: Real) -> (r: bool)
        ensures
            r == (self.rank() < other.rank()),
    {
        let a: i64 = if self.bits >= SIGN_BIT {
            -(self.mag() as i64) - 1
        } else {
            self.mag() as i64
        };
        let b: i64 = if other.bits >= SIGN_BIT {
            -(other.mag() as i64) - 1
        } else {
            other.mag() as i64
        };
        a < b
    }

    pub fn le(self, other: Real) -> (r: bool)
        ensures
            r == self.at_most(other),
    {
        !self.is_nan() && !other.is_nan() && self.ord() <= other.ord()
    }

    pub fn lt(self, other: Real) -> (r: bool)
        ensures
            r == self.less(other),
    {
        !self.is_nan() && !other.is_nan() && self.ord() < other.ord()
    }
}

/// The value of a positive pattern in units of the smallest positive number.
pub open spec fn scaled(magnitude: nat) -> nat {
    let exponent = magnitude / (FRACTION_SIZE as nat);
    let fraction = magnitude % (FRACTION_SIZE as nat);
    if exponent == 0 {
        fraction
    } else {
        (FRACTION_SIZE as nat + fraction) * pow2((exponent - 1) as nat)
    }
}

proof fn lemma_scaled_increases(a: nat, b: nat)
    requires
        a < b,
    ensures
        scaled(a) < scaled(b),
{
    let size = FRACTION_SIZE as nat;
    let ea = a / size;
    let eb = b / size;
    let fa = a % size;
    let fb = b % size;
    assert(a == ea * size + fa && b == eb * size + fb && fa < size && fb < size && ea <= eb)
        by (nonlinear_arith)
        requires
            size == 0x0010_0000_0000_0000,
            a < b,
            ea == a / size,
            eb == b / size,
            fa == a % size,
            fb == b % size,
    ;
    if ea == eb {
        if ea > 0 {
            vstd::arithmetic::power2::lemma_pow2_pos((ea - 1) as nat);
            let p = pow2((ea - 1) as nat);
            assert((size + fa) * p < (size + fb) * p) by (nonlinear_arith)
                requires
                    fa < fb,
                    p > 0,
            ;
        }
    } else {
        let pb = pow2((eb - 1) as nat);
        vstd::arithmetic::power2::lemma_pow2_pos((eb - 1) as nat);
        if ea == 0 {
            assert(fa < (size + fb) * pb) by (nonlinear_arith)
                requires
                    fa < size,
                    pb >= 1,
                    fb >= 0,
            ;
        } else {
            let pa = pow2((ea - 1) as nat);
            vstd::arithmetic::power2::lemma_pow2_pos((ea - 1) as nat);
            vstd::arithmetic::power2::lemma_pow2_unfold(ea);
            if ea < eb - 1 {
                vstd::arithmetic::power2::lemma_pow2_strictly_increases(ea, (eb - 1) as nat);
            }
            assert(pow2(ea) <= pb);
            assert((size + fa) * pa < (size + fb) * pb) by (nonlinear_arith)
                requires
                    fa < size,
                    fb >= 0,
                    2 * pa <= pb,
                    pa > 0,
            ;
        }
    }
}

/// Finite numbers are ordered by their values: one is less than another
/// exactly when its value is.
pub proof fn order_is_by_value(a: Real, b: Real)
    requires
        a.finite(),
        b.finite(),
    ensures
        a.less(b) <==> a.value() < b.value(),
        a.at_most(b) <==> a.value() <= b.value(),
{
    let ma = a.magnitude();
    let mb = b.magnitude();
    if ma < mb {
        lemma_scaled_increases(ma, mb);
    } else if mb < ma {
        lemma_scaled_increases(mb, ma);
    }
    if ma > 0 {
        lemma_scaled_increases(0, ma);
    }
    if mb > 0 {
        lemma_scaled_increases(0, mb);
    }
    assert(scaled(0) == 0);
}

/// The integer nearest to four times a number; halves are rounded away from
/// zero.
pub open spec fn nearest_quarters(v: Real) -> int {
    let n = (scaled(v.magnitude()) + pow2(1071)) as int / (pow2(1072) as int);
    if v.negative() {
        -n
    } else {
        n
    }
}

/// `v` brought into the range `lo..=hi`.
pub open spec fn clamp_int(v: int, lo: int, hi: int) -> int {
    if v < lo {
        lo
    } else if v > hi {
        hi
    } else {
        v
    }
}

/// Four times `v`, rounded to the nearest integer and brought into the range
/// `lo..=hi`.
pub fn quarters_within(v: Real, lo: u32, hi: u32) -> (r: u32)
    requires
        !v.nan(),
        lo <= hi,
    ensures
        r == clamp_int(nearest_quarters(v), lo as int, hi as int),
{
    let ghost half = pow2(1071) as int;
    let ghost unit = pow2(1072) as int;
    let ghost whole = scaled(v.magnitude()) as int;
    proof {
        vstd::arithmetic::power2::lemma_pow2_pos(1071);
        vstd::arithmetic::power2::lemma_pow2_unfold(1072);
        assert((whole + half) / unit >= 0) by (nonlinear_arith)
            requires
                whole >= 0,
                half > 0,
                unit == 2 * half,
        ;
    }
    if v.bits >= SIGN_BIT {
        return lo;
    }
    let exponent: u64 = v.bits / FRACTION_SIZE;
    let fraction: u64 = v.bits % FRACTION_SIZE;
    if exponent >= 1073 {
        proof {
            vstd::arithmetic::power2::lemma_pow2_pos((exponent - 1) as nat);
            if exponent > 1073 {
                vstd::arithmetic::power2::lemma_pow2_strictly_increases(
                    1072,
                    (exponent - 1) as nat,
                );
            }
            let p = pow2((exponent - 1) as nat);
            assert((whole + half) / unit > 0xffff_ffff) by (nonlinear_arith)
                requires
                    whole == (0x0010_0000_0000_0000 + fraction) * p,
                    fraction >= 0,
                    p >= unit,
                    unit > 0,
                    half > 0,
            ;
        }
        return hi;
    }
    if exponent <= 1018 {
        proof {
            if exponent == 0 {
                lemma_small_rounds_to_zero(fraction as nat, 0);
            } else {
                lemma_small_rounds_to_zero(
                    (FRACTION_SIZE + fraction) as nat,
                    (exponent - 1) as nat,
                );
            }
        }
        return lo;
    }
    let mantissa: u64 = FRACTION_SIZE + fraction;
    let shift: u64 = 1073 - exponent;
    proof {
        lemma_shifted(mantissa, exponent, shift);
    }
    let n: u64 = (mantissa + (1u64 << (shift - 1))) >> shift;
    if n < lo as u64 {
        lo
    } else if n > hi as u64 {
        hi
    } else {
        n as u32
    }
}

proof fn lemma_small_rounds_to_zero(mantissa: nat, e: nat)
    requires
        mantissa < 0x0020_0000_0000_0000,
        e <= 1017,
    ensures
        (mantissa * pow2(e) + pow2(1071)) as int / (pow2(1072) as int) == 0,
        (mantissa + pow2(1071)) as int / (pow2(1072) as int) == 0,
{
    vstd::arithmetic::power2::lemma_pow2_pos(e);
    vstd::arithmetic::power2::lemma_pow2_adds(53, e);
    vstd::arithmetic::power2::lemma2_to64();
    vstd::arithmetic::power2::lemma2_to64_rest();
    vstd::arithmetic::power2::lemma_pow2_strictly_increases(53 + e, 1071);
    vstd::arithmetic::power2::lemma_pow2_strictly_increases(53, 1071);
    vstd::arithmetic::power2::lemma_pow2_unfold(1072);
    let p = pow2(e);
    assert(mantissa * p < 0x0020_0000_0000_0000 * p) by (nonlinear_arith)
        requires
            mantissa < 0x0020_0000_0000_0000,
            p > 0,
    ;
    assert(pow2(53) == 0x0020_0000_0000_0000);
    let half = pow2(1071) as int;
    let unit = pow2(1072) as int;
    let a = mantissa * p;
    assert((a + half) / unit == 0) by (nonlinear_arith)
        requires
            0 <= a < half,
            unit == 2 * half,
    ;
    assert((mantissa + half) / unit == 0) by (nonlinear_arith)
        requires
            0 <= mantissa < half,
            unit == 2 * half,
    ;
}

proof fn lemma_shifted(mantissa: u64, exponent: u64, shift: u64)
    requires
        mantissa < 0x0020_0000_0000_0000,
        1018 < exponent < 1073,
        shift == 1073 - exponent,
    ensures
        mantissa + (1u64 << ((shift - 1) as u64)) <= u64::MAX,
        ((mantissa + (1u64 << ((shift - 1) as u64))) as u64) >> shift == (mantissa * pow2(
            (exponent - 1) as nat,
        ) + pow2(1071)) / (pow2(1072) as int),
{
    let s = shift as nat;
    let p = pow2((exponent - 1) as nat) as int;
    vstd::arithmetic::power2::lemma_pow2_pos((exponent - 1) as nat);
    vstd::arithmetic::power2::lemma_pow2_adds((exponent - 1) as nat, s);
    vstd::arithmetic::power2::lemma_pow2_adds((exponent - 1) as nat, (s - 1) as nat);
    vstd::bits::lemma_u64_pow2_no_overflow((s - 1) as nat);
    vstd::arithmetic::power2::lemma2_to64();
    vstd::arithmetic::power2::lemma2_to64_rest();
    if s - 1 < 53 {
        vstd::arithmetic::power2::lemma_pow2_strictly_increases((s - 1) as nat, 53);
    }
    vstd::bits::lemma_u64_shl_is_mul(1, (shift - 1) as u64);
    let sum = (mantissa + pow2((s - 1) as nat)) as u64;
    vstd::bits::lemma_u64_shr_is_div(sum, shift);
    vstd::arithmetic::power2::lemma_pow2_pos(s);
    let h = pow2((s - 1) as nat) as int;
    let u = pow2(s) as int;
    vstd::arithmetic::div_mod::lemma_div_multiples_vanish_quotient(p, mantissa + h, u);
    assert(p * (mantissa + h) == mantissa * p + p * h) by (nonlinear_arith);
}

/// The rounded number is as near to four times the given one as an integer can be:
/// they differ by at most a half.
pub proof fn rounding_takes_the_nearest_quarter(v: Real)
    requires
        v.finite(),
    ensures
        2 * (nearest_quarters(v) * pow2(1072) - v.value()) <= pow2(1072),
        2 * (v.value() - nearest_quarters(v) * pow2(1072)) <= pow2(1072),
{
    let s = scaled(v.magnitude()) as int;
    let half = pow2(1071) as int;
    let one = pow2(1072) as int;
    vstd::arithmetic::power2::lemma_pow2_unfold(1072);
    vstd::arithmetic::power2::lemma_pow2_pos(1071);
    assert(one == 2 * half);
    let n = (s + half) / one;
    assert(n * one <= s + half < n * one + one) by (nonlinear_arith)
        requires
            n == (s + half) / one,
            one > 0,
    ;
    assert((-n) * one == -(n * one)) by (nonlinear_arith);
}

/// A number brought into a range lies in it, and is the one of the range that is
/// nearest to what it was.
pub proof fn clamping_takes_the_nearest_in_range(v: int, lo: int, hi: int, other: int)
    requires
        lo <= other <= hi,
    ensures
        lo <= clamp_int(v, lo, hi) <= hi,
        v <= clamp_int(v, lo, hi) ==> clamp_int(v, lo, hi) - v <= (if other >= v {
            other - v
        } else {
            v - other
        }),
        v >= clamp_int(v, lo, hi) ==> v - clamp_int(v, lo, hi) <= (if other >= v {
            other - v
        } else {
            v - other
        }),
        lo <= v <= hi ==> clamp_int(v, lo, hi) == v,
{
}

/// A number that lies halfway between two quarters is rounded away from zero.
pub proof fn halves_are_rounded_away_from_zero(v: Real)
    requires
        v.finite(),
    ensures
        !v.negative() ==> 2 * (v.value() - nearest_quarters(v) * pow2(1072)) < pow2(1072),
        v.negative() ==> 2 * (nearest_quarters(v) * pow2(1072) - v.value()) < pow2(1072),
{
    let s = scaled(v.magnitude()) as int;
    let half = pow2(1071) as int;
    let one = pow2(1072) as int;
    vstd::arithmetic::power2::lemma_pow2_unfold(1072);
    vstd::arithmetic::power2::lemma_pow2_pos(1071);
    assert(one == 2 * half);
    let n = (s + half) / one;
    assert(n * one <= s + half < n * one + one) by (nonlinear_arith)
        requires
            n == (s + half) / one,
            one > 0,
    ;
    assert((-n) * one == -(n * one)) by (nonlinear_arith);
}

/// The order of all patterns is that of the numbers, with the negative zero just below
/// the other, and with the patterns that are no numbers at its ends.
pub proof fn ranks_follow_the_order(a: Real, b: Real)
    ensures
        a.less(b) ==> a.rank() < b.rank(),
        a.rank() < b.rank() && !a.nan() && !b.nan() ==> a.at_most(b),
        a.rank() == b.rank() <==> a == b,
        a.nan() && !a.negative() && !b.nan() ==> b.rank() < a.rank(),
        a.nan() && a.negative() && !b.nan() ==> a.rank() < b.rank(),
{
}

} // verus!
