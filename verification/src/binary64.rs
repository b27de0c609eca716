//! Binary64 arithmetic, in integers.
//!
//! A [`Binary64`] is the 64 bits of an IEEE 754 double. Its operations are
//! the standard's — each the exact result, rounded once to nearest with ties
//! to even — computed on integers, so what a walk adds up is stated and
//! proved to the last bit. Every NaN an operation makes is the one quiet NaN.

use vstd::arithmetic::div_mod::*;
use vstd::arithmetic::mul::*;
use vstd::arithmetic::power2::*;
use vstd::bits::*;
use vstd::prelude::*;

use crate::rounding;
use crate::rounding::{HIDDEN, INFINITE};

verus! {

/// The sign bit.
pub const SIGN: u64 = 0x8000_0000_0000_0000;

/// The bits of the NaN an operation makes.
pub const QUIET: u64 = 0x7ff8_0000_0000_0000;

/// The bits of one.
pub const ONE: u64 = 0x3ff0_0000_0000_0000;

/// A magnitude, given by its bits, in units. Infinity counts as the next
/// power of two after the largest finite magnitude.
pub open spec fn units(magnitude: int) -> nat {
    let exponent = magnitude / HIDDEN as int;
    let fraction = magnitude % HIDDEN as int;
    if exponent == 0 {
        fraction as nat
    } else {
        ((fraction + HIDDEN) * pow2((exponent - 1) as nat)) as nat
    }
}

/// One, in units.
pub open spec fn one_unit() -> nat {
    pow2(1074)
}

/// A double, by its bits.
#[derive(Clone, Copy, Debug)]
pub struct Binary64 {
    pub bits: u64,
}

impl Binary64 {
    /// The bits without the sign.
    pub open spec fn magnitude(self) -> int {
        if self.bits < SIGN {
            self.bits as int
        } else {
            self.bits - SIGN
        }
    }

    /// Whether the sign bit is set.
    pub open spec fn negative(self) -> bool {
        self.bits >= SIGN
    }

    /// The number, in units; meaningless for a NaN.
    pub open spec fn value(self) -> int {
        if self.negative() {
            -(units(self.magnitude()) as int)
        } else {
            units(self.magnitude()) as int
        }
    }

    /// A magnitude with a sign.
    pub open spec fn signed(negative: bool, magnitude: int) -> Binary64 {
        Binary64 {
            bits: (if negative {
                magnitude + SIGN
            } else {
                magnitude
            }) as u64,
        }
    }

    pub open spec fn nan_spec() -> Binary64 {
        Binary64 { bits: QUIET }
    }

    pub open spec fn zero_spec() -> Binary64 {
        Binary64 { bits: 0 }
    }

    pub open spec fn is_nan_spec(self) -> bool {
        self.magnitude() > INFINITE
    }

    pub open spec fn is_infinite(self) -> bool {
        self.magnitude() == INFINITE
    }

    pub open spec fn is_finite_spec(self) -> bool {
        self.magnitude() < INFINITE
    }

    pub open spec fn is_zero(self) -> bool {
        self.magnitude() == 0
    }

    /// `a < b`: never of a NaN.
    pub open spec fn less_spec(self, other: Binary64) -> bool {
        !self.is_nan_spec() && !other.is_nan_spec() && self.value() < other.value()
    }

    /// `a <= b`: never of a NaN.
    pub open spec fn at_most_spec(self, other: Binary64) -> bool {
        !self.is_nan_spec() && !other.is_nan_spec() && self.value() <= other.value()
    }

    /// `a == b`: the two zeros are equal, and a NaN is equal to nothing.
    pub open spec fn equals_spec(self, other: Binary64) -> bool {
        !self.is_nan_spec() && !other.is_nan_spec() && self.value() == other.value()
    }

    /// `-a`.
    pub open spec fn negated_spec(self) -> Binary64 {
        Binary64::signed(!self.negative(), self.magnitude())
    }

    /// `|a|`.
    pub open spec fn abs_spec(self) -> Binary64 {
        Binary64::signed(false, self.magnitude())
    }

    /// `a + b`.
    #[verifier::opaque]
    pub open spec fn plus_spec(self, other: Binary64) -> Binary64 {
        if self.is_nan_spec() || other.is_nan_spec() {
            Binary64::nan_spec()
        } else if self.is_infinite() {
            if other.is_infinite() && self.negative() != other.negative() {
                Binary64::nan_spec()
            } else {
                self
            }
        } else if other.is_infinite() {
            other
        } else {
            let sum = self.value() + other.value();
            if sum == 0 {
                Binary64::signed(self.negative() && other.negative(), 0)
            } else if sum < 0 {
                Binary64::signed(true, rounding::pack((-sum) as nat, 1))
            } else {
                Binary64::signed(false, rounding::pack(sum as nat, 1))
            }
        }
    }

    /// `a - b`.
    pub open spec fn minus_spec(self, other: Binary64) -> Binary64 {
        self.plus_spec(other.negated_spec())
    }

    /// `a * b`.
    #[verifier::opaque]
    pub open spec fn times_spec(self, other: Binary64) -> Binary64 {
        let negative = self.negative() != other.negative();
        if self.is_nan_spec() || other.is_nan_spec() {
            Binary64::nan_spec()
        } else if self.is_infinite() || other.is_infinite() {
            if self.is_zero() || other.is_zero() {
                Binary64::nan_spec()
            } else {
                Binary64::signed(negative, INFINITE as int)
            }
        } else {
            Binary64::signed(
                negative,
                rounding::pack(units(self.magnitude()) * units(other.magnitude()), one_unit()),
            )
        }
    }

    /// `a / b`.
    #[verifier::opaque]
    pub open spec fn over_spec(self, other: Binary64) -> Binary64 {
        let negative = self.negative() != other.negative();
        if self.is_nan_spec() || other.is_nan_spec() {
            Binary64::nan_spec()
        } else if self.is_infinite() {
            if other.is_infinite() {
                Binary64::nan_spec()
            } else {
                Binary64::signed(negative, INFINITE as int)
            }
        } else if other.is_infinite() {
            Binary64::signed(negative, 0)
        } else if other.is_zero() {
            if self.is_zero() {
                Binary64::nan_spec()
            } else {
                Binary64::signed(negative, INFINITE as int)
            }
        } else {
            Binary64::signed(
                negative,
                rounding::pack(units(self.magnitude()) * one_unit(), units(other.magnitude())),
            )
        }
    }

    /// The largest whole number at most `a`.
    #[verifier::opaque]
    pub open spec fn floor_spec(self) -> Binary64 {
        if self.is_nan_spec() {
            Binary64::nan_spec()
        } else if self.is_infinite() {
            self
        } else {
            let whole = units(self.magnitude()) / one_unit();
            let cut = units(self.magnitude()) % one_unit() != 0;
            if self.negative() && cut {
                Binary64::signed(true, rounding::pack((whole + 1) * one_unit(), 1))
            } else {
                Binary64::signed(self.negative(), rounding::pack(whole * one_unit(), 1))
            }
        }
    }

    #[verifier::when_used_as_spec(nan_spec)]
    pub fn nan() -> (r: Binary64)
        ensures
            r == Binary64::nan_spec(),
    {
        Binary64 { bits: QUIET }
    }

    #[verifier::when_used_as_spec(zero_spec)]
    pub fn zero() -> (r: Binary64)
        ensures
            r == Binary64::zero_spec(),
    {
        Binary64 { bits: 0 }
    }

    fn bare(self) -> (r: u64)
        ensures
            r == self.magnitude(),
    {
        if self.bits < SIGN {
            self.bits
        } else {
            self.bits - SIGN
        }
    }

    fn with_sign(negative: bool, magnitude: u64) -> (r: Binary64)
        requires
            magnitude < SIGN,
        ensures
            r == Binary64::signed(negative, magnitude as int),
            r.negative() == negative,
            r.magnitude() == magnitude,
    {
        if negative {
            Binary64 { bits: magnitude + SIGN }
        } else {
            Binary64 { bits: magnitude }
        }
    }

    #[verifier::when_used_as_spec(is_nan_spec)]
    pub fn is_nan(self) -> (r: bool)
        ensures
            r == self.is_nan_spec(),
    {
        self.bare() > INFINITE
    }

    #[verifier::when_used_as_spec(is_finite_spec)]
    pub fn is_finite(self) -> (r: bool)
        ensures
            r == self.is_finite_spec(),
    {
        self.bare() < INFINITE
    }

    #[verifier::when_used_as_spec(less_spec)]
    pub fn less(self, other: Binary64) -> (r: bool)
        ensures
            r == self.less_spec(other),
    {
        let a: u64 = self.bare();
        let b: u64 = other.bare();
        if a > INFINITE || b > INFINITE {
            return false;
        }
        proof {
            self.lemma_order(other);
        }
        if self.bits < SIGN {
            other.bits < SIGN && a < b
        } else if other.bits < SIGN {
            a != 0 || b != 0
        } else {
            b < a
        }
    }

    #[verifier::when_used_as_spec(at_most_spec)]
    pub fn at_most(self, other: Binary64) -> (r: bool)
        ensures
            r == self.at_most_spec(other),
    {
        !self.is_nan() && !other.is_nan() && !other.less(self)
    }

    #[verifier::when_used_as_spec(equals_spec)]
    pub fn equals(self, other: Binary64) -> (r: bool)
        ensures
            r == self.equals_spec(other),
    {
        let a: u64 = self.bare();
        proof {
            if !self.is_nan_spec() && !other.is_nan_spec() {
                self.lemma_order(other);
            }
        }
        a <= INFINITE && other.bare() <= INFINITE && (self.bits == other.bits || (a == 0
            && other.bare() == 0))
    }

    /// Values are ordered as sign and magnitude bits are.
    proof fn lemma_order(self, other: Binary64)
        requires
            !self.is_nan_spec(),
            !other.is_nan_spec(),
        ensures
            units(self.magnitude()) == 0 <==> self.magnitude() == 0,
            units(other.magnitude()) == 0 <==> other.magnitude() == 0,
            units(self.magnitude()) < units(other.magnitude()) <==> self.magnitude()
                < other.magnitude(),
            units(self.magnitude()) == units(other.magnitude()) <==> self.magnitude()
                == other.magnitude(),
    {
        let a: int = self.magnitude();
        let b: int = other.magnitude();
        if a > 0 {
            lemma_units_increase(0, a);
        }
        if b > 0 {
            lemma_units_increase(0, b);
        }
        if a < b {
            lemma_units_increase(a, b);
        } else if b < a {
            lemma_units_increase(b, a);
        }
    }

    #[verifier::when_used_as_spec(negated_spec)]
    pub fn negated(self) -> (r: Binary64)
        ensures
            r == self.negated_spec(),
    {
        Binary64::with_sign(self.bits < SIGN, self.bare())
    }

    #[verifier::when_used_as_spec(abs_spec)]
    pub fn abs(self) -> (r: Binary64)
        ensures
            r == self.abs_spec(),
    {
        Binary64::with_sign(false, self.bare())
    }

    #[verifier::when_used_as_spec(plus_spec)]
    pub fn plus(self, other: Binary64) -> (r: Binary64)
        ensures
            r == self.plus_spec(other),
    {
        proof {
            reveal(Binary64::plus_spec);
        }
        let a: u64 = self.bare();
        let b: u64 = other.bare();
        let minus_a: bool = self.bits >= SIGN;
        let minus_b: bool = other.bits >= SIGN;
        if a > INFINITE || b > INFINITE {
            return Binary64::nan();
        }
        if a == INFINITE {
            if b == INFINITE && minus_a != minus_b {
                return Binary64::nan();
            }
            return self;
        }
        if b == INFINITE {
            return other;
        }
        proof {
            self.lemma_order(other);
        }
        if a == b && minus_a != minus_b {
            return Binary64::with_sign(false, 0);
        }
        if a == 0 && b == 0 {
            return Binary64::with_sign(minus_a, 0);
        }
        if a >= b {
            Binary64::with_sign(minus_a, combined(a, b, minus_a == minus_b))
        } else {
            Binary64::with_sign(minus_b, combined(b, a, minus_a == minus_b))
        }
    }

    #[verifier::when_used_as_spec(times_spec)]
    pub fn times(self, other: Binary64) -> (r: Binary64)
        ensures
            r == self.times_spec(other),
    {
        proof {
            reveal(Binary64::times_spec);
        }
        let a: u64 = self.bare();
        let b: u64 = other.bare();
        let negative: bool = (self.bits >= SIGN) != (other.bits >= SIGN);
        if a > INFINITE || b > INFINITE {
            return Binary64::nan();
        }
        if a == INFINITE || b == INFINITE {
            if a == 0 || b == 0 {
                return Binary64::nan();
            }
            return Binary64::with_sign(negative, INFINITE);
        }
        Binary64::with_sign(negative, product(a, b))
    }

    #[verifier::when_used_as_spec(over_spec)]
    pub fn over(self, other: Binary64) -> (r: Binary64)
        ensures
            r == self.over_spec(other),
    {
        proof {
            reveal(Binary64::over_spec);
        }
        let a: u64 = self.bare();
        let b: u64 = other.bare();
        let negative: bool = (self.bits >= SIGN) != (other.bits >= SIGN);
        if a > INFINITE || b > INFINITE {
            return Binary64::nan();
        }
        if a == INFINITE {
            if b == INFINITE {
                return Binary64::nan();
            }
            return Binary64::with_sign(negative, INFINITE);
        }
        if b == INFINITE {
            return Binary64::with_sign(negative, 0);
        }
        if b == 0 {
            if a == 0 {
                return Binary64::nan();
            }
            return Binary64::with_sign(negative, INFINITE);
        }
        Binary64::with_sign(negative, quotient(a, b))
    }

    #[verifier::when_used_as_spec(floor_spec)]
    pub fn floor(self) -> (r: Binary64)
        ensures
            r == self.floor_spec(),
    {
        proof {
            reveal(Binary64::floor_spec);
        }
        let a: u64 = self.bare();
        if a > INFINITE {
            return Binary64::nan();
        }
        if a == INFINITE {
            return self;
        }
        let (magnitude, up): (u64, u64) = wholes(a);
        if self.bits >= SIGN {
            Binary64::with_sign(true, up)
        } else {
            Binary64::with_sign(false, magnitude)
        }
    }

    #[verifier::when_used_as_spec(minus_spec)]
    pub fn minus(self, other: Binary64) -> (r: Binary64)
        ensures
            r == self.minus_spec(other),
    {
        self.plus(other.negated())
    }
}

impl PartialEq for Binary64 {
    /// Equality of doubles: the two zeros are equal, and a NaN is equal to
    /// nothing.
    fn eq(&self, other: &Self) -> (same: bool) {
        self.equals(*other)
    }
}

impl vstd::std_specs::cmp::PartialEqSpecImpl for Binary64 {
    open spec fn obeys_eq_spec() -> bool {
        true
    }

    open spec fn eq_spec(&self, other: &Self) -> bool {
        self.equals_spec(*other)
    }
}

/// Magnitudes grow with their bits.
pub proof fn lemma_units_increase(a: int, b: int)
    requires
        0 <= a < b <= INFINITE,
    ensures
        units(a) < units(b),
{
    let ea: int = a / HIDDEN as int;
    let eb: int = b / HIDDEN as int;
    let fa: int = a % HIDDEN as int;
    let fb: int = b % HIDDEN as int;
    if ea == eb {
        if ea > 0 {
            let p: nat = pow2((ea - 1) as nat);
            lemma_pow2_pos((ea - 1) as nat);
            assert((fa + HIDDEN) * p < (fb + HIDDEN) * p) by (nonlinear_arith)
                requires
                    fa < fb,
                    p > 0,
            ;
            assert((fa + HIDDEN) * p >= 0) by (nonlinear_arith)
                requires
                    fa >= 0,
                    p > 0,
            ;
        }
    } else {
        let p: nat = pow2((eb - 1) as nat);
        lemma_pow2_pos((eb - 1) as nat);
        assert((fb + HIDDEN) * p >= HIDDEN * p) by (nonlinear_arith)
            requires
                fb >= 0,
        ;
        if ea == 0 {
            assert(HIDDEN * p >= HIDDEN) by (nonlinear_arith)
                requires
                    p > 0,
            ;
        } else {
            let r: nat = pow2((ea - 1) as nat);
            lemma_pow2_pos((ea - 1) as nat);
            lemma_pow2_unfold(ea as nat);
            if ea < eb - 1 {
                lemma_pow2_strictly_increases(ea as nat, (eb - 1) as nat);
            }
            assert((fa + HIDDEN) * r < HIDDEN * p) by (nonlinear_arith)
                requires
                    fa < HIDDEN,
                    r > 0,
                    2 * r <= p,
            ;
            assert((fa + HIDDEN) * r >= 0) by (nonlinear_arith)
                requires
                    fa >= 0,
                    r > 0,
            ;
        }
    }
}

/// A magnitude that binary64 can hold is its own rounding.
pub proof fn lemma_pack_units(magnitude: int)
    requires
        0 <= magnitude < INFINITE,
    ensures
        rounding::pack(units(magnitude), 1) == magnitude,
{
    lemma2_to64();
    lemma2_to64_rest();
    let exponent: int = magnitude / HIDDEN as int;
    let fraction: int = magnitude % HIDDEN as int;
    let e: nat = if exponent == 0 { 0 } else { (exponent - 1) as nat };
    let m: nat = if exponent == 0 { fraction as nat } else { (fraction + HIDDEN) as nat };
    let n: nat = units(magnitude);
    lemma_pow2_pos(e);
    assert(n == m * pow2(e)) by {
        assert(m * 1 == m);
        assert((fraction + HIDDEN) * pow2(e) >= 0) by (nonlinear_arith)
            requires
                fraction >= 0,
        ;
    }
    lemma_pow2_adds(53, e);
    lemma_pow2_adds(52, e);
    assert(n < 1 * pow2(53 + e)) by (nonlinear_arith)
        requires
            n == m * pow2(e),
            m < pow2(53),
            pow2(53) * pow2(e) == pow2(53 + e),
            pow2(e) > 0,
    ;
    if e > 0 {
        assert(n >= 1 * pow2((52 + e) as nat)) by (nonlinear_arith)
            requires
                n == m * pow2(e),
                m >= pow2(52),
                pow2(52) * pow2(e) == pow2((52 + e) as nat),
        ;
    }
    rounding::lemma_scale(n, 1, e);
    assert(m * pow2(e) < (m + 1) * pow2(e) && 2 * (m * pow2(e)) < (2 * m + 1) * pow2(e))
        by (nonlinear_arith)
        requires
            pow2(e) > 0,
    ;
    rounding::lemma_half_even(n, 1 * pow2(e), m);
}

/// Rounding keeps order.
pub proof fn lemma_pack_ordered(a: nat, b: nat)
    requires
        a <= b,
    ensures
        rounding::pack(a, 1) <= rounding::pack(b, 1),
{
    lemma_fraction_ordered(a, b, 1);
}

/// Rounding a fraction keeps order.
pub proof fn lemma_fraction_ordered(a: nat, b: nat, d: nat)
    requires
        a <= b,
        d > 0,
    ensures
        rounding::pack(a, d) <= rounding::pack(b, d),
{
    lemma2_to64();
    lemma2_to64_rest();
    let ea: nat = rounding::scale(a, d);
    let eb: nat = rounding::scale(b, d);
    rounding::lemma_scale_bounds(a, d);
    rounding::lemma_scale_bounds(b, d);
    lemma_pow2_pos(ea);
    lemma_pow2_pos(eb);
    if eb < ea {
        if 53 + eb < 52 + ea {
            lemma_pow2_strictly_increases(53 + eb, (52 + ea) as nat);
        }
        assert(d * pow2(53 + eb) <= d * pow2((52 + ea) as nat)) by (nonlinear_arith)
            requires
                pow2(53 + eb) <= pow2((52 + ea) as nat),
        ;
        assert(false);
    }
    let pa: nat = d * pow2(ea);
    let pb: nat = d * pow2(eb);
    assert(pa > 0 && pb > 0) by (nonlinear_arith)
        requires
            pa == d * pow2(ea),
            pb == d * pow2(eb),
            d > 0,
            pow2(ea) > 0,
            pow2(eb) > 0,
    ;
    let qa: nat = a / pa;
    let qb: nat = b / pb;
    lemma_fundamental_div_mod(a as int, pa as int);
    lemma_mod_bound(a as int, pa as int);
    lemma_fundamental_div_mod(b as int, pb as int);
    lemma_mod_bound(b as int, pb as int);
    if ea == eb {
        lemma_div_is_ordered(a as int, b as int, pa as int);
        if qa == qb {
            assert(pa * qa == pb * qb);
        }
    } else {
        lemma_pow2_adds(53, ea);
        lemma_pow2_adds(52, eb);
        assert(qa < 0x20_0000_0000_0000) by (nonlinear_arith)
            requires
                a == pa * qa + a as int % pa as int,
                0 <= a as int % pa as int,
                a < d * pow2(53 + ea),
                pow2(53 + ea) == 0x20_0000_0000_0000 * pow2(ea),
                pa == d * pow2(ea),
        ;
        assert(qb >= 0x10_0000_0000_0000) by (nonlinear_arith)
            requires
                b == pb * qb + b as int % pb as int,
                (b as int % pb as int) < pb,
                b >= d * pow2((52 + eb) as nat),
                pow2((52 + eb) as nat) == 0x10_0000_0000_0000 * pow2(eb),
                pb == d * pow2(eb),
        ;
    }
}

proof fn lemma_pack_equal(n: nat, d: nat, m: nat, c: nat)
    requires
        d > 0,
        c > 0,
        n * c == m * d,
    ensures
        rounding::pack(n, d) == rounding::pack(m, c),
{
    rounding::lemma_pack_common(n, d, c);
    rounding::lemma_pack_common(m, c, d);
    assert(d * c == c * d) by (nonlinear_arith);
}

/// A finite magnitude as a significand and the power of two it counts.
fn split(magnitude: u64) -> (parts: (u64, i32))
    requires
        magnitude < INFINITE,
    ensures
        parts.0 < 0x20_0000_0000_0000,
        0 <= parts.1 <= 2045,
        parts.1 > 0 ==> parts.0 >= HIDDEN,
        units(magnitude as int) == parts.0 * pow2(parts.1 as nat),
        parts.0 == 0 <==> magnitude == 0,
        parts.1 == (if magnitude / HIDDEN == 0 { 0 } else { magnitude / HIDDEN - 1 }),
{
    let exponent: u64 = magnitude / HIDDEN;
    let fraction: u64 = magnitude % HIDDEN;
    proof {
        lemma2_to64();
        assert(fraction * 1 == fraction);
    }
    if exponent == 0 {
        (fraction, 0)
    } else {
        (fraction + HIDDEN, (exponent - 1) as i32)
    }
}

/// `a * 2^t + b` and `a * 2^t - b`, with `b` cut at the `t`-th bit.
proof fn lemma_aligned(a: nat, b: nat, cut: nat, t: nat)
    requires
        a % 2 == 0,
        a > cut,
        rounding::near(cut, b, pow2(t)),
    ensures
        rounding::near(a + cut, a * pow2(t) + b, pow2(t)),
        b < a * pow2(t),
        rounding::near((a - cut) as nat, (a * pow2(t) - b) as nat, pow2(t)),
{
    let d: nat = pow2(t);
    lemma_pow2_pos(t);
    assert((a + cut) * d == a * d + cut * d) by (nonlinear_arith);
    assert((a - cut) * d == a * d - cut * d) by (nonlinear_arith);
    assert((cut - 1) * d == cut * d - d && (cut + 1) * d == cut * d + d) by (nonlinear_arith);
    assert((a + cut - 1) * d == a * d + cut * d - d && (a + cut + 1) * d == a * d + cut * d + d)
        by (nonlinear_arith);
    assert((a - cut - 1) * d == a * d - cut * d - d && (a - cut + 1) * d == a * d - cut * d + d)
        by (nonlinear_arith);
    assert((cut + 1) * d <= a * d) by (nonlinear_arith)
        requires
            cut + 1 <= a,
    ;
}

/// A significand cut at the `t`-th bit, odd if anything was cut off.
fn cut(m: u64, t: u32) -> (w: u64)
    requires
        t > 0,
        m < 0x20_0000_0000_0000,
    ensures
        rounding::near(w as nat, m as nat, pow2(t as nat)),
        w <= m,
{
    proof {
        lemma2_to64();
        lemma2_to64_rest();
        lemma_pow2_pos(t as nat);
    }
    if m == 0 {
        0
    } else if t >= 64 {
        proof {
            if t > 64 {
                lemma_pow2_strictly_increases(64, t as nat);
            }
        }
        1
    } else {
        let w: u64 = m >> (t as u64);
        proof {
            let d: nat = pow2(t as nat);
            lemma_u64_shr_is_div(m, t as u64);
            lemma_fundamental_div_mod(m as int, d as int);
            lemma_mod_bound(m as int, d as int);
            lemma_pow2_unfold(t as nat);
            lemma_pow2_pos((t - 1) as nat);
            assert(w * d == d * w) by (nonlinear_arith);
            assert(2 * w <= w * d) by (nonlinear_arith)
                requires
                    d >= 2,
            ;
            assert((w - 1) * d == w * d - d && (w + 1) * d == w * d + d && (w + 2) * d == w * d + 2
                * d) by (nonlinear_arith);
            assert((w + 1 - 1) * d == w * d && (w + 1 + 1) * d == (w + 2) * d) by (nonlinear_arith);
            assert((w << (t as u64)) <= m && ((w << (t as u64)) == m <==> w * d == m)) by {
                lemma_shifted_back(m, t as u64);
            }
        }
        if w % 2 == 1 || (w << (t as u64)) == m {
            w
        } else {
            proof {
                if m == 1 {
                    assert(1u64 >> (t as u64) == 0) by (bit_vector)
                        requires
                            0 < t < 64,
                    ;
                }
            }
            w + 1
        }
    }
}

proof fn lemma_shifted_back(m: u64, t: u64)
    requires
        0 < t < 64,
    ensures
        ((m >> t) << t) <= m,
        ((m >> t) << t) == (m >> t) * pow2(t as nat),
{
    let w: u64 = m >> t;
    let d: nat = pow2(t as nat);
    lemma_u64_shr_is_div(m, t);
    lemma_pow2_pos(t as nat);
    lemma_fundamental_div_mod(m as int, d as int);
    lemma_mod_bound(m as int, d as int);
    assert(w * d <= m) by (nonlinear_arith)
        requires
            m == d * w + m as int % d as int,
            0 <= m as int % d as int,
    ;
    lemma_u64_shl_is_mul(w, t);
}

/// The bits of the sum, or of the difference, of two magnitudes.
fn combined(a: u64, b: u64, together: bool) -> (bits: u64)
    requires
        a < INFINITE,
        b <= a,
        a > 0,
        !together ==> b < a,
    ensures
        bits <= INFINITE,
        together ==> bits == rounding::pack(units(a as int) + units(b as int), 1),
        !together ==> units(b as int) < units(a as int) && bits == rounding::pack(
            (units(a as int) - units(b as int)) as nat,
            1,
        ),
{
    let (ma, ea): (u64, i32) = split(a);
    let (mb, eb): (u64, i32) = split(b);
    let ghost ua: nat = units(a as int);
    let ghost ub: nat = units(b as int);
    proof {
        lemma2_to64();
        lemma2_to64_rest();
        assert(a / HIDDEN >= b / HIDDEN) by {
            lemma_div_is_ordered(b as int, a as int, HIDDEN as int);
        }
        if b < a {
            lemma_units_increase(b as int, a as int);
        }
        lemma_units_increase(0, a as int);
    }
    let diff: u32 = (ea - eb) as u32;
    if diff <= 70 {
        let wide: u128 = shifted(ma, diff);
        proof {
            let c: nat = pow2(eb as nat);
            lemma_pow2_adds(diff as nat, eb as nat);
            assert(ma * pow2(ea as nat) == wide * c) by (nonlinear_arith)
                requires
                    wide == ma * pow2(diff as nat),
                    pow2(diff as nat) * c == pow2(ea as nat),
            ;
            assert((wide + mb) * c == wide * c + mb * c && (wide - mb) * c == wide * c - mb * c)
                by (nonlinear_arith);
            lemma_pow2_pos(eb as nat);
            assert(wide >= mb && (ub < ua ==> wide > mb)) by (nonlinear_arith)
                requires
                    ua == wide * c,
                    ub == mb * c,
                    ub <= ua,
                    c > 0,
            ;
            assert(wide > 0) by (nonlinear_arith)
                requires
                    ua == wide * c,
                    ua > 0,
            ;
        }
        if together {
            rounding::round(wide + mb as u128, eb)
        } else {
            rounding::round(wide - mb as u128, eb)
        }
    } else {
        let t: u32 = diff - 70;
        let wide: u128 = shifted(ma, 70);
        let small: u64 = cut(mb, t);
        proof {
            let d: nat = pow2(t as nat);
            let c: nat = pow2(eb as nat);
            let k: int = eb + t;
            lemma_pow2_adds(6, 64);
            assert(pow2(6) == 64 && pow2(70) == 64 * 0x1_0000_0000_0000_0000);
            assert(wide >= 0x10_0000_0000_0000 * pow2(70)) by (nonlinear_arith)
                requires
                    wide == ma * pow2(70),
                    ma >= 0x10_0000_0000_0000,
            ;
            assert(wide % 2 == 0) by {
                assert(wide == 2 * (ma * (32 * 0x1_0000_0000_0000_0000))) by (nonlinear_arith)
                    requires
                        wide == ma * pow2(70),
                        pow2(70) == 64 * 0x1_0000_0000_0000_0000,
                ;
            }
            lemma_aligned(wide as nat, mb as nat, small as nat, t as nat);
            lemma_pow2_adds(70, t as nat);
            lemma_pow2_adds(diff as nat, eb as nat);
            lemma_pow2_adds(t as nat, eb as nat);
            lemma_pow2_pos(t as nat);
            let up: nat = wide as nat * d + mb as nat;
            let down: nat = (wide as nat * d - mb as nat) as nat;
            assert(ua == (wide * d) * c) by (nonlinear_arith)
                requires
                    ua == ma * pow2(ea as nat),
                    wide == ma * pow2(70),
                    pow2(70) * d == pow2(diff as nat),
                    pow2(diff as nat) * c == pow2(ea as nat),
            ;
            assert(up * c == ua + ub && down * c == ua - ub) by (nonlinear_arith)
                requires
                    up == wide * d + mb,
                    down == wide * d - mb,
                    ua == (wide * d) * c,
                    ub == mb * c,
            ;
            rounding::lemma_near((wide + small) as nat, up, d, k);
            rounding::lemma_near((wide - small) as nat, down, d, k);
            rounding::lemma_pack_common(up * c, 1, d);
            rounding::lemma_pack_common(down * c, 1, d);
            assert(up * pow2(k as nat) == (up * c) * d && down * pow2(k as nat) == (down * c) * d)
                by (nonlinear_arith)
                requires
                    d * c == pow2(k as nat),
            ;
            assert(1 * d == d);
        }
        if together {
            rounding::round(wide + small as u128, eb + t as i32)
        } else {
            rounding::round(wide - small as u128, eb + t as i32)
        }
    }
}

/// A significand moved up by at most 70 bits.
fn shifted(m: u64, t: u32) -> (w: u128)
    requires
        m < 0x20_0000_0000_0000,
        t <= 70,
    ensures
        w == m * pow2(t as nat),
        w < 0x800_0000_0000_0000_0000_0000_0000_0000,
{
    proof {
        rounding::lemma_one_shl(t as u128);
        lemma2_to64();
        lemma2_to64_rest();
        lemma_pow2_adds(6, 64);
        if t < 70 {
            lemma_pow2_strictly_increases(t as nat, 70);
        }
        assert(m * pow2(t as nat) < 0x800_0000_0000_0000_0000_0000_0000_0000) by (nonlinear_arith)
            requires
                m < 0x20_0000_0000_0000,
                pow2(t as nat) <= 64 * 0x1_0000_0000_0000_0000,
        ;
    }
    m as u128 * (1u128 << (t as u128))
}

/// The bits of the product of two magnitudes.
fn product(a: u64, b: u64) -> (bits: u64)
    requires
        a < INFINITE,
        b < INFINITE,
    ensures
        bits <= INFINITE,
        bits == rounding::pack(units(a as int) * units(b as int), one_unit()),
{
    let (ma, ea): (u64, i32) = split(a);
    let (mb, eb): (u64, i32) = split(b);
    let ghost ua: nat = units(a as int);
    let ghost ub: nat = units(b as int);
    proof {
        lemma_pow2_pos(1074);
    }
    if ma == 0 || mb == 0 {
        proof {
            assert(ua * ub == 0) by (nonlinear_arith)
                requires
                    ua == ma * pow2(ea as nat),
                    ub == mb * pow2(eb as nat),
                    ma == 0 || mb == 0,
            ;
            lemma_pack_zero(one_unit());
        }
        return 0;
    }
    proof {
        assert(0 < ma * mb < 0x4000_0000_0000_0000_0000_0000_0000_0000) by (nonlinear_arith)
            requires
                0 < ma < 0x20_0000_0000_0000,
                0 < mb < 0x20_0000_0000_0000,
        ;
        let w: nat = ma as nat * mb as nat;
        lemma_pow2_adds(ea as nat, eb as nat);
        assert(ua * ub == w * pow2((ea + eb) as nat)) by (nonlinear_arith)
            requires
                ua == ma * pow2(ea as nat),
                ub == mb * pow2(eb as nat),
                w == ma * mb,
                pow2(ea as nat) * pow2(eb as nat) == pow2((ea + eb) as nat),
        ;
        lemma_pack_scaled(ua * ub, one_unit(), w, 1, (ea + eb) as nat, 1074);
    }
    rounding::round(ma as u128 * mb as u128, ea + eb - 1074)
}

pub(crate) proof fn lemma_pack_zero(d: nat)
    requires
        d > 0,
    ensures
        rounding::pack(0, d) == 0,
{
    lemma2_to64();
    lemma2_to64_rest();
    assert(d * pow2(53) > 0) by (nonlinear_arith)
        requires
            d > 0,
            pow2(53) > 0,
    ;
    rounding::lemma_scale(0, d, 0);
    assert(d * pow2(0) == d) by (nonlinear_arith)
        requires
            pow2(0) == 1,
    ;
    assert(0 * d == 0 && (0 + 1) * d == d && (2 * 0 + 1) * d == d) by (nonlinear_arith);
    rounding::lemma_half_even(0, d, 0);
}

/// A fraction whose two terms carry powers of two, as [`rounding::pack_at`]
/// takes it.
proof fn lemma_pack_scaled(n: nat, d: nat, m: nat, c: nat, up: nat, down: nat)
    requires
        c > 0,
        n == m * pow2(up),
        d == c * pow2(down),
    ensures
        rounding::pack(n, d) == rounding::pack_at(m, c, up - down),
{
    let k: int = up - down;
    lemma_pow2_pos(down);
    assert(d > 0) by (nonlinear_arith)
        requires
            d == c * pow2(down),
            c > 0,
            pow2(down) > 0,
    ;
    if k >= 0 {
        lemma_pow2_adds(k as nat, down);
        assert(n * c == (m * pow2(k as nat)) * d) by (nonlinear_arith)
            requires
                n == m * pow2(up),
                d == c * pow2(down),
                pow2(k as nat) * pow2(down) == pow2(up),
        ;
        lemma_pack_equal(n, d, m * pow2(k as nat), c);
    } else {
        let b: nat = (-k) as nat;
        lemma_pow2_adds(b, up);
        lemma_pow2_pos(b);
        assert(n * (c * pow2(b)) == m * d) by (nonlinear_arith)
            requires
                n == m * pow2(up),
                d == c * pow2(down),
                pow2(b) * pow2(up) == pow2(down),
        ;
        assert(c * pow2(b) > 0) by (nonlinear_arith)
            requires
                c > 0,
                pow2(b) > 0,
        ;
        lemma_pack_equal(n, d, m, c * pow2(b));
    }
}

/// The bits of the quotient of two magnitudes.
fn quotient(a: u64, b: u64) -> (bits: u64)
    requires
        a < INFINITE,
        0 < b < INFINITE,
    ensures
        bits <= INFINITE,
        bits == rounding::pack(units(a as int) * one_unit(), units(b as int)),
{
    let (ma, ea): (u64, i32) = split(a);
    let (mb, eb): (u64, i32) = split(b);
    let ghost ua: nat = units(a as int);
    let ghost ub: nat = units(b as int);
    proof {
        lemma_units_increase(0, b as int);
        lemma2_to64();
        lemma2_to64_rest();
    }
    if ma == 0 {
        proof {
            assert(ua * one_unit() == 0) by (nonlinear_arith)
                requires
                    ua == ma * pow2(ea as nat),
                    ma == 0,
            ;
            lemma_pack_zero(ub);
        }
        return 0;
    }
    let n: u32 = rounding::width(ma as u128);
    proof {
        if n > 53 {
            if n > 54 {
                lemma_pow2_strictly_increases(53, (n - 1) as nat);
            }
            assert(false);
        }
    }
    let t: u32 = 125 - n;
    proof {
        rounding::lemma_one_shl(t as u128);
        lemma_pow2_adds(n as nat, t as nat);
        lemma_pow2_adds((n - 1) as nat, t as nat);
        lemma_pow2_adds(61, 64);
        lemma_pow2_adds(60, 64);
        lemma_pow2_pos(t as nat);
        assert(pow2(124) <= ma * pow2(t as nat) < pow2(125)) by (nonlinear_arith)
            requires
                pow2((n - 1) as nat) <= ma < pow2(n as nat),
                pow2(n as nat) * pow2(t as nat) == pow2(125),
                pow2((n - 1) as nat) * pow2(t as nat) == pow2(124),
                pow2(t as nat) > 0,
        ;
    }
    let top: u128 = ma as u128 * (1u128 << (t as u128));
    let q: u128 = top / mb as u128;
    let exact: bool = top % mb as u128 == 0;
    let w: u128 = if exact || q % 2 == 1 { q } else { q + 1 };
    proof {
        let d: nat = mb as nat;
        lemma_fundamental_div_mod(top as int, d as int);
        lemma_mod_bound(top as int, d as int);
        assert(q * d == d * q) by (nonlinear_arith);
        assert((q - 1) * d == q * d - d && (q + 1) * d == q * d + d && (q + 2) * d == q * d + 2 * d)
            by (nonlinear_arith);
        assert((q + 1 - 1) * d == q * d && (q + 1 + 1) * d == (q + 2) * d) by (nonlinear_arith);
        assert(rounding::near(w as nat, top as nat, d));
        assert(q >= 0x80_0000_0000_0000) by (nonlinear_arith)
            requires
                top == d * q + top as int % d as int,
                (top as int % d as int) < d,
                d < 0x20_0000_0000_0000,
                top >= 0x1000_0000_0000_0000 * 0x1_0000_0000_0000_0000,
        ;
        assert(q <= top) by (nonlinear_arith)
            requires
                top == d * q + top as int % d as int,
                0 <= top as int % d as int,
                d > 0,
                q >= 0,
        ;
        let k: int = ea + 1074 - (eb + t);
        rounding::lemma_near(w as nat, top as nat, d, k);
        lemma_pow2_adds(ea as nat, 1074);
        lemma_pow2_adds(eb as nat, t as nat);
        let c: nat = pow2(t as nat);
        let den: nat = d * pow2((eb + t) as nat);
        assert((ua * one_unit()) * c == top * pow2((ea + 1074) as nat)) by (nonlinear_arith)
            requires
                ua == ma * pow2(ea as nat),
                top == ma * c,
                pow2(ea as nat) * one_unit() == pow2((ea + 1074) as nat),
        ;
        assert(ub * c == den) by (nonlinear_arith)
            requires
                ub == d * pow2(eb as nat),
                den == d * pow2((eb + t) as nat),
                pow2(eb as nat) * c == pow2((eb + t) as nat),
        ;
        rounding::lemma_pack_common(ua * one_unit(), ub, c);
        lemma_pack_scaled(
            (ua * one_unit()) * c,
            den,
            top as nat,
            d,
            (ea + 1074) as nat,
            (eb + t) as nat,
        );
    }
    rounding::round(w, ea + 1074 - (eb + t as i32))
}

/// The bits of a magnitude rounded down, and up, to a whole number.
fn wholes(a: u64) -> (r: (u64, u64))
    requires
        a < INFINITE,
    ensures
        r.0 <= INFINITE,
        r.1 <= INFINITE,
        ({
            let whole = units(a as int) / one_unit();
            &&& r.0 == rounding::pack(whole * one_unit(), 1)
            &&& r.1 == if units(a as int) % one_unit() != 0 {
                rounding::pack((whole + 1) * one_unit(), 1)
            } else {
                rounding::pack(whole * one_unit(), 1)
            }
        }),
{
    let (m, e): (u64, i32) = split(a);
    let ghost u: nat = units(a as int);
    proof {
        lemma2_to64();
        lemma2_to64_rest();
        lemma_pow2_pos(1074);
    }
    if e >= 1074 {
        proof {
            let c: nat = pow2((e - 1074) as nat);
            lemma_pow2_adds((e - 1074) as nat, 1074);
            assert(u == (m * c) * one_unit()) by (nonlinear_arith)
                requires
                    u == m * pow2(e as nat),
                    c * one_unit() == pow2(e as nat),
            ;
            lemma_fundamental_div_mod_converse(
                u as int,
                one_unit() as int,
                (m * c) as int,
                0,
            );
            lemma_pack_units(a as int);
        }
        return (a, a);
    }
    let t: u32 = (1074 - e) as u32;
    let ghost c: nat = pow2(e as nat);
    let ghost d: nat = pow2(t as nat);
    proof {
        lemma_pow2_adds(e as nat, t as nat);
        lemma_pow2_pos(e as nat);
        lemma_pow2_pos(t as nat);
    }
    let whole: u64 = if t >= 64 { 0 } else { m >> (t as u64) };
    let ghost rest: int = m - whole * d;
    proof {
        if t >= 64 {
            if t > 64 {
                lemma_pow2_strictly_increases(64, t as nat);
            }
            assert(whole * d == 0);
        } else {
            lemma_u64_shr_is_div(m, t as u64);
            lemma_fundamental_div_mod(m as int, d as int);
            lemma_mod_bound(m as int, d as int);
            assert(whole * d == d * whole) by (nonlinear_arith);
            lemma_div_nonincreasing(m as int, d as int);
        }
        assert(0 <= rest < d);
        assert(u == whole * one_unit() + rest * c && 0 <= rest * c < one_unit() && (rest == 0 <==>
            rest * c == 0)) by (nonlinear_arith)
            requires
                u == m * c,
                one_unit() == c * d,
                rest == m - whole * d,
                0 <= rest < d,
                c > 0,
        ;
        lemma_fundamental_div_mod_converse(u as int, one_unit() as int, whole as int, rest * c);
        assert(whole <= m);
        lemma_pack_zero(1);
        assert(0 * one_unit() == 0);
    }
    let exact: bool = t < 64 && (whole << (t as u64)) == m || m == 0;
    proof {
        if t < 64 {
            lemma_shifted_back(m, t as u64);
        }
        assert(exact <==> rest == 0) by {
            if t >= 64 {
                assert(rest == m);
            }
        }
    }
    let down: u64 = if whole == 0 { 0 } else { rounding::round(whole as u128, 1074) };
    let up: u64 = if exact { down } else { rounding::round(whole as u128 + 1, 1074) };
    (down, up)
}

/// A positive, finite number's bits are its magnitude's.
pub proof fn lemma_positive(a: Binary64)
    requires
        Binary64::zero().less(a),
        a.is_finite(),
    ensures
        0 < a.bits < INFINITE,
        !a.negative(),
{
    assert(units(0) == 0);
    if a.negative() {
        assert(a.value() <= 0);
    }
}

/// Taking a finite step off a positive number moves its bits down if the
/// step is not negative and up if it is, unless it leaves the number as it
/// is.
pub proof fn lemma_minus_moves(a: Binary64, step: Binary64)
    requires
        Binary64::zero().less(a),
        a.is_finite(),
        Binary64::zero().less(a.minus(step)),
        a.minus(step).is_finite(),
        !a.minus(step).equals(a),
    ensures
        step.negative() ==> a.bits < a.minus(step).bits,
        !step.negative() ==> a.minus(step).bits < a.bits,
{
    reveal(Binary64::plus_spec);
    let less: Binary64 = step.negated();
    let next: Binary64 = a.plus(less);
    lemma_positive(a);
    lemma_positive(next);
    assert(less.magnitude() == step.magnitude());
    assert(less.is_finite());
    let sum: int = a.value() + less.value();
    assert(units(0) == 0);
    lemma_pack_units(a.magnitude());
    if sum > 0 {
        lemma_pack_bound(sum as nat);
        assert(next.bits == rounding::pack(sum as nat, 1));
        if step.negative() {
            lemma_pack_ordered(a.value() as nat, sum as nat);
        } else {
            lemma_pack_ordered(sum as nat, a.value() as nat);
        }
    } else if sum < 0 {
        lemma_pack_bound((-sum) as nat);
    }
}

/// Rounding never goes past infinity.
proof fn lemma_pack_bound(n: nat)
    ensures
        0 <= rounding::pack(n, 1) <= INFINITE,
{
}

}
