//! What the arithmetic comes to.
//!
//! What a double's bits stand for, and which double each operation gives: of
//! all the numbers there are, the one nearest to the exact result.

use vstd::arithmetic::div_mod::*;
use vstd::arithmetic::power2::*;
use vstd::prelude::*;

use crate::binary64;
use crate::binary64::{one_unit, units, Binary64};
use crate::rounding;
use crate::rounding::{HIDDEN, INFINITE};

verus! {

/// How far apart two integers are.
pub open spec fn apart(a: int, b: int) -> int {
    if a < b {
        b - a
    } else {
        a - b
    }
}

/// How large a number is, in units, whatever its sign.
pub open spec fn size(a: Binary64) -> int {
    if a.value() < 0 {
        -a.value()
    } else {
        a.value()
    }
}

/// What bits stand for: zero for none set; for each bit pattern the one
/// before it and one unit more, the unit doubling with the exponent; the
/// same below zero if the highest bit is set; and no number beyond infinity.
pub proof fn law_what_bits_stand_for(a: Binary64, b: Binary64)
    ensures
        a.bits == 0 ==> a.value() == 0,
        b.bits == a.bits + 1 && b.bits <= 0x7ff0_0000_0000_0000 ==> b.value() - a.value() == pow2(
            (if a.bits < 0x10_0000_0000_0000 {
                0int
            } else {
                a.bits as int / 0x10_0000_0000_0000 - 1
            }) as nat,
        ),
        b.bits == a.bits + 0x8000_0000_0000_0000 ==> b.value() == -a.value(),
        a.is_nan() <==> 0x7ff0_0000_0000_0000 < a.bits as int % 0x8000_0000_0000_0000,
        a.is_finite() <==> (a.bits as int % 0x8000_0000_0000_0000) < 0x7ff0_0000_0000_0000,
        a.is_infinite() <==> a.bits as int % 0x8000_0000_0000_0000 == 0x7ff0_0000_0000_0000,
        a.negative() <==> 0x8000_0000_0000_0000 <= a.bits,
        a.bits == 0x3ff0_0000_0000_0000 ==> a.value() == pow2(1074),
{
    assert(units(0) == 0);
    if b.bits == a.bits + 1 && b.bits <= INFINITE {
        let e: int = a.bits as int / HIDDEN as int;
        let f: int = a.bits as int % HIDDEN as int;
        lemma2_to64();
        if f + 1 < HIDDEN {
            lemma_fundamental_div_mod_converse(b.bits as int, HIDDEN as int, e, f + 1);
            if e > 0 {
                let p: int = pow2((e - 1) as nat) as int;
                assert((f + 1 + HIDDEN) * p == (f + HIDDEN) * p + p) by (nonlinear_arith);
                assert((f + HIDDEN) * p >= 0) by (nonlinear_arith)
                    requires
                        f >= 0,
                        p >= 0,
                ;
            }
        } else {
            lemma_fundamental_div_mod_converse(b.bits as int, HIDDEN as int, e + 1, 0);
            if e > 0 {
                let p: int = pow2((e - 1) as nat) as int;
                lemma_pow2_unfold(e as nat);
                assert(HIDDEN * (2 * p) == (HIDDEN - 1 + HIDDEN) * p + p) by (nonlinear_arith);
                assert((HIDDEN - 1 + HIDDEN) * p >= 0) by (nonlinear_arith)
                    requires
                        p >= 0,
                        HIDDEN >= 1,
                ;
            }
        }
    }
    if a.bits == 0x3ff0_0000_0000_0000 {
        lemma_fundamental_div_mod_converse(a.bits as int, HIDDEN as int, 1023, 0);
        lemma2_to64_rest();
        lemma_pow2_adds(52, 1022);
    }
}

/// Numbers are compared by what they stand for, and what is no number
/// compares with nothing; the opposite of a double has the other sign, and
/// its magnitude none; and to subtract is to add the opposite.
pub proof fn law_numbers_compare_by_value(a: Binary64, b: Binary64)
    ensures
        a.less(b) <==> !a.is_nan() && !b.is_nan() && a.value() < b.value(),
        a.at_most(b) <==> !a.is_nan() && !b.is_nan() && a.value() <= b.value(),
        a.equals(b) <==> !a.is_nan() && !b.is_nan() && a.value() == b.value(),
        a.negated().bits == (a.bits + 0x8000_0000_0000_0000) % 0x1_0000_0000_0000_0000,
        a.abs().bits == a.bits as int % 0x8000_0000_0000_0000,
        a.minus(b) == a.plus(b.negated()),
        Binary64::zero().bits == 0,
        Binary64::nan().bits == 0x7ff8_0000_0000_0000,
{
}

/// A significand of at most 53 bits, or one more than those, at an exponent.
proof fn lemma_laid(e: nat, q: nat)
    requires
        q <= 2 * HIDDEN,
        e == 0 || HIDDEN <= q,
    ensures
        units(e * HIDDEN + q) == q * pow2(e),
{
    let m: int = e * HIDDEN + q;
    lemma2_to64();
    if q < HIDDEN {
        assert(m == q);
        assert(q * 1 == q);
    } else if q < 2 * HIDDEN {
        lemma_fundamental_div_mod_converse(m, HIDDEN as int, e as int + 1, q - HIDDEN);
        assert(q * pow2(e) >= 0) by (nonlinear_arith);
    } else {
        lemma_fundamental_div_mod_converse(m, HIDDEN as int, e as int + 2, 0);
        lemma_pow2_unfold((e + 1) as nat);
        let p: nat = pow2(e);
        assert(HIDDEN * (2 * p) == (2 * HIDDEN) * p) by (nonlinear_arith);
        assert(HIDDEN * (2 * p) >= 0) by (nonlinear_arith);
    }
}

/// What a fraction is rounded to is no further from it than any other
/// magnitude, and even if another is as near.
proof fn lemma_nearest(n: nat, d: nat, m: int)
    requires
        d > 0,
        0 <= m <= INFINITE,
    ensures
        0 <= rounding::pack(n, d) <= INFINITE,
        apart(units(rounding::pack(n, d)) as int * d, n as int) <= apart(units(m) as int * d, n as int),
        m != rounding::pack(n, d) && apart(units(rounding::pack(n, d)) as int * d, n as int) == apart(
            units(m) as int * d,
            n as int,
        ) ==> rounding::pack(n, d) % 2 == 0,
{
    lemma2_to64();
    lemma2_to64_rest();
    let r: int = rounding::pack(n, d);
    let e: nat = rounding::scale(n, d);
    let p: nat = pow2(e);
    let step: nat = d * p;
    rounding::lemma_scale_bounds(n, d);
    lemma_pow2_pos(e);
    lemma_pow2_adds(53, e);
    lemma_pow2_adds(52, e);
    assert(step > 0) by (nonlinear_arith)
        requires
            step == d * p,
            d > 0,
            p > 0,
    ;
    let q: nat = n / step;
    lemma_fundamental_div_mod(n as int, step as int);
    lemma_mod_bound(n as int, step as int);
    assert(q < 2 * HIDDEN) by (nonlinear_arith)
        requires
            n == step * q + n as int % step as int,
            0 <= n as int % step as int,
            n < d * pow2(53 + e),
            pow2(53 + e) == 2 * HIDDEN * p,
            step == d * p,
    ;
    if e > 0 {
        assert(q >= HIDDEN) by (nonlinear_arith)
            requires
                n == step * q + n as int % step as int,
                (n as int % step as int) < step,
                n >= d * pow2((52 + e) as nat),
                pow2((52 + e) as nat) == HIDDEN * p,
                step == d * p,
        ;
    }
    let low: int = e * HIDDEN + q;
    lemma_laid(e, q);
    lemma_laid(e, (q + 1) as nat);
    let below: int = units(low) as int * d;
    let above: int = units(low + 1) as int * d;
    assert(below == step * q) by (nonlinear_arith)
        requires
            below == (q * p) * d,
            step == d * p,
    ;
    assert(above == step * q + step) by (nonlinear_arith)
        requires
            above == ((q + 1) * p) * d,
            step == d * p,
    ;
    assert(low % 2 == q as int % 2);
    assert((low + 1) % 2 == (q + 1) as int % 2);
    let other: int = units(m) as int * d;
    let here: int = units(r) as int * d;
    if low >= INFINITE {
        // Beyond what can be counted, the largest magnitude is the nearest.
        if low > INFINITE {
            lemma_units_up(INFINITE as int, low);
        }
        lemma_scaled(units(INFINITE as int), units(low), d);
        if m < r {
            lemma_units_up(m, r);
            lemma_scaled(units(m), units(r), d);
            assert(other < here) by (nonlinear_arith)
                requires
                    other == units(m) * d,
                    here == units(r) * d,
                    units(m) < units(r),
                    d > 0,
            ;
        }
    } else {
        assert(r == low || r == low + 1);
        if m < low {
            lemma_units_up(m, low);
            assert(other < below) by (nonlinear_arith)
                requires
                    other == units(m) * d,
                    below == units(low) * d,
                    units(m) < units(low),
                    d > 0,
            ;
        } else if m > low + 1 {
            lemma_units_up(low + 1, m);
            assert(above < other) by (nonlinear_arith)
                requires
                    other == units(m) * d,
                    above == units(low + 1) * d,
                    units(low + 1) < units(m),
                    d > 0,
            ;
        }
    }
}

/// Magnitudes grow with their bits, however far.
proof fn lemma_units_up(a: int, b: int)
    requires
        0 <= a < b,
    ensures
        units(a) < units(b),
{
    let ea: int = a / HIDDEN as int;
    let eb: int = b / HIDDEN as int;
    let fa: int = a % HIDDEN as int;
    let fb: int = b % HIDDEN as int;
    lemma_fundamental_div_mod(a, HIDDEN as int);
    lemma_fundamental_div_mod(b, HIDDEN as int);
    if ea == eb {
        if ea > 0 {
            let p: nat = pow2((ea - 1) as nat);
            lemma_pow2_pos((ea - 1) as nat);
            assert(0 <= (fa + HIDDEN) * p < (fb + HIDDEN) * p) by (nonlinear_arith)
                requires
                    0 <= fa < fb,
                    p > 0,
            ;
        }
    } else {
        let p: nat = pow2((eb - 1) as nat);
        lemma_pow2_pos((eb - 1) as nat);
        assert((fb + HIDDEN) * p >= HIDDEN * p) by (nonlinear_arith)
            requires
                fb >= 0,
        ;
        if ea == 0 {
            assert(HIDDEN * p >= HIDDEN) by (nonlinear_arith)
                requires
                    p > 0,
            ;
        } else {
            let r: nat = pow2((ea - 1) as nat);
            lemma_pow2_pos((ea - 1) as nat);
            lemma_pow2_unfold(ea as nat);
            if ea < eb - 1 {
                lemma_pow2_strictly_increases(ea as nat, (eb - 1) as nat);
            }
            assert(0 <= (fa + HIDDEN) * r < HIDDEN * p) by (nonlinear_arith)
                requires
                    0 <= fa < HIDDEN,
                    r > 0,
                    2 * r <= p,
            ;
        }
    }
}

proof fn lemma_scaled(a: nat, b: nat, d: nat)
    requires
        a <= b,
    ensures
        a * d <= b * d,
{
    assert(a * d <= b * d) by (nonlinear_arith)
        requires
            a <= b,
    ;
}

/// A sum is, of all the numbers there are, the one nearest to the exact sum:
/// no other is nearer, and if another is as near, the sum is the even one. A
/// sum of nothing is a zero, below only if both terms are.
pub proof fn law_a_sum_is_the_nearest_number(a: Binary64, b: Binary64, c: Binary64)
    requires
        a.is_finite(),
        b.is_finite(),
        !c.is_nan(),
    ensures
        ({
            let r = a.plus(b);
            let exact = a.value() + b.value();
            &&& !r.is_nan()
            &&& apart(r.value(), exact) <= apart(c.value(), exact)
            &&& c.value() != r.value() && apart(r.value(), exact) == apart(c.value(), exact)
                ==> r.bits % 2 == 0
            &&& exact == 0 ==> r.bits == if a.negative() && b.negative() {
                0x8000_0000_0000_0000u64
            } else {
                0
            }
        }),
{
    reveal(Binary64::plus_spec);
    assert(units(0) == 0);
    let exact: int = a.value() + b.value();
    let n: nat = if exact < 0 {
        (-exact) as nat
    } else {
        exact as nat
    };
    lemma_nearest(n, 1, c.magnitude());
    lemma_nearest(n, 1, 0);
    let r: int = rounding::pack(n, 1);
    assert(units(r) * 1 == units(r) && units(c.magnitude()) * 1 == units(c.magnitude()) && units(0)
        * 1 == 0);
    if exact != 0 {
        assert(a.plus(b) == Binary64::signed(exact < 0, r));
        assert(a.plus(b).magnitude() == r && a.plus(b).negative() == (exact < 0));
    }
}

/// A product is, of all the numbers there are, the one nearest to the exact
/// product, the even one of two as near, and is below zero if just one of its
/// factors is.
pub proof fn law_a_product_is_the_nearest_number(a: Binary64, b: Binary64, c: Binary64)
    requires
        a.is_finite(),
        b.is_finite(),
        !c.is_nan(),
    ensures
        ({
            let r = a.times(b);
            let exact = size(a) * size(b);
            let one = pow2(1074) as int;
            &&& !r.is_nan()
            &&& r.negative() == (a.negative() != b.negative())
            &&& apart(size(r) * one, exact) <= apart(size(c) * one, exact)
            &&& size(c) != size(r) && apart(size(r) * one, exact) == apart(size(c) * one, exact)
                ==> r.bits % 2 == 0
        }),
{
    reveal(Binary64::times_spec);
    lemma_pow2_pos(1074);
    let n: nat = units(a.magnitude()) * units(b.magnitude());
    lemma_nearest(n, one_unit(), c.magnitude());
    let r: int = rounding::pack(n, one_unit());
    assert(a.times(b).magnitude() == r);
}

/// A quotient is, of all the numbers there are, the one nearest to the exact
/// quotient, the even one of two as near, and is below zero if just one of
/// its terms is.
pub proof fn law_a_quotient_is_the_nearest_number(a: Binary64, b: Binary64, c: Binary64)
    requires
        a.is_finite(),
        b.is_finite(),
        b.value() != 0,
        !c.is_nan(),
    ensures
        ({
            let r = a.over(b);
            let exact = size(a) * pow2(1074);
            let divisor = size(b);
            &&& !r.is_nan()
            &&& r.negative() == (a.negative() != b.negative())
            &&& apart(size(r) * divisor, exact) <= apart(size(c) * divisor, exact)
            &&& size(c) != size(r) && apart(size(r) * divisor, exact) == apart(
                size(c) * divisor,
                exact,
            ) ==> r.bits % 2 == 0
        }),
{
    reveal(Binary64::over_spec);
    assert(units(0) == 0);
    let n: nat = units(a.magnitude()) * one_unit();
    lemma_nearest(n, units(b.magnitude()), c.magnitude());
    let r: int = rounding::pack(n, units(b.magnitude()));
    assert(a.over(b).magnitude() == r);
}

/// What comes of infinities, of zero divisors and of what is no number: the
/// one NaN wherever the terms say nothing, and the infinity or the zero that
/// the terms' signs give wherever they say something.
pub proof fn law_what_comes_of_infinities(a: Binary64, b: Binary64)
    ensures
        ({
            let nan = Binary64 { bits: 0x7ff8_0000_0000_0000 };
            let missing = a.is_nan() || b.is_nan();
            let crossed = a.negative() != b.negative();
            let infinity = Binary64 {
                bits: if crossed {
                    0xfff0_0000_0000_0000
                } else {
                    0x7ff0_0000_0000_0000
                },
            };
            let zero = Binary64 {
                bits: if crossed {
                    0x8000_0000_0000_0000
                } else {
                    0
                },
            };
            &&& missing ==> a.plus(b) == nan && a.times(b) == nan && a.over(b) == nan
            &&& a.is_infinite() && b.is_infinite() && crossed ==> a.plus(b) == nan
            &&& a.is_infinite() && !b.is_nan() && !(b.is_infinite() && crossed) ==> a.plus(b) == a
            &&& b.is_infinite() && a.is_finite() ==> a.plus(b) == b
            &&& a.is_infinite() && b.value() == 0 ==> a.times(b) == nan
            &&& b.is_infinite() && a.value() == 0 ==> a.times(b) == nan
            &&& (a.is_infinite() || b.is_infinite()) && !missing && a.value() != 0 && b.value() != 0
                ==> a.times(b) == infinity
            &&& a.is_infinite() && b.is_infinite() ==> a.over(b) == nan
            &&& a.value() == 0 && b.value() == 0 ==> a.over(b) == nan
            &&& a.is_infinite() && b.is_finite() ==> a.over(b) == infinity
            &&& a.is_finite() && b.is_infinite() ==> a.over(b) == zero
            &&& a.is_finite() && a.value() != 0 && b.value() == 0 ==> a.over(b) == infinity
        }),
{
    reveal(Binary64::plus_spec);
    reveal(Binary64::times_spec);
    reveal(Binary64::over_spec);
    assert(units(0) == 0);
    if a.magnitude() > 0 {
        lemma_units_up(0, a.magnitude());
    }
    if b.magnitude() > 0 {
        lemma_units_up(0, b.magnitude());
    }
}

/// A significand of at most 53 bits has a magnitude, however often doubled.
proof fn lemma_held(w: nat, j: nat) -> (m: int)
    requires
        w <= 2 * HIDDEN,
        j <= 1074,
    ensures
        0 <= m <= INFINITE,
        units(m) == w * pow2(j),
    decreases j,
{
    if j == 0 || HIDDEN <= w {
        lemma_laid(j, w);
        j * HIDDEN + w
    } else {
        lemma_pow2_unfold(j);
        let p: nat = pow2((j - 1) as nat);
        assert((2 * w) * p == w * (2 * p)) by (nonlinear_arith);
        lemma_held((2 * w) as nat, (j - 1) as nat)
    }
}

/// So many whole ones, at most two to the power 53, are not rounded.
proof fn lemma_whole(w: nat)
    requires
        w <= 2 * HIDDEN,
    ensures
        0 <= rounding::pack(w * one_unit(), 1) <= INFINITE,
        units(rounding::pack(w * one_unit(), 1)) == w * one_unit(),
{
    let m: int = lemma_held(w, 1074);
    lemma_nearest(w * one_unit(), 1, m);
    assert(units(m) * 1 == units(m));
    assert(units(rounding::pack(w * one_unit(), 1)) * 1 == units(
        rounding::pack(w * one_unit(), 1),
    ));
}

/// A number rounded down is the greatest whole number that is not above it,
/// exactly; a zero keeps its sign, an infinity is its own, and what is no
/// number stays none.
pub proof fn law_rounding_down_is_exact(a: Binary64)
    ensures
        ({
            let r = a.floor();
            let one = pow2(1074) as int;
            &&& a.is_nan() ==> r.bits == 0x7ff8_0000_0000_0000
            &&& a.is_infinite() ==> r == a
            &&& a.is_finite() ==> {
                &&& !r.is_nan()
                &&& r.value() % one == 0
                &&& r.value() <= a.value() < r.value() + one
                &&& r.value() == 0 ==> r.negative() == a.negative()
            }
        }),
{
    reveal(Binary64::floor_spec);
    assert(units(0) == 0);
    lemma_pow2_pos(1074);
    if a.is_finite() {
        let u: nat = units(a.magnitude());
        let one: nat = one_unit();
        let whole: nat = u / one;
        lemma_fundamental_div_mod(u as int, one as int);
        lemma_mod_bound(u as int, one as int);
        let rest: int = u as int % one as int;
        assert(one * whole == whole * one) by (nonlinear_arith);
        assert((whole + 1) * one == whole * one + one) by (nonlinear_arith);
        let r: Binary64 = a.floor();
        if rest == 0 {
            binary64::lemma_pack_units(a.magnitude());
            assert(r.magnitude() == a.magnitude());
            lemma_multiple(whole as int, one as int);
            lemma_multiple(-(whole as int), one as int);
            assert(-(whole as int) * one == -(whole * one)) by (nonlinear_arith);
        } else {
            lemma_cut_is_short(a);
            lemma_whole(whole);
            lemma_whole((whole + 1) as nat);
            lemma_multiple(whole as int, one as int);
            lemma_multiple(-(whole + 1), one as int);
            assert(-(whole + 1) * one == -((whole + 1) * one)) by (nonlinear_arith);
            if a.negative() {
                assert(r.magnitude() == rounding::pack((whole + 1) * one, 1));
            } else {
                assert(r.magnitude() == rounding::pack(whole * one, 1));
            }
        }
    }
}

proof fn lemma_multiple(k: int, d: int)
    requires
        d > 0,
    ensures
        (k * d) % d == 0,
{
    lemma_fundamental_div_mod_converse(k * d, d, k, 0);
}

/// A number with a part below one is below two to the power 53.
proof fn lemma_cut_is_short(a: Binary64)
    requires
        a.is_finite(),
        units(a.magnitude()) % one_unit() != 0,
    ensures
        units(a.magnitude()) / one_unit() < 2 * HIDDEN,
{
    let u: nat = units(a.magnitude());
    let one: nat = one_unit();
    let e: int = a.magnitude() / HIDDEN as int;
    let f: int = a.magnitude() % HIDDEN as int;
    lemma_pow2_pos(1074);
    lemma_fundamental_div_mod(u as int, one as int);
    lemma_mod_bound(u as int, one as int);
    if e > 1074 {
        let k: nat = (e - 1 - 1074) as nat;
        lemma_pow2_adds(1074, k);
        let w: int = (f + HIDDEN) * pow2(k);
        assert((f + HIDDEN) * pow2((e - 1) as nat) == w * one) by (nonlinear_arith)
            requires
                pow2((e - 1) as nat) == one * pow2(k),
                w == (f + HIDDEN) * pow2(k),
        ;
        assert(w * one >= 0) by (nonlinear_arith)
            requires
                w == (f + HIDDEN) * pow2(k),
                f >= 0,
        ;
        lemma_multiple(w, one as int);
        assert(false);
    } else if e > 0 {
        if e - 1 < 1074 {
            lemma_pow2_strictly_increases((e - 1) as nat, 1074);
        }
        let p: nat = pow2((e - 1) as nat);
        lemma_pow2_pos((e - 1) as nat);
        assert(0 <= (f + HIDDEN) * p < 2 * HIDDEN * one) by (nonlinear_arith)
            requires
                0 <= f < HIDDEN,
                0 < p <= one,
        ;
        lemma_short(u, one);
    } else {
        assert(u < 2 * HIDDEN * one) by (nonlinear_arith)
            requires
                u < HIDDEN,
                one > 0,
        ;
        lemma_short(u, one);
    }
}

proof fn lemma_short(u: nat, one: nat)
    requires
        one > 0,
        u < 2 * HIDDEN * one,
    ensures
        u / one < 2 * HIDDEN,
{
    lemma_fundamental_div_mod(u as int, one as int);
    lemma_mod_bound(u as int, one as int);
    let q: int = u as int / one as int;
    assert(q < 2 * HIDDEN) by (nonlinear_arith)
        requires
            u == one * q + u as int % one as int,
            0 <= u as int % one as int,
            u < 2 * HIDDEN * one,
            one > 0,
    ;
}

}
