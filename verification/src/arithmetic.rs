//! Laws of the arithmetic the walk rests on.

use vstd::arithmetic::div_mod::*;
use vstd::arithmetic::mul::*;
use vstd::arithmetic::power2::*;
use vstd::prelude::*;

use crate::binary64::{lemma_fraction_ordered, lemma_pack_ordered, lemma_pack_units};
use crate::binary64::{lemma_pack_zero, lemma_units_increase};
use crate::binary64::{one_unit, units, Binary64, SIGN};
use crate::ledger::{live, none};
use crate::rounding;
use crate::rounding::INFINITE;

verus! {

/// Whether two doubles are the same, bit for bit, or both zero.
pub open spec fn like(a: Binary64, b: Binary64) -> bool {
    a == b || none(a) && none(b)
}

/// A double is none exactly if it is one of the zeros, and live exactly if
/// it is a number above them.
pub proof fn lemma_none(a: Binary64)
    ensures
        none(a) <==> a.is_zero(),
        live(a) <==> !a.negative() && 0 < a.magnitude() <= INFINITE,
        a.is_zero() ==> a.value() == 0,
        Binary64::zero().at_most(a) <==> !a.is_nan() && (!a.negative() || a.is_zero()),
        a.at_most(Binary64::zero()) <==> !a.is_nan() && (a.negative() || a.is_zero()),
{
    assert(units(0) == 0);
    if 0 < a.magnitude() <= INFINITE {
        lemma_units_increase(0, a.magnitude());
    }
}

/// A double is none exactly if it is the number zero, and live exactly if it
/// is a number above it.
pub proof fn lemma_sign(a: Binary64)
    ensures
        none(a) <==> !a.is_nan() && a.value() == 0,
        live(a) <==> !a.is_nan() && 0 < a.value(),
        a.at_most(Binary64::zero()) <==> !a.is_nan() && a.value() <= 0,
        a.less(Binary64::zero()) <==> !a.is_nan() && a.value() < 0,
        Binary64::zero().value() == 0,
        !Binary64::zero().is_nan(),
{
    assert(units(0) == 0);
}

/// What a sign and a magnitude make has that sign and that magnitude.
proof fn lemma_signed(negative: bool, magnitude: int)
    requires
        0 <= magnitude <= INFINITE,
    ensures
        Binary64::signed(negative, magnitude).negative() == negative,
        Binary64::signed(negative, magnitude).magnitude() == magnitude,
{
}

proof fn lemma_pack_range(n: nat, d: nat)
    ensures
        0 <= rounding::pack(n, d) <= INFINITE,
{
}

/// Doubles that are the same but for a zero's sign compare the same.
pub proof fn lemma_like_compares(a: Binary64, b: Binary64, c: Binary64)
    requires
        like(a, b),
    ensures
        a.less(c) == b.less(c),
        c.less(a) == c.less(b),
        a.at_most(c) == b.at_most(c),
        c.at_most(a) == c.at_most(b),
        none(a) == none(b),
        live(a) == live(b),
{
    lemma_none(a);
    lemma_none(b);
}

/// The sign of a zero does not outlast a sum, but in a zero.
pub proof fn lemma_like_plus(a: Binary64, b: Binary64, c: Binary64)
    requires
        like(a, b),
    ensures
        like(a.plus(c), b.plus(c)),
        like(c.plus(a), c.plus(b)),
{
    reveal(Binary64::plus_spec);
    lemma_none(a);
    lemma_none(b);
    lemma_none(c);
    lemma_none(a.plus(c));
    lemma_none(b.plus(c));
    lemma_none(c.plus(a));
    lemma_none(c.plus(b));
}

/// The sign of a zero does not outlast a difference, but in a zero.
pub proof fn lemma_like_minus(a: Binary64, b: Binary64, c: Binary64)
    requires
        like(a, b),
    ensures
        like(a.minus(c), b.minus(c)),
        like(c.minus(a), c.minus(b)),
{
    lemma_none(a);
    lemma_none(b);
    lemma_none(a.negated());
    lemma_none(b.negated());
    lemma_like_plus(a, b, c.negated());
    lemma_like_plus(a.negated(), b.negated(), c);
}

/// The sign of a zero does not outlast a product, but in a zero.
pub proof fn lemma_like_times(a: Binary64, b: Binary64, c: Binary64)
    requires
        like(a, b),
    ensures
        like(a.times(c), b.times(c)),
{
    reveal(Binary64::times_spec);
    lemma_none(a);
    lemma_none(b);
    lemma_none(a.times(c));
    lemma_none(b.times(c));
    if a != b {
        assert(units(0) == 0);
        assert(0 * units(c.magnitude()) == 0);
        lemma_pow2_pos(1074);
        lemma_pack_zero(one_unit());
    }
}

/// Nothing and nothing is nothing.
pub proof fn lemma_none_plus(a: Binary64, b: Binary64)
    requires
        none(a),
        none(b),
    ensures
        none(a.plus(b)),
        none(a.minus(b)),
{
    reveal(Binary64::plus_spec);
    lemma_none(a);
    lemma_none(b);
    lemma_none(b.negated());
    lemma_none(a.plus(b));
    lemma_none(a.minus(b));
}

/// A number keeps its value when zero is added to it.
pub proof fn lemma_plus_zero(a: Binary64)
    requires
        !a.is_nan(),
    ensures
        a.plus(Binary64::zero()).equals(a),
        !none(a) ==> a.plus(Binary64::zero()) == a,
{
    reveal(Binary64::plus_spec);
    lemma_none(a);
    lemma_none(Binary64::zero());
    lemma_none(a.plus(Binary64::zero()));
    if a.is_finite() && !none(a) {
        lemma_units_increase(0, a.magnitude());
        lemma_pack_units(a.magnitude());
    }
}

/// A number that is not negative plus one above zero is not negative.
pub proof fn lemma_sum_not_negative(a: Binary64, b: Binary64)
    requires
        Binary64::zero().at_most(a),
        live(b),
    ensures
        Binary64::zero().at_most(a.plus(b)),
{
    reveal(Binary64::plus_spec);
    lemma_none(a);
    lemma_none(b);
    lemma_none(a.plus(b));
    let sum: int = a.value() + b.value();
    if sum > 0 {
        lemma_pack_range(sum as nat, 1);
        lemma_signed(false, rounding::pack(sum as nat, 1));
    }
}

/// The ratio of two different numbers above zero is not negative.
pub proof fn lemma_ratio_not_negative(a: Binary64, b: Binary64)
    requires
        live(a),
        live(b),
        !a.equals(b),
    ensures
        Binary64::zero().at_most(a.over(b)),
{
    reveal(Binary64::over_spec);
    lemma_none(a);
    lemma_none(b);
    lemma_none(a.over(b));
    if a.is_finite() && b.is_finite() {
        let n: nat = units(a.magnitude()) * one_unit();
        lemma_pack_range(n, units(b.magnitude()));
        lemma_signed(false, rounding::pack(n, units(b.magnitude())));
    }
}

/// A number above zero times one that is not negative is not negative,
/// unless it is no number.
pub proof fn lemma_product_not_negative(a: Binary64, b: Binary64)
    requires
        live(a),
        Binary64::zero().at_most(b),
    ensures
        a.times(b).is_nan() || Binary64::zero().at_most(a.times(b)),
{
    reveal(Binary64::times_spec);
    lemma_none(a);
    lemma_none(b);
    lemma_none(a.times(b));
    let n: nat = units(a.magnitude()) * units(b.magnitude());
    lemma_pack_range(n, one_unit());
    lemma_signed(b.negative(), rounding::pack(n, one_unit()));
    if b.negative() && a.is_finite() {
        assert(units(0) == 0);
        lemma_mul_by_zero_is_zero(units(a.magnitude()) as int);
        lemma_pow2_pos(1074);
        lemma_pack_zero(one_unit());
    }
}

/// Taking away what is not negative never leaves more.
pub proof fn lemma_minus_at_most(a: Binary64, b: Binary64)
    requires
        Binary64::zero().at_most(b),
        !a.is_nan(),
        !a.minus(b).is_nan(),
    ensures
        a.minus(b).at_most(a),
{
    reveal(Binary64::plus_spec);
    let c: Binary64 = b.negated();
    let d: Binary64 = a.minus(b);
    lemma_none(a);
    lemma_none(b);
    lemma_none(c);
    lemma_none(d);
    assert(units(0) == 0);
    if a.is_finite() && c.is_finite() {
        let sum: int = a.value() + c.value();
        lemma_pack_units(a.magnitude());
        if sum > 0 {
            lemma_pack_range(sum as nat, 1);
            lemma_signed(false, rounding::pack(sum as nat, 1));
            lemma_pack_ordered(sum as nat, a.value() as nat);
            if d.magnitude() < a.magnitude() {
                lemma_units_increase(d.magnitude(), a.magnitude());
            }
        } else if sum < 0 {
            lemma_pack_range((-sum) as nat, 1);
            lemma_signed(true, rounding::pack((-sum) as nat, 1));
            if a.value() < 0 {
                lemma_pack_ordered((-a.value()) as nat, (-sum) as nat);
                if a.magnitude() < d.magnitude() {
                    lemma_units_increase(a.magnitude(), d.magnitude());
                }
            }
        }
    } else if a.is_finite() {
        lemma_units_increase(a.magnitude(), INFINITE as int);
    }
}

/// Taking away no more than there is leaves nothing negative.
pub proof fn lemma_minus_not_negative(a: Binary64, b: Binary64)
    requires
        b.at_most(a),
        !a.minus(b).is_nan(),
    ensures
        Binary64::zero().at_most(a.minus(b)),
{
    reveal(Binary64::plus_spec);
    let c: Binary64 = b.negated();
    let d: Binary64 = a.minus(b);
    lemma_none(a);
    lemma_none(b);
    lemma_none(c);
    lemma_none(d);
    assert(units(0) == 0);
    if a.is_finite() && c.is_finite() {
        let sum: int = a.value() + c.value();
        if sum > 0 {
            lemma_pack_range(sum as nat, 1);
            lemma_signed(false, rounding::pack(sum as nat, 1));
        }
    } else if a.is_finite() {
        lemma_units_increase(a.magnitude(), INFINITE as int);
    } else if b.is_finite() {
        lemma_units_increase(b.magnitude(), INFINITE as int);
    }
}

/// Rounding down to a whole number never goes up.
pub proof fn lemma_floor_at_most(a: Binary64)
    requires
        !a.is_nan(),
    ensures
        a.floor().at_most(a),
{
    reveal(Binary64::floor_spec);
    let d: Binary64 = a.floor();
    lemma_none(a);
    lemma_none(d);
    assert(units(0) == 0);
    if a.is_finite() {
        let u: nat = units(a.magnitude());
        let one: nat = one_unit();
        let whole: nat = u / one;
        lemma_pow2_pos(1074);
        lemma_fundamental_div_mod(u as int, one as int);
        lemma_mod_bound(u as int, one as int);
        lemma_pack_units(a.magnitude());
        assert(whole * one <= u && u < (whole + 1) * one) by (nonlinear_arith)
            requires
                u == one * whole + u as int % one as int,
                0 <= u as int % one as int,
                (u as int % one as int) < one,
        ;
        if a.negative() && u % one != 0 {
            lemma_pack_range((whole + 1) * one, 1);
            lemma_signed(true, rounding::pack((whole + 1) * one, 1));
            lemma_pack_ordered(u, (whole + 1) * one);
            if a.magnitude() < d.magnitude() {
                lemma_units_increase(a.magnitude(), d.magnitude());
            }
        } else {
            lemma_pack_range(whole * one, 1);
            lemma_signed(a.negative(), rounding::pack(whole * one, 1));
            lemma_pack_ordered(whole * one, u);
            if a.negative() {
                assert(whole * one == u) by (nonlinear_arith)
                    requires
                        u == one * whole + u as int % one as int,
                        u as int % one as int == 0,
                ;
            } else if d.magnitude() < a.magnitude() {
                lemma_units_increase(d.magnitude(), a.magnitude());
            }
        }
    }
}

/// Nothing times a finite number is nothing.
pub proof fn lemma_zero_times(a: Binary64)
    requires
        a.is_finite(),
    ensures
        none(Binary64::zero().times(a)),
{
    reveal(Binary64::times_spec);
    assert(units(0) == 0);
    assert(0 * units(a.magnitude()) == 0);
    lemma_pow2_pos(1074);
    lemma_pack_zero(one_unit());
    lemma_signed(a.negative(), 0);
    lemma_none(Binary64::zero().times(a));
}

/// Numbers with no sign compare as their magnitudes do.
pub proof fn lemma_magnitudes(a: Binary64, b: Binary64)
    requires
        !a.is_nan(),
        !b.is_nan(),
        !a.negative(),
        !b.negative(),
    ensures
        a.at_most(b) <==> a.magnitude() <= b.magnitude(),
        a.less(b) <==> a.magnitude() < b.magnitude(),
{
    if a.magnitude() < b.magnitude() {
        lemma_units_increase(a.magnitude(), b.magnitude());
    } else if b.magnitude() < a.magnitude() {
        lemma_units_increase(b.magnitude(), a.magnitude());
    }
}

/// Numbers that are not negative have magnitudes in their order.
pub proof fn lemma_magnitudes_ordered(a: Binary64, b: Binary64)
    requires
        Binary64::zero().at_most(a),
        a.at_most(b),
    ensures
        a.magnitude() <= b.magnitude(),
{
    lemma_none(a);
    lemma_none(b);
    if b.magnitude() < a.magnitude() {
        lemma_units_increase(b.magnitude(), a.magnitude());
    }
}

/// A larger factor makes a product no smaller.
pub proof fn lemma_times_ordered(a: Binary64, b: Binary64, c: Binary64)
    requires
        a.magnitude() <= b.magnitude() <= INFINITE,
        c.magnitude() <= INFINITE,
        !a.times(c).is_nan(),
        !b.times(c).is_nan(),
    ensures
        a.times(c).magnitude() <= b.times(c).magnitude(),
        a.times(c).negative() == (a.negative() != c.negative()),
{
    reveal(Binary64::times_spec);
    if a.magnitude() < b.magnitude() {
        lemma_units_increase(a.magnitude(), b.magnitude());
    }
    lemma_pow2_pos(1074);
    let n: nat = units(a.magnitude()) * units(c.magnitude());
    let m: nat = units(b.magnitude()) * units(c.magnitude());
    assert(n <= m) by (nonlinear_arith)
        requires
            n == units(a.magnitude()) * units(c.magnitude()),
            m == units(b.magnitude()) * units(c.magnitude()),
            units(a.magnitude()) <= units(b.magnitude()),
    ;
    lemma_fraction_ordered(n, m, one_unit());
    lemma_pack_range(n, one_unit());
    lemma_pack_range(m, one_unit());
    lemma_signed(a.negative() != c.negative(), rounding::pack(n, one_unit()));
    lemma_signed(b.negative() != c.negative(), rounding::pack(m, one_unit()));
}

/// A larger dividend makes a quotient no smaller.
pub proof fn lemma_over_ordered(a: Binary64, b: Binary64, c: Binary64)
    requires
        a.magnitude() <= b.magnitude() <= INFINITE,
        c.magnitude() <= INFINITE,
        !a.over(c).is_nan(),
        !b.over(c).is_nan(),
    ensures
        a.over(c).magnitude() <= b.over(c).magnitude(),
        a.over(c).negative() == (a.negative() != c.negative()),
{
    reveal(Binary64::over_spec);
    if a.magnitude() < b.magnitude() {
        lemma_units_increase(a.magnitude(), b.magnitude());
    }
    if c.is_finite() && !c.is_zero() {
        assert(units(0) == 0);
        lemma_units_increase(0, c.magnitude());
        let d: nat = units(c.magnitude());
        let n: nat = units(a.magnitude()) * one_unit();
        let m: nat = units(b.magnitude()) * one_unit();
        assert(n <= m) by (nonlinear_arith)
            requires
                n == units(a.magnitude()) * one_unit(),
                m == units(b.magnitude()) * one_unit(),
                units(a.magnitude()) <= units(b.magnitude()),
        ;
        lemma_fraction_ordered(n, m, d);
        lemma_pack_range(n, d);
        lemma_pack_range(m, d);
        lemma_signed(a.negative() != c.negative(), rounding::pack(n, d));
        lemma_signed(b.negative() != c.negative(), rounding::pack(m, d));
    }
}

/// Rounding down keeps the order of numbers with no sign.
pub proof fn lemma_floor_ordered(a: Binary64, b: Binary64)
    requires
        !a.negative(),
        !b.negative(),
        a.magnitude() <= b.magnitude() <= INFINITE,
    ensures
        a.floor().magnitude() <= b.floor().magnitude() <= INFINITE,
        !a.floor().negative(),
        !b.floor().negative(),
{
    reveal(Binary64::floor_spec);
    if a.magnitude() < b.magnitude() {
        lemma_units_increase(a.magnitude(), b.magnitude());
    }
    lemma_pow2_pos(1074);
    let one: nat = one_unit();
    let n: nat = units(a.magnitude()) / one;
    let m: nat = units(b.magnitude()) / one;
    lemma_div_is_ordered(
        units(a.magnitude()) as int,
        units(b.magnitude()) as int,
        one as int,
    );
    assert(n * one <= m * one) by (nonlinear_arith)
        requires
            n <= m,
    ;
    lemma_pack_ordered(n * one, m * one);
    lemma_pack_range(n * one, 1);
    lemma_pack_range(m * one, 1);
    lemma_signed(false, rounding::pack(n * one, 1));
    lemma_signed(false, rounding::pack(m * one, 1));
}

/// A larger summand makes a sum no smaller.
pub proof fn lemma_plus_ordered(a: Binary64, b: Binary64, c: Binary64)
    requires
        a.at_most(b),
        !a.plus(c).is_nan(),
        !b.plus(c).is_nan(),
    ensures
        a.plus(c).at_most(b.plus(c)),
{
    reveal(Binary64::plus_spec);
    let x: Binary64 = a.plus(c);
    let y: Binary64 = b.plus(c);
    lemma_none(a);
    lemma_none(b);
    lemma_none(c);
    lemma_none(x);
    lemma_none(y);
    assert(units(0) == 0);
    if a.is_finite() && b.is_finite() && c.is_finite() {
        lemma_rounded_ordered(a.value() + c.value(), b.value() + c.value());
        lemma_rounded_sum(a, c);
        lemma_rounded_sum(b, c);
    } else {
        lemma_beyond(a);
        lemma_beyond(b);
        lemma_beyond(c);
        lemma_beyond(x);
        lemma_beyond(y);
    }
}

/// A count of units rounded to the nearest double, as a count.
pub open spec fn rounded(sum: int) -> int {
    if sum < 0 {
        -(units(rounding::pack((-sum) as nat, 1)) as int)
    } else {
        units(rounding::pack(sum as nat, 1)) as int
    }
}

proof fn lemma_rounded_ordered(a: int, b: int)
    requires
        a <= b,
    ensures
        rounded(a) <= rounded(b),
{
    let x: nat = if a < 0 { (-a) as nat } else { a as nat };
    let y: nat = if b < 0 { (-b) as nat } else { b as nat };
    lemma_pack_range(x, 1);
    lemma_pack_range(y, 1);
    if a >= 0 {
        lemma_pack_ordered(x, y);
        if rounding::pack(x, 1) < rounding::pack(y, 1) {
            lemma_units_increase(rounding::pack(x, 1), rounding::pack(y, 1));
        }
    } else if b < 0 {
        lemma_pack_ordered(y, x);
        if rounding::pack(y, 1) < rounding::pack(x, 1) {
            lemma_units_increase(rounding::pack(y, 1), rounding::pack(x, 1));
        }
    }
}

/// A finite sum counts its exact units, rounded.
proof fn lemma_rounded_sum(a: Binary64, b: Binary64)
    requires
        a.is_finite(),
        b.is_finite(),
    ensures
        a.plus(b).value() == rounded(a.value() + b.value()),
        !a.plus(b).is_nan(),
{
    reveal(Binary64::plus_spec);
    let sum: int = a.value() + b.value();
    assert(units(0) == 0);
    lemma_pow2_pos(1074);
    lemma_pack_zero(1);
    if sum < 0 {
        lemma_pack_range((-sum) as nat, 1);
        lemma_signed(true, rounding::pack((-sum) as nat, 1));
    } else if sum > 0 {
        lemma_pack_range(sum as nat, 1);
        lemma_signed(false, rounding::pack(sum as nat, 1));
    }
}

/// No number is beyond the infinities.
proof fn lemma_beyond(a: Binary64)
    requires
        !a.is_nan(),
    ensures
        -(units(INFINITE as int) as int) <= a.value() <= units(INFINITE as int),
        a.is_finite() ==> -(units(INFINITE as int) as int) < a.value() < units(INFINITE as int),
{
    if a.is_finite() {
        lemma_units_increase(a.magnitude(), INFINITE as int);
    }
    assert(units(0) == 0);
    lemma_units_increase(0, INFINITE as int);
}

/// A sum does not depend on which number comes first.
pub proof fn law_plus_commutes(a: Binary64, b: Binary64)
    ensures
        a.plus(b) == b.plus(a),
{
    reveal(Binary64::plus_spec);
    lemma_none(a);
    lemma_none(b);
    assert(a.is_infinite() && b.is_infinite() && a.negative() == b.negative() ==> a == b);
}

/// A product does not depend on which number comes first.
pub proof fn law_times_commutes(a: Binary64, b: Binary64)
    ensures
        a.times(b) == b.times(a),
{
    reveal(Binary64::times_spec);
    lemma_mul_is_commutative(units(a.magnitude()) as int, units(b.magnitude()) as int);
}

/// A weight that is not negative is its own magnitude, bit for bit.
pub proof fn law_positive_weight_is_its_magnitude(a: Binary64)
    requires
        a.bits < SIGN,
    ensures
        a.abs() == a,
{
}

}
