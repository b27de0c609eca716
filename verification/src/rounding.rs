//! Rounding a positive rational to binary64.
//!
//! Magnitudes are counted in *units*: one unit is the smallest positive
//! binary64 number, two to the power -1074. Every finite number is a whole
//! count of units, so a sum is an integer and a product or a quotient is a
//! fraction of two integers. [`pack`] rounds such a fraction, to nearest and
//! ties to even, straight into the bits of the magnitude.

use vstd::prelude::*;
use vstd::arithmetic::div_mod::*;
use vstd::arithmetic::mul::*;
use vstd::arithmetic::power2::*;
use vstd::bits::*;

verus! {

/// Two to the power 52: the weight of a normal significand's leading bit.
pub const HIDDEN: u64 = 0x10_0000_0000_0000;

/// The magnitude bits of infinity.
pub const INFINITE: u64 = 0x7ff0_0000_0000_0000;

/// The quotient `n / d`, rounded to the nearest integer, ties to even.
pub open spec fn half_even(n: nat, d: nat) -> nat {
    let q = n / d;
    let r = n % d;
    if 2 * r < d || (2 * r == d && q % 2 == 0) {
        q
    } else {
        q + 1
    }
}

/// The exponent a magnitude of `n / d` units is rounded at: the least `e`
/// for which the magnitude is below two to the power `53 + e`.
pub open spec fn scale(n: nat, d: nat) -> nat
    decreases n - d,
{
    if d == 0 || n < d * 0x20_0000_0000_0000 {
        0
    } else {
        1 + scale(n, 2 * d)
    }
}

/// The magnitude bits nearest to `n / d` units, ties to even; infinity once
/// the largest finite number is rounded past.
///
/// A significand `q` at exponent `e` is encoded as `e * HIDDEN + q`: below
/// `HIDDEN` that is a subnormal, and a significand that rounds up to a full
/// power of two carries into the exponent by itself.
pub open spec fn pack(n: nat, d: nat) -> int {
    let e = scale(n, d);
    let bits = e * HIDDEN + half_even(n, d * pow2(e));
    if bits < INFINITE {
        bits as int
    } else {
        INFINITE as int
    }
}

/// The magnitude bits nearest to `n / d` units times two to the power `k`.
pub open spec fn pack_at(n: nat, d: nat, k: int) -> int {
    if k >= 0 {
        pack(n * pow2(k as nat), d)
    } else {
        pack(n, d * pow2((-k) as nat))
    }
}

/// Whether `w` stands for `n / d` in a rounding: it is that quotient, or an
/// odd integer less than one away from it. An even integer then lies on the
/// same side of both.
pub open spec fn near(w: nat, n: nat, d: nat) -> bool {
    ||| n == w * d
    ||| w % 2 == 1 && (w - 1) * d < n < (w + 1) * d
}

pub proof fn lemma_half_even(n: nat, d: nat, q: nat)
    requires
        d > 0,
        q * d <= n < (q + 1) * d,
    ensures
        half_even(n, d) == (if 2 * n < (2 * q + 1) * d || (2 * n == (2 * q + 1) * d && q % 2 == 0) {
            q
        } else {
            q + 1
        }),
{
    let r: int = n - q * d;
    assert((q + 1) * d == q * d + d) by (nonlinear_arith);
    assert((2 * q + 1) * d == 2 * (q * d) + d) by (nonlinear_arith);
    lemma_fundamental_div_mod_converse(n as int, d as int, q as int, r);
}

pub proof fn lemma_scale(n: nat, d: nat, e: nat)
    requires
        d > 0,
        n < d * pow2(53 + e),
        e == 0 || n >= d * pow2((52 + e) as nat),
    ensures
        scale(n, d) == e,
    decreases e,
{
    lemma2_to64();
    lemma2_to64_rest();
    if e > 0 {
        let m: nat = (e - 1) as nat;
        lemma_pow2_unfold(53 + e);
        lemma_pow2_unfold((52 + e) as nat);
        assert(d * pow2(53 + e) == (2 * d) * pow2(53 + m)) by (nonlinear_arith)
            requires
                pow2(53 + e) == 2 * pow2(53 + m),
        ;
        assert(d * pow2((52 + e) as nat) == (2 * d) * pow2((52 + m) as nat)) by (nonlinear_arith)
            requires
                pow2((52 + e) as nat) == 2 * pow2((52 + m) as nat),
        ;
        if m > 0 {
            lemma_pow2_strictly_increases(53, (52 + e) as nat);
        }
        assert(d * pow2(53) <= d * pow2((52 + e) as nat)) by (nonlinear_arith)
            requires
                pow2(53) <= pow2((52 + e) as nat),
        ;
        lemma_scale(n, 2 * d, m);
    }
}

/// The exponent [`scale`] finds is the one its definition names.
pub proof fn lemma_scale_bounds(n: nat, d: nat)
    requires
        d > 0,
    ensures
        n < d * pow2(53 + scale(n, d)),
        scale(n, d) > 0 ==> n >= d * pow2((52 + scale(n, d)) as nat),
    decreases n - d,
{
    lemma2_to64();
    lemma2_to64_rest();
    if n >= d * 0x20_0000_0000_0000 {
        let m: nat = scale(n, 2 * d);
        let e: nat = m + 1;
        lemma_scale_bounds(n, 2 * d);
        lemma_pow2_unfold(53 + e);
        lemma_pow2_unfold((52 + e) as nat);
        assert(d * pow2(53 + e) == (2 * d) * pow2(53 + m)) by (nonlinear_arith)
            requires
                pow2(53 + e) == 2 * pow2(53 + m),
        ;
        assert(d * pow2((52 + e) as nat) == (2 * d) * pow2((52 + m) as nat)) by (nonlinear_arith)
            requires
                pow2((52 + e) as nat) == 2 * pow2((52 + m) as nat),
        ;
    }
}

/// Scaling a fraction's two terms alike does not move its rounding.
proof fn lemma_half_even_common(n: nat, d: nat, c: nat)
    requires
        d > 0,
        c > 0,
    ensures
        half_even(n * c, d * c) == half_even(n, d),
{
    let q: nat = n / d;
    lemma_fundamental_div_mod(n as int, d as int);
    lemma_mod_bound(n as int, d as int);
    assert(q * d <= n < (q + 1) * d) by (nonlinear_arith)
        requires
            n == d * q + n % d,
            0 <= n % d < d,
            d > 0,
    ;
    lemma_half_even(n, d, q);
    assert(d * c > 0) by (nonlinear_arith)
        requires
            d > 0,
            c > 0,
    ;
    assert(q * (d * c) <= n * c) by (nonlinear_arith)
        requires
            q * d <= n,
    ;
    assert(n * c < (q + 1) * (d * c)) by (nonlinear_arith)
        requires
            n < (q + 1) * d,
            c > 0,
    ;
    lemma_half_even(n * c, d * c, q);
    assert((2 * q + 1) * (d * c) == ((2 * q + 1) * d) * c) by (nonlinear_arith);
    assert(2 * (n * c) == (2 * n) * c) by (nonlinear_arith);
    let a: int = 2 * n as int;
    let b: int = ((2 * q + 1) * d) as int;
    assert(a < b <==> a * c < b * c) by (nonlinear_arith)
        requires
            c > 0,
    ;
    assert(a == b <==> a * c == b * c) by (nonlinear_arith)
        requires
            c > 0,
    ;
}

/// What [`pack_at`] comes to once the exponent is known.
proof fn lemma_pack_at(n: nat, d: nat, k: int, e: nat)
    requires
        d > 0,
        e >= k,
        n < d * pow2((53 + e - k) as nat),
        e == 0 || (52 + e >= k && n >= d * pow2((52 + e - k) as nat)),
    ensures
        pack_at(n, d, k) == ({
            let bits = e * HIDDEN + half_even(n, d * pow2((e - k) as nat));
            if bits < INFINITE {
                bits as int
            } else {
                INFINITE as int
            }
        }),
{
    let j: nat = (e - k) as nat;
    lemma_pow2_pos(j);
    if k >= 0 {
        let c: nat = pow2(k as nat);
        lemma_pow2_pos(k as nat);
        lemma_pow2_adds(k as nat, (53 + j) as nat);
        lemma_pow2_adds(k as nat, j);
        assert(n * c < d * pow2(53 + e)) by (nonlinear_arith)
            requires
                n < d * pow2((53 + j) as nat),
                c * pow2((53 + j) as nat) == pow2(53 + e),
                c > 0,
        ;
        if e > 0 {
            lemma_pow2_adds(k as nat, (52 + j) as nat);
            assert(n * c >= d * pow2((52 + e) as nat)) by (nonlinear_arith)
                requires
                    n >= d * pow2((52 + j) as nat),
                    c * pow2((52 + j) as nat) == pow2((52 + e) as nat),
                    c > 0,
            ;
        }
        lemma_scale(n * c, d, e);
        assert(d * pow2(e) == (d * pow2(j)) * c) by (nonlinear_arith)
            requires
                c * pow2(j) == pow2(e),
        ;
        assert(d * pow2(j) > 0) by (nonlinear_arith)
            requires
                d > 0,
                pow2(j) > 0,
        ;
        lemma_half_even_common(n, d * pow2(j), c);
    } else {
        let b: nat = (-k) as nat;
        lemma_pow2_pos(b);
        lemma_pow2_adds(b, 53 + e);
        lemma_pow2_adds(b, e);
        assert(d * pow2(b) > 0) by (nonlinear_arith)
            requires
                d > 0,
                pow2(b) > 0,
        ;
        assert((d * pow2(b)) * pow2(53 + e) == d * pow2((53 + j) as nat)) by (nonlinear_arith)
            requires
                pow2(b) * pow2(53 + e) == pow2((53 + j) as nat),
        ;
        if e > 0 {
            lemma_pow2_adds(b, (52 + e) as nat);
            assert((d * pow2(b)) * pow2((52 + e) as nat) == d * pow2((52 + j) as nat))
                by (nonlinear_arith)
                requires
                    pow2(b) * pow2((52 + e) as nat) == pow2((52 + j) as nat),
            ;
        }
        lemma_scale(n, d * pow2(b), e);
        assert((d * pow2(b)) * pow2(e) == d * pow2(j)) by (nonlinear_arith)
            requires
                pow2(b) * pow2(e) == pow2(j),
        ;
    }
}

/// An even integer lies on the same side of a stand-in as of the quotient.
proof fn lemma_near_even(w: nat, n: nat, d: nat, c: nat)
    requires
        d > 0,
        near(w, n, d),
        c % 2 == 0,
    ensures
        n < c * d <==> w < c,
        n == c * d <==> w == c,
{
    if n == w * d {
        assert(w * d < c * d <==> w < c) by (nonlinear_arith)
            requires
                d > 0,
        ;
        assert(w * d == c * d <==> w == c) by (nonlinear_arith)
            requires
                d > 0,
        ;
    } else if w < c {
        assert((w + 1) * d <= c * d) by (nonlinear_arith)
            requires
                w + 1 <= c,
        ;
    } else {
        assert(c * d <= (w - 1) * d) by (nonlinear_arith)
            requires
                c <= w - 1,
        ;
    }
}

/// A stand-in with bits to spare rounds as the quotient does.
pub proof fn lemma_near(w: nat, n: nat, d: nat, k: int)
    requires
        d > 0,
        near(w, n, d),
        n == w * d || w >= 0x80_0000_0000_0000,
    ensures
        pack_at(n, d, k) == pack_at(w, 1, k),
{
    lemma2_to64();
    lemma2_to64_rest();
    if n == w * d {
        if k >= 0 {
            lemma_pack_common(w * pow2(k as nat), 1, d);
            assert((w * pow2(k as nat)) * d == (w * d) * pow2(k as nat)) by (nonlinear_arith);
        } else {
            lemma_pow2_pos((-k) as nat);
            lemma_pack_common(w, pow2((-k) as nat), d);
            assert(1 * pow2((-k) as nat) == pow2((-k) as nat));
            assert(pow2((-k) as nat) * d == d * pow2((-k) as nat)) by (nonlinear_arith);
        }
    } else {
        // The exponent `w` is rounded at.
        let e: nat = if k >= 0 {
            scale(w * pow2(k as nat), 1)
        } else {
            scale(w, pow2((-k) as nat))
        };
        lemma_exponent(w, k);
        let j: nat = (e - k) as nat;
        let top: nat = pow2((53 + j) as nat);
        lemma_pow2_unfold((53 + j) as nat);
        assert(1 * top == top);
        lemma_near_even(w, n, d, top);
        assert(top * d == d * top) by (nonlinear_arith);
        if e > 0 {
            let low: nat = pow2((52 + j) as nat);
            lemma_pow2_unfold((52 + j) as nat);
            assert(1 * low == low);
            lemma_near_even(w, n, d, low);
            assert(low * d == d * low) by (nonlinear_arith);
        }
        lemma_pack_at(n, d, k, e);
        lemma_pack_at(w, 1, k, e);
        lemma_near_half(w, n, d, j);
        assert(1 * pow2(j) == pow2(j));
    }
}

/// Scaling a fraction's two terms alike does not move its bits.
pub proof fn lemma_pack_common(n: nat, d: nat, c: nat)
    requires
        d > 0,
        c > 0,
    ensures
        pack(n * c, d * c) == pack(n, d),
{
    let e: nat = scale(n, d);
    lemma_scale_bounds(n, d);
    lemma_pow2_pos(e);
    assert(d * c > 0) by (nonlinear_arith)
        requires
            d > 0,
            c > 0,
    ;
    assert(n * c < (d * c) * pow2(53 + e)) by (nonlinear_arith)
        requires
            n < d * pow2(53 + e),
            c > 0,
    ;
    if e > 0 {
        assert(n * c >= (d * c) * pow2((52 + e) as nat)) by (nonlinear_arith)
            requires
                n >= d * pow2((52 + e) as nat),
        ;
    }
    lemma_scale(n * c, d * c, e);
    assert(d * pow2(e) > 0) by (nonlinear_arith)
        requires
            d > 0,
            pow2(e) > 0,
    ;
    lemma_half_even_common(n, d * pow2(e), c);
    assert((d * pow2(e)) * c == (d * c) * pow2(e)) by (nonlinear_arith);
}

/// The exponent a wide integer is rounded at leaves at least three bits off.
proof fn lemma_exponent(w: nat, k: int)
    requires
        w >= 0x80_0000_0000_0000,
    ensures
        ({
            let e = if k >= 0 {
                scale(w * pow2(k as nat), 1)
            } else {
                scale(w, pow2((-k) as nat))
            };
            &&& e - k >= 3
            &&& w < pow2((53 + e - k) as nat)
            &&& e > 0 ==> w >= pow2((52 + e - k) as nat)
        }),
{
    lemma2_to64();
    lemma2_to64_rest();
    if k >= 0 {
        let c: nat = pow2(k as nat);
        let e: nat = scale(w * c, 1);
        lemma_pow2_pos(k as nat);
        lemma_scale_bounds(w * c, 1);
        if e < k + 3 {
            lemma_pow2_adds(55, k as nat);
            if 53 + e < 55 + k {
                lemma_pow2_strictly_increases(53 + e, (55 + k) as nat);
            }
            assert(w * c >= pow2(55) * c) by (nonlinear_arith)
                requires
                    w >= pow2(55),
            ;
            assert(false);
        }
        lemma_pow2_adds((53 + e - k) as nat, k as nat);
        assert(w < pow2((53 + e - k) as nat)) by (nonlinear_arith)
            requires
                w * c < pow2((53 + e - k) as nat) * c,
        ;
        if e > 0 {
            lemma_pow2_adds((52 + e - k) as nat, k as nat);
            assert(w >= pow2((52 + e - k) as nat)) by (nonlinear_arith)
                requires
                    w * c >= pow2((52 + e - k) as nat) * c,
                    c > 0,
            ;
        }
    } else {
        let b: nat = (-k) as nat;
        let e: nat = scale(w, pow2(b));
        lemma_pow2_pos(b);
        lemma_scale_bounds(w, pow2(b));
        lemma_pow2_adds(b, 53 + e);
        if e > 0 {
            lemma_pow2_adds(b, (52 + e) as nat);
        }
        if e - k < 3 {
            if 53 + e - k < 55 {
                lemma_pow2_strictly_increases((53 + e - k) as nat, 55);
            }
            assert(false);
        }
    }
}

proof fn lemma_near_half(w: nat, n: nat, d: nat, j: nat)
    requires
        d > 0,
        near(w, n, d),
        j >= 2,
    ensures
        half_even(n, d * pow2(j)) == half_even(w, pow2(j)),
{
    let p: nat = pow2(j);
    let h: nat = pow2((j - 1) as nat);
    lemma_pow2_pos(j);
    lemma_pow2_unfold(j);
    lemma_pow2_unfold((j - 1) as nat);
    let q: nat = w / p;
    lemma_fundamental_div_mod(w as int, p as int);
    lemma_mod_bound(w as int, p as int);
    assert(q * p <= w < (q + 1) * p) by (nonlinear_arith)
        requires
            w == p * q + w % p,
            0 <= w % p < p,
            p > 0,
    ;
    lemma_half_even(w, p, q);
    lemma_even_multiple(q, p);
    lemma_even_multiple(q + 1, p);
    lemma_even_multiple((2 * q + 1) as nat, h);
    lemma_near_even(w, n, d, q * p);
    lemma_near_even(w, n, d, (q + 1) * p);
    lemma_near_even(w, n, d, (2 * q + 1) * h);
    assert(q * (d * p) == (q * p) * d) by (nonlinear_arith);
    assert((q + 1) * (d * p) == ((q + 1) * p) * d) by (nonlinear_arith);
    assert(d * p > 0) by (nonlinear_arith)
        requires
            d > 0,
            p > 0,
    ;
    lemma_half_even(n, d * p, q);
    assert((2 * q + 1) * (d * p) == 2 * (((2 * q + 1) * h) * d)) by (nonlinear_arith)
        requires
            p == 2 * h,
    ;
    assert((2 * q + 1) * p == 2 * ((2 * q + 1) * h)) by (nonlinear_arith)
        requires
            p == 2 * h,
    ;
}

proof fn lemma_even_multiple(q: nat, p: nat)
    requires
        p % 2 == 0,
    ensures
        (q * p) % 2 == 0,
{
    let h: nat = p / 2;
    assert(q * p == 2 * (q * h)) by (nonlinear_arith)
        requires
            p == 2 * h,
    ;
}

pub(crate) proof fn lemma_one_shl(s: u128)
    requires
        s < 128,
    ensures
        (1u128 << s) == pow2(s as nat),
    decreases s,
{
    if s == 0 {
        assert((1u128 << 0) == 1) by (bit_vector);
        lemma2_to64();
    } else {
        let t: u128 = (s - 1) as u128;
        lemma_one_shl(t);
        assert((1u128 << s) == 2 * (1u128 << t)) by (bit_vector)
            requires
                s < 128,
                t == s - 1,
        ;
        lemma_pow2_unfold(s as nat);
    }
}

/// How many bits a positive integer takes.
pub(crate) fn width(w: u128) -> (n: u32)
    requires
        w > 0,
    ensures
        1 <= n <= 128,
        pow2((n - 1) as nat) <= w < pow2(n as nat),
{
    let mut top: u128 = w;
    let mut n: u32 = 0;
    let mut step: u32 = 64;
    proof {
        lemma2_to64();
        lemma2_to64_rest();
        lemma_pow2_adds(64, 64);
        assert(pow2(128) == 0x1_0000_0000_0000_0000 * 0x1_0000_0000_0000_0000);
        lemma_fundamental_div_mod(w as int, 1);
        assert(w as int / 1 == w);
    }
    while step > 0
        invariant
            step == 64 || step == 32 || step == 16 || step == 8 || step == 4 || step == 2 || step
                == 1 || step == 0,
            n + 2 * step <= 128,
            step == 0 ==> n <= 127,
            top > 0,
            top == w as nat / pow2(n as nat),
            step > 0 ==> top < pow2((2 * step) as nat),
            step == 0 ==> top == 1,
        decreases step,
    {
        let half: u128 = 1u128 << (step as u128);
        proof {
            lemma_one_shl(step as u128);
            lemma2_to64();
        }
        if top >= half {
            proof {
                lemma_u128_shr_is_div(top, step as u128);
                lemma_pow2_pos(n as nat);
                lemma_pow2_pos(step as nat);
                lemma_div_denominator(w as int, pow2(n as nat) as int, pow2(step as nat) as int);
                lemma_pow2_adds(n as nat, step as nat);
                lemma_pow2_adds(step as nat, step as nat);
                lemma_shifted(top as nat, step as nat);
            }
            top = top >> (step as u128);
            n = n + step;
        }
        step = step / 2;
    }
    proof {
        let p: nat = pow2(n as nat);
        lemma_pow2_pos(n as nat);
        lemma_pow2_unfold((n + 1) as nat);
        lemma_fundamental_div_mod(w as int, p as int);
        lemma_mod_bound(w as int, p as int);
        assert(p * 1 == p);
    }
    n + 1
}

proof fn lemma_shifted(top: nat, step: nat)
    requires
        pow2(step) <= top < pow2(2 * step),
    ensures
        0 < top / pow2(step) < pow2(step),
{
    let p: nat = pow2(step);
    lemma_pow2_pos(step);
    lemma_pow2_adds(step, step);
    lemma_fundamental_div_mod(top as int, p as int);
    lemma_mod_bound(top as int, p as int);
    let q: int = top as int / p as int;
    assert(q > 0 && q < p) by (nonlinear_arith)
        requires
            top == p * q + top as int % p as int,
            0 <= (top as int % p as int) < p,
            p <= top < p * p,
    ;
}

/// The magnitude bits nearest to `w` units times two to the power `k`.
pub(crate) fn round(w: u128, k: i32) -> (bits: u64)
    requires
        0 < w < 0x4000_0000_0000_0000_0000_0000_0000_0000,
        -4000 <= k <= 3500,
    ensures
        bits == pack_at(w as nat, 1, k as int),
        bits <= INFINITE,
{
    let n: u32 = width(w);
    proof {
        lemma2_to64();
        lemma2_to64_rest();
        lemma_pow2_adds(62, 64);
        assert(pow2(126) == 0x4000_0000_0000_0000_0000_0000_0000_0000);
        if n > 126 {
            if n - 1 > 126 {
                lemma_pow2_strictly_increases(126, (n - 1) as nat);
            }
            assert(false);
        }
    }
    let lead: i32 = k + n as i32 - 53;
    let e: i32 = if lead > 0 { lead } else { 0 };
    let s: i32 = e - k;
    let q: u64;
    if s <= 0 {
        let t: u32 = (-s) as u32;
        proof {
            lemma_one_shl(t as u128);
            lemma_round_exact(w as nat, k as int, e as nat, n as nat);
        }
        let unit: u128 = 1u128 << (t as u128);
        q = (w * unit) as u64;
    } else if s as u32 >= n + 2 {
        proof {
            lemma_round_tiny(w as nat, k as int, e as nat, n as nat);
        }
        q = 0;
    } else {
        let u: u128 = s as u128;
        let unit: u128 = 1u128 << u;
        let whole: u128 = w >> u;
        proof {
            lemma_one_shl(u);
            lemma_u128_shr_is_div(w, u);
            lemma_pow2_pos(u as nat);
            lemma_fundamental_div_mod(w as int, pow2(u as nat) as int);
            lemma_mod_bound(w as int, pow2(u as nat) as int);
            lemma_round_shift(w as nat, k as int, e as nat, n as nat);
            assert(whole * unit <= w) by (nonlinear_arith)
                requires
                    w == unit * whole + w as int % unit as int,
                    0 <= w as int % unit as int,
            ;
            assert(whole * unit == unit * whole) by (nonlinear_arith);
            if s < 127 {
                lemma_pow2_strictly_increases(s as nat, 127);
            }
            lemma_pow2_adds(63, 64);
        }
        let rest: u128 = w - whole * unit;
        q = if 2 * rest < unit || (2 * rest == unit && whole % 2 == 0) {
            whole as u64
        } else {
            (whole + 1) as u64
        };
    }
    let bits: u64 = e as u64 * HIDDEN + q;
    if bits < INFINITE {
        bits
    } else {
        INFINITE
    }
}

proof fn lemma_round_exact(w: nat, k: int, e: nat, n: nat)
    requires
        1 <= n <= 126,
        pow2((n - 1) as nat) <= w < pow2(n),
        e == (if k + n - 53 > 0 {
            k + n - 53
        } else {
            0
        }),
        e <= k,
        k <= 3500,
    ensures
        k - e <= 52,
        w * pow2((k - e) as nat) < 0x20_0000_0000_0000,
        pack_at(w, 1, k) == ({
            let bits = e * HIDDEN + w * pow2((k - e) as nat);
            if bits < INFINITE {
                bits as int
            } else {
                INFINITE as int
            }
        }),
{
    lemma2_to64();
    lemma2_to64_rest();
    let t: nat = (k - e) as nat;
    let c: nat = pow2(t);
    lemma_pow2_pos(t);
    lemma_pow2_adds(n, t);
    if n + t < 53 {
        lemma_pow2_strictly_increases(n + t, 53);
    }
    assert(w * c < pow2(53)) by (nonlinear_arith)
        requires
            w < pow2(n),
            pow2(n) * c == pow2(n + t),
            pow2(n + t) <= pow2(53),
            c > 0,
    ;
    let m: nat = w * c;
    lemma_pow2_adds(t, e);
    assert(w * pow2(k as nat) == m * pow2(e)) by (nonlinear_arith)
        requires
            m == w * c,
            c * pow2(e) == pow2(k as nat),
    ;
    lemma_pow2_pos(e);
    lemma_pow2_adds(53, e);
    assert(m * pow2(e) < 1 * pow2(53 + e)) by (nonlinear_arith)
        requires
            m < pow2(53),
            pow2(53) * pow2(e) == pow2(53 + e),
            pow2(e) > 0,
    ;
    if e > 0 {
        lemma_pow2_adds((n - 1) as nat, t);
        lemma_pow2_adds(52, e);
        assert(m >= pow2(52)) by (nonlinear_arith)
            requires
                m == w * c,
                w >= pow2((n - 1) as nat),
                pow2((n - 1) as nat) * c == pow2((n - 1 + t) as nat),
                n - 1 + t == 52,
        ;
        assert(m * pow2(e) >= 1 * pow2((52 + e) as nat)) by (nonlinear_arith)
            requires
                m >= pow2(52),
                pow2(52) * pow2(e) == pow2((52 + e) as nat),
        ;
    }
    lemma_scale(w * pow2(k as nat), 1, e);
    assert(m * pow2(e) < (m + 1) * pow2(e)) by (nonlinear_arith)
        requires
            pow2(e) > 0,
    ;
    assert(2 * (m * pow2(e)) < (2 * m + 1) * pow2(e)) by (nonlinear_arith)
        requires
            pow2(e) > 0,
    ;
    lemma_half_even(w * pow2(k as nat), 1 * pow2(e), m);
}

proof fn lemma_round_tiny(w: nat, k: int, e: nat, n: nat)
    requires
        1 <= n <= 126,
        pow2((n - 1) as nat) <= w < pow2(n),
        e == (if k + n - 53 > 0 {
            k + n - 53
        } else {
            0
        }),
        e - k >= n + 2,
    ensures
        e == 0,
        pack_at(w, 1, k) == 0,
{
    lemma2_to64();
    lemma2_to64_rest();
    let s: nat = (e - k) as nat;
    lemma_pow2_pos(s);
    lemma_pow2_strictly_increases(n, (s - 1) as nat);
    lemma_pow2_unfold(s);
    lemma_pow2_adds(53, s);
    assert(w < 1 * pow2((53 + s) as nat)) by (nonlinear_arith)
        requires
            w < pow2(s),
            pow2(53) * pow2(s) == pow2((53 + s) as nat),
            pow2(53) == 0x20_0000_0000_0000,
    ;
    lemma_pack_at(w, 1, k, 0);
    assert(0 * (1 * pow2(s)) == 0);
    lemma_half_even(w, 1 * pow2(s), 0);
}

proof fn lemma_round_shift(w: nat, k: int, e: nat, n: nat)
    requires
        1 <= n <= 126,
        pow2((n - 1) as nat) <= w < pow2(n),
        e == (if k + n - 53 > 0 {
            k + n - 53
        } else {
            0
        }),
        e - k > 0,
    ensures
        w / pow2((e - k) as nat) < 0x20_0000_0000_0000,
        pack_at(w, 1, k) == ({
            let bits = e * HIDDEN + half_even(w, pow2((e - k) as nat));
            if bits < INFINITE {
                bits as int
            } else {
                INFINITE as int
            }
        }),
{
    lemma2_to64();
    lemma2_to64_rest();
    let s: nat = (e - k) as nat;
    let p: nat = pow2(s);
    lemma_pow2_pos(s);
    if n < 53 + s {
        lemma_pow2_strictly_increases(n, (53 + s) as nat);
    }
    lemma_pow2_adds(53, s);
    assert(1 * pow2((53 + s) as nat) == pow2((53 + s) as nat));
    assert(1 * pow2((52 + s) as nat) == pow2((52 + s) as nat));
    assert(1 * p == p);
    lemma_pack_at(w, 1, k, e);
    lemma_fundamental_div_mod(w as int, p as int);
    lemma_mod_bound(w as int, p as int);
    let q: int = w as int / p as int;
    assert(q < 0x20_0000_0000_0000) by (nonlinear_arith)
        requires
            w == p * q + w as int % p as int,
            0 <= w as int % p as int,
            w < 0x20_0000_0000_0000 * p,
            p > 0,
    ;
}

}
