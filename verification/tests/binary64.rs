//! The integer arithmetic against the machine's own doubles.

use johnnybt_engine::binary64::Binary64;

fn number(x: f64) -> Binary64 {
    Binary64 { bits: x.to_bits() }
}

fn same(got: Binary64, wanted: f64) -> bool {
    let got = f64::from_bits(got.bits);
    if wanted.is_nan() {
        got.is_nan()
    } else {
        got.to_bits() == wanted.to_bits()
    }
}

fn edges() -> Vec<f64> {
    let mut out = vec![
        0.0,
        1.0,
        1.5,
        2.0,
        3.0,
        10.0,
        0.1,
        0.97,
        1e-12,
        1e300,
        1e-300,
        97_000.0,
        1_000_000.0,
        0.5,
        f64::MAX,
        f64::MIN_POSITIVE,
        f64::MIN_POSITIVE / 2.0,
        f64::from_bits(1),
        f64::from_bits(2),
        f64::from_bits(3),
        f64::EPSILON,
        1.0 + f64::EPSILON,
        1.0 - f64::EPSILON / 2.0,
        9_007_199_254_740_991.0,
        9_007_199_254_740_992.0,
        9_007_199_254_740_993.0,
        4_503_599_627_370_495.5,
        f64::INFINITY,
        f64::NAN,
    ];
    let negative: Vec<f64> = out.iter().map(|x| -x).collect();
    out.extend(negative);
    out
}

fn check(x: f64, y: f64) {
    let (a, b) = (number(x), number(y));
    assert!(same(a.plus(b), x + y), "{x:e} + {y:e}");
    assert!(same(a.minus(b), x - y), "{x:e} - {y:e}");
    assert!(same(a.times(b), x * y), "{x:e} * {y:e}");
    assert!(same(a.over(b), x / y), "{x:e} / {y:e}");
    assert_eq!(a.less(b), x < y, "{x:e} < {y:e}");
    assert_eq!(a.at_most(b), x <= y, "{x:e} <= {y:e}");
    assert_eq!(a.equals(b), x == y, "{x:e} == {y:e}");
    assert_eq!(a == b, x == y, "{x:e} == {y:e}");
    assert!(same(a.floor(), x.floor()), "floor {x:e}");
    assert_eq!(a.negated().bits, (-x).to_bits(), "-{x:e}");
    assert_eq!(a.abs().bits, x.abs().to_bits(), "|{x:e}|");
    assert_eq!(a.is_nan(), x.is_nan());
    assert_eq!(a.is_finite(), x.is_finite());
}

struct Dice(u64);

impl Dice {
    fn roll(&mut self) -> u64 {
        self.0 ^= self.0 << 13;
        self.0 ^= self.0 >> 7;
        self.0 ^= self.0 << 17;
        self.0
    }
}

#[test]
fn edge_cases_match_the_machine() {
    let all = edges();
    for &x in &all {
        for &y in &all {
            check(x, y);
        }
    }
}

#[test]
fn random_bits_match_the_machine() {
    let mut dice = Dice(0x9e37_79b9_7f4a_7c15);
    for _ in 0..40_000 {
        let (x, y) = (f64::from_bits(dice.roll()), f64::from_bits(dice.roll()));
        check(x, y);
    }
}

#[test]
fn numbers_of_like_size_match_the_machine() {
    let mut dice = Dice(0x1234_5678_9abc_def1);
    for _ in 0..40_000 {
        // Exponents close together, so that sums cancel and round.
        let exponent = 1000 + dice.roll() % 60;
        let other = exponent + dice.roll() % 7;
        let x = f64::from_bits((dice.roll() & 0x800f_ffff_ffff_ffff) | (exponent << 52));
        let y = f64::from_bits((dice.roll() & 0x800f_ffff_ffff_ffff) | (other << 52));
        check(x, y);
    }
}

#[test]
fn the_smallest_numbers_match_the_machine() {
    let mut dice = Dice(0x0fed_cba9_8765_4321);
    for _ in 0..40_000 {
        let x = f64::from_bits(dice.roll() & 0x803f_ffff_ffff_ffff);
        let y = f64::from_bits(dice.roll() & 0x803f_ffff_ffff_ffff);
        check(x, y);
        check(x, f64::from_bits(dice.roll() & 0x7fff_ffff_ffff_ffff));
    }
}

#[test]
fn ties_go_to_even() {
    let one = number(1.0);
    let half_step = number(f64::EPSILON / 2.0);
    assert_eq!(one.plus(half_step).bits, 1.0f64.to_bits());
    let odd = number(1.0 + f64::EPSILON);
    assert_eq!(odd.plus(half_step).bits, (1.0 + 2.0 * f64::EPSILON).to_bits());
}

#[test]
fn every_nan_made_is_the_quiet_one() {
    let zero = Binary64::zero();
    let endless = number(f64::INFINITY);
    assert_eq!(endless.minus(endless).bits, Binary64::nan().bits);
    assert_eq!(zero.over(zero).bits, Binary64::nan().bits);
    assert_eq!(zero.times(endless).bits, Binary64::nan().bits);
    assert_eq!(number(f64::NAN).plus(zero).bits, f64::NAN.to_bits());
}

#[test]
fn a_sum_does_not_depend_on_which_number_comes_first() {
    let mut dice = Dice(77);
    for _ in 0..5_000 {
        let (a, b) = (Binary64 { bits: dice.roll() }, Binary64 { bits: dice.roll() });
        assert_eq!(a.plus(b).bits, b.plus(a).bits);
        assert_eq!(a.times(b).bits, b.times(a).bits);
    }
}

#[test]
fn taking_away_never_leaves_more_and_floors_never_go_up() {
    let mut dice = Dice(99);
    for _ in 0..5_000 {
        let a = Binary64 { bits: dice.roll() };
        let b = Binary64 { bits: dice.roll() }.abs();
        let left = a.minus(b);
        assert!(a.is_nan() || left.is_nan() || left.at_most(a));
        assert!(a.is_nan() || a.floor().at_most(a));
    }
}

#[test]
fn a_positive_weight_is_its_own_magnitude() {
    assert_eq!(number(0.25).abs().bits, 0.25f64.to_bits());
    assert_eq!(number(-0.25).abs().bits, 0.25f64.to_bits());
}
