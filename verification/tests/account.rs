//! The account's own phases, one at a time.

use johnnybt_engine::account::{Account, Fill, POOL};
use johnnybt_engine::binary64::Binary64;
use johnnybt_engine::inputs::{decide, Point};

fn number(x: f64) -> Binary64 {
    Binary64 { bits: x.to_bits() }
}

fn float(x: Binary64) -> f64 {
    f64::from_bits(x.bits)
}

#[test]
fn a_fresh_account_has_its_capital_and_nothing_else() {
    let account = Account::new(3, 2, 4, number(500.0));
    assert_eq!((account.run, account.tranches, account.assets), (3, 2, 4));
    assert_eq!(float(account.cash), 500.0);
    assert_eq!(account.qty.len(), 8);
    assert!(account.attained.iter().all(|weight| weight.is_nan()));
    assert_eq!(account.attained_row, vec![-1, -1]);
    assert_eq!(account.fire, vec![-1, -1]);
    assert!(account.union_names().is_empty());
    assert_eq!(account.at(1, 3), 7);
    assert_eq!(float(account.held(2)), 0.0);
}

#[test]
fn a_fill_goes_on_record_only_when_fills_are_recorded() {
    let at = Point {
        bar: 4,
        phase: 2,
        epoch: 0,
    };
    let mut account = Account::new(0, 1, 3, number(1.0));
    account.fill(at, POOL, 2, number(-7.0), number(3.0), number(0.5));
    assert!(account.fills.is_empty());
    account.record_fills = true;
    account.fill(at, POOL, 2, number(-7.0), number(3.0), number(0.5));
    let wanted = Fill {
        bar: 4,
        point: 2,
        tranche: POOL,
        asset: 2,
        units: number(-7.0),
        price: number(3.0),
        fee: number(0.5),
    };
    assert_eq!(account.fills, vec![wanted]);
}

#[test]
fn touched_names_are_named_and_swept_once_at_rest() {
    let mut account = Account::new(0, 2, 6, number(1.0));
    for name in [4, 1, 4, 2] {
        account.touch(0, name);
    }
    account.touch(1, 5);
    assert_eq!(account.named(0), &[1, 2, 4]);
    assert_eq!(account.union_names(), vec![1, 2, 4, 5]);
    let held = account.at(0, 2);
    account.qty[held] = number(3.0);
    assert_eq!(float(account.held(2)), 3.0);
    account.sweep(|tranche, name| !(tranche == 1 && name == 5));
    assert_eq!(account.named(0), &[2]);
    assert_eq!(account.named(1), &[5]);
}

#[test]
fn opening_a_bar_empties_its_accumulators() {
    let mut account = Account::new(0, 1, 1, number(1.0));
    account.fees = number(3.0);
    account.bought = number(4.0);
    account.sold = number(5.0);
    account.open_bar();
    assert_eq!(float(account.fees), 0.0);
    assert_eq!(float(account.bought), 0.0);
    assert_eq!(float(account.sold), 0.0);
}

fn lots(investable: f64, weight: f64, price: f64, min_lot: f64, min_notional: f64) -> f64 {
    float(decide(
        number(investable),
        number(weight),
        number(price),
        number(100.0),
        number(min_lot),
        number(min_notional),
        number(1.0),
    ))
}

#[test]
fn a_weight_becomes_whole_lots_rounded_down() {
    assert_eq!(lots(10_000.0, 0.5, 7.0, 0.0, 0.0), 700.0);
    assert_eq!(lots(10_000.0, -0.5, 7.0, 0.0, 0.0), -700.0);
    assert_eq!(lots(10_000.0, 0.0, 7.0, 0.0, 0.0), 0.0);
    assert_eq!(lots(10_000.0, 0.5, f64::NAN, 0.0, 0.0), 0.0);
    assert_eq!(lots(10_000.0, 0.5, 0.0, 0.0, 0.0), 0.0);
    assert_eq!(lots(10_000.0, 0.5, 7.0, 800.0, 0.0), 0.0);
    assert_eq!(lots(10_000.0, 0.5, 7.0, 700.0, 0.0), 700.0);
    assert_eq!(lots(10_000.0, 0.5, 7.0, 0.0, 5_001.0), 0.0);
    assert_eq!(lots(10_000.0, 0.5, 7.0, 0.0, 5_000.0), 700.0);
}

#[test]
fn sizing_is_odd_in_the_weight() {
    for weight in [0.3, 0.5, 1.0, 2.5e-3] {
        for money in [0.0, 123.0, 10_000.0, 98_765.4] {
            let long = lots(money, weight, 7.0, 200.0, 50.0);
            assert_eq!(lots(money, -weight, 7.0, 200.0, 50.0), -long);
        }
    }
}

#[test]
fn sizing_does_not_fall_as_the_money_grows() {
    let mut before = 0.0;
    for step in 0..500 {
        let quantity = lots(37.5 * step as f64, 0.6, 7.0, 200.0, 50.0);
        assert!(quantity >= before);
        before = quantity;
    }
    assert_eq!(before, 1_600.0);
}
