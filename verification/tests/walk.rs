//! Whole walks, against a dense scan in the machine's own doubles.

use johnnybt_engine::account::{Account, POOL};
use johnnybt_engine::binary64::Binary64;
use johnnybt_engine::bookkeeping::{Bookkeeping, Plain};
use johnnybt_engine::driver::{run_account, run_all, walk_run};
use johnnybt_engine::grid::Grid;
use johnnybt_engine::inputs::{Inputs, Point};

fn number(x: f64) -> Binary64 {
    Binary64 { bits: x.to_bits() }
}

fn float(x: &Binary64) -> f64 {
    f64::from_bits(x.bits)
}

struct Dice(u64);

impl Dice {
    fn roll(&mut self) -> u64 {
        self.0 ^= self.0 << 13;
        self.0 ^= self.0 >> 7;
        self.0 ^= self.0 << 17;
        self.0
    }

    fn below(&mut self, n: u64) -> u64 {
        self.roll() % n
    }

    fn chance(&mut self, percent: u64) -> bool {
        self.below(100) < percent
    }

    fn unit(&mut self) -> f64 {
        self.below(1_000_000) as f64 / 1_000_000.0
    }
}

/// A market and its terms, in plain tables.
#[derive(Clone)]
struct Case {
    runs: usize,
    tranches: usize,
    decisions: usize,
    assets: usize,
    bars: usize,
    phases: usize,
    plan: Vec<f64>,
    at: Vec<i32>,
    standing: Vec<bool>,
    prices: Vec<Vec<f64>>,
    mark: Vec<f64>,
    impound: Vec<Vec<bool>>,
    previous: Option<Vec<f64>>,
    new_day: Vec<bool>,
    buyable: Vec<Vec<bool>>,
    sellable: Vec<Vec<bool>>,
    instrument: Vec<i32>,
    epoch: Vec<i32>,
    epochs: usize,
    classes: usize,
    rates: Vec<f64>,
    flags: Vec<bool>,
    capital: f64,
    buffer: f64,
    audit: bool,
    positions: bool,
    fills: bool,
}

impl Case {
    /// One name at ten, one tranche, one point, no fees, lots of a hundred.
    fn plain(bars: usize) -> Case {
        let mut rates = vec![0.0; 8];
        rates[0] = 100.0;
        rates[3] = 1.0;
        Case {
            runs: 1,
            tranches: 1,
            decisions: bars,
            assets: 1,
            bars,
            phases: 1,
            plan: vec![0.0; bars],
            at: (0..bars as i32).collect(),
            standing: vec![false; bars],
            prices: vec![vec![10.0; bars]],
            mark: vec![10.0; bars],
            impound: vec![vec![false; bars]],
            previous: None,
            new_day: vec![true; bars],
            buyable: vec![vec![true; bars]],
            sellable: vec![vec![true; bars]],
            instrument: vec![0],
            epoch: vec![0; bars],
            epochs: 1,
            classes: 1,
            rates,
            flags: vec![false; 2],
            capital: 1_000_000.0,
            buffer: 1.0,
            audit: false,
            positions: true,
            fills: true,
        }
    }

    fn random(seed: u64) -> Case {
        let mut dice = Dice(seed.wrapping_mul(0x9e37_79b9_7f4a_7c15) | 1);
        let (runs, tranches, decisions) = (2, 2, 5);
        let (assets, bars, phases) = (4 + dice.below(4) as usize, 14, 3);
        let (epochs, classes) = (2, 3);
        let cells = runs * tranches * bars * phases;
        let shorts = dice.chance(40);
        let mut plan = Vec::new();
        for _ in 0..runs * tranches * decisions * assets {
            plan.push(match dice.below(10) {
                0..=4 => 0.0,
                5 => f64::NAN,
                6 if shorts => -0.3 * dice.unit(),
                _ => 0.6 * dice.unit(),
            });
        }
        let mut at = Vec::new();
        let mut standing = Vec::new();
        for _ in 0..cells {
            at.push(if dice.chance(55) {
                -1
            } else {
                dice.below(decisions as u64) as i32
            });
            standing.push(dice.chance(40));
        }
        let mut base: Vec<f64> = (0..assets).map(|_| 5.0 + 20.0 * dice.unit()).collect();
        let mut prices = vec![Vec::new(); phases];
        let mut mark = Vec::new();
        let mut previous = Vec::new();
        for _ in 0..bars {
            for price in base.iter_mut() {
                let ratio = if dice.chance(8) { 2.0 } else { 1.0 };
                previous.push(if dice.chance(10) {
                    f64::NAN
                } else {
                    *price / ratio
                });
                *price /= ratio;
            }
            for plane in prices.iter_mut() {
                for price in base.iter_mut() {
                    *price *= 0.95 + 0.1 * dice.unit();
                    plane.push(if dice.chance(7) { f64::NAN } else { *price });
                }
            }
            for price in base.iter() {
                mark.push(if dice.chance(5) { f64::NAN } else { *price });
            }
        }
        let mut planes = |percent: u64| -> Vec<Vec<bool>> {
            (0..phases)
                .map(|_| (0..bars * assets).map(|_| dice.chance(percent)).collect())
                .collect()
        };
        let (impound, buyable, sellable) = (planes(10), planes(75), planes(75));
        let mut rates = Vec::new();
        for row in 0..8 {
            for _ in 0..epochs * classes {
                rates.push(match row {
                    0 => [1.0, 10.0, 100.0][dice.below(3) as usize],
                    1 => [0.0, 100.0][dice.below(2) as usize],
                    2 => [0.0, 500.0][dice.below(2) as usize],
                    3 => [1.0, 2.5][dice.below(2) as usize],
                    4 | 5 => 0.002 * dice.unit(),
                    6 => [0.0, 1.5][dice.below(2) as usize],
                    _ => [0.0, 5.0][dice.below(2) as usize],
                });
            }
        }
        Case {
            runs,
            tranches,
            decisions,
            assets,
            bars,
            phases,
            plan,
            at,
            standing,
            prices,
            mark,
            impound,
            previous: if dice.chance(60) {
                Some(previous)
            } else {
                None
            },
            new_day: (0..bars).map(|_| dice.chance(50)).collect(),
            buyable,
            sellable,
            instrument: (0..assets).map(|_| dice.below(classes as u64) as i32).collect(),
            epoch: (0..bars).map(|_| dice.below(epochs as u64) as i32).collect(),
            epochs,
            classes,
            rates,
            flags: (0..2 * classes).map(|_| dice.chance(50)).collect(),
            capital: 100_000.0 * (1.0 + dice.unit()),
            buffer: 0.97,
            audit: dice.chance(60),
            positions: dice.chance(50),
            fills: true,
        }
    }

    fn inputs(&self) -> Inputs {
        let plane = |values: &Vec<f64>| table(&[self.bars, self.assets], &bits(values));
        let mask = |values: &Vec<bool>| table(&[self.bars, self.assets], &switches(values));
        let firings = [self.runs, self.tranches, self.bars, self.phases];
        Inputs {
            plan: table(
                &[self.runs, self.tranches, self.decisions, self.assets],
                &bits(&self.plan),
            ),
            at: table(&firings, &codes(&self.at)),
            standing: table(&firings, &switches(&self.standing)),
            prices: self.prices.iter().map(plane).collect(),
            mark: plane(&self.mark),
            impound: self.impound.iter().map(mask).collect(),
            previous: plane(self.previous.as_ref().unwrap_or(&self.mark)),
            has_previous: self.previous.is_some(),
            new_day: table(&[self.bars], &switches(&self.new_day)),
            buyable: self.buyable.iter().map(mask).collect(),
            sellable: self.sellable.iter().map(mask).collect(),
            instrument: table(&[self.assets], &codes(&self.instrument)),
            epoch: table(&[self.bars], &codes(&self.epoch)),
            rates: table(&[8, self.epochs, self.classes], &bits(&self.rates)),
            flags: table(&[2, self.classes], &switches(&self.flags)),
            capital: number(self.capital),
            buffer: number(self.buffer),
            audit: self.audit,
            record_positions: self.positions,
            record_fills: self.fills,
        }
    }

    fn rate(&self, row: usize, bar: usize, i: usize) -> f64 {
        let (epoch, class) = (self.epoch[bar] as usize, self.instrument[i] as usize);
        self.rates[(row * self.epochs + epoch) * self.classes + class]
    }

    fn flag(&self, row: usize, i: usize) -> bool {
        self.flags[row * self.classes + self.instrument[i] as usize]
    }

    fn fee(&self, turnover: f64, row: usize, bar: usize, i: usize) -> f64 {
        let fee = turnover * self.rate(row, bar, i) + self.rate(6, bar, i);
        let least = self.rate(7, bar, i);
        if fee < least {
            least
        } else {
            fee
        }
    }
}

fn table(shape: &[usize], words: &[u64]) -> Grid {
    let mut grid = Grid::new(shape, 0).expect("fits");
    let mut index = vec![0; shape.len()];
    for word in words {
        assert!(grid.set(&index, *word));
        for axis in (0..shape.len()).rev() {
            index[axis] += 1;
            if index[axis] < shape[axis] {
                break;
            }
            index[axis] = 0;
        }
    }
    grid
}

fn bits(values: &[f64]) -> Vec<u64> {
    values.iter().map(|x| x.to_bits()).collect()
}

fn switches(values: &[bool]) -> Vec<u64> {
    values.iter().map(|on| *on as u64).collect()
}

fn codes(values: &[i32]) -> Vec<u64> {
    values.iter().map(|code| *code as u32 as u64).collect()
}

/// A fill, with its doubles by their bits.
type Print = (u32, u32, i32, u32, u64, u64, u64);

/// The dense walk: every phase scans every name.
struct Scan<'a> {
    case: &'a Case,
    run: usize,
    cash: f64,
    qty: Vec<f64>,
    target: Vec<f64>,
    liq: Vec<f64>,
    last: Vec<f64>,
    attained: Vec<f64>,
    blocked: Vec<bool>,
    budget: Vec<f64>,
    locked: Vec<f64>,
    locked_total: f64,
    fees: f64,
    bought: f64,
    sold: f64,
    equity: f64,
    fills: Vec<Print>,
}

impl<'a> Scan<'a> {
    fn new(case: &'a Case, run: usize) -> Self {
        let cells = case.tranches * case.assets;
        Scan {
            case,
            run,
            cash: case.capital,
            qty: vec![0.0; cells],
            target: vec![0.0; cells],
            liq: vec![0.0; case.assets],
            last: vec![0.0; case.assets],
            attained: vec![f64::NAN; cells],
            blocked: vec![false; cells],
            budget: vec![0.0; cells],
            locked: vec![0.0; cells],
            locked_total: 0.0,
            fees: 0.0,
            bought: 0.0,
            sold: 0.0,
            equity: 0.0,
            fills: Vec::new(),
        }
    }

    fn weight(&self, t: usize, d: usize, i: usize) -> f64 {
        let case = self.case;
        case.plan[((self.run * case.tranches + t) * case.decisions + d) * case.assets + i]
    }

    fn value(&self, bar: usize, i: usize, units: f64) -> f64 {
        units * self.last[i] * self.case.rate(3, bar, i)
    }

    fn fill(&mut self, bar: usize, phase: usize, t: i32, i: usize, units: f64, price: f64, fee: f64) {
        if self.case.fills {
            self.fills.push((
                bar as u32,
                phase as u32,
                t,
                i as u32,
                units.to_bits(),
                price.to_bits(),
                fee.to_bits(),
            ));
        }
    }

    fn release(&mut self, c: usize) {
        if self.locked[c] > 0.0 {
            self.locked_total -= self.locked[c];
            self.locked[c] = 0.0;
        }
    }

    fn buy(&mut self, bar: usize, phase: usize, t: usize, i: usize) {
        let case = self.case;
        let c = t * case.assets + i;
        let price = case.prices[phase][bar * case.assets + i];
        let mut take = self.target[c] - self.qty[c];
        if take <= 0.0 || price.is_nan() || price <= 0.0 {
            return;
        }
        let unit = price * case.rate(3, bar, i);
        let lot = case.rate(0, bar, i);
        let spendable = self.cash - self.locked_total;
        let per_unit = unit * (1.0 + case.rate(4, bar, i));
        let mut fitting = ((spendable - case.rate(6, bar, i)) / per_unit / lot).floor() * lot;
        if fitting < take {
            take = fitting;
        }
        let mut turnover = take * unit;
        let mut fee = case.fee(turnover, 4, bar, i);
        while take > 0.0 && take.is_finite() && turnover + fee > spendable {
            fitting -= lot;
            take = fitting;
            turnover = take * unit;
            fee = case.fee(turnover, 4, bar, i);
        }
        if take <= 0.0 || self.qty[c] + take < case.rate(1, bar, i) {
            return;
        }
        if !case.buyable[phase][bar * case.assets + i] {
            self.locked[c] = turnover + fee;
            self.locked_total += turnover + fee;
            return;
        }
        self.qty[c] += take;
        if case.flag(1, i) {
            self.budget[c] += take;
        }
        self.cash -= turnover + fee;
        self.fees += fee;
        self.bought += turnover;
        self.fill(bar, phase, t as i32, i, take, price, fee);
    }

    fn decide(&mut self, bar: usize, phase: usize, t: usize, d: usize) {
        let case = self.case;
        let n = case.assets;
        for i in 0..n {
            self.release(t * n + i);
        }
        let mut share = 0.0;
        let mut holding = 0.0;
        for i in 0..n {
            let weight = self.weight(t, d, i);
            if weight != 0.0 && !weight.is_nan() {
                share += weight.abs();
            }
            if self.qty[t * n + i] != 0.0 {
                holding += self.value(bar, i, self.qty[t * n + i]);
            }
        }
        let reachable = holding + (self.cash - self.locked_total);
        let investable = if share < 1e-12 {
            0.0
        } else {
            let asked = self.equity * share;
            (if reachable < asked { reachable } else { asked }) * case.buffer / share
        };
        for i in 0..n {
            let c = t * n + i;
            let weight = self.weight(t, d, i);
            let price = case.prices[phase][bar * n + i];
            let mut want = if weight.is_nan() {
                self.qty[c]
            } else if weight == 0.0 || price.is_nan() || price <= 0.0 {
                0.0
            } else {
                let value = (investable * weight).abs();
                let lot = case.rate(0, bar, i);
                let quantity = (value / (price * case.rate(3, bar, i)) / lot).floor() * lot;
                if value < case.rate(2, bar, i) || quantity < case.rate(1, bar, i) {
                    0.0
                } else if weight > 0.0 {
                    quantity
                } else {
                    -quantity
                }
            };
            if !weight.is_nan() && want < 0.0 && !case.flag(0, i) {
                want = 0.0;
            }
            self.target[c] = want;
            self.blocked[c] =
                case.audit && self.qty[c] > 0.0 && self.qty[c] - want > self.budget[c];
        }
        for i in 0..n {
            let c = t * n + i;
            let price = case.prices[phase][bar * n + i];
            let mut give = self.qty[c] - self.target[c];
            if price.is_nan() || price <= 0.0 || give <= 0.0 || !case.sellable[phase][bar * n + i] {
                continue;
            }
            if self.blocked[c] && give > self.budget[c] {
                give = self.budget[c];
            }
            if give <= 0.0 {
                continue;
            }
            let turnover = give * price * case.rate(3, bar, i);
            let fee = case.fee(turnover, 5, bar, i);
            self.qty[c] -= give;
            if case.audit && self.qty[c] + give > 0.0 {
                self.budget[c] -= give;
            }
            self.cash += turnover - fee;
            self.fees += fee;
            self.sold += turnover;
            self.fill(bar, phase, t as i32, i, -give, price, fee);
        }
        for i in 0..n {
            self.buy(bar, phase, t, i);
        }
        for i in 0..n {
            if !self.blocked[t * n + i] {
                self.attained[t * n + i] = self.weight(t, d, i);
            }
        }
    }

    fn point(&mut self, bar: usize, phase: usize, whole: &mut [i32]) {
        let case = self.case;
        let n = case.assets;
        for i in 0..n {
            let price = case.prices[phase][bar * n + i];
            if price > 0.0 {
                self.last[i] = price;
            }
        }
        let mut firing = vec![-1; case.tranches];
        for t in 0..case.tranches {
            let cell = ((self.run * case.tranches + t) * case.bars + bar) * case.phases + phase;
            let d = case.at[cell];
            if d < 0 {
                continue;
            }
            for i in 0..n {
                if case.impound[phase][bar * n + i] && self.qty[t * n + i] > 0.0 {
                    self.liq[i] += self.qty[t * n + i];
                    self.qty[t * n + i] = 0.0;
                }
            }
            let settled = case.standing[cell]
                && (whole[t] == d
                    || (0..n).all(|i| {
                        let (a, b) = (self.weight(t, d as usize, i), self.attained[t * n + i]);
                        a == b || (a.is_nan() && b.is_nan())
                    }));
            if !settled {
                firing[t] = d;
            }
        }
        for i in 0..n {
            let price = case.prices[phase][bar * n + i];
            if self.liq[i] <= 0.0 || !(price > 0.0) || !case.sellable[phase][bar * n + i] {
                continue;
            }
            let give = self.liq[i];
            let turnover = give * price * case.rate(3, bar, i);
            let fee = case.fee(turnover, 5, bar, i);
            self.liq[i] = 0.0;
            self.cash += turnover - fee;
            self.fees += fee;
            self.sold += turnover;
            self.fill(bar, phase, POOL, i, -give, price, fee);
        }
        for t in 0..case.tranches {
            for i in 0..n {
                if self.locked[t * n + i] > 0.0 && case.buyable[phase][bar * n + i] {
                    self.release(t * n + i);
                    self.buy(bar, phase, t, i);
                }
            }
        }
        if firing.iter().any(|d| *d >= 0) {
            let mut equity = self.cash;
            for i in 0..n {
                if self.liq[i] != 0.0 {
                    equity += self.value(bar, i, self.liq[i]);
                }
            }
            for t in 0..case.tranches {
                for i in 0..n {
                    if self.qty[t * n + i] != 0.0 {
                        equity += self.value(bar, i, self.qty[t * n + i]);
                    }
                }
            }
            self.equity = equity;
        }
        for t in 0..case.tranches {
            if firing[t] >= 0 {
                self.decide(bar, phase, t, firing[t] as usize);
                let refused = (0..n).any(|i| self.blocked[t * n + i]);
                whole[t] = if refused { -1 } else { firing[t] };
            }
        }
    }

    /// Five series of bars, the positions, and the fills.
    fn walk(mut self) -> (Vec<Vec<u64>>, Vec<Vec<u64>>, Vec<Print>) {
        let case = self.case;
        let n = case.assets;
        let mut series = vec![Vec::new(); 5];
        let mut held = Vec::new();
        let mut whole = vec![-1; case.tranches];
        for bar in 0..case.bars {
            if let Some(previous) = &case.previous {
                for i in 0..n {
                    let quote = previous[bar * n + i];
                    if quote > 0.0 {
                        if self.last[i] > 0.0 && self.last[i] != quote {
                            let ratio = self.last[i] / quote;
                            for t in 0..case.tranches {
                                let c = t * n + i;
                                if self.qty[c] != 0.0 {
                                    self.qty[c] *= ratio;
                                    self.target[c] *= ratio;
                                }
                                if self.budget[c] != 0.0 {
                                    self.budget[c] *= ratio;
                                }
                            }
                            if self.liq[i] > 0.0 {
                                self.liq[i] *= ratio;
                            }
                        }
                        self.last[i] = quote;
                    }
                }
            }
            if case.new_day[bar] {
                self.budget = self.qty.clone();
            }
            self.fees = 0.0;
            self.bought = 0.0;
            self.sold = 0.0;
            for phase in 0..case.phases {
                self.point(bar, phase, &mut whole);
            }
            for c in 0..case.tranches * n {
                self.release(c);
            }
            let mut value = 0.0;
            let mut row = Vec::new();
            for i in 0..n {
                let quote = case.mark[bar * n + i];
                if quote > 0.0 {
                    self.last[i] = quote;
                }
                let mut total = self.liq[i];
                for t in 0..case.tranches {
                    total += self.qty[t * n + i];
                }
                if total != 0.0 {
                    value += self.value(bar, i, total);
                }
                row.push(total.to_bits());
            }
            held.push(row);
            for (list, x) in series.iter_mut().zip([
                self.cash + value,
                self.cash,
                self.fees,
                self.bought,
                self.sold,
            ]) {
                list.push(x.to_bits());
            }
        }
        (series, held, self.fills)
    }
}

fn compare(case: &Case) -> usize {
    let inputs = case.inputs();
    let (reported, held, fills) = run_all::<Plain>(&inputs);
    let mut count = 0;
    for run in 0..case.runs {
        let (series, rows, wanted) = Scan::new(case, run).walk();
        for row in 0..5 {
            for bar in 0..case.bars {
                assert_eq!(
                    reported.get(&[row, run, bar]),
                    Some(series[row][bar]),
                    "series {row}, run {run}, bar {bar}",
                );
            }
        }
        if case.positions {
            for bar in 0..case.bars {
                for i in 0..case.assets {
                    let got = held.get(&[run, bar, i]).expect("a position");
                    assert_eq!(got, rows[bar][i], "bar {bar}");
                }
            }
        } else {
            assert_eq!(held.get(&[0, 0, 0]), Some(0));
            assert_eq!(held.get(&[1, 0, 0]), None);
        }
        let got: Vec<Print> = fills[run]
            .iter()
            .map(|fill| {
                (
                    fill.bar,
                    fill.point,
                    fill.tranche,
                    fill.asset,
                    fill.units.bits,
                    fill.price.bits,
                    fill.fee.bits,
                )
            })
            .collect();
        assert_eq!(got, wanted, "run {run}");
        count += wanted.len();
    }
    count
}

#[test]
fn the_walk_is_the_dense_scan_bit_for_bit() {
    let mut count = 0;
    for seed in 1..=150 {
        count += compare(&Case::random(seed));
    }
    assert!(count > 3_000, "the cases trade, got {count} fills");
}

#[test]
fn reporting_positions_does_not_move_the_equity() {
    for seed in 1..=30 {
        let mut case = Case::random(seed);
        case.positions = true;
        let (with, _, _) = run_all::<Plain>(&case.inputs());
        case.positions = false;
        let (without, _, _) = run_all::<Plain>(&case.inputs());
        for row in 0..5 {
            for run in 0..case.runs {
                for bar in 0..case.bars {
                    assert_eq!(with.get(&[row, run, bar]), without.get(&[row, run, bar]));
                }
            }
        }
    }
}

#[test]
fn recording_fills_changes_nothing_but_the_record() {
    for seed in 1..=30 {
        let mut case = Case::random(seed);
        let (with, _, some) = run_all::<Plain>(&case.inputs());
        case.fills = false;
        let (without, _, none) = run_all::<Plain>(&case.inputs());
        assert!(none.iter().all(|fills| fills.is_empty()));
        assert!(some.iter().any(|fills| !fills.is_empty()));
        for row in 0..5 {
            for run in 0..case.runs {
                for bar in 0..case.bars {
                    assert_eq!(with.get(&[row, run, bar]), without.get(&[row, run, bar]));
                }
            }
        }
    }
}

#[test]
fn fills_come_in_order_and_their_fees_are_the_bars() {
    for seed in 1..=30 {
        let case = Case::random(seed);
        let (reported, _, fills) = run_all::<Plain>(&case.inputs());
        for run in 0..case.runs {
            assert!(fills[run].windows(2).all(|pair| pair[0].bar <= pair[1].bar));
            for bar in 0..case.bars {
                let paid = fills[run]
                    .iter()
                    .filter(|fill| fill.bar as usize == bar)
                    .fold(Binary64::zero(), |sum, fill| sum.plus(fill.fee));
                assert_eq!(reported.get(&[2, run, bar]), Some(paid.bits));
            }
        }
    }
}

#[test]
fn a_run_does_not_depend_on_the_others() {
    let case = Case::random(7);
    let inputs = case.inputs();
    let (reported, _, fills) = run_all::<Plain>(&inputs);
    for run in 0..case.runs {
        let alone = walk_run::<Plain>(run, &inputs);
        for row in 0..5 {
            for bar in 0..case.bars {
                assert_eq!(
                    reported.get(&[row, run, bar]),
                    Some(alone.reported[row * case.bars + bar].bits),
                );
            }
        }
        assert_eq!(alone.fills.len(), fills[run].len());
    }
}

#[test]
fn one_account_writes_its_rows_and_nothing_past_them() {
    let mut case = Case::plain(3);
    case.plan = vec![0.0, 1.0, 0.0];
    let mut reported = vec![number(-1.0); 5 * 3 + 2];
    let mut positions = vec![number(-1.0); 3 + 2];
    let fills = run_account::<Plain>(0, &case.inputs(), &mut reported, &mut positions);
    let got: Vec<f64> = positions.iter().map(float).collect();
    assert_eq!(got, vec![0.0, 100_000.0, 0.0, -1.0, -1.0]);
    let cash: Vec<f64> = reported[3..6].iter().map(float).collect();
    assert_eq!(cash, vec![1_000_000.0, 0.0, 1_000_000.0]);
    let bought: Vec<f64> = reported[9..12].iter().map(float).collect();
    assert_eq!(bought, vec![0.0, 1_000_000.0, 0.0]);
    let sold: Vec<f64> = reported[12..15].iter().map(float).collect();
    assert_eq!(sold, vec![0.0, 0.0, 1_000_000.0]);
    assert_eq!(float(&reported[15]), -1.0);
    assert_eq!(float(&reported[16]), -1.0);
    let units: Vec<f64> = fills.iter().map(|fill| float(&fill.units)).collect();
    assert_eq!(units, vec![100_000.0, -100_000.0]);
}

#[test]
fn holding_nothing_keeps_the_capital() {
    let mut case = Case::random(3);
    case.plan.iter_mut().for_each(|weight| *weight = 0.0);
    let (reported, _, fills) = run_all::<Plain>(&case.inputs());
    for run in 0..case.runs {
        assert!(fills[run].is_empty());
        for bar in 0..case.bars {
            assert_eq!(reported.get(&[0, run, bar]), Some(case.capital.to_bits()));
            assert_eq!(reported.get(&[1, run, bar]), Some(case.capital.to_bits()));
            for row in 2..5 {
                assert_eq!(reported.get(&[row, run, bar]), Some(0));
            }
        }
    }
}

#[test]
fn the_fee_floor_backs_a_full_order_off_a_lot() {
    let mut case = Case::plain(1);
    case.plan = vec![1.0];
    case.rates[7] = 5.0;
    compare(&case);
    let (_, _, fills) = run_all::<Plain>(&case.inputs());
    assert_eq!(float(&fills[0][0].units), 99_900.0);
    assert_eq!(float(&fills[0][0].fee), 5.0);
}

#[test]
fn a_lot_too_small_to_count_fits_nothing() {
    let mut case = Case::plain(1);
    case.plan = vec![1.0];
    // The floor is dear, and taking a lot off does not move the count.
    case.rates[0] = 1e-20;
    case.rates[7] = 5.0;
    let (reported, _, fills) = run_all::<Plain>(&case.inputs());
    assert!(fills[0].is_empty());
    assert_eq!(reported.get(&[1, 0, 0]), Some(1_000_000.0f64.to_bits()));
}

#[test]
fn a_blocked_buy_stands_until_a_later_point_fills_it() {
    let mut case = Case::plain(1);
    case.phases = 2;
    case.decisions = 1;
    case.at = vec![0, -1];
    case.standing = vec![false; 2];
    case.plan = vec![1.0];
    case.prices = vec![vec![10.0], vec![20.0]];
    case.impound = vec![vec![false]; 2];
    case.buyable = vec![vec![false], vec![true]];
    case.sellable = vec![vec![true]; 2];
    compare(&case);
    let (_, _, fills) = run_all::<Plain>(&case.inputs());
    // Struck at ten, checked against twenty when it fills.
    assert_eq!(fills[0].len(), 1);
    assert_eq!((fills[0][0].point, float(&fills[0][0].units)), (1, 50_000.0));
}

#[test]
fn an_order_that_never_fills_expires_and_its_cash_is_free() {
    let mut case = Case::plain(2);
    case.plan = vec![1.0, 1.0];
    case.buyable = vec![vec![false, true]];
    compare(&case);
    let (reported, _, fills) = run_all::<Plain>(&case.inputs());
    assert_eq!(reported.get(&[0, 0, 0]), Some(1_000_000.0f64.to_bits()));
    assert_eq!(fills[0].len(), 1);
    assert_eq!((fills[0][0].bar, float(&fills[0][0].units)), (1, 100_000.0));
}

#[test]
fn a_stuck_holding_leaves_for_the_pool_and_the_pool_sells_it() {
    let mut case = Case::plain(3);
    case.plan = vec![1.0, 1.0, 1.0];
    case.impound = vec![vec![false, true, false]];
    case.sellable = vec![vec![true, false, true]];
    case.buyable = vec![vec![true, false, false]];
    compare(&case);
    let (_, _, fills) = run_all::<Plain>(&case.inputs());
    assert_eq!(fills[0].len(), 2);
    assert_eq!((fills[0][1].tranche, fills[0][1].bar), (POOL, 2));
    assert_eq!(float(&fills[0][1].units), -100_000.0);
}

#[test]
fn a_standing_firing_already_attained_trades_nothing() {
    let mut case = Case::plain(3);
    case.plan = vec![0.5, 0.5, 0.5];
    case.standing = vec![true; 3];
    case.prices = vec![vec![10.0, 12.0, 8.0]];
    compare(&case);
    let (_, _, fills) = run_all::<Plain>(&case.inputs());
    assert_eq!(fills[0].len(), 1);
    case.standing = vec![false; 3];
    compare(&case);
    let (_, _, fills) = run_all::<Plain>(&case.inputs());
    assert_eq!(fills[0].len(), 3);
}

#[test]
fn what_was_bought_today_cannot_be_sold_today() {
    let mut case = Case::plain(3);
    case.plan = vec![1.0, 0.0, 0.0];
    case.new_day = vec![true, false, true];
    case.audit = true;
    compare(&case);
    let (_, _, fills) = run_all::<Plain>(&case.inputs());
    let bars: Vec<u32> = fills[0].iter().map(|fill| fill.bar).collect();
    assert_eq!(bars, vec![0, 2]);
    // A class that may sell on the bar it bought does.
    case.flags[1] = true;
    compare(&case);
    let (_, _, fills) = run_all::<Plain>(&case.inputs());
    let bars: Vec<u32> = fills[0].iter().map(|fill| fill.bar).collect();
    assert_eq!(bars, vec![0, 1]);
}

#[test]
fn a_corporate_action_scales_the_units() {
    let mut case = Case::plain(2);
    case.plan = vec![1.0, f64::NAN];
    case.previous = Some(vec![f64::NAN, 4.0]);
    case.prices = vec![vec![10.0, 4.0]];
    case.mark = vec![10.0, 4.0];
    compare(&case);
    let (reported, held, _) = run_all::<Plain>(&case.inputs());
    assert_eq!(held.get(&[0, 1, 0]), Some(250_000.0f64.to_bits()));
    assert_eq!(reported.get(&[0, 0, 1]), Some(1_000_000.0f64.to_bits()));
}

#[test]
fn a_name_that_cannot_be_shorted_is_left_alone() {
    let mut case = Case::plain(1);
    case.plan = vec![-0.5];
    compare(&case);
    let (_, held, fills) = run_all::<Plain>(&case.inputs());
    assert!(fills[0].is_empty());
    assert_eq!(held.get(&[0, 0, 0]), Some(0));
    case.flags[0] = true;
    compare(&case);
    let (_, held, _) = run_all::<Plain>(&case.inputs());
    assert_eq!(held.get(&[0, 0, 0]), Some((-50_000.0f64).to_bits()));
}

#[test]
fn a_fresh_decision_withdraws_what_stood() {
    let mut case = Case::plain(1);
    case.phases = 3;
    case.decisions = 2;
    case.at = vec![0, 1, -1];
    case.standing = vec![false; 3];
    case.plan = vec![1.0, 0.0];
    case.prices = vec![vec![10.0]; 3];
    case.impound = vec![vec![false]; 3];
    case.buyable = vec![vec![false], vec![false], vec![true]];
    case.sellable = vec![vec![true]; 3];
    compare(&case);
    let (_, _, fills) = run_all::<Plain>(&case.inputs());
    assert!(fills[0].is_empty());
}

#[test]
fn a_refused_reduction_is_tried_again() {
    // Bought and to be sold on one day: refused, so not attained, and the
    // standing firing comes back to it when the next day opens.
    let mut case = Case::plain(4);
    case.plan = vec![1.0, 0.0, 0.0, 0.0];
    case.at = vec![0, 1, 1, 1];
    case.standing = vec![true; 4];
    case.new_day = vec![true, false, true, true];
    case.audit = true;
    compare(&case);
    let (_, _, fills) = run_all::<Plain>(&case.inputs());
    let bars: Vec<u32> = fills[0].iter().map(|fill| fill.bar).collect();
    assert_eq!(bars, vec![0, 2]);
}

#[test]
fn buying_never_takes_cash_below_zero() {
    for seed in 1..=60 {
        let mut dice = Dice(seed * 977 + 1);
        let mut case = Case::plain(8);
        case.plan = (0..8).map(|_| dice.unit()).collect();
        case.prices = vec![(0..8).map(|_| 3.0 + 9.0 * dice.unit()).collect()];
        case.rates[0] = [1.0, 100.0][dice.below(2) as usize];
        case.rates[4] = 0.01 * dice.unit();
        case.rates[6] = 3.0 * dice.unit();
        case.rates[7] = 9.0 * dice.unit();
        case.buyable = vec![(0..8).map(|_| dice.chance(80)).collect()];
        case.capital = 5_000.0 * (1.0 + dice.unit());
        compare(&case);
        let (reported, _, _) = run_all::<Plain>(&case.inputs());
        for bar in 0..8 {
            let cash = f64::from_bits(reported.get(&[1, 0, bar]).expect("cash"));
            assert!(cash >= 0.0, "seed {seed}, bar {bar}: {cash}");
        }
    }
}

#[test]
fn a_missing_weight_keeps_the_book() {
    let mut case = Case::plain(3);
    case.plan = vec![0.5, f64::NAN, 0.0];
    case.prices = vec![vec![10.0, 20.0, 20.0]];
    compare(&case);
    let (_, held, fills) = run_all::<Plain>(&case.inputs());
    assert_eq!(held.get(&[0, 1, 0]), Some(50_000.0f64.to_bits()));
    assert_eq!(fills[0].len(), 2);
}

#[test]
fn fills_come_point_after_point_and_turn_over_what_the_bars_report() {
    for seed in 1..=30 {
        let case = Case::random(seed);
        let (reported, _, fills) = run_all::<Plain>(&case.inputs());
        for run in 0..case.runs {
            assert!(fills[run]
                .windows(2)
                .all(|pair| (pair[0].bar, pair[0].point) <= (pair[1].bar, pair[1].point)));
            for bar in 0..case.bars {
                let (mut bought, mut sold) = (0.0, 0.0);
                for fill in fills[run].iter().filter(|fill| fill.bar as usize == bar) {
                    let (units, price) = (float(&fill.units), float(&fill.price));
                    let multiplier = case.rate(3, bar, fill.asset as usize);
                    if units > 0.0 {
                        bought += units * (price * multiplier);
                    } else {
                        sold += -units * price * multiplier;
                    }
                }
                assert_eq!(reported.get(&[3, run, bar]), Some(f64::to_bits(bought)));
                assert_eq!(reported.get(&[4, run, bar]), Some(f64::to_bits(sold)));
            }
        }
    }
}

#[test]
fn no_later_bar_reaches_an_earlier_answer() {
    for seed in 1..=20 {
        let case = Case::random(seed);
        let mut other = case.clone();
        let (known, cut) = (case.bars / 2, case.bars / 2 * case.assets);
        for plane in other.prices.iter_mut() {
            for price in plane[cut..].iter_mut() {
                *price *= 3.0;
            }
        }
        for price in other.mark[cut..].iter_mut() {
            *price = 1.0;
        }
        for plane in other.buyable.iter_mut() {
            for open in plane[cut..].iter_mut() {
                *open = !*open;
            }
        }
        for day in other.new_day[known..].iter_mut() {
            *day = !*day;
        }
        let (ours, _, fills) = run_all::<Plain>(&case.inputs());
        let (theirs, _, others) = run_all::<Plain>(&other.inputs());
        let mut moved = false;
        for run in 0..case.runs {
            for row in 0..5 {
                for bar in 0..known {
                    assert_eq!(ours.get(&[row, run, bar]), theirs.get(&[row, run, bar]));
                }
                for bar in known..case.bars {
                    moved = moved || ours.get(&[row, run, bar]) != theirs.get(&[row, run, bar]);
                }
            }
            let early = |list: &Vec<johnnybt_engine::account::Fill>| {
                list.iter()
                    .filter(|fill| (fill.bar as usize) < known)
                    .map(|fill| (fill.point, fill.asset, fill.units.bits, fill.fee.bits))
                    .collect::<Vec<(u32, u32, u64, u64)>>()
            };
            assert_eq!(early(&fills[run]), early(&others[run]));
        }
        assert!(moved);
    }
}

#[test]
fn what_another_run_decides_does_not_matter() {
    for seed in 1..=20 {
        let case = Case::random(seed);
        let mut other = case.clone();
        let (plan, firings) = (case.plan.len() / case.runs, case.at.len() / case.runs);
        for weight in other.plan[plan..].iter_mut() {
            *weight = 0.1;
        }
        for decision in other.at[firings..].iter_mut() {
            *decision = 0;
        }
        for stands in other.standing[firings..].iter_mut() {
            *stands = false;
        }
        let (ours, _, fills) = run_all::<Plain>(&case.inputs());
        let (theirs, _, others) = run_all::<Plain>(&other.inputs());
        for row in 0..5 {
            for bar in 0..case.bars {
                assert_eq!(ours.get(&[row, 0, bar]), theirs.get(&[row, 0, bar]));
            }
        }
        assert_eq!(fills[0].len(), others[0].len());
    }
}

#[test]
fn an_order_does_not_draw_on_what_another_locked() {
    // Two names ask for half the money each; nothing can be bought at the
    // first point, and the fee leaves the second order short.
    let mut case = Case::plain(1);
    case.assets = 2;
    case.phases = 2;
    case.plan = vec![1.0, 1.0];
    case.at = vec![0, -1];
    case.standing = vec![false; 2];
    case.prices = vec![vec![10.0; 2]; 2];
    case.mark = vec![10.0; 2];
    case.impound = vec![vec![false; 2]; 2];
    case.buyable = vec![vec![false; 2], vec![true; 2]];
    case.sellable = vec![vec![true; 2]; 2];
    case.instrument = vec![0; 2];
    case.rates[4] = 0.01;
    compare(&case);
    let (reported, _, fills) = run_all::<Plain>(&case.inputs());
    let units: Vec<f64> = fills[0].iter().map(|fill| float(&fill.units)).collect();
    assert_eq!(units, vec![50_000.0, 49_000.0]);
    assert_eq!(reported.get(&[1, 0, 0]), Some(f64::to_bits(100.0)));
}

#[test]
fn trading_once_misses_no_name() {
    let mut case = Case::plain(1);
    case.assets = 4;
    case.plan = vec![0.0, 0.5, 0.0, 0.25];
    case.prices = vec![vec![10.0; 4]];
    case.mark = vec![10.0; 4];
    case.impound = vec![vec![false; 4]];
    case.buyable = vec![vec![true, true, true, false]];
    case.sellable = vec![vec![true; 4]];
    case.instrument = vec![0; 4];
    let inputs = case.inputs();
    let at = Point {
        bar: 0,
        phase: 0,
        epoch: 0,
    };
    let mut account = Account::new(0, 1, 4, number(case.capital));
    let mut book = Plain::new(1, 4);
    // A holding the decision drops.
    account.qty[0] = number(300.0);
    account.touch(0, 0);
    account.mark_point(&inputs, at);
    assert!(account.resolve_firings(&inputs, at));
    account.snapshot_equity(&inputs, at);
    book.decide_and_trade(&mut account, &inputs, at);
    assert_eq!(account.named(0), &[0, 1, 3]);
    assert_eq!(float(&account.qty[0]), 0.0);
    assert!(float(&account.qty[1]) > 0.0);
    assert_eq!(float(&account.qty[3]), 0.0);
    assert!(!book.at_rest(0, 3) && book.at_rest(0, 2));
}

#[test]
fn cash_adds_up_from_bar_to_bar() {
    // Whole prices, whole fees: nothing is rounded.
    let mut case = Case::plain(6);
    case.plan = vec![1.0, 0.5, 0.25, 0.75, 0.0, 1.0];
    case.prices = vec![vec![10.0, 12.0, 9.0, 8.0, 16.0, 20.0]];
    case.rates[6] = 3.0;
    for fills in [true, false] {
        case.fills = fills;
        let (reported, _, _) = run_all::<Plain>(&case.inputs());
        let series = |row: usize, bar: usize| {
            f64::from_bits(reported.get(&[row, 0, bar]).expect("a number"))
        };
        let mut cash = case.capital;
        for bar in 0..case.bars {
            cash = cash + series(4, bar) - series(3, bar) - series(2, bar);
            assert_eq!(series(1, bar), cash);
        }
        assert_eq!(series(2, 0), 3.0);
    }
}

#[test]
fn cash_is_what_the_fills_leave() {
    for seed in 1..=20 {
        let case = Case::random(seed);
        let (reported, _, fills) = run_all::<Plain>(&case.inputs());
        for run in 0..case.runs {
            let mut cash = case.capital;
            for bar in 0..case.bars {
                for fill in fills[run].iter().filter(|fill| fill.bar as usize == bar) {
                    let (units, price, fee) =
                        (float(&fill.units), float(&fill.price), float(&fill.fee));
                    let multiplier = case.rate(3, bar, fill.asset as usize);
                    if units > 0.0 {
                        cash -= units * (price * multiplier) + fee;
                    } else {
                        cash += -units * price * multiplier - fee;
                    }
                }
                assert_eq!(reported.get(&[1, run, bar]), Some(f64::to_bits(cash)));
            }
        }
    }
}

#[test]
fn asking_for_positions_and_fills_changes_no_series() {
    for seed in 1..=20 {
        let mut case = Case::random(seed);
        let mut answers = Vec::new();
        for (positions, fills) in [(true, true), (true, false), (false, true), (false, false)] {
            case.positions = positions;
            case.fills = fills;
            let (reported, _, record) = run_all::<Plain>(&case.inputs());
            let mut words = Vec::new();
            for row in 0..5 {
                for run in 0..case.runs {
                    for bar in 0..case.bars {
                        words.push(reported.get(&[row, run, bar]));
                    }
                }
            }
            answers.push(words);
            assert_eq!(record.iter().any(|list| !list.is_empty()), fills);
        }
        assert!(answers.windows(2).all(|pair| pair[0] == pair[1]));
    }
}

#[test]
fn every_negative_code_fires_nothing() {
    let mut case = Case::plain(2);
    case.plan = vec![1.0, 1.0];
    case.at = vec![-7, -1];
    let inputs = case.inputs();
    let mut account = Account::new(0, 1, 1, number(case.capital));
    account.fire[0] = 0;
    let at = Point {
        bar: 0,
        phase: 0,
        epoch: 0,
    };
    assert!(!account.resolve_firings(&inputs, at));
    assert_eq!(account.fire, vec![-1]);
    compare(&case);
}

#[test]
fn a_buy_draws_on_what_no_order_has_locked() {
    let mut case = Case::plain(1);
    case.assets = 2;
    case.plan = vec![0.0, 0.0];
    case.prices = vec![vec![10.0; 2]];
    case.mark = vec![10.0; 2];
    case.impound = vec![vec![false; 2]];
    case.buyable = vec![vec![false, true]];
    case.sellable = vec![vec![true; 2]];
    case.instrument = vec![0; 2];
    let inputs = case.inputs();
    let at = Point {
        bar: 0,
        phase: 0,
        epoch: 0,
    };
    let mut account = Account::new(0, 1, 2, number(case.capital));
    let mut book = Plain::new(1, 2);
    account.target = vec![number(70_000.0), number(70_000.0)];
    // The first order is blocked and locks its cost, the second one gets the
    // rest.
    book.buy(&mut account, &inputs, 0, 0, at);
    assert_eq!(float(&account.cash), 1_000_000.0);
    assert!(!book.at_rest(0, 0));
    book.buy(&mut account, &inputs, 0, 1, at);
    assert_eq!(float(&account.qty[1]), 30_000.0);
    assert_eq!(float(&account.cash), 700_000.0);
    assert_eq!(account.named(0), &[0, 1]);
}
