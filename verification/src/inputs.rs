//! What one simulation is handed: the normalized arrays, and where each
//! packed row lives.

use vstd::prelude::*;

use crate::binary64::Binary64;
use crate::grid;
use crate::grid::Grid;

verus! {

// Row layout of the packed rates matrix.
pub const LOT: usize = 0;
pub const MIN_LOT: usize = 1;
pub const MIN_NOTIONAL: usize = 2;
pub const MULTIPLIER: usize = 3;
pub const BUY_FEE: usize = 4;
pub const SELL_FEE: usize = 5;
pub const FIXED_FEE: usize = 6;
pub const MIN_FEE: usize = 7;

// Flags rows, mirroring the flags matrix.
pub const SHORTABLE: usize = 0;
pub const SAME_BAR: usize = 1;

// Reported series rows.
pub const EQUITY: usize = 0;
pub const CASH: usize = 1;
pub const FEES: usize = 2;
pub const BOUGHT: usize = 3;
pub const SOLD: usize = 4;
pub const REPORTED: usize = 5;

/// Where the walk stands: one price point of one bar, under one rule epoch.
///
/// Every phase of the account and every policy hook reads the same three
/// coordinates; carrying them as one value keeps the signatures short and
/// makes it impossible to hand a bar's epoch to another bar's point.
#[derive(Clone, Copy, Debug)]
pub struct Point {
    pub bar: usize,
    pub phase: usize,
    pub epoch: usize,
}

/// One simulation's inputs.
///
/// With `R` runs, `K` tranches, `D` decisions, `T` bars, `P` price points
/// and `N` names: `plan` is `(R, K, D, N)`; `at` and `standing` are
/// `(R, K, T, P)`; a plane of `prices`, `impound`, `buyable` or `sellable`
/// is `(T, N)`, one per price point, and so are `mark` and `previous`;
/// `new_day` and `epoch` are `(T,)`; `instrument` is `(N,)`; `rates` is
/// `(rows, epochs, classes)` and `flags` is `(rows, classes)`. See
/// [`Inputs::valid`].
///
/// Nothing has to be said about what no name needs: a rate the rulebook does
/// not have is not a number, and a flag or a switch that is not there is off.
pub struct Inputs {
    pub plan: Grid,
    pub at: Grid,
    pub standing: Grid,
    pub prices: Vec<Grid>,
    pub mark: Grid,
    pub impound: Vec<Grid>,
    pub previous: Grid,
    pub has_previous: bool,
    pub new_day: Grid,
    pub buyable: Vec<Grid>,
    pub sellable: Vec<Grid>,
    pub instrument: Grid,
    pub epoch: Grid,
    pub rates: Grid,
    pub flags: Grid,
    pub capital: Binary64,
    pub buffer: Binary64,
    pub audit: bool,
    pub record_positions: bool,
    pub record_fills: bool,
}

/// One plane per price point, each `(bars, assets)`.
pub open spec fn planes(stack: Seq<Grid>, phases: int, bars: int, assets: int) -> bool {
    &&& stack.len() == phases
    &&& forall|p: int| 0 <= p < phases ==> (#[trigger] stack[p]).shape() == seq![bars, assets]
}

/// Every plane of a stack is `(bars, assets)`.
pub open spec fn layers(stack: Seq<Grid>, bars: int, assets: int) -> bool {
    forall|p: int| 0 <= p < stack.len() ==> (#[trigger] stack[p]).shape() == seq![bars, assets]
}

/// Whether the switch of one plane of a stack is on; one that is not there is
/// off.
pub open spec fn switched(stack: Seq<Grid>, phase: int, bar: int, i: int) -> bool {
    0 <= phase < stack.len() && stack[phase].on(seq![bar, i])
}

impl Inputs {
    pub open spec fn runs(self) -> int {
        self.plan.shape()[0]
    }

    pub open spec fn tranches(self) -> int {
        self.plan.shape()[1]
    }

    pub open spec fn decisions(self) -> int {
        self.plan.shape()[2]
    }

    pub open spec fn assets(self) -> int {
        self.plan.shape()[3]
    }

    pub open spec fn bars(self) -> int {
        self.mark.shape()[0]
    }

    pub open spec fn phases(self) -> int {
        self.prices@.len() as int
    }

    /// The shapes agree, and every firing points at a row of the plan.
    pub open spec fn valid(self) -> bool {
        let (bars, assets, phases) = (self.bars(), self.assets(), self.phases());
        let firings = seq![self.runs(), self.tranches(), bars, phases];
        &&& self.plan.shape().len() == 4
        &&& forall|axis: int| 0 <= axis < 4 ==> 0 <= #[trigger] self.plan.shape()[axis]
            <= usize::MAX
        &&& self.tranches() * assets <= usize::MAX
        &&& self.mark.shape() == seq![bars, assets]
        &&& 0 <= bars <= usize::MAX
        &&& bars > 0 ==> phases > 0
        &&& self.at.shape() == firings
        &&& self.standing.shape() == firings
        &&& planes(self.prices@, phases, bars, assets)
        &&& layers(self.impound@, bars, assets)
        &&& layers(self.buyable@, bars, assets)
        &&& layers(self.sellable@, bars, assets)
        &&& self.has_previous ==> self.previous.shape() == seq![bars, assets]
        &&& self.new_day.shape() == seq![bars]
        &&& self.epoch.shape() == seq![bars]
        &&& self.instrument.shape() == seq![assets]
        &&& self.rates.shape().len() == 3
        &&& self.flags.shape().len() == 2
        &&& forall|run: int, k: int, bar: int, phase: int|
            0 <= run < self.runs() && 0 <= k < self.tranches() && 0 <= bar < bars && 0 <= phase
                < phases ==> #[trigger] self.firing(run, k, bar, phase) < self.decisions()
    }

    /// A point of the walk these inputs cover.
    pub open spec fn covers(self, at: Point) -> bool {
        &&& at.bar < self.bars()
        &&& at.phase < self.phases()
    }

    /// The weight decision `d` of tranche `k` gives name `i`.
    pub open spec fn weight(self, run: int, k: int, d: int, i: int) -> Binary64 {
        self.plan.number(seq![run, k, d, i])
    }

    /// The decision tranche `k` fires at a point; negative for none.
    pub open spec fn firing(self, run: int, k: int, bar: int, phase: int) -> int {
        self.at.code(seq![run, k, bar, phase]) as int
    }

    /// Whether that firing acts only on a change.
    pub open spec fn stands(self, run: int, k: int, bar: int, phase: int) -> bool {
        self.standing.on(seq![run, k, bar, phase])
    }

    /// The price of a name at a point.
    pub open spec fn quote(self, phase: int, bar: int, i: int) -> Binary64 {
        self.prices@[phase].number(seq![bar, i])
    }

    /// Whether a buy can fill there.
    pub open spec fn can_buy(self, phase: int, bar: int, i: int) -> bool {
        switched(self.buyable@, phase, bar, i)
    }

    /// Whether a sell can fill there.
    pub open spec fn can_sell(self, phase: int, bar: int, i: int) -> bool {
        switched(self.sellable@, phase, bar, i)
    }

    /// Whether a holding is stuck at the limit there.
    pub open spec fn stuck(self, phase: int, bar: int, i: int) -> bool {
        switched(self.impound@, phase, bar, i)
    }

    /// The closing price of a name.
    pub open spec fn close(self, bar: int, i: int) -> Binary64 {
        self.mark.number(seq![bar, i])
    }

    /// The exchange's reference close before a bar.
    pub open spec fn reference(self, bar: int, i: int) -> Binary64 {
        self.previous.number(seq![bar, i])
    }

    /// Whether a bar opens a trading day.
    pub open spec fn opens_day(self, bar: int) -> bool {
        self.new_day.on(seq![bar])
    }

    /// The rule epoch a bar falls in.
    pub open spec fn era(self, bar: int) -> int {
        self.epoch.code(seq![bar]) as int
    }

    /// A name's class code.
    pub open spec fn category(self, i: int) -> int {
        self.instrument.code(seq![i]) as usize as int
    }

    /// One rate of one class under one epoch; not a number, if the rulebook
    /// does not have it.
    pub open spec fn rated(self, row: int, epoch: int, category: int) -> Binary64 {
        if grid::inside(self.rates.shape(), seq![row, epoch, category]) {
            self.rates.number(seq![row, epoch, category])
        } else {
            Binary64::nan()
        }
    }

    /// One flag of one class; off, if the rulebook does not have it.
    pub open spec fn flagged(self, row: int, category: int) -> bool {
        grid::inside(self.flags.shape(), seq![row, category]) && self.flags.on(
            seq![row, category],
        )
    }

    /// One rate of one name under one epoch.
    pub open spec fn rate_of(self, row: usize, epoch: int, i: int) -> Binary64 {
        self.rated(row as int, epoch, self.category(i))
    }

    /// One flag of one name.
    pub open spec fn flag_of(self, row: usize, i: int) -> bool {
        self.flagged(row as int, self.category(i))
    }

    /// A fee on one fill: proportional plus fixed, floored at the minimum.
    pub open spec fn charge(self, turnover: Binary64, rate: Binary64, epoch: int, category: int)
        -> Binary64 {
        let fee = turnover.times(rate).plus(self.rated(FIXED_FEE as int, epoch, category));
        let least = self.rated(MIN_FEE as int, epoch, category);
        if fee.less(least) {
            least
        } else {
            fee
        }
    }

    /// How many price points a bar carries.
    pub fn points(&self) -> (n: usize)
        ensures
            n == self.phases(),
    {
        self.prices.len()
    }

    /// How many bars.
    pub fn steps(&self) -> (n: usize)
        requires
            self.mark.shape().len() > 0,
        ensures
            n == self.bars(),
    {
        let axes: Vec<usize> = self.mark.axes();
        proof {
            assert(crate::grid::ints(axes@)[0] == axes@[0]);
        }
        axes[0]
    }

    /// The price at one point of one bar for one instrument.
    pub fn price(&self, phase: usize, t: usize, i: usize) -> (price: Binary64)
        requires
            phase < self.phases(),
            grid::inside(self.prices@[phase as int].shape(), seq![t as int, i as int]),
        ensures
            price == self.quote(phase as int, t as int, i as int),
    {
        Binary64 { bits: self.prices[phase].at2(t, i) }
    }

    /// Whether a buy can fill there.
    pub fn buyable(&self, phase: usize, t: usize, i: usize) -> (can: bool)
        requires
            phase < self.buyable@.len() ==> grid::inside(
                self.buyable@[phase as int].shape(),
                seq![t as int, i as int],
            ),
        ensures
            can == self.can_buy(phase as int, t as int, i as int),
    {
        phase < self.buyable.len() && self.buyable[phase].at2(t, i) != 0
    }

    /// Whether a sell can fill there.
    pub fn sellable(&self, phase: usize, t: usize, i: usize) -> (can: bool)
        requires
            phase < self.sellable@.len() ==> grid::inside(
                self.sellable@[phase as int].shape(),
                seq![t as int, i as int],
            ),
        ensures
            can == self.can_sell(phase as int, t as int, i as int),
    {
        phase < self.sellable.len() && self.sellable[phase].at2(t, i) != 0
    }

    /// Whether a holding is stuck at the limit there.
    pub fn impound(&self, phase: usize, t: usize, i: usize) -> (stuck: bool)
        requires
            phase < self.impound@.len() ==> grid::inside(
                self.impound@[phase as int].shape(),
                seq![t as int, i as int],
            ),
        ensures
            stuck == self.stuck(phase as int, t as int, i as int),
    {
        phase < self.impound.len() && self.impound[phase].at2(t, i) != 0
    }

    /// The instrument's class code.
    pub fn class(&self, i: usize) -> (category: usize)
        requires
            grid::inside(self.instrument.shape(), seq![i as int]),
        ensures
            category == self.category(i as int),
    {
        #[verifier::truncate]
        (grid::decode_code(self.instrument.at1(i)) as usize)
    }

    /// One rate for one instrument under one epoch; not a number, if the
    /// rulebook does not have it.
    pub fn rate(&self, row: usize, e: usize, c: usize) -> (rate: Binary64)
        ensures
            rate == self.rated(row as int, e as int, c as int),
    {
        let index: [usize; 3] = [row, e, c];
        proof {
            assert(grid::ints(index@) =~= seq![row as int, e as int, c as int]);
        }
        match self.rates.get(&index) {
            Some(bits) => Binary64 { bits },
            None => Binary64::nan(),
        }
    }

    /// A fee on one fill: proportional plus fixed, floored at the minimum.
    pub fn fee(&self, turnover: Binary64, rate: Binary64, e: usize, c: usize) -> (fee: Binary64)
        ensures
            fee == self.charge(turnover, rate, e as int, c as int),
    {
        let fee: Binary64 = turnover.times(rate).plus(self.rate(FIXED_FEE, e, c));
        let least: Binary64 = self.rate(MIN_FEE, e, c);
        if fee.less(least) {
            least
        } else {
            fee
        }
    }

    pub(crate) fn flag(&self, row: usize, c: usize) -> (on: bool)
        ensures
            on == self.flagged(row as int, c as int),
    {
        let index: [usize; 2] = [row, c];
        proof {
            assert(grid::ints(index@) =~= seq![row as int, c as int]);
        }
        match self.flags.get(&index) {
            Some(word) => word != 0,
            None => false,
        }
    }

    pub(crate) fn plan_weight(&self, run: usize, k: usize, d: usize, i: usize) -> (w: Binary64)
        requires
            self.valid(),
            run < self.runs(),
            k < self.tranches(),
            d < self.decisions(),
            i < self.assets(),
        ensures
            w == self.weight(run as int, k as int, d as int, i as int),
    {
        Binary64 { bits: self.plan.at4(run, k, d, i) }
    }
}

/// The sizing rule: a weight becomes a whole-lot quantity, rounded down.
pub open spec fn sized(
    investable: Binary64,
    weight: Binary64,
    price: Binary64,
    lot: Binary64,
    min_lot: Binary64,
    min_notional: Binary64,
    multiplier: Binary64,
) -> Binary64 {
    let value = investable.times(weight).abs();
    let quantity = value.over(price.times(multiplier)).over(lot).floor().times(lot);
    if weight.equals(Binary64::zero()) || price.is_nan() || price.at_most(Binary64::zero()) {
        Binary64::zero()
    } else if value.less(min_notional) || quantity.less(min_lot) {
        Binary64::zero()
    } else if Binary64::zero().less(weight) {
        quantity
    } else {
        quantity.negated()
    }
}

/// The sizing rule: a weight becomes a whole-lot quantity, rounded down.
pub fn decide(
    investable: Binary64,
    weight: Binary64,
    price: Binary64,
    lot: Binary64,
    min_lot: Binary64,
    min_notional: Binary64,
    multiplier: Binary64,
) -> (quantity: Binary64)
    ensures
        quantity == sized(investable, weight, price, lot, min_lot, min_notional, multiplier),
{
    let zero: Binary64 = Binary64::zero();
    if weight.equals(zero) || price.is_nan() || price.at_most(zero) {
        return zero;
    }
    let value: Binary64 = investable.times(weight).abs();
    if value.less(min_notional) {
        return zero;
    }
    let quantity: Binary64 = value.over(price.times(multiplier)).over(lot).floor().times(lot);
    if quantity.less(min_lot) {
        return zero;
    }
    if zero.less(weight) {
        quantity
    } else {
        quantity.negated()
    }
}

}
