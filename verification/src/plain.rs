//! What the market-neutral policy means.
//!
//! A [`PlainState`] is the policy's state as a value; its phases take it and
//! a [`Ledger`] to the next pair, name by name in ascending order.

use vstd::prelude::*;

use crate::binary64::Binary64;
use crate::inputs::{Inputs, Point};
use crate::inputs::{
    BUY_FEE, FIXED_FEE, LOT, MIN_LOT, MULTIPLIER, SAME_BAR, SELL_FEE,
};
use crate::ledger;
use crate::ledger::{live, none, Ledger};
use crate::names;
use crate::rounding::INFINITE;

verus! {

/// The policy's state: what each tranche may still sell today, and the cash
/// locked behind its standing buys. The tables are flat, as a ledger's are.
#[verifier::ext_equal]
pub struct PlainState {
    pub tranches: int,
    pub assets: int,
    pub budget: Seq<Binary64>,
    pub locked: Seq<Binary64>,
    pub locked_total: Binary64,
}

/// What a buy of one name runs into: the terms of its class, and the cash
/// there is.
pub struct Terms {
    /// What one unit costs before fees.
    pub unit: Binary64,
    pub rate: Binary64,
    pub lot: Binary64,
    pub spendable: Binary64,
    pub epoch: int,
    pub category: int,
}

impl Terms {
    /// What a number of units turns over.
    pub open spec fn turnover(self, units: Binary64) -> Binary64 {
        units.times(self.unit)
    }

    /// The fee on a number of units.
    pub open spec fn fee(self, inp: Inputs, units: Binary64) -> Binary64 {
        inp.charge(self.turnover(units), self.rate, self.epoch, self.category)
    }

    /// What a number of units costs, fee included.
    pub open spec fn cost(self, inp: Inputs, units: Binary64) -> Binary64 {
        self.turnover(units).plus(self.fee(inp, units))
    }

    /// Whether a finite, positive number of units costs more than there is.
    pub open spec fn overdrawn(self, inp: Inputs, units: Binary64) -> bool {
        live(units) && units.is_finite() && self.spendable.less(self.cost(inp, units))
    }

    /// Whole lots the cash covers, the fixed and the proportional fee
    /// included.
    pub open spec fn fitting(self, inp: Inputs) -> Binary64 {
        let fixed = inp.rated(FIXED_FEE as int, self.epoch, self.category);
        let per_unit = self.unit.times(Binary64 { bits: crate::binary64::ONE }.plus(self.rate));
        self.spendable.minus(fixed).over(per_unit).over(self.lot).floor().times(self.lot)
    }

    /// How far a count is from where backing off must stop.
    pub open spec fn distance(self, units: Binary64) -> int {
        if live(units) && units.is_finite() {
            if self.lot.negative() {
                INFINITE - units.bits
            } else {
                units.bits as int
            }
        } else {
            0
        }
    }

    /// A count backed off lot by lot until it fits. A lot too small to move
    /// the count will never make it fit: nothing does.
    pub open spec fn backed_off(self, inp: Inputs, units: Binary64) -> Binary64
        decreases self.distance(units),
    {
        let fewer = units.minus(self.lot);
        if !self.overdrawn(inp, units) {
            units
        } else if fewer.equals(units) {
            Binary64::zero()
        } else {
            proof {
                self.lemma_nearer(units);
            }
            self.backed_off(inp, fewer)
        }
    }

    /// A lot taken off that moves a count moves it nearer to where backing
    /// off stops.
    pub proof fn lemma_nearer(self, units: Binary64)
        requires
            live(units),
            units.is_finite(),
            !units.minus(self.lot).equals(units),
        ensures
            0 <= self.distance(units.minus(self.lot)) < self.distance(units),
    {
        let fewer: Binary64 = units.minus(self.lot);
        crate::binary64::lemma_positive(units);
        if live(fewer) && fewer.is_finite() {
            crate::binary64::lemma_positive(fewer);
            crate::binary64::lemma_minus_moves(units, self.lot);
        }
    }

    /// What is left of an order for `asked` units once it is cut to whole
    /// lots the cash covers. The fee floor can push a full-cash order over,
    /// so it backs off a lot until it fits.
    pub open spec fn covered(self, inp: Inputs, asked: Binary64) -> Binary64 {
        let fitting = self.fitting(inp);
        let take = if fitting.less(asked) {
            fitting
        } else {
            asked
        };
        if self.overdrawn(inp, take) {
            self.backed_off(inp, fitting.minus(self.lot))
        } else {
            take
        }
    }
}

impl PlainState {
    pub open spec fn fresh(tranches: int, assets: int) -> PlainState {
        let cells = (tranches * assets) as nat;
        PlainState {
            tranches,
            assets,
            budget: Seq::new(cells, |c: int| Binary64::zero()),
            locked: Seq::new(cells, |c: int| Binary64::zero()),
            locked_total: Binary64::zero(),
        }
    }

    /// The tables have their shapes.
    pub open spec fn fits(self, tranches: int, assets: int) -> bool {
        &&& self.tranches == tranches
        &&& self.assets == assets
        &&& 0 <= tranches <= usize::MAX
        &&& 0 <= assets <= usize::MAX
        &&& 0 <= tranches * assets <= usize::MAX
        &&& self.budget.len() == tranches * assets
        &&& self.locked.len() == tranches * assets
    }

    pub open spec fn cell(self, t: int, i: int) -> int {
        ledger::cell_of(self.assets, t, i)
    }

    /// One cell's locked cash freed.
    pub open spec fn released(self, c: int) -> PlainState {
        if live(self.locked[c]) {
            PlainState {
                locked: self.locked.update(c, Binary64::zero()),
                locked_total: self.locked_total.minus(self.locked[c]),
                ..self
            }
        } else {
            self
        }
    }

    /// The listed names' locked cash freed, one after another.
    pub open spec fn released_all(self, t: int, list: Seq<usize>) -> PlainState
        decreases list.len(),
    {
        if list.len() == 0 {
            self
        } else {
            self.released_all(t, list.drop_last()).released(self.cell(t, list.last() as int))
        }
    }

    /// What the account may spend: its cash less what its orders hold.
    pub open spec fn spendable(self, l: Ledger) -> Binary64 {
        l.cash.minus(self.locked_total)
    }

    /// A corporate action scales what may be sold of a name.
    pub open spec fn acted(self, i: int, ratio: Binary64) -> PlainState {
        PlainState {
            budget: Seq::new(
                self.budget.len(),
                |c: int|
                    if c % self.assets == i && !none(self.budget[c]) {
                        self.budget[c].times(ratio)
                    } else {
                        self.budget[c]
                    },
            ),
            ..self
        }
    }

    /// A new day: what a book holds now is what it may sell today.
    pub open spec fn dawned(self, l: Ledger) -> PlainState {
        PlainState {
            budget: Seq::new(
                self.budget.len(),
                |c: int|
                    if l.active[c / self.assets].contains((c % self.assets) as usize) {
                        l.qty[c]
                    } else {
                        self.budget[c]
                    },
            ),
            ..self
        }
    }

    /// Whether nothing is kept for tranche `t`'s name `i`.
    pub open spec fn rests(self, t: int, i: int) -> bool {
        none(self.budget[self.cell(t, i)]) && none(self.locked[self.cell(t, i)])
    }

    /// Tranche `t`'s target for name `i` under decision `d`, and whether the
    /// day's budget refuses part of the reduction it asks for.
    pub open spec fn size_name(
        self,
        l: Ledger,
        inp: Inputs,
        t: int,
        d: int,
        at: Point,
        funds: Binary64,
        i: int,
    ) -> Ledger {
        let c = l.cell(t, i);
        let want = l.struck(inp, t, i, inp.weight(l.run, t, d, i), funds, at);
        let give = l.qty[c].minus(want);
        let refused = inp.audit && live(l.qty[c]) && self.budget[c].less(give);
        let after = Ledger {
            target: l.target.update(c, want),
            blocked: l.blocked.update(c, refused),
            ..l
        };
        if !none(want) || refused {
            after.touched(t, i)
        } else {
            after
        }
    }

    /// The listed names sized, one after another.
    pub open spec fn size_names(
        self,
        l: Ledger,
        inp: Inputs,
        t: int,
        d: int,
        at: Point,
        funds: Binary64,
        list: Seq<usize>,
    ) -> Ledger
        decreases list.len(),
    {
        if list.len() == 0 {
            l
        } else {
            self.size_name(
                self.size_names(l, inp, t, d, at, funds, list.drop_last()),
                inp,
                t,
                d,
                at,
                funds,
                list.last() as int,
            )
        }
    }

    /// What decision `d` of tranche `t` may put on: its gross exposure times
    /// the equity, or what the book and the spendable cash can reach.
    pub open spec fn funds(self, l: Ledger, inp: Inputs, t: int, d: int, at: Point) -> Binary64 {
        l.funds(
            inp,
            gross(inp, l.run, t, d, l.row(inp, t, d)),
            l.book_value(inp, t, at).plus(self.spendable(l)),
        )
    }

    /// Tranche `t` sized for decision `d`: every name the row weights or the
    /// book is doing something with.
    pub open spec fn sized(self, l: Ledger, inp: Inputs, t: int, d: int, at: Point) -> Ledger {
        self.size_names(
            l,
            inp,
            t,
            d,
            at,
            self.funds(l, inp, t, d, at),
            names::union(l.row(inp, t, d), l.active[t]),
        )
    }

    /// What tranche `t` sells of name `i` at a point; none if the market or
    /// the day's budget lets nothing go. There is no lot rounding on the way
    /// out: a corporate action leaves a fractional count, and flooring every
    /// sell strands it forever.
    pub open spec fn gives(self, l: Ledger, inp: Inputs, t: int, at: Point, i: int) -> Option<
        Binary64,
    > {
        let c = l.cell(t, i);
        let asked = l.qty[c].minus(l.target[c]);
        let give = if l.blocked[c] && self.budget[c].less(asked) {
            self.budget[c]
        } else {
            asked
        };
        if !live(inp.quote(at.phase as int, at.bar as int, i)) || asked.at_most(Binary64::zero())
            || !inp.can_sell(at.phase as int, at.bar as int, i) || give.at_most(Binary64::zero()) {
            None
        } else {
            Some(give)
        }
    }

    /// Tranche `t`'s sale of name `i`.
    pub open spec fn sell_name(self, l: Ledger, inp: Inputs, t: int, at: Point, i: int) -> (
        PlainState,
        Ledger,
    ) {
        let c = l.cell(t, i);
        let epoch = at.epoch as int;
        let price = inp.quote(at.phase as int, at.bar as int, i);
        match self.gives(l, inp, t, at, i) {
            None => (self, l),
            Some(give) => {
                let turnover = give.times(price).times(inp.rate_of(MULTIPLIER, epoch, i));
                let fee = inp.charge(
                    turnover,
                    inp.rate_of(SELL_FEE, epoch, i),
                    epoch,
                    inp.category(i),
                );
                let left = l.qty[c].minus(give);
                let budget = if inp.audit && live(left.plus(give)) {
                    self.budget.update(c, self.budget[c].minus(give))
                } else {
                    self.budget
                };
                (
                    PlainState { budget, ..self },
                    Ledger {
                        qty: l.qty.update(c, left),
                        cash: l.cash.plus(turnover.minus(fee)),
                        fees: l.fees.plus(fee),
                        sold: l.sold.plus(turnover),
                        ..l
                    }.filled(at, t as i32, i, give.negated(), price, fee),
                )
            },
        }
    }

    /// The listed names sold, one after another.
    pub open spec fn sell_names(
        self,
        l: Ledger,
        inp: Inputs,
        t: int,
        at: Point,
        list: Seq<usize>,
    ) -> (PlainState, Ledger)
        decreases list.len(),
    {
        if list.len() == 0 {
            (self, l)
        } else {
            let (book, after) = self.sell_names(l, inp, t, at, list.drop_last());
            book.sell_name(after, inp, t, at, list.last() as int)
        }
    }

    /// What a buy of name `i` runs into.
    pub open spec fn terms(self, l: Ledger, inp: Inputs, at: Point, i: int) -> Terms {
        let epoch = at.epoch as int;
        let price = inp.quote(at.phase as int, at.bar as int, i);
        Terms {
            unit: price.times(inp.rate_of(MULTIPLIER, epoch, i)),
            rate: inp.rate_of(BUY_FEE, epoch, i),
            lot: inp.rate_of(LOT, epoch, i),
            spendable: self.spendable(l),
            epoch,
            category: inp.category(i),
        }
    }

    /// What tranche `t` can buy of name `i`: units, turnover and fee, all
    /// zero when nothing fits.
    pub open spec fn affords(self, l: Ledger, inp: Inputs, t: int, at: Point, i: int) -> (
        Binary64,
        Binary64,
        Binary64,
    ) {
        let c = l.cell(t, i);
        let zero = Binary64::zero();
        let asked = l.target[c].minus(l.qty[c]);
        let terms = self.terms(l, inp, at, i);
        let take = terms.covered(inp, asked);
        if asked.at_most(zero) || !live(inp.quote(at.phase as int, at.bar as int, i)) {
            (zero, zero, zero)
        } else if take.at_most(zero) || l.qty[c].plus(take).less(
            inp.rate_of(MIN_LOT, at.epoch as int, i),
        ) {
            (zero, zero, zero)
        } else {
            (take, terms.turnover(take), terms.fee(inp, take))
        }
    }

    /// Tranche `t`'s buy of name `i`: what fits is filled, or its cash is
    /// locked behind a standing order when the market blocks it.
    pub open spec fn buy_name(self, l: Ledger, inp: Inputs, t: int, at: Point, i: int) -> (
        PlainState,
        Ledger,
    ) {
        let c = l.cell(t, i);
        let (take, turnover, fee) = self.affords(l, inp, t, at, i);
        let cost = turnover.plus(fee);
        if take.at_most(Binary64::zero()) {
            (self, l)
        } else if !inp.can_buy(at.phase as int, at.bar as int, i) {
            (
                PlainState {
                    locked: self.locked.update(c, cost),
                    locked_total: self.locked_total.plus(cost),
                    ..self
                },
                l.touched(t, i),
            )
        } else {
            let budget = if inp.flag_of(SAME_BAR, i) {
                self.budget.update(c, self.budget[c].plus(take))
            } else {
                self.budget
            };
            (
                PlainState { budget, ..self },
                Ledger {
                    qty: l.qty.update(c, l.qty[c].plus(take)),
                    cash: l.cash.minus(cost),
                    fees: l.fees.plus(fee),
                    bought: l.bought.plus(turnover),
                    ..l.touched(t, i)
                }.filled(
                    at,
                    t as i32,
                    i,
                    take,
                    inp.quote(at.phase as int, at.bar as int, i),
                    fee,
                ),
            )
        }
    }

    /// The listed names bought, one after another.
    pub open spec fn buy_names(
        self,
        l: Ledger,
        inp: Inputs,
        t: int,
        at: Point,
        list: Seq<usize>,
    ) -> (PlainState, Ledger)
        decreases list.len(),
    {
        if list.len() == 0 {
            (self, l)
        } else {
            let (book, after) = self.buy_names(l, inp, t, at, list.drop_last());
            book.buy_name(after, inp, t, at, list.last() as int)
        }
    }

    /// A standing order tries again where the market lets it: its cash comes
    /// back, and the fill is checked against the point's own price.
    pub open spec fn retry_name(self, l: Ledger, inp: Inputs, t: int, at: Point, i: int) -> (
        PlainState,
        Ledger,
    ) {
        let c = self.cell(t, i);
        if self.locked[c].at_most(Binary64::zero()) || !inp.can_buy(
            at.phase as int,
            at.bar as int,
            i,
        ) {
            (self, l)
        } else {
            self.released(c).buy_name(l, inp, t, at, i)
        }
    }

    /// The listed names' standing orders tried again, one after another.
    pub open spec fn retry_names(
        self,
        l: Ledger,
        inp: Inputs,
        t: int,
        at: Point,
        list: Seq<usize>,
    ) -> (PlainState, Ledger)
        decreases list.len(),
    {
        if list.len() == 0 {
            (self, l)
        } else {
            let (book, after) = self.retry_names(l, inp, t, at, list.drop_last());
            book.retry_name(after, inp, t, at, list.last() as int)
        }
    }

    /// The first `n` tranches' standing orders tried again.
    pub open spec fn backfilled(self, l: Ledger, inp: Inputs, at: Point, n: int) -> (
        PlainState,
        Ledger,
    )
        decreases n,
    {
        if n <= 0 {
            (self, l)
        } else {
            let (book, after) = self.backfilled(l, inp, at, n - 1);
            book.retry_names(after, inp, n - 1, at, after.active[n - 1])
        }
    }

    /// Tranche `t` acts on decision `d`: what stood is withdrawn, the
    /// decision is sized, sells go before buys, and what the book attained
    /// is remembered.
    pub open spec fn decided(self, l: Ledger, inp: Inputs, t: int, d: int, at: Point) -> (
        PlainState,
        Ledger,
    ) {
        let free = self.released_all(t, l.active[t]);
        let sized = free.sized(l, inp, t, d, at);
        let (sold, after) = free.sell_names(sized, inp, t, at, sized.active[t]);
        let (bought, done) = sold.buy_names(after, inp, t, at, after.active[t]);
        (bought, done.remembered(inp, t, d))
    }

    /// The first `n` tranches that fire act.
    pub open spec fn traded(self, l: Ledger, inp: Inputs, at: Point, n: int) -> (
        PlainState,
        Ledger,
    )
        decreases n,
    {
        if n <= 0 {
            (self, l)
        } else {
            let (book, after) = self.traded(l, inp, at, n - 1);
            let d = after.fire[n - 1] as int;
            if d < 0 {
                (book, after)
            } else {
                book.decided(after, inp, n - 1, d, at)
            }
        }
    }

    /// The first `n` tranches' standing orders expire with the bar.
    pub open spec fn expired(self, l: Ledger, n: int) -> PlainState
        decreases n,
    {
        if n <= 0 {
            self
        } else {
            self.expired(l, n - 1).released_all(n - 1, l.active[n - 1])
        }
    }
}

impl PlainState {
    /// Sizing a name keeps the ledger well formed and the units as they are.
    pub proof fn lemma_size_name(
        self,
        l: Ledger,
        inp: Inputs,
        t: int,
        d: int,
        at: Point,
        funds: Binary64,
        i: int,
    )
        requires
            l.wf(),
            0 <= t < l.tranches,
            0 <= i < l.assets,
        ensures
            self.size_name(l, inp, t, d, at, funds, i).wf(),
            self.size_name(l, inp, t, d, at, funds, i) == (Ledger {
                target: self.size_name(l, inp, t, d, at, funds, i).target,
                blocked: self.size_name(l, inp, t, d, at, funds, i).blocked,
                active: self.size_name(l, inp, t, d, at, funds, i).active,
                ..l
            }),
    {
        let c: int = l.cell(t, i);
        ledger::lemma_cell(l.tranches, l.assets, t, i);
        let want: Binary64 = l.struck(inp, t, i, inp.weight(l.run, t, d, i), funds, at);
        let give: Binary64 = l.qty[c].minus(want);
        let refused: bool = inp.audit && live(l.qty[c]) && self.budget[c].less(give);
        let after: Ledger = Ledger {
            target: l.target.update(c, want),
            blocked: l.blocked.update(c, refused),
            ..l
        };
        assert(after.wf());
        after.lemma_touched(t, i);
    }

    /// A sale keeps both tables well formed and names no new name.
    pub proof fn lemma_sell_name(self, l: Ledger, inp: Inputs, t: int, at: Point, i: int)
        requires
            l.wf(),
            self.fits(l.tranches, l.assets),
            0 <= t < l.tranches,
            0 <= i < l.assets,
        ensures
            self.sell_name(l, inp, t, at, i).0.fits(l.tranches, l.assets),
            self.sell_name(l, inp, t, at, i).1.wf(),
            self.sell_name(l, inp, t, at, i).1.alike(l),
            self.sell_name(l, inp, t, at, i).1.active == l.active,
    {
        ledger::lemma_cell(l.tranches, l.assets, t, i);
    }

    /// A buy keeps both tables well formed, and names no name but its own.
    pub proof fn lemma_buy_name(self, l: Ledger, inp: Inputs, t: int, at: Point, i: int)
        requires
            l.wf(),
            self.fits(l.tranches, l.assets),
            0 <= t < l.tranches,
            0 <= i < l.assets,
        ensures
            self.buy_name(l, inp, t, at, i).0.fits(l.tranches, l.assets),
            self.buy_name(l, inp, t, at, i).1.wf(),
            self.buy_name(l, inp, t, at, i).1.alike(l),
            l.active[t].contains(i as usize) ==> self.buy_name(l, inp, t, at, i).1.active
                == l.active,
    {
        ledger::lemma_cell(l.tranches, l.assets, t, i);
        l.lemma_touched(t, i);
    }

    /// Freeing a cell keeps the tables well formed.
    pub proof fn lemma_released_all(self, t: int, list: Seq<usize>)
        requires
            self.fits(self.tranches, self.assets),
            0 <= t < self.tranches,
            names::bounded(list, self.assets),
        ensures
            self.released_all(t, list).fits(self.tranches, self.assets),
            self.released_all(t, list).budget == self.budget,
        decreases list.len(),
    {
        if list.len() > 0 {
            let front: Seq<usize> = list.drop_last();
            assert forall|k: int| 0 <= k < front.len() implies (#[trigger] front[k])
                < self.assets by {
                assert(list[k] < self.assets);
            }
            assert(list[list.len() - 1] < self.assets);
            self.lemma_released_all(t, front);
            ledger::lemma_cell(self.tranches, self.assets, t, list.last() as int);
        }
    }
}

/// The gross exposure of a decision row over the listed names: the sum of
/// the weights' magnitudes, missing ones left out.
pub open spec fn gross(inp: Inputs, run: int, t: int, d: int, list: Seq<usize>) -> Binary64
    decreases list.len(),
{
    if list.len() == 0 {
        Binary64::zero()
    } else {
        let share = gross(inp, run, t, d, list.drop_last());
        let weight = inp.weight(run, t, d, list.last() as int);
        if weight.is_nan() {
            share
        } else {
            share.plus(weight.abs())
        }
    }
}

}
