//! What an account's phases mean.
//!
//! A [`Ledger`] is an account as a value: the phases of the walk are
//! functions from one ledger to the next. A phase that treats each name by
//! itself is given name by name; a phase that adds up money is a fold of one
//! name's step over the names it visits, in ascending order, because a sum
//! of doubles depends on its order.

use vstd::arithmetic::div_mod::*;
use vstd::prelude::*;

use crate::binary64::Binary64;
use crate::inputs::{Inputs, Point};
use crate::inputs::{
    BOUGHT, CASH, EQUITY, FEES, LOT, MIN_LOT, MIN_NOTIONAL, MULTIPLIER, SELL_FEE, SHORTABLE, SOLD,
};
use crate::names;

verus! {

/// The tranche a fill wears when the liquidation pool made it.
pub const POOL: i32 = -1;

/// The gross exposure below which a decision asks for nothing: the bits of
/// the double nearest to a trillionth.
pub const NO_SHARE: u64 = 0x3d71_9799_812d_ea11;

/// One fill, as it happened.
#[derive(Clone, Copy, Debug, PartialEq)]
pub struct Fill {
    pub bar: u32,
    pub point: u32,
    /// The tranche whose book filled; `POOL` for the liquidation pool.
    pub tranche: i32,
    pub asset: u32,
    /// Units, positive bought and negative sold.
    pub units: Binary64,
    /// The price per unit it filled at.
    pub price: Binary64,
    /// What the fill cost in fees.
    pub fee: Binary64,
}

/// An account's state as a value. The `(K, N)` tables are flat, one
/// tranche's names after another's.
#[verifier::ext_equal]
pub struct Ledger {
    pub run: int,
    pub tranches: int,
    pub assets: int,
    pub cash: Binary64,
    pub qty: Seq<Binary64>,
    pub target: Seq<Binary64>,
    pub liq: Seq<Binary64>,
    pub last: Seq<Binary64>,
    pub attained: Seq<Binary64>,
    pub attained_row: Seq<i64>,
    pub fire: Seq<i64>,
    pub blocked: Seq<bool>,
    pub active: Seq<Seq<usize>>,
    pub pool: Seq<usize>,
    pub fees: Binary64,
    pub bought: Binary64,
    pub sold: Binary64,
    pub equity: Binary64,
    pub record_fills: bool,
    pub fills: Seq<Fill>,
}

/// Whether a price can be traded or marked at: a number above zero.
pub open spec fn live(price: Binary64) -> bool {
    Binary64::zero().less(price)
}

/// Whether a count of units is none; a NaN is not.
pub open spec fn none(units: Binary64) -> bool {
    units.equals(Binary64::zero())
}

/// Where tranche `t`'s name `i` stands in a flat table.
pub open spec fn cell_of(assets: int, t: int, i: int) -> int {
    t * assets + i
}

/// The flat index of a tranche and a name, taken apart again.
pub proof fn lemma_cell(tranches: int, assets: int, t: int, i: int)
    requires
        0 <= t < tranches,
        0 <= i < assets,
    ensures
        0 <= t * assets <= cell_of(assets, t, i) < tranches * assets,
        cell_of(assets, t, i) / assets == t,
        cell_of(assets, t, i) % assets == i,
{
    let c: int = cell_of(assets, t, i);
    assert(0 <= t * assets && c < tranches * assets) by (nonlinear_arith)
        requires
            0 <= t < tranches,
            0 <= i < assets,
            c == t * assets + i,
    ;
    lemma_fundamental_div_mod_converse(c, assets, t, i);
}

/// Every flat index is some tranche's and some name's.
pub proof fn lemma_uncell(tranches: int, assets: int, c: int)
    requires
        0 <= c < tranches * assets,
        0 <= assets,
        0 <= tranches,
    ensures
        assets > 0,
        0 <= c / assets < tranches,
        0 <= c % assets < assets,
        c == cell_of(assets, c / assets, c % assets),
{
    assert(assets > 0) by (nonlinear_arith)
        requires
            0 <= c < tranches * assets,
            0 <= assets,
    ;
    lemma_fundamental_div_mod(c, assets);
    lemma_mod_bound(c, assets);
    let q: int = c / assets;
    let r: int = c % assets;
    assert(assets * q == q * assets) by (nonlinear_arith);
    assert(0 <= q < tranches) by (nonlinear_arith)
        requires
            c == assets * q + r,
            0 <= r < assets,
            0 <= c < tranches * assets,
    ;
}

impl Ledger {
    /// The ledger a run starts from.
    pub open spec fn fresh(run: int, tranches: int, assets: int, capital: Binary64) -> Ledger {
        let cells = (tranches * assets) as nat;
        let zero = Binary64::zero();
        Ledger {
            run,
            tranches,
            assets,
            cash: capital,
            qty: Seq::new(cells, |c: int| zero),
            target: Seq::new(cells, |c: int| zero),
            liq: Seq::new(assets as nat, |i: int| zero),
            last: Seq::new(assets as nat, |i: int| zero),
            attained: Seq::new(cells, |c: int| Binary64::nan()),
            attained_row: Seq::new(tranches as nat, |t: int| -1i64),
            fire: Seq::new(tranches as nat, |t: int| -1i64),
            blocked: Seq::new(cells, |c: int| false),
            active: Seq::new(tranches as nat, |t: int| Seq::<usize>::empty()),
            pool: Seq::empty(),
            fees: zero,
            bought: zero,
            sold: zero,
            equity: zero,
            record_fills: false,
            fills: Seq::empty(),
        }
    }

    /// Where tranche `t`'s name `i` stands in a flat table.
    pub open spec fn cell(self, t: int, i: int) -> int {
        cell_of(self.assets, t, i)
    }

    /// The tables have their shapes, and the lists of names are ascending
    /// and name names the account knows.
    pub open spec fn wf(self) -> bool {
        let cells = self.tranches * self.assets;
        &&& 0 <= self.run <= usize::MAX
        &&& 0 <= self.tranches <= usize::MAX
        &&& 0 <= self.assets <= usize::MAX
        &&& 0 <= cells <= usize::MAX
        &&& self.qty.len() == cells
        &&& self.target.len() == cells
        &&& self.attained.len() == cells
        &&& self.blocked.len() == cells
        &&& self.liq.len() == self.assets
        &&& self.last.len() == self.assets
        &&& self.attained_row.len() == self.tranches
        &&& self.fire.len() == self.tranches
        &&& self.active.len() == self.tranches
        &&& forall|t: int|
            0 <= t < self.tranches ==> names::ascending(#[trigger] self.active[t])
                && names::bounded(self.active[t], self.assets)
        &&& names::ascending(self.pool)
        &&& names::bounded(self.pool, self.assets)
    }

    /// The ledger is one these inputs can be walked with.
    pub open spec fn suits(self, inp: Inputs) -> bool {
        &&& self.run < inp.runs()
        &&& self.tranches == inp.tranches()
        &&& self.assets == inp.assets()
        &&& forall|t: int|
            0 <= t < self.tranches ==> (#[trigger] self.fire[t]) < inp.decisions()
    }

    /// One fill on record, when fills are being recorded.
    pub open spec fn filled(
        self,
        at: Point,
        tranche: i32,
        i: int,
        units: Binary64,
        price: Binary64,
        fee: Binary64,
    ) -> Ledger {
        if self.record_fills {
            Ledger {
                fills: self.fills.push(
                    Fill {
                        bar: at.bar as u32,
                        point: at.phase as u32,
                        tranche,
                        asset: i as u32,
                        units,
                        price,
                        fee,
                    },
                ),
                ..self
            }
        } else {
            self
        }
    }

    /// Tranche `t` is doing something with name `i`.
    pub open spec fn touched(self, t: int, i: int) -> Ledger {
        Ledger {
            active: self.active.update(t, names::inserted(self.active[t], i as usize)),
            ..self
        }
    }

    /// The names a decision row weights, ascending; a NaN weight counts.
    pub open spec fn row(self, inp: Inputs, t: int, d: int) -> Seq<usize> {
        names::where_below(self.assets, |i: int| !none(inp.weight(self.run, t, d, i)))
    }

    /// The names the pool and the first `n` tranches are doing something
    /// with, ascending.
    pub open spec fn names_of(self, n: int) -> Seq<usize>
        decreases n,
    {
        if n <= 0 {
            self.pool
        } else {
            names::union(self.names_of(n - 1), self.active[n - 1])
        }
    }

    /// Whether tranche `t` has nothing of name `i`: no units, no target and
    /// no refusal.
    pub open spec fn idle(self, t: int, i: int) -> bool {
        let c = self.cell(t, i);
        none(self.qty[c]) && none(self.target[c]) && !self.blocked[c]
    }

    /// The names that are idle, and at rest with the policy, are forgotten.
    pub open spec fn swept(self, at_rest: spec_fn(int, int) -> bool) -> Ledger {
        Ledger {
            active: Seq::new(
                self.active.len(),
                |t: int|
                    names::kept(self.active[t], |i: int| !(self.idle(t, i) && at_rest(t, i))),
            ),
            ..self
        }
    }

    /// The value of `units` of name `i` at its last quote.
    pub open spec fn value(self, inp: Inputs, at: Point, i: int, units: Binary64) -> Binary64 {
        units.times(self.last[i]).times(inp.rate_of(MULTIPLIER, at.epoch as int, i))
    }

    /// Whether a corporate action moved name `i` before a bar: the reference
    /// close is not the last quote.
    pub open spec fn rescales(self, inp: Inputs, bar: int, i: int) -> bool {
        let quote = inp.reference(bar, i);
        live(quote) && live(self.last[i]) && !self.last[i].equals(quote)
    }

    /// What the action scales the units of name `i` by.
    pub open spec fn ratio(self, inp: Inputs, bar: int, i: int) -> Binary64 {
        self.last[i].over(inp.reference(bar, i))
    }

    /// Every book's and the pool's units of name `i` scaled.
    pub open spec fn scaled_name(self, i: int, ratio: Binary64) -> Ledger {
        Ledger {
            qty: Seq::new(
                self.qty.len(),
                |c: int|
                    if c % self.assets == i && !none(self.qty[c]) {
                        self.qty[c].times(ratio)
                    } else {
                        self.qty[c]
                    },
            ),
            target: Seq::new(
                self.target.len(),
                |c: int|
                    if c % self.assets == i && !none(self.qty[c]) {
                        self.target[c].times(ratio)
                    } else {
                        self.target[c]
                    },
            ),
            liq: if live(self.liq[i]) {
                self.liq.update(i, self.liq[i].times(ratio))
            } else {
                self.liq
            },
            ..self
        }
    }

    /// The first `n` names marked at the reference close, and their units
    /// scaled where it moved.
    pub open spec fn rescaled_below(self, inp: Inputs, bar: int, n: int) -> Ledger {
        let moved = |i: int| i < n && self.rescales(inp, bar, i);
        Ledger {
            qty: Seq::new(
                self.qty.len(),
                |c: int|
                    if moved(c % self.assets) && !none(self.qty[c]) {
                        self.qty[c].times(self.ratio(inp, bar, c % self.assets))
                    } else {
                        self.qty[c]
                    },
            ),
            target: Seq::new(
                self.target.len(),
                |c: int|
                    if moved(c % self.assets) && !none(self.qty[c]) {
                        self.target[c].times(self.ratio(inp, bar, c % self.assets))
                    } else {
                        self.target[c]
                    },
            ),
            liq: Seq::new(
                self.liq.len(),
                |i: int|
                    if moved(i) && live(self.liq[i]) {
                        self.liq[i].times(self.ratio(inp, bar, i))
                    } else {
                        self.liq[i]
                    },
            ),
            last: Seq::new(
                self.last.len(),
                |i: int|
                    if i < n && live(inp.reference(bar, i)) {
                        inp.reference(bar, i)
                    } else {
                        self.last[i]
                    },
            ),
            ..self
        }
    }

    /// Before the bar opens, a holding is worth the reference close.
    pub open spec fn rescaled(self, inp: Inputs, bar: int) -> Ledger {
        if inp.has_previous {
            self.rescaled_below(inp, bar, self.assets)
        } else {
            self
        }
    }

    /// The first `n` names' corporate actions: each scaled name with its
    /// ratio, ascending.
    pub open spec fn actions_below(self, inp: Inputs, bar: int, n: int) -> Seq<(usize, Binary64)>
        decreases n,
    {
        if n <= 0 {
            Seq::empty()
        } else if self.rescales(inp, bar, n - 1) {
            self.actions_below(inp, bar, n - 1).push(
                ((n - 1) as usize, self.ratio(inp, bar, n - 1)),
            )
        } else {
            self.actions_below(inp, bar, n - 1)
        }
    }

    /// A bar's corporate actions.
    pub open spec fn actions(self, inp: Inputs, bar: int) -> Seq<(usize, Binary64)> {
        if inp.has_previous {
            self.actions_below(inp, bar, self.assets)
        } else {
            Seq::empty()
        }
    }

    /// The pool's and the first `n` tranches' units of name `i`, added in
    /// that order.
    pub open spec fn held_by(self, n: int, i: int) -> Binary64
        decreases n,
    {
        if n <= 0 {
            self.liq[i]
        } else {
            self.held_by(n - 1, i).plus(self.qty[self.cell(n - 1, i)])
        }
    }

    /// Everything the account holds in name `i`.
    pub open spec fn holds(self, i: int) -> Binary64 {
        self.held_by(self.tranches, i)
    }

    /// The bar's accumulators start empty.
    pub open spec fn opened(self) -> Ledger {
        Ledger {
            fees: Binary64::zero(),
            bought: Binary64::zero(),
            sold: Binary64::zero(),
            ..self
        }
    }

    /// Every name with a live quote is worth that now.
    pub open spec fn marked(self, quotes: spec_fn(int) -> Binary64) -> Ledger {
        Ledger {
            last: Seq::new(
                self.last.len(),
                |i: int|
                    if live(quotes(i)) {
                        quotes(i)
                    } else {
                        self.last[i]
                    },
            ),
            ..self
        }
    }

    /// A price point quotes.
    pub open spec fn marked_at(self, inp: Inputs, at: Point) -> Ledger {
        self.marked(|i: int| inp.quote(at.phase as int, at.bar as int, i))
    }

    /// A holding stuck at the limit leaves its tranche for the pool.
    pub open spec fn impound_name(self, inp: Inputs, at: Point, t: int, i: int) -> Ledger {
        let c = self.cell(t, i);
        if inp.stuck(at.phase as int, at.bar as int, i) && live(self.qty[c]) {
            Ledger {
                liq: self.liq.update(i, self.liq[i].plus(self.qty[c])),
                qty: self.qty.update(c, Binary64::zero()),
                pool: names::inserted(self.pool, i as usize),
                ..self
            }
        } else {
            self
        }
    }

    /// The listed names of tranche `t` impounded, one after another.
    pub open spec fn impounded(self, inp: Inputs, at: Point, t: int, list: Seq<usize>) -> Ledger
        decreases list.len(),
    {
        if list.len() == 0 {
            self
        } else {
            self.impounded(inp, at, t, list.drop_last()).impound_name(
                inp,
                at,
                t,
                list.last() as int,
            )
        }
    }

    /// Whether tranche `t`'s book attained every weight of decision `d`: the
    /// same number, or both missing.
    pub open spec fn attains(self, inp: Inputs, t: int, d: int) -> bool {
        forall|i: int|
            0 <= i < self.assets ==> {
                let asked = inp.weight(self.run, t, d, i);
                let attained = #[trigger] self.attained[self.cell(t, i)];
                asked.equals(attained) || (asked.is_nan() && attained.is_nan())
            }
    }

    /// Whether a firing needs no trade: it stands, and its answer is what
    /// the book already attained.
    pub open spec fn answered(self, inp: Inputs, at: Point, t: int) -> bool {
        let d = inp.firing(self.run, t, at.bar as int, at.phase as int);
        &&& d >= 0
        &&& inp.stands(self.run, t, at.bar as int, at.phase as int)
        &&& self.attained_row[t] == d || self.attains(inp, t, d)
    }

    /// Tranche `t` at a point: what is stuck is impounded if it has a firing
    /// there, and the firing goes on unless it is already answered.
    pub open spec fn fired(self, inp: Inputs, at: Point, t: int) -> Ledger {
        let d = inp.firing(self.run, t, at.bar as int, at.phase as int);
        let after = if d >= 0 {
            self.impounded(inp, at, t, self.active[t])
        } else {
            self
        };
        Ledger {
            fire: after.fire.update(
                t,
                if d < 0 || after.answered(inp, at, t) {
                    -1i64
                } else {
                    d as i64
                },
            ),
            ..after
        }
    }

    /// The first `n` tranches' firings resolved.
    pub open spec fn resolved(self, inp: Inputs, at: Point, n: int) -> Ledger
        decreases n,
    {
        if n <= 0 {
            self
        } else {
            self.resolved(inp, at, n - 1).fired(inp, at, n - 1)
        }
    }

    /// Whether the pool's units of name `i` can leave at a point.
    pub open spec fn leaves(self, inp: Inputs, at: Point, i: int) -> bool {
        &&& !self.liq[i].at_most(Binary64::zero())
        &&& live(inp.quote(at.phase as int, at.bar as int, i))
        &&& inp.can_sell(at.phase as int, at.bar as int, i)
    }

    /// The pool's units of name `i` sold, if they can leave.
    pub open spec fn sell_pooled(self, inp: Inputs, at: Point, i: int) -> Ledger {
        let price = inp.quote(at.phase as int, at.bar as int, i);
        let give = self.liq[i];
        let turnover = give.times(price).times(inp.rate_of(MULTIPLIER, at.epoch as int, i));
        let fee = inp.charge(
            turnover,
            inp.rate_of(SELL_FEE, at.epoch as int, i),
            at.epoch as int,
            inp.category(i),
        );
        if self.leaves(inp, at, i) {
            Ledger {
                liq: self.liq.update(i, Binary64::zero()),
                cash: self.cash.plus(turnover.minus(fee)),
                fees: self.fees.plus(fee),
                sold: self.sold.plus(turnover),
                ..self
            }.filled(at, POOL, i, give.negated(), price, fee)
        } else {
            self
        }
    }

    /// The listed names sold out of the pool, one after another.
    pub open spec fn pool_sold(self, inp: Inputs, at: Point, list: Seq<usize>) -> Ledger
        decreases list.len(),
    {
        if list.len() == 0 {
            self
        } else {
            self.pool_sold(inp, at, list.drop_last()).sell_pooled(inp, at, list.last() as int)
        }
    }

    /// The pool tries to leave; the names it emptied are dropped from it.
    pub open spec fn drained(self, inp: Inputs, at: Point) -> Ledger {
        let after = self.pool_sold(inp, at, self.pool);
        if exists|k: int|
            0 <= k < self.pool.len() && self.leaves(inp, at, #[trigger] self.pool[k] as int) {
            Ledger { pool: names::kept(self.pool, |i: int| live(after.liq[i])), ..after }
        } else {
            after
        }
    }

    /// `start` plus the value of each listed name's units, in the list's
    /// order; the units of name `i` stand at `base + i` of `table`, and a
    /// name without units adds nothing.
    pub open spec fn tally(
        self,
        inp: Inputs,
        at: Point,
        start: Binary64,
        table: Seq<Binary64>,
        base: int,
        list: Seq<usize>,
    ) -> Binary64
        decreases list.len(),
    {
        if list.len() == 0 {
            start
        } else {
            let sum = self.tally(inp, at, start, table, base, list.drop_last());
            let i = list.last() as int;
            if none(table[base + i]) {
                sum
            } else {
                sum.plus(self.value(inp, at, i, table[base + i]))
            }
        }
    }

    /// Cash, the pool and the first `n` tranches' books, added in that order.
    pub open spec fn worth_of(self, inp: Inputs, at: Point, n: int) -> Binary64
        decreases n,
    {
        if n <= 0 {
            self.tally(inp, at, self.cash, self.liq, 0, self.pool)
        } else {
            self.tally(
                inp,
                at,
                self.worth_of(inp, at, n - 1),
                self.qty,
                (n - 1) * self.assets,
                self.active[n - 1],
            )
        }
    }

    /// The equity read where sizing happens.
    pub open spec fn snapshot(self, inp: Inputs, at: Point) -> Ledger {
        Ledger { equity: self.worth_of(inp, at, self.tranches), ..self }
    }

    /// The market value of tranche `t`'s book.
    pub open spec fn book_value(self, inp: Inputs, t: int, at: Point) -> Binary64 {
        self.tally(inp, at, Binary64::zero(), self.qty, t * self.assets, self.active[t])
    }

    /// The equity a decision of gross exposure `share` may put on, per unit
    /// of weight.
    pub open spec fn funds(self, inp: Inputs, share: Binary64, reachable: Binary64) -> Binary64 {
        let asked = self.equity.times(share);
        if share.less(Binary64 { bits: NO_SHARE }) {
            Binary64::zero()
        } else if reachable.less(asked) {
            reachable.times(inp.buffer).over(share)
        } else {
            asked.times(inp.buffer).over(share)
        }
    }

    /// The target a weight strikes for one name, or the book itself when the
    /// weight is missing.
    pub open spec fn struck(
        self,
        inp: Inputs,
        t: int,
        i: int,
        weight: Binary64,
        investable: Binary64,
        at: Point,
    ) -> Binary64 {
        let epoch = at.epoch as int;
        let want = crate::inputs::sized(
            investable,
            weight,
            inp.quote(at.phase as int, at.bar as int, i),
            inp.rate_of(LOT, epoch, i),
            inp.rate_of(MIN_LOT, epoch, i),
            inp.rate_of(MIN_NOTIONAL, epoch, i),
            inp.rate_of(MULTIPLIER, epoch, i),
        );
        if weight.is_nan() {
            self.qty[self.cell(t, i)]
        } else if want.less(Binary64::zero()) && !inp.flag_of(SHORTABLE, i) {
            Binary64::zero()
        } else {
            want
        }
    }

    /// What tranche `t`'s book attained after trading decision `d`: the
    /// weight asked for wherever settlement refused nothing, and the whole
    /// row where it refused nothing at all.
    pub open spec fn remembered(self, inp: Inputs, t: int, d: int) -> Ledger {
        Ledger {
            attained: Seq::new(
                self.attained.len(),
                |c: int|
                    if c / self.assets == t && !self.blocked[c] {
                        inp.weight(self.run, t, d, c % self.assets)
                    } else {
                        self.attained[c]
                    },
            ),
            attained_row: self.attained_row.update(
                t,
                if forall|i: int|
                    0 <= i < self.assets ==> !#[trigger] self.blocked[self.cell(t, i)] {
                    d as i64
                } else {
                    -1i64
                },
            ),
            ..self
        }
    }

    /// What is held is worth the closing price.
    pub open spec fn closed_at(self, inp: Inputs, bar: int) -> Ledger {
        self.marked(|i: int| inp.close(bar, i))
    }

    /// The value of all the account holds in each listed name, added in the
    /// list's order.
    pub open spec fn holdings_value(self, inp: Inputs, at: Point, list: Seq<usize>) -> Binary64
        decreases list.len(),
    {
        if list.len() == 0 {
            Binary64::zero()
        } else {
            let sum = self.holdings_value(inp, at, list.drop_last());
            let i = list.last() as int;
            if none(self.holds(i)) {
                sum
            } else {
                sum.plus(self.value(inp, at, i, self.holds(i)))
            }
        }
    }

    /// The names the close adds up: all of them when positions are reported,
    /// and those in play when they are not.
    pub open spec fn closing_names(self, inp: Inputs) -> Seq<usize> {
        if inp.record_positions {
            names::where_below(self.assets, |i: int| true)
        } else {
            self.names_of(self.tranches)
        }
    }

    /// The equity a closed bar reports.
    pub open spec fn closing_equity(self, inp: Inputs, at: Point) -> Binary64 {
        self.cash.plus(self.holdings_value(inp, at, self.closing_names(inp)))
    }

    /// A bar's reported series written into the report: equity, cash, fees,
    /// purchases and sales, each a row of `steps` bars.
    pub open spec fn reports(
        self,
        inp: Inputs,
        at: Point,
        steps: int,
        report: Seq<Binary64>,
    ) -> Seq<Binary64> {
        let bar = at.bar as int;
        report.update(EQUITY * steps + bar, self.closing_equity(inp, at)).update(
            CASH * steps + bar,
            self.cash,
        ).update(FEES * steps + bar, self.fees).update(BOUGHT * steps + bar, self.bought).update(
            SOLD * steps + bar,
            self.sold,
        )
    }

    /// What is held in every name written into a bar's row of positions.
    pub open spec fn lists_positions(self, bar: int, positions: Seq<Binary64>) -> Seq<Binary64> {
        let base = bar * self.assets;
        Seq::new(
            positions.len(),
            |c: int|
                if base <= c < base + self.assets {
                    self.holds(c - base)
                } else {
                    positions[c]
                },
        )
    }

    /// A tranche's stretch of a flat table.
    pub proof fn lemma_book_base(self, t: int)
        requires
            self.wf(),
            0 <= t < self.tranches,
        ensures
            0 <= t * self.assets,
            t * self.assets + self.assets <= self.tranches * self.assets,
    {
        assert(0 <= t * self.assets && t * self.assets + self.assets <= self.tranches * self.assets)
            by (nonlinear_arith)
            requires
                0 <= t < self.tranches,
                0 <= self.assets,
        ;
    }

    /// The names in play are ascending, and are the pool's and the books'.
    pub proof fn lemma_names_of(self, n: int)
        requires
            self.wf(),
            0 <= n <= self.tranches,
        ensures
            names::ascending(self.names_of(n)),
            names::bounded(self.names_of(n), self.assets),
            forall|x: usize| #[trigger]
                self.names_of(n).contains(x) <==> self.pool.contains(x) || exists|t: int|
                    0 <= t < n && #[trigger] self.active[t].contains(x),
        decreases n,
    {
        if n > 0 {
            let rest: Seq<usize> = self.names_of(n - 1);
            let next: Seq<usize> = self.active[n - 1];
            let out: Seq<usize> = self.names_of(n);
            self.lemma_names_of(n - 1);
            names::lemma_union(rest, next);
            assert forall|x: usize| #[trigger] out.contains(x) <==> self.pool.contains(x)
                || exists|t: int| 0 <= t < n && #[trigger] self.active[t].contains(x) by {
                if out.contains(x) && !next.contains(x) {
                    assert(rest.contains(x));
                }
                if exists|t: int| 0 <= t < n && #[trigger] self.active[t].contains(x) {
                    let t: int = choose|t: int|
                        0 <= t < n && #[trigger] self.active[t].contains(x);
                    if t < n - 1 {
                        assert(rest.contains(x));
                    }
                }
                if self.pool.contains(x) {
                    assert(rest.contains(x));
                }
            }
            assert forall|i: int| 0 <= i < out.len() implies (#[trigger] out[i])
                < self.assets by {
                assert(out.contains(out[i]));
                if rest.contains(out[i]) {
                    let k: int = choose|k: int| 0 <= k < rest.len() && rest[k] == out[i];
                    assert(rest[k] < self.assets);
                } else {
                    let k: int = choose|k: int| 0 <= k < next.len() && next[k] == out[i];
                    assert(next[k] < self.assets);
                }
            }
        }
    }

    /// Impounding a name changes the pool, its units and the name's cell,
    /// and nothing else.
    pub proof fn lemma_impound_name(self, inp: Inputs, at: Point, t: int, i: int)
        requires
            self.wf(),
            0 <= t < self.tranches,
            0 <= i < self.assets,
        ensures
            self.impound_name(inp, at, t, i).wf(),
            self.impound_name(inp, at, t, i) == (Ledger {
                liq: self.impound_name(inp, at, t, i).liq,
                qty: self.impound_name(inp, at, t, i).qty,
                pool: self.impound_name(inp, at, t, i).pool,
                ..self
            }),
    {
        let after: Ledger = self.impound_name(inp, at, t, i);
        names::lemma_inserted(self.pool, i as usize);
        lemma_cell(self.tranches, self.assets, t, i);
        assert forall|k: int| 0 <= k < after.pool.len() implies (#[trigger] after.pool[k])
            < self.assets by {
            assert(after.pool.contains(after.pool[k]));
            if self.pool.contains(after.pool[k]) {
                let m: int = choose|m: int|
                    0 <= m < self.pool.len() && self.pool[m] == after.pool[k];
                assert(self.pool[m] < self.assets);
            }
        }
    }

    pub proof fn lemma_impounded(self, inp: Inputs, at: Point, t: int, list: Seq<usize>)
        requires
            self.wf(),
            0 <= t < self.tranches,
            names::bounded(list, self.assets),
        ensures
            self.impounded(inp, at, t, list).wf(),
            self.impounded(inp, at, t, list) == (Ledger {
                liq: self.impounded(inp, at, t, list).liq,
                qty: self.impounded(inp, at, t, list).qty,
                pool: self.impounded(inp, at, t, list).pool,
                ..self
            }),
        decreases list.len(),
    {
        if list.len() > 0 {
            let front: Seq<usize> = list.drop_last();
            assert forall|k: int| 0 <= k < front.len() implies (#[trigger] front[k])
                < self.assets by {
                assert(list[k] < self.assets);
            }
            assert(list[list.len() - 1] < self.assets);
            self.lemma_impounded(inp, at, t, front);
            self.impounded(inp, at, t, front).lemma_impound_name(
                inp,
                at,
                t,
                list.last() as int,
            );
        }
    }

    /// Selling the pool changes money, the pool's units and the record, and
    /// nothing else.
    pub proof fn lemma_pool_sold(self, inp: Inputs, at: Point, list: Seq<usize>)
        requires
            self.wf(),
            names::bounded(list, self.assets),
        ensures
            self.pool_sold(inp, at, list).wf(),
            self.pool_sold(inp, at, list) == (Ledger {
                liq: self.pool_sold(inp, at, list).liq,
                cash: self.pool_sold(inp, at, list).cash,
                fees: self.pool_sold(inp, at, list).fees,
                sold: self.pool_sold(inp, at, list).sold,
                fills: self.pool_sold(inp, at, list).fills,
                ..self
            }),
            forall|i: int|
                0 <= i < self.assets && !list.contains(i as usize) ==> #[trigger] self.pool_sold(
                    inp,
                    at,
                    list,
                ).liq[i] == self.liq[i],
        decreases list.len(),
    {
        if list.len() > 0 {
            let front: Seq<usize> = list.drop_last();
            assert forall|k: int| 0 <= k < front.len() implies (#[trigger] front[k])
                < self.assets by {
                assert(list[k] < self.assets);
            }
            assert(list[list.len() - 1] < self.assets);
            self.lemma_pool_sold(inp, at, front);
            assert forall|i: int|
                0 <= i < self.assets && !list.contains(i as usize) implies #[trigger] self.pool_sold(
                inp,
                at,
                list,
            ).liq[i] == self.liq[i] by {
                assert(list[list.len() - 1] != i);
                if front.contains(i as usize) {
                    let k: int = choose|k: int| 0 <= k < front.len() && front[k] == i;
                    assert(list[k] == i);
                }
                assert(self.pool_sold(inp, at, front).liq[i] == self.liq[i]);
            }
        }
    }

    /// One more name's mark and action.
    pub proof fn lemma_rescaled_step(self, inp: Inputs, bar: int, n: int)
        requires
            self.wf(),
            0 <= n < self.assets,
        ensures
            self.rescaled_below(inp, bar, n + 1) == ({
                let quote = inp.reference(bar, n);
                let before = self.rescaled_below(inp, bar, n);
                let after = if self.rescales(inp, bar, n) {
                    before.scaled_name(n, self.ratio(inp, bar, n))
                } else {
                    before
                };
                if live(quote) {
                    Ledger { last: after.last.update(n, quote), ..after }
                } else {
                    after
                }
            }),
            self.rescaled_below(inp, bar, n).last[n] == self.last[n],
    {
        let quote: Binary64 = inp.reference(bar, n);
        let before: Ledger = self.rescaled_below(inp, bar, n);
        let after: Ledger = if self.rescales(inp, bar, n) {
            before.scaled_name(n, self.ratio(inp, bar, n))
        } else {
            before
        };
        let goal: Ledger = self.rescaled_below(inp, bar, n + 1);
        assert forall|c: int| 0 <= c < self.qty.len() implies goal.qty[c] == after.qty[c]
            && goal.target[c] == after.target[c] by {
            lemma_uncell(self.tranches, self.assets, c);
        }
        assert(goal.qty =~= after.qty);
        assert(goal.target =~= after.target);
        assert(goal.liq =~= after.liq);
        if live(quote) {
            assert(goal.last =~= after.last.update(n, quote));
        } else {
            assert(goal.last =~= after.last);
        }
    }

    /// Resolving a tranche's firing keeps the ledger well formed.
    pub proof fn lemma_fired(self, inp: Inputs, at: Point, t: int)
        requires
            self.wf(),
            self.suits(inp),
            inp.valid(),
            inp.covers(at),
            0 <= t < self.tranches,
        ensures
            self.fired(inp, at, t).wf(),
            self.fired(inp, at, t).suits(inp),
            self.fired(inp, at, t) == (Ledger {
                liq: self.fired(inp, at, t).liq,
                qty: self.fired(inp, at, t).qty,
                pool: self.fired(inp, at, t).pool,
                fire: self.fired(inp, at, t).fire,
                ..self
            }),
    {
        self.lemma_impounded(inp, at, t, self.active[t]);
        assert(inp.firing(self.run, t, at.bar as int, at.phase as int) < inp.decisions());
    }

    /// Whether two ledgers are of the same run, of as many tranches and names.
    pub open spec fn sized_as(self, other: Ledger) -> bool {
        &&& self.run == other.run
        &&& self.tranches == other.tranches
        &&& self.assets == other.assets
    }

    /// The parts of a ledger that trading leaves alone.
    pub open spec fn alike(self, other: Ledger) -> bool {
        &&& self.run == other.run
        &&& self.tranches == other.tranches
        &&& self.assets == other.assets
        &&& self.fire == other.fire
        &&& self.record_fills == other.record_fills
        &&& self.last == other.last
        &&& self.liq == other.liq
        &&& self.pool == other.pool
    }

    /// Noting a name keeps the ledger well formed, and changes nothing if
    /// the name was noted.
    pub proof fn lemma_touched(self, t: int, i: int)
        requires
            self.wf(),
            0 <= t < self.tranches,
            0 <= i < self.assets,
        ensures
            self.touched(t, i).wf(),
            self.active[t].contains(i as usize) ==> self.touched(t, i) == self,
            self.touched(t, i).active[t].contains(i as usize),
    {
        let list: Seq<usize> = self.active[t];
        let out: Seq<usize> = names::inserted(list, i as usize);
        names::lemma_inserted(list, i as usize);
        assert forall|k: int| 0 <= k < out.len() implies (#[trigger] out[k]) < self.assets by {
            assert(out.contains(out[k]));
            if list.contains(out[k]) {
                let m: int = choose|m: int| 0 <= m < list.len() && list[m] == out[k];
                assert(list[m] < self.assets);
            }
        }
        if list.contains(i as usize) {
            assert(self.touched(t, i).active =~= self.active);
        }
        assert(out.contains(i as usize));
    }

    /// Answers that agree on the idle names in play sweep alike.
    pub proof fn lemma_swept_alike(
        self,
        one: spec_fn(int, int) -> bool,
        other: spec_fn(int, int) -> bool,
    )
        requires
            self.active.len() == self.tranches,
            forall|t: int, i: usize|
                0 <= t < self.tranches && #[trigger] self.active[t].contains(i) && self.idle(
                    t,
                    i as int,
                ) ==> one(t, i as int) == other(t, i as int),
        ensures
            self.swept(one) == self.swept(other),
    {
        assert forall|t: int| 0 <= t < self.tranches implies self.swept(one).active[t]
            == self.swept(other).active[t] by {
            let list: Seq<usize> = self.active[t];
            let f = |i: int| !(self.idle(t, i) && one(t, i));
            let g = |i: int| !(self.idle(t, i) && other(t, i));
            assert forall|k: int| 0 <= k < list.len() implies f(#[trigger] list[k] as int) == g(
                list[k] as int,
            ) by {
                assert(self.active[t].contains(list[k]));
            }
            names::lemma_kept_alike(list, f, g);
        }
        assert(self.swept(one).active =~= self.swept(other).active);
    }

    /// Corporate actions name names the account knows.
    pub proof fn lemma_actions_below(self, inp: Inputs, bar: int, n: int)
        requires
            0 <= n <= self.assets <= usize::MAX,
        ensures
            forall|k: int|
                0 <= k < self.actions_below(inp, bar, n).len() ==> (#[trigger] self.actions_below(
                    inp,
                    bar,
                    n,
                )[k]).0 < n,
        decreases n,
    {
        if n > 0 {
            self.lemma_actions_below(inp, bar, n - 1);
            let rest: Seq<(usize, Binary64)> = self.actions_below(inp, bar, n - 1);
            let all: Seq<(usize, Binary64)> = self.actions_below(inp, bar, n);
            assert forall|k: int| 0 <= k < all.len() implies (#[trigger] all[k]).0 < n by {
                if k < rest.len() {
                    assert(rest[k].0 < n - 1);
                }
            }
        }
    }
}

}
