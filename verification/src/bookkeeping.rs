//! How a decision is funded, sized and filled — the part of an account walk
//! that a market's conventions, or a reference machine's, get to decide.
//!
//! The account (`Account`) owns what every walk shares; a `Bookkeeping`
//! owns the rest and is handed the account at each phase. `Plain` is the
//! framework's own policy, market-neutral: a buy fills only from cash the
//! account has, a refused reduction is cut to what may be sold, nothing is
//! frozen and nothing is owed. A vendor's policy lives in its own crate.

use vstd::prelude::*;

use crate::account::{merged, repeated, Account};
use crate::binary64::{Binary64, ONE};
use crate::inputs::{Inputs, Point};
use crate::inputs::{
    BUY_FEE, FIXED_FEE, LOT, MIN_LOT, MULTIPLIER, SAME_BAR, SELL_FEE,
};
use crate::ledger;
use crate::ledger::Ledger;
use crate::names;
use crate::plain;
use crate::plain::{PlainState, Terms};

verus! {

/// One bookkeeping policy, walked alongside the account.
///
/// A policy says what each of its hooks does as a function of its own state
/// and of the ledger it is handed, and the hooks do just that. A hook may
/// change all of the account but whose run it is and how many tranches and
/// names it has, and leaves it one the inputs can be walked with.
pub trait Bookkeeping: Sized {
    /// The policy's state as a value.
    type State;

    spec fn state(&self) -> Self::State;

    /// Whether the state is one for so many tranches and names.
    spec fn fits(state: Self::State, tranches: int, assets: int) -> bool;

    spec fn fresh(tranches: int, assets: int) -> Self::State;

    spec fn acted(state: Self::State, l: Ledger, i: int, ratio: Binary64) -> Self::State;

    spec fn dawned(state: Self::State, l: Ledger) -> Self::State;

    spec fn bar_opened(state: Self::State) -> Self::State;

    spec fn backfilled(state: Self::State, l: Ledger, inp: Inputs, at: Point) -> (
        Self::State,
        Ledger,
    );

    spec fn traded(state: Self::State, l: Ledger, inp: Inputs, at: Point) -> (Self::State, Ledger);

    spec fn bar_closed(state: Self::State, l: Ledger) -> (Self::State, Ledger);

    spec fn rests(state: Self::State, t: int, i: int) -> bool;

    /// Fresh state for one run.
    fn new(tranches: usize, assets: usize) -> (book: Self)
        requires
            tranches * assets <= usize::MAX,
        ensures
            book.state() == Self::fresh(tranches as int, assets as int),
            Self::fits(book.state(), tranches as int, assets as int),
    ;

    /// A corporate action scaled every book's units of name `i` by `ratio`;
    /// scale whatever per-name state the policy keeps.
    fn corporate_action(&mut self, acct: &Account, asset: usize, ratio: Binary64)
        requires
            acct@.wf(),
            Self::fits(old(self).state(), acct@.tranches, acct@.assets),
            asset < acct.assets,
        ensures
            final(self).state() == Self::acted(old(self).state(), acct@, asset as int, ratio),
            Self::fits(final(self).state(), acct@.tranches, acct@.assets),
    ;

    /// A new trading day opens: settlement releases.
    fn new_day(&mut self, acct: &Account)
        requires
            acct@.wf(),
            Self::fits(old(self).state(), acct@.tranches, acct@.assets),
        ensures
            final(self).state() == Self::dawned(old(self).state(), acct@),
            Self::fits(final(self).state(), acct@.tranches, acct@.assets),
    ;

    /// A bar opens: bar-local state starts empty.
    fn open_bar(&mut self)
        ensures
            final(self).state() == Self::bar_opened(old(self).state()),
            forall|tranches: int, assets: int|
                Self::fits(old(self).state(), tranches, assets) ==> #[trigger] Self::fits(
                    final(self).state(),
                    tranches,
                    assets,
                ),
    ;

    /// Standing orders try again at this point, before anyone decides.
    fn backfill(&mut self, acct: &mut Account, inp: &Inputs, at: Point)
        requires
            inp.valid(),
            inp.covers(at),
            old(acct)@.wf(),
            old(acct)@.suits(*inp),
            Self::fits(old(self).state(), old(acct)@.tranches, old(acct)@.assets),
        ensures
            (final(self).state(), final(acct)@) == Self::backfilled(
                old(self).state(),
                old(acct)@,
                *inp,
                at,
            ),
            final(acct)@.wf(),
            final(acct)@.sized_as(old(acct)@),
            final(acct)@.suits(*inp),
            Self::fits(final(self).state(), old(acct)@.tranches, old(acct)@.assets),
    ;

    /// Every tranche that fires at this point sizes and trades.
    fn decide_and_trade(&mut self, acct: &mut Account, inp: &Inputs, at: Point)
        requires
            inp.valid(),
            inp.covers(at),
            old(acct)@.wf(),
            old(acct)@.suits(*inp),
            Self::fits(old(self).state(), old(acct)@.tranches, old(acct)@.assets),
        ensures
            (final(self).state(), final(acct)@) == Self::traded(
                old(self).state(),
                old(acct)@,
                *inp,
                at,
            ),
            final(acct)@.wf(),
            final(acct)@.sized_as(old(acct)@),
            final(acct)@.suits(*inp),
            Self::fits(final(self).state(), old(acct)@.tranches, old(acct)@.assets),
    ;

    /// The bar closes: unfilled orders expire.
    fn close_bar(&mut self, acct: &mut Account)
        requires
            old(acct)@.wf(),
            Self::fits(old(self).state(), old(acct)@.tranches, old(acct)@.assets),
        ensures
            (final(self).state(), final(acct)@) == Self::bar_closed(old(self).state(), old(acct)@),
            final(acct)@.wf(),
            final(acct)@.sized_as(old(acct)@),
            forall|inp: Inputs|
                old(acct)@.suits(inp) ==> #[trigger] final(acct)@.suits(inp),
            Self::fits(final(self).state(), old(acct)@.tranches, old(acct)@.assets),
    ;

    /// Whether the policy keeps nothing for tranche `k`'s name `i` — the
    /// account forgets a name once its own cell and the policy's are at rest.
    fn at_rest(&self, tranche: usize, asset: usize) -> (rest: bool)
        requires
            exists|tranches: int, assets: int|
                tranche < tranches && asset < assets && #[trigger] Self::fits(
                    self.state(),
                    tranches,
                    assets,
                ),
        ensures
            rest == Self::rests(self.state(), tranche as int, asset as int),
    ;
}

/// The framework's own policy.
///
/// Sells pay into cash and buys draw from it; a buy the cash cannot cover
/// is cut to the lots it can. A buy the market blocks becomes a standing
/// order: its cost — the fill's turnover plus fee, at the size struck — is
/// locked until it fills at a later point of the bar or the bar closes,
/// exactly as a venue holds the money behind an open order. Locked cash
/// is still the account's (it counts in equity); it is just not spendable.
/// Settlement is a quantity per tranche — what the book held when the day
/// opened — and only bites when a tranche decides more than once inside a
/// day (`audit`).
pub struct Plain {
    tranches: usize,
    assets: usize,
    /// `(K, N)` units each tranche may still sell today.
    budget: Vec<Binary64>,
    /// `(K, N)` cash locked behind each standing buy.
    locked: Vec<Binary64>,
    /// Everything locked, across the account.
    locked_total: Binary64,
}

impl View for Plain {
    type V = PlainState;

    closed spec fn view(&self) -> PlainState {
        PlainState {
            tranches: self.tranches as int,
            assets: self.assets as int,
            budget: self.budget@,
            locked: self.locked@,
            locked_total: self.locked_total,
        }
    }
}

impl Plain {
    fn at(&self, tranche: usize, asset: usize) -> (cell: usize)
        requires
            self@.cell(tranche as int, asset as int) <= usize::MAX,
        ensures
            cell == self@.cell(tranche as int, asset as int),
    {
        proof {
            assert(tranche * self.assets >= 0) by (nonlinear_arith);
        }
        tranche * self.assets + asset
    }

    /// Free one cell's locked cash.
    fn release(&mut self, cell: usize)
        requires
            cell < old(self)@.locked.len(),
        ensures
            final(self)@ == old(self)@.released(cell as int),
    {
        if Binary64::zero().less(self.locked[cell]) {
            self.locked_total = self.locked_total.minus(self.locked[cell]);
            self.locked.set(cell, Binary64::zero());
        }
    }

    /// Free the locked cash of every name of a tranche.
    fn release_all(&mut self, acct: &Account, tranche: usize)
        requires
            acct@.wf(),
            old(self)@.fits(acct@.tranches, acct@.assets),
            tranche < acct.tranches,
        ensures
            final(self)@ == old(self)@.released_all(
                tranche as int,
                acct@.active[tranche as int],
            ),
            final(self)@.fits(acct@.tranches, acct@.assets),
    {
        let ghost before: PlainState = self@;
        let ghost list: Seq<usize> = acct@.active[tranche as int];
        let mut idx: usize = 0;
        proof {
            assert(list.take(0) =~= Seq::<usize>::empty());
            assert(names::bounded(acct@.active[tranche as int], acct@.assets));
        }
        while idx < acct.named(tranche).len()
            invariant
                acct@.wf(),
                before.fits(acct@.tranches, acct@.assets),
                self@.fits(acct@.tranches, acct@.assets),
                tranche < acct.tranches,
                list == acct@.active[tranche as int],
                names::bounded(list, acct@.assets),
                idx <= list.len(),
                self@ == before.released_all(tranche as int, list.take(idx as int)),
            decreases list.len() - idx,
        {
            let asset: usize = acct.named(tranche)[idx];
            proof {
                assert(list[idx as int] < acct@.assets);
                ledger::lemma_cell(acct@.tranches, acct@.assets, tranche as int, asset as int);
                assert(list.take(idx + 1).drop_last() =~= list.take(idx as int));
            }
            let cell: usize = self.at(tranche, asset);
            self.release(cell);
            idx = idx + 1;
        }
        proof {
            assert(list.take(idx as int) =~= list);
        }
    }

    /// What the account may spend: its cash less what its orders hold.
    fn spendable(&self, acct: &Account) -> (cash: Binary64)
        ensures
            cash == self@.spendable(acct@),
    {
        acct.cash.minus(self.locked_total)
    }

    /// The gross exposure of a decision row.
    fn share(inp: &Inputs, run: usize, tranche: usize, decision: usize, row: &Vec<usize>) -> (share:
        Binary64)
        requires
            inp.valid(),
            run < inp.runs(),
            tranche < inp.tranches(),
            decision < inp.decisions(),
            names::bounded(row@, inp.assets()),
        ensures
            share == plain::gross(*inp, run as int, tranche as int, decision as int, row@),
    {
        let mut share: Binary64 = Binary64::zero();
        let mut idx: usize = 0;
        proof {
            assert(row@.take(0) =~= Seq::<usize>::empty());
        }
        while idx < row.len()
            invariant
                inp.valid(),
                run < inp.runs(),
                tranche < inp.tranches(),
                decision < inp.decisions(),
                names::bounded(row@, inp.assets()),
                idx <= row@.len(),
                share == plain::gross(
                    *inp,
                    run as int,
                    tranche as int,
                    decision as int,
                    row@.take(idx as int),
                ),
            decreases row@.len() - idx,
        {
            proof {
                assert(row@[idx as int] < inp.assets());
                assert(row@.take(idx + 1).drop_last() =~= row@.take(idx as int));
            }
            let weight: Binary64 = inp.plan_weight(run, tranche, decision, row[idx]);
            if !weight.is_nan() {
                share = share.plus(weight.abs());
            }
            idx = idx + 1;
        }
        proof {
            assert(row@.take(idx as int) =~= row@);
        }
        share
    }

    /// Size one tranche's decision against what it can reach.
    fn size(
        &mut self,
        acct: &mut Account,
        inp: &Inputs,
        tranche: usize,
        decision: usize,
        at: Point,
    )
        requires
            inp.valid(),
            inp.covers(at),
            old(acct)@.wf(),
            old(acct)@.suits(*inp),
            old(self)@.fits(old(acct)@.tranches, old(acct)@.assets),
            tranche < old(acct).tranches,
            decision < inp.decisions(),
        ensures
            final(self)@ == old(self)@,
            final(acct)@ == old(self)@.sized(
                old(acct)@,
                *inp,
                tranche as int,
                decision as int,
                at,
            ),
            final(acct)@.wf(),
            final(acct)@.alike(old(acct)@),
    {
        let ghost before: Ledger = acct@;
        let ghost book: PlainState = self@;
        let row: Vec<usize> = acct.row_names(inp, tranche, decision);
        proof {
            let keep = |i: int|
                !ledger::none(inp.weight(before.run, tranche as int, decision as int, i));
            names::lemma_where_below(before.assets, keep);
            assert(names::bounded(row@, before.assets));
        }
        let share: Binary64 = Plain::share(inp, acct.run, tranche, decision, &row);
        let reachable: Binary64 = acct.holding(inp, tranche, at).plus(self.spendable(acct));
        let investable: Binary64 = acct.investable(inp, share, reachable);
        // The row's names and the book's: any other name strikes zero on a
        // zero weight and holds nothing, so its cell is already at rest.
        let list: Vec<usize> = merged(row.as_slice(), acct.named(tranche));
        let mut idx: usize = 0;
        proof {
            let own: Seq<usize> = before.active[tranche as int];
            assert(names::bounded(own, before.assets));
            assert forall|k: int| 0 <= k < list@.len() implies (#[trigger] list@[k])
                < before.assets by {
                assert(list@.contains(list@[k]));
                if row@.contains(list@[k]) {
                    let m: int = choose|m: int| 0 <= m < row@.len() && row@[m] == list@[k];
                    assert(row@[m] < before.assets);
                } else {
                    let m: int = choose|m: int| 0 <= m < own.len() && own[m] == list@[k];
                    assert(own[m] < before.assets);
                }
            }
            assert(list@.take(0) =~= Seq::<usize>::empty());
        }
        while idx < list.len()
            invariant
                inp.valid(),
                inp.covers(at),
                before.wf(),
                before.suits(*inp),
                self@ == book,
                book.fits(before.tranches, before.assets),
                tranche < before.tranches,
                decision < inp.decisions(),
                names::bounded(list@, before.assets),
                idx <= list@.len(),
                acct@.wf(),
                acct@ == book.size_names(
                    before,
                    *inp,
                    tranche as int,
                    decision as int,
                    at,
                    investable,
                    list@.take(idx as int),
                ),
                acct@ == (Ledger {
                    target: acct@.target,
                    blocked: acct@.blocked,
                    active: acct@.active,
                    ..before
                }),
            decreases list@.len() - idx,
        {
            let asset: usize = list[idx];
            let ghost mid: Ledger = acct@;
            proof {
                assert(list@[idx as int] < before.assets);
                assert(list@.take(idx + 1).drop_last() =~= list@.take(idx as int));
                ledger::lemma_cell(
                    before.tranches,
                    before.assets,
                    tranche as int,
                    asset as int,
                );
                book.lemma_size_name(
                    mid,
                    *inp,
                    tranche as int,
                    decision as int,
                    at,
                    investable,
                    asset as int,
                );
            }
            let weight: Binary64 = inp.plan_weight(acct.run, tranche, decision, asset);
            let want: Binary64 = acct.strike(inp, tranche, asset, weight, investable, at);
            let cell: usize = acct.at(tranche, asset);
            acct.target.set(cell, want);
            // A reduction the day's budget cannot cover is refused in part:
            // it sells what it may, and the book stays between answers.
            let give: Binary64 = acct.qty[cell].minus(want);
            let refused: bool = inp.audit && Binary64::zero().less(acct.qty[cell])
                && self.budget[cell].less(give);
            acct.blocked.set(cell, refused);
            proof {
                assert(acct@.active =~= mid.active);
                assert(acct@.wf());
            }
            if !want.equals(Binary64::zero()) || refused {
                acct.touch(tranche, asset);
            }
            idx = idx + 1;
        }
        proof {
            assert(list@.take(idx as int) =~= list@);
        }
    }

    /// One tranche's sells at this point.
    fn sell(&mut self, acct: &mut Account, inp: &Inputs, tranche: usize, at: Point)
        requires
            inp.valid(),
            inp.covers(at),
            old(acct)@.wf(),
            old(acct)@.suits(*inp),
            old(self)@.fits(old(acct)@.tranches, old(acct)@.assets),
            tranche < old(acct).tranches,
        ensures
            (final(self)@, final(acct)@) == old(self)@.sell_names(
                old(acct)@,
                *inp,
                tranche as int,
                at,
                old(acct)@.active[tranche as int],
            ),
            final(acct)@.wf(),
            final(acct)@.alike(old(acct)@),
            final(self)@.fits(old(acct)@.tranches, old(acct)@.assets),
    {
        let ghost before: Ledger = acct@;
        let ghost book: PlainState = self@;
        let ghost list: Seq<usize> = before.active[tranche as int];
        let mut idx: usize = 0;
        proof {
            assert(list.take(0) =~= Seq::<usize>::empty());
            assert(names::bounded(before.active[tranche as int], before.assets));
        }
        while idx < acct.named(tranche).len()
            invariant
                inp.valid(),
                inp.covers(at),
                before.wf(),
                before.suits(*inp),
                tranche < before.tranches,
                list == before.active[tranche as int],
                names::bounded(list, before.assets),
                idx <= list.len(),
                acct@.wf(),
                acct@.alike(before),
                acct@.active == before.active,
                self@.fits(before.tranches, before.assets),
                (self@, acct@) == book.sell_names(
                    before,
                    *inp,
                    tranche as int,
                    at,
                    list.take(idx as int),
                ),
            decreases list.len() - idx,
        {
            let asset: usize = acct.named(tranche)[idx];
            proof {
                assert(list[idx as int] < before.assets);
                assert(list.take(idx + 1).drop_last() =~= list.take(idx as int));
                self@.lemma_sell_name(acct@, *inp, tranche as int, at, asset as int);
            }
            self.sell_one(acct, inp, tranche, asset, at);
            idx = idx + 1;
        }
        proof {
            assert(list.take(idx as int) =~= list);
        }
    }

    /// One name's sell.
    fn sell_one(
        &mut self,
        acct: &mut Account,
        inp: &Inputs,
        tranche: usize,
        asset: usize,
        at: Point,
    )
        requires
            inp.valid(),
            inp.covers(at),
            old(acct)@.wf(),
            old(acct)@.suits(*inp),
            old(self)@.fits(old(acct)@.tranches, old(acct)@.assets),
            tranche < old(acct).tranches,
            asset < old(acct).assets,
        ensures
            (final(self)@, final(acct)@) == old(self)@.sell_name(
                old(acct)@,
                *inp,
                tranche as int,
                at,
                asset as int,
            ),
    {
        let ghost before: Ledger = acct@;
        let ghost book: PlainState = self@;
        let zero: Binary64 = Binary64::zero();
        proof {
            ledger::lemma_cell(before.tranches, before.assets, tranche as int, asset as int);
        }
        let price: Binary64 = inp.price(at.phase, at.bar, asset);
        if !zero.less(price) {
            return;
        }
        let cell: usize = acct.at(tranche, asset);
        let mut give: Binary64 = acct.qty[cell].minus(acct.target[cell]);
        if give.at_most(zero) || !inp.sellable(at.phase, at.bar, asset) {
            return;
        }
        if acct.blocked[cell] && self.budget[cell].less(give) {
            give = self.budget[cell];
        }
        // No lot rounding on the way out: a corporate action leaves a
        // fractional count, and flooring every sell strands it forever.
        if give.at_most(zero) {
            return;
        }
        let category: usize = inp.class(asset);
        let turnover: Binary64 = give.times(price).times(
            inp.rate(MULTIPLIER, at.epoch, category),
        );
        let fee: Binary64 = inp.fee(
            turnover,
            inp.rate(SELL_FEE, at.epoch, category),
            at.epoch,
            category,
        );
        let left: Binary64 = acct.qty[cell].minus(give);
        acct.qty.set(cell, left);
        if inp.audit && zero.less(left.plus(give)) {
            let budget: Binary64 = self.budget[cell].minus(give);
            self.budget.set(cell, budget);
        }
        acct.cash = acct.cash.plus(turnover.minus(fee));
        acct.fees = acct.fees.plus(fee);
        acct.sold = acct.sold.plus(turnover);
        acct.fill(
            at,
            #[verifier::truncate]
            (tranche as i32),
            asset,
            give.negated(),
            price,
            fee,
        );
        proof {
            assert(acct@.active =~= before.active);
        }
    }

    /// A count backed off lot by lot until its cost fits.
    fn back_off(
        inp: &Inputs,
        units: Binary64,
        unit: Binary64,
        rate: Binary64,
        lot: Binary64,
        spendable: Binary64,
        epoch: usize,
        category: usize,
    ) -> (take: Binary64)
        requires
            inp.valid(),
        ensures
            take == (Terms {
                unit,
                rate,
                lot,
                spendable,
                epoch: epoch as int,
                category: category as int,
            }).backed_off(*inp, units),
    {
        let ghost terms: Terms = Terms {
            unit,
            rate,
            lot,
            spendable,
            epoch: epoch as int,
            category: category as int,
        };
        let mut take: Binary64 = units;
        loop
            invariant
                inp.valid(),
                terms == (Terms {
                    unit,
                    rate,
                    lot,
                    spendable,
                    epoch: epoch as int,
                    category: category as int,
                }),
                terms.backed_off(*inp, take) == terms.backed_off(*inp, units),
            decreases terms.distance(take),
        {
            // An infinite count would back off one lot at a time forever.
            if !Binary64::zero().less(take) || !take.is_finite() {
                return take;
            }
            let turnover: Binary64 = take.times(unit);
            let fee: Binary64 = inp.fee(turnover, rate, epoch, category);
            if !spendable.less(turnover.plus(fee)) {
                return take;
            }
            let fewer: Binary64 = take.minus(lot);
            if fewer.equals(take) {
                return Binary64::zero();
            }
            proof {
                terms.lemma_nearer(take);
            }
            take = fewer;
        }
    }

    /// What one name's buy costs at this point, cut to what cash covers.
    ///
    /// Returns `(units, turnover, fee)`, units zero when nothing fits.
    fn affordable(
        &self,
        acct: &Account,
        inp: &Inputs,
        tranche: usize,
        asset: usize,
        at: Point,
    ) -> (order: (Binary64, Binary64, Binary64))
        requires
            inp.valid(),
            inp.covers(at),
            acct@.wf(),
            acct@.suits(*inp),
            tranche < acct.tranches,
            asset < acct.assets,
        ensures
            order == self@.affords(acct@, *inp, tranche as int, at, asset as int),
    {
        let zero: Binary64 = Binary64::zero();
        proof {
            ledger::lemma_cell(acct@.tranches, acct@.assets, tranche as int, asset as int);
        }
        let price: Binary64 = inp.price(at.phase, at.bar, asset);
        let cell: usize = acct.at(tranche, asset);
        let asked: Binary64 = acct.target[cell].minus(acct.qty[cell]);
        if asked.at_most(zero) || !zero.less(price) {
            return (zero, zero, zero);
        }
        let category: usize = inp.class(asset);
        let unit: Binary64 = price.times(inp.rate(MULTIPLIER, at.epoch, category));
        let rate: Binary64 = inp.rate(BUY_FEE, at.epoch, category);
        let lot: Binary64 = inp.rate(LOT, at.epoch, category);
        // Whole lots the cash covers, fees included; the fee floor can push
        // a full-cash order over, so back off a lot until it fits.
        let spendable: Binary64 = self.spendable(acct);
        let per_unit: Binary64 = unit.times(Binary64 { bits: ONE }.plus(rate));
        let fixed: Binary64 = inp.rate(FIXED_FEE, at.epoch, category);
        let fitting: Binary64 = spendable.minus(fixed).over(per_unit).over(lot).floor().times(lot);
        let mut take: Binary64 = if fitting.less(asked) { fitting } else { asked };
        let turnover: Binary64 = take.times(unit);
        let fee: Binary64 = inp.fee(turnover, rate, at.epoch, category);
        if zero.less(take) && take.is_finite() && spendable.less(turnover.plus(fee)) {
            take = Plain::back_off(
                inp,
                fitting.minus(lot),
                unit,
                rate,
                lot,
                spendable,
                at.epoch,
                category,
            );
        }
        let least: Binary64 = inp.rate(MIN_LOT, at.epoch, category);
        if take.at_most(zero) || acct.qty[cell].plus(take).less(least) {
            return (zero, zero, zero);
        }
        let turnover: Binary64 = take.times(unit);
        (take, turnover, inp.fee(turnover, rate, at.epoch, category))
    }

    /// One buy for one name: fill what fits, or lock its cash behind a
    /// standing order when the market blocks it.
    pub fn buy(
        &mut self,
        acct: &mut Account,
        inp: &Inputs,
        tranche: usize,
        asset: usize,
        at: Point,
    )
        requires
            inp.valid(),
            inp.covers(at),
            old(acct)@.wf(),
            old(acct)@.suits(*inp),
            old(self)@.fits(old(acct)@.tranches, old(acct)@.assets),
            tranche < old(acct).tranches,
            asset < old(acct).assets,
        ensures
            (final(self)@, final(acct)@) == old(self)@.buy_name(
                old(acct)@,
                *inp,
                tranche as int,
                at,
                asset as int,
            ),
            final(acct)@.wf(),
            final(acct)@.suits(*inp),
            final(self)@.fits(old(acct)@.tranches, old(acct)@.assets),
    {
        proof {
            self@.lemma_buy_name(acct@, *inp, tranche as int, at, asset as int);
        }
        let (take, turnover, fee): (Binary64, Binary64, Binary64) = self.affordable(
            acct,
            inp,
            tranche,
            asset,
            at,
        );
        if take.at_most(Binary64::zero()) {
            return;
        }
        proof {
            ledger::lemma_cell(acct@.tranches, acct@.assets, tranche as int, asset as int);
        }
        let cell: usize = acct.at(tranche, asset);
        acct.touch(tranche, asset);
        let ghost touched: Ledger = acct@;
        let cost: Binary64 = turnover.plus(fee);
        if !inp.buyable(at.phase, at.bar, asset) {
            self.locked.set(cell, cost);
            self.locked_total = self.locked_total.plus(cost);
            return;
        }
        let units: Binary64 = acct.qty[cell].plus(take);
        acct.qty.set(cell, units);
        if inp.flag(SAME_BAR, inp.class(asset)) {
            let budget: Binary64 = self.budget[cell].plus(take);
            self.budget.set(cell, budget);
        }
        acct.cash = acct.cash.minus(cost);
        acct.fees = acct.fees.plus(fee);
        acct.bought = acct.bought.plus(turnover);
        acct.fill(
            at,
            #[verifier::truncate]
            (tranche as i32),
            asset,
            take,
            inp.price(at.phase, at.bar, asset),
            fee,
        );
        proof {
            assert(acct@.active =~= touched.active);
        }
    }
}

impl Plain {
    /// One tranche's buys at this point.
    fn buy_all(&mut self, acct: &mut Account, inp: &Inputs, tranche: usize, at: Point)
        requires
            inp.valid(),
            inp.covers(at),
            old(acct)@.wf(),
            old(acct)@.suits(*inp),
            old(self)@.fits(old(acct)@.tranches, old(acct)@.assets),
            tranche < old(acct).tranches,
        ensures
            (final(self)@, final(acct)@) == old(self)@.buy_names(
                old(acct)@,
                *inp,
                tranche as int,
                at,
                old(acct)@.active[tranche as int],
            ),
            final(acct)@.wf(),
            final(acct)@.alike(old(acct)@),
            final(self)@.fits(old(acct)@.tranches, old(acct)@.assets),
    {
        let ghost before: Ledger = acct@;
        let ghost book: PlainState = self@;
        let ghost list: Seq<usize> = before.active[tranche as int];
        let mut idx: usize = 0;
        proof {
            assert(list.take(0) =~= Seq::<usize>::empty());
            assert(names::bounded(before.active[tranche as int], before.assets));
        }
        while idx < acct.named(tranche).len()
            invariant
                inp.valid(),
                inp.covers(at),
                before.wf(),
                before.suits(*inp),
                tranche < before.tranches,
                list == before.active[tranche as int],
                names::bounded(list, before.assets),
                idx <= list.len(),
                acct@.wf(),
                acct@.alike(before),
                acct@.active == before.active,
                self@.fits(before.tranches, before.assets),
                (self@, acct@) == book.buy_names(
                    before,
                    *inp,
                    tranche as int,
                    at,
                    list.take(idx as int),
                ),
            decreases list.len() - idx,
        {
            let asset: usize = acct.named(tranche)[idx];
            proof {
                assert(list[idx as int] < before.assets);
                assert(list.contains(asset));
                assert(list.take(idx + 1).drop_last() =~= list.take(idx as int));
                self@.lemma_buy_name(acct@, *inp, tranche as int, at, asset as int);
            }
            self.buy(acct, inp, tranche, asset, at);
            idx = idx + 1;
        }
        proof {
            assert(list.take(idx as int) =~= list);
        }
    }

    /// One tranche's standing orders try again.
    fn retry_all(&mut self, acct: &mut Account, inp: &Inputs, tranche: usize, at: Point)
        requires
            inp.valid(),
            inp.covers(at),
            old(acct)@.wf(),
            old(acct)@.suits(*inp),
            old(self)@.fits(old(acct)@.tranches, old(acct)@.assets),
            tranche < old(acct).tranches,
        ensures
            (final(self)@, final(acct)@) == old(self)@.retry_names(
                old(acct)@,
                *inp,
                tranche as int,
                at,
                old(acct)@.active[tranche as int],
            ),
            final(acct)@.wf(),
            final(acct)@.alike(old(acct)@),
            final(self)@.fits(old(acct)@.tranches, old(acct)@.assets),
    {
        let ghost before: Ledger = acct@;
        let ghost book: PlainState = self@;
        let ghost list: Seq<usize> = before.active[tranche as int];
        let mut idx: usize = 0;
        proof {
            assert(list.take(0) =~= Seq::<usize>::empty());
            assert(names::bounded(before.active[tranche as int], before.assets));
        }
        while idx < acct.named(tranche).len()
            invariant
                inp.valid(),
                inp.covers(at),
                before.wf(),
                before.suits(*inp),
                tranche < before.tranches,
                list == before.active[tranche as int],
                names::bounded(list, before.assets),
                idx <= list.len(),
                acct@.wf(),
                acct@.alike(before),
                acct@.active == before.active,
                self@.fits(before.tranches, before.assets),
                (self@, acct@) == book.retry_names(
                    before,
                    *inp,
                    tranche as int,
                    at,
                    list.take(idx as int),
                ),
            decreases list.len() - idx,
        {
            let asset: usize = acct.named(tranche)[idx];
            let ghost mid: PlainState = self@;
            proof {
                assert(list[idx as int] < before.assets);
                assert(list.contains(asset));
                assert(list.take(idx + 1).drop_last() =~= list.take(idx as int));
                ledger::lemma_cell(
                    before.tranches,
                    before.assets,
                    tranche as int,
                    asset as int,
                );
            }
            let cell: usize = self.at(tranche, asset);
            if !self.locked[cell].at_most(Binary64::zero()) && inp.buyable(
                at.phase,
                at.bar,
                asset,
            ) {
                self.release(cell);
                proof {
                    self@.lemma_buy_name(acct@, *inp, tranche as int, at, asset as int);
                }
                self.buy(acct, inp, tranche, asset, at);
            }
            idx = idx + 1;
        }
        proof {
            assert(list.take(idx as int) =~= list);
        }
    }

    /// One tranche acts on a decision.
    fn decide_one(
        &mut self,
        acct: &mut Account,
        inp: &Inputs,
        tranche: usize,
        decision: usize,
        at: Point,
    )
        requires
            inp.valid(),
            inp.covers(at),
            old(acct)@.wf(),
            old(acct)@.suits(*inp),
            old(self)@.fits(old(acct)@.tranches, old(acct)@.assets),
            tranche < old(acct).tranches,
            decision < inp.decisions(),
            decision <= i64::MAX,
        ensures
            (final(self)@, final(acct)@) == old(self)@.decided(
                old(acct)@,
                *inp,
                tranche as int,
                decision as int,
                at,
            ),
            final(acct)@.wf(),
            final(acct)@.alike(old(acct)@),
            final(self)@.fits(old(acct)@.tranches, old(acct)@.assets),
    {
        // A fresh decision replaces whatever stood: its orders are
        // withdrawn and their cash is reachable again.
        self.release_all(acct, tranche);
        self.size(acct, inp, tranche, decision, at);
        self.sell(acct, inp, tranche, at);
        self.buy_all(acct, inp, tranche, at);
        acct.remember_attained(inp, tranche, decision);
    }

    /// A corporate action scales what may be sold of a name.
    fn scale_budget(&mut self, asset: usize, ratio: Binary64)
        requires
            old(self)@.fits(old(self)@.tranches, old(self)@.assets),
            asset < old(self)@.assets,
        ensures
            final(self)@ == old(self)@.acted(asset as int, ratio),
    {
        let ghost before: PlainState = self@;
        let ghost goal: PlainState = before.acted(asset as int, ratio);
        let mut tranche: usize = 0;
        while tranche < self.tranches
            invariant
                before.fits(before.tranches, before.assets),
                goal == before.acted(asset as int, ratio),
                asset < before.assets,
                tranche <= self.tranches,
                self@ == (PlainState { budget: self@.budget, ..before }),
                self@.budget.len() == before.budget.len(),
                forall|c: int|
                    0 <= c < before.budget.len() ==> #[trigger] self@.budget[c] == if c
                        / before.assets < tranche {
                        goal.budget[c]
                    } else {
                        before.budget[c]
                    },
            decreases self.tranches - tranche,
        {
            let ghost mid: PlainState = self@;
            proof {
                ledger::lemma_cell(
                    before.tranches,
                    before.assets,
                    tranche as int,
                    asset as int,
                );
            }
            let cell: usize = self.at(tranche, asset);
            if !self.budget[cell].equals(Binary64::zero()) {
                let budget: Binary64 = self.budget[cell].times(ratio);
                self.budget.set(cell, budget);
            }
            proof {
                assert forall|c: int|
                    0 <= c < before.budget.len() implies #[trigger] self@.budget[c] == if c
                    / before.assets < tranche + 1 {
                    goal.budget[c]
                } else {
                    before.budget[c]
                } by {
                    ledger::lemma_uncell(before.tranches, before.assets, c);
                    let was: Binary64 = mid.budget[c];
                }
            }
            tranche = tranche + 1;
        }
        proof {
            assert forall|c: int| 0 <= c < before.budget.len() implies self@.budget[c]
                == goal.budget[c] by {
                ledger::lemma_uncell(before.tranches, before.assets, c);
            }
            assert(self@.budget =~= goal.budget);
        }
    }

    /// One tranche's books as they open the day.
    fn settle(&mut self, acct: &Account, tranche: usize)
        requires
            acct@.wf(),
            old(self)@.fits(acct@.tranches, acct@.assets),
            tranche < acct.tranches,
        ensures
            final(self)@ == (PlainState { budget: final(self)@.budget, ..old(self)@ }),
            final(self)@.budget.len() == old(self)@.budget.len(),
            forall|c: int|
                0 <= c < old(self)@.budget.len() ==> #[trigger] final(self)@.budget[c] == if c
                    / acct@.assets == tranche && acct@.active[tranche as int].contains(
                    (c % acct@.assets) as usize,
                ) {
                    acct@.qty[c]
                } else {
                    old(self)@.budget[c]
                },
    {
        let ghost before: PlainState = self@;
        let ghost list: Seq<usize> = acct@.active[tranche as int];
        let mut idx: usize = 0;
        proof {
            assert(names::bounded(acct@.active[tranche as int], acct@.assets));
        }
        while idx < acct.named(tranche).len()
            invariant
                acct@.wf(),
                before.fits(acct@.tranches, acct@.assets),
                tranche < acct.tranches,
                list == acct@.active[tranche as int],
                names::bounded(list, acct@.assets),
                idx <= list.len(),
                self@ == (PlainState { budget: self@.budget, ..before }),
                self@.budget.len() == before.budget.len(),
                forall|c: int|
                    0 <= c < before.budget.len() ==> #[trigger] self@.budget[c] == if c
                        / acct@.assets == tranche && list.take(idx as int).contains(
                        (c % acct@.assets) as usize,
                    ) {
                        acct@.qty[c]
                    } else {
                        before.budget[c]
                    },
            decreases list.len() - idx,
        {
            let asset: usize = acct.named(tranche)[idx];
            let ghost mid: PlainState = self@;
            proof {
                assert(list[idx as int] < acct@.assets);
                ledger::lemma_cell(acct@.tranches, acct@.assets, tranche as int, asset as int);
            }
            let cell: usize = self.at(tranche, asset);
            self.budget.set(cell, acct.qty[cell]);
            proof {
                let part: Seq<usize> = list.take(idx as int);
                let more: Seq<usize> = list.take(idx + 1);
                assert forall|x: usize| #[trigger] more.contains(x) <==> part.contains(x) || x
                    == asset by {
                    if more.contains(x) {
                        let k: int = choose|k: int| 0 <= k < more.len() && more[k] == x;
                        if k < idx {
                            assert(part[k] == x);
                        }
                    }
                    if part.contains(x) {
                        let k: int = choose|k: int| 0 <= k < part.len() && part[k] == x;
                        assert(more[k] == x);
                    }
                    assert(more[idx as int] == asset);
                }
                assert forall|c: int|
                    0 <= c < before.budget.len() implies #[trigger] self@.budget[c] == if c
                    / acct@.assets == tranche && more.contains((c % acct@.assets) as usize) {
                    acct@.qty[c]
                } else {
                    before.budget[c]
                } by {
                    ledger::lemma_uncell(acct@.tranches, acct@.assets, c);
                    let was: Binary64 = mid.budget[c];
                }
            }
            idx = idx + 1;
        }
        proof {
            assert(list.take(idx as int) =~= list);
        }
    }
}

impl Bookkeeping for Plain {
    type State = PlainState;

    open spec fn state(&self) -> PlainState {
        self@
    }

    open spec fn fits(state: PlainState, tranches: int, assets: int) -> bool {
        state.fits(tranches, assets)
    }

    open spec fn fresh(tranches: int, assets: int) -> PlainState {
        PlainState::fresh(tranches, assets)
    }

    open spec fn acted(state: PlainState, l: Ledger, i: int, ratio: Binary64) -> PlainState {
        state.acted(i, ratio)
    }

    open spec fn dawned(state: PlainState, l: Ledger) -> PlainState {
        state.dawned(l)
    }

    open spec fn bar_opened(state: PlainState) -> PlainState {
        state
    }

    open spec fn backfilled(state: PlainState, l: Ledger, inp: Inputs, at: Point) -> (
        PlainState,
        Ledger,
    ) {
        state.backfilled(l, inp, at, l.tranches)
    }

    open spec fn traded(state: PlainState, l: Ledger, inp: Inputs, at: Point) -> (
        PlainState,
        Ledger,
    ) {
        state.traded(l, inp, at, l.tranches)
    }

    open spec fn bar_closed(state: PlainState, l: Ledger) -> (PlainState, Ledger) {
        (state.expired(l, l.tranches), l)
    }

    open spec fn rests(state: PlainState, t: int, i: int) -> bool {
        state.rests(t, i)
    }

    fn new(tranches: usize, assets: usize) -> (book: Self) {
        proof {
            assert(tranches * assets >= 0) by (nonlinear_arith);
        }
        let cells: usize = tranches * assets;
        let zero: Binary64 = Binary64::zero();
        Plain {
            tranches,
            assets,
            budget: repeated(zero, cells),
            locked: repeated(zero, cells),
            locked_total: zero,
        }
    }

    fn corporate_action(&mut self, acct: &Account, asset: usize, ratio: Binary64) {
        self.scale_budget(asset, ratio);
    }

    fn new_day(&mut self, acct: &Account) {
        let ghost before: PlainState = self@;
        let ghost goal: PlainState = before.dawned(acct@);
        let mut tranche: usize = 0;
        proof {
            assert forall|c: int| 0 <= c < before.budget.len() implies c / acct@.assets >= 0
                && #[trigger] before.budget[c] == self@.budget[c] by {
                ledger::lemma_uncell(acct@.tranches, acct@.assets, c);
            }
        }
        while tranche < self.tranches
            invariant
                acct@.wf(),
                before.fits(acct@.tranches, acct@.assets),
                goal == before.dawned(acct@),
                tranche <= self.tranches,
                self@ == (PlainState { budget: self@.budget, ..before }),
                self@.budget.len() == before.budget.len(),
                forall|c: int|
                    0 <= c < before.budget.len() ==> #[trigger] self@.budget[c] == if c
                        / acct@.assets < tranche {
                        goal.budget[c]
                    } else {
                        before.budget[c]
                    },
            decreases self.tranches - tranche,
        {
            let ghost mid: PlainState = self@;
            self.settle(acct, tranche);
            proof {
                assert forall|c: int|
                    0 <= c < before.budget.len() implies #[trigger] self@.budget[c] == if c
                    / acct@.assets < tranche + 1 {
                    goal.budget[c]
                } else {
                    before.budget[c]
                } by {
                    ledger::lemma_uncell(acct@.tranches, acct@.assets, c);
                    let was: Binary64 = mid.budget[c];
                }
            }
            tranche = tranche + 1;
        }
        proof {
            assert forall|c: int| 0 <= c < before.budget.len() implies self@.budget[c]
                == goal.budget[c] by {
                ledger::lemma_uncell(acct@.tranches, acct@.assets, c);
            }
            assert(self@.budget =~= goal.budget);
        }
    }

    fn open_bar(&mut self) {
    }

    fn backfill(&mut self, acct: &mut Account, inp: &Inputs, at: Point) {
        // A standing order tries again where the market lets it: its cash
        // comes back to the account and the fill is checked against the
        // point's own price.
        let ghost before: Ledger = acct@;
        let ghost book: PlainState = self@;
        let mut tranche: usize = 0;
        while tranche < self.tranches
            invariant
                inp.valid(),
                inp.covers(at),
                before.wf(),
                before.suits(*inp),
                acct@.wf(),
                acct@.alike(before),
                self@.fits(before.tranches, before.assets),
                tranche <= before.tranches,
                (self@, acct@) == book.backfilled(before, *inp, at, tranche as int),
            decreases before.tranches - tranche,
        {
            self.retry_all(acct, inp, tranche, at);
            tranche = tranche + 1;
        }
    }

    fn decide_and_trade(&mut self, acct: &mut Account, inp: &Inputs, at: Point) {
        let ghost before: Ledger = acct@;
        let ghost book: PlainState = self@;
        let mut tranche: usize = 0;
        while tranche < self.tranches
            invariant
                inp.valid(),
                inp.covers(at),
                before.wf(),
                before.suits(*inp),
                acct@.wf(),
                acct@.alike(before),
                self@.fits(before.tranches, before.assets),
                tranche <= before.tranches,
                (self@, acct@) == book.traded(before, *inp, at, tranche as int),
            decreases before.tranches - tranche,
        {
            let decision: i64 = acct.fire[tranche];
            proof {
                assert(before.fire[tranche as int] < inp.decisions());
            }
            if decision >= 0 {
                self.decide_one(acct, inp, tranche, decision as usize, at);
            }
            tranche = tranche + 1;
        }
    }

    fn close_bar(&mut self, acct: &mut Account) {
        // Standing orders expire with the bar; their cash is free again.
        let ghost before: Ledger = acct@;
        let ghost book: PlainState = self@;
        let mut tranche: usize = 0;
        while tranche < self.tranches
            invariant
                before.wf(),
                acct@ == before,
                self@.fits(before.tranches, before.assets),
                tranche <= before.tranches,
                self@ == book.expired(before, tranche as int),
            decreases before.tranches - tranche,
        {
            self.release_all(acct, tranche);
            tranche = tranche + 1;
        }
    }

    fn at_rest(&self, tranche: usize, asset: usize) -> (rest: bool) {
        proof {
            let (tranches, assets): (int, int) = choose|tranches: int, assets: int|
                tranche < tranches && asset < assets && #[trigger] Self::fits(
                    self.state(),
                    tranches,
                    assets,
                );
            ledger::lemma_cell(tranches, assets, tranche as int, asset as int);
        }
        let cell: usize = self.at(tranche, asset);
        self.budget[cell].equals(Binary64::zero()) && self.locked[cell].equals(Binary64::zero())
    }
}

}
