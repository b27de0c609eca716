//! The account: what every market's walk has in common.
//!
//! Cash, the per-tranche books, the liquidation pool, the last quote of
//! every name, and what each tranche's book has actually attained. The
//! phases here are the ones no bookkeeping policy disputes — marking,
//! impounding, the pool's sales, the equity snapshot, the close. How a
//! decision is funded, sized and filled is the policy's (`Bookkeeping`).

use vstd::prelude::*;

pub use crate::ledger::{Fill, POOL};
pub use crate::names::{insert_sorted, merged};

use crate::binary64::Binary64;
use crate::inputs::{decide, Inputs, Point};
use crate::inputs::{
    BOUGHT, CASH, EQUITY, FEES, LOT, MIN_LOT, MIN_NOTIONAL, MULTIPLIER, SELL_FEE, SHORTABLE, SOLD,
};
use crate::ledger;
use crate::ledger::{Ledger, NO_SHARE};
use crate::names;

verus! {

/// One account's state, for one run.
pub struct Account {
    /// Which run this account is.
    pub run: usize,
    pub tranches: usize,
    pub assets: usize,
    /// The account's cash. Policies move money in and out of it.
    pub cash: Binary64,
    /// `(K, N)` what each tranche holds, in units.
    pub qty: Vec<Binary64>,
    /// `(K, N)` what each tranche's standing decision asks it to hold.
    pub target: Vec<Binary64>,
    /// `(N,)` the liquidation pool: shares impounded out of their tranches.
    pub liq: Vec<Binary64>,
    /// `(N,)` the last quote seen for each name — what a holding is worth.
    pub last: Vec<Binary64>,
    /// `(K, N)` the weight each book actually reached. A standing firing is
    /// measured against this rather than the last target struck: the two
    /// part company exactly where a fill was refused, and that is where the
    /// account has to come back and try again.
    pub attained: Vec<Binary64>,
    /// `(K,)` which decision the book attained whole; -1 says the last
    /// firing left it somewhere in between.
    pub attained_row: Vec<i64>,
    /// `(K,)` which decision fires at the current point, -1 for none.
    pub fire: Vec<i64>,
    /// `(K, N)` which reductions the settlement refused when sized.
    pub blocked: Vec<bool>,
    /// `(K,)` the names each tranche's book is doing anything with, ascending:
    /// a unit held, a target struck, a refusal recorded, or state the policy
    /// keeps. Every per-point phase walks these and nothing else, in the
    /// same ascending order a scan of every name would take — so every sum
    /// adds the same non-zero terms in the same order, and the answer is the
    /// same bit.
    pub active: Vec<Vec<usize>>,
    /// The names the liquidation pool holds, ascending.
    pub pool: Vec<usize>,
    /// The bar's fees, purchase turnover and sale turnover so far.
    pub fees: Binary64,
    pub bought: Binary64,
    pub sold: Binary64,
    /// The equity read at the point sizing happens.
    pub equity: Binary64,
    /// Whether fills go on record.
    pub record_fills: bool,
    /// Every fill so far, in walk order, when recorded.
    pub fills: Vec<Fill>,
}

impl View for Account {
    type V = Ledger;

    open spec fn view(&self) -> Ledger {
        Ledger {
            run: self.run as int,
            tranches: self.tranches as int,
            assets: self.assets as int,
            cash: self.cash,
            qty: self.qty@,
            target: self.target@,
            liq: self.liq@,
            last: self.last@,
            attained: self.attained@,
            attained_row: self.attained_row@,
            fire: self.fire@,
            blocked: self.blocked@,
            active: Seq::new(self.active@.len(), |t: int| self.active@[t]@),
            pool: self.pool@,
            fees: self.fees,
            bought: self.bought,
            sold: self.sold,
            equity: self.equity,
            record_fills: self.record_fills,
            fills: self.fills@,
        }
    }
}

/// A list of `n` equal elements.
pub(crate) fn repeated<T: Copy>(value: T, n: usize) -> (out: Vec<T>)
    ensures
        out@ == Seq::new(n as nat, |i: int| value),
{
    let mut out: Vec<T> = Vec::new();
    let mut i: usize = 0;
    while i < n
        invariant
            i <= n,
            out@ == Seq::new(i as nat, |j: int| value),
        decreases n - i,
    {
        out.push(value);
        i = i + 1;
        proof {
            assert(out@ =~= Seq::new(i as nat, |j: int| value));
        }
    }
    out
}

impl Account {
    pub fn new(run: usize, tranches: usize, assets: usize, capital: Binary64) -> (acct: Account)
        requires
            tranches * assets <= usize::MAX,
        ensures
            acct@ == Ledger::fresh(run as int, tranches as int, assets as int, capital),
            acct@.wf(),
    {
        proof {
            assert(tranches * assets >= 0) by (nonlinear_arith);
        }
        let cells: usize = tranches * assets;
        let zero: Binary64 = Binary64::zero();
        let mut active: Vec<Vec<usize>> = Vec::new();
        let mut t: usize = 0;
        while t < tranches
            invariant
                t <= tranches,
                active@.len() == t,
                forall|k: int| 0 <= k < t ==> (#[trigger] active@[k])@ == Seq::<usize>::empty(),
            decreases tranches - t,
        {
            active.push(Vec::new());
            t = t + 1;
        }
        let acct: Account = Account {
            run,
            tranches,
            assets,
            cash: capital,
            qty: repeated(zero, cells),
            target: repeated(zero, cells),
            liq: repeated(zero, assets),
            last: repeated(zero, assets),
            attained: repeated(Binary64::nan(), cells),
            attained_row: repeated(-1i64, tranches),
            fire: repeated(-1i64, tranches),
            blocked: repeated(false, cells),
            active,
            pool: Vec::new(),
            fees: zero,
            bought: zero,
            sold: zero,
            equity: zero,
            record_fills: false,
            fills: Vec::new(),
        };
        proof {
            assert(acct@.active =~= Seq::new(tranches as nat, |t: int| Seq::<usize>::empty()));
        }
        acct
    }

    /// Put one fill on record, when fills are being recorded.
    pub fn fill(
        &mut self,
        at: Point,
        tranche: i32,
        asset: usize,
        units: Binary64,
        price: Binary64,
        fee: Binary64,
    )
        ensures
            final(self)@ == old(self)@.filled(at, tranche, asset as int, units, price, fee),
    {
        if self.record_fills {
            self.fills.push(
                Fill {
                    bar: #[verifier::truncate]
                    (at.bar as u32),
                    point: #[verifier::truncate]
                    (at.phase as u32),
                    tranche,
                    asset: #[verifier::truncate]
                    (asset as u32),
                    units,
                    price,
                    fee,
                },
            );
        }
    }

    /// The flat index of tranche `k`, name `i`.
    pub fn at(&self, tranche: usize, asset: usize) -> (cell: usize)
        requires
            self@.cell(tranche as int, asset as int) <= usize::MAX,
        ensures
            cell == self@.cell(tranche as int, asset as int),
    {
        proof {
            assert(tranche * self.assets >= 0) by (nonlinear_arith);
        }
        tranche * self.assets + asset
    }

    /// Note that tranche `k` is doing something with name `i`.
    pub fn touch(&mut self, tranche: usize, asset: usize)
        requires
            old(self)@.wf(),
            tranche < old(self).tranches,
            asset < old(self).assets,
        ensures
            final(self)@ == old(self)@.touched(tranche as int, asset as int),
            final(self)@.wf(),
            old(self)@.active[tranche as int].contains(asset) ==> final(self)@ == old(self)@,
    {
        let ghost before: Ledger = self@;
        proof {
            let names: Seq<usize> = before.active[tranche as int];
            names::lemma_inserted(names, asset);
            let out: Seq<usize> = names::inserted(names, asset);
            assert forall|i: int| 0 <= i < out.len() implies (#[trigger] out[i]) < self.assets by {
                assert(out.contains(out[i]));
                if names.contains(out[i]) {
                    let k: int = choose|k: int| 0 <= k < names.len() && names[k] == out[i];
                    assert(names[k] < self.assets);
                }
            }
            assert(names::ascending(self.active@[tranche as int]@));
        }
        insert_sorted(&mut self.active[tranche], asset);
        proof {
            assert(self@.active =~= before.touched(tranche as int, asset as int).active);
            if before.active[tranche as int].contains(asset) {
                assert(self@.active =~= before.active);
            }
        }
    }

    /// The names tranche `k` is doing something with, ascending.
    pub fn named(&self, tranche: usize) -> (names: &[usize])
        requires
            tranche < self.active@.len(),
        ensures
            names@ == self@.active[tranche as int],
    {
        self.active[tranche].as_slice()
    }

    /// The names a decision row weights, ascending — a missing weight
    /// (NaN, "keep the book") names the instrument too.
    pub fn row_names(&self, inp: &Inputs, tranche: usize, decision: usize) -> (names: Vec<usize>)
        requires
            inp.valid(),
            self.run < inp.runs(),
            tranche < inp.tranches(),
            decision < inp.decisions(),
            self.assets <= inp.assets(),
        ensures
            names@ == self@.row(*inp, tranche as int, decision as int),
    {
        let ghost keep = |i: int|
            !ledger::none(inp.weight(self.run as int, tranche as int, decision as int, i));
        let mut names: Vec<usize> = Vec::new();
        let mut asset: usize = 0;
        while asset < self.assets
            invariant
                asset <= self.assets <= inp.assets(),
                inp.valid(),
                self.run < inp.runs(),
                tranche < inp.tranches(),
                decision < inp.decisions(),
                keep == (|i: int|
                    !ledger::none(inp.weight(self.run as int, tranche as int, decision as int, i))),
                names@ == names::where_below(asset as int, keep),
            decreases self.assets - asset,
        {
            if !inp.plan_weight(self.run, tranche, decision, asset).equals(Binary64::zero()) {
                names.push(asset);
            }
            asset = asset + 1;
        }
        names
    }

    /// Every name any book or the pool holds, ascending.
    pub fn union_names(&self) -> (names: Vec<usize>)
        requires
            self@.wf(),
        ensures
            names@ == self@.names_of(self.tranches as int),
            names::ascending(names@),
            names::bounded(names@, self.assets as int),
            forall|x: usize| #[trigger]
                names@.contains(x) <==> self.pool@.contains(x) || exists|t: int|
                    0 <= t < self.tranches && #[trigger] self@.active[t].contains(x),
    {
        let mut out: Vec<usize> = Vec::new();
        let mut idx: usize = 0;
        while idx < self.pool.len()
            invariant
                idx <= self.pool@.len(),
                out@ == self.pool@.take(idx as int),
            decreases self.pool@.len() - idx,
        {
            out.push(self.pool[idx]);
            idx = idx + 1;
            proof {
                assert(out@ =~= self.pool@.take(idx as int));
            }
        }
        proof {
            assert(out@ =~= self.pool@);
        }
        let mut tranche: usize = 0;
        while tranche < self.tranches
            invariant
                self@.wf(),
                tranche <= self.tranches,
                out@ == self@.names_of(tranche as int),
            decreases self.tranches - tranche,
        {
            out = merged(out.as_slice(), self.named(tranche));
            tranche = tranche + 1;
        }
        proof {
            self@.lemma_names_of(self.tranches as int);
        }
        out
    }

    /// Forget the names whose cells are back at rest: nothing held, no
    /// target, no refusal, and nothing the policy keeps for them.
    pub fn sweep(&mut self, at_rest: impl Fn(usize, usize) -> bool)
        requires
            old(self)@.wf(),
            forall|t: usize, i: usize|
                t < old(self).tranches && i < old(self).assets ==> call_requires(at_rest, (t, i)),
        ensures
            final(self)@.wf(),
            exists|rest: spec_fn(int, int) -> bool|
                {
                    &&& final(self)@ == #[trigger] old(self)@.swept(rest)
                    &&& forall|t: usize, i: usize|
                        t < old(self).tranches && #[trigger] old(
                            self,
                        )@.active[t as int].contains(i) && old(self)@.idle(t as int, i as int)
                            ==> call_ensures(at_rest, (t, i), rest(t as int, i as int))
                },
    {
        let ghost before: Ledger = self@;
        let ghost mut answers: Map<(int, int), bool> = Map::empty();
        let mut tranche: usize = 0;
        while tranche < self.tranches
            invariant
                before.wf(),
                tranche <= self.tranches,
                self.tranches == before.tranches,
                self.assets == before.assets,
                self@ == (Ledger { active: self@.active, ..before }),
                self@.active.len() == before.tranches,
                forall|t: usize, i: usize|
                    t < before.tranches && i < before.assets ==> call_requires(at_rest, (t, i)),
                forall|t: int|
                    tranche <= t < before.tranches ==> #[trigger] self@.active[t]
                        == before.active[t],
                forall|t: int|
                    0 <= t < tranche ==> #[trigger] self@.active[t] == names::kept(
                        before.active[t],
                        |i: int| !(before.idle(t, i) && answers[(t, i)]),
                    ),
                forall|t: usize, i: usize|
                    t < tranche && #[trigger] before.active[t as int].contains(i) && before.idle(
                        t as int,
                        i as int,
                    ) ==> call_ensures(at_rest, (t, i), answers[(t as int, i as int)]),
            decreases self.tranches - tranche,
        {
            let ghost list: Seq<usize> = before.active[tranche as int];
            let ghost earlier: Map<(int, int), bool> = answers;
            let mut out: Vec<usize> = Vec::new();
            let mut idx: usize = 0;
            proof {
                assert(self@.active[tranche as int] == list);
                assert(list.take(0) =~= Seq::<usize>::empty());
            }
            while idx < self.active[tranche].len()
                invariant
                    before.wf(),
                    tranche < self.tranches,
                    self.tranches == before.tranches,
                    self.assets == before.assets,
                    self@ == (Ledger { active: self@.active, ..before }),
                    self@.active.len() == before.tranches,
                    list == before.active[tranche as int],
                    self.active@[tranche as int]@ == list,
                    idx <= list.len(),
                    forall|t: usize, i: usize|
                        t < before.tranches && i < before.assets ==> call_requires(
                            at_rest,
                            (t, i),
                        ),
                    out@ == names::kept(
                        list.take(idx as int),
                        |i: int|
                            !(before.idle(tranche as int, i) && answers[(tranche as int, i)]),
                    ),
                    forall|t: int, i: int|
                        t != tranche ==> #[trigger] answers[(t, i)] == earlier[(t, i)],
                    forall|k: int|
                        0 <= k < idx && before.idle(tranche as int, #[trigger] list[k] as int)
                            ==> call_ensures(
                            at_rest,
                            (tranche, list[k]),
                            answers[(tranche as int, list[k] as int)],
                        ),
                decreases list.len() - idx,
            {
                let asset: usize = self.active[tranche][idx];
                let ghost former: Map<(int, int), bool> = answers;
                proof {
                    assert(names::bounded(before.active[tranche as int], before.assets));
                    assert(list[idx as int] < before.assets);
                    ledger::lemma_cell(
                        before.tranches,
                        before.assets,
                        tranche as int,
                        asset as int,
                    );
                }
                let cell: usize = self.at(tranche, asset);
                let zero: Binary64 = Binary64::zero();
                let idle: bool = self.qty[cell].equals(zero) && self.target[cell].equals(zero)
                    && !self.blocked[cell];
                let mut drop: bool = false;
                if idle {
                    drop = at_rest(tranche, asset);
                    proof {
                        answers = answers.insert((tranche as int, asset as int), drop);
                    }
                }
                if !drop {
                    out.push(asset);
                }
                proof {
                    let part: Seq<usize> = list.take(idx as int);
                    let more: Seq<usize> = list.take(idx + 1);
                    assert(more.drop_last() =~= part);
                    assert(more.last() == asset);
                    assert forall|k: int| 0 <= k < part.len() implies #[trigger] part[k]
                        != asset by {
                        assert(list[k] < list[idx as int]);
                    }
                    names::lemma_kept_alike(
                        part,
                        |i: int|
                            !(before.idle(tranche as int, i) && former[(tranche as int, i)]),
                        |i: int|
                            !(before.idle(tranche as int, i) && answers[(tranche as int, i)]),
                    );
                    assert forall|k: int|
                        0 <= k < idx + 1 && before.idle(
                            tranche as int,
                            #[trigger] list[k] as int,
                        ) implies call_ensures(
                        at_rest,
                        (tranche, list[k]),
                        answers[(tranche as int, list[k] as int)],
                    ) by {
                        if k < idx {
                            assert(list[k] < list[idx as int]);
                        }
                    }
                }
                idx = idx + 1;
            }
            let ghost mid: Ledger = self@;
            proof {
                assert(list.take(idx as int) =~= list);
            }
            self.active.set(tranche, out);
            proof {
                assert(self@.active =~= mid.active.update(tranche as int, out@));
                assert forall|t: int| 0 <= t < tranche + 1 implies #[trigger] self@.active[t]
                    == names::kept(
                    before.active[t],
                    |i: int| !(before.idle(t, i) && answers[(t, i)]),
                ) by {
                    if t < tranche {
                        assert(self@.active[t] == mid.active[t]);
                        names::lemma_kept_alike(
                            before.active[t],
                            |i: int| !(before.idle(t, i) && earlier[(t, i)]),
                            |i: int| !(before.idle(t, i) && answers[(t, i)]),
                        );
                    }
                }
                assert forall|t: usize, i: usize|
                    t < tranche + 1 && #[trigger] before.active[t as int].contains(i)
                        && before.idle(t as int, i as int) implies call_ensures(
                    at_rest,
                    (t, i),
                    answers[(t as int, i as int)],
                ) by {
                    if t == tranche {
                        let k: int = choose|k: int| 0 <= k < list.len() && list[k] == i;
                        assert(before.idle(tranche as int, list[k] as int));
                    } else {
                        assert(answers[(t as int, i as int)] == earlier[(t as int, i as int)]);
                    }
                }
            }
            tranche = tranche + 1;
        }
        proof {
            let rest: spec_fn(int, int) -> bool = |t: int, i: int| answers[(t, i)];
            let goal: Ledger = before.swept(rest);
            assert forall|t: int| 0 <= t < before.tranches implies self@.active[t]
                == goal.active[t] && names::ascending(#[trigger] self@.active[t])
                && names::bounded(self@.active[t], before.assets) by {
                let one = |i: int| !(before.idle(t, i) && answers[(t, i)]);
                let other = |i: int| !(before.idle(t, i) && rest(t, i));
                names::lemma_kept(before.active[t], one);
                names::lemma_kept_alike(before.active[t], one, other);
                assert(names::bounded(before.active[t], before.assets));
            }
            assert(self@.active =~= goal.active);
            assert(self@ == goal);
        }
    }

    /// The value of one name's `units` at its last quote.
    pub fn worth(&self, inp: &Inputs, at: Point, asset: usize, units: Binary64) -> (value: Binary64)
        requires
            inp.valid(),
            asset < inp.assets(),
            asset < self.last@.len(),
        ensures
            value == self@.value(*inp, at, asset as int, units),
    {
        units.times(self.last[asset]).times(inp.rate(MULTIPLIER, at.epoch, inp.class(asset)))
    }

    /// Everything the account holds in one name, tranches and pool alike.
    pub fn held(&self, asset: usize) -> (total: Binary64)
        requires
            self@.wf(),
            asset < self.assets,
        ensures
            total == self@.holds(asset as int),
    {
        let mut total: Binary64 = self.liq[asset];
        let mut tranche: usize = 0;
        while tranche < self.tranches
            invariant
                self@.wf(),
                asset < self.assets,
                tranche <= self.tranches,
                total == self@.held_by(tranche as int, asset as int),
            decreases self.tranches - tranche,
        {
            proof {
                ledger::lemma_cell(
                    self.tranches as int,
                    self.assets as int,
                    tranche as int,
                    asset as int,
                );
            }
            total = total.plus(self.qty[self.at(tranche, asset)]);
            tranche = tranche + 1;
        }
        total
    }

    /// The bar's accumulators start empty.
    pub fn open_bar(&mut self)
        ensures
            final(self)@ == old(self)@.opened(),
            old(self)@.wf() ==> final(self)@.wf(),
    {
        self.fees = Binary64::zero();
        self.bought = Binary64::zero();
        self.sold = Binary64::zero();
    }

    /// A price point quotes: every name with a price is worth that now.
    pub fn mark_point(&mut self, inp: &Inputs, at: Point)
        requires
            old(self)@.wf(),
            inp.valid(),
            inp.covers(at),
            old(self).assets == inp.assets(),
        ensures
            final(self)@ == old(self)@.marked_at(*inp, at),
            final(self)@.wf(),
    {
        let ghost before: Ledger = self@;
        let mut asset: usize = 0;
        while asset < self.assets
            invariant
                before.wf(),
                asset <= self.assets,
                self.assets == before.assets,
                inp.valid(),
                inp.covers(at),
                self.assets == inp.assets(),
                self@ == (Ledger { last: self@.last, ..before }),
                self@.last.len() == before.last.len(),
                forall|i: int|
                    0 <= i < self.assets ==> #[trigger] self@.last[i] == if i < asset {
                        before.marked_at(*inp, at).last[i]
                    } else {
                        before.last[i]
                    },
            decreases self.assets - asset,
        {
            let price: Binary64 = inp.price(at.phase, at.bar, asset);
            if Binary64::zero().less(price) {
                self.last.set(asset, price);
            }
            asset = asset + 1;
        }
        proof {
            assert(self@.last =~= before.marked_at(*inp, at).last);
        }
    }

    /// Scale every book's and the pool's units of one name.
    fn scale_name(&mut self, asset: usize, ratio: Binary64)
        requires
            old(self)@.wf(),
            asset < old(self).assets,
        ensures
            final(self)@ == old(self)@.scaled_name(asset as int, ratio),
            final(self)@.wf(),
    {
        let ghost before: Ledger = self@;
        let ghost goal: Ledger = before.scaled_name(asset as int, ratio);
        let mut tranche: usize = 0;
        while tranche < self.tranches
            invariant
                before.wf(),
                goal == before.scaled_name(asset as int, ratio),
                asset < self.assets,
                tranche <= self.tranches,
                self@ == (Ledger { qty: self@.qty, target: self@.target, ..before }),
                self@.qty.len() == before.qty.len(),
                self@.target.len() == before.target.len(),
                forall|c: int|
                    0 <= c < before.qty.len() ==> #[trigger] self@.qty[c] == if c / before.assets
                        < tranche {
                        goal.qty[c]
                    } else {
                        before.qty[c]
                    },
                forall|c: int|
                    0 <= c < before.qty.len() ==> #[trigger] self@.target[c] == if c / before.assets
                        < tranche {
                        goal.target[c]
                    } else {
                        before.target[c]
                    },
            decreases self.tranches - tranche,
        {
            proof {
                ledger::lemma_cell(
                    before.tranches,
                    before.assets,
                    tranche as int,
                    asset as int,
                );
            }
            let cell: usize = self.at(tranche, asset);
            let ghost mid: Ledger = self@;
            if !self.qty[cell].equals(Binary64::zero()) {
                let units: Binary64 = self.qty[cell].times(ratio);
                let target: Binary64 = self.target[cell].times(ratio);
                self.qty.set(cell, units);
                self.target.set(cell, target);
            }
            proof {
                assert forall|c: int|
                    #![trigger self@.qty[c]]
                    #![trigger self@.target[c]]
                    0 <= c < before.qty.len() implies (self@.qty[c] == if c / before.assets
                    < tranche + 1 {
                    goal.qty[c]
                } else {
                    before.qty[c]
                }) && (self@.target[c] == if c / before.assets < tranche + 1 {
                    goal.target[c]
                } else {
                    before.target[c]
                }) by {
                    ledger::lemma_uncell(before.tranches, before.assets, c);
                    let units: Binary64 = mid.qty[c];
                    let target: Binary64 = mid.target[c];
                }
            }
            tranche = tranche + 1;
        }
        proof {
            assert forall|c: int| 0 <= c < before.qty.len() implies self@.qty[c] == goal.qty[c]
                && self@.target[c] == goal.target[c] by {
                ledger::lemma_uncell(before.tranches, before.assets, c);
            }
            assert(self@.qty =~= goal.qty);
            assert(self@.target =~= goal.target);
        }
        if Binary64::zero().less(self.liq[asset]) {
            let units: Binary64 = self.liq[asset].times(ratio);
            self.liq.set(asset, units);
        }
    }

    /// Before the bar opens, a holding is worth the exchange's reference
    /// close; on an ex-dividend bar the shares scale by the ratio.
    ///
    /// Hands back each scaled name with its ratio, for the policy to scale
    /// its own per-name state by.
    pub fn mark_previous(
        &mut self,
        inp: &Inputs,
        bar: usize,
        scaled: &mut Vec<(usize, Binary64)>,
    )
        requires
            old(self)@.wf(),
            inp.valid(),
            bar < inp.bars(),
            old(self).assets == inp.assets(),
        ensures
            final(self)@ == old(self)@.rescaled(*inp, bar as int),
            final(self)@.wf(),
            final(scaled)@ == old(self)@.actions(*inp, bar as int),
    {
        scaled.clear();
        if !inp.has_previous {
            return;
        }
        let ghost before: Ledger = self@;
        proof {
            let goal: Ledger = before.rescaled_below(*inp, bar as int, 0);
            assert forall|c: int| 0 <= c < before.qty.len() implies goal.qty[c] == before.qty[c]
                && goal.target[c] == before.target[c] by {
                ledger::lemma_uncell(before.tranches, before.assets, c);
            }
            assert(goal.qty =~= before.qty);
            assert(goal.target =~= before.target);
            assert(goal.liq =~= before.liq);
            assert(goal.last =~= before.last);
        }
        let mut asset: usize = 0;
        while asset < self.assets
            invariant
                before.wf(),
                self@.wf(),
                inp.valid(),
                inp.has_previous,
                bar < inp.bars(),
                self.assets == before.assets,
                self.assets == inp.assets(),
                asset <= self.assets,
                self@ == before.rescaled_below(*inp, bar as int, asset as int),
                scaled@ == before.actions_below(*inp, bar as int, asset as int),
            decreases self.assets - asset,
        {
            proof {
                before.lemma_rescaled_step(*inp, bar as int, asset as int);
            }
            let quote: Binary64 = Binary64 { bits: inp.previous.at2(bar, asset) };
            if Binary64::zero().less(quote) {
                let base: Binary64 = self.last[asset];
                if Binary64::zero().less(base) && !base.equals(quote) {
                    let ratio: Binary64 = base.over(quote);
                    self.scale_name(asset, ratio);
                    scaled.push((asset, ratio));
                }
                self.last.set(asset, quote);
            }
            asset = asset + 1;
        }
    }

    /// Whether tranche `k`'s book attained every weight of a decision.
    fn attains(&self, inp: &Inputs, tranche: usize, decision: usize) -> (whole: bool)
        requires
            self@.wf(),
            inp.valid(),
            self@.suits(*inp),
            tranche < self.tranches,
            decision < inp.decisions(),
        ensures
            whole == self@.attains(*inp, tranche as int, decision as int),
    {
        let mut asset: usize = 0;
        while asset < self.assets
            invariant
                self@.wf(),
                inp.valid(),
                self@.suits(*inp),
                tranche < self.tranches,
                decision < inp.decisions(),
                asset <= self.assets,
                forall|i: int|
                    0 <= i < asset ==> {
                        let asked = inp.weight(
                            self.run as int,
                            tranche as int,
                            decision as int,
                            i,
                        );
                        let attained = #[trigger] self@.attained[self@.cell(tranche as int, i)];
                        asked.equals(attained) || (asked.is_nan() && attained.is_nan())
                    },
            decreases self.assets - asset,
        {
            proof {
                ledger::lemma_cell(
                    self.tranches as int,
                    self.assets as int,
                    tranche as int,
                    asset as int,
                );
            }
            let weight: Binary64 = inp.plan_weight(self.run, tranche, decision, asset);
            let attained: Binary64 = self.attained[self.at(tranche, asset)];
            if !weight.equals(attained) && (!weight.is_nan() || !attained.is_nan()) {
                proof {
                    assert(self@.attained[self@.cell(tranche as int, asset as int)] == attained);
                }
                return false;
            }
            asset = asset + 1;
        }
        true
    }

    /// Which tranches fire at this point, after impounding what is stuck.
    ///
    /// A position stuck at the limit leaves its tranche at every point that
    /// tranche has a firing at — before the pool sells here, so it gets to
    /// try at this point too, and **including a firing with nothing to
    /// say**: the transfer happens before the answer is compared against
    /// the book, so a holding that goes limit-down mid-morning is in the
    /// pool from the next point on rather than waiting for the answer to
    /// move. A standing firing whose answer the book already attained is
    /// answered without touching the instruments.
    ///
    /// Returns whether anybody decides here.
    pub fn resolve_firings(&mut self, inp: &Inputs, at: Point) -> (deciding: bool)
        requires
            old(self)@.wf(),
            inp.valid(),
            inp.covers(at),
            old(self)@.suits(*inp),
        ensures
            final(self)@ == old(self)@.resolved(*inp, at, old(self).tranches as int),
            final(self)@.wf(),
            final(self)@.suits(*inp),
            deciding == exists|t: int|
                0 <= t < final(self).tranches && #[trigger] final(self)@.fire[t] >= 0,
    {
        let ghost before: Ledger = self@;
        let mut deciding: bool = false;
        let mut tranche: usize = 0;
        while tranche < self.tranches
            invariant
                inp.valid(),
                inp.covers(at),
                self@.wf(),
                self@.suits(*inp),
                self.tranches == before.tranches,
                tranche <= self.tranches,
                self@ == before.resolved(*inp, at, tranche as int),
                deciding == exists|t: int| 0 <= t < tranche && #[trigger] self@.fire[t] >= 0,
            decreases self.tranches - tranche,
        {
            let ghost mid: Ledger = self@;
            let ghost list: Seq<usize> = self@.active[tranche as int];
            let mut decision: i32 = crate::grid::decode_code(
                inp.at.at4(self.run, tranche, at.bar, at.phase),
            );
            proof {
                mid.lemma_fired(*inp, at, tranche as int);
                assert(decision < inp.decisions());
            }
            if decision >= 0 {
                self.impound_stuck(inp, at, tranche);
            } else {
                decision = -1;
            }
            let ghost after: Ledger = self@;
            proof {
                if decision >= 0 {
                    mid.lemma_impounded(*inp, at, tranche as int, list);
                }
            }
            if decision >= 0 && inp.standing.at4(self.run, tranche, at.bar, at.phase) != 0 {
                if decision as i64 == self.attained_row[tranche] || self.attains(
                    inp,
                    tranche,
                    decision as usize,
                ) {
                    decision = -1;
                }
            }
            self.fire.set(tranche, decision as i64);
            proof {
                assert(self@ == mid.fired(*inp, at, tranche as int));
                assert(forall|t: int|
                    0 <= t < tranche ==> #[trigger] self@.fire[t] == mid.fire[t]);
                assert(self@.fire[tranche as int] == decision);
                if deciding {
                    let t: int = choose|t: int| 0 <= t < tranche && #[trigger] mid.fire[t] >= 0;
                    assert(self@.fire[t] >= 0);
                }
            }
            if decision >= 0 {
                deciding = true;
            }
            tranche = tranche + 1;
        }
        deciding
    }

    /// Move tranche `k`'s holdings stuck at the limit into the pool.
    fn impound_stuck(&mut self, inp: &Inputs, at: Point, tranche: usize)
        requires
            old(self)@.wf(),
            inp.valid(),
            inp.covers(at),
            old(self)@.suits(*inp),
            tranche < old(self).tranches,
        ensures
            final(self)@ == old(self)@.impounded(
                *inp,
                at,
                tranche as int,
                old(self)@.active[tranche as int],
            ),
            final(self)@.wf(),
            final(self)@.suits(*inp),
    {
        let ghost before: Ledger = self@;
        let ghost list: Seq<usize> = self@.active[tranche as int];
        let mut idx: usize = 0;
        proof {
            assert(list.take(0) =~= Seq::<usize>::empty());
        }
        while idx < self.active[tranche].len()
            invariant
                before.wf(),
                inp.valid(),
                inp.covers(at),
                before.suits(*inp),
                self@.wf(),
                self@.suits(*inp),
                tranche < before.tranches,
                list == before.active[tranche as int],
                self@ == before.impounded(*inp, at, tranche as int, list.take(idx as int)),
                self@ == (Ledger {
                    liq: self@.liq,
                    qty: self@.qty,
                    pool: self@.pool,
                    ..before
                }),
                self.active@[tranche as int]@ == list,
                idx <= list.len(),
            decreases list.len() - idx,
        {
            let asset: usize = self.active[tranche][idx];
            let ghost mid: Ledger = self@;
            proof {
                assert(names::bounded(before.active[tranche as int], before.assets));
                assert(list[idx as int] < before.assets);
                ledger::lemma_cell(
                    before.tranches,
                    before.assets,
                    tranche as int,
                    asset as int,
                );
                mid.lemma_impound_name(*inp, at, tranche as int, asset as int);
                assert(list.take(idx + 1).drop_last() =~= list.take(idx as int));
            }
            let cell: usize = self.at(tranche, asset);
            if inp.impound(at.phase, at.bar, asset) && Binary64::zero().less(self.qty[cell]) {
                let units: Binary64 = self.liq[asset].plus(self.qty[cell]);
                self.liq.set(asset, units);
                self.qty.set(cell, Binary64::zero());
                insert_sorted(&mut self.pool, asset);
            }
            proof {
                assert(self@.active =~= mid.active);
                assert(self@ == mid.impound_name(*inp, at, tranche as int, asset as int));
                assert(self@.active[tranche as int] == list);
            }
            idx = idx + 1;
        }
        proof {
            assert(list.take(idx as int) =~= list);
        }
    }

    /// The liquidation pool tries to leave at every point.
    pub fn pool_sell(&mut self, inp: &Inputs, at: Point)
        requires
            old(self)@.wf(),
            inp.valid(),
            inp.covers(at),
            old(self)@.suits(*inp),
        ensures
            final(self)@ == old(self)@.drained(*inp, at),
            final(self)@.wf(),
            final(self)@.suits(*inp),
    {
        let ghost before: Ledger = self@;
        let ghost list: Seq<usize> = self.pool@;
        let mut emptied: bool = false;
        let mut idx: usize = 0;
        proof {
            assert(list.take(0) =~= Seq::<usize>::empty());
        }
        while idx < self.pool.len()
            invariant
                before.wf(),
                inp.valid(),
                inp.covers(at),
                before.suits(*inp),
                list == before.pool,
                self.pool@ == list,
                idx <= list.len(),
                self@ == before.pool_sold(*inp, at, list.take(idx as int)),
                emptied == exists|k: int|
                    0 <= k < idx && before.leaves(*inp, at, #[trigger] list[k] as int),
            decreases list.len() - idx,
        {
            let asset: usize = self.pool[idx];
            let ghost mid: Ledger = self@;
            proof {
                let part: Seq<usize> = list.take(idx as int);
                assert(list[idx as int] < before.assets);
                assert forall|k: int| 0 <= k < part.len() implies (#[trigger] part[k])
                    < before.assets by {
                    assert(list[k] < before.assets);
                }
                before.lemma_pool_sold(*inp, at, part);
                if part.contains(asset) {
                    let k: int = choose|k: int| 0 <= k < part.len() && part[k] == asset;
                    assert(list[k] < list[idx as int]);
                }
                assert(mid.liq[asset as int] == before.liq[asset as int]);
                assert(list.take(idx + 1).drop_last() =~= part);
            }
            let price: Binary64 = inp.price(at.phase, at.bar, asset);
            if !self.liq[asset].at_most(Binary64::zero()) && Binary64::zero().less(price)
                && inp.sellable(at.phase, at.bar, asset) {
                let category: usize = inp.class(asset);
                let give: Binary64 = self.liq[asset];
                let turnover: Binary64 = give.times(price).times(
                    inp.rate(MULTIPLIER, at.epoch, category),
                );
                let fee: Binary64 = inp.fee(
                    turnover,
                    inp.rate(SELL_FEE, at.epoch, category),
                    at.epoch,
                    category,
                );
                self.liq.set(asset, Binary64::zero());
                self.cash = self.cash.plus(turnover.minus(fee));
                self.fees = self.fees.plus(fee);
                self.sold = self.sold.plus(turnover);
                self.fill(at, POOL, asset, give.negated(), price, fee);
                emptied = true;
                proof {
                    assert(before.leaves(*inp, at, list[idx as int] as int));
                }
            }
            proof {
                assert(self@.active =~= mid.active);
                assert(self@ == mid.sell_pooled(*inp, at, asset as int));
            }
            idx = idx + 1;
        }
        proof {
            assert(list.take(idx as int) =~= list);
            before.lemma_pool_sold(*inp, at, list);
        }
        if emptied {
            self.keep_pooled();
        }
    }

    /// Drop the names the pool no longer holds.
    fn keep_pooled(&mut self)
        requires
            old(self)@.wf(),
        ensures
            final(self)@ == (Ledger {
                pool: names::kept(
                    old(self)@.pool,
                    |i: int| ledger::live(old(self)@.liq[i]),
                ),
                ..old(self)@
            }),
            final(self)@.wf(),
    {
        let ghost before: Ledger = self@;
        let ghost keep = |i: int| ledger::live(before.liq[i]);
        let mut out: Vec<usize> = Vec::new();
        let mut idx: usize = 0;
        proof {
            assert(before.pool.take(0) =~= Seq::<usize>::empty());
        }
        while idx < self.pool.len()
            invariant
                before.wf(),
                self@ == before,
                keep == (|i: int| ledger::live(before.liq[i])),
                idx <= before.pool.len(),
                out@ == names::kept(before.pool.take(idx as int), keep),
            decreases before.pool.len() - idx,
        {
            let asset: usize = self.pool[idx];
            proof {
                assert(before.pool[idx as int] < before.assets);
                assert(before.pool.take(idx + 1).drop_last() =~= before.pool.take(idx as int));
            }
            if Binary64::zero().less(self.liq[asset]) {
                out.push(asset);
            }
            idx = idx + 1;
        }
        proof {
            assert(before.pool.take(idx as int) =~= before.pool);
            names::lemma_kept(before.pool, keep);
            assert(names::bounded(before.pool, before.assets));
        }
        self.pool = out;
        proof {
            assert(self@.active =~= before.active);
        }
    }

    /// `start` plus the value of each listed name's units.
    fn tally(
        &self,
        inp: &Inputs,
        at: Point,
        start: Binary64,
        table: &Vec<Binary64>,
        base: usize,
        list: &Vec<usize>,
    ) -> (sum: Binary64)
        requires
            self@.wf(),
            inp.valid(),
            inp.covers(at),
            self@.suits(*inp),
            names::bounded(list@, self.assets as int),
            base + self.assets <= table@.len(),
        ensures
            sum == self@.tally(*inp, at, start, table@, base as int, list@),
    {
        let mut sum: Binary64 = start;
        let mut idx: usize = 0;
        proof {
            assert(list@.take(0) =~= Seq::<usize>::empty());
        }
        while idx < list.len()
            invariant
                self@.wf(),
                inp.valid(),
                inp.covers(at),
                self@.suits(*inp),
                names::bounded(list@, self.assets as int),
                base + self.assets <= table@.len(),
                idx <= list@.len(),
                sum == self@.tally(
                    *inp,
                    at,
                    start,
                    table@,
                    base as int,
                    list@.take(idx as int),
                ),
            decreases list@.len() - idx,
        {
            let asset: usize = list[idx];
            proof {
                assert(list@[idx as int] < self.assets);
                assert(list@.take(idx + 1).drop_last() =~= list@.take(idx as int));
                assert(table.len() == table@.len());
            }
            let units: Binary64 = table[base + asset];
            if !units.equals(Binary64::zero()) {
                sum = sum.plus(self.worth(inp, at, asset, units));
            }
            idx = idx + 1;
        }
        proof {
            assert(list@.take(idx as int) =~= list@);
        }
        sum
    }

    /// The account's equity, read where sizing happens: after the pool has
    /// sold into it, so its proceeds are cash and its fees already paid.
    pub fn snapshot_equity(&mut self, inp: &Inputs, at: Point)
        requires
            old(self)@.wf(),
            inp.valid(),
            inp.covers(at),
            old(self)@.suits(*inp),
        ensures
            final(self)@ == old(self)@.snapshot(*inp, at),
            final(self)@.wf(),
            final(self)@.suits(*inp),
    {
        let mut equity: Binary64 = self.tally(inp, at, self.cash, &self.liq, 0, &self.pool);
        let mut tranche: usize = 0;
        while tranche < self.tranches
            invariant
                self@.wf(),
                inp.valid(),
                inp.covers(at),
                self@.suits(*inp),
                tranche <= self.tranches,
                equity == self@.worth_of(*inp, at, tranche as int),
            decreases self.tranches - tranche,
        {
            proof {
                self@.lemma_book_base(tranche as int);
                assert(names::bounded(self@.active[tranche as int], self.assets as int));
            }
            equity = self.tally(
                inp,
                at,
                equity,
                &self.qty,
                tranche * self.assets,
                &self.active[tranche],
            );
            tranche = tranche + 1;
        }
        let ghost before: Ledger = self@;
        self.equity = equity;
        proof {
            assert(self@.active =~= before.active);
        }
    }

    /// The market value of one tranche's book.
    pub fn holding(&self, inp: &Inputs, tranche: usize, at: Point) -> (value: Binary64)
        requires
            self@.wf(),
            inp.valid(),
            inp.covers(at),
            self@.suits(*inp),
            tranche < self.tranches,
        ensures
            value == self@.book_value(*inp, tranche as int, at),
    {
        proof {
            self@.lemma_book_base(tranche as int);
            assert(names::bounded(self@.active[tranche as int], self.assets as int));
        }
        self.tally(
            inp,
            at,
            Binary64::zero(),
            &self.qty,
            tranche * self.assets,
            &self.active[tranche],
        )
    }

    /// The gross exposure a decision asks for, and the equity it may put on.
    ///
    /// Gross, not net: a long-short plan whose legs offset still puts on
    /// both books, and sizing by the net would liquidate them. For a
    /// long-only plan |w| is w bit for bit. `reachable` caps the target
    /// equity at what the tranche can actually reach — its own holdings
    /// plus whatever cash the policy says is free.
    pub fn investable(&self, inp: &Inputs, share: Binary64, reachable: Binary64) -> (funds: Binary64)
        ensures
            funds == self@.funds(*inp, share, reachable),
    {
        if share.less(Binary64 { bits: NO_SHARE }) {
            return Binary64::zero();
        }
        let mut target_equity: Binary64 = self.equity.times(share);
        if reachable.less(target_equity) {
            target_equity = reachable;
        }
        target_equity.times(inp.buffer).over(share)
    }

    /// The target this decision strikes for one name, or the book itself
    /// when the plan says nothing about it.
    pub fn strike(
        &self,
        inp: &Inputs,
        tranche: usize,
        asset: usize,
        weight: Binary64,
        investable: Binary64,
        at: Point,
    ) -> (want: Binary64)
        requires
            self@.wf(),
            inp.valid(),
            inp.covers(at),
            self@.suits(*inp),
            tranche < self.tranches,
            asset < self.assets,
        ensures
            want == self@.struck(*inp, tranche as int, asset as int, weight, investable, at),
    {
        if weight.is_nan() {
            proof {
                ledger::lemma_cell(
                    self.tranches as int,
                    self.assets as int,
                    tranche as int,
                    asset as int,
                );
            }
            return self.qty[self.at(tranche, asset)];
        }
        let category: usize = inp.class(asset);
        let want: Binary64 = decide(
            investable,
            weight,
            inp.price(at.phase, at.bar, asset),
            inp.rate(LOT, at.epoch, category),
            inp.rate(MIN_LOT, at.epoch, category),
            inp.rate(MIN_NOTIONAL, at.epoch, category),
            inp.rate(MULTIPLIER, at.epoch, category),
        );
        if want.less(Binary64::zero()) && !inp.flag(SHORTABLE, category) {
            Binary64::zero()
        } else {
            want
        }
    }

    /// Record what the tranche's book attained after trading decision `d`.
    pub fn remember_attained(&mut self, inp: &Inputs, tranche: usize, decision: usize)
        requires
            old(self)@.wf(),
            inp.valid(),
            old(self)@.suits(*inp),
            tranche < old(self).tranches,
            decision < inp.decisions(),
            decision <= i64::MAX,
        ensures
            final(self)@ == old(self)@.remembered(*inp, tranche as int, decision as int),
            final(self)@.wf(),
            final(self)@.suits(*inp),
    {
        let ghost before: Ledger = self@;
        let ghost goal: Ledger = before.remembered(*inp, tranche as int, decision as int);
        let mut whole: bool = true;
        let mut asset: usize = 0;
        proof {
            assert forall|c: int| 0 <= c < before.attained.len() implies c % before.assets >= 0
                && #[trigger] before.attained[c] == self@.attained[c] by {
                ledger::lemma_uncell(before.tranches, before.assets, c);
            }
        }
        while asset < self.assets
            invariant
                before.wf(),
                inp.valid(),
                before.suits(*inp),
                tranche < before.tranches,
                decision < inp.decisions(),
                goal == before.remembered(*inp, tranche as int, decision as int),
                asset <= self.assets,
                self@ == (Ledger { attained: self@.attained, ..before }),
                self@.attained.len() == before.attained.len(),
                whole == forall|i: int|
                    0 <= i < asset ==> !#[trigger] before.blocked[before.cell(tranche as int, i)],
                forall|c: int|
                    0 <= c < before.attained.len() ==> #[trigger] self@.attained[c] == if c
                        / before.assets == tranche && c % before.assets < asset {
                        goal.attained[c]
                    } else {
                        before.attained[c]
                    },
            decreases self.assets - asset,
        {
            let ghost mid: Ledger = self@;
            proof {
                ledger::lemma_cell(
                    before.tranches,
                    before.assets,
                    tranche as int,
                    asset as int,
                );
            }
            let cell: usize = self.at(tranche, asset);
            if self.blocked[cell] {
                whole = false;
                proof {
                    assert(before.blocked[before.cell(tranche as int, asset as int)]);
                }
            } else {
                let weight: Binary64 = inp.plan_weight(self.run, tranche, decision, asset);
                self.attained.set(cell, weight);
            }
            proof {
                assert forall|c: int|
                    0 <= c < before.attained.len() implies #[trigger] self@.attained[c] == if c
                    / before.assets == tranche && c % before.assets < asset + 1 {
                    goal.attained[c]
                } else {
                    before.attained[c]
                } by {
                    ledger::lemma_uncell(before.tranches, before.assets, c);
                    let was: Binary64 = mid.attained[c];
                }
            }
            asset = asset + 1;
        }
        proof {
            assert forall|c: int| 0 <= c < before.attained.len() implies self@.attained[c]
                == goal.attained[c] by {
                ledger::lemma_uncell(before.tranches, before.assets, c);
            }
            assert(self@.attained =~= goal.attained);
        }
        let row: i64 = if whole { decision as i64 } else { -1 };
        let ghost mid: Ledger = self@;
        self.attained_row.set(tranche, row);
        proof {
            assert(self@.active =~= mid.active);
            assert(self@.attained_row =~= goal.attained_row);
        }
    }

    /// The value of all the account holds in each listed name.
    fn holdings_value(&self, inp: &Inputs, at: Point, list: &Vec<usize>) -> (sum: Binary64)
        requires
            self@.wf(),
            inp.valid(),
            inp.covers(at),
            self@.suits(*inp),
            names::bounded(list@, self.assets as int),
        ensures
            sum == self@.holdings_value(*inp, at, list@),
    {
        let mut sum: Binary64 = Binary64::zero();
        let mut idx: usize = 0;
        proof {
            assert(list@.take(0) =~= Seq::<usize>::empty());
        }
        while idx < list.len()
            invariant
                self@.wf(),
                inp.valid(),
                inp.covers(at),
                self@.suits(*inp),
                names::bounded(list@, self.assets as int),
                idx <= list@.len(),
                sum == self@.holdings_value(*inp, at, list@.take(idx as int)),
            decreases list@.len() - idx,
        {
            let asset: usize = list[idx];
            proof {
                assert(list@[idx as int] < self.assets);
                assert(list@.take(idx + 1).drop_last() =~= list@.take(idx as int));
            }
            let total: Binary64 = self.held(asset);
            if !total.equals(Binary64::zero()) {
                sum = sum.plus(self.worth(inp, at, asset, total));
            }
            idx = idx + 1;
        }
        proof {
            assert(list@.take(idx as int) =~= list@);
        }
        sum
    }

    /// Every name, ascending.
    fn all_names(&self) -> (names: Vec<usize>)
        ensures
            names@ == names::where_below(self.assets as int, |i: int| true),
            names::bounded(names@, self.assets as int),
    {
        let mut names: Vec<usize> = Vec::new();
        let mut asset: usize = 0;
        let ghost keep = |i: int| true;
        while asset < self.assets
            invariant
                asset <= self.assets,
                keep == (|i: int| true),
                names@ == names::where_below(asset as int, keep),
            decreases self.assets - asset,
        {
            names.push(asset);
            asset = asset + 1;
        }
        proof {
            names::lemma_where_below(self.assets as int, keep);
        }
        names
    }

    /// The bar closes: what is held is worth the closing price, and the
    /// bar's series are reported.
    pub fn close_bar(
        &mut self,
        inp: &Inputs,
        at: Point,
        reported: &mut [Binary64],
        positions: &mut [Binary64],
        steps: usize,
    )
        requires
            old(self)@.wf(),
            inp.valid(),
            inp.covers(at),
            old(self)@.suits(*inp),
            SOLD * steps + at.bar < old(reported)@.len(),
            inp.record_positions ==> (at.bar + 1) * old(self).assets <= old(positions)@.len(),
        ensures
            final(self)@ == old(self)@.closed_at(*inp, at.bar as int),
            final(self)@.wf(),
            final(self)@.suits(*inp),
            final(reported)@ == final(self)@.reports(
                *inp,
                at,
                steps as int,
                old(reported)@,
            ),
            final(positions)@ == if inp.record_positions {
                final(self)@.lists_positions(at.bar as int, old(positions)@)
            } else {
                old(positions)@
            },
    {
        let ghost before: Ledger = self@;
        let ghost goal: Ledger = before.closed_at(*inp, at.bar as int);
        let mut asset: usize = 0;
        while asset < self.assets
            invariant
                before.wf(),
                goal == before.closed_at(*inp, at.bar as int),
                asset <= self.assets,
                inp.valid(),
                inp.covers(at),
                before.suits(*inp),
                self@ == (Ledger { last: self@.last, ..before }),
                self@.last.len() == before.last.len(),
                forall|i: int|
                    0 <= i < self.assets ==> #[trigger] self@.last[i] == if i < asset {
                        goal.last[i]
                    } else {
                        before.last[i]
                    },
            decreases self.assets - asset,
        {
            let quote: Binary64 = Binary64 { bits: inp.mark.at2(at.bar, asset) };
            if Binary64::zero().less(quote) {
                self.last.set(asset, quote);
            }
            asset = asset + 1;
        }
        proof {
            assert(self@.last =~= goal.last);
        }
        let value: Binary64;
        if inp.record_positions {
            value = self.holdings_value(inp, at, &self.all_names());
            self.list_positions(at.bar, positions);
        } else {
            value = self.holdings_value(inp, at, &self.union_names());
        }
        let bar: usize = at.bar;
        reported[EQUITY * steps + bar] = self.cash.plus(value);
        reported[CASH * steps + bar] = self.cash;
        reported[FEES * steps + bar] = self.fees;
        reported[BOUGHT * steps + bar] = self.bought;
        reported[SOLD * steps + bar] = self.sold;
    }

    /// Write what is held in every name into a bar's row.
    fn list_positions(&self, bar: usize, positions: &mut [Binary64])
        requires
            self@.wf(),
            (bar + 1) * self.assets <= old(positions)@.len(),
        ensures
            final(positions)@ == self@.lists_positions(bar as int, old(positions)@),
    {
        let ghost before: Seq<Binary64> = positions@;
        proof {
            assert(positions.len() == positions@.len());
            assert((bar + 1) * self.assets == bar * self.assets + self.assets && 0 <= bar
                * self.assets) by (nonlinear_arith);
        }
        let base: usize = bar * self.assets;
        let mut asset: usize = 0;
        while asset < self.assets
            invariant
                self@.wf(),
                asset <= self.assets,
                base == bar * self.assets,
                base + self.assets <= before.len() <= usize::MAX,
                positions@.len() == before.len(),
                forall|c: int|
                    0 <= c < before.len() ==> #[trigger] positions@[c] == if base <= c < base
                        + asset {
                        self@.holds(c - base)
                    } else {
                        before[c]
                    },
            decreases self.assets - asset,
        {
            positions[base + asset] = self.held(asset);
            asset = asset + 1;
        }
        proof {
            assert(positions@ =~= self@.lists_positions(bar as int, before));
        }
    }
}

}
