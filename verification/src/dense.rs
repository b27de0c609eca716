//! The walk that visits every name in every phase.
//!
//! Nine tenths of it is scanning zeros, which is why a walk keeps lists of
//! the names in play. Here the scan is written down, under the framework's
//! own policy, for the lists to be held against: a sum still runs in
//! ascending name order and adds only non-zero terms, so the answer is the
//! same bit.

use vstd::prelude::*;

use crate::binary64::Binary64;
use crate::bookkeeping::Plain;
use crate::driver;
use crate::inputs::{Inputs, Point};
use crate::ledger::{none, Ledger};
use crate::names;
use crate::plain;
use crate::plain::PlainState;
use crate::twin;

verus! {

/// Every name below `n`, ascending.
pub open spec fn everyone(n: int) -> Seq<usize> {
    names::where_below(n, |i: int| true)
}

/// A new day, every name scanned.
pub open spec fn dawned(s: PlainState, l: Ledger) -> PlainState {
    PlainState { budget: l.qty, ..s }
}

/// A bar before its first price point, every name scanned.
pub open spec fn morning(s: PlainState, l: Ledger, inp: Inputs, bar: int) -> (PlainState, Ledger) {
    let marked = l.rescaled(inp, bar);
    let acted = driver::acted_all::<Plain>(s, marked, l.actions(inp, bar));
    let settled = if inp.opens_day(bar) {
        dawned(acted, marked)
    } else {
        acted
    };
    (settled, marked.opened())
}

/// A tranche's firing resolved, every name scanned.
pub open spec fn fired(l: Ledger, inp: Inputs, at: Point, t: int) -> Ledger {
    let d = inp.firing(l.run, t, at.bar as int, at.phase as int);
    let after = if d >= 0 {
        l.impounded(inp, at, t, everyone(l.assets))
    } else {
        l
    };
    Ledger {
        fire: after.fire.update(
            t,
            if d < 0 || after.answered(inp, at, t) {
                -1i64
            } else {
                d as i64
            },
        ),
        ..after
    }
}

/// The first `n` tranches' firings resolved, every name scanned.
pub open spec fn resolved(l: Ledger, inp: Inputs, at: Point, n: int) -> Ledger
    decreases n,
{
    if n <= 0 {
        l
    } else {
        fired(resolved(l, inp, at, n - 1), inp, at, n - 1)
    }
}

/// The first `n` tranches' standing orders tried again, every name scanned.
pub open spec fn backfilled(s: PlainState, l: Ledger, inp: Inputs, at: Point, n: int) -> (
    PlainState,
    Ledger,
)
    decreases n,
{
    if n <= 0 {
        (s, l)
    } else {
        let (book, after) = backfilled(s, l, inp, at, n - 1);
        book.retry_names(after, inp, n - 1, at, everyone(l.assets))
    }
}

/// Cash, the pool and the first `n` tranches' books, every name scanned.
pub open spec fn worth_of(l: Ledger, inp: Inputs, at: Point, n: int) -> Binary64
    decreases n,
{
    if n <= 0 {
        l.tally(inp, at, l.cash, l.liq, 0, everyone(l.assets))
    } else {
        l.tally(
            inp,
            at,
            worth_of(l, inp, at, n - 1),
            l.qty,
            (n - 1) * l.assets,
            everyone(l.assets),
        )
    }
}

/// The market value of a tranche's book, every name scanned.
pub open spec fn book_value(l: Ledger, inp: Inputs, t: int, at: Point) -> Binary64 {
    l.tally(inp, at, Binary64::zero(), l.qty, t * l.assets, everyone(l.assets))
}

/// What a decision may put on, every name scanned.
pub open spec fn funds(s: PlainState, l: Ledger, inp: Inputs, t: int, d: int, at: Point) -> Binary64 {
    l.funds(
        inp,
        plain::gross(inp, l.run, t, d, l.row(inp, t, d)),
        book_value(l, inp, t, at).plus(s.spendable(l)),
    )
}

/// A tranche acts on a decision, every name scanned.
pub open spec fn decided(s: PlainState, l: Ledger, inp: Inputs, t: int, d: int, at: Point) -> (
    PlainState,
    Ledger,
) {
    let all = everyone(l.assets);
    let free = s.released_all(t, all);
    let sized = free.size_names(l, inp, t, d, at, funds(free, l, inp, t, d, at), all);
    let (sold, after) = free.sell_names(sized, inp, t, at, all);
    let (bought, done) = sold.buy_names(after, inp, t, at, all);
    (bought, done.remembered(inp, t, d))
}

/// The first `n` tranches that fire act, every name scanned.
pub open spec fn traded(s: PlainState, l: Ledger, inp: Inputs, at: Point, n: int) -> (
    PlainState,
    Ledger,
)
    decreases n,
{
    if n <= 0 {
        (s, l)
    } else {
        let (book, after) = traded(s, l, inp, at, n - 1);
        let d = after.fire[n - 1] as int;
        if d < 0 {
            (book, after)
        } else {
            decided(book, after, inp, n - 1, d, at)
        }
    }
}

/// One price point, every name scanned.
pub open spec fn point_walked(s: PlainState, l: Ledger, inp: Inputs, at: Point) -> (
    PlainState,
    Ledger,
) {
    let ready = resolved(l.marked_at(inp, at), inp, at, l.tranches);
    let sold = ready.pool_sold(inp, at, everyone(l.assets));
    let (book, filled) = backfilled(s, sold, inp, at, l.tranches);
    let read = if driver::anybody(ready) {
        Ledger { equity: worth_of(filled, inp, at, l.tranches), ..filled }
    } else {
        filled
    };
    traded(book, read, inp, at, l.tranches)
}

/// The first `n` price points of a bar, every name scanned.
pub open spec fn points_walked(s: PlainState, l: Ledger, inp: Inputs, bar: int, n: int) -> (
    PlainState,
    Ledger,
)
    decreases n,
{
    if n <= 0 {
        (s, l)
    } else {
        let (book, after) = points_walked(s, l, inp, bar, n - 1);
        point_walked(book, after, inp, driver::point_of(inp, bar, n - 1))
    }
}

/// The first `n` tranches' standing orders expire, every name scanned.
pub open spec fn expired(s: PlainState, l: Ledger, n: int) -> PlainState
    decreases n,
{
    if n <= 0 {
        s
    } else {
        expired(s, l, n - 1).released_all(n - 1, everyone(l.assets))
    }
}

/// A bar from its morning to its close, every name scanned.
pub open spec fn bar_walked(s: PlainState, l: Ledger, inp: Inputs, bar: int) -> (
    PlainState,
    Ledger,
) {
    let (woken, opened) = morning(s, l, inp, bar);
    let (book, done) = points_walked(woken, opened, inp, bar, inp.phases());
    (expired(book, done, done.tranches), done.closed_at(inp, bar))
}

/// A run after its first `n` bars, every name scanned.
pub open spec fn walked(inp: Inputs, run: int, n: int) -> (PlainState, Ledger)
    decreases n,
{
    if n <= 0 {
        driver::start::<Plain>(inp, run)
    } else {
        let (s, l) = walked(inp, run, n - 1);
        bar_walked(s, l, inp, n - 1)
    }
}

/// The equity a closed bar reports, every name scanned.
pub open spec fn closing_equity(l: Ledger, inp: Inputs, at: Point) -> Binary64 {
    l.cash.plus(l.holdings_value(inp, at, everyone(l.assets)))
}

/// Whether a tranche's name is at peace: nothing held, asked for, refused,
/// budgeted or locked.
pub open spec fn peace(s: PlainState, l: Ledger, t: int, i: int) -> bool {
    l.idle(t, i) && s.rests(t, i)
}

/// Whether the lists miss nothing: what no list names is at peace, and the
/// pool's counts are counts.
pub open spec fn settled(s: PlainState, l: Ledger) -> bool {
    &&& l.wf()
    &&& s.fits(l.tranches, l.assets)
    &&& forall|t: int, i: int|
        0 <= t < l.tranches && 0 <= i < l.assets && !l.active[t].contains(i as usize)
            ==> #[trigger] peace(s, l, t, i)
    &&& forall|i: int| 0 <= i < l.assets ==> Binary64::zero().at_most(#[trigger] l.liq[i])
    &&& forall|i: int|
        0 <= i < l.assets && !l.pool.contains(i as usize) ==> none(#[trigger] l.liq[i])
}

/// Whether no pooled count stops being a number when a bar opens. Only an
/// infinite count scaled by a ratio of zero does.
pub open spec fn countable(l: Ledger, inp: Inputs, bar: int) -> bool {
    forall|i: int| 0 <= i < l.assets ==> !(#[trigger] l.rescaled(inp, bar).liq[i]).is_nan()
}

/// What a run reports of a bar in one of the series, every name scanned.
pub open spec fn series(inp: Inputs, run: int, row: int, bar: int) -> Binary64 {
    let l = walked(inp, run, bar + 1).1;
    if row == crate::inputs::EQUITY {
        closing_equity(l, inp, driver::point_of(inp, bar, inp.phases() - 1))
    } else if row == crate::inputs::CASH {
        l.cash
    } else if row == crate::inputs::FEES {
        l.fees
    } else if row == crate::inputs::BOUGHT {
        l.bought
    } else {
        l.sold
    }
}

/// The lists of names miss nothing: after every bar, whatever no list names
/// is at peace. Left out is a pooled count that stops being a number when a
/// bar opens.
pub proof fn law_lists_miss_nothing(inp: Inputs, run: int, n: int)
    requires
        inp.valid(),
        0 <= run < inp.runs(),
        0 <= n <= inp.bars(),
        forall|b: int|
            0 <= b < n ==> countable(#[trigger] driver::walked::<Plain>(inp, run, b).1, inp, b),
    ensures
        settled(
            driver::walked::<Plain>(inp, run, n).0,
            driver::walked::<Plain>(inp, run, n).1,
        ),
{
    twin::lemma_walked_twin(inp, run, n);
}

/// The walk over the names in play answers, bit for bit, what the walk over
/// every name answers: every reported series, every position and every
/// fill. Left out is a pooled count that stops being a number when a bar
/// opens.
pub proof fn law_sparse_is_dense(inp: Inputs, run: int, n: int)
    requires
        inp.valid(),
        0 <= run < inp.runs(),
        0 <= n <= inp.bars(),
        forall|b: int|
            0 <= b < n ==> countable(#[trigger] driver::walked::<Plain>(inp, run, b).1, inp, b),
    ensures
        forall|row: int, bar: int|
            0 <= bar < n ==> #[trigger] driver::series::<Plain>(inp, run, row, bar) == series(
                inp,
                run,
                row,
                bar,
            ),
        forall|bar: int, i: int|
            0 <= bar < n ==> #[trigger] driver::closing::<Plain>(inp, run, bar).holds(i) == walked(
                inp,
                run,
                bar + 1,
            ).1.holds(i),
        driver::walked::<Plain>(inp, run, n).1.fills == walked(inp, run, n).1.fills,
{
    twin::lemma_walked_twin(inp, run, n);
    assert forall|bar: int| 0 <= bar < n implies ({
        let l = #[trigger] driver::closing::<Plain>(inp, run, bar);
        let m = walked(inp, run, bar + 1).1;
        &&& forall|row: int|
            #[trigger] driver::series::<Plain>(inp, run, row, bar) == series(inp, run, row, bar)
        &&& forall|i: int| #[trigger] l.holds(i) == m.holds(i)
    }) by {
        twin::lemma_walked_twin(inp, run, bar);
        let (s, l) = driver::walked::<Plain>(inp, run, bar);
        let (z, m) = walked(inp, run, bar);
        assert(countable(driver::walked::<Plain>(inp, run, bar).1, inp, bar));
        twin::lemma_bar_twin(s, l, z, m, inp, bar);
        let (book, after) = driver::bar_walked::<Plain>(s, l, inp, bar);
        let (y, k) = bar_walked(z, m, inp, bar);
        assert(walked(inp, run, bar + 1) == (y, k));
        let at: Point = driver::point_of(inp, bar, inp.phases() - 1);
        twin::lemma_closing_dense(book, after, inp, at);
        twin::lemma_holdings_same(after, k, inp, at, everyone(after.assets));
        assert forall|i: int| #[trigger] after.holds(i) == k.holds(i) by {
            twin::lemma_held_same(after, k, after.tranches, i);
        }
    }
    assert forall|row: int, bar: int| 0 <= bar < n implies #[trigger] driver::series::<Plain>(
        inp,
        run,
        row,
        bar,
    ) == series(inp, run, row, bar) by {
        let l: Ledger = driver::closing::<Plain>(inp, run, bar);
    }
}

}
