//! Whether fills are recorded makes no difference to the walk, and what is
//! asked for beside the series makes none to them.

use vstd::prelude::*;

use crate::agreement;
use crate::agreement::{same_bar, same_terms, underway};
use crate::binary64::Binary64;
use crate::bookkeeping::{Bookkeeping, Plain};
use crate::dense::{countable, peace, settled};
use crate::driver;
use crate::inputs::{Inputs, Point};
use crate::ledger::{live, none, Fill, Ledger};
use crate::names;
use crate::plain::PlainState;
use crate::record;
use crate::twin;

verus! {

/// A ledger that records no fills, and else is the same.
pub open spec fn silent(l: Ledger) -> Ledger {
    Ledger { record_fills: false, fills: Seq::<Fill>::empty(), ..l }
}

proof fn lemma_impounded(l: Ledger, inp: Inputs, at: Point, t: int, list: Seq<usize>)
    ensures
        silent(l).impounded(inp, at, t, list) == silent(l.impounded(inp, at, t, list)),
    decreases list.len(),
{
    if list.len() > 0 {
        lemma_impounded(l, inp, at, t, list.drop_last());
    }
}

proof fn lemma_answered(l: Ledger, inp: Inputs, at: Point, t: int)
    ensures
        silent(l).answered(inp, at, t) == l.answered(inp, at, t),
{
    let d: int = inp.firing(l.run, t, at.bar as int, at.phase as int);
    let m: Ledger = silent(l);
    if l.attains(inp, t, d) {
        assert forall|i: int| 0 <= i < m.assets implies {
            let asked = inp.weight(m.run, t, d, i);
            let attained = #[trigger] m.attained[m.cell(t, i)];
            asked.equals(attained) || (asked.is_nan() && attained.is_nan())
        } by {
            assert(l.attained[l.cell(t, i)] == m.attained[m.cell(t, i)]);
        }
    }
    if m.attains(inp, t, d) {
        assert forall|i: int| 0 <= i < l.assets implies {
            let asked = inp.weight(l.run, t, d, i);
            let attained = #[trigger] l.attained[l.cell(t, i)];
            asked.equals(attained) || (asked.is_nan() && attained.is_nan())
        } by {
            assert(l.attained[l.cell(t, i)] == m.attained[m.cell(t, i)]);
        }
    }
}

proof fn lemma_resolved(l: Ledger, inp: Inputs, at: Point, n: int)
    ensures
        silent(l).resolved(inp, at, n) == silent(l.resolved(inp, at, n)),
    decreases n,
{
    if n > 0 {
        lemma_resolved(l, inp, at, n - 1);
        let mid: Ledger = l.resolved(inp, at, n - 1);
        lemma_impounded(mid, inp, at, n - 1, mid.active[n - 1]);
        let d: int = inp.firing(mid.run, n - 1, at.bar as int, at.phase as int);
        let after: Ledger = if d >= 0 {
            mid.impounded(inp, at, n - 1, mid.active[n - 1])
        } else {
            mid
        };
        lemma_impounded_run(mid, inp, at, n - 1, mid.active[n - 1]);
        lemma_answered(after, inp, at, n - 1);
    }
}

proof fn lemma_impounded_run(l: Ledger, inp: Inputs, at: Point, t: int, list: Seq<usize>)
    ensures
        l.impounded(inp, at, t, list).run == l.run,
    decreases list.len(),
{
    if list.len() > 0 {
        lemma_impounded_run(l, inp, at, t, list.drop_last());
    }
}

proof fn lemma_pool_sold(l: Ledger, inp: Inputs, at: Point, list: Seq<usize>)
    ensures
        silent(l).pool_sold(inp, at, list) == silent(l.pool_sold(inp, at, list)),
    decreases list.len(),
{
    if list.len() > 0 {
        lemma_pool_sold(l, inp, at, list.drop_last());
    }
}

proof fn lemma_drained(l: Ledger, inp: Inputs, at: Point)
    ensures
        silent(l).drained(inp, at) == silent(l.drained(inp, at)),
{
    let m: Ledger = silent(l);
    let a: Ledger = l.pool_sold(inp, at, l.pool);
    let b: Ledger = m.pool_sold(inp, at, m.pool);
    lemma_pool_sold(l, inp, at, l.pool);
    names::lemma_kept_alike(l.pool, |i: int| live(a.liq[i]), |i: int| live(b.liq[i]));
    let some: bool = exists|k: int|
        0 <= k < l.pool.len() && l.leaves(inp, at, #[trigger] l.pool[k] as int);
    let other: bool = exists|k: int|
        0 <= k < m.pool.len() && m.leaves(inp, at, #[trigger] m.pool[k] as int);
    assert(some == other) by {
        if some {
            let k: int = choose|k: int|
                0 <= k < l.pool.len() && l.leaves(inp, at, #[trigger] l.pool[k] as int);
            assert(m.leaves(inp, at, m.pool[k] as int));
        }
        if other {
            let k: int = choose|k: int|
                0 <= k < m.pool.len() && m.leaves(inp, at, #[trigger] m.pool[k] as int);
            assert(l.leaves(inp, at, l.pool[k] as int));
        }
    }
}

proof fn lemma_worth(l: Ledger, inp: Inputs, at: Point, n: int)
    ensures
        silent(l).worth_of(inp, at, n) == l.worth_of(inp, at, n),
    decreases n,
{
    let m: Ledger = silent(l);
    if n <= 0 {
        twin::lemma_tally_same(l, m, inp, at, l.cash, l.liq, 0, l.pool);
    } else {
        lemma_worth(l, inp, at, n - 1);
        twin::lemma_tally_same(
            l,
            m,
            inp,
            at,
            l.worth_of(inp, at, n - 1),
            l.qty,
            (n - 1) * l.assets,
            l.active[n - 1],
        );
    }
}

proof fn lemma_row(l: Ledger, inp: Inputs, t: int, d: int, n: int)
    ensures
        names::where_below(n, |i: int| !none(inp.weight(l.run, t, d, i))) == names::where_below(
            n,
            |i: int| !none(inp.weight(silent(l).run, t, d, i)),
        ),
    decreases n,
{
    if n > 0 {
        lemma_row(l, inp, t, d, n - 1);
    }
}

proof fn lemma_sized(s: PlainState, l: Ledger, inp: Inputs, t: int, d: int, at: Point)
    ensures
        s.sized(silent(l), inp, t, d, at) == silent(s.sized(l, inp, t, d, at)),
{
    let m: Ledger = silent(l);
    lemma_row(l, inp, t, d, l.assets);
    assert(l.row(inp, t, d) == m.row(inp, t, d));
    twin::lemma_tally_same(
        l,
        m,
        inp,
        at,
        Binary64::zero(),
        l.qty,
        t * l.assets,
        l.active[t],
    );
    assert(s.funds(l, inp, t, d, at) == s.funds(m, inp, t, d, at));
    lemma_size_names(
        s,
        l,
        inp,
        t,
        d,
        at,
        s.funds(l, inp, t, d, at),
        names::union(l.row(inp, t, d), l.active[t]),
    );
}

proof fn lemma_size_names(
    s: PlainState,
    l: Ledger,
    inp: Inputs,
    t: int,
    d: int,
    at: Point,
    money: Binary64,
    list: Seq<usize>,
)
    ensures
        s.size_names(silent(l), inp, t, d, at, money, list) == silent(
            s.size_names(l, inp, t, d, at, money, list),
        ),
    decreases list.len(),
{
    if list.len() > 0 {
        lemma_size_names(s, l, inp, t, d, at, money, list.drop_last());
    }
}

/// What a pair of a policy's state and a ledger is without the record.
pub open spec fn both_silent(pair: (PlainState, Ledger)) -> (PlainState, Ledger) {
    (pair.0, silent(pair.1))
}

proof fn lemma_sell_name(s: PlainState, l: Ledger, inp: Inputs, t: int, at: Point, i: int)
    ensures
        s.sell_name(silent(l), inp, t, at, i) == both_silent(s.sell_name(l, inp, t, at, i)),
{
    assert(s.gives(silent(l), inp, t, at, i) == s.gives(l, inp, t, at, i));
}

proof fn lemma_sell_names(
    s: PlainState,
    l: Ledger,
    inp: Inputs,
    t: int,
    at: Point,
    list: Seq<usize>,
)
    ensures
        s.sell_names(silent(l), inp, t, at, list) == both_silent(
            s.sell_names(l, inp, t, at, list),
        ),
    decreases list.len(),
{
    if list.len() > 0 {
        lemma_sell_names(s, l, inp, t, at, list.drop_last());
        let (z, m) = s.sell_names(l, inp, t, at, list.drop_last());
        lemma_sell_name(z, m, inp, t, at, list.last() as int);
    }
}

proof fn lemma_buy_name(s: PlainState, l: Ledger, inp: Inputs, t: int, at: Point, i: int)
    ensures
        s.buy_name(silent(l), inp, t, at, i) == both_silent(s.buy_name(l, inp, t, at, i)),
{
    assert(s.affords(silent(l), inp, t, at, i) == s.affords(l, inp, t, at, i));
}

proof fn lemma_buy_names(
    s: PlainState,
    l: Ledger,
    inp: Inputs,
    t: int,
    at: Point,
    list: Seq<usize>,
)
    ensures
        s.buy_names(silent(l), inp, t, at, list) == both_silent(s.buy_names(l, inp, t, at, list)),
    decreases list.len(),
{
    if list.len() > 0 {
        lemma_buy_names(s, l, inp, t, at, list.drop_last());
        let (z, m) = s.buy_names(l, inp, t, at, list.drop_last());
        lemma_buy_name(z, m, inp, t, at, list.last() as int);
    }
}

proof fn lemma_retry_names(
    s: PlainState,
    l: Ledger,
    inp: Inputs,
    t: int,
    at: Point,
    list: Seq<usize>,
)
    ensures
        s.retry_names(silent(l), inp, t, at, list) == both_silent(
            s.retry_names(l, inp, t, at, list),
        ),
    decreases list.len(),
{
    if list.len() > 0 {
        lemma_retry_names(s, l, inp, t, at, list.drop_last());
        let (z, m) = s.retry_names(l, inp, t, at, list.drop_last());
        let i: int = list.last() as int;
        lemma_buy_name(z.released(z.cell(t, i)), m, inp, t, at, i);
    }
}

proof fn lemma_backfilled(s: PlainState, l: Ledger, inp: Inputs, at: Point, n: int)
    ensures
        s.backfilled(silent(l), inp, at, n) == both_silent(s.backfilled(l, inp, at, n)),
    decreases n,
{
    if n > 0 {
        lemma_backfilled(s, l, inp, at, n - 1);
        let (z, m) = s.backfilled(l, inp, at, n - 1);
        lemma_retry_names(z, m, inp, n - 1, at, m.active[n - 1]);
    }
}

proof fn lemma_remembered(l: Ledger, inp: Inputs, t: int, d: int)
    ensures
        silent(l).remembered(inp, t, d) == silent(l.remembered(inp, t, d)),
{
    let m: Ledger = silent(l);
    let whole: bool = forall|i: int|
        0 <= i < l.assets ==> !#[trigger] l.blocked[l.cell(t, i)];
    let full: bool = forall|i: int|
        0 <= i < m.assets ==> !#[trigger] m.blocked[m.cell(t, i)];
    assert(whole == full) by {
        if whole {
            assert forall|i: int| 0 <= i < m.assets implies !#[trigger] m.blocked[m.cell(t, i)] by {
                assert(!l.blocked[l.cell(t, i)]);
            }
        }
        if full {
            assert forall|i: int| 0 <= i < l.assets implies !#[trigger] l.blocked[l.cell(t, i)] by {
                assert(!m.blocked[m.cell(t, i)]);
            }
        }
    }
    assert(m.remembered(inp, t, d).attained =~= l.remembered(inp, t, d).attained);
}

proof fn lemma_decided(s: PlainState, l: Ledger, inp: Inputs, t: int, d: int, at: Point)
    ensures
        s.decided(silent(l), inp, t, d, at) == both_silent(s.decided(l, inp, t, d, at)),
{
    let free: PlainState = s.released_all(t, l.active[t]);
    lemma_sized(free, l, inp, t, d, at);
    let sized: Ledger = free.sized(l, inp, t, d, at);
    lemma_sell_names(free, sized, inp, t, at, sized.active[t]);
    let (sold, after) = free.sell_names(sized, inp, t, at, sized.active[t]);
    lemma_buy_names(sold, after, inp, t, at, after.active[t]);
    let (bought, done) = sold.buy_names(after, inp, t, at, after.active[t]);
    lemma_remembered(done, inp, t, d);
}

proof fn lemma_traded(s: PlainState, l: Ledger, inp: Inputs, at: Point, n: int)
    ensures
        s.traded(silent(l), inp, at, n) == both_silent(s.traded(l, inp, at, n)),
    decreases n,
{
    if n > 0 {
        lemma_traded(s, l, inp, at, n - 1);
        let (z, m) = s.traded(l, inp, at, n - 1);
        let d: int = m.fire[n - 1] as int;
        if d >= 0 {
            lemma_decided(z, m, inp, n - 1, d, at);
        }
    }
}

proof fn lemma_marked(l: Ledger, quotes: spec_fn(int) -> Binary64)
    ensures
        silent(l).marked(quotes) == silent(l.marked(quotes)),
{
    assert(silent(l).marked(quotes).last =~= l.marked(quotes).last);
}

proof fn lemma_point(s: PlainState, l: Ledger, inp: Inputs, at: Point)
    ensures
        driver::point_walked::<Plain>(s, silent(l), inp, at) == both_silent(
            driver::point_walked::<Plain>(s, l, inp, at),
        ),
{
    lemma_marked(l, |i: int| inp.quote(at.phase as int, at.bar as int, i));
    let marked: Ledger = l.marked_at(inp, at);
    assert(silent(l).marked_at(inp, at) == silent(marked));
    lemma_resolved(marked, inp, at, l.tranches);
    let ready: Ledger = marked.resolved(inp, at, l.tranches);
    assert(driver::anybody(silent(ready)) == driver::anybody(ready)) by {
        let m: Ledger = silent(ready);
        if driver::anybody(ready) {
            let t: int = choose|t: int| 0 <= t < ready.tranches && #[trigger] ready.fire[t] >= 0;
            assert(m.fire[t] >= 0);
        }
        if driver::anybody(m) {
            let t: int = choose|t: int| 0 <= t < m.tranches && #[trigger] m.fire[t] >= 0;
            assert(ready.fire[t] >= 0);
        }
    }
    lemma_drained(ready, inp, at);
    let drained: Ledger = ready.drained(inp, at);
    lemma_backfilled(s, drained, inp, at, drained.tranches);
    let (book, filled) = s.backfilled(drained, inp, at, drained.tranches);
    lemma_worth(filled, inp, at, filled.tranches);
    let read: Ledger = if driver::anybody(ready) {
        filled.snapshot(inp, at)
    } else {
        filled
    };
    lemma_traded(book, read, inp, at, read.tranches);
}

proof fn lemma_points(s: PlainState, l: Ledger, inp: Inputs, bar: int, n: int)
    ensures
        driver::points_walked::<Plain>(s, silent(l), inp, bar, n) == both_silent(
            driver::points_walked::<Plain>(s, l, inp, bar, n),
        ),
    decreases n,
{
    if n > 0 {
        lemma_points(s, l, inp, bar, n - 1);
        let (z, m) = driver::points_walked::<Plain>(s, l, inp, bar, n - 1);
        lemma_point(z, m, inp, driver::point_of(inp, bar, n - 1));
    }
}

proof fn lemma_acted(s: PlainState, l: Ledger, m: Ledger, actions: Seq<(usize, Binary64)>)
    ensures
        driver::acted_all::<Plain>(s, l, actions) == driver::acted_all::<Plain>(s, m, actions),
    decreases actions.len(),
{
    if actions.len() > 0 {
        lemma_acted(s, l, m, actions.drop_last());
    }
}

proof fn lemma_morning(s: PlainState, l: Ledger, inp: Inputs, bar: int)
    ensures
        driver::morning::<Plain>(s, silent(l), inp, bar) == both_silent(
            driver::morning::<Plain>(s, l, inp, bar),
        ),
{
    let m: Ledger = silent(l);
    let a: Ledger = l.rescaled(inp, bar);
    let b: Ledger = m.rescaled(inp, bar);
    if inp.has_previous {
        assert(a.qty =~= b.qty) by {
            assert forall|c: int| 0 <= c < a.qty.len() implies a.qty[c] == b.qty[c] by {
                assert(l.rescales(inp, bar, c % l.assets) == m.rescales(inp, bar, c % l.assets));
            }
        }
        assert(a.target =~= b.target) by {
            assert forall|c: int| 0 <= c < a.target.len() implies a.target[c] == b.target[c] by {
                assert(l.rescales(inp, bar, c % l.assets) == m.rescales(inp, bar, c % l.assets));
            }
        }
        assert(a.liq =~= b.liq);
        assert(a.last =~= b.last);
    }
    assert(b == silent(a));
    twin::lemma_actions_same(l, m, inp, bar, l.assets);
    let actions: Seq<(usize, Binary64)> = l.actions(inp, bar);
    lemma_acted(s, a, b, actions);
    let acted: PlainState = driver::acted_all::<Plain>(s, a, actions);
    assert(acted.dawned(a).budget =~= acted.dawned(b).budget);
}

proof fn lemma_expired(s: PlainState, l: Ledger, n: int)
    ensures
        s.expired(silent(l), n) == s.expired(l, n),
    decreases n,
{
    if n > 0 {
        lemma_expired(s, l, n - 1);
    }
}

proof fn lemma_bar(s: PlainState, l: Ledger, inp: Inputs, bar: int)
    ensures
        driver::bar_walked::<Plain>(s, silent(l), inp, bar) == both_silent(
            driver::bar_walked::<Plain>(s, l, inp, bar),
        ),
{
    lemma_morning(s, l, inp, bar);
    let (woken, opened) = driver::morning::<Plain>(s, l, inp, bar);
    lemma_points(woken, opened, inp, bar, inp.phases());
    let (book, done) = driver::points_walked::<Plain>(woken, opened, inp, bar, inp.phases());
    lemma_expired(book, done, done.tranches);
    lemma_marked(done, |i: int| inp.close(bar, i));
}

proof fn lemma_swept(l: Ledger, at_rest: spec_fn(int, int) -> bool)
    ensures
        silent(l).swept(at_rest) == silent(l.swept(at_rest)),
{
    let m: Ledger = silent(l);
    assert forall|t: int| 0 <= t < l.active.len() implies l.swept(at_rest).active[t] == m.swept(
        at_rest,
    ).active[t] by {
        names::lemma_kept_alike(
            l.active[t],
            |i: int| !(l.idle(t, i) && at_rest(t, i)),
            |i: int| !(m.idle(t, i) && at_rest(t, i)),
        );
    }
    assert(l.swept(at_rest).active =~= m.swept(at_rest).active);
}

/// `n` bars walked from a state and a ledger, the names at rest forgotten.
pub open spec fn walked_from(s: PlainState, l: Ledger, inp: Inputs, n: int) -> (PlainState, Ledger)
    decreases n,
{
    if n <= 0 {
        (s, l)
    } else {
        let (z, m) = walked_from(s, l, inp, n - 1);
        let (book, closed) = driver::bar_walked::<Plain>(z, m, inp, n - 1);
        (book, closed.swept(|t: int, i: int| Plain::rests(book, t, i)))
    }
}

/// A run is the bars walked from its start.
pub proof fn law_walked_from_start(inp: Inputs, run: int, n: int)
    ensures
        ({
            let (s, l) = driver::start::<Plain>(inp, run);
            driver::walked::<Plain>(inp, run, n) == walked_from(s, l, inp, n)
        }),
    decreases n,
{
    if n > 0 {
        law_walked_from_start(inp, run, n - 1);
    }
}

/// Recording fills changes nothing but the record: walked from the same
/// place without recording, every bar leaves the same ledger without its
/// record.
pub proof fn law_recording_changes_nothing(s: PlainState, l: Ledger, inp: Inputs, n: int)
    ensures
        walked_from(s, silent(l), inp, n) == both_silent(walked_from(s, l, inp, n)),
    decreases n,
{
    if n > 0 {
        law_recording_changes_nothing(s, l, inp, n - 1);
        let (z, m) = walked_from(s, l, inp, n - 1);
        lemma_bar(z, m, inp, n - 1);
        let (book, closed) = driver::bar_walked::<Plain>(z, m, inp, n - 1);
        lemma_swept(closed, |t: int, i: int| Plain::rests(book, t, i));
    }
}

proof fn lemma_names_of(l: Ledger, n: int)
    ensures
        silent(l).names_of(n) == l.names_of(n),
    decreases n,
{
    if n > 0 {
        lemma_names_of(l, n - 1);
    }
}

/// A ledger reports the same equity whether or not it records fills.
pub proof fn law_record_is_worth_nothing(l: Ledger, inp: Inputs, at: Point)
    ensures
        silent(l).closing_equity(inp, at) == l.closing_equity(inp, at),
{
    lemma_names_of(l, l.tranches);
    twin::lemma_holdings_same(l, silent(l), inp, at, l.closing_names(inp));
}

/// Runs of inputs that ask for different things walk alike, but for the
/// record.
proof fn lemma_walked_alike(a: Inputs, b: Inputs, run: int, n: int)
    requires
        a.valid(),
        b.valid(),
        same_terms(a, b),
        0 <= run < a.runs(),
        run < b.runs(),
        0 <= n <= a.bars(),
        n <= b.bars(),
        forall|bar: int| 0 <= bar < n ==> #[trigger] same_bar(a, b, run, bar),
    ensures
        both_silent(driver::walked::<Plain>(a, run, n)) == both_silent(
            driver::walked::<Plain>(b, run, n),
        ),
        underway::<Plain>(
            driver::walked::<Plain>(a, run, n).0,
            driver::walked::<Plain>(a, run, n).1,
            a,
            run,
        ),
    decreases n,
{
    record::lemma_underway(a, run, n);
    if n > 0 {
        lemma_walked_alike(a, b, run, n - 1);
        lemma_closing_alike(a, b, run, n - 1);
        let (s, l) = driver::walked::<Plain>(a, run, n - 1);
        let (z, m) = driver::walked::<Plain>(b, run, n - 1);
        let (book, closed) = driver::bar_walked::<Plain>(s, l, a, n - 1);
        let (other, done) = driver::bar_walked::<Plain>(z, m, b, n - 1);
        lemma_swept(closed, |t: int, i: int| Plain::rests(book, t, i));
        lemma_swept(done, |t: int, i: int| Plain::rests(other, t, i));
    }
}

/// A bar they agree on closes alike, but for the record.
proof fn lemma_closing_alike(a: Inputs, b: Inputs, run: int, bar: int)
    requires
        a.valid(),
        b.valid(),
        same_terms(a, b),
        0 <= run < a.runs(),
        run < b.runs(),
        0 <= bar < a.bars(),
        bar < b.bars(),
        same_bar(a, b, run, bar),
        both_silent(driver::walked::<Plain>(a, run, bar)) == both_silent(
            driver::walked::<Plain>(b, run, bar),
        ),
        underway::<Plain>(
            driver::walked::<Plain>(a, run, bar).0,
            driver::walked::<Plain>(a, run, bar).1,
            a,
            run,
        ),
    ensures
        ({
            let (s, l) = driver::walked::<Plain>(a, run, bar);
            let (z, m) = driver::walked::<Plain>(b, run, bar);
            both_silent(driver::bar_walked::<Plain>(s, l, a, bar)) == both_silent(
                driver::bar_walked::<Plain>(z, m, b, bar),
            )
        }),
{
    let (s, l) = driver::walked::<Plain>(a, run, bar);
    let (z, m) = driver::walked::<Plain>(b, run, bar);
    agreement::law_plain_is_attentive(a, b);
    agreement::lemma_bar::<Plain>(a, b, s, l, bar);
    lemma_bar(s, l, b, bar);
    lemma_bar(z, m, b, bar);
}

/// A ledger misses nothing whether or not it records fills.
proof fn lemma_settled(s: PlainState, l: Ledger, m: Ledger)
    requires
        settled(s, l),
        silent(l) == silent(m),
    ensures
        settled(s, m),
{
    assert(m == (Ledger { record_fills: m.record_fills, fills: m.fills, ..silent(l) }));
    assert forall|t: int, i: int|
        0 <= t < m.tranches && 0 <= i < m.assets && !m.active[t].contains(i as usize) implies
        #[trigger] peace(s, m, t, i) by {
        assert(peace(s, l, t, i));
    }
}

/// What a run is asked to report beside its series changes none of them:
/// inputs that differ in nothing but whether they ask for positions or for
/// fills report the same series and hold the same, and those that both ask for
/// fills put the same on record. Left out, where they differ on positions, is a pooled count that stops being a number when a bar opens.
pub proof fn law_asking_changes_no_series(a: Inputs, b: Inputs, run: int, n: int)
    requires
        a.valid(),
        b.valid(),
        same_terms(a, b),
        0 <= run < a.runs(),
        run < b.runs(),
        0 <= n <= a.bars(),
        n <= b.bars(),
        forall|bar: int| 0 <= bar < n ==> #[trigger] same_bar(a, b, run, bar),
        a.record_positions == b.record_positions || forall|bar: int|
            0 <= bar < n ==> countable(
                #[trigger] driver::walked::<Plain>(a, run, bar).1,
                a,
                bar,
            ),
    ensures
        forall|row: int, bar: int|
            0 <= bar < n ==> #[trigger] driver::series::<Plain>(a, run, row, bar)
                == driver::series::<Plain>(b, run, row, bar),
        forall|bar: int, i: int|
            0 <= bar < n ==> #[trigger] driver::closing::<Plain>(a, run, bar).holds(i)
                == driver::closing::<Plain>(b, run, bar).holds(i),
        a.record_fills == b.record_fills ==> driver::walked::<Plain>(a, run, n)
            == driver::walked::<Plain>(b, run, n),
{
    if a.record_fills == b.record_fills {
        agreement::law_plain_is_attentive(a, b);
        agreement::lemma_walked::<Plain>(a, b, run, n);
    }
    assert forall|row: int, bar: int| 0 <= bar < n implies #[trigger] driver::series::<Plain>(
        a,
        run,
        row,
        bar,
    ) == driver::series::<Plain>(b, run, row, bar) by {
        lemma_series_alike(a, b, run, bar);
    }
    assert forall|bar: int, i: int| 0 <= bar < n implies #[trigger] driver::closing::<Plain>(
        a,
        run,
        bar,
    ).holds(i) == driver::closing::<Plain>(b, run, bar).holds(i) by {
        lemma_series_alike(a, b, run, bar);
    }
}

proof fn lemma_series_alike(a: Inputs, b: Inputs, run: int, bar: int)
    requires
        a.valid(),
        b.valid(),
        same_terms(a, b),
        0 <= run < a.runs(),
        run < b.runs(),
        0 <= bar < a.bars(),
        bar < b.bars(),
        forall|past: int| 0 <= past <= bar ==> #[trigger] same_bar(a, b, run, past),
        a.record_positions == b.record_positions || forall|past: int|
            0 <= past <= bar ==> countable(
                #[trigger] driver::walked::<Plain>(a, run, past).1,
                a,
                past,
            ),
    ensures
        forall|row: int| #[trigger]
            driver::series::<Plain>(a, run, row, bar) == driver::series::<Plain>(b, run, row, bar),
        forall|i: int| #[trigger]
            driver::closing::<Plain>(a, run, bar).holds(i) == driver::closing::<Plain>(
                b,
                run,
                bar,
            ).holds(i),
{
    lemma_walked_alike(a, b, run, bar);
    assert(same_bar(a, b, run, bar));
    lemma_closing_alike(a, b, run, bar);
    let (s, l) = driver::walked::<Plain>(a, run, bar);
    let book: PlainState = driver::bar_walked::<Plain>(s, l, a, bar).0;
    let x: Ledger = driver::closing::<Plain>(a, run, bar);
    let y: Ledger = driver::closing::<Plain>(b, run, bar);
    assert(silent(x) == silent(y));
    let at: Point = driver::point_of(a, bar, a.phases() - 1);
    assert(at == driver::point_of(b, bar, b.phases() - 1));
    agreement::law_plain_is_attentive(a, b);
    agreement::lemma_bar::<Plain>(a, b, s, l, bar);
    assert forall|i: int| #[trigger] x.holds(i) == y.holds(i) by {
        twin::lemma_held_same(x, y, x.tranches, i);
    }
    if a.record_positions == b.record_positions {
        lemma_names_of(x, x.tranches);
        lemma_names_of(y, y.tranches);
        let list: Seq<usize> = x.closing_names(a);
        assert(list == y.closing_names(b));
        names::lemma_where_below(x.assets, |i: int| true);
        x.lemma_names_of(x.tranches);
        agreement::lemma_holdings(a, b, x, at, list);
        twin::lemma_holdings_same(x, y, b, at, list);
    } else {
        assert forall|past: int| 0 <= past < bar implies countable(
            #[trigger] driver::walked::<Plain>(a, run, past).1,
            a,
            past,
        ) by {}
        twin::lemma_walked_twin(a, run, bar);
        let (z, m) = crate::dense::walked(a, run, bar);
        assert(countable(driver::walked::<Plain>(a, run, bar).1, a, bar));
        twin::lemma_bar_twin(s, l, z, m, a, bar);
        lemma_settled(book, x, y);
        twin::lemma_closing_dense(book, x, a, at);
        twin::lemma_closing_dense(book, y, b, at);
        let all: Seq<usize> = crate::dense::everyone(x.assets);
        names::lemma_where_below(x.assets, |i: int| true);
        agreement::lemma_holdings(a, b, x, at, all);
        twin::lemma_holdings_same(x, y, b, at, all);
    }
}

}
