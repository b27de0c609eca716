//! What a walk depends on, and what it does not.
//!
//! Two inputs that tell a run the same of a bar take it through that bar the
//! same way. So no later bar reaches an earlier answer, no run reaches
//! another's, and a plane that is not there is worth what it stands for.

use vstd::prelude::*;

use crate::binary64::Binary64;
use crate::bookkeeping::{Bookkeeping, Plain};
use crate::driver;
use crate::inputs::{Inputs, Point};
use crate::ledger;
use crate::ledger::{live, none, Ledger};
use crate::names;
use crate::plain;
use crate::plain::{PlainState, Terms};
use crate::twin;

verus! {

/// Whether two inputs have as many tranches, names and price points, the same
/// rulebook, and the same terms of the account.
pub open spec fn same_terms(a: Inputs, b: Inputs) -> bool {
    &&& a.tranches() == b.tranches()
    &&& a.assets() == b.assets()
    &&& a.phases() == b.phases()
    &&& forall|i: int| 0 <= i < a.assets() ==> #[trigger] a.category(i) == b.category(i)
    &&& forall|row: int, epoch: int, category: int| #[trigger]
        a.rated(row, epoch, category) == b.rated(row, epoch, category)
    &&& forall|row: int, category: int| #[trigger]
        a.flagged(row, category) == b.flagged(row, category)
    &&& a.capital == b.capital
    &&& a.buffer == b.buffer
    &&& a.audit == b.audit
    &&& a.has_previous == b.has_previous
}

/// Whether two inputs ask for the same: positions, and fills.
pub open spec fn same_asks(a: Inputs, b: Inputs) -> bool {
    a.record_positions == b.record_positions && a.record_fills == b.record_fills
}

/// Whether two inputs say the same of a name at a price point.
pub open spec fn same_name(a: Inputs, b: Inputs, phase: int, bar: int, i: int) -> bool {
    &&& a.quote(phase, bar, i) == b.quote(phase, bar, i)
    &&& a.can_buy(phase, bar, i) == b.can_buy(phase, bar, i)
    &&& a.can_sell(phase, bar, i) == b.can_sell(phase, bar, i)
    &&& a.stuck(phase, bar, i) == b.stuck(phase, bar, i)
}

/// Whether two inputs have a run's tranche decide the same at a price point:
/// the same row, standing or not, with the same weights.
pub open spec fn same_firing(a: Inputs, b: Inputs, run: int, t: int, bar: int, phase: int) -> bool {
    let d = a.firing(run, t, bar, phase);
    &&& d == b.firing(run, t, bar, phase)
    &&& a.stands(run, t, bar, phase) == b.stands(run, t, bar, phase)
    &&& d >= 0 ==> forall|i: int|
        0 <= i < a.assets() ==> #[trigger] a.weight(run, t, d, i) == b.weight(run, t, d, i)
}

/// Whether two inputs tell a run the same at a price point.
pub open spec fn same_point(a: Inputs, b: Inputs, run: int, bar: int, phase: int) -> bool {
    &&& forall|i: int| 0 <= i < a.assets() ==> #[trigger] same_name(a, b, phase, bar, i)
    &&& forall|t: int|
        0 <= t < a.tranches() ==> #[trigger] same_firing(a, b, run, t, bar, phase)
}

/// Whether two inputs tell a run the same of a bar.
pub open spec fn same_bar(a: Inputs, b: Inputs, run: int, bar: int) -> bool {
    &&& a.era(bar) == b.era(bar)
    &&& a.opens_day(bar) == b.opens_day(bar)
    &&& forall|i: int| 0 <= i < a.assets() ==> #[trigger] a.close(bar, i) == b.close(bar, i)
    &&& a.has_previous ==> forall|i: int|
        0 <= i < a.assets() ==> #[trigger] a.reference(bar, i) == b.reference(bar, i)
    &&& forall|phase: int|
        0 <= phase < a.phases() ==> #[trigger] same_point(a, b, run, bar, phase)
}

/// Whether a ledger's firings are those the table has at a point.
pub open spec fn fires_at(l: Ledger, inp: Inputs, at: Point) -> bool {
    forall|t: int|
        0 <= t < l.tranches && #[trigger] l.fire[t] >= 0 ==> l.fire[t] == inp.firing(
            l.run,
            t,
            at.bar as int,
            at.phase as int,
        )
}

/// What a ledger and two inputs have to be for a point to be walked alike.
pub open spec fn alike_at(a: Inputs, b: Inputs, l: Ledger, at: Point) -> bool {
    &&& a.valid()
    &&& b.valid()
    &&& a.covers(at)
    &&& b.covers(at)
    &&& same_terms(a, b)
    &&& same_point(a, b, l.run, at.bar as int, at.phase as int)
    &&& l.wf()
    &&& l.run < a.runs()
    &&& l.run < b.runs()
    &&& l.tranches == a.tranches()
    &&& l.assets == a.assets()
}

proof fn lemma_impounded(a: Inputs, b: Inputs, l: Ledger, at: Point, t: int, list: Seq<usize>)
    requires
        alike_at(a, b, l, at),
        names::bounded(list, l.assets),
    ensures
        l.impounded(a, at, t, list) == l.impounded(b, at, t, list),
    decreases list.len(),
{
    if list.len() > 0 {
        twin::lemma_bounded_front(list, l.assets);
        lemma_impounded(a, b, l, at, t, list.drop_last());
        assert(same_name(a, b, at.phase as int, at.bar as int, list.last() as int));
    }
}

proof fn lemma_answered(a: Inputs, b: Inputs, l: Ledger, at: Point, t: int)
    requires
        alike_at(a, b, l, at),
        0 <= t < l.tranches,
    ensures
        l.answered(a, at, t) == l.answered(b, at, t),
{
    assert(same_firing(a, b, l.run, t, at.bar as int, at.phase as int));
    let d: int = a.firing(l.run, t, at.bar as int, at.phase as int);
    if d >= 0 {
        if l.attains(a, t, d) {
            assert forall|i: int| 0 <= i < l.assets implies {
                let asked = b.weight(l.run, t, d, i);
                let attained = #[trigger] l.attained[l.cell(t, i)];
                asked.equals(attained) || (asked.is_nan() && attained.is_nan())
            } by {
                assert(a.weight(l.run, t, d, i) == b.weight(l.run, t, d, i));
            }
        }
        if l.attains(b, t, d) {
            assert forall|i: int| 0 <= i < l.assets implies {
                let asked = a.weight(l.run, t, d, i);
                let attained = #[trigger] l.attained[l.cell(t, i)];
                asked.equals(attained) || (asked.is_nan() && attained.is_nan())
            } by {
                assert(a.weight(l.run, t, d, i) == b.weight(l.run, t, d, i));
            }
        }
    }
}

pub(crate) proof fn lemma_resolved(a: Inputs, b: Inputs, l: Ledger, at: Point, n: int)
    requires
        alike_at(a, b, l, at),
        l.suits(a),
        0 <= n <= l.tranches,
    ensures
        l.resolved(a, at, n) == l.resolved(b, at, n),
        l.resolved(a, at, n).suits(a),
        alike_at(a, b, l.resolved(a, at, n), at),
        l.resolved(a, at, n).run == l.run,
        forall|t: int|
            0 <= t < n && #[trigger] l.resolved(a, at, n).fire[t] >= 0 ==> l.resolved(
                a,
                at,
                n,
            ).fire[t] == a.firing(l.run, t, at.bar as int, at.phase as int),
    decreases n,
{
    if n > 0 {
        lemma_resolved(a, b, l, at, n - 1);
        let mid: Ledger = l.resolved(a, at, n - 1);
        assert(same_firing(a, b, l.run, n - 1, at.bar as int, at.phase as int));
        lemma_impounded(a, b, mid, at, n - 1, mid.active[n - 1]);
        mid.lemma_impounded(a, at, n - 1, mid.active[n - 1]);
        let d: int = a.firing(l.run, n - 1, at.bar as int, at.phase as int);
        let after: Ledger = if d >= 0 {
            mid.impounded(a, at, n - 1, mid.active[n - 1])
        } else {
            mid
        };
        lemma_answered(a, b, after, at, n - 1);
        mid.lemma_fired(a, at, n - 1);
        let done: Ledger = l.resolved(a, at, n);
        assert forall|t: int| 0 <= t < n && #[trigger] done.fire[t] >= 0 implies done.fire[t]
            == a.firing(l.run, t, at.bar as int, at.phase as int) by {
            if t < n - 1 {
                assert(done.fire[t] == mid.fire[t]);
            }
        }
    }
}

proof fn lemma_pool_sold(a: Inputs, b: Inputs, l: Ledger, at: Point, list: Seq<usize>)
    requires
        alike_at(a, b, l, at),
        names::bounded(list, l.assets),
    ensures
        l.pool_sold(a, at, list) == l.pool_sold(b, at, list),
    decreases list.len(),
{
    if list.len() > 0 {
        twin::lemma_bounded_front(list, l.assets);
        lemma_pool_sold(a, b, l, at, list.drop_last());
        let i: int = list.last() as int;
        assert(same_name(a, b, at.phase as int, at.bar as int, i));
        assert(a.category(i) == b.category(i));
    }
}

pub(crate) proof fn lemma_drained(a: Inputs, b: Inputs, l: Ledger, at: Point)
    requires
        alike_at(a, b, l, at),
    ensures
        l.drained(a, at) == l.drained(b, at),
        alike_at(a, b, l.drained(a, at), at),
        l.drained(a, at) == (Ledger {
            liq: l.drained(a, at).liq,
            cash: l.drained(a, at).cash,
            fees: l.drained(a, at).fees,
            sold: l.drained(a, at).sold,
            fills: l.drained(a, at).fills,
            pool: l.drained(a, at).pool,
            ..l
        }),
{
    lemma_pool_sold(a, b, l, at, l.pool);
    l.lemma_pool_sold(a, at, l.pool);
    let after: Ledger = l.pool_sold(a, at, l.pool);
    names::lemma_kept(l.pool, |i: int| live(after.liq[i]));
    assert(names::bounded(l.pool, l.assets));
    let one: bool = exists|k: int|
        0 <= k < l.pool.len() && l.leaves(a, at, #[trigger] l.pool[k] as int);
    let other: bool = exists|k: int|
        0 <= k < l.pool.len() && l.leaves(b, at, #[trigger] l.pool[k] as int);
    assert(one == other) by {
        assert forall|k: int| 0 <= k < l.pool.len() implies l.leaves(
            a,
            at,
            #[trigger] l.pool[k] as int,
        ) == l.leaves(b, at, l.pool[k] as int) by {
            assert(l.pool[k] < l.assets);
            assert(same_name(a, b, at.phase as int, at.bar as int, l.pool[k] as int));
        }
        if one {
            let k: int = choose|k: int|
                0 <= k < l.pool.len() && l.leaves(a, at, #[trigger] l.pool[k] as int);
            assert(l.leaves(b, at, l.pool[k] as int));
        }
        if other {
            let k: int = choose|k: int|
                0 <= k < l.pool.len() && l.leaves(b, at, #[trigger] l.pool[k] as int);
            assert(l.leaves(a, at, l.pool[k] as int));
        }
    }
}

proof fn lemma_tally(
    a: Inputs,
    b: Inputs,
    l: Ledger,
    at: Point,
    start: Binary64,
    table: Seq<Binary64>,
    base: int,
    list: Seq<usize>,
)
    requires
        same_terms(a, b),
        l.assets == a.assets(),
        names::bounded(list, l.assets),
    ensures
        l.tally(a, at, start, table, base, list) == l.tally(b, at, start, table, base, list),
    decreases list.len(),
{
    if list.len() > 0 {
        twin::lemma_bounded_front(list, l.assets);
        lemma_tally(a, b, l, at, start, table, base, list.drop_last());
        assert(a.category(list.last() as int) == b.category(list.last() as int));
    }
}

proof fn lemma_worth(a: Inputs, b: Inputs, l: Ledger, at: Point, n: int)
    requires
        same_terms(a, b),
        l.assets == a.assets(),
        l.wf(),
        0 <= n <= l.tranches,
    ensures
        l.worth_of(a, at, n) == l.worth_of(b, at, n),
    decreases n,
{
    if n <= 0 {
        lemma_tally(a, b, l, at, l.cash, l.liq, 0, l.pool);
    } else {
        lemma_worth(a, b, l, at, n - 1);
        lemma_tally(
            a,
            b,
            l,
            at,
            l.worth_of(a, at, n - 1),
            l.qty,
            (n - 1) * l.assets,
            l.active[n - 1],
        );
    }
}

/// Whether two inputs give a decision of a run's tranche the same weights.
pub open spec fn same_row(a: Inputs, b: Inputs, run: int, t: int, d: int) -> bool {
    forall|i: int|
        0 <= i < a.assets() ==> #[trigger] a.weight(run, t, d, i) == b.weight(run, t, d, i)
}

proof fn lemma_row(a: Inputs, b: Inputs, run: int, t: int, d: int, n: int)
    requires
        same_row(a, b, run, t, d),
        n <= a.assets(),
    ensures
        names::where_below(n, |i: int| !none(a.weight(run, t, d, i))) == names::where_below(
            n,
            |i: int| !none(b.weight(run, t, d, i)),
        ),
    decreases n,
{
    if n > 0 {
        lemma_row(a, b, run, t, d, n - 1);
        assert(a.weight(run, t, d, n - 1) == b.weight(run, t, d, n - 1));
    }
}

proof fn lemma_gross(a: Inputs, b: Inputs, run: int, t: int, d: int, list: Seq<usize>)
    requires
        same_row(a, b, run, t, d),
        names::bounded(list, a.assets()),
    ensures
        plain::gross(a, run, t, d, list) == plain::gross(b, run, t, d, list),
    decreases list.len(),
{
    if list.len() > 0 {
        twin::lemma_bounded_front(list, a.assets());
        lemma_gross(a, b, run, t, d, list.drop_last());
        assert(a.weight(run, t, d, list.last() as int) == b.weight(
            run,
            t,
            d,
            list.last() as int,
        ));
    }
}

proof fn lemma_size_names(
    a: Inputs,
    b: Inputs,
    s: PlainState,
    l: Ledger,
    t: int,
    d: int,
    at: Point,
    money: Binary64,
    list: Seq<usize>,
)
    requires
        alike_at(a, b, l, at),
        same_row(a, b, l.run, t, d),
        0 <= t < l.tranches,
        names::bounded(list, l.assets),
    ensures
        s.size_names(l, a, t, d, at, money, list) == s.size_names(l, b, t, d, at, money, list),
        alike_at(a, b, s.size_names(l, a, t, d, at, money, list), at),
        s.size_names(l, a, t, d, at, money, list).alike(l),
    decreases list.len(),
{
    if list.len() > 0 {
        twin::lemma_bounded_front(list, l.assets);
        lemma_size_names(a, b, s, l, t, d, at, money, list.drop_last());
        let m: Ledger = s.size_names(l, a, t, d, at, money, list.drop_last());
        let i: int = list.last() as int;
        s.lemma_size_name(m, a, t, d, at, money, i);
        assert(same_name(a, b, at.phase as int, at.bar as int, i));
        assert(a.category(i) == b.category(i));
        assert(a.weight(l.run, t, d, i) == b.weight(l.run, t, d, i));
    }
}

pub(crate) proof fn lemma_sized(
    a: Inputs,
    b: Inputs,
    s: PlainState,
    l: Ledger,
    t: int,
    d: int,
    at: Point,
)
    requires
        alike_at(a, b, l, at),
        same_row(a, b, l.run, t, d),
        0 <= t < l.tranches,
    ensures
        s.sized(l, a, t, d, at) == s.sized(l, b, t, d, at),
        alike_at(a, b, s.sized(l, a, t, d, at), at),
        s.sized(l, a, t, d, at).alike(l),
{
    let row: Seq<usize> = l.row(a, t, d);
    let list: Seq<usize> = names::union(row, l.active[t]);
    lemma_row(a, b, l.run, t, d, l.assets);
    assert(l.row(b, t, d) == row);
    names::lemma_where_below(l.assets, |i: int| !none(a.weight(l.run, t, d, i)));
    lemma_gross(a, b, l.run, t, d, row);
    lemma_tally(a, b, l, at, Binary64::zero(), l.qty, t * l.assets, l.active[t]);
    assert(s.funds(l, a, t, d, at) == s.funds(l, b, t, d, at));
    names::lemma_union(row, l.active[t]);
    assert forall|k: int| 0 <= k < list.len() implies (#[trigger] list[k]) < l.assets by {
        assert(list.contains(list[k]));
        if row.contains(list[k]) {
            let m: int = choose|m: int| 0 <= m < row.len() && row[m] == list[k];
            assert(row[m] < l.assets);
        } else {
            let m: int = choose|m: int|
                0 <= m < l.active[t].len() && l.active[t][m] == list[k];
            assert(l.active[t][m] < l.assets);
        }
    }
    lemma_size_names(a, b, s, l, t, d, at, s.funds(l, a, t, d, at), list);
}

pub(crate) proof fn lemma_sell_names(
    a: Inputs,
    b: Inputs,
    s: PlainState,
    l: Ledger,
    t: int,
    at: Point,
    list: Seq<usize>,
)
    requires
        alike_at(a, b, l, at),
        s.fits(l.tranches, l.assets),
        0 <= t < l.tranches,
        names::bounded(list, l.assets),
    ensures
        s.sell_names(l, a, t, at, list) == s.sell_names(l, b, t, at, list),
        alike_at(a, b, s.sell_names(l, a, t, at, list).1, at),
        s.sell_names(l, a, t, at, list).1.alike(l),
        s.sell_names(l, a, t, at, list).0.fits(l.tranches, l.assets),
    decreases list.len(),
{
    if list.len() > 0 {
        twin::lemma_bounded_front(list, l.assets);
        lemma_sell_names(a, b, s, l, t, at, list.drop_last());
        let (z, m) = s.sell_names(l, a, t, at, list.drop_last());
        let i: int = list.last() as int;
        z.lemma_sell_name(m, a, t, at, i);
        assert(same_name(a, b, at.phase as int, at.bar as int, i));
        assert(a.category(i) == b.category(i));
        assert(z.gives(m, a, t, at, i) == z.gives(m, b, t, at, i));
    }
}

proof fn lemma_backed_off(a: Inputs, b: Inputs, terms: Terms, units: Binary64)
    requires
        same_terms(a, b),
    ensures
        terms.backed_off(a, units) == terms.backed_off(b, units),
    decreases terms.distance(units),
{
    let fewer: Binary64 = units.minus(terms.lot);
    assert(terms.overdrawn(a, units) == terms.overdrawn(b, units));
    if terms.overdrawn(a, units) && !fewer.equals(units) {
        terms.lemma_nearer(units);
        lemma_backed_off(a, b, terms, fewer);
    }
}

/// One buy, on inputs that agree.
proof fn lemma_buy_name(
    a: Inputs,
    b: Inputs,
    s: PlainState,
    l: Ledger,
    t: int,
    at: Point,
    i: int,
)
    requires
        alike_at(a, b, l, at),
        s.fits(l.tranches, l.assets),
        0 <= t < l.tranches,
        0 <= i < l.assets,
    ensures
        s.buy_name(l, a, t, at, i) == s.buy_name(l, b, t, at, i),
        alike_at(a, b, s.buy_name(l, a, t, at, i).1, at),
        s.buy_name(l, a, t, at, i).1.alike(l),
        s.buy_name(l, a, t, at, i).0.fits(l.tranches, l.assets),
{
    s.lemma_buy_name(l, a, t, at, i);
    assert(same_name(a, b, at.phase as int, at.bar as int, i));
    assert(a.category(i) == b.category(i));
    let terms: Terms = s.terms(l, a, at, i);
    assert(terms == s.terms(l, b, at, i));
    assert(terms.fitting(a) == terms.fitting(b));
    lemma_backed_off(a, b, terms, terms.fitting(a).minus(terms.lot));
    let c: int = l.cell(t, i);
    let asked: Binary64 = l.target[c].minus(l.qty[c]);
    assert(terms.covered(a, asked) == terms.covered(b, asked)) by {
        let take: Binary64 = if terms.fitting(a).less(asked) {
            terms.fitting(a)
        } else {
            asked
        };
        assert(terms.overdrawn(a, take) == terms.overdrawn(b, take));
    }
    assert(s.affords(l, a, t, at, i) == s.affords(l, b, t, at, i));
}

proof fn lemma_buy_names(
    a: Inputs,
    b: Inputs,
    s: PlainState,
    l: Ledger,
    t: int,
    at: Point,
    list: Seq<usize>,
)
    requires
        alike_at(a, b, l, at),
        s.fits(l.tranches, l.assets),
        0 <= t < l.tranches,
        names::bounded(list, l.assets),
    ensures
        s.buy_names(l, a, t, at, list) == s.buy_names(l, b, t, at, list),
        alike_at(a, b, s.buy_names(l, a, t, at, list).1, at),
        s.buy_names(l, a, t, at, list).1.alike(l),
        s.buy_names(l, a, t, at, list).0.fits(l.tranches, l.assets),
    decreases list.len(),
{
    if list.len() > 0 {
        twin::lemma_bounded_front(list, l.assets);
        lemma_buy_names(a, b, s, l, t, at, list.drop_last());
        let (z, m) = s.buy_names(l, a, t, at, list.drop_last());
        lemma_buy_name(a, b, z, m, t, at, list.last() as int);
    }
}

proof fn lemma_retry_names(
    a: Inputs,
    b: Inputs,
    s: PlainState,
    l: Ledger,
    t: int,
    at: Point,
    list: Seq<usize>,
)
    requires
        alike_at(a, b, l, at),
        s.fits(l.tranches, l.assets),
        0 <= t < l.tranches,
        names::bounded(list, l.assets),
    ensures
        s.retry_names(l, a, t, at, list) == s.retry_names(l, b, t, at, list),
        alike_at(a, b, s.retry_names(l, a, t, at, list).1, at),
        s.retry_names(l, a, t, at, list).1.alike(l),
        s.retry_names(l, a, t, at, list).0.fits(l.tranches, l.assets),
    decreases list.len(),
{
    if list.len() > 0 {
        twin::lemma_bounded_front(list, l.assets);
        lemma_retry_names(a, b, s, l, t, at, list.drop_last());
        let (z, m) = s.retry_names(l, a, t, at, list.drop_last());
        let i: int = list.last() as int;
        ledger::lemma_cell(l.tranches, l.assets, t, i);
        assert(same_name(a, b, at.phase as int, at.bar as int, i));
        lemma_buy_name(a, b, z.released(z.cell(t, i)), m, t, at, i);
    }
}

pub(crate) proof fn lemma_backfilled(a: Inputs, b: Inputs, s: PlainState, l: Ledger, at: Point, n: int)
    requires
        alike_at(a, b, l, at),
        s.fits(l.tranches, l.assets),
        0 <= n <= l.tranches,
    ensures
        s.backfilled(l, a, at, n) == s.backfilled(l, b, at, n),
        alike_at(a, b, s.backfilled(l, a, at, n).1, at),
        s.backfilled(l, a, at, n).1.alike(l),
        s.backfilled(l, a, at, n).0.fits(l.tranches, l.assets),
    decreases n,
{
    if n > 0 {
        lemma_backfilled(a, b, s, l, at, n - 1);
        let (z, m) = s.backfilled(l, a, at, n - 1);
        lemma_retry_names(a, b, z, m, n - 1, at, m.active[n - 1]);
    }
}

proof fn lemma_remembered(a: Inputs, b: Inputs, l: Ledger, t: int, d: int)
    requires
        same_row(a, b, l.run, t, d),
        l.wf(),
        l.assets == a.assets(),
        0 <= t < l.tranches,
    ensures
        l.remembered(a, t, d) == l.remembered(b, t, d),
        l.remembered(a, t, d).wf(),
{
    assert forall|c: int| 0 <= c < l.attained.len() implies l.remembered(a, t, d).attained[c]
        == l.remembered(b, t, d).attained[c] by {
        ledger::lemma_uncell(l.tranches, l.assets, c);
        assert(a.weight(l.run, t, d, c % l.assets) == b.weight(l.run, t, d, c % l.assets));
    }
    assert(l.remembered(a, t, d).attained =~= l.remembered(b, t, d).attained);
}

proof fn lemma_decided(
    a: Inputs,
    b: Inputs,
    s: PlainState,
    l: Ledger,
    t: int,
    d: int,
    at: Point,
)
    requires
        alike_at(a, b, l, at),
        same_row(a, b, l.run, t, d),
        s.fits(l.tranches, l.assets),
        0 <= t < l.tranches,
    ensures
        s.decided(l, a, t, d, at) == s.decided(l, b, t, d, at),
        alike_at(a, b, s.decided(l, a, t, d, at).1, at),
        s.decided(l, a, t, d, at).1.alike(l),
        s.decided(l, a, t, d, at).0.fits(l.tranches, l.assets),
{
    let free: PlainState = s.released_all(t, l.active[t]);
    s.lemma_released_all(t, l.active[t]);
    lemma_sized(a, b, free, l, t, d, at);
    let sized: Ledger = free.sized(l, a, t, d, at);
    lemma_sell_names(a, b, free, sized, t, at, sized.active[t]);
    let (sold, after) = free.sell_names(sized, a, t, at, sized.active[t]);
    lemma_buy_names(a, b, sold, after, t, at, after.active[t]);
    let (bought, done) = sold.buy_names(after, a, t, at, after.active[t]);
    lemma_remembered(a, b, done, t, d);
}

pub(crate) proof fn lemma_traded(a: Inputs, b: Inputs, s: PlainState, l: Ledger, at: Point, n: int)
    requires
        alike_at(a, b, l, at),
        fires_at(l, a, at),
        s.fits(l.tranches, l.assets),
        0 <= n <= l.tranches,
    ensures
        s.traded(l, a, at, n) == s.traded(l, b, at, n),
        alike_at(a, b, s.traded(l, a, at, n).1, at),
        s.traded(l, a, at, n).1.alike(l),
        s.traded(l, a, at, n).0.fits(l.tranches, l.assets),
    decreases n,
{
    if n > 0 {
        lemma_traded(a, b, s, l, at, n - 1);
        let (z, m) = s.traded(l, a, at, n - 1);
        let d: int = m.fire[n - 1] as int;
        if d >= 0 {
            assert(l.fire[n - 1] >= 0);
            assert(same_firing(a, b, l.run, n - 1, at.bar as int, at.phase as int));
            lemma_decided(a, b, z, m, n - 1, d, at);
        }
    }
}

proof fn lemma_marked(l: Ledger, f: spec_fn(int) -> Binary64, g: spec_fn(int) -> Binary64)
    requires
        l.wf(),
        forall|i: int| 0 <= i < l.assets ==> #[trigger] f(i) == g(i),
    ensures
        l.marked(f) == l.marked(g),
        l.marked(f).wf(),
{
    assert(l.marked(f).last =~= l.marked(g).last);
}

/// What a policy is handed at a price point two inputs agree on.
pub open spec fn handed<B: Bookkeeping>(
    a: Inputs,
    b: Inputs,
    s: B::State,
    l: Ledger,
    at: Point,
) -> bool {
    &&& alike_at(a, b, l, at)
    &&& l.suits(a)
    &&& fires_at(l, a, at)
    &&& B::fits(s, l.tranches, l.assets)
}

/// Whether a policy does the same on two inputs wherever they agree on the
/// price point it is handed, and leaves the account and its own state in
/// shape: it reads no other point, and standing orders decide nothing.
pub open spec fn heeds<B: Bookkeeping>(a: Inputs, b: Inputs, at: Point) -> bool {
    &&& forall|s: B::State, l: Ledger|
        #![trigger B::backfilled(s, l, a, at)]
        handed::<B>(a, b, s, l, at) ==> {
            &&& B::backfilled(s, l, a, at) == B::backfilled(s, l, b, at)
            &&& B::backfilled(s, l, a, at).1.wf()
            &&& B::backfilled(s, l, a, at).1.sized_as(l)
            &&& B::backfilled(s, l, a, at).1.suits(a)
            &&& fires_at(B::backfilled(s, l, a, at).1, a, at)
            &&& B::fits(B::backfilled(s, l, a, at).0, l.tranches, l.assets)
        }
    &&& forall|s: B::State, l: Ledger|
        #![trigger B::traded(s, l, a, at)]
        handed::<B>(a, b, s, l, at) ==> {
            &&& B::traded(s, l, a, at) == B::traded(s, l, b, at)
            &&& B::traded(s, l, a, at).1.wf()
            &&& B::traded(s, l, a, at).1.sized_as(l)
            &&& B::traded(s, l, a, at).1.suits(a)
            &&& B::fits(B::traded(s, l, a, at).0, l.tranches, l.assets)
        }
}

/// Whether the hooks that are handed no inputs leave the account and the
/// policy's state in shape, as they promise.
pub open spec fn steady<B: Bookkeeping>() -> bool {
    &&& forall|tranches: int, assets: int|
        0 <= tranches && 0 <= assets && tranches * assets <= usize::MAX && tranches <= usize::MAX
            && assets <= usize::MAX ==> B::fits(
            #[trigger] B::fresh(tranches, assets),
            tranches,
            assets,
        )
    &&& forall|s: B::State, l: Ledger, i: int, ratio: Binary64|
        l.wf() && B::fits(s, l.tranches, l.assets) && 0 <= i < l.assets ==> B::fits(
            #[trigger] B::acted(s, l, i, ratio),
            l.tranches,
            l.assets,
        )
    &&& forall|s: B::State, l: Ledger|
        l.wf() && B::fits(s, l.tranches, l.assets) ==> B::fits(
            #[trigger] B::dawned(s, l),
            l.tranches,
            l.assets,
        )
    &&& forall|s: B::State, tranches: int, assets: int|
        #![trigger B::fits(B::bar_opened(s), tranches, assets)]
        B::fits(s, tranches, assets) ==> B::fits(B::bar_opened(s), tranches, assets)
    &&& forall|s: B::State, l: Ledger|
        #![trigger B::bar_closed(s, l)]
        l.wf() && B::fits(s, l.tranches, l.assets) ==> {
            &&& B::bar_closed(s, l).1.wf()
            &&& B::bar_closed(s, l).1.sized_as(l)
            &&& forall|inp: Inputs|
                l.suits(inp) ==> #[trigger] B::bar_closed(s, l).1.suits(inp)
            &&& B::fits(B::bar_closed(s, l).0, l.tranches, l.assets)
        }
}

/// Whether a policy reads of two inputs no more than the price point it is
/// handed.
pub open spec fn attentive<B: Bookkeeping>(a: Inputs, b: Inputs) -> bool {
    steady::<B>() && forall|at: Point| #[trigger] heeds::<B>(a, b, at)
}

proof fn lemma_expired(s: PlainState, l: Ledger, n: int)
    requires
        l.wf(),
        s.fits(l.tranches, l.assets),
        0 <= n <= l.tranches,
    ensures
        s.expired(l, n).fits(l.tranches, l.assets),
    decreases n,
{
    if n > 0 {
        lemma_expired(s, l, n - 1);
        s.expired(l, n - 1).lemma_released_all(n - 1, l.active[n - 1]);
    }
}

/// The framework's own policy reads no more than the price point it is
/// handed.
pub proof fn law_plain_is_attentive(a: Inputs, b: Inputs)
    ensures
        attentive::<Plain>(a, b),
{
    assert forall|at: Point| #[trigger] heeds::<Plain>(a, b, at) by {
        assert forall|s: PlainState, l: Ledger|
            #![trigger Plain::backfilled(s, l, a, at)]
            handed::<Plain>(a, b, s, l, at) implies {
            &&& Plain::backfilled(s, l, a, at) == Plain::backfilled(s, l, b, at)
            &&& Plain::backfilled(s, l, a, at).1.wf()
            &&& Plain::backfilled(s, l, a, at).1.sized_as(l)
            &&& Plain::backfilled(s, l, a, at).1.suits(a)
            &&& fires_at(Plain::backfilled(s, l, a, at).1, a, at)
            &&& Plain::fits(Plain::backfilled(s, l, a, at).0, l.tranches, l.assets)
        } by {
            lemma_backfilled(a, b, s, l, at, l.tranches);
            lemma_fires_on(a, l, Plain::backfilled(s, l, a, at).1, at);
        }
        assert forall|s: PlainState, l: Ledger|
            #![trigger Plain::traded(s, l, a, at)]
            handed::<Plain>(a, b, s, l, at) implies {
            &&& Plain::traded(s, l, a, at) == Plain::traded(s, l, b, at)
            &&& Plain::traded(s, l, a, at).1.wf()
            &&& Plain::traded(s, l, a, at).1.sized_as(l)
            &&& Plain::traded(s, l, a, at).1.suits(a)
            &&& Plain::fits(Plain::traded(s, l, a, at).0, l.tranches, l.assets)
        } by {
            lemma_traded(a, b, s, l, at, l.tranches);
            lemma_fires_on(a, l, Plain::traded(s, l, a, at).1, at);
        }
    }
    assert forall|tranches: int, assets: int|
        0 <= tranches && 0 <= assets && tranches * assets <= usize::MAX && tranches <= usize::MAX
            && assets <= usize::MAX implies Plain::fits(
        #[trigger] Plain::fresh(tranches, assets),
        tranches,
        assets,
    ) by {
        assert(0 <= tranches * assets) by (nonlinear_arith)
            requires
                0 <= tranches,
                0 <= assets,
        ;
    }
    assert forall|s: PlainState, l: Ledger|
        #![trigger Plain::bar_closed(s, l)]
        l.wf() && Plain::fits(s, l.tranches, l.assets) implies {
        &&& Plain::bar_closed(s, l).1.wf()
        &&& Plain::bar_closed(s, l).1.sized_as(l)
        &&& forall|inp: Inputs|
            l.suits(inp) ==> #[trigger] Plain::bar_closed(s, l).1.suits(inp)
        &&& Plain::fits(Plain::bar_closed(s, l).0, l.tranches, l.assets)
    } by {
        lemma_expired(s, l, l.tranches);
    }
}

/// Whether a state and a ledger are ones a run of these inputs can be in.
pub open spec fn underway<B: Bookkeeping>(
    s: B::State,
    l: Ledger,
    inp: Inputs,
    run: int,
) -> bool {
    &&& l.wf()
    &&& l.suits(inp)
    &&& l.run == run
    &&& B::fits(s, l.tranches, l.assets)
}

/// A price point on inputs that agree there.
proof fn lemma_point<B: Bookkeeping>(a: Inputs, b: Inputs, s: B::State, l: Ledger, at: Point)
    requires
        attentive::<B>(a, b),
        alike_at(a, b, l, at),
        underway::<B>(s, l, a, l.run),
    ensures
        driver::point_walked::<B>(s, l, a, at) == driver::point_walked::<B>(s, l, b, at),
        underway::<B>(
            driver::point_walked::<B>(s, l, a, at).0,
            driver::point_walked::<B>(s, l, a, at).1,
            a,
            l.run,
        ),
{
    let (bar, phase) = (at.bar as int, at.phase as int);
    assert forall|i: int| 0 <= i < l.assets implies #[trigger] a.quote(phase, bar, i) == b.quote(
        phase,
        bar,
        i,
    ) by {
        assert(same_name(a, b, phase, bar, i));
    }
    lemma_marked(l, |i: int| a.quote(phase, bar, i), |i: int| b.quote(phase, bar, i));
    let marked: Ledger = l.marked_at(a, at);
    assert(marked == l.marked_at(b, at));
    assert(marked.suits(a));
    lemma_resolved(a, b, marked, at, l.tranches);
    let ready: Ledger = marked.resolved(a, at, l.tranches);
    lemma_drained(a, b, ready, at);
    let drained: Ledger = ready.drained(a, at);
    assert(heeds::<B>(a, b, at));
    lemma_fires_on(a, ready, drained, at);
    assert(handed::<B>(a, b, s, drained, at));
    let (book, filled) = B::backfilled(s, drained, a, at);
    lemma_worth(a, b, filled, at, filled.tranches);
    let read: Ledger = if driver::anybody(ready) {
        filled.snapshot(a, at)
    } else {
        filled
    };
    lemma_fires_on(a, filled, read, at);
    assert(handed::<B>(a, b, book, read, at));
    let done: Ledger = B::traded(book, read, a, at).1;
    assert(done.suits(a));
}

/// A ledger of the same size with the same firings fires the same.
pub(crate) proof fn lemma_fires_on(inp: Inputs, l: Ledger, m: Ledger, at: Point)
    requires
        l.suits(inp),
        m.sized_as(l),
        m.fire == l.fire,
        forall|t: int|
            0 <= t < l.tranches && #[trigger] l.fire[t] >= 0 ==> l.fire[t] == inp.firing(
                l.run,
                t,
                at.bar as int,
                at.phase as int,
            ),
    ensures
        m.suits(inp),
        fires_at(m, inp, at),
{
    assert forall|t: int| 0 <= t < m.tranches implies (#[trigger] m.fire[t])
        < inp.decisions() by {
        assert(l.fire[t] < inp.decisions());
    }
    assert forall|t: int| 0 <= t < m.tranches && #[trigger] m.fire[t] >= 0 implies m.fire[t]
        == inp.firing(m.run, t, at.bar as int, at.phase as int) by {
        assert(l.fire[t] >= 0);
    }
}

/// What two inputs have to be for a run to be walked through a bar alike.
pub open spec fn alike_on(a: Inputs, b: Inputs, run: int, bar: int) -> bool {
    &&& a.valid()
    &&& b.valid()
    &&& 0 <= run < a.runs()
    &&& run < b.runs()
    &&& 0 <= bar < a.bars()
    &&& bar < b.bars()
    &&& same_terms(a, b)
    &&& same_bar(a, b, run, bar)
}

pub(crate) proof fn lemma_points<B: Bookkeeping>(
    a: Inputs,
    b: Inputs,
    s: B::State,
    l: Ledger,
    bar: int,
    n: int,
)
    requires
        attentive::<B>(a, b),
        alike_on(a, b, l.run, bar),
        underway::<B>(s, l, a, l.run),
        0 <= n <= a.phases(),
    ensures
        driver::points_walked::<B>(s, l, a, bar, n) == driver::points_walked::<B>(
            s,
            l,
            b,
            bar,
            n,
        ),
        underway::<B>(
            driver::points_walked::<B>(s, l, a, bar, n).0,
            driver::points_walked::<B>(s, l, a, bar, n).1,
            a,
            l.run,
        ),
    decreases n,
{
    if n > 0 {
        lemma_points::<B>(a, b, s, l, bar, n - 1);
        let (z, m) = driver::points_walked::<B>(s, l, a, bar, n - 1);
        let at: Point = driver::point_of(a, bar, n - 1);
        assert(at == driver::point_of(b, bar, n - 1));
        twin::lemma_point_covered(a, bar, n - 1);
        twin::lemma_point_covered(b, bar, n - 1);
        assert(same_point(a, b, l.run, bar, n - 1));
        lemma_point::<B>(a, b, z, m, at);
    }
}

proof fn lemma_actions(a: Inputs, b: Inputs, l: Ledger, bar: int, n: int)
    requires
        n <= l.assets,
        forall|i: int| 0 <= i < l.assets ==> #[trigger] a.reference(bar, i) == b.reference(bar, i),
    ensures
        l.actions_below(a, bar, n) == l.actions_below(b, bar, n),
    decreases n,
{
    if n > 0 {
        lemma_actions(a, b, l, bar, n - 1);
        assert(a.reference(bar, n - 1) == b.reference(bar, n - 1));
    }
}

proof fn lemma_acted_fits<B: Bookkeeping>(
    s: B::State,
    l: Ledger,
    actions: Seq<(usize, Binary64)>,
)
    requires
        steady::<B>(),
        l.wf(),
        B::fits(s, l.tranches, l.assets),
        forall|k: int| 0 <= k < actions.len() ==> (#[trigger] actions[k]).0 < l.assets,
    ensures
        B::fits(driver::acted_all::<B>(s, l, actions), l.tranches, l.assets),
    decreases actions.len(),
{
    if actions.len() > 0 {
        assert forall|k: int| 0 <= k < actions.drop_last().len() implies (
        #[trigger] actions.drop_last()[k]).0 < l.assets by {
            assert(actions[k].0 < l.assets);
        }
        assert(actions[actions.len() - 1].0 < l.assets);
        lemma_acted_fits::<B>(s, l, actions.drop_last());
    }
}

pub(crate) proof fn lemma_morning<B: Bookkeeping>(
    a: Inputs,
    b: Inputs,
    s: B::State,
    l: Ledger,
    bar: int,
)
    requires
        attentive::<B>(a, b),
        alike_on(a, b, l.run, bar),
        underway::<B>(s, l, a, l.run),
    ensures
        driver::morning::<B>(s, l, a, bar) == driver::morning::<B>(s, l, b, bar),
        underway::<B>(
            driver::morning::<B>(s, l, a, bar).0,
            driver::morning::<B>(s, l, a, bar).1,
            a,
            l.run,
        ),
{
    let x: Ledger = l.rescaled(a, bar);
    let y: Ledger = l.rescaled(b, bar);
    if a.has_previous {
        assert forall|i: int| 0 <= i < l.assets implies #[trigger] l.rescales(a, bar, i)
            == l.rescales(b, bar, i) by {
            assert(a.reference(bar, i) == b.reference(bar, i));
        }
        assert forall|c: int| 0 <= c < l.qty.len() implies x.qty[c] == y.qty[c] && x.target[c]
            == y.target[c] by {
            ledger::lemma_uncell(l.tranches, l.assets, c);
            let i: int = c % l.assets;
            assert(l.rescales(a, bar, i) == l.rescales(b, bar, i));
            assert(a.reference(bar, i) == b.reference(bar, i));
        }
        assert forall|i: int| 0 <= i < l.assets implies x.liq[i] == y.liq[i] && x.last[i]
            == y.last[i] by {
            assert(l.rescales(a, bar, i) == l.rescales(b, bar, i));
            assert(a.reference(bar, i) == b.reference(bar, i));
        }
        assert(x.qty =~= y.qty);
        assert(x.target =~= y.target);
        assert(x.liq =~= y.liq);
        assert(x.last =~= y.last);
        lemma_actions(a, b, l, bar, l.assets);
    }
    assert(x == y);
    assert(x.wf());
    l.lemma_actions_below(a, bar, l.assets);
    lemma_acted_fits::<B>(s, x, l.actions(a, bar));
    let done: Ledger = x.opened();
    assert forall|t: int| 0 <= t < done.tranches implies (#[trigger] done.fire[t])
        < a.decisions() by {
        assert(l.fire[t] < a.decisions());
    }
}

/// A bar on inputs that agree on it.
pub(crate) proof fn lemma_bar<B: Bookkeeping>(
    a: Inputs,
    b: Inputs,
    s: B::State,
    l: Ledger,
    bar: int,
)
    requires
        attentive::<B>(a, b),
        alike_on(a, b, l.run, bar),
        underway::<B>(s, l, a, l.run),
    ensures
        driver::bar_walked::<B>(s, l, a, bar) == driver::bar_walked::<B>(s, l, b, bar),
        underway::<B>(
            driver::bar_walked::<B>(s, l, a, bar).0,
            driver::bar_walked::<B>(s, l, a, bar).1,
            a,
            l.run,
        ),
{
    lemma_morning::<B>(a, b, s, l, bar);
    let (woken, opened) = driver::morning::<B>(s, l, a, bar);
    assert(a.prices@.len() == a.prices.len());
    lemma_points::<B>(a, b, woken, opened, bar, a.phases());
    let (book, traded) = driver::points_walked::<B>(woken, opened, a, bar, a.phases());
    let (last, done) = B::bar_closed(book, traded);
    lemma_marked(done, |i: int| a.close(bar, i), |i: int| b.close(bar, i));
    let closed: Ledger = done.closed_at(a, bar);
    assert(closed == done.closed_at(b, bar));
    assert(done.suits(a));
    assert forall|t: int| 0 <= t < closed.tranches implies (#[trigger] closed.fire[t])
        < a.decisions() by {
        assert(done.fire[t] < a.decisions());
    }
}

proof fn lemma_swept<B: Bookkeeping>(
    s: B::State,
    l: Ledger,
    inp: Inputs,
    at_rest: spec_fn(int, int) -> bool,
)
    requires
        underway::<B>(s, l, inp, l.run),
    ensures
        underway::<B>(s, l.swept(at_rest), inp, l.run),
{
    let m: Ledger = l.swept(at_rest);
    assert forall|t: int| 0 <= t < m.tranches implies names::ascending(#[trigger] m.active[t])
        && names::bounded(m.active[t], m.assets) by {
        names::lemma_kept(l.active[t], |i: int| !(l.idle(t, i) && at_rest(t, i)));
        assert(names::bounded(l.active[t], l.assets));
    }
    assert forall|t: int| 0 <= t < m.tranches implies (#[trigger] m.fire[t])
        < inp.decisions() by {
        assert(l.fire[t] < inp.decisions());
    }
}

/// A run walked on inputs that agree on its bars so far.
pub(crate) proof fn lemma_walked<B: Bookkeeping>(a: Inputs, b: Inputs, run: int, n: int)
    requires
        attentive::<B>(a, b),
        a.valid(),
        b.valid(),
        same_terms(a, b),
        a.record_fills == b.record_fills,
        0 <= run < a.runs(),
        run < b.runs(),
        0 <= n <= a.bars(),
        n <= b.bars(),
        forall|bar: int| 0 <= bar < n ==> #[trigger] same_bar(a, b, run, bar),
    ensures
        driver::walked::<B>(a, run, n) == driver::walked::<B>(b, run, n),
        underway::<B>(
            driver::walked::<B>(a, run, n).0,
            driver::walked::<B>(a, run, n).1,
            a,
            run,
        ),
    decreases n,
{
    if n <= 0 {
        let l: Ledger = driver::start::<B>(a, run).1;
        assert(a.plan.shape()[0] <= usize::MAX && a.plan.shape()[2] >= 0);
        assert(0 <= a.plan.shape()[1] <= usize::MAX && 0 <= a.plan.shape()[3] <= usize::MAX);
        assert(0 <= a.tranches() * a.assets()) by (nonlinear_arith)
            requires
                0 <= a.tranches(),
                0 <= a.assets(),
        ;
        assert(l.wf());
    } else {
        lemma_walked::<B>(a, b, run, n - 1);
        let (s, l) = driver::walked::<B>(a, run, n - 1);
        assert(same_bar(a, b, run, n - 1));
        lemma_bar::<B>(a, b, s, l, n - 1);
        let (book, closed) = driver::bar_walked::<B>(s, l, a, n - 1);
        lemma_swept::<B>(book, closed, a, |t: int, i: int| B::rests(book, t, i));
    }
}

pub(crate) proof fn lemma_holdings(a: Inputs, b: Inputs, l: Ledger, at: Point, list: Seq<usize>)
    requires
        same_terms(a, b),
        l.assets == a.assets(),
        names::bounded(list, l.assets),
    ensures
        l.holdings_value(a, at, list) == l.holdings_value(b, at, list),
    decreases list.len(),
{
    if list.len() > 0 {
        twin::lemma_bounded_front(list, l.assets);
        lemma_holdings(a, b, l, at, list.drop_last());
        assert(a.category(list.last() as int) == b.category(list.last() as int));
    }
}

/// What a run reports of a bar, on inputs that agree up to it.
proof fn lemma_series<B: Bookkeeping>(a: Inputs, b: Inputs, run: int, bar: int)
    requires
        attentive::<B>(a, b),
        a.valid(),
        b.valid(),
        same_terms(a, b),
        same_asks(a, b),
        0 <= run < a.runs(),
        run < b.runs(),
        0 <= bar < a.bars(),
        bar < b.bars(),
        forall|past: int| 0 <= past <= bar ==> #[trigger] same_bar(a, b, run, past),
    ensures
        driver::closing::<B>(a, run, bar) == driver::closing::<B>(b, run, bar),
        forall|row: int| #[trigger]
            driver::series::<B>(a, run, row, bar) == driver::series::<B>(b, run, row, bar),
{
    lemma_walked::<B>(a, b, run, bar);
    let (s, l) = driver::walked::<B>(a, run, bar);
    assert(same_bar(a, b, run, bar));
    lemma_bar::<B>(a, b, s, l, bar);
    let closed: Ledger = driver::closing::<B>(a, run, bar);
    let at: Point = driver::point_of(a, bar, a.phases() - 1);
    assert(at == driver::point_of(b, bar, b.phases() - 1));
    names::lemma_where_below(closed.assets, |i: int| true);
    closed.lemma_names_of(closed.tranches);
    lemma_holdings(a, b, closed, at, closed.closing_names(a));
    assert(closed.closing_names(a) == closed.closing_names(b));
}

/// No later bar reaches an earlier answer: inputs that tell a run the same of
/// every bar before the `n`th have it report the same series and the same
/// holdings of those bars, and have the same on record after them, whatever
/// comes after. It holds under any policy that reads no more than the price
/// point it is handed.
pub proof fn law_no_later_bar_reaches_back<B: Bookkeeping>(
    a: Inputs,
    b: Inputs,
    run: int,
    n: int,
)
    requires
        attentive::<B>(a, b),
        a.valid(),
        b.valid(),
        same_terms(a, b),
        same_asks(a, b),
        0 <= run < a.runs(),
        run < b.runs(),
        0 <= n <= a.bars(),
        n <= b.bars(),
        forall|bar: int| 0 <= bar < n ==> #[trigger] same_bar(a, b, run, bar),
    ensures
        driver::walked::<B>(a, run, n) == driver::walked::<B>(b, run, n),
        forall|row: int, bar: int|
            0 <= bar < n ==> #[trigger] driver::series::<B>(a, run, row, bar)
                == driver::series::<B>(b, run, row, bar),
        forall|bar: int|
            0 <= bar < n ==> #[trigger] driver::closing::<B>(a, run, bar)
                == driver::closing::<B>(b, run, bar),
{
    lemma_walked::<B>(a, b, run, n);
    assert forall|row: int, bar: int| 0 <= bar < n implies #[trigger] driver::series::<B>(
        a,
        run,
        row,
        bar,
    ) == driver::series::<B>(b, run, row, bar) by {
        lemma_series::<B>(a, b, run, bar);
    }
    assert forall|bar: int| 0 <= bar < n implies #[trigger] driver::closing::<B>(a, run, bar)
        == driver::closing::<B>(b, run, bar) by {
        lemma_series::<B>(a, b, run, bar);
    }
}

/// Whether two inputs say the same of the market: of every bar's marks,
/// prices, switches, epoch and day.
pub open spec fn same_market(a: Inputs, b: Inputs) -> bool {
    &&& a.bars() == b.bars()
    &&& forall|bar: int|
        0 <= bar < a.bars() ==> {
            &&& #[trigger] a.era(bar) == b.era(bar)
            &&& a.opens_day(bar) == b.opens_day(bar)
        }
    &&& forall|bar: int, i: int|
        0 <= bar < a.bars() && 0 <= i < a.assets() ==> #[trigger] a.close(bar, i) == b.close(
            bar,
            i,
        )
    &&& a.has_previous ==> forall|bar: int, i: int|
        0 <= bar < a.bars() && 0 <= i < a.assets() ==> #[trigger] a.reference(bar, i)
            == b.reference(bar, i)
    &&& forall|phase: int, bar: int, i: int|
        0 <= phase < a.phases() && 0 <= bar < a.bars() && 0 <= i < a.assets()
            ==> #[trigger] same_name(a, b, phase, bar, i)
}

/// Whether two inputs have a run decide the same throughout.
pub open spec fn same_plan(a: Inputs, b: Inputs, run: int) -> bool {
    forall|t: int, bar: int, phase: int|
        0 <= t < a.tranches() && 0 <= bar < a.bars() && 0 <= phase < a.phases()
            ==> #[trigger] same_firing(a, b, run, t, bar, phase)
}

/// A run depends on its own decisions alone: inputs of the same terms and the
/// same market that have it decide the same give it the same answer, however
/// many other runs there are and whatever those decide. It holds under any
/// policy that reads no more than the price point it is handed.
pub proof fn law_runs_are_independent<B: Bookkeeping>(a: Inputs, b: Inputs, run: int)
    requires
        attentive::<B>(a, b),
        a.valid(),
        b.valid(),
        same_terms(a, b),
        same_asks(a, b),
        same_market(a, b),
        same_plan(a, b, run),
        0 <= run < a.runs(),
        run < b.runs(),
    ensures
        driver::walked::<B>(a, run, a.bars()) == driver::walked::<B>(b, run, b.bars()),
        forall|row: int, bar: int|
            0 <= bar < a.bars() ==> #[trigger] driver::series::<B>(a, run, row, bar)
                == driver::series::<B>(b, run, row, bar),
        forall|bar: int|
            0 <= bar < a.bars() ==> #[trigger] driver::closing::<B>(a, run, bar)
                == driver::closing::<B>(b, run, bar),
{
    assert forall|bar: int| 0 <= bar < a.bars() implies #[trigger] same_bar(a, b, run, bar) by {
        assert(a.era(bar) == b.era(bar));
        assert forall|phase: int| 0 <= phase < a.phases() implies #[trigger] same_point(
            a,
            b,
            run,
            bar,
            phase,
        ) by {}
    }
    law_no_later_bar_reaches_back::<B>(a, b, run, a.bars());
}

/// Under the framework's own policy no later bar reaches an earlier answer.
pub proof fn law_plain_never_looks_ahead(a: Inputs, b: Inputs, run: int, n: int)
    requires
        a.valid(),
        b.valid(),
        same_terms(a, b),
        same_asks(a, b),
        0 <= run < a.runs(),
        run < b.runs(),
        0 <= n <= a.bars(),
        n <= b.bars(),
        forall|bar: int| 0 <= bar < n ==> #[trigger] same_bar(a, b, run, bar),
    ensures
        driver::walked::<Plain>(a, run, n) == driver::walked::<Plain>(b, run, n),
        forall|row: int, bar: int|
            0 <= bar < n ==> #[trigger] driver::series::<Plain>(a, run, row, bar)
                == driver::series::<Plain>(b, run, row, bar),
        forall|bar: int|
            0 <= bar < n ==> #[trigger] driver::closing::<Plain>(a, run, bar)
                == driver::closing::<Plain>(b, run, bar),
{
    law_plain_is_attentive(a, b);
    law_no_later_bar_reaches_back::<Plain>(a, b, run, n);
}

/// Under the framework's own policy a run depends on its own decisions alone.
pub proof fn law_plain_runs_alone(a: Inputs, b: Inputs, run: int)
    requires
        a.valid(),
        b.valid(),
        same_terms(a, b),
        same_asks(a, b),
        same_market(a, b),
        same_plan(a, b, run),
        0 <= run < a.runs(),
        run < b.runs(),
    ensures
        driver::walked::<Plain>(a, run, a.bars()) == driver::walked::<Plain>(b, run, b.bars()),
        forall|row: int, bar: int|
            0 <= bar < a.bars() ==> #[trigger] driver::series::<Plain>(a, run, row, bar)
                == driver::series::<Plain>(b, run, row, bar),
        forall|bar: int|
            0 <= bar < a.bars() ==> #[trigger] driver::closing::<Plain>(a, run, bar)
                == driver::closing::<Plain>(b, run, bar),
{
    law_plain_is_attentive(a, b);
    law_runs_are_independent::<Plain>(a, b, run);
}

}
