//! Why scanning every name changes nothing.
//!
//! Two walks stand at the same place when all that either reports or trades
//! on is the same. Each phase keeps a walk over the names in play and a walk
//! over every name at the same place, because what the lists leave out is
//! at peace, and a phase does nothing to a name at peace.

use vstd::prelude::*;

use crate::arithmetic;
use crate::arithmetic::like;
use crate::binary64::Binary64;
use crate::bookkeeping::{Bookkeeping, Plain};
use crate::dense;
use crate::dense::{countable, everyone, peace, settled};
use crate::driver;
use crate::inputs::{Inputs, Point};
use crate::ledger;
use crate::ledger::{live, none, Ledger};
use crate::names;
use crate::plain::PlainState;

verus! {

/// Whether two tables are the same but for the signs of zeros.
pub open spec fn tables_like(a: Seq<Binary64>, b: Seq<Binary64>) -> bool {
    &&& a.len() == b.len()
    &&& forall|c: int| 0 <= c < a.len() ==> like(#[trigger] a[c], b[c])
}

/// Whether two walks stand at the same place: all that either reports or
/// trades on is the same, bit for bit; a target or a budget of nothing may
/// differ in the sign of its zero. The lists of names are not looked at.
pub open spec fn twin(s: PlainState, l: Ledger, z: PlainState, m: Ledger) -> bool {
    &&& m == (Ledger { target: m.target, active: m.active, pool: m.pool, ..l })
    &&& z == (PlainState { budget: z.budget, ..s })
    &&& tables_like(l.target, m.target)
    &&& tables_like(s.budget, z.budget)
}

/// The last of everyone.
proof fn lemma_everyone(n: int)
    requires
        0 < n <= usize::MAX,
    ensures
        everyone(n).len() > 0,
        everyone(n).last() == n - 1,
        everyone(n).drop_last() == everyone(n - 1),
{
    let all = |i: int| true;
    assert(names::where_below(n, all) == names::where_below(n - 1, all).push((n - 1) as usize));
    assert(everyone(n).drop_last() =~= everyone(n - 1));
}

/// An ascending list either ends at a name or does not hold it.
proof fn lemma_ends(list: Seq<usize>, n: int)
    requires
        names::ascending(list),
        names::bounded(list, n),
        0 < n <= usize::MAX,
    ensures
        list.len() > 0 && list.last() == n - 1 ==> {
            &&& names::ascending(list.drop_last())
            &&& names::bounded(list.drop_last(), n - 1)
        },
        !(list.len() > 0 && list.last() == n - 1) ==> {
            &&& names::bounded(list, n - 1)
            &&& !list.contains((n - 1) as usize)
        },
{
    if list.len() > 0 && list.last() == n - 1 {
        let front: Seq<usize> = list.drop_last();
        assert forall|k: int| 0 <= k < front.len() implies (#[trigger] front[k]) < n - 1 by {
            assert(list[k] < list[list.len() - 1]);
        }
    } else {
        assert forall|k: int| 0 <= k < list.len() implies (#[trigger] list[k]) < n - 1 by {
            if k < list.len() - 1 {
                assert(list[k] < list[list.len() - 1]);
            }
        }
    }
}

/// What a list holds besides its last name.
pub(crate) proof fn lemma_front(list: Seq<usize>, x: usize)
    requires
        list.len() > 0,
    ensures
        list.contains(x) <==> list.drop_last().contains(x) || x == list.last(),
{
    let front: Seq<usize> = list.drop_last();
    if list.contains(x) {
        let k: int = choose|k: int| 0 <= k < list.len() && list[k] == x;
        if k < front.len() {
            assert(front[k] == x);
        }
    }
    if front.contains(x) {
        let k: int = choose|k: int| 0 <= k < front.len() && front[k] == x;
        assert(list[k] == x);
    }
    assert(list[list.len() - 1] == list.last());
}

/// Impounding changes no units but the listed names'.
pub(crate) proof fn lemma_impounded_cells(l: Ledger, inp: Inputs, at: Point, t: int, list: Seq<usize>)
    requires
        l.wf(),
        0 <= t < l.tranches,
        names::bounded(list, l.assets),
    ensures
        forall|c: int|
            0 <= c < l.qty.len() && !(c / l.assets == t && list.contains((c % l.assets) as usize))
                ==> #[trigger] l.impounded(inp, at, t, list).qty[c] == l.qty[c],
    decreases list.len(),
{
    if list.len() > 0 {
        let front: Seq<usize> = list.drop_last();
        let i: int = list.last() as int;
        assert(list[list.len() - 1] < l.assets);
        assert forall|k: int| 0 <= k < front.len() implies (#[trigger] front[k]) < l.assets by {
            assert(list[k] < l.assets);
        }
        lemma_impounded_cells(l, inp, at, t, front);
        l.lemma_impounded(inp, at, t, front);
        ledger::lemma_cell(l.tranches, l.assets, t, i);
        assert forall|c: int|
            0 <= c < l.qty.len() && !(c / l.assets == t && list.contains(
                (c % l.assets) as usize,
            )) implies #[trigger] l.impounded(inp, at, t, list).qty[c] == l.qty[c] by {
            lemma_front(list, (c % l.assets) as usize);
            assert(l.impounded(inp, at, t, front).qty[c] == l.qty[c]);
            ledger::lemma_uncell(l.tranches, l.assets, c);
        }
    }
}

/// Impounding what the list names impounds all there is to impound.
proof fn lemma_impounded_twin(
    s: PlainState,
    l: Ledger,
    z: PlainState,
    m: Ledger,
    inp: Inputs,
    at: Point,
    t: int,
    list: Seq<usize>,
    n: int,
)
    requires
        l.wf(),
        twin(s, l, z, m),
        0 <= t < l.tranches,
        0 <= n <= l.assets,
        names::ascending(list),
        names::bounded(list, n),
        forall|i: int|
            0 <= i < n && !list.contains(i as usize) ==> none(#[trigger] l.qty[l.cell(t, i)]),
    ensures
        twin(s, l.impounded(inp, at, t, list), z, m.impounded(inp, at, t, everyone(n))),
    decreases n,
{
    if n > 0 {
        let i: int = n - 1;
        lemma_everyone(n);
        lemma_ends(list, n);
        ledger::lemma_cell(l.tranches, l.assets, t, i);
        if list.len() > 0 && list.last() == n - 1 {
            let front: Seq<usize> = list.drop_last();
            assert forall|j: int| 0 <= j < n - 1 && !front.contains(j as usize) implies none(
                #[trigger] l.qty[l.cell(t, j)],
            ) by {
                lemma_front(list, j as usize);
            }
            lemma_impounded_twin(s, l, z, m, inp, at, t, front, n - 1);
        } else {
            lemma_impounded_twin(s, l, z, m, inp, at, t, list, n - 1);
            lemma_impounded_cells(l, inp, at, t, list);
            l.lemma_impounded(inp, at, t, list);
            let c: int = l.cell(t, i);
            assert(none(l.qty[c]));
            assert(l.impounded(inp, at, t, list).qty[c] == l.qty[c]);
            arithmetic::lemma_none(l.qty[c]);
        }
    } else {
        assert(list =~= Seq::<usize>::empty()) by {
            if list.len() > 0 {
                assert(list[0] < n);
            }
        }
    }
}

/// Selling what the pool's list names sells all the pool has.
proof fn lemma_pool_sold_twin(
    s: PlainState,
    l: Ledger,
    z: PlainState,
    m: Ledger,
    inp: Inputs,
    at: Point,
    list: Seq<usize>,
    n: int,
)
    requires
        l.wf(),
        twin(s, l, z, m),
        0 <= n <= l.assets,
        names::ascending(list),
        names::bounded(list, n),
        forall|i: int| 0 <= i < n && !list.contains(i as usize) ==> none(#[trigger] l.liq[i]),
    ensures
        twin(s, l.pool_sold(inp, at, list), z, m.pool_sold(inp, at, everyone(n))),
    decreases n,
{
    if n > 0 {
        let i: int = n - 1;
        lemma_everyone(n);
        lemma_ends(list, n);
        if list.len() > 0 && list.last() == n - 1 {
            let front: Seq<usize> = list.drop_last();
            assert forall|j: int| 0 <= j < n - 1 && !front.contains(j as usize) implies none(
                #[trigger] l.liq[j],
            ) by {
                lemma_front(list, j as usize);
            }
            lemma_pool_sold_twin(s, l, z, m, inp, at, front, n - 1);
        } else {
            lemma_pool_sold_twin(s, l, z, m, inp, at, list, n - 1);
            l.lemma_pool_sold(inp, at, list);
            assert(l.pool_sold(inp, at, list).liq[i] == l.liq[i]);
            arithmetic::lemma_none(l.liq[i]);
        }
    } else {
        assert(list =~= Seq::<usize>::empty()) by {
            if list.len() > 0 {
                assert(list[0] < n);
            }
        }
    }
}

/// A sum over the names in play is the sum over every name: the others have
/// no units, and a name without units adds nothing.
pub proof fn lemma_tally_dense(
    l: Ledger,
    inp: Inputs,
    at: Point,
    start: Binary64,
    table: Seq<Binary64>,
    base: int,
    list: Seq<usize>,
    n: int,
)
    requires
        0 <= n <= usize::MAX,
        names::ascending(list),
        names::bounded(list, n),
        forall|i: int|
            0 <= i < n && !list.contains(i as usize) ==> none(#[trigger] table[base + i]),
    ensures
        l.tally(inp, at, start, table, base, list) == l.tally(
            inp,
            at,
            start,
            table,
            base,
            everyone(n),
        ),
    decreases n,
{
    if n > 0 {
        lemma_everyone(n);
        lemma_ends(list, n);
        if list.len() > 0 && list.last() == n - 1 {
            let front: Seq<usize> = list.drop_last();
            assert forall|j: int| 0 <= j < n - 1 && !front.contains(j as usize) implies none(
                #[trigger] table[base + j],
            ) by {
                lemma_front(list, j as usize);
            }
            lemma_tally_dense(l, inp, at, start, table, base, front, n - 1);
        } else {
            lemma_tally_dense(l, inp, at, start, table, base, list, n - 1);
            assert(none(table[base + (n - 1)]));
        }
    } else {
        assert(list =~= Seq::<usize>::empty()) by {
            if list.len() > 0 {
                assert(list[0] < n);
            }
        }
    }
}

/// A sum depends on the quotes and the table alone.
pub(crate) proof fn lemma_tally_same(
    l: Ledger,
    m: Ledger,
    inp: Inputs,
    at: Point,
    start: Binary64,
    table: Seq<Binary64>,
    base: int,
    list: Seq<usize>,
)
    requires
        l.last == m.last,
    ensures
        l.tally(inp, at, start, table, base, list) == m.tally(inp, at, start, table, base, list),
    decreases list.len(),
{
    if list.len() > 0 {
        lemma_tally_same(l, m, inp, at, start, table, base, list.drop_last());
    }
}

pub(crate) proof fn lemma_held_same(l: Ledger, m: Ledger, n: int, i: int)
    requires
        l.assets == m.assets,
        l.qty == m.qty,
        l.liq == m.liq,
    ensures
        l.held_by(n, i) == m.held_by(n, i),
    decreases n,
{
    if n > 0 {
        lemma_held_same(l, m, n - 1, i);
    }
}

/// What nobody holds is not held.
pub(crate) proof fn lemma_held_none(l: Ledger, n: int, i: int)
    requires
        none(l.liq[i]),
        forall|t: int| 0 <= t < n ==> none(l.qty[#[trigger] l.cell(t, i)]),
    ensures
        none(l.held_by(n, i)),
    decreases n,
{
    if n > 0 {
        lemma_held_none(l, n - 1, i);
        assert(none(l.qty[l.cell(n - 1, i)]));
        arithmetic::lemma_none_plus(l.held_by(n - 1, i), l.qty[l.cell(n - 1, i)]);
    }
}

/// The value of what is held in the names in play is the value of what is
/// held in every name.
pub proof fn lemma_holdings_dense(l: Ledger, inp: Inputs, at: Point, list: Seq<usize>, n: int)
    requires
        0 <= n <= usize::MAX,
        names::ascending(list),
        names::bounded(list, n),
        forall|i: int| 0 <= i < n && !list.contains(i as usize) ==> none(#[trigger] l.holds(i)),
    ensures
        l.holdings_value(inp, at, list) == l.holdings_value(inp, at, everyone(n)),
    decreases n,
{
    if n > 0 {
        lemma_everyone(n);
        lemma_ends(list, n);
        if list.len() > 0 && list.last() == n - 1 {
            let front: Seq<usize> = list.drop_last();
            assert forall|j: int| 0 <= j < n - 1 && !front.contains(j as usize) implies none(
                #[trigger] l.holds(j),
            ) by {
                lemma_front(list, j as usize);
            }
            lemma_holdings_dense(l, inp, at, front, n - 1);
        } else {
            lemma_holdings_dense(l, inp, at, list, n - 1);
            assert(none(l.holds(n - 1)));
        }
    } else {
        assert(list =~= Seq::<usize>::empty()) by {
            if list.len() > 0 {
                assert(list[0] < n);
            }
        }
    }
}

pub(crate) proof fn lemma_holdings_same(l: Ledger, m: Ledger, inp: Inputs, at: Point, list: Seq<usize>)
    requires
        l.assets == m.assets,
        l.tranches == m.tranches,
        l.qty == m.qty,
        l.liq == m.liq,
        l.last == m.last,
    ensures
        l.holdings_value(inp, at, list) == m.holdings_value(inp, at, list),
    decreases list.len(),
{
    if list.len() > 0 {
        lemma_holdings_same(l, m, inp, at, list.drop_last());
        lemma_held_same(l, m, l.tranches, list.last() as int);
    }
}

/// Whether a cell is as it was: its units, target, refusal, budget and
/// locked cash.
pub open spec fn same_at(s: PlainState, l: Ledger, z: PlainState, m: Ledger, c: int) -> bool {
    &&& m.qty[c] == l.qty[c]
    &&& m.target[c] == l.target[c]
    &&& m.blocked[c] == l.blocked[c]
    &&& z.budget[c] == s.budget[c]
    &&& z.locked[c] == s.locked[c]
}

/// Whether only cells of tranche `t`'s listed names changed, the tables have
/// their shapes, and the pool, the quotes and the firings are as they were.
pub open spec fn elsewhere(
    s: PlainState,
    l: Ledger,
    z: PlainState,
    m: Ledger,
    t: int,
    list: Seq<usize>,
) -> bool {
    &&& m.wf()
    &&& m.alike(l)
    &&& z.fits(l.tranches, l.assets)
    &&& forall|c: int|
        0 <= c < l.qty.len() && !(c / l.assets == t && list.contains((c % l.assets) as usize))
            ==> #[trigger] same_at(s, l, z, m, c)
}

/// One more name's step reaches one more name's cell.
proof fn lemma_elsewhere_step(
    s: PlainState,
    l: Ledger,
    z: PlainState,
    m: Ledger,
    y: PlainState,
    k: Ledger,
    t: int,
    list: Seq<usize>,
)
    requires
        l.wf(),
        0 <= t < l.tranches,
        list.len() > 0,
        list.last() < l.assets,
        elsewhere(s, l, z, m, t, list.drop_last()),
        k.wf(),
        k.alike(m),
        y.fits(l.tranches, l.assets),
        forall|c: int|
            0 <= c < l.qty.len() && c != l.cell(t, list.last() as int) ==> #[trigger] same_at(
                z,
                m,
                y,
                k,
                c,
            ),
    ensures
        elsewhere(s, l, y, k, t, list),
{
    ledger::lemma_cell(l.tranches, l.assets, t, list.last() as int);
    assert forall|c: int|
        0 <= c < l.qty.len() && !(c / l.assets == t && list.contains(
            (c % l.assets) as usize,
        )) implies #[trigger] same_at(s, l, y, k, c) by {
        ledger::lemma_uncell(l.tranches, l.assets, c);
        lemma_front(list, (c % l.assets) as usize);
        assert(same_at(s, l, z, m, c));
        assert(same_at(z, m, y, k, c));
    }
}

pub(crate) proof fn lemma_bounded_front(list: Seq<usize>, n: int)
    requires
        list.len() > 0,
        names::bounded(list, n),
    ensures
        names::bounded(list.drop_last(), n),
        list.last() < n,
{
    assert forall|k: int| 0 <= k < list.len() - 1 implies (#[trigger] list.drop_last()[k]) < n by {
        assert(list[k] < n);
    }
    assert(list[list.len() - 1] < n);
}

proof fn lemma_size_elsewhere(
    s: PlainState,
    l: Ledger,
    inp: Inputs,
    t: int,
    d: int,
    at: Point,
    money: Binary64,
    list: Seq<usize>,
)
    requires
        l.wf(),
        s.fits(l.tranches, l.assets),
        0 <= t < l.tranches,
        names::bounded(list, l.assets),
    ensures
        elsewhere(s, l, s, s.size_names(l, inp, t, d, at, money, list), t, list),
        s.size_names(l, inp, t, d, at, money, list).qty == l.qty,
    decreases list.len(),
{
    if list.len() > 0 {
        lemma_bounded_front(list, l.assets);
        let front: Seq<usize> = list.drop_last();
        let mid: Ledger = s.size_names(l, inp, t, d, at, money, front);
        lemma_size_elsewhere(s, l, inp, t, d, at, money, front);
        s.lemma_size_name(mid, inp, t, d, at, money, list.last() as int);
        ledger::lemma_cell(l.tranches, l.assets, t, list.last() as int);
        lemma_elsewhere_step(
            s,
            l,
            s,
            mid,
            s,
            s.size_name(mid, inp, t, d, at, money, list.last() as int),
            t,
            list,
        );
    }
}

proof fn lemma_sell_elsewhere(
    s: PlainState,
    l: Ledger,
    inp: Inputs,
    t: int,
    at: Point,
    list: Seq<usize>,
)
    requires
        l.wf(),
        s.fits(l.tranches, l.assets),
        0 <= t < l.tranches,
        names::bounded(list, l.assets),
    ensures
        elsewhere(
            s,
            l,
            s.sell_names(l, inp, t, at, list).0,
            s.sell_names(l, inp, t, at, list).1,
            t,
            list,
        ),
        s.sell_names(l, inp, t, at, list).1.active == l.active,
    decreases list.len(),
{
    if list.len() > 0 {
        lemma_bounded_front(list, l.assets);
        let front: Seq<usize> = list.drop_last();
        let i: int = list.last() as int;
        let (z, m) = s.sell_names(l, inp, t, at, front);
        lemma_sell_elsewhere(s, l, inp, t, at, front);
        z.lemma_sell_name(m, inp, t, at, i);
        ledger::lemma_cell(l.tranches, l.assets, t, i);
        let (y, k) = z.sell_name(m, inp, t, at, i);
        lemma_elsewhere_step(s, l, z, m, y, k, t, list);
    }
}

proof fn lemma_buy_elsewhere(
    s: PlainState,
    l: Ledger,
    inp: Inputs,
    t: int,
    at: Point,
    list: Seq<usize>,
)
    requires
        l.wf(),
        s.fits(l.tranches, l.assets),
        0 <= t < l.tranches,
        names::bounded(list, l.assets),
    ensures
        elsewhere(
            s,
            l,
            s.buy_names(l, inp, t, at, list).0,
            s.buy_names(l, inp, t, at, list).1,
            t,
            list,
        ),
    decreases list.len(),
{
    if list.len() > 0 {
        lemma_bounded_front(list, l.assets);
        let front: Seq<usize> = list.drop_last();
        let i: int = list.last() as int;
        let (z, m) = s.buy_names(l, inp, t, at, front);
        lemma_buy_elsewhere(s, l, inp, t, at, front);
        z.lemma_buy_name(m, inp, t, at, i);
        ledger::lemma_cell(l.tranches, l.assets, t, i);
        let (y, k) = z.buy_name(m, inp, t, at, i);
        lemma_elsewhere_step(s, l, z, m, y, k, t, list);
    }
}

proof fn lemma_retry_elsewhere(
    s: PlainState,
    l: Ledger,
    inp: Inputs,
    t: int,
    at: Point,
    list: Seq<usize>,
)
    requires
        l.wf(),
        s.fits(l.tranches, l.assets),
        0 <= t < l.tranches,
        names::bounded(list, l.assets),
    ensures
        elsewhere(
            s,
            l,
            s.retry_names(l, inp, t, at, list).0,
            s.retry_names(l, inp, t, at, list).1,
            t,
            list,
        ),
    decreases list.len(),
{
    if list.len() > 0 {
        lemma_bounded_front(list, l.assets);
        let front: Seq<usize> = list.drop_last();
        let i: int = list.last() as int;
        let (z, m) = s.retry_names(l, inp, t, at, front);
        lemma_retry_elsewhere(s, l, inp, t, at, front);
        ledger::lemma_cell(l.tranches, l.assets, t, i);
        let c: int = l.cell(t, i);
        z.released(c).lemma_buy_name(m, inp, t, at, i);
        let (y, k) = z.retry_name(m, inp, t, at, i);
        lemma_elsewhere_step(s, l, z, m, y, k, t, list);
    }
}

pub(crate) proof fn lemma_released_elsewhere(s: PlainState, l: Ledger, t: int, list: Seq<usize>)
    requires
        l.wf(),
        s.fits(l.tranches, l.assets),
        0 <= t < l.tranches,
        names::bounded(list, l.assets),
    ensures
        elsewhere(s, l, s.released_all(t, list), l, t, list),
        s.released_all(t, list).budget == s.budget,
    decreases list.len(),
{
    if list.len() > 0 {
        lemma_bounded_front(list, l.assets);
        let front: Seq<usize> = list.drop_last();
        let i: int = list.last() as int;
        let z: PlainState = s.released_all(t, front);
        lemma_released_elsewhere(s, l, t, front);
        ledger::lemma_cell(l.tranches, l.assets, t, i);
        lemma_elsewhere_step(s, l, z, l, z.released(l.cell(t, i)), l, t, list);
    }
}

/// Updating two tables alike at one place leaves them alike.
proof fn lemma_tables_update(
    a: Seq<Binary64>,
    b: Seq<Binary64>,
    c: int,
    x: Binary64,
    y: Binary64,
)
    requires
        tables_like(a, b),
        0 <= c < a.len(),
        like(x, y),
    ensures
        tables_like(a.update(c, x), b.update(c, y)),
{
    assert forall|k: int| 0 <= k < a.len() implies like(
        #[trigger] a.update(c, x)[k],
        b.update(c, y)[k],
    ) by {
        assert(like(a[k], b[k]));
    }
}

/// Two walks at the same place size a name the same.
proof fn lemma_size_twin(
    s: PlainState,
    l: Ledger,
    z: PlainState,
    m: Ledger,
    inp: Inputs,
    t: int,
    d: int,
    at: Point,
    money: Binary64,
    i: int,
)
    requires
        l.wf(),
        s.fits(l.tranches, l.assets),
        twin(s, l, z, m),
        0 <= t < l.tranches,
        0 <= i < l.assets,
    ensures
        twin(
            s,
            s.size_name(l, inp, t, d, at, money, i),
            z,
            z.size_name(m, inp, t, d, at, money, i),
        ),
{
    let c: int = l.cell(t, i);
    ledger::lemma_cell(l.tranches, l.assets, t, i);
    let want: Binary64 = l.struck(inp, t, i, inp.weight(l.run, t, d, i), money, at);
    assert(want == m.struck(inp, t, i, inp.weight(m.run, t, d, i), money, at));
    assert(like(s.budget[c], z.budget[c]));
    arithmetic::lemma_like_compares(s.budget[c], z.budget[c], l.qty[c].minus(want));
    lemma_tables_update(l.target, m.target, c, want, want);
}

/// Sizing a name at peace that no weight is given to changes nothing.
proof fn lemma_size_peace(
    s: PlainState,
    l: Ledger,
    z: PlainState,
    m: Ledger,
    inp: Inputs,
    t: int,
    d: int,
    at: Point,
    money: Binary64,
    i: int,
)
    requires
        l.wf(),
        s.fits(l.tranches, l.assets),
        twin(s, l, z, m),
        0 <= t < l.tranches,
        0 <= i < l.assets,
        peace(s, l, t, i),
        none(inp.weight(l.run, t, d, i)),
    ensures
        twin(s, l, z, z.size_name(m, inp, t, d, at, money, i)),
{
    let c: int = l.cell(t, i);
    let zero: Binary64 = Binary64::zero();
    ledger::lemma_cell(l.tranches, l.assets, t, i);
    arithmetic::lemma_none(inp.weight(l.run, t, d, i));
    arithmetic::lemma_none(l.qty[c]);
    arithmetic::lemma_none(zero);
    assert(m.struck(inp, t, i, inp.weight(m.run, t, d, i), money, at) == zero);
    assert(m.blocked.update(c, false) =~= l.blocked);
    let after: Ledger = z.size_name(m, inp, t, d, at, money, i);
    assert(after.blocked =~= l.blocked);
    assert(after.target == m.target.update(c, zero));
    lemma_tables_update(l.target, m.target, c, l.target[c], zero);
    assert(l.target.update(c, l.target[c]) =~= l.target);
}

/// Two walks at the same place sell the same of a name.
proof fn lemma_sell_twin(
    s: PlainState,
    l: Ledger,
    z: PlainState,
    m: Ledger,
    inp: Inputs,
    t: int,
    at: Point,
    i: int,
)
    requires
        l.wf(),
        s.fits(l.tranches, l.assets),
        twin(s, l, z, m),
        0 <= t < l.tranches,
        0 <= i < l.assets,
    ensures
        twin(
            s.sell_name(l, inp, t, at, i).0,
            s.sell_name(l, inp, t, at, i).1,
            z.sell_name(m, inp, t, at, i).0,
            z.sell_name(m, inp, t, at, i).1,
        ),
        s.gives(l, inp, t, at, i) == z.gives(m, inp, t, at, i),
{
    let c: int = l.cell(t, i);
    let zero: Binary64 = Binary64::zero();
    ledger::lemma_cell(l.tranches, l.assets, t, i);
    assert(like(l.target[c], m.target[c]));
    assert(like(s.budget[c], z.budget[c]));
    let asked: Binary64 = l.qty[c].minus(l.target[c]);
    let wanted: Binary64 = m.qty[c].minus(m.target[c]);
    arithmetic::lemma_like_minus(l.target[c], m.target[c], l.qty[c]);
    arithmetic::lemma_like_compares(asked, wanted, zero);
    arithmetic::lemma_like_compares(s.budget[c], z.budget[c], asked);
    arithmetic::lemma_like_compares(s.budget[c], z.budget[c], zero);
    arithmetic::lemma_none(asked);
    arithmetic::lemma_none(s.budget[c]);
    arithmetic::lemma_none(z.budget[c]);
    assert(s.gives(l, inp, t, at, i) == z.gives(m, inp, t, at, i));
    match s.gives(l, inp, t, at, i) {
        Some(give) => {
            arithmetic::lemma_like_minus(s.budget[c], z.budget[c], give);
            lemma_tables_update(
                s.budget,
                z.budget,
                c,
                s.budget[c].minus(give),
                z.budget[c].minus(give),
            );
        },
        None => {},
    }
}

/// There is nothing to sell of a name at peace.
proof fn lemma_sell_peace(
    s: PlainState,
    l: Ledger,
    z: PlainState,
    m: Ledger,
    inp: Inputs,
    t: int,
    at: Point,
    i: int,
)
    requires
        l.wf(),
        s.fits(l.tranches, l.assets),
        twin(s, l, z, m),
        0 <= t < l.tranches,
        0 <= i < l.assets,
        peace(s, l, t, i),
    ensures
        z.sell_name(m, inp, t, at, i) == (z, m),
{
    let c: int = l.cell(t, i);
    ledger::lemma_cell(l.tranches, l.assets, t, i);
    assert(like(l.target[c], m.target[c]));
    arithmetic::lemma_none_plus(m.qty[c], m.target[c]);
    arithmetic::lemma_none(m.qty[c].minus(m.target[c]));
}

/// Two walks at the same place buy the same of a name.
proof fn lemma_buy_twin(
    s: PlainState,
    l: Ledger,
    z: PlainState,
    m: Ledger,
    inp: Inputs,
    t: int,
    at: Point,
    i: int,
)
    requires
        l.wf(),
        s.fits(l.tranches, l.assets),
        twin(s, l, z, m),
        0 <= t < l.tranches,
        0 <= i < l.assets,
    ensures
        twin(
            s.buy_name(l, inp, t, at, i).0,
            s.buy_name(l, inp, t, at, i).1,
            z.buy_name(m, inp, t, at, i).0,
            z.buy_name(m, inp, t, at, i).1,
        ),
{
    let c: int = l.cell(t, i);
    let zero: Binary64 = Binary64::zero();
    ledger::lemma_cell(l.tranches, l.assets, t, i);
    assert(like(l.target[c], m.target[c]));
    assert(like(s.budget[c], z.budget[c]));
    let asked: Binary64 = l.target[c].minus(l.qty[c]);
    let wanted: Binary64 = m.target[c].minus(m.qty[c]);
    arithmetic::lemma_like_minus(l.target[c], m.target[c], l.qty[c]);
    arithmetic::lemma_like_compares(asked, wanted, zero);
    arithmetic::lemma_none(asked);
    assert(s.terms(l, inp, at, i) == z.terms(m, inp, at, i));
    assert(s.affords(l, inp, t, at, i) == z.affords(m, inp, t, at, i));
    let take: Binary64 = s.affords(l, inp, t, at, i).0;
    arithmetic::lemma_like_plus(s.budget[c], z.budget[c], take);
    lemma_tables_update(
        s.budget,
        z.budget,
        c,
        s.budget[c].plus(take),
        z.budget[c].plus(take),
    );
}

/// There is nothing to buy of a name at peace.
proof fn lemma_buy_peace(
    s: PlainState,
    l: Ledger,
    z: PlainState,
    m: Ledger,
    inp: Inputs,
    t: int,
    at: Point,
    i: int,
)
    requires
        l.wf(),
        s.fits(l.tranches, l.assets),
        twin(s, l, z, m),
        0 <= t < l.tranches,
        0 <= i < l.assets,
        peace(s, l, t, i),
    ensures
        z.buy_name(m, inp, t, at, i) == (z, m),
{
    let c: int = l.cell(t, i);
    ledger::lemma_cell(l.tranches, l.assets, t, i);
    assert(like(l.target[c], m.target[c]));
    arithmetic::lemma_none_plus(m.target[c], m.qty[c]);
    arithmetic::lemma_none(m.target[c].minus(m.qty[c]));
    arithmetic::lemma_none(Binary64::zero());
}

/// Freeing a cell's cash keeps two walks at the same place.
proof fn lemma_released_twin(s: PlainState, l: Ledger, z: PlainState, m: Ledger, c: int)
    requires
        twin(s, l, z, m),
    ensures
        twin(s.released(c), l, z.released(c), m),
{
}

/// Two walks at the same place try a standing order alike.
proof fn lemma_retry_twin(
    s: PlainState,
    l: Ledger,
    z: PlainState,
    m: Ledger,
    inp: Inputs,
    t: int,
    at: Point,
    i: int,
)
    requires
        l.wf(),
        s.fits(l.tranches, l.assets),
        twin(s, l, z, m),
        0 <= t < l.tranches,
        0 <= i < l.assets,
    ensures
        twin(
            s.retry_name(l, inp, t, at, i).0,
            s.retry_name(l, inp, t, at, i).1,
            z.retry_name(m, inp, t, at, i).0,
            z.retry_name(m, inp, t, at, i).1,
        ),
{
    let c: int = l.cell(t, i);
    ledger::lemma_cell(l.tranches, l.assets, t, i);
    lemma_released_twin(s, l, z, m, c);
    lemma_buy_twin(s.released(c), l, z.released(c), m, inp, t, at, i);
}

/// What a name's cell is like where only other names' cells changed.
pub(crate) proof fn lemma_still_at_peace(
    s: PlainState,
    l: Ledger,
    z: PlainState,
    m: Ledger,
    t: int,
    list: Seq<usize>,
    u: int,
    i: int,
)
    requires
        l.wf(),
        0 <= u < l.tranches,
        0 <= i < l.assets,
        s.fits(l.tranches, l.assets),
        elsewhere(s, l, z, m, t, list),
        u != t || !list.contains(i as usize),
        peace(s, l, u, i),
    ensures
        peace(z, m, u, i),
{
    ledger::lemma_cell(l.tranches, l.assets, u, i);
    assert(same_at(s, l, z, m, l.cell(u, i)));
}

/// Sizing the names in play sizes every name.
proof fn lemma_size_names_twin(
    s: PlainState,
    l: Ledger,
    z: PlainState,
    m: Ledger,
    inp: Inputs,
    t: int,
    d: int,
    at: Point,
    money: Binary64,
    list: Seq<usize>,
    n: int,
)
    requires
        l.wf(),
        s.fits(l.tranches, l.assets),
        twin(s, l, z, m),
        0 <= t < l.tranches,
        0 <= n <= l.assets,
        names::ascending(list),
        names::bounded(list, n),
        forall|i: int|
            0 <= i < n && !list.contains(i as usize) ==> #[trigger] peace(s, l, t, i) && none(
                inp.weight(l.run, t, d, i),
            ),
    ensures
        twin(
            s,
            s.size_names(l, inp, t, d, at, money, list),
            z,
            z.size_names(m, inp, t, d, at, money, everyone(n)),
        ),
    decreases n,
{
    if n > 0 {
        let i: int = n - 1;
        lemma_everyone(n);
        lemma_ends(list, n);
        if list.len() > 0 && list.last() == n - 1 {
            let front: Seq<usize> = list.drop_last();
            assert forall|j: int| 0 <= j < n - 1 && !front.contains(j as usize) implies #[trigger]
                peace(s, l, t, j) && none(inp.weight(l.run, t, d, j)) by {
                lemma_front(list, j as usize);
                assert(peace(s, l, t, j));
            }
            lemma_size_names_twin(s, l, z, m, inp, t, d, at, money, front, n - 1);
            lemma_size_elsewhere(s, l, inp, t, d, at, money, front);
            lemma_size_twin(
                s,
                s.size_names(l, inp, t, d, at, money, front),
                z,
                z.size_names(m, inp, t, d, at, money, everyone(n - 1)),
                inp,
                t,
                d,
                at,
                money,
                i,
            );
        } else {
            lemma_size_names_twin(s, l, z, m, inp, t, d, at, money, list, n - 1);
            lemma_size_elsewhere(s, l, inp, t, d, at, money, list);
            let after: Ledger = s.size_names(l, inp, t, d, at, money, list);
            assert(peace(s, l, t, i));
            lemma_still_at_peace(s, l, s, after, t, list, t, i);
            lemma_size_peace(
                s,
                after,
                z,
                z.size_names(m, inp, t, d, at, money, everyone(n - 1)),
                inp,
                t,
                d,
                at,
                money,
                i,
            );
        }
    } else {
        assert(list =~= Seq::<usize>::empty()) by {
            if list.len() > 0 {
                assert(list[0] < n);
            }
        }
    }
}

/// Selling the names in play sells every name.
proof fn lemma_sell_names_twin(
    s: PlainState,
    l: Ledger,
    z: PlainState,
    m: Ledger,
    inp: Inputs,
    t: int,
    at: Point,
    list: Seq<usize>,
    n: int,
)
    requires
        l.wf(),
        s.fits(l.tranches, l.assets),
        twin(s, l, z, m),
        0 <= t < l.tranches,
        0 <= n <= l.assets,
        names::ascending(list),
        names::bounded(list, n),
        forall|i: int|
            0 <= i < n && !list.contains(i as usize) ==> #[trigger] peace(s, l, t, i),
    ensures
        twin(
            s.sell_names(l, inp, t, at, list).0,
            s.sell_names(l, inp, t, at, list).1,
            z.sell_names(m, inp, t, at, everyone(n)).0,
            z.sell_names(m, inp, t, at, everyone(n)).1,
        ),
    decreases n,
{
    if n > 0 {
        let i: int = n - 1;
        lemma_everyone(n);
        lemma_ends(list, n);
        let (y, k) = z.sell_names(m, inp, t, at, everyone(n - 1));
        if list.len() > 0 && list.last() == n - 1 {
            let front: Seq<usize> = list.drop_last();
            assert forall|j: int| 0 <= j < n - 1 && !front.contains(j as usize) implies #[trigger]
                peace(s, l, t, j) by {
                lemma_front(list, j as usize);
            }
            lemma_sell_names_twin(s, l, z, m, inp, t, at, front, n - 1);
            lemma_sell_elsewhere(s, l, inp, t, at, front);
            let (book, after) = s.sell_names(l, inp, t, at, front);
            lemma_sell_twin(book, after, y, k, inp, t, at, i);
        } else {
            lemma_sell_names_twin(s, l, z, m, inp, t, at, list, n - 1);
            lemma_sell_elsewhere(s, l, inp, t, at, list);
            let (book, after) = s.sell_names(l, inp, t, at, list);
            assert(peace(s, l, t, i));
            lemma_still_at_peace(s, l, book, after, t, list, t, i);
            lemma_sell_peace(book, after, y, k, inp, t, at, i);
        }
    } else {
        assert(list =~= Seq::<usize>::empty()) by {
            if list.len() > 0 {
                assert(list[0] < n);
            }
        }
    }
}

/// Buying the names in play buys every name.
proof fn lemma_buy_names_twin(
    s: PlainState,
    l: Ledger,
    z: PlainState,
    m: Ledger,
    inp: Inputs,
    t: int,
    at: Point,
    list: Seq<usize>,
    n: int,
)
    requires
        l.wf(),
        s.fits(l.tranches, l.assets),
        twin(s, l, z, m),
        0 <= t < l.tranches,
        0 <= n <= l.assets,
        names::ascending(list),
        names::bounded(list, n),
        forall|i: int|
            0 <= i < n && !list.contains(i as usize) ==> #[trigger] peace(s, l, t, i),
    ensures
        twin(
            s.buy_names(l, inp, t, at, list).0,
            s.buy_names(l, inp, t, at, list).1,
            z.buy_names(m, inp, t, at, everyone(n)).0,
            z.buy_names(m, inp, t, at, everyone(n)).1,
        ),
    decreases n,
{
    if n > 0 {
        let i: int = n - 1;
        lemma_everyone(n);
        lemma_ends(list, n);
        let (y, k) = z.buy_names(m, inp, t, at, everyone(n - 1));
        if list.len() > 0 && list.last() == n - 1 {
            let front: Seq<usize> = list.drop_last();
            assert forall|j: int| 0 <= j < n - 1 && !front.contains(j as usize) implies #[trigger]
                peace(s, l, t, j) by {
                lemma_front(list, j as usize);
            }
            lemma_buy_names_twin(s, l, z, m, inp, t, at, front, n - 1);
            lemma_buy_elsewhere(s, l, inp, t, at, front);
            let (book, after) = s.buy_names(l, inp, t, at, front);
            lemma_buy_twin(book, after, y, k, inp, t, at, i);
        } else {
            lemma_buy_names_twin(s, l, z, m, inp, t, at, list, n - 1);
            lemma_buy_elsewhere(s, l, inp, t, at, list);
            let (book, after) = s.buy_names(l, inp, t, at, list);
            assert(peace(s, l, t, i));
            lemma_still_at_peace(s, l, book, after, t, list, t, i);
            lemma_buy_peace(book, after, y, k, inp, t, at, i);
        }
    } else {
        assert(list =~= Seq::<usize>::empty()) by {
            if list.len() > 0 {
                assert(list[0] < n);
            }
        }
    }
}

/// Trying the standing orders of the names in play tries every one.
proof fn lemma_retry_names_twin(
    s: PlainState,
    l: Ledger,
    z: PlainState,
    m: Ledger,
    inp: Inputs,
    t: int,
    at: Point,
    list: Seq<usize>,
    n: int,
)
    requires
        l.wf(),
        s.fits(l.tranches, l.assets),
        twin(s, l, z, m),
        0 <= t < l.tranches,
        0 <= n <= l.assets,
        names::ascending(list),
        names::bounded(list, n),
        forall|i: int|
            0 <= i < n && !list.contains(i as usize) ==> #[trigger] peace(s, l, t, i),
    ensures
        twin(
            s.retry_names(l, inp, t, at, list).0,
            s.retry_names(l, inp, t, at, list).1,
            z.retry_names(m, inp, t, at, everyone(n)).0,
            z.retry_names(m, inp, t, at, everyone(n)).1,
        ),
    decreases n,
{
    if n > 0 {
        let i: int = n - 1;
        lemma_everyone(n);
        lemma_ends(list, n);
        let (y, k) = z.retry_names(m, inp, t, at, everyone(n - 1));
        if list.len() > 0 && list.last() == n - 1 {
            let front: Seq<usize> = list.drop_last();
            assert forall|j: int| 0 <= j < n - 1 && !front.contains(j as usize) implies #[trigger]
                peace(s, l, t, j) by {
                lemma_front(list, j as usize);
            }
            lemma_retry_names_twin(s, l, z, m, inp, t, at, front, n - 1);
            lemma_retry_elsewhere(s, l, inp, t, at, front);
            let (book, after) = s.retry_names(l, inp, t, at, front);
            lemma_retry_twin(book, after, y, k, inp, t, at, i);
        } else {
            lemma_retry_names_twin(s, l, z, m, inp, t, at, list, n - 1);
            lemma_retry_elsewhere(s, l, inp, t, at, list);
            let (book, after) = s.retry_names(l, inp, t, at, list);
            assert(peace(s, l, t, i));
            lemma_still_at_peace(s, l, book, after, t, list, t, i);
            arithmetic::lemma_none(y.locked[y.cell(t, i)]);
        }
    } else {
        assert(list =~= Seq::<usize>::empty()) by {
            if list.len() > 0 {
                assert(list[0] < n);
            }
        }
    }
}

/// Freeing the names in play frees every name.
proof fn lemma_released_all_twin(
    s: PlainState,
    l: Ledger,
    z: PlainState,
    m: Ledger,
    t: int,
    list: Seq<usize>,
    n: int,
)
    requires
        l.wf(),
        s.fits(l.tranches, l.assets),
        twin(s, l, z, m),
        0 <= t < l.tranches,
        0 <= n <= l.assets,
        names::ascending(list),
        names::bounded(list, n),
        forall|i: int|
            0 <= i < n && !list.contains(i as usize) ==> #[trigger] peace(s, l, t, i),
    ensures
        twin(s.released_all(t, list), l, z.released_all(t, everyone(n)), m),
    decreases n,
{
    if n > 0 {
        let i: int = n - 1;
        lemma_everyone(n);
        lemma_ends(list, n);
        let y: PlainState = z.released_all(t, everyone(n - 1));
        if list.len() > 0 && list.last() == n - 1 {
            let front: Seq<usize> = list.drop_last();
            assert forall|j: int| 0 <= j < n - 1 && !front.contains(j as usize) implies #[trigger]
                peace(s, l, t, j) by {
                lemma_front(list, j as usize);
            }
            lemma_released_all_twin(s, l, z, m, t, front, n - 1);
            lemma_released_twin(s.released_all(t, front), l, y, m, l.cell(t, i));
        } else {
            lemma_released_all_twin(s, l, z, m, t, list, n - 1);
            lemma_released_elsewhere(s, l, t, list);
            assert(peace(s, l, t, i));
            lemma_still_at_peace(s, l, s.released_all(t, list), l, t, list, t, i);
            arithmetic::lemma_none(y.locked[l.cell(t, i)]);
        }
    } else {
        assert(list =~= Seq::<usize>::empty()) by {
            if list.len() > 0 {
                assert(list[0] < n);
            }
        }
    }
}

/// Whether no list of names lost a name.
pub open spec fn grows(l: Ledger, m: Ledger) -> bool {
    forall|u: int, x: usize|
        0 <= u < l.tranches && l.active[u].contains(x) ==> #[trigger] m.active[u].contains(x)
}

proof fn lemma_touched_grows(l: Ledger, t: int, i: int)
    requires
        l.wf(),
        0 <= t < l.tranches,
        0 <= i < l.assets,
    ensures
        grows(l, l.touched(t, i)),
        l.touched(t, i).active[t].contains(i as usize),
{
    names::lemma_inserted(l.active[t], i as usize);
    assert(names::ascending(l.active[t]));
    l.lemma_touched(t, i);
    assert forall|u: int, x: usize| 0 <= u < l.tranches && l.active[u].contains(x) implies
        #[trigger] l.touched(t, i).active[u].contains(x) by {
        if u == t {
            assert(names::inserted(l.active[t], i as usize).contains(x));
        }
    }
}

/// Sizing drops no name, and leaves a listed name it does not note with
/// nothing asked for and nothing refused.
proof fn lemma_size_grows(
    s: PlainState,
    l: Ledger,
    inp: Inputs,
    t: int,
    d: int,
    at: Point,
    money: Binary64,
    list: Seq<usize>,
)
    requires
        l.wf(),
        s.fits(l.tranches, l.assets),
        0 <= t < l.tranches,
        names::ascending(list),
        names::bounded(list, l.assets),
    ensures
        grows(l, s.size_names(l, inp, t, d, at, money, list)),
        forall|x: usize| #[trigger]
            list.contains(x) ==> {
                let m = s.size_names(l, inp, t, d, at, money, list);
                m.active[t].contains(x) || none(m.target[l.cell(t, x as int)]) && !m.blocked[l.cell(
                    t,
                    x as int,
                )]
            },
    decreases list.len(),
{
    if list.len() > 0 {
        lemma_bounded_front(list, l.assets);
        let front: Seq<usize> = list.drop_last();
        let i: int = list.last() as int;
        let mid: Ledger = s.size_names(l, inp, t, d, at, money, front);
        let m: Ledger = s.size_name(mid, inp, t, d, at, money, i);
        lemma_size_grows(s, l, inp, t, d, at, money, front);
        lemma_size_elsewhere(s, l, inp, t, d, at, money, front);
        s.lemma_size_name(mid, inp, t, d, at, money, i);
        ledger::lemma_cell(l.tranches, l.assets, t, i);
        let c: int = l.cell(t, i);
        let want: Binary64 = mid.struck(inp, t, i, inp.weight(mid.run, t, d, i), money, at);
        let refused: bool = inp.audit && live(mid.qty[c]) && s.budget[c].less(
            mid.qty[c].minus(want),
        );
        let set: Ledger = Ledger {
            target: mid.target.update(c, want),
            blocked: mid.blocked.update(c, refused),
            ..mid
        };
        lemma_touched_grows(set, t, i);
        assert(grows(mid, m)) by {
            assert forall|u: int, x: usize| 0 <= u < l.tranches && mid.active[u].contains(
                x,
            ) implies #[trigger] m.active[u].contains(x) by {
                assert(set.active[u].contains(x));
                if !none(want) || refused {
                    assert(set.touched(t, i).active[u].contains(x));
                }
            }
        }
        assert forall|u: int, x: usize| 0 <= u < l.tranches && l.active[u].contains(x) implies
            #[trigger] m.active[u].contains(x) by {
            assert(mid.active[u].contains(x));
        }
        assert forall|x: usize| #[trigger] list.contains(x) implies m.active[t].contains(x) || none(
            m.target[l.cell(t, x as int)],
        ) && !m.blocked[l.cell(t, x as int)] by {
            lemma_front(list, x);
            if x != list.last() {
                assert(front.contains(x));
                let k: int = choose|k: int| 0 <= k < front.len() && front[k] == x;
                assert(list[k] < list[list.len() - 1]);
                ledger::lemma_cell(l.tranches, l.assets, t, x as int);
                assert(l.cell(t, x as int) != c);
                if mid.active[t].contains(x) {
                    assert(m.active[t].contains(x));
                }
            }
        }
    }
}

proof fn lemma_buy_grows(
    s: PlainState,
    l: Ledger,
    inp: Inputs,
    t: int,
    at: Point,
    list: Seq<usize>,
)
    requires
        l.wf(),
        s.fits(l.tranches, l.assets),
        0 <= t < l.tranches,
        names::bounded(list, l.assets),
    ensures
        grows(l, s.buy_names(l, inp, t, at, list).1),
    decreases list.len(),
{
    if list.len() > 0 {
        lemma_bounded_front(list, l.assets);
        let front: Seq<usize> = list.drop_last();
        let i: int = list.last() as int;
        let (z, m) = s.buy_names(l, inp, t, at, front);
        lemma_buy_grows(s, l, inp, t, at, front);
        lemma_buy_elsewhere(s, l, inp, t, at, front);
        lemma_touched_grows(m, t, i);
        let k: Ledger = z.buy_name(m, inp, t, at, i).1;
        assert forall|u: int, x: usize| 0 <= u < l.tranches && l.active[u].contains(x) implies
            #[trigger] k.active[u].contains(x) by {
            assert(m.active[u].contains(x));
            assert(m.touched(t, i).active[u].contains(x));
        }
    }
}

proof fn lemma_retry_grows(
    s: PlainState,
    l: Ledger,
    inp: Inputs,
    t: int,
    at: Point,
    list: Seq<usize>,
)
    requires
        l.wf(),
        s.fits(l.tranches, l.assets),
        0 <= t < l.tranches,
        names::bounded(list, l.assets),
    ensures
        grows(l, s.retry_names(l, inp, t, at, list).1),
    decreases list.len(),
{
    if list.len() > 0 {
        lemma_bounded_front(list, l.assets);
        let front: Seq<usize> = list.drop_last();
        let i: int = list.last() as int;
        let (z, m) = s.retry_names(l, inp, t, at, front);
        lemma_retry_grows(s, l, inp, t, at, front);
        lemma_retry_elsewhere(s, l, inp, t, at, front);
        lemma_touched_grows(m, t, i);
        let k: Ledger = z.retry_name(m, inp, t, at, i).1;
        assert forall|u: int, x: usize| 0 <= u < l.tranches && l.active[u].contains(x) implies
            #[trigger] k.active[u].contains(x) by {
            assert(m.active[u].contains(x));
            assert(m.touched(t, i).active[u].contains(x));
        }
    }
}

/// What a tranche's listed names go through leaves nothing unlisted but at
/// peace.
proof fn lemma_still_settled(
    s: PlainState,
    l: Ledger,
    z: PlainState,
    m: Ledger,
    t: int,
    list: Seq<usize>,
)
    requires
        settled(s, l),
        0 <= t < l.tranches,
        elsewhere(s, l, z, m, t, list),
        grows(l, m),
        forall|i: int|
            0 <= i < l.assets && list.contains(i as usize) && !m.active[t].contains(i as usize)
                ==> #[trigger] peace(z, m, t, i),
    ensures
        settled(z, m),
{
    assert forall|u: int, i: int|
        0 <= u < m.tranches && 0 <= i < m.assets && !m.active[u].contains(i as usize) implies
        #[trigger] peace(z, m, u, i) by {
        if u == t && list.contains(i as usize) {
        } else {
            if l.active[u].contains(i as usize) {
                assert(m.active[u].contains(i as usize));
            }
            assert(peace(s, l, u, i));
            lemma_still_at_peace(s, l, z, m, t, list, u, i);
        }
    }
}

/// Impounding keeps the pool's counts counts, and lists every name it holds.
proof fn lemma_impounded_pool(l: Ledger, inp: Inputs, at: Point, t: int, list: Seq<usize>)
    requires
        l.wf(),
        0 <= t < l.tranches,
        names::bounded(list, l.assets),
        forall|i: int| 0 <= i < l.assets ==> Binary64::zero().at_most(#[trigger] l.liq[i]),
        forall|i: int|
            0 <= i < l.assets && !l.pool.contains(i as usize) ==> none(#[trigger] l.liq[i]),
    ensures
        forall|i: int|
            0 <= i < l.assets ==> Binary64::zero().at_most(
                #[trigger] l.impounded(inp, at, t, list).liq[i],
            ),
        forall|i: int|
            0 <= i < l.assets && !l.impounded(inp, at, t, list).pool.contains(i as usize) ==> none(
                #[trigger] l.impounded(inp, at, t, list).liq[i],
            ),
    decreases list.len(),
{
    if list.len() > 0 {
        lemma_bounded_front(list, l.assets);
        let front: Seq<usize> = list.drop_last();
        let j: int = list.last() as int;
        let mid: Ledger = l.impounded(inp, at, t, front);
        let m: Ledger = l.impounded(inp, at, t, list);
        lemma_impounded_pool(l, inp, at, t, front);
        l.lemma_impounded(inp, at, t, front);
        ledger::lemma_cell(l.tranches, l.assets, t, j);
        names::lemma_inserted(mid.pool, j as usize);
        let c: int = mid.cell(t, j);
        if live(mid.qty[c]) {
            assert(Binary64::zero().at_most(mid.liq[j]));
            arithmetic::lemma_sum_not_negative(mid.liq[j], mid.qty[c]);
        }
        assert forall|i: int| 0 <= i < l.assets implies Binary64::zero().at_most(
            #[trigger] m.liq[i],
        ) by {
            assert(Binary64::zero().at_most(mid.liq[i]));
        }
        assert forall|i: int| 0 <= i < l.assets && !m.pool.contains(i as usize) implies none(
            #[trigger] m.liq[i],
        ) by {
            if mid.pool.contains(i as usize) {
                assert(m.pool.contains(i as usize));
            }
            assert(none(mid.liq[i]));
        }
    }
}

/// Impounding leaves a name at peace at peace.
proof fn lemma_impounded_peace(
    s: PlainState,
    l: Ledger,
    inp: Inputs,
    at: Point,
    t: int,
    list: Seq<usize>,
)
    requires
        l.wf(),
        s.fits(l.tranches, l.assets),
        0 <= t < l.tranches,
        names::bounded(list, l.assets),
    ensures
        forall|u: int, i: int|
            0 <= u < l.tranches && 0 <= i < l.assets && peace(s, l, u, i) ==> #[trigger] peace(
                s,
                l.impounded(inp, at, t, list),
                u,
                i,
            ),
    decreases list.len(),
{
    if list.len() > 0 {
        lemma_bounded_front(list, l.assets);
        let front: Seq<usize> = list.drop_last();
        let j: int = list.last() as int;
        let mid: Ledger = l.impounded(inp, at, t, front);
        let m: Ledger = l.impounded(inp, at, t, list);
        lemma_impounded_peace(s, l, inp, at, t, front);
        l.lemma_impounded(inp, at, t, front);
        mid.lemma_impound_name(inp, at, t, j);
        ledger::lemma_cell(l.tranches, l.assets, t, j);
        assert forall|u: int, i: int|
            0 <= u < l.tranches && 0 <= i < l.assets && peace(s, l, u, i) implies #[trigger] peace(
            s,
            m,
            u,
            i,
        ) by {
            assert(peace(s, mid, u, i));
            ledger::lemma_cell(l.tranches, l.assets, u, i);
            arithmetic::lemma_none(mid.qty[mid.cell(u, i)]);
        }
    }
}

/// A firing resolved on the names in play is resolved on every name.
proof fn lemma_fired_twin(
    s: PlainState,
    l: Ledger,
    z: PlainState,
    m: Ledger,
    inp: Inputs,
    at: Point,
    t: int,
)
    requires
        settled(s, l),
        l.suits(inp),
        inp.valid(),
        inp.covers(at),
        twin(s, l, z, m),
        0 <= t < l.tranches,
    ensures
        settled(s, l.fired(inp, at, t)),
        l.fired(inp, at, t).suits(inp),
        twin(s, l.fired(inp, at, t), z, dense::fired(m, inp, at, t)),
{
    let list: Seq<usize> = l.active[t];
    let after: Ledger = l.fired(inp, at, t);
    let d: int = inp.firing(l.run, t, at.bar as int, at.phase as int);
    assert(names::ascending(l.active[t]) && names::bounded(l.active[t], l.assets));
    l.lemma_fired(inp, at, t);
    let mid: Ledger = if d >= 0 {
        l.impounded(inp, at, t, list)
    } else {
        l
    };
    let other: Ledger = if d >= 0 {
        m.impounded(inp, at, t, everyone(m.assets))
    } else {
        m
    };
    if d >= 0 {
        assert forall|i: int| 0 <= i < l.assets && !list.contains(i as usize) implies none(
            #[trigger] l.qty[l.cell(t, i)],
        ) by {
            assert(peace(s, l, t, i));
        }
        lemma_impounded_twin(s, l, z, m, inp, at, t, list, l.assets);
        l.lemma_impounded(inp, at, t, list);
        lemma_impounded_pool(l, inp, at, t, list);
        lemma_impounded_peace(s, l, inp, at, t, list);
        assert forall|u: int, i: int|
            0 <= u < l.tranches && 0 <= i < l.assets && !mid.active[u].contains(
                i as usize,
            ) implies #[trigger] peace(s, mid, u, i) by {
            assert(peace(s, l, u, i));
        }
    }
    assert(settled(s, mid));
    assert(twin(s, mid, z, other));
    assert(mid.answered(inp, at, t) == other.answered(inp, at, t)) by {
        assert(mid.attains(inp, t, d) == other.attains(inp, t, d)) by {
            if mid.attains(inp, t, d) {
                assert forall|i: int| 0 <= i < other.assets implies {
                    let asked = inp.weight(other.run, t, d, i);
                    let attained = #[trigger] other.attained[other.cell(t, i)];
                    asked.equals(attained) || (asked.is_nan() && attained.is_nan())
                } by {
                    assert(mid.attained[mid.cell(t, i)] == other.attained[other.cell(t, i)]);
                }
            }
            if other.attains(inp, t, d) {
                assert forall|i: int| 0 <= i < mid.assets implies {
                    let asked = inp.weight(mid.run, t, d, i);
                    let attained = #[trigger] mid.attained[mid.cell(t, i)];
                    asked.equals(attained) || (asked.is_nan() && attained.is_nan())
                } by {
                    assert(mid.attained[mid.cell(t, i)] == other.attained[other.cell(t, i)]);
                }
            }
        }
    }
    assert forall|u: int, i: int|
        0 <= u < l.tranches && 0 <= i < l.assets && !after.active[u].contains(i as usize) implies
        #[trigger] peace(s, after, u, i) by {
        assert(peace(s, mid, u, i));
    }
}

proof fn lemma_resolved_twin(
    s: PlainState,
    l: Ledger,
    z: PlainState,
    m: Ledger,
    inp: Inputs,
    at: Point,
    n: int,
)
    requires
        settled(s, l),
        l.suits(inp),
        inp.valid(),
        inp.covers(at),
        twin(s, l, z, m),
        0 <= n <= l.tranches,
    ensures
        settled(s, l.resolved(inp, at, n)),
        l.resolved(inp, at, n).suits(inp),
        l.resolved(inp, at, n).tranches == l.tranches,
        l.resolved(inp, at, n).assets == l.assets,
        twin(s, l.resolved(inp, at, n), z, dense::resolved(m, inp, at, n)),
    decreases n,
{
    if n > 0 {
        lemma_resolved_twin(s, l, z, m, inp, at, n - 1);
        let mid: Ledger = l.resolved(inp, at, n - 1);
        lemma_fired_twin(s, mid, z, dense::resolved(m, inp, at, n - 1), inp, at, n - 1);
        mid.lemma_fired(inp, at, n - 1);
    }
}

/// The pool tries to leave: what its list names is all it has, and a name it
/// emptied is at rest.
proof fn lemma_drained_twin(
    s: PlainState,
    l: Ledger,
    z: PlainState,
    m: Ledger,
    inp: Inputs,
    at: Point,
)
    requires
        settled(s, l),
        l.suits(inp),
        twin(s, l, z, m),
    ensures
        settled(s, l.drained(inp, at)),
        l.drained(inp, at).suits(inp),
        l.drained(inp, at).alike(Ledger { liq: l.drained(inp, at).liq, pool: l.drained(inp, at).pool, ..l }),
        twin(s, l.drained(inp, at), z, m.pool_sold(inp, at, everyone(l.assets))),
{
    let sold: Ledger = l.pool_sold(inp, at, l.pool);
    let after: Ledger = l.drained(inp, at);
    l.lemma_pool_sold(inp, at, l.pool);
    lemma_pool_sold_twin(s, l, z, m, inp, at, l.pool, l.assets);
    lemma_pool_counts(l, inp, at, l.pool);
    let keep = |i: int| live(sold.liq[i]);
    names::lemma_kept(l.pool, keep);
    assert(names::bounded(names::kept(l.pool, keep), l.assets));
    assert forall|i: int| 0 <= i < l.assets && !after.pool.contains(i as usize) implies none(
        #[trigger] after.liq[i],
    ) by {
        if l.pool.contains(i as usize) {
            assert(!live(sold.liq[i]));
            assert(Binary64::zero().at_most(sold.liq[i]));
            arithmetic::lemma_none(sold.liq[i]);
        } else {
            assert(sold.liq[i] == l.liq[i]);
        }
    }
    assert forall|u: int, i: int|
        0 <= u < l.tranches && 0 <= i < l.assets && !after.active[u].contains(i as usize) implies
        #[trigger] peace(s, after, u, i) by {
        assert(peace(s, l, u, i));
    }
}

/// Selling keeps the pool's counts counts.
proof fn lemma_pool_counts(l: Ledger, inp: Inputs, at: Point, list: Seq<usize>)
    requires
        l.wf(),
        names::bounded(list, l.assets),
        forall|i: int| 0 <= i < l.assets ==> Binary64::zero().at_most(#[trigger] l.liq[i]),
    ensures
        forall|i: int|
            0 <= i < l.assets ==> Binary64::zero().at_most(
                #[trigger] l.pool_sold(inp, at, list).liq[i],
            ),
    decreases list.len(),
{
    if list.len() > 0 {
        lemma_bounded_front(list, l.assets);
        let front: Seq<usize> = list.drop_last();
        let mid: Ledger = l.pool_sold(inp, at, front);
        lemma_pool_counts(l, inp, at, front);
        l.lemma_pool_sold(inp, at, front);
        arithmetic::lemma_none(Binary64::zero());
        assert forall|i: int| 0 <= i < l.assets implies Binary64::zero().at_most(
            #[trigger] l.pool_sold(inp, at, list).liq[i],
        ) by {
            assert(Binary64::zero().at_most(mid.liq[i]));
        }
    }
}

proof fn lemma_backfilled_twin(
    s: PlainState,
    l: Ledger,
    z: PlainState,
    m: Ledger,
    inp: Inputs,
    at: Point,
    n: int,
)
    requires
        settled(s, l),
        twin(s, l, z, m),
        0 <= n <= l.tranches,
    ensures
        settled(s.backfilled(l, inp, at, n).0, s.backfilled(l, inp, at, n).1),
        s.backfilled(l, inp, at, n).1.alike(l),
        twin(
            s.backfilled(l, inp, at, n).0,
            s.backfilled(l, inp, at, n).1,
            dense::backfilled(z, m, inp, at, n).0,
            dense::backfilled(z, m, inp, at, n).1,
        ),
    decreases n,
{
    if n > 0 {
        lemma_backfilled_twin(s, l, z, m, inp, at, n - 1);
        let t: int = n - 1;
        let (book, after) = s.backfilled(l, inp, at, n - 1);
        let (y, k) = dense::backfilled(z, m, inp, at, n - 1);
        let list: Seq<usize> = after.active[t];
        assert(names::ascending(after.active[t]) && names::bounded(after.active[t], after.assets));
        assert forall|i: int| 0 <= i < after.assets && !list.contains(i as usize) implies
            #[trigger] peace(book, after, t, i) by {}
        lemma_retry_names_twin(book, after, y, k, inp, t, at, list, after.assets);
        lemma_retry_elsewhere(book, after, inp, t, at, list);
        lemma_retry_grows(book, after, inp, t, at, list);
        let (bookish, done) = book.retry_names(after, inp, t, at, list);
        assert forall|i: int|
            0 <= i < after.assets && list.contains(i as usize) && !done.active[t].contains(
                i as usize,
            ) implies #[trigger] peace(bookish, done, t, i) by {
            assert(after.active[t].contains(i as usize));
            assert(done.active[t].contains(i as usize));
        }
        lemma_still_settled(book, after, bookish, done, t, list);
    }
}

/// The account is worth the same added up over the names in play as over
/// every name.
pub proof fn lemma_worth_dense(s: PlainState, l: Ledger, inp: Inputs, at: Point, n: int)
    requires
        settled(s, l),
        0 <= n <= l.tranches,
    ensures
        l.worth_of(inp, at, n) == dense::worth_of(l, inp, at, n),
    decreases n,
{
    if n <= 0 {
        lemma_tally_dense(l, inp, at, l.cash, l.liq, 0, l.pool, l.assets);
    } else {
        lemma_worth_dense(s, l, inp, at, n - 1);
        lemma_book_dense(s, l, inp, at, l.worth_of(inp, at, n - 1), n - 1);
    }
}

/// A book adds up the same over the names in play as over every name.
pub proof fn lemma_book_dense(
    s: PlainState,
    l: Ledger,
    inp: Inputs,
    at: Point,
    start: Binary64,
    t: int,
)
    requires
        settled(s, l),
        0 <= t < l.tranches,
    ensures
        l.tally(inp, at, start, l.qty, t * l.assets, l.active[t]) == l.tally(
            inp,
            at,
            start,
            l.qty,
            t * l.assets,
            everyone(l.assets),
        ),
{
    let list: Seq<usize> = l.active[t];
    let base: int = t * l.assets;
    assert(names::ascending(l.active[t]) && names::bounded(l.active[t], l.assets));
    assert forall|i: int| 0 <= i < l.assets && !list.contains(i as usize) implies none(
        #[trigger] l.qty[base + i],
    ) by {
        assert(peace(s, l, t, i));
        assert(l.cell(t, i) == base + i);
    }
    lemma_tally_dense(l, inp, at, start, l.qty, base, list, l.assets);
}

pub(crate) proof fn lemma_worth_same(l: Ledger, m: Ledger, inp: Inputs, at: Point, n: int)
    requires
        l.last == m.last,
        l.cash == m.cash,
        l.liq == m.liq,
        l.qty == m.qty,
        l.assets == m.assets,
    ensures
        dense::worth_of(l, inp, at, n) == dense::worth_of(m, inp, at, n),
    decreases n,
{
    let all: Seq<usize> = everyone(l.assets);
    if n <= 0 {
        lemma_tally_same(l, m, inp, at, l.cash, l.liq, 0, all);
    } else {
        lemma_worth_same(l, m, inp, at, n - 1);
        lemma_tally_same(
            l,
            m,
            inp,
            at,
            dense::worth_of(l, inp, at, n - 1),
            l.qty,
            (n - 1) * l.assets,
            all,
        );
    }
}

/// Sizing a decision on the names it weights and the book's is sizing it on
/// every name.
proof fn lemma_sized_twin(
    s: PlainState,
    l: Ledger,
    z: PlainState,
    m: Ledger,
    inp: Inputs,
    t: int,
    d: int,
    at: Point,
)
    requires
        settled(s, l),
        twin(s, l, z, m),
        0 <= t < l.tranches,
    ensures
        settled(s, s.sized(l, inp, t, d, at)),
        s.sized(l, inp, t, d, at).alike(l),
        twin(
            s,
            s.sized(l, inp, t, d, at),
            z,
            z.size_names(m, inp, t, d, at, dense::funds(z, m, inp, t, d, at), everyone(m.assets)),
        ),
{
    let own: Seq<usize> = l.active[t];
    assert(names::ascending(l.active[t]) && names::bounded(l.active[t], l.assets));
    let keep = |i: int| !none(inp.weight(l.run, t, d, i));
    let other = |i: int| !none(inp.weight(m.run, t, d, i));
    let row: Seq<usize> = l.row(inp, t, d);
    names::lemma_where_below(l.assets, keep);
    names::lemma_where_below(m.assets, other);
    names::lemma_same_names(row, m.row(inp, t, d));
    let list: Seq<usize> = names::union(row, own);
    names::lemma_union(row, own);
    assert forall|k: int| 0 <= k < list.len() implies (#[trigger] list[k]) < l.assets by {
        assert(list.contains(list[k]));
        if row.contains(list[k]) {
            let j: int = choose|j: int| 0 <= j < row.len() && row[j] == list[k];
            assert(row[j] < l.assets);
        } else {
            let j: int = choose|j: int| 0 <= j < own.len() && own[j] == list[k];
            assert(own[j] < l.assets);
        }
    }
    let money: Binary64 = s.funds(l, inp, t, d, at);
    lemma_book_dense(s, l, inp, at, Binary64::zero(), t);
    lemma_tally_same(
        l,
        m,
        inp,
        at,
        Binary64::zero(),
        l.qty,
        t * l.assets,
        everyone(l.assets),
    );
    assert(l.book_value(inp, t, at) == dense::book_value(m, inp, t, at));
    assert(s.spendable(l) == z.spendable(m));
    assert(money == dense::funds(z, m, inp, t, d, at));
    assert forall|i: int| 0 <= i < l.assets && !list.contains(i as usize) implies #[trigger] peace(
        s,
        l,
        t,
        i,
    ) && none(inp.weight(l.run, t, d, i)) by {
        assert(!row.contains(i as usize) && !own.contains(i as usize));
        assert(peace(s, l, t, i));
        assert(!keep(i));
    }
    lemma_size_names_twin(s, l, z, m, inp, t, d, at, money, list, l.assets);
    lemma_size_elsewhere(s, l, inp, t, d, at, money, list);
    lemma_size_grows(s, l, inp, t, d, at, money, list);
    let after: Ledger = s.sized(l, inp, t, d, at);
    assert forall|i: int|
        0 <= i < l.assets && list.contains(i as usize) && !after.active[t].contains(
            i as usize,
        ) implies #[trigger] peace(s, after, t, i) by {
        if own.contains(i as usize) {
            assert(after.active[t].contains(i as usize));
        }
        assert(peace(s, l, t, i));
    }
    lemma_still_settled(s, l, s, after, t, list);
}

/// What is remembered of a decision does not depend on the lists.
proof fn lemma_remembered_twin(
    s: PlainState,
    l: Ledger,
    z: PlainState,
    m: Ledger,
    inp: Inputs,
    t: int,
    d: int,
)
    requires
        settled(s, l),
        twin(s, l, z, m),
        0 <= t < l.tranches,
    ensures
        settled(s, l.remembered(inp, t, d)),
        l.remembered(inp, t, d).alike(l),
        twin(s, l.remembered(inp, t, d), z, m.remembered(inp, t, d)),
{
    let a: Ledger = l.remembered(inp, t, d);
    let b: Ledger = m.remembered(inp, t, d);
    assert(a.attained =~= b.attained);
    let whole: bool = forall|i: int|
        0 <= i < l.assets ==> !#[trigger] l.blocked[l.cell(t, i)];
    let full: bool = forall|i: int|
        0 <= i < m.assets ==> !#[trigger] m.blocked[m.cell(t, i)];
    assert(whole == full) by {
        if whole {
            assert forall|i: int| 0 <= i < m.assets implies !#[trigger] m.blocked[m.cell(t, i)] by {
                assert(!l.blocked[l.cell(t, i)]);
            }
        }
        if full {
            assert forall|i: int| 0 <= i < l.assets implies !#[trigger] l.blocked[l.cell(t, i)] by {
                assert(!m.blocked[m.cell(t, i)]);
            }
        }
    }
    assert(a.attained_row =~= b.attained_row);
    assert forall|u: int, i: int|
        0 <= u < l.tranches && 0 <= i < l.assets && !a.active[u].contains(i as usize) implies
        #[trigger] peace(s, a, u, i) by {
        assert(peace(s, l, u, i));
    }
}

/// A decision acted on among the names in play is acted on among all.
proof fn lemma_decided_twin(
    s: PlainState,
    l: Ledger,
    z: PlainState,
    m: Ledger,
    inp: Inputs,
    t: int,
    d: int,
    at: Point,
)
    requires
        settled(s, l),
        twin(s, l, z, m),
        0 <= t < l.tranches,
    ensures
        settled(s.decided(l, inp, t, d, at).0, s.decided(l, inp, t, d, at).1),
        s.decided(l, inp, t, d, at).1.alike(l),
        twin(
            s.decided(l, inp, t, d, at).0,
            s.decided(l, inp, t, d, at).1,
            dense::decided(z, m, inp, t, d, at).0,
            dense::decided(z, m, inp, t, d, at).1,
        ),
{
    let own: Seq<usize> = l.active[t];
    let all: Seq<usize> = everyone(l.assets);
    assert(names::ascending(l.active[t]) && names::bounded(l.active[t], l.assets));
    // What stood is withdrawn.
    let free: PlainState = s.released_all(t, own);
    let loose: PlainState = z.released_all(t, all);
    assert forall|i: int| 0 <= i < l.assets && !own.contains(i as usize) implies #[trigger] peace(
        s,
        l,
        t,
        i,
    ) by {}
    lemma_released_all_twin(s, l, z, m, t, own, l.assets);
    lemma_released_elsewhere(s, l, t, own);
    lemma_still_settled(s, l, free, l, t, own);
    // The decision is sized.
    lemma_sized_twin(free, l, loose, m, inp, t, d, at);
    let sized: Ledger = free.sized(l, inp, t, d, at);
    let spread: Ledger = loose.size_names(
        m,
        inp,
        t,
        d,
        at,
        dense::funds(loose, m, inp, t, d, at),
        all,
    );
    // Sells go before buys.
    let named: Seq<usize> = sized.active[t];
    assert(names::ascending(sized.active[t]) && names::bounded(sized.active[t], sized.assets));
    assert forall|i: int| 0 <= i < l.assets && !named.contains(i as usize) implies #[trigger] peace(
        free,
        sized,
        t,
        i,
    ) by {}
    lemma_sell_names_twin(free, sized, loose, spread, inp, t, at, named, l.assets);
    lemma_sell_elsewhere(free, sized, inp, t, at, named);
    let (sold, after) = free.sell_names(sized, inp, t, at, named);
    let (slack, left) = loose.sell_names(spread, inp, t, at, all);
    assert(grows(sized, after));
    assert forall|i: int|
        0 <= i < l.assets && named.contains(i as usize) && !after.active[t].contains(
            i as usize,
        ) implies #[trigger] peace(sold, after, t, i) by {}
    lemma_still_settled(free, sized, sold, after, t, named);
    assert forall|i: int| 0 <= i < l.assets && !named.contains(i as usize) implies #[trigger] peace(
        sold,
        after,
        t,
        i,
    ) by {}
    lemma_buy_names_twin(sold, after, slack, left, inp, t, at, named, l.assets);
    lemma_buy_elsewhere(sold, after, inp, t, at, named);
    lemma_buy_grows(sold, after, inp, t, at, named);
    let (bought, done) = sold.buy_names(after, inp, t, at, named);
    let (tight, over) = slack.buy_names(left, inp, t, at, all);
    assert forall|i: int|
        0 <= i < l.assets && named.contains(i as usize) && !done.active[t].contains(
            i as usize,
        ) implies #[trigger] peace(bought, done, t, i) by {
        assert(after.active[t].contains(i as usize));
        assert(done.active[t].contains(i as usize));
    }
    lemma_still_settled(sold, after, bought, done, t, named);
    lemma_remembered_twin(bought, done, tight, over, inp, t, d);
}

proof fn lemma_traded_twin(
    s: PlainState,
    l: Ledger,
    z: PlainState,
    m: Ledger,
    inp: Inputs,
    at: Point,
    n: int,
)
    requires
        settled(s, l),
        twin(s, l, z, m),
        0 <= n <= l.tranches,
    ensures
        settled(s.traded(l, inp, at, n).0, s.traded(l, inp, at, n).1),
        s.traded(l, inp, at, n).1.alike(l),
        twin(
            s.traded(l, inp, at, n).0,
            s.traded(l, inp, at, n).1,
            dense::traded(z, m, inp, at, n).0,
            dense::traded(z, m, inp, at, n).1,
        ),
    decreases n,
{
    if n > 0 {
        lemma_traded_twin(s, l, z, m, inp, at, n - 1);
        let (book, after) = s.traded(l, inp, at, n - 1);
        let (y, k) = dense::traded(z, m, inp, at, n - 1);
        let d: int = after.fire[n - 1] as int;
        if d >= 0 {
            lemma_decided_twin(book, after, y, k, inp, n - 1, d, at);
        }
    }
}

/// Marking does not depend on the lists.
proof fn lemma_marked_twin(
    s: PlainState,
    l: Ledger,
    z: PlainState,
    m: Ledger,
    quotes: spec_fn(int) -> Binary64,
)
    requires
        settled(s, l),
        twin(s, l, z, m),
    ensures
        settled(s, l.marked(quotes)),
        twin(s, l.marked(quotes), z, m.marked(quotes)),
{
    let a: Ledger = l.marked(quotes);
    assert(a.last =~= m.marked(quotes).last);
    assert forall|u: int, i: int|
        0 <= u < l.tranches && 0 <= i < l.assets && !a.active[u].contains(i as usize) implies
        #[trigger] peace(s, a, u, i) by {
        assert(peace(s, l, u, i));
    }
}

/// A price point walked on the names in play is walked on every name.
proof fn lemma_point_twin(
    s: PlainState,
    l: Ledger,
    z: PlainState,
    m: Ledger,
    inp: Inputs,
    at: Point,
)
    requires
        settled(s, l),
        l.suits(inp),
        inp.valid(),
        inp.covers(at),
        twin(s, l, z, m),
    ensures
        ({
            let (book, after) = driver::point_walked::<Plain>(s, l, inp, at);
            let (y, k) = dense::point_walked(z, m, inp, at);
            &&& settled(book, after)
            &&& after.suits(inp)
            &&& after.tranches == l.tranches
            &&& after.assets == l.assets
            &&& twin(book, after, y, k)
        }),
{
    let quotes = |i: int| inp.quote(at.phase as int, at.bar as int, i);
    lemma_marked_twin(s, l, z, m, quotes);
    let marked: Ledger = l.marked_at(inp, at);
    let seen: Ledger = m.marked_at(inp, at);
    assert(marked.suits(inp));
    lemma_resolved_twin(s, marked, z, seen, inp, at, l.tranches);
    let ready: Ledger = marked.resolved(inp, at, l.tranches);
    let other: Ledger = dense::resolved(seen, inp, at, l.tranches);
    assert(driver::anybody(ready) == driver::anybody(other)) by {
        if driver::anybody(ready) {
            let t: int = choose|t: int| 0 <= t < ready.tranches && #[trigger] ready.fire[t] >= 0;
            assert(other.fire[t] >= 0);
        }
        if driver::anybody(other) {
            let t: int = choose|t: int| 0 <= t < other.tranches && #[trigger] other.fire[t] >= 0;
            assert(ready.fire[t] >= 0);
        }
    }
    lemma_drained_twin(s, ready, z, other, inp, at);
    let drained: Ledger = ready.drained(inp, at);
    let sold: Ledger = other.pool_sold(inp, at, everyone(l.assets));
    lemma_backfilled_twin(s, drained, z, sold, inp, at, l.tranches);
    let (book, filled) = s.backfilled(drained, inp, at, l.tranches);
    let (y, k) = dense::backfilled(z, sold, inp, at, l.tranches);
    assert(driver::point_walked::<Plain>(s, l, inp, at) == ({
        let read = if driver::anybody(ready) {
            filled.snapshot(inp, at)
        } else {
            filled
        };
        book.traded(read, inp, at, read.tranches)
    }));
    lemma_worth_dense(book, filled, inp, at, l.tranches);
    lemma_worth_same(filled, k, inp, at, l.tranches);
    let read: Ledger = if driver::anybody(ready) {
        filled.snapshot(inp, at)
    } else {
        filled
    };
    let looked: Ledger = if driver::anybody(other) {
        Ledger { equity: dense::worth_of(k, inp, at, l.tranches), ..k }
    } else {
        k
    };
    assert(settled(book, read)) by {
        assert forall|u: int, i: int|
            0 <= u < read.tranches && 0 <= i < read.assets && !read.active[u].contains(
                i as usize,
            ) implies #[trigger] peace(book, read, u, i) by {
            assert(peace(book, filled, u, i));
        }
    }
    assert(twin(book, read, y, looked));
    lemma_traded_twin(book, read, y, looked, inp, at, l.tranches);
    assert(dense::point_walked(z, m, inp, at) == dense::traded(y, looked, inp, at, l.tranches));
}

pub(crate) proof fn lemma_point_covered(inp: Inputs, bar: int, phase: int)
    requires
        inp.valid(),
        0 <= bar < inp.bars(),
        0 <= phase < inp.phases(),
    ensures
        inp.covers(driver::point_of(inp, bar, phase)),
        driver::point_of(inp, bar, phase).bar == bar,
        driver::point_of(inp, bar, phase).phase == phase,
{
    assert(inp.prices@.len() == inp.prices.len());
}

proof fn lemma_points_twin(
    s: PlainState,
    l: Ledger,
    z: PlainState,
    m: Ledger,
    inp: Inputs,
    bar: int,
    n: int,
)
    requires
        settled(s, l),
        l.suits(inp),
        inp.valid(),
        0 <= bar < inp.bars(),
        0 <= n <= inp.phases(),
        twin(s, l, z, m),
    ensures
        ({
            let (book, after) = driver::points_walked::<Plain>(s, l, inp, bar, n);
            let (y, k) = dense::points_walked(z, m, inp, bar, n);
            &&& settled(book, after)
            &&& after.suits(inp)
            &&& after.tranches == l.tranches
            &&& after.assets == l.assets
            &&& twin(book, after, y, k)
        }),
    decreases n,
{
    if n > 0 {
        lemma_points_twin(s, l, z, m, inp, bar, n - 1);
        let (book, after) = driver::points_walked::<Plain>(s, l, inp, bar, n - 1);
        let (y, k) = dense::points_walked(z, m, inp, bar, n - 1);
        lemma_point_covered(inp, bar, n - 1);
        lemma_point_twin(book, after, y, k, inp, driver::point_of(inp, bar, n - 1));
    }
}

/// Corporate actions do not depend on the lists.
proof fn lemma_rescaled_twin(
    s: PlainState,
    l: Ledger,
    z: PlainState,
    m: Ledger,
    inp: Inputs,
    bar: int,
)
    requires
        settled(s, l),
        countable(l, inp, bar),
        twin(s, l, z, m),
    ensures
        settled(s, l.rescaled(inp, bar)),
        twin(s, l.rescaled(inp, bar), z, m.rescaled(inp, bar)),
{
    if inp.has_previous {
        let a: Ledger = l.rescaled(inp, bar);
        let b: Ledger = m.rescaled(inp, bar);
        assert(a.qty =~= b.qty) by {
            assert forall|c: int| 0 <= c < a.qty.len() implies a.qty[c] == b.qty[c] by {
                let i: int = c % l.assets;
                assert(l.rescales(inp, bar, i) == m.rescales(inp, bar, i));
            }
        }
        assert(a.liq =~= b.liq);
        assert(a.last =~= b.last);
        assert forall|c: int| 0 <= c < a.target.len() implies like(
            #[trigger] a.target[c],
            b.target[c],
        ) by {
            let i: int = c % l.assets;
            assert(like(l.target[c], m.target[c]));
            assert(l.rescales(inp, bar, i) == m.rescales(inp, bar, i));
            arithmetic::lemma_like_times(l.target[c], m.target[c], l.ratio(inp, bar, i));
        }
        assert forall|u: int, i: int|
            0 <= u < l.tranches && 0 <= i < l.assets && !a.active[u].contains(i as usize) implies
            #[trigger] peace(s, a, u, i) by {
            assert(peace(s, l, u, i));
            ledger::lemma_cell(l.tranches, l.assets, u, i);
        }
        assert forall|i: int| 0 <= i < l.assets implies Binary64::zero().at_most(
            #[trigger] a.liq[i],
        ) by {
            assert(Binary64::zero().at_most(l.liq[i]));
            assert(!a.liq[i].is_nan());
            if l.rescales(inp, bar, i) && live(l.liq[i]) {
                let quote: Binary64 = inp.reference(bar, i);
                arithmetic::lemma_ratio_not_negative(l.last[i], quote);
                arithmetic::lemma_product_not_negative(l.liq[i], l.ratio(inp, bar, i));
            }
        }
        assert forall|i: int| 0 <= i < l.assets && !a.pool.contains(i as usize) implies none(
            #[trigger] a.liq[i],
        ) by {
            assert(none(l.liq[i]));
            arithmetic::lemma_none(l.liq[i]);
        }
    }
}

pub(crate) proof fn lemma_actions_same(l: Ledger, m: Ledger, inp: Inputs, bar: int, n: int)
    requires
        l.last == m.last,
    ensures
        l.actions_below(inp, bar, n) == m.actions_below(inp, bar, n),
    decreases n,
{
    if n > 0 {
        lemma_actions_same(l, m, inp, bar, n - 1);
    }
}

/// The policy's part of the corporate actions does not depend on the lists.
proof fn lemma_acted_twin(
    s: PlainState,
    l: Ledger,
    z: PlainState,
    m: Ledger,
    actions: Seq<(usize, Binary64)>,
)
    requires
        settled(s, l),
        twin(s, l, z, m),
    ensures
        settled(driver::acted_all::<Plain>(s, l, actions), l),
        twin(
            driver::acted_all::<Plain>(s, l, actions),
            l,
            driver::acted_all::<Plain>(z, m, actions),
            m,
        ),
    decreases actions.len(),
{
    if actions.len() > 0 {
        let front: Seq<(usize, Binary64)> = actions.drop_last();
        let (j, ratio) = actions.last();
        lemma_acted_twin(s, l, z, m, front);
        let a: PlainState = driver::acted_all::<Plain>(s, l, front);
        let b: PlainState = driver::acted_all::<Plain>(z, m, front);
        let x: PlainState = a.acted(j as int, ratio);
        let y: PlainState = b.acted(j as int, ratio);
        assert forall|c: int| 0 <= c < x.budget.len() implies like(
            #[trigger] x.budget[c],
            y.budget[c],
        ) by {
            assert(like(a.budget[c], b.budget[c]));
            arithmetic::lemma_like_compares(a.budget[c], b.budget[c], Binary64::zero());
        }
        assert forall|u: int, i: int|
            0 <= u < l.tranches && 0 <= i < l.assets && !l.active[u].contains(i as usize) implies
            #[trigger] peace(x, l, u, i) by {
            assert(peace(a, l, u, i));
            ledger::lemma_cell(l.tranches, l.assets, u, i);
        }
    }
}

/// A new day on the names in play is a new day on every name.
proof fn lemma_dawned_twin(s: PlainState, l: Ledger, z: PlainState, m: Ledger)
    requires
        settled(s, l),
        twin(s, l, z, m),
    ensures
        settled(s.dawned(l), l),
        twin(s.dawned(l), l, dense::dawned(z, m), m),
{
    let a: PlainState = s.dawned(l);
    assert forall|c: int| 0 <= c < a.budget.len() implies like(
        #[trigger] a.budget[c],
        m.qty[c],
    ) by {
        ledger::lemma_uncell(l.tranches, l.assets, c);
        let t: int = c / l.assets;
        let i: int = c % l.assets;
        if !l.active[t].contains(i as usize) {
            assert(peace(s, l, t, i));
        }
    }
    assert forall|u: int, i: int|
        0 <= u < l.tranches && 0 <= i < l.assets && !l.active[u].contains(i as usize) implies
        #[trigger] peace(a, l, u, i) by {
        assert(peace(s, l, u, i));
        ledger::lemma_cell(l.tranches, l.assets, u, i);
    }
}

/// A morning among the names in play is a morning among all.
proof fn lemma_morning_twin(
    s: PlainState,
    l: Ledger,
    z: PlainState,
    m: Ledger,
    inp: Inputs,
    bar: int,
)
    requires
        settled(s, l),
        l.suits(inp),
        countable(l, inp, bar),
        twin(s, l, z, m),
    ensures
        ({
            let (woken, opened) = driver::morning::<Plain>(s, l, inp, bar);
            let (y, k) = dense::morning(z, m, inp, bar);
            &&& settled(woken, opened)
            &&& opened.suits(inp)
            &&& opened.tranches == l.tranches
            &&& opened.assets == l.assets
            &&& twin(woken, opened, y, k)
        }),
{
    let marked: Ledger = l.rescaled(inp, bar);
    let seen: Ledger = m.rescaled(inp, bar);
    lemma_rescaled_twin(s, l, z, m, inp, bar);
    lemma_actions_same(l, m, inp, bar, l.assets);
    let actions: Seq<(usize, Binary64)> = l.actions(inp, bar);
    lemma_acted_twin(s, marked, z, seen, actions);
    let a: PlainState = driver::acted_all::<Plain>(s, marked, actions);
    let b: PlainState = driver::acted_all::<Plain>(z, seen, actions);
    lemma_dawned_twin(a, marked, b, seen);
    let (woken, opened) = driver::morning::<Plain>(s, l, inp, bar);
    assert forall|u: int, i: int|
        0 <= u < l.tranches && 0 <= i < l.assets && !opened.active[u].contains(
            i as usize,
        ) implies #[trigger] peace(woken, opened, u, i) by {
        assert(peace(woken, marked, u, i));
    }
}

/// Standing orders expire among the names in play as among all.
pub(crate) proof fn lemma_expired_twin(s: PlainState, l: Ledger, z: PlainState, m: Ledger, n: int)
    requires
        settled(s, l),
        twin(s, l, z, m),
        0 <= n <= l.tranches,
    ensures
        settled(s.expired(l, n), l),
        twin(s.expired(l, n), l, dense::expired(z, m, n), m),
    decreases n,
{
    if n > 0 {
        let t: int = n - 1;
        lemma_expired_twin(s, l, z, m, n - 1);
        let a: PlainState = s.expired(l, n - 1);
        let own: Seq<usize> = l.active[t];
        assert(names::ascending(l.active[t]) && names::bounded(l.active[t], l.assets));
        assert forall|i: int| 0 <= i < l.assets && !own.contains(i as usize) implies #[trigger]
            peace(a, l, t, i) by {}
        lemma_released_all_twin(a, l, dense::expired(z, m, n - 1), m, t, own, l.assets);
        lemma_released_elsewhere(a, l, t, own);
        lemma_still_settled(a, l, a.released_all(t, own), l, t, own);
    }
}

/// A bar walked on the names in play is walked on every name.
pub(crate) proof fn lemma_bar_twin(
    s: PlainState,
    l: Ledger,
    z: PlainState,
    m: Ledger,
    inp: Inputs,
    bar: int,
)
    requires
        settled(s, l),
        l.suits(inp),
        inp.valid(),
        0 <= bar < inp.bars(),
        countable(l, inp, bar),
        twin(s, l, z, m),
    ensures
        ({
            let (book, after) = driver::bar_walked::<Plain>(s, l, inp, bar);
            let (y, k) = dense::bar_walked(z, m, inp, bar);
            &&& settled(book, after)
            &&& after.suits(inp)
            &&& after.tranches == l.tranches
            &&& after.assets == l.assets
            &&& twin(book, after, y, k)
        }),
{
    lemma_morning_twin(s, l, z, m, inp, bar);
    let (woken, opened) = driver::morning::<Plain>(s, l, inp, bar);
    let (awake, open) = dense::morning(z, m, inp, bar);
    lemma_points_twin(woken, opened, awake, open, inp, bar, inp.phases());
    let (book, done) = driver::points_walked::<Plain>(woken, opened, inp, bar, inp.phases());
    let (y, k) = dense::points_walked(awake, open, inp, bar, inp.phases());
    lemma_expired_twin(book, done, y, k, done.tranches);
    let quotes = |i: int| inp.close(bar, i);
    lemma_marked_twin(
        book.expired(done, done.tranches),
        done,
        dense::expired(y, k, done.tranches),
        k,
        quotes,
    );
}

/// Forgetting the names at rest forgets nothing but names at peace.
proof fn lemma_swept_settled(s: PlainState, l: Ledger)
    requires
        settled(s, l),
    ensures
        settled(s, l.swept(|t: int, i: int| Plain::rests(s, t, i))),
{
    let at_rest = |t: int, i: int| Plain::rests(s, t, i);
    let after: Ledger = l.swept(at_rest);
    assert forall|u: int| 0 <= u < l.tranches implies names::ascending(
        #[trigger] after.active[u],
    ) && names::bounded(after.active[u], l.assets) by {
        assert(names::ascending(l.active[u]) && names::bounded(l.active[u], l.assets));
        names::lemma_kept(l.active[u], |i: int| !(l.idle(u, i) && at_rest(u, i)));
    }
    assert forall|u: int, i: int|
        0 <= u < l.tranches && 0 <= i < l.assets && !after.active[u].contains(i as usize) implies
        #[trigger] peace(s, after, u, i) by {
        names::lemma_kept(l.active[u], |i: int| !(l.idle(u, i) && at_rest(u, i)));
        if !l.active[u].contains(i as usize) {
            assert(peace(s, l, u, i));
        }
    }
}

/// A fresh account is settled.
pub(crate) proof fn lemma_start_settled(inp: Inputs, run: int)
    requires
        inp.valid(),
        0 <= run < inp.runs(),
    ensures
        settled(driver::start::<Plain>(inp, run).0, driver::start::<Plain>(inp, run).1),
        driver::start::<Plain>(inp, run).1.suits(inp),
{
    let (s, l) = driver::start::<Plain>(inp, run);
    assert(inp.plan.shape()[0] >= 0 && inp.plan.shape()[1] >= 0 && inp.plan.shape()[2] >= 0
        && inp.plan.shape()[3] >= 0);
    assert(0 <= l.tranches * l.assets) by (nonlinear_arith)
        requires
            0 <= l.tranches,
            0 <= l.assets,
    ;
    arithmetic::lemma_none(Binary64::zero());
    assert forall|u: int, i: int|
        0 <= u < l.tranches && 0 <= i < l.assets && !l.active[u].contains(i as usize) implies
        #[trigger] peace(s, l, u, i) by {
        ledger::lemma_cell(l.tranches, l.assets, u, i);
    }
}

/// The names a settled account has in play are all it holds.
proof fn lemma_holds_in_play(s: PlainState, l: Ledger, i: int)
    requires
        settled(s, l),
        0 <= i < l.assets,
        !l.names_of(l.tranches).contains(i as usize),
    ensures
        none(l.holds(i)),
{
    l.lemma_names_of(l.tranches);
    assert forall|t: int| 0 <= t < l.tranches implies none(
        l.qty[#[trigger] l.cell(t, i)],
    ) by {
        assert(!l.active[t].contains(i as usize));
        assert(peace(s, l, t, i));
    }
    lemma_held_none(l, l.tranches, i);
}

/// A settled account closes with the same equity over the names in play as
/// over every name, whether or not positions are reported.
pub proof fn lemma_closing_dense(s: PlainState, l: Ledger, inp: Inputs, at: Point)
    requires
        settled(s, l),
    ensures
        l.closing_equity(inp, at) == dense::closing_equity(l, inp, at),
{
    if !inp.record_positions {
        l.lemma_names_of(l.tranches);
        assert forall|i: int|
            0 <= i < l.assets && !l.names_of(l.tranches).contains(i as usize) implies none(
            #[trigger] l.holds(i),
        ) by {
            lemma_holds_in_play(s, l, i);
        }
        lemma_holdings_dense(l, inp, at, l.names_of(l.tranches), l.assets);
    }
}

/// A run over the names in play stands where a run over every name does.
pub(crate) proof fn lemma_walked_twin(inp: Inputs, run: int, n: int)
    requires
        inp.valid(),
        0 <= run < inp.runs(),
        0 <= n <= inp.bars(),
        forall|b: int|
            0 <= b < n ==> countable(#[trigger] driver::walked::<Plain>(inp, run, b).1, inp, b),
    ensures
        ({
            let (s, l) = driver::walked::<Plain>(inp, run, n);
            let (z, m) = dense::walked(inp, run, n);
            &&& settled(s, l)
            &&& l.suits(inp)
            &&& twin(s, l, z, m)
        }),
    decreases n,
{
    if n <= 0 {
        lemma_start_settled(inp, run);
    } else {
        lemma_walked_twin(inp, run, n - 1);
        let (s, l) = driver::walked::<Plain>(inp, run, n - 1);
        let (z, m) = dense::walked(inp, run, n - 1);
        lemma_bar_twin(s, l, z, m, inp, n - 1);
        let (book, after) = driver::bar_walked::<Plain>(s, l, inp, n - 1);
        lemma_swept_settled(book, after);
    }
}

}
