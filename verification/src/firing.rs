//! Who decides at a price point.
//!
//! A firing acts unless it stands and asks for what its book has attained
//! already. Whether it acts or not, what is stuck at the limit leaves the
//! tranche for the pool.

use vstd::prelude::*;

use crate::arithmetic;
use crate::binary64::Binary64;
use crate::grid;
use crate::inputs::{Inputs, Point};
use crate::ledger;
use crate::ledger::{live, Ledger};
use crate::names;
use crate::twin;

verus! {

/// What impounding a list of names does to one name.
proof fn lemma_impounded(l: Ledger, inp: Inputs, at: Point, t: int, list: Seq<usize>, i: int)
    requires
        l.wf(),
        0 <= t < l.tranches,
        0 <= i < l.assets,
        names::bounded(list, l.assets),
        names::ascending(list),
    ensures
        ({
            let c = l.cell(t, i);
            let moved = list.contains(i as usize) && inp.stuck(at.phase as int, at.bar as int, i)
                && live(l.qty[c]);
            let m = l.impounded(inp, at, t, list);
            &&& m.qty[c] == if moved {
                Binary64::zero()
            } else {
                l.qty[c]
            }
            &&& m.liq[i] == if moved {
                l.liq[i].plus(l.qty[c])
            } else {
                l.liq[i]
            }
            &&& m.pool.contains(i as usize) <==> l.pool.contains(i as usize) || moved
        }),
    decreases list.len(),
{
    if list.len() > 0 {
        let front: Seq<usize> = list.drop_last();
        let j: int = list.last() as int;
        twin::lemma_bounded_front(list, l.assets);
        assert(names::ascending(front)) by {
            assert forall|a: int, b: int| 0 <= a < b < front.len() implies front[a] < front[b] by {
                assert(list[a] < list[b]);
            }
        }
        assert(list[list.len() - 1] < l.assets);
        lemma_impounded(l, inp, at, t, front, i);
        lemma_impounded(l, inp, at, t, front, j);
        let mid: Ledger = l.impounded(inp, at, t, front);
        l.lemma_impounded(inp, at, t, front);
        ledger::lemma_cell(l.tranches, l.assets, t, i);
        ledger::lemma_cell(l.tranches, l.assets, t, j);
        names::lemma_inserted(mid.pool, j as usize);
        assert(!front.contains(j as usize)) by {
            if front.contains(j as usize) {
                let k: int = choose|k: int| 0 <= k < front.len() && front[k] == j;
                assert(list[k] < list[list.len() - 1]);
            }
        }
        assert(list.contains(i as usize) <==> front.contains(i as usize) || i == j) by {
            if front.contains(i as usize) {
                let k: int = choose|k: int| 0 <= k < front.len() && front[k] == i;
                assert(list[k] == i);
            }
            if list.contains(i as usize) && i != j {
                let k: int = choose|k: int| 0 <= k < list.len() && list[k] == i;
                assert(front[k] == i);
            }
            assert(list[list.len() - 1] == j);
        }
    }
}

/// Impounding a tranche's names leaves the other tranches alone.
proof fn lemma_impounded_elsewhere(l: Ledger, inp: Inputs, at: Point, t: int, list: Seq<usize>)
    requires
        l.wf(),
        0 <= t < l.tranches,
        names::bounded(list, l.assets),
    ensures
        forall|c: int|
            0 <= c < l.qty.len() && c / l.assets != t ==> #[trigger] l.impounded(
                inp,
                at,
                t,
                list,
            ).qty[c] == l.qty[c],
    decreases list.len(),
{
    if list.len() > 0 {
        let front: Seq<usize> = list.drop_last();
        let j: int = list.last() as int;
        twin::lemma_bounded_front(list, l.assets);
        assert(list[list.len() - 1] < l.assets);
        lemma_impounded_elsewhere(l, inp, at, t, front);
        l.lemma_impounded(inp, at, t, front);
        ledger::lemma_cell(l.tranches, l.assets, t, j);
        let mid: Ledger = l.impounded(inp, at, t, front);
        assert forall|c: int| 0 <= c < l.qty.len() && c / l.assets != t implies #[trigger]
            l.impounded(inp, at, t, list).qty[c] == l.qty[c] by {
            assert(mid.qty[c] == l.qty[c]);
        }
    }
}

/// Resolving the first firings leaves what the books attained, and what the
/// other tranches hold, as it is.
proof fn lemma_resolved(l: Ledger, inp: Inputs, at: Point, n: int)
    requires
        l.wf(),
        l.suits(inp),
        inp.valid(),
        inp.covers(at),
        0 <= n <= l.tranches,
    ensures
        l.resolved(inp, at, n).wf(),
        l.resolved(inp, at, n).suits(inp),
        l.resolved(inp, at, n) == (Ledger {
            liq: l.resolved(inp, at, n).liq,
            qty: l.resolved(inp, at, n).qty,
            pool: l.resolved(inp, at, n).pool,
            fire: l.resolved(inp, at, n).fire,
            ..l
        }),
        forall|c: int|
            0 <= c < l.qty.len() && c / l.assets >= n ==> #[trigger] l.resolved(inp, at, n).qty[c]
                == l.qty[c],
    decreases n,
{
    if n > 0 {
        lemma_resolved(l, inp, at, n - 1);
        let mid: Ledger = l.resolved(inp, at, n - 1);
        mid.lemma_fired(inp, at, n - 1);
        assert(names::bounded(mid.active[n - 1], mid.assets));
        lemma_impounded_elsewhere(mid, inp, at, n - 1, mid.active[n - 1]);
        assert forall|c: int| 0 <= c < l.qty.len() && c / l.assets >= n implies #[trigger]
            l.resolved(inp, at, n).qty[c] == l.qty[c] by {
            assert(mid.qty[c] == l.qty[c]);
        }
    }
}

/// What the first tranches' firings come to, and what the tranches hold then,
/// does not depend on the tranches after them.
proof fn lemma_resolved_stays(l: Ledger, inp: Inputs, at: Point, n: int, m: int)
    requires
        l.wf(),
        l.suits(inp),
        inp.valid(),
        inp.covers(at),
        0 <= n <= m <= l.tranches,
    ensures
        forall|t: int|
            0 <= t < n ==> #[trigger] l.resolved(inp, at, m).fire[t] == l.resolved(
                inp,
                at,
                n,
            ).fire[t],
        forall|c: int|
            0 <= c < l.qty.len() && c / l.assets < n ==> #[trigger] l.resolved(inp, at, m).qty[c]
                == l.resolved(inp, at, n).qty[c],
    decreases m,
{
    if n < m {
        lemma_resolved_stays(l, inp, at, n, m - 1);
        lemma_resolved(l, inp, at, m - 1);
        let mid: Ledger = l.resolved(inp, at, m - 1);
        mid.lemma_fired(inp, at, m - 1);
        mid.lemma_impounded(inp, at, m - 1, mid.active[m - 1]);
        assert(names::bounded(mid.active[m - 1], mid.assets));
        lemma_impounded_elsewhere(mid, inp, at, m - 1, mid.active[m - 1]);
        assert forall|t: int| 0 <= t < n implies #[trigger] l.resolved(inp, at, m).fire[t]
            == l.resolved(inp, at, n).fire[t] by {
            assert(mid.fire[t] == l.resolved(inp, at, n).fire[t]);
        }
        assert forall|c: int| 0 <= c < l.qty.len() && c / l.assets < n implies #[trigger]
            l.resolved(inp, at, m).qty[c] == l.resolved(inp, at, n).qty[c] by {
            assert(mid.qty[c] == l.resolved(inp, at, n).qty[c]);
        }
    }
}

/// A firing acts where it asks for anything but what its book attained: if
/// the weight asked for and the weight attained of any name are numbers of
/// different value, or just one of them is missing, and the decision is not
/// the one attained whole, then that decision is what the tranche fires,
/// whether it stands or not.
pub proof fn law_a_changed_answer_acts(l: Ledger, inp: Inputs, at: Point, t: int, i: int)
    requires
        l.wf(),
        l.suits(inp),
        inp.valid(),
        inp.covers(at),
        0 <= t < l.tranches,
        0 <= i < l.assets,
        ({
            let d = inp.at.code(seq![l.run, t, at.bar as int, at.phase as int]) as int;
            let asked = inp.plan.number(seq![l.run, t, d, i]);
            let attained = l.attained[t * l.assets + i];
            &&& d >= 0
            &&& d != l.attained_row[t]
            &&& asked.is_nan() != attained.is_nan() || !asked.is_nan() && asked.value()
                != attained.value()
        }),
    ensures
        l.resolved(inp, at, l.tranches).fire[t] == inp.at.code(
            seq![l.run, t, at.bar as int, at.phase as int],
        ),
{
    let d: int = inp.at.code(seq![l.run, t, at.bar as int, at.phase as int]) as int;
    let asked: Binary64 = inp.plan.number(grid::quad(l.run, t, d, i));
    law_what_fires(l, inp, at, t);
}

/// What a tranche fires at a point: nothing if it has no firing there, and
/// its decision if the firing does not stand; a firing that stands is silent
/// exactly if its decision was attained whole, or if every name's weight and
/// the weight attained are the same number or both missing.
pub proof fn law_what_fires(l: Ledger, inp: Inputs, at: Point, t: int)
    requires
        l.wf(),
        l.suits(inp),
        inp.valid(),
        inp.covers(at),
        0 <= t < l.tranches,
    ensures
        ({
            let place = seq![l.run, t, at.bar as int, at.phase as int];
            let d = inp.at.code(place) as int;
            let fire = l.resolved(inp, at, l.tranches).fire[t];
            &&& d < 0 ==> fire == -1
            &&& d >= 0 && inp.standing.word(place) == 0 ==> fire == d
            &&& d >= 0 && inp.standing.word(place) != 0 ==> {
                let attained_whole = d == l.attained_row[t];
                let attained_each = forall|i: int|
                    0 <= i < l.assets ==> {
                        let asked = inp.plan.number(#[trigger] grid::quad(l.run, t, d, i));
                        let attained = l.attained[t * l.assets + i];
                        asked.is_nan() && attained.is_nan() || !asked.is_nan()
                            && !attained.is_nan() && asked.value() == attained.value()
                    };
                fire == if attained_whole || attained_each {
                    -1
                } else {
                    d
                }
            }
        }),
{
    let place: Seq<int> = seq![l.run, t, at.bar as int, at.phase as int];
    let d: int = inp.at.code(place) as int;
    lemma_resolved(l, inp, at, t);
    lemma_resolved_stays(l, inp, at, t + 1, l.tranches);
    let mid: Ledger = l.resolved(inp, at, t);
    mid.lemma_fired(inp, at, t);
    mid.lemma_impounded(inp, at, t, mid.active[t]);
    let after: Ledger = if d >= 0 {
        mid.impounded(inp, at, t, mid.active[t])
    } else {
        mid
    };
    let fire: i64 = l.resolved(inp, at, l.tranches).fire[t];
    assert(fire == l.resolved(inp, at, t + 1).fire[t]);
    assert(inp.firing(l.run, t, at.bar as int, at.phase as int) == d);
    assert(after.attained == l.attained && after.attained_row == l.attained_row);
    let attained_each: bool = forall|i: int|
        0 <= i < l.assets ==> {
            let asked = inp.plan.number(#[trigger] grid::quad(l.run, t, d, i));
            let attained = l.attained[t * l.assets + i];
            asked.is_nan() && attained.is_nan() || !asked.is_nan() && !attained.is_nan()
                && asked.value() == attained.value()
        };
    if d >= 0 {
        if after.attains(inp, t, d) {
            assert forall|i: int| 0 <= i < l.assets implies {
                let asked = inp.plan.number(#[trigger] grid::quad(l.run, t, d, i));
                let attained = l.attained[t * l.assets + i];
                asked.is_nan() && attained.is_nan() || !asked.is_nan() && !attained.is_nan()
                    && asked.value() == attained.value()
            } by {
                let attained: Binary64 = after.attained[after.cell(t, i)];
            }
            assert(attained_each);
        } else if attained_each {
            assert forall|i: int| 0 <= i < after.assets implies {
                let asked = inp.weight(after.run, t, d, i);
                let attained = #[trigger] after.attained[after.cell(t, i)];
                asked.equals(attained) || (asked.is_nan() && attained.is_nan())
            } by {
                let asked: Binary64 = inp.plan.number(grid::quad(l.run, t, d, i));
            }
        }
    }
}

/// What a tranche holds once the firings are resolved: nothing of a name it
/// is doing something with that is stuck at the limit, if it held units of it
/// and has a firing at the point, whether that acts or not; of every other
/// name what it held.
pub proof fn law_what_is_stuck_leaves_its_tranche(l: Ledger, inp: Inputs, at: Point, t: int, i: int)
    requires
        l.wf(),
        l.suits(inp),
        inp.valid(),
        inp.covers(at),
        0 <= t < l.tranches,
        0 <= i < l.assets,
    ensures
        ({
            let c = t * l.assets + i;
            let d = inp.at.code(seq![l.run, t, at.bar as int, at.phase as int]);
            let stuck = at.phase < inp.impound@.len() && inp.impound@[at.phase as int].word(
                seq![at.bar as int, i],
            ) != 0;
            let leaves = d >= 0 && l.active[t].contains(i as usize) && stuck
                && !l.qty[c].is_nan() && 0 < l.qty[c].value();
            let before = l.resolved(inp, at, t);
            let after = l.resolved(inp, at, t + 1);
            &&& l.resolved(inp, at, l.tranches).qty[c] == if leaves {
                Binary64 { bits: 0 }
            } else {
                l.qty[c]
            }
            &&& after.liq[i] == if leaves {
                before.liq[i].plus(l.qty[c])
            } else {
                before.liq[i]
            }
            &&& after.pool.contains(i as usize) <==> before.pool.contains(i as usize) || leaves
        }),
{
    let c: int = t * l.assets + i;
    let d: int = inp.at.code(seq![l.run, t, at.bar as int, at.phase as int]) as int;
    ledger::lemma_cell(l.tranches, l.assets, t, i);
    lemma_resolved(l, inp, at, t);
    lemma_resolved_stays(l, inp, at, t + 1, l.tranches);
    let before: Ledger = l.resolved(inp, at, t);
    let after: Ledger = l.resolved(inp, at, t + 1);
    assert(inp.firing(l.run, t, at.bar as int, at.phase as int) == d);
    assert(before.qty[c] == l.qty[c]);
    assert(l.resolved(inp, at, l.tranches).qty[c] == after.qty[c]);
    arithmetic::lemma_sign(l.qty[c]);
    assert(names::bounded(before.active[t], before.assets));
    lemma_impounded(before, inp, at, t, before.active[t], i);
}

/// Before any firing is resolved the pool is as it was, and when all are it
/// holds just what the tranches gave up to it: nothing else of the account
/// moves.
pub proof fn law_resolving_moves_only_what_is_stuck(l: Ledger, inp: Inputs, at: Point)
    requires
        l.wf(),
        l.suits(inp),
        inp.valid(),
        inp.covers(at),
    ensures
        l.resolved(inp, at, 0) == l,
        ({
            let m = l.resolved(inp, at, l.tranches);
            &&& m.run == l.run
            &&& m.tranches == l.tranches
            &&& m.assets == l.assets
            &&& m.cash == l.cash
            &&& m.target == l.target
            &&& m.last == l.last
            &&& m.attained == l.attained
            &&& m.attained_row == l.attained_row
            &&& m.blocked == l.blocked
            &&& m.active == l.active
            &&& m.fees == l.fees
            &&& m.bought == l.bought
            &&& m.sold == l.sold
            &&& m.equity == l.equity
            &&& m.record_fills == l.record_fills
            &&& m.fills == l.fills
        }),
{
    lemma_resolved(l, inp, at, l.tranches);
}

}
