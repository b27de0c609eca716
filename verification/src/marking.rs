//! What a mark does to the books.
//!
//! Before a bar opens, a name is marked at the reference close, and where
//! that moved away from the last quote the units follow, so that a mark moves
//! no money. A price point and the close mark the names they quote.

use vstd::prelude::*;

use crate::arithmetic;
use crate::binary64::{one_unit, Binary64};
use crate::bookkeeping::{Bookkeeping, Plain};
use crate::driver;
use crate::grid;
use crate::inputs::{Inputs, Point};
use crate::ledger;
use crate::ledger::{none, Ledger};
use crate::plain::PlainState;

verus! {

/// Every name whose reference close and last quote are numbers above zero of
/// different value has its units scaled: those of every book, and what the
/// book asks for with them, and those of the pool, by the last quote over the
/// reference close, whatever the two are. A book without units keeps what it
/// asks for.
pub proof fn law_a_moved_reference_scales_the_units(
    l: Ledger,
    inp: Inputs,
    bar: int,
    t: int,
    i: int,
)
    requires
        l.wf(),
        inp.has_previous,
        0 <= t < l.tranches,
        0 <= i < l.assets,
        ({
            let close = inp.previous.number(seq![bar, i]);
            let quote = l.last[i];
            &&& !close.is_nan()
            &&& !quote.is_nan()
            &&& 0 < close.value()
            &&& 0 < quote.value()
            &&& quote.value() != close.value()
        }),
    ensures
        ({
            let c = t * l.assets + i;
            let close = inp.previous.number(seq![bar, i]);
            let ratio = l.last[i].over(close);
            let after = l.rescaled(inp, bar);
            &&& after.last[i] == close
            &&& l.qty[c].is_nan() || l.qty[c].value() != 0 ==> {
                &&& after.qty[c] == l.qty[c].times(ratio)
                &&& after.target[c] == l.target[c].times(ratio)
            }
            &&& !l.qty[c].is_nan() && l.qty[c].value() == 0 ==> {
                &&& after.qty[c] == l.qty[c]
                &&& after.target[c] == l.target[c]
            }
            &&& after.liq[i] == if !l.liq[i].is_nan() && 0 < l.liq[i].value() {
                l.liq[i].times(ratio)
            } else {
                l.liq[i]
            }
        }),
{
    let c: int = t * l.assets + i;
    ledger::lemma_cell(l.tranches, l.assets, t, i);
    arithmetic::lemma_sign(inp.previous.number(seq![bar, i]));
    arithmetic::lemma_sign(l.last[i]);
    arithmetic::lemma_sign(l.qty[c]);
    arithmetic::lemma_sign(l.liq[i]);
}

/// A name that did not move keeps its units and what is asked for of it. One
/// without a reference close, a number above zero, keeps its last quote too;
/// one that was not quoted yet, or is quoted there already, is marked at it.
/// Without reference closes no name is marked.
pub proof fn law_an_unmoved_name_is_not_scaled(l: Ledger, inp: Inputs, bar: int, t: int, i: int)
    requires
        l.wf(),
        0 <= t < l.tranches,
        0 <= i < l.assets,
    ensures
        ({
            let c = t * l.assets + i;
            let close = inp.previous.number(seq![bar, i]);
            let quote = l.last[i];
            let there = inp.has_previous && !close.is_nan() && 0 < close.value();
            let quoted = !quote.is_nan() && 0 < quote.value();
            let after = l.rescaled(inp, bar);
            &&& !there || !quoted || quote.value() == close.value() ==> {
                &&& after.qty[c] == l.qty[c]
                &&& after.target[c] == l.target[c]
                &&& after.liq[i] == l.liq[i]
            }
            &&& there ==> after.last[i] == close
            &&& !there ==> after.last[i] == l.last[i]
        }),
{
    ledger::lemma_cell(l.tranches, l.assets, t, i);
    arithmetic::lemma_sign(inp.previous.number(seq![bar, i]));
    arithmetic::lemma_sign(l.last[i]);
}

/// Marking at the reference close touches units, targets and quotes, and
/// nothing else of the account; it takes no table and no name away.
pub proof fn law_a_mark_touches_nothing_else(l: Ledger, inp: Inputs, bar: int)
    requires
        l.wf(),
    ensures
        ({
            let m = l.rescaled(inp, bar);
            &&& m.wf()
            &&& m.run == l.run
            &&& m.tranches == l.tranches
            &&& m.assets == l.assets
            &&& m.cash == l.cash
            &&& m.attained == l.attained
            &&& m.attained_row == l.attained_row
            &&& m.fire == l.fire
            &&& m.blocked == l.blocked
            &&& m.active == l.active
            &&& m.pool == l.pool
            &&& m.fees == l.fees
            &&& m.bought == l.bought
            &&& m.sold == l.sold
            &&& m.equity == l.equity
            &&& m.record_fills == l.record_fills
            &&& m.fills == l.fills
        }),
{
}

/// Whether a product is not rounded.
pub open spec fn exact_times(a: Binary64, b: Binary64) -> bool {
    a.times(b).is_finite() && a.times(b).value() * one_unit() == a.value() * b.value()
}

/// Whether a quotient is not rounded.
pub open spec fn exact_over(a: Binary64, b: Binary64) -> bool {
    a.over(b).is_finite() && a.over(b).value() * b.value() == a.value() * one_unit()
}

proof fn lemma_scaled_worth(units: Binary64, quote: Binary64, close: Binary64)
    requires
        exact_over(quote, close),
        exact_times(units, quote.over(close)),
    ensures
        units.times(quote.over(close)).value() * close.value() == units.value() * quote.value(),
{
    let u: int = units.value();
    let q: int = quote.value();
    let c: int = close.value();
    let r: int = quote.over(close).value();
    let v: int = units.times(quote.over(close)).value();
    let one: int = one_unit() as int;
    vstd::arithmetic::power2::lemma_pow2_pos(1074);
    assert((v * c) * one == (u * q) * one) by (nonlinear_arith)
        requires
            v * one == u * r,
            r * c == q * one,
    ;
    assert(v * c == u * q) by (nonlinear_arith)
        requires
            (v * c) * one == (u * q) * one,
            one > 0,
    ;
}

/// A mark moves no money: of a name quoted above zero before and marked above
/// zero, units times quote is the same after the mark as before it, in every
/// book and in the pool, where neither the ratio nor the units are rounded.
pub proof fn law_a_mark_moves_no_money(l: Ledger, inp: Inputs, bar: int, t: int, i: int)
    requires
        l.wf(),
        inp.has_previous,
        0 <= t < l.tranches,
        0 <= i < l.assets,
        ({
            let c = t * l.assets + i;
            let close = inp.previous.number(seq![bar, i]);
            let quote = l.last[i];
            &&& !close.is_nan()
            &&& !quote.is_nan()
            &&& 0 < close.value()
            &&& 0 < quote.value()
            &&& exact_over(quote, close)
            &&& !l.qty[c].is_nan()
            &&& exact_times(l.qty[c], quote.over(close))
            &&& !l.liq[i].is_nan()
            &&& 0 <= l.liq[i].value()
            &&& exact_times(l.liq[i], quote.over(close))
        }),
    ensures
        ({
            let c = t * l.assets + i;
            let after = l.rescaled(inp, bar);
            &&& after.qty[c].value() * after.last[i].value() == l.qty[c].value() * l.last[i].value()
            &&& after.liq[i].value() * after.last[i].value() == l.liq[i].value() * l.last[i].value()
        }),
{
    let c: int = t * l.assets + i;
    let close: Binary64 = inp.previous.number(seq![bar, i]);
    let quote: Binary64 = l.last[i];
    if quote.value() != close.value() {
        law_a_moved_reference_scales_the_units(l, inp, bar, t, i);
        lemma_scaled_worth(l.qty[c], quote, close);
        lemma_scaled_worth(l.liq[i], quote, close);
        if l.qty[c].value() == 0 {
            assert(0 * close.value() == 0 && 0 * quote.value() == 0);
        }
        if l.liq[i].value() == 0 {
            assert(0 * close.value() == 0 && 0 * quote.value() == 0);
        }
    } else {
        law_an_unmoved_name_is_not_scaled(l, inp, bar, t, i);
    }
}

/// Whether name `i` is handed to the policy with the first `n` names' actions.
proof fn lemma_actions(l: Ledger, inp: Inputs, bar: int, n: int)
    requires
        l.wf(),
        0 <= n <= l.assets,
    ensures
        forall|k: int|
            #![trigger l.actions_below(inp, bar, n)[k]]
            0 <= k < l.actions_below(inp, bar, n).len() ==> {
                let (i, ratio) = l.actions_below(inp, bar, n)[k];
                &&& i < n
                &&& l.rescales(inp, bar, i as int)
                &&& ratio == l.last[i as int].over(inp.reference(bar, i as int))
            },
        forall|j: int, k: int|
            0 <= j < k < l.actions_below(inp, bar, n).len() ==> l.actions_below(inp, bar, n)[j].0
                < l.actions_below(inp, bar, n)[k].0,
        forall|i: int|
            0 <= i < n && #[trigger] l.rescales(inp, bar, i) ==> exists|k: int|
                0 <= k < l.actions_below(inp, bar, n).len() && #[trigger] l.actions_below(
                    inp,
                    bar,
                    n,
                )[k].0 == i,
    decreases n,
{
    if n > 0 {
        lemma_actions(l, inp, bar, n - 1);
        let rest: Seq<(usize, Binary64)> = l.actions_below(inp, bar, n - 1);
        let all: Seq<(usize, Binary64)> = l.actions_below(inp, bar, n);
        assert forall|k: int| #![trigger all[k]] 0 <= k < all.len() implies {
            let (i, ratio) = all[k];
            &&& i < n
            &&& l.rescales(inp, bar, i as int)
            &&& ratio == l.last[i as int].over(inp.reference(bar, i as int))
        } by {
            if k < rest.len() {
                assert(all[k] == rest[k]);
            }
        }
        assert forall|j: int, k: int| 0 <= j < k < all.len() implies all[j].0 < all[k].0 by {
            assert(all[j] == rest[j]);
            if k < rest.len() {
                assert(all[k] == rest[k]);
                assert(rest[j].0 < rest[k].0);
            }
        }
        assert forall|i: int| 0 <= i < n && #[trigger] l.rescales(inp, bar, i) implies exists|k: int|
            0 <= k < all.len() && #[trigger] all[k].0 == i by {
            if i < n - 1 {
                let k: int = choose|k: int| 0 <= k < rest.len() && #[trigger] rest[k].0 == i;
                assert(all[k].0 == i);
            } else {
                assert(all[all.len() - 1].0 == i);
            }
        }
    }
}

/// What the policy is told of a bar's corporate actions: each name whose
/// reference close and last quote are numbers above zero of different value,
/// once, ascending, with the last quote over the reference close.
pub proof fn law_every_moved_name_is_handed_on(l: Ledger, inp: Inputs, bar: int)
    requires
        l.wf(),
    ensures
        ({
            let told = l.actions(inp, bar);
            let moved = |i: int|
                {
                    let close = inp.previous.number(seq![bar, i]);
                    let quote = l.last[i];
                    &&& inp.has_previous
                    &&& !close.is_nan()
                    &&& !quote.is_nan()
                    &&& 0 < close.value()
                    &&& 0 < quote.value()
                    &&& quote.value() != close.value()
                };
            &&& forall|k: int|
                0 <= k < told.len() ==> {
                    let i = (#[trigger] told[k]).0 as int;
                    &&& i < l.assets
                    &&& moved(i)
                    &&& told[k].1 == l.last[i].over(inp.previous.number(seq![bar, i]))
                }
            &&& forall|j: int, k: int| 0 <= j < k < told.len() ==> told[j].0 < told[k].0
            &&& forall|i: int|
                0 <= i < l.assets && #[trigger] moved(i) ==> exists|k: int|
                    0 <= k < told.len() && #[trigger] told[k].0 == i
        }),
{
    let told: Seq<(usize, Binary64)> = l.actions(inp, bar);
    let moved = |i: int|
        {
            let close = inp.previous.number(seq![bar, i]);
            let quote = l.last[i];
            &&& inp.has_previous
            &&& !close.is_nan()
            &&& !quote.is_nan()
            &&& 0 < close.value()
            &&& 0 < quote.value()
            &&& quote.value() != close.value()
        };
    if inp.has_previous {
        lemma_actions(l, inp, bar, l.assets);
        assert forall|i: int| 0 <= i < l.assets implies (#[trigger] moved(i) <==> l.rescales(
            inp,
            bar,
            i,
        )) by {
            arithmetic::lemma_sign(inp.previous.number(seq![bar, i]));
            arithmetic::lemma_sign(l.last[i]);
        }
        assert forall|k: int| 0 <= k < told.len() implies {
            let i = (#[trigger] told[k]).0 as int;
            &&& i < l.assets
            &&& moved(i)
            &&& told[k].1 == l.last[i].over(inp.previous.number(seq![bar, i]))
        } by {
            let i: int = told[k].0 as int;
            assert(l.actions_below(inp, bar, l.assets)[k] == told[k]);
            assert(moved(i) <==> l.rescales(inp, bar, i));
        }
        assert forall|i: int| 0 <= i < l.assets && #[trigger] moved(i) implies exists|k: int|
            0 <= k < told.len() && #[trigger] told[k].0 == i by {
            assert(l.rescales(inp, bar, i));
        }
    }
}

/// What a cell's budget comes to when a list of actions is applied.
proof fn lemma_acted(s: PlainState, l: Ledger, told: Seq<(usize, Binary64)>, t: int, i: int)
    requires
        l.wf(),
        s.fits(l.tranches, l.assets),
        0 <= t < l.tranches,
        0 <= i < l.assets,
        forall|j: int, k: int| 0 <= j < k < told.len() ==> told[j].0 < told[k].0,
        forall|k: int| 0 <= k < told.len() ==> (#[trigger] told[k]).0 < l.assets,
    ensures
        ({
            let c = l.cell(t, i);
            let z = driver::acted_all::<Plain>(s, l, told);
            &&& z.fits(l.tranches, l.assets)
            &&& z.locked == s.locked
            &&& z.locked_total == s.locked_total
            &&& (forall|k: int| 0 <= k < told.len() ==> (#[trigger] told[k]).0 != i)
                ==> z.budget[c] == s.budget[c]
            &&& forall|k: int|
                0 <= k < told.len() && (#[trigger] told[k]).0 == i ==> z.budget[c] == if none(
                    s.budget[c],
                ) {
                    s.budget[c]
                } else {
                    s.budget[c].times(told[k].1)
                }
        }),
    decreases told.len(),
{
    if told.len() > 0 {
        let front: Seq<(usize, Binary64)> = told.drop_last();
        let (j, ratio) = told.last();
        assert forall|a: int, b: int| 0 <= a < b < front.len() implies front[a].0 < front[b].0 by {
            assert(told[a].0 < told[b].0);
        }
        assert forall|k: int| 0 <= k < front.len() implies (#[trigger] front[k]).0 < l.assets by {
            assert(told[k].0 < l.assets);
        }
        lemma_acted(s, l, front, t, i);
        let c: int = l.cell(t, i);
        ledger::lemma_cell(l.tranches, l.assets, t, i);
        let y: PlainState = driver::acted_all::<Plain>(s, l, front);
        let z: PlainState = driver::acted_all::<Plain>(s, l, told);
        assert(z == y.acted(j as int, ratio));
        assert(told[told.len() - 1] == (j, ratio));
        if j == i {
            assert forall|k: int| 0 <= k < front.len() implies (#[trigger] front[k]).0 != i by {
                assert(told[k].0 < told[told.len() - 1].0);
            }
            assert(y.budget[c] == s.budget[c]);
        } else if forall|k: int| 0 <= k < told.len() ==> (#[trigger] told[k]).0 != i {
            assert forall|k: int| 0 <= k < front.len() implies (#[trigger] front[k]).0 != i by {
                assert(told[k].0 != i);
            }
        }
        assert forall|k: int| 0 <= k < told.len() && (#[trigger] told[k]).0 == i implies z.budget[c]
            == if none(s.budget[c]) {
            s.budget[c]
        } else {
            s.budget[c].times(told[k].1)
        } by {
            if k < front.len() {
                assert(front[k].0 == i);
                assert(told[k].0 < told[told.len() - 1].0);
            } else {
                assert(j == i);
            }
        }
    }
}

/// How a bar opens under the framework's own policy: the account is marked at
/// the reference close and its bar's sums are empty; what a tranche may sell
/// of a name is what it holds after the mark, if the bar opens a day and the
/// name is on its list, and else what it was, scaled as the units were if the
/// name moved. What the orders hold is as it was.
pub proof fn law_how_a_bar_opens(s: PlainState, l: Ledger, inp: Inputs, bar: int, t: int, i: int)
    requires
        l.wf(),
        s.fits(l.tranches, l.assets),
        0 <= t < l.tranches,
        0 <= i < l.assets,
    ensures
        ({
            let c = t * l.assets + i;
            let close = inp.previous.number(seq![bar, i]);
            let quote = l.last[i];
            let moved = inp.has_previous && !close.is_nan() && !quote.is_nan() && 0 < close.value()
                && 0 < quote.value() && quote.value() != close.value();
            let kept = !s.budget[c].is_nan() && s.budget[c].value() == 0;
            let (z, m) = driver::morning::<Plain>(s, l, inp, bar);
            let zero = Binary64 { bits: 0 };
            &&& m == (Ledger { fees: zero, bought: zero, sold: zero, ..l.rescaled(inp, bar) })
            &&& z.locked == s.locked
            &&& z.locked_total == s.locked_total
            &&& z.budget[c] == if inp.new_day.word(seq![bar]) != 0 && l.active[t].contains(
                i as usize,
            ) {
                l.rescaled(inp, bar).qty[c]
            } else if moved && !kept {
                s.budget[c].times(quote.over(close))
            } else {
                s.budget[c]
            }
        }),
{
    let c: int = t * l.assets + i;
    ledger::lemma_cell(l.tranches, l.assets, t, i);
    let marked: Ledger = l.rescaled(inp, bar);
    let told: Seq<(usize, Binary64)> = l.actions(inp, bar);
    law_every_moved_name_is_handed_on(l, inp, bar);
    law_a_mark_touches_nothing_else(l, inp, bar);
    lemma_acted(s, marked, told, t, i);
    arithmetic::lemma_sign(s.budget[c]);
    let moved = |i: int|
        {
            let close = inp.previous.number(seq![bar, i]);
            let quote = l.last[i];
            &&& inp.has_previous
            &&& !close.is_nan()
            &&& !quote.is_nan()
            &&& 0 < close.value()
            &&& 0 < quote.value()
            &&& quote.value() != close.value()
        };
    if moved(i) {
        let k: int = choose|k: int| 0 <= k < told.len() && #[trigger] told[k].0 == i;
        assert(told[k].1 == l.last[i].over(inp.previous.number(seq![bar, i])));
    } else {
        assert forall|k: int| 0 <= k < told.len() implies (#[trigger] told[k]).0 != i by {
            assert(moved(told[k].0 as int));
        }
    }
}

/// A price point marks every name it quotes, at a number above zero, there,
/// and no other; nothing else of the account moves.
pub proof fn law_a_point_marks_what_it_quotes(l: Ledger, inp: Inputs, at: Point)
    requires
        l.wf(),
    ensures
        l.marked_at(inp, at).last.len() == l.assets,
        forall|i: int|
            0 <= i < l.assets ==> {
                let price = inp.prices@[at.phase as int].number(
                    #[trigger] grid::pair(at.bar as int, i),
                );
                l.marked_at(inp, at).last[i] == if !price.is_nan() && 0 < price.value() {
                    price
                } else {
                    l.last[i]
                }
            },
        l.marked_at(inp, at) == (Ledger { last: l.marked_at(inp, at).last, ..l }),
{
    assert forall|i: int| 0 <= i < l.assets implies {
        let price = inp.prices@[at.phase as int].number(#[trigger] grid::pair(at.bar as int, i));
        l.marked_at(inp, at).last[i] == if !price.is_nan() && 0 < price.value() {
            price
        } else {
            l.last[i]
        }
    } by {
        arithmetic::lemma_sign(inp.prices@[at.phase as int].number(seq![at.bar as int, i]));
    }
}

/// The close marks every name with a closing price, a number above zero,
/// there, and no other; nothing else of the account moves.
pub proof fn law_the_close_marks_what_it_quotes(l: Ledger, inp: Inputs, bar: int)
    requires
        l.wf(),
    ensures
        l.closed_at(inp, bar).last.len() == l.assets,
        forall|i: int|
            0 <= i < l.assets ==> {
                let price = inp.mark.number(#[trigger] grid::pair(bar, i));
                l.closed_at(inp, bar).last[i] == if !price.is_nan() && 0 < price.value() {
                    price
                } else {
                    l.last[i]
                }
            },
        l.closed_at(inp, bar) == (Ledger { last: l.closed_at(inp, bar).last, ..l }),
{
    assert forall|i: int| 0 <= i < l.assets implies {
        let price = inp.mark.number(#[trigger] grid::pair(bar, i));
        l.closed_at(inp, bar).last[i] == if !price.is_nan() && 0 < price.value() {
            price
        } else {
            l.last[i]
        }
    } by {
        arithmetic::lemma_sign(inp.mark.number(seq![bar, i]));
    }
}

}
