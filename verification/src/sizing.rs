//! What a decision asks for.
//!
//! A weight worth trading is struck as whole lots, rounded down, with the
//! weight's sign; the money behind it is the account's share of equity, or
//! what the tranche can reach.

use vstd::prelude::*;

use crate::arithmetic;
use crate::binary64::Binary64;
use crate::inputs;
use crate::inputs::{Inputs, Point};
use crate::inputs::{
    FIXED_FEE, LOT, MIN_FEE, MIN_LOT, MIN_NOTIONAL, MULTIPLIER, SHORTABLE,
};
use crate::ledger;
use crate::ledger::{live, none, Ledger};
use crate::names;
use crate::plain;
use crate::plain::PlainState;
use crate::twin;

verus! {

/// What counts as nothing and as something: a count is none exactly if it is
/// the number zero, and live exactly if it is a number above zero.
pub proof fn law_nothing_is_zero_and_something_is_above(a: Binary64)
    ensures
        none(a) == (!a.is_nan() && a.value() == 0),
        live(a) == (!a.is_nan() && 0 < a.value()),
{
    arithmetic::lemma_sign(a);
}

/// A weight worth trading is struck: of a weight other than zero, at a price
/// above zero, where the money behind it is not below the least notional and
/// the whole lots it buys are not below the least count, the quantity is
/// those lots, with the weight's sign, however few they are.
pub proof fn law_a_weight_worth_trading_is_struck(
    investable: Binary64,
    weight: Binary64,
    price: Binary64,
    lot: Binary64,
    min_lot: Binary64,
    min_notional: Binary64,
    multiplier: Binary64,
)
    requires
        !weight.is_nan(),
        weight.value() != 0,
        !price.is_nan(),
        0 < price.value(),
        ({
            let money = investable.times(weight).abs();
            let lots = money.over(price.times(multiplier)).over(lot).floor().times(lot);
            &&& money.is_nan() || min_notional.is_nan() || min_notional.value() <= money.value()
            &&& lots.is_nan() || min_lot.is_nan() || min_lot.value() <= lots.value()
        }),
    ensures
        ({
            let money = investable.times(weight).abs();
            let lots = money.over(price.times(multiplier)).over(lot).floor().times(lot);
            inputs::sized(investable, weight, price, lot, min_lot, min_notional, multiplier)
                == if 0 < weight.value() {
                lots
            } else {
                lots.negated()
            }
        }),
{
    arithmetic::lemma_sign(weight);
    arithmetic::lemma_sign(price);
}

/// Nothing is struck of a weight of zero, at a price that is no number above
/// zero, where the money is below the least notional, or where the lots it
/// buys are below the least count.
pub proof fn law_a_weight_too_small_strikes_nothing(
    investable: Binary64,
    weight: Binary64,
    price: Binary64,
    lot: Binary64,
    min_lot: Binary64,
    min_notional: Binary64,
    multiplier: Binary64,
)
    requires
        ({
            let money = investable.times(weight).abs();
            let lots = money.over(price.times(multiplier)).over(lot).floor().times(lot);
            ||| !weight.is_nan() && weight.value() == 0
            ||| price.is_nan()
            ||| price.value() <= 0
            ||| !money.is_nan() && !min_notional.is_nan() && money.value() < min_notional.value()
            ||| !lots.is_nan() && !min_lot.is_nan() && lots.value() < min_lot.value()
        }),
    ensures
        inputs::sized(investable, weight, price, lot, min_lot, min_notional, multiplier)
            == (Binary64 { bits: 0 }),
{
    arithmetic::lemma_sign(weight);
    arithmetic::lemma_sign(price);
}

/// What a fee comes to: what the rate takes of the turnover and the fixed
/// part, unless that is below the least fee, which is then the fee.
pub proof fn law_a_fee_is_its_parts_or_the_least(
    inp: Inputs,
    turnover: Binary64,
    rate: Binary64,
    epoch: int,
    class: int,
)
    ensures
        ({
            let parts = turnover.times(rate).plus(inp.rated(FIXED_FEE as int, epoch, class));
            let least = inp.rated(MIN_FEE as int, epoch, class);
            let fee = inp.charge(turnover, rate, epoch, class);
            &&& fee == parts || fee == least
            &&& !parts.is_nan() && !least.is_nan() ==> parts.value() <= fee.value()
                && least.value() <= fee.value()
            &&& !parts.is_nan() && !least.is_nan() && parts.value() == least.value() ==> fee
                == parts
            &&& parts.is_nan() || least.is_nan() ==> fee == parts
        }),
{
}

/// What a decision may put on, per unit of weight: nothing if its gross
/// exposure is a number below a trillionth; else the smaller of its share of
/// the equity and what it can reach, less the buffer, over the exposure.
pub proof fn law_what_a_decision_may_put_on(
    l: Ledger,
    inp: Inputs,
    share: Binary64,
    reachable: Binary64,
)
    ensures
        ({
            let tiny = Binary64 { bits: 0x3d71_9799_812d_ea11 };
            let asked = l.equity.times(share);
            let capped = !reachable.is_nan() && !asked.is_nan() && reachable.value()
                < asked.value();
            l.funds(inp, share, reachable) == if !share.is_nan() && share.value() < tiny.value() {
                Binary64 { bits: 0 }
            } else if capped {
                reachable.times(inp.buffer).over(share)
            } else {
                asked.times(inp.buffer).over(share)
            }
        }),
{
    let tiny: Binary64 = Binary64 { bits: 0x3d71_9799_812d_ea11 };
    assert(!tiny.is_nan());
}

/// What a tranche can put on for a decision: its gross exposure, and its own
/// book with the cash no order holds as what it can reach.
pub proof fn law_what_a_tranche_can_reach(
    s: PlainState,
    l: Ledger,
    inp: Inputs,
    t: int,
    d: int,
    at: Point,
)
    ensures
        s.funds(l, inp, t, d, at) == l.funds(
            inp,
            plain::gross(inp, l.run, t, d, l.row(inp, t, d)),
            l.book_value(inp, t, at).plus(l.cash.minus(s.locked_total)),
        ),
{
}

/// The target a weight strikes: what is held, if the weight is missing; else
/// the name's quantity at the point's price and under its class's rules of
/// the epoch, unless that is short and the class may not be.
pub proof fn law_what_a_weight_strikes(
    l: Ledger,
    inp: Inputs,
    t: int,
    i: int,
    weight: Binary64,
    investable: Binary64,
    at: Point,
)
    ensures
        ({
            let epoch = at.epoch as int;
            let quantity = inputs::sized(
                investable,
                weight,
                inp.quote(at.phase as int, at.bar as int, i),
                inp.rate_of(LOT, epoch, i),
                inp.rate_of(MIN_LOT, epoch, i),
                inp.rate_of(MIN_NOTIONAL, epoch, i),
                inp.rate_of(MULTIPLIER, epoch, i),
            );
            let short = !quantity.is_nan() && quantity.value() < 0;
            l.struck(inp, t, i, weight, investable, at) == if weight.is_nan() {
                l.qty[t * l.assets + i]
            } else if short && !inp.flag_of(SHORTABLE, i) {
                Binary64 { bits: 0 }
            } else {
                quantity
            }
        }),
{
    let epoch: int = at.epoch as int;
    let quantity: Binary64 = inputs::sized(
        investable,
        weight,
        inp.quote(at.phase as int, at.bar as int, i),
        inp.rate_of(LOT, epoch, i),
        inp.rate_of(MIN_LOT, epoch, i),
        inp.rate_of(MIN_NOTIONAL, epoch, i),
        inp.rate_of(MULTIPLIER, epoch, i),
    );
    arithmetic::lemma_sign(quantity);
}

/// What sizing a list of names comes to, name by name.
proof fn lemma_size_names(
    s: PlainState,
    l: Ledger,
    inp: Inputs,
    t: int,
    d: int,
    at: Point,
    money: Binary64,
    list: Seq<usize>,
    i: int,
)
    requires
        l.wf(),
        0 <= t < l.tranches,
        0 <= i < l.assets,
        names::bounded(list, l.assets),
    ensures
        ({
            let c = l.cell(t, i);
            let m = s.size_names(l, inp, t, d, at, money, list);
            let want = l.struck(inp, t, i, inp.weight(l.run, t, d, i), money, at);
            let refused = inp.audit && live(l.qty[c]) && s.budget[c].less(l.qty[c].minus(want));
            &&& m.wf()
            &&& m == (Ledger { target: m.target, blocked: m.blocked, active: m.active, ..l })
            &&& list.contains(i as usize) ==> m.target[c] == want && m.blocked[c] == refused
            &&& !list.contains(i as usize) ==> m.target[c] == l.target[c] && m.blocked[c]
                == l.blocked[c]
            &&& m.active[t].contains(i as usize) <==> l.active[t].contains(i as usize)
                || list.contains(i as usize) && (!none(want) || refused)
            &&& forall|k: int| 0 <= k < l.tranches && k != t ==> #[trigger] m.active[k]
                == l.active[k]
            &&& forall|k: int|
                0 <= k < l.qty.len() && k / l.assets != t ==> #[trigger] m.target[k] == l.target[k]
            &&& forall|k: int|
                0 <= k < l.qty.len() && k / l.assets != t ==> #[trigger] m.blocked[k]
                    == l.blocked[k]
        }),
    decreases list.len(),
{
    ledger::lemma_cell(l.tranches, l.assets, t, i);
    if list.len() > 0 {
        let front: Seq<usize> = list.drop_last();
        let j: int = list.last() as int;
        twin::lemma_bounded_front(list, l.assets);
        assert(list[list.len() - 1] < l.assets);
        lemma_size_names(s, l, inp, t, d, at, money, front, i);
        let mid: Ledger = s.size_names(l, inp, t, d, at, money, front);
        let m: Ledger = s.size_names(l, inp, t, d, at, money, list);
        s.lemma_size_name(mid, inp, t, d, at, money, j);
        ledger::lemma_cell(l.tranches, l.assets, t, j);
        names::lemma_inserted(mid.active[t], j as usize);
        assert(list.contains(i as usize) <==> front.contains(i as usize) || i == j) by {
            if front.contains(i as usize) {
                let k: int = choose|k: int| 0 <= k < front.len() && front[k] == i;
                assert(list[k] == i);
            }
            if list.contains(i as usize) && i != j {
                let k: int = choose|k: int| 0 <= k < list.len() && list[k] == i;
                assert(front[k] == i);
            }
            assert(list[list.len() - 1] == j);
        }
        assert(mid.struck(inp, t, j, inp.weight(l.run, t, d, j), money, at) == l.struck(
            inp,
            t,
            j,
            inp.weight(l.run, t, d, j),
            money,
            at,
        ));
        assert forall|k: int| 0 <= k < l.qty.len() && k / l.assets != t implies #[trigger]
            m.target[k] == l.target[k] by {
            assert(mid.target[k] == l.target[k]);
        }
        assert forall|k: int| 0 <= k < l.qty.len() && k / l.assets != t implies #[trigger]
            m.blocked[k] == l.blocked[k] by {
            assert(mid.blocked[k] == l.blocked[k]);
        }
        assert forall|k: int| 0 <= k < l.tranches && k != t implies #[trigger] m.active[k]
            == l.active[k] by {
            assert(mid.active[k] == l.active[k]);
        }
    }
}

/// What sizing a decision leaves of each name. A name the decision gives a
/// weight, or that the tranche is doing something with, has as its target
/// what its weight strikes with the money the tranche may put on, and is
/// refused if the day is audited, units are held and giving the rest up is
/// more than may be sold; it is on the tranche's list if it was, or if the
/// target is not none or was refused. Every other name, and every other
/// tranche, is as it was, and so are units, cash and quotes.
pub proof fn law_what_sizing_leaves_of_a_name(
    s: PlainState,
    l: Ledger,
    inp: Inputs,
    t: int,
    d: int,
    at: Point,
    i: int,
)
    requires
        l.wf(),
        0 <= t < l.tranches,
        0 <= i < l.assets,
    ensures
        ({
            let c = t * l.assets + i;
            let m = s.sized(l, inp, t, d, at);
            let weight = inp.weight(l.run, t, d, i);
            let seen = weight.is_nan() || weight.value() != 0 || l.active[t].contains(i as usize);
            let want = l.struck(inp, t, i, weight, s.funds(l, inp, t, d, at), at);
            let rest = l.qty[c].minus(want);
            let refused = inp.audit && !l.qty[c].is_nan() && 0 < l.qty[c].value()
                && !s.budget[c].is_nan() && !rest.is_nan() && s.budget[c].value() < rest.value();
            let asks = want.is_nan() || want.value() != 0;
            &&& m == (Ledger { target: m.target, blocked: m.blocked, active: m.active, ..l })
            &&& m.target[c] == if seen {
                want
            } else {
                l.target[c]
            }
            &&& m.blocked[c] == if seen {
                refused
            } else {
                l.blocked[c]
            }
            &&& m.active[t].contains(i as usize) <==> l.active[t].contains(i as usize) || seen && (
            asks || refused)
            &&& forall|k: int| 0 <= k < l.tranches && k != t ==> #[trigger] m.active[k]
                == l.active[k]
            &&& forall|k: int|
                0 <= k < l.qty.len() && k / l.assets != t ==> #[trigger] m.target[k] == l.target[k]
            &&& forall|k: int|
                0 <= k < l.qty.len() && k / l.assets != t ==> #[trigger] m.blocked[k]
                    == l.blocked[k]
        }),
{
    let c: int = t * l.assets + i;
    let row: Seq<usize> = l.row(inp, t, d);
    let list: Seq<usize> = names::union(row, l.active[t]);
    names::lemma_where_below(l.assets, |i: int| !none(inp.weight(l.run, t, d, i)));
    names::lemma_union(row, l.active[t]);
    assert forall|k: int| 0 <= k < list.len() implies (#[trigger] list[k]) < l.assets by {
        assert(list.contains(list[k]));
        if row.contains(list[k]) {
            let m: int = choose|m: int| 0 <= m < row.len() && row[m] == list[k];
            assert(row[m] < l.assets);
        } else {
            let m: int = choose|m: int|
                0 <= m < l.active[t].len() && l.active[t][m] == list[k];
            assert(l.active[t][m] < l.assets);
        }
    }
    let money: Binary64 = s.funds(l, inp, t, d, at);
    lemma_size_names(s, l, inp, t, d, at, money, list, i);
    let weight: Binary64 = inp.weight(l.run, t, d, i);
    let want: Binary64 = l.struck(inp, t, i, weight, money, at);
    arithmetic::lemma_sign(weight);
    arithmetic::lemma_sign(l.qty[c]);
    arithmetic::lemma_sign(want);
    assert(row.contains(i as usize) <==> !none(weight));
    assert(list.contains(i as usize) <==> row.contains(i as usize) || l.active[t].contains(
        i as usize,
    ));
}

/// The names a decision gives a weight, a missing one among them: just those,
/// ascending.
pub proof fn law_whom_a_decision_names(l: Ledger, inp: Inputs, t: int, d: int)
    requires
        l.wf(),
    ensures
        names::ascending(l.row(inp, t, d)),
        forall|x: usize| #[trigger]
            l.row(inp, t, d).contains(x) <==> x < l.assets && (inp.weight(
                l.run,
                t,
                d,
                x as int,
            ).is_nan() || inp.weight(l.run, t, d, x as int).value() != 0),
{
    names::lemma_where_below(l.assets, |i: int| !none(inp.weight(l.run, t, d, i)));
    assert forall|x: usize| #[trigger] l.row(inp, t, d).contains(x) <==> x < l.assets && (
    inp.weight(l.run, t, d, x as int).is_nan() || inp.weight(l.run, t, d, x as int).value()
        != 0) by {
        arithmetic::lemma_sign(inp.weight(l.run, t, d, x as int));
    }
}

}
