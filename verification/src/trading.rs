//! What a decision's sells and buys come to.
//!
//! A tranche that decides frees the cash its orders hold, is sized, sells
//! before it buys, and remembers what its book attained. A sale gives up what
//! is held above the target, or what may be sold of it; a buy takes what is
//! missing, or the whole lots the cash covers, and locks its cost where the
//! market lets nothing through.

use vstd::prelude::*;

use crate::arithmetic;
use crate::binary64::Binary64;
use crate::bookkeeping::{Bookkeeping, Plain};
use crate::inputs::{Inputs, Point};
use crate::inputs::{BUY_FEE, FIXED_FEE, LOT, MIN_LOT, MULTIPLIER, SAME_BAR, SELL_FEE};
use crate::ledger;
use crate::ledger::{live, none, Fill, Ledger};
use crate::names;
use crate::plain::{PlainState, Terms};
use crate::twin;
use crate::worth;
use crate::worth::{added, terms_below};

verus! {

/// What a fill is put on record as, and that nothing is where fills are not
/// asked for; nothing else of the account moves.
pub proof fn law_what_is_put_on_record(
    l: Ledger,
    at: Point,
    tranche: i32,
    i: int,
    units: Binary64,
    price: Binary64,
    fee: Binary64,
)
    ensures
        ({
            let m = l.filled(at, tranche, i, units, price, fee);
            &&& m == (Ledger { fills: m.fills, ..l })
            &&& !l.record_fills ==> m.fills == l.fills
            &&& l.record_fills ==> {
                let fill = m.fills.last();
                &&& m.fills.len() == l.fills.len() + 1
                &&& m.fills.drop_last() == l.fills
                &&& fill.bar == at.bar as u32
                &&& fill.point == at.phase as u32
                &&& fill.tranche == tranche
                &&& fill.asset == i as u32
                &&& fill.units == units
                &&& fill.price == price
                &&& fill.fee == fee
            }
        }),
{
    let m: Ledger = l.filled(at, tranche, i, units, price, fee);
    if l.record_fills {
        assert(m.fills.drop_last() =~= l.fills);
    }
}

/// What a tranche gives up of a name: what it holds above its target, if that
/// is not nothing or less, the point quotes the name above zero and it can be
/// sold there; a refused reduction only what may still be sold, if that is
/// fewer, and nothing if that is nothing or less. No lot is rounded.
pub proof fn law_what_a_tranche_gives_up(
    s: PlainState,
    l: Ledger,
    inp: Inputs,
    t: int,
    at: Point,
    i: int,
)
    ensures
        ({
            let c = t * l.assets + i;
            let price = inp.quote(at.phase as int, at.bar as int, i);
            let above = l.qty[c].minus(l.target[c]);
            let cut = l.blocked[c] && !s.budget[c].is_nan() && !above.is_nan()
                && s.budget[c].value() < above.value();
            let give = if cut {
                s.budget[c]
            } else {
                above
            };
            let sells = !price.is_nan() && 0 < price.value() && inp.can_sell(
                at.phase as int,
                at.bar as int,
                i,
            ) && (above.is_nan() || 0 < above.value()) && (give.is_nan() || 0 < give.value());
            &&& sells ==> s.gives(l, inp, t, at, i) == Some(give)
            &&& !sells ==> s.gives(l, inp, t, at, i) is None
        }),
{
    let c: int = t * l.assets + i;
    let above: Binary64 = l.qty[c].minus(l.target[c]);
    arithmetic::lemma_sign(inp.quote(at.phase as int, at.bar as int, i));
    arithmetic::lemma_sign(above);
    arithmetic::lemma_sign(s.budget[c]);
}

/// What selling a list of names comes to, of one name.
proof fn lemma_sell_names(
    s: PlainState,
    l: Ledger,
    inp: Inputs,
    t: int,
    at: Point,
    list: Seq<usize>,
    i: int,
)
    requires
        l.wf(),
        s.fits(l.tranches, l.assets),
        0 <= t < l.tranches,
        0 <= i < l.assets,
        names::ascending(list),
        names::bounded(list, l.assets),
    ensures
        ({
            let c = l.cell(t, i);
            let (z, m) = s.sell_names(l, inp, t, at, list);
            let gives = s.gives(l, inp, t, at, i);
            let sells = list.contains(i as usize) && gives is Some;
            &&& m.wf()
            &&& z.fits(l.tranches, l.assets)
            &&& m == (Ledger {
                qty: m.qty,
                cash: m.cash,
                fees: m.fees,
                sold: m.sold,
                fills: m.fills,
                ..l
            })
            &&& z == (PlainState { budget: z.budget, ..s })
            &&& m.qty[c] == if sells {
                l.qty[c].minus(gives->0)
            } else {
                l.qty[c]
            }
            &&& z.budget[c] == if sells && inp.audit && live(
                l.qty[c].minus(gives->0).plus(gives->0),
            ) {
                s.budget[c].minus(gives->0)
            } else {
                s.budget[c]
            }
        }),
    decreases list.len(),
{
    ledger::lemma_cell(l.tranches, l.assets, t, i);
    if list.len() > 0 {
        let front: Seq<usize> = list.drop_last();
        let j: int = list.last() as int;
        lemma_ends(list, l.assets, i);
        lemma_sell_names(s, l, inp, t, at, front, i);
        lemma_sell_names(s, l, inp, t, at, front, j);
        let (z, m) = s.sell_names(l, inp, t, at, front);
        ledger::lemma_cell(l.tranches, l.assets, t, j);
        z.lemma_sell_name(m, inp, t, at, j);
    }
}

/// A list's last name comes after the others, and the list names those and
/// it.
pub(crate) proof fn lemma_ends(list: Seq<usize>, n: int, i: int)
    requires
        list.len() > 0,
        names::ascending(list),
        names::bounded(list, n),
        0 <= i <= usize::MAX,
    ensures
        names::ascending(list.drop_last()),
        names::bounded(list.drop_last(), n),
        list.last() < n,
        !list.drop_last().contains(list.last()),
        list.contains(i as usize) <==> list.drop_last().contains(i as usize) || i == list.last(),
{
    let front: Seq<usize> = list.drop_last();
    let j: int = list.last() as int;
    twin::lemma_bounded_front(list, n);
    assert(list[list.len() - 1] < n);
    assert forall|a: int, b: int| 0 <= a < b < front.len() implies front[a] < front[b] by {
        assert(list[a] < list[b]);
    }
    if front.contains(j as usize) {
        let k: int = choose|k: int| 0 <= k < front.len() && front[k] == j;
        assert(list[k] < list[list.len() - 1]);
    }
    if front.contains(i as usize) {
        let k: int = choose|k: int| 0 <= k < front.len() && front[k] == i;
        assert(list[k] == i);
    }
    if list.contains(i as usize) && i != j {
        let k: int = choose|k: int| 0 <= k < list.len() && list[k] == i;
        assert(front[k] == i);
    }
    assert(list[list.len() - 1] == j);
}

/// Selling a list of names leaves the other tranches alone.
proof fn lemma_sell_elsewhere(
    s: PlainState,
    l: Ledger,
    inp: Inputs,
    t: int,
    at: Point,
    list: Seq<usize>,
)
    requires
        l.wf(),
        s.fits(l.tranches, l.assets),
        0 <= t < l.tranches,
        names::ascending(list),
        names::bounded(list, l.assets),
    ensures
        ({
            let (z, m) = s.sell_names(l, inp, t, at, list);
            &&& forall|c: int|
                0 <= c < l.qty.len() && c / l.assets != t ==> #[trigger] m.qty[c] == l.qty[c]
            &&& forall|c: int|
                0 <= c < l.qty.len() && c / l.assets != t ==> #[trigger] z.budget[c] == s.budget[c]
        }),
    decreases list.len(),
{
    if list.len() > 0 {
        let front: Seq<usize> = list.drop_last();
        let j: int = list.last() as int;
        lemma_ends(list, l.assets, j);
        lemma_sell_elsewhere(s, l, inp, t, at, front);
        lemma_sell_names(s, l, inp, t, at, front, j);
        let (z, m) = s.sell_names(l, inp, t, at, front);
        let (y, k) = s.sell_names(l, inp, t, at, list);
        ledger::lemma_cell(l.tranches, l.assets, t, j);
        assert forall|c: int| 0 <= c < l.qty.len() && c / l.assets != t implies #[trigger] k.qty[c]
            == l.qty[c] by {
            assert(m.qty[c] == l.qty[c]);
        }
        assert forall|c: int| 0 <= c < l.qty.len() && c / l.assets != t implies #[trigger]
            y.budget[c] == s.budget[c] by {
            assert(z.budget[c] == s.budget[c]);
        }
    }
}

/// What selling a list of names pays.
proof fn lemma_sell_money(
    s: PlainState,
    l: Ledger,
    inp: Inputs,
    t: int,
    at: Point,
    list: Seq<usize>,
)
    requires
        l.wf(),
        s.fits(l.tranches, l.assets),
        0 <= t < l.tranches,
        names::ascending(list),
        names::bounded(list, l.assets),
    ensures
        ({
            let m = s.sell_names(l, inp, t, at, list).1;
            let sells = |i: int| list.contains(i as usize) && s.gives(l, inp, t, at, i) is Some;
            let give = |i: int| s.gives(l, inp, t, at, i)->0;
            let turnover = |i: int|
                give(i).times(inp.quote(at.phase as int, at.bar as int, i)).times(
                    inp.rate_of(MULTIPLIER, at.epoch as int, i),
                );
            let fee = |i: int|
                inp.charge(
                    turnover(i),
                    inp.rate_of(SELL_FEE, at.epoch as int, i),
                    at.epoch as int,
                    inp.category(i),
                );
            let fill = |i: int|
                Fill {
                    bar: at.bar as u32,
                    point: at.phase as u32,
                    tranche: t as i32,
                    asset: i as u32,
                    units: give(i).negated(),
                    price: inp.quote(at.phase as int, at.bar as int, i),
                    fee: fee(i),
                };
            &&& m.cash == added(
                l.cash,
                terms_below(l.assets, sells, |i: int| turnover(i).minus(fee(i))),
            )
            &&& m.fees == added(l.fees, terms_below(l.assets, sells, fee))
            &&& m.sold == added(l.sold, terms_below(l.assets, sells, turnover))
            &&& m.fills == if l.record_fills {
                l.fills + terms_below(l.assets, sells, fill)
            } else {
                l.fills
            }
        }),
    decreases list.len(),
{
    let gives = |i: int| s.gives(l, inp, t, at, i) is Some;
    let sells = |i: int| list.contains(i as usize) && s.gives(l, inp, t, at, i) is Some;
    let both = |i: int| list.contains(i as usize) && gives(i);
    let give = |i: int| s.gives(l, inp, t, at, i)->0;
    let turnover = |i: int|
        give(i).times(inp.quote(at.phase as int, at.bar as int, i)).times(
            inp.rate_of(MULTIPLIER, at.epoch as int, i),
        );
    let fee = |i: int|
        inp.charge(
            turnover(i),
            inp.rate_of(SELL_FEE, at.epoch as int, i),
            at.epoch as int,
            inp.category(i),
        );
    let net = |i: int| turnover(i).minus(fee(i));
    let fill = |i: int|
        Fill {
            bar: at.bar as u32,
            point: at.phase as u32,
            tranche: t as i32,
            asset: i as u32,
            units: give(i).negated(),
            price: inp.quote(at.phase as int, at.bar as int, i),
            fee: fee(i),
        };
    worth::lemma_terms_alike(l.assets, sells, net, both, net);
    worth::lemma_terms_alike(l.assets, sells, fee, both, fee);
    worth::lemma_terms_alike(l.assets, sells, turnover, both, turnover);
    worth::lemma_terms_alike(l.assets, sells, fill, both, fill);
    if list.len() > 0 {
        let front: Seq<usize> = list.drop_last();
        let j: int = list.last() as int;
        lemma_ends(list, l.assets, j);
        lemma_sell_money(s, l, inp, t, at, front);
        lemma_sell_names(s, l, inp, t, at, front, j);
        let f = |i: int| front.contains(i as usize) && s.gives(l, inp, t, at, i) is Some;
        let g = |i: int| front.contains(i as usize) && gives(i);
        worth::lemma_terms_alike(l.assets, f, net, g, net);
        worth::lemma_terms_alike(l.assets, f, fee, g, fee);
        worth::lemma_terms_alike(l.assets, f, turnover, g, turnover);
        worth::lemma_terms_alike(l.assets, f, fill, g, fill);
        worth::lemma_listed_terms(list, l.assets, gives, net);
        worth::lemma_listed_terms(list, l.assets, gives, fee);
        worth::lemma_listed_terms(list, l.assets, gives, turnover);
        worth::lemma_listed_terms(list, l.assets, gives, fill);
        let (z, m) = s.sell_names(l, inp, t, at, front);
        assert(z.gives(m, inp, t, at, j) == s.gives(l, inp, t, at, j));
        let nets: Seq<Binary64> = terms_below(l.assets, g, net);
        let fees: Seq<Binary64> = terms_below(l.assets, g, fee);
        let sold: Seq<Binary64> = terms_below(l.assets, g, turnover);
        let made: Seq<Fill> = terms_below(l.assets, g, fill);
        assert(nets.push(net(j)).drop_last() =~= nets);
        assert(fees.push(fee(j)).drop_last() =~= fees);
        assert(sold.push(turnover(j)).drop_last() =~= sold);
        assert((l.fills + made).push(fill(j)) =~= l.fills + made.push(fill(j)));
    } else {
        worth::lemma_terms_end(0, l.assets, both, net);
        worth::lemma_terms_end(0, l.assets, both, fee);
        worth::lemma_terms_end(0, l.assets, both, turnover);
        worth::lemma_terms_end(0, l.assets, both, fill);
        assert(l.fills + Seq::<Fill>::empty() =~= l.fills);
    }
}

/// What a tranche's sells leave of a name: the units it gives up are gone,
/// and so much less may be sold of it where the day is audited and units were
/// held; every other name, and every other tranche, is as it was.
pub proof fn law_what_a_tranche_sells(
    s: PlainState,
    l: Ledger,
    inp: Inputs,
    t: int,
    at: Point,
    i: int,
)
    requires
        l.wf(),
        s.fits(l.tranches, l.assets),
        0 <= t < l.tranches,
        0 <= i < l.assets,
    ensures
        ({
            let c = t * l.assets + i;
            let (z, m) = s.sell_names(l, inp, t, at, l.active[t]);
            let gives = s.gives(l, inp, t, at, i);
            let sells = l.active[t].contains(i as usize) && gives is Some;
            let held = l.qty[c].minus(gives->0).plus(gives->0);
            &&& m == (Ledger {
                qty: m.qty,
                cash: m.cash,
                fees: m.fees,
                sold: m.sold,
                fills: m.fills,
                ..l
            })
            &&& z == (PlainState { budget: z.budget, ..s })
            &&& m.qty[c] == if sells {
                l.qty[c].minus(gives->0)
            } else {
                l.qty[c]
            }
            &&& z.budget[c] == if sells && inp.audit && !held.is_nan() && 0 < held.value() {
                s.budget[c].minus(gives->0)
            } else {
                s.budget[c]
            }
            &&& forall|k: int|
                0 <= k < l.qty.len() && k / l.assets != t ==> #[trigger] m.qty[k] == l.qty[k]
            &&& forall|k: int|
                0 <= k < l.qty.len() && k / l.assets != t ==> #[trigger] z.budget[k] == s.budget[k]
        }),
{
    let c: int = t * l.assets + i;
    assert(names::bounded(l.active[t], l.assets));
    lemma_sell_names(s, l, inp, t, at, l.active[t], i);
    lemma_sell_elsewhere(s, l, inp, t, at, l.active[t]);
    arithmetic::lemma_sign(
        l.qty[c].minus(s.gives(l, inp, t, at, i)->0).plus(s.gives(l, inp, t, at, i)->0),
    );
}

/// What a tranche's sells pay: of each name sold, ascending, its turnover
/// less its fee goes into cash, its fee among the bar's fees, its turnover
/// among the bar's sales, and itself on record where fills are asked for.
pub proof fn law_what_a_tranches_sells_pay(s: PlainState, l: Ledger, inp: Inputs, t: int, at: Point)
    requires
        l.wf(),
        s.fits(l.tranches, l.assets),
        0 <= t < l.tranches,
    ensures
        ({
            let m = s.sell_names(l, inp, t, at, l.active[t]).1;
            let sells = |i: int|
                l.active[t].contains(i as usize) && s.gives(l, inp, t, at, i) is Some;
            let give = |i: int| s.gives(l, inp, t, at, i)->0;
            let turnover = |i: int|
                give(i).times(inp.quote(at.phase as int, at.bar as int, i)).times(
                    inp.rate_of(MULTIPLIER, at.epoch as int, i),
                );
            let fee = |i: int|
                inp.charge(
                    turnover(i),
                    inp.rate_of(SELL_FEE, at.epoch as int, i),
                    at.epoch as int,
                    inp.category(i),
                );
            let fill = |i: int|
                Fill {
                    bar: at.bar as u32,
                    point: at.phase as u32,
                    tranche: t as i32,
                    asset: i as u32,
                    units: give(i).negated(),
                    price: inp.quote(at.phase as int, at.bar as int, i),
                    fee: fee(i),
                };
            &&& m.cash == added(
                l.cash,
                terms_below(l.assets, sells, |i: int| turnover(i).minus(fee(i))),
            )
            &&& m.fees == added(l.fees, terms_below(l.assets, sells, fee))
            &&& m.sold == added(l.sold, terms_below(l.assets, sells, turnover))
            &&& m.bought == l.bought
            &&& m.fills == if l.record_fills {
                l.fills + terms_below(l.assets, sells, fill)
            } else {
                l.fills
            }
        }),
{
    assert(names::bounded(l.active[t], l.assets));
    let list: Seq<usize> = l.active[t];
    lemma_sell_money(s, l, inp, t, at, list);
    if l.assets > 0 {
        lemma_sell_names(s, l, inp, t, at, list, 0);
    } else {
        if list.len() > 0 {
            assert(list[0] < l.assets);
        }
    }
}

/// A count less so many lots, taken off one after another.
pub open spec fn less_lots(count: Binary64, lot: Binary64, n: int) -> Binary64
    decreases n,
{
    if n <= 0 {
        count
    } else {
        less_lots(count, lot, n - 1).minus(lot)
    }
}

/// What a buy of units of a name costs: what they turn over and the fee.
spec fn buy_cost(inp: Inputs, at: Point, i: int, units: Binary64) -> Binary64 {
    buy_turnover(inp, at, i, units).plus(buy_fee(inp, at, i, units))
}

/// What a buy of units of a name turns over.
spec fn buy_turnover(inp: Inputs, at: Point, i: int, units: Binary64) -> Binary64 {
    units.times(
        inp.quote(at.phase as int, at.bar as int, i).times(
            inp.rate_of(MULTIPLIER, at.epoch as int, i),
        ),
    )
}

/// What a buy of units of a name pays in fees.
spec fn buy_fee(inp: Inputs, at: Point, i: int, units: Binary64) -> Binary64 {
    inp.charge(
        buy_turnover(inp, at, i, units),
        inp.rate_of(BUY_FEE, at.epoch as int, i),
        at.epoch as int,
        inp.category(i),
    )
}

/// Whether a finite count above zero costs more than there is to spend.
spec fn beyond_cash(
    inp: Inputs,
    at: Point,
    i: int,
    units: Binary64,
    spendable: Binary64,
) -> bool {
    let cost = buy_cost(inp, at, i, units);
    &&& units.is_finite()
    &&& 0 < units.value()
    &&& !spendable.is_nan()
    &&& !cost.is_nan()
    &&& spendable.value() < cost.value()
}

/// The whole lots cash covers, with the fixed fee and the rate on top.
spec fn lots_covered(inp: Inputs, at: Point, i: int, spendable: Binary64) -> Binary64 {
    let epoch = at.epoch as int;
    let unit = inp.quote(at.phase as int, at.bar as int, i).times(
        inp.rate_of(MULTIPLIER, epoch, i),
    );
    let one = Binary64 { bits: 0x3ff0_0000_0000_0000 };
    let lot = inp.rate_of(LOT, epoch, i);
    spendable.minus(inp.rate_of(FIXED_FEE, epoch, i)).over(
        unit.times(one.plus(inp.rate_of(BUY_FEE, epoch, i))),
    ).over(lot).floor().times(lot)
}

proof fn lemma_overdrawn(s: PlainState, l: Ledger, inp: Inputs, at: Point, i: int, units: Binary64)
    ensures
        s.terms(l, inp, at, i).overdrawn(inp, units) == beyond_cash(
            inp,
            at,
            i,
            units,
            l.cash.minus(s.locked_total),
        ),
        s.terms(l, inp, at, i).turnover(units) == buy_turnover(inp, at, i, units),
        s.terms(l, inp, at, i).fee(inp, units) == buy_fee(inp, at, i, units),
        s.terms(l, inp, at, i).fitting(inp) == lots_covered(
            inp,
            at,
            i,
            l.cash.minus(s.locked_total),
        ),
{
    arithmetic::lemma_sign(units);
}

/// Backing off takes one lot after another off until the cost is covered, or
/// a lot is too small to move the count.
proof fn lemma_backed_off(
    s: PlainState,
    l: Ledger,
    inp: Inputs,
    at: Point,
    i: int,
    count: Binary64,
    n: int,
) -> (k: int)
    requires
        1 <= n,
    ensures
        ({
            let terms = s.terms(l, inp, at, i);
            let spendable = l.cash.minus(s.locked_total);
            let lot = inp.rate_of(LOT, at.epoch as int, i);
            let from = less_lots(count, lot, n);
            let got = terms.backed_off(inp, from);
            let last = less_lots(count, lot, k);
            &&& n <= k
            &&& forall|j: int|
                n <= j < k ==> beyond_cash(inp, at, i, #[trigger] less_lots(count, lot, j), spendable)
            &&& if beyond_cash(inp, at, i, last, spendable) {
                less_lots(count, lot, k + 1).equals(last) && got == (Binary64 { bits: 0 })
            } else {
                got == last
            }
        }),
    decreases s.terms(l, inp, at, i).distance(less_lots(count, inp.rate_of(LOT, at.epoch as int, i), n)),
{
    let terms: Terms = s.terms(l, inp, at, i);
    let lot: Binary64 = inp.rate_of(LOT, at.epoch as int, i);
    let from: Binary64 = less_lots(count, lot, n);
    let fewer: Binary64 = from.minus(lot);
    lemma_overdrawn(s, l, inp, at, i, from);
    assert(less_lots(count, lot, n + 1) == fewer);
    if !terms.overdrawn(inp, from) {
        n
    } else if fewer.equals(from) {
        n
    } else {
        terms.lemma_nearer(from);
        let k: int = lemma_backed_off(s, l, inp, at, i, count, n + 1);
        k
    }
}

/// What a buy can take of a name: nothing if no more is asked for than is
/// held, or the point does not quote the name above zero. Else what is
/// missing, or the whole lots the cash that no order holds covers if those
/// are fewer; where that still costs more than there is, lot after lot is
/// taken off the whole lots until it does not, or until a lot moves the count
/// no more, and then nothing. Nothing, too, if what is left is nothing or
/// less, or leaves less than the least count. It costs its turnover and fee.
pub proof fn law_what_a_buy_can_take(
    s: PlainState,
    l: Ledger,
    inp: Inputs,
    t: int,
    at: Point,
    i: int,
) -> (k: int)
    ensures
        ({
            let c = t * l.assets + i;
            let zero = Binary64 { bits: 0 };
            let nothing = (zero, zero, zero);
            let price = inp.quote(at.phase as int, at.bar as int, i);
            let lot = inp.rate_of(LOT, at.epoch as int, i);
            let least = inp.rate_of(MIN_LOT, at.epoch as int, i);
            let spendable = l.cash.minus(s.locked_total);
            let missing = l.target[c].minus(l.qty[c]);
            let unit = price.times(inp.rate_of(MULTIPLIER, at.epoch as int, i));
            let rate = inp.rate_of(BUY_FEE, at.epoch as int, i);
            let fixed = inp.rate_of(FIXED_FEE, at.epoch as int, i);
            let one = Binary64 { bits: 0x3ff0_0000_0000_0000 };
            let turnover = |units: Binary64| units.times(unit);
            let fee = |units: Binary64|
                inp.charge(turnover(units), rate, at.epoch as int, inp.category(i));
            let beyond = |units: Binary64|
                {
                    let cost = turnover(units).plus(fee(units));
                    &&& units.is_finite()
                    &&& 0 < units.value()
                    &&& !spendable.is_nan()
                    &&& !cost.is_nan()
                    &&& spendable.value() < cost.value()
                };
            let covered = spendable.minus(fixed).over(unit.times(one.plus(rate))).over(
                lot,
            ).floor().times(lot);
            let short = !covered.is_nan() && !missing.is_nan() && covered.value() < missing.value();
            let first = if short {
                covered
            } else {
                missing
            };
            let last = less_lots(covered, lot, k);
            let take = if !beyond(first) {
                first
            } else if !beyond(last) {
                last
            } else {
                zero
            };
            let held = l.qty[c].plus(take);
            let asks = (missing.is_nan() || 0 < missing.value()) && !price.is_nan() && 0
                < price.value();
            let fits = (take.is_nan() || 0 < take.value()) && (held.is_nan() || least.is_nan()
                || least.value() <= held.value());
            let got = s.affords(l, inp, t, at, i);
            &&& !asks || !fits ==> got == nothing
            &&& asks && fits ==> got == (take, turnover(take), fee(take))
            &&& beyond(first) ==> {
                &&& 1 <= k
                &&& forall|j: int|
                    1 <= j < k ==> beyond(#[trigger] less_lots(covered, lot, j))
                &&& beyond(last) ==> less_lots(
                    covered,
                    lot,
                    k + 1,
                ).equals(last)
            }
        }),
{
    let c: int = t * l.assets + i;
    let zero: Binary64 = Binary64 { bits: 0 };
    let lot: Binary64 = inp.rate_of(LOT, at.epoch as int, i);
    let spendable: Binary64 = l.cash.minus(s.locked_total);
    let missing: Binary64 = l.target[c].minus(l.qty[c]);
    let covered: Binary64 = lots_covered(inp, at, i, spendable);
    let terms: Terms = s.terms(l, inp, at, i);
    let first: Binary64 = if covered.less(missing) {
        covered
    } else {
        missing
    };
    arithmetic::lemma_sign(missing);
    arithmetic::lemma_sign(inp.quote(at.phase as int, at.bar as int, i));
    lemma_overdrawn(s, l, inp, at, i, first);
    let k: int = lemma_backed_off(s, l, inp, at, i, covered, 1);
    assert(less_lots(covered, lot, 1) == covered.minus(lot)) by {
        assert(less_lots(covered, lot, 0) == covered);
    }
    let take: Binary64 = terms.covered(inp, missing);
    lemma_overdrawn(s, l, inp, at, i, take);
    arithmetic::lemma_sign(take);
    k
}

/// What a buy does: nothing, if there is nothing to take. Where the market
/// lets it through, the units are held, so many more may be sold of them if
/// the class settles within the bar, cash pays turnover and fee, and the fee,
/// the turnover and the fill are the bar's. Where it does not, its whole cost
/// is locked. Either way the tranche is doing something with the name, and
/// nothing else moves.
pub proof fn law_what_a_buy_does(
    s: PlainState,
    l: Ledger,
    inp: Inputs,
    t: int,
    at: Point,
    i: int,
)
    requires
        l.wf(),
        s.fits(l.tranches, l.assets),
        0 <= t < l.tranches,
        0 <= i < l.assets,
    ensures
        ({
            let c = t * l.assets + i;
            let (take, turnover, fee) = s.affords(l, inp, t, at, i);
            let buys = take.is_nan() || 0 < take.value();
            let through = inp.can_buy(at.phase as int, at.bar as int, i);
            let (z, m) = s.buy_name(l, inp, t, at, i);
            let cost = turnover.plus(fee);
            &&& !buys ==> z == s && m == l
            &&& buys ==> {
                &&& m.active.len() == l.active.len()
                &&& forall|k: int, x: usize|
                    0 <= k < l.tranches ==> (#[trigger] m.active[k].contains(x)
                        <==> l.active[k].contains(x) || k == t && x == i)
            }
            &&& buys && !through ==> {
                &&& z == (PlainState {
                    locked: s.locked.update(c, cost),
                    locked_total: s.locked_total.plus(cost),
                    ..s
                })
                &&& m == (Ledger { active: m.active, ..l })
            }
            &&& buys && through ==> {
                &&& z == (PlainState {
                    budget: if inp.flag_of(SAME_BAR, i) {
                        s.budget.update(c, s.budget[c].plus(take))
                    } else {
                        s.budget
                    },
                    ..s
                })
                &&& m == (Ledger {
                    active: m.active,
                    qty: l.qty.update(c, l.qty[c].plus(take)),
                    cash: l.cash.minus(cost),
                    fees: l.fees.plus(fee),
                    bought: l.bought.plus(turnover),
                    fills: if l.record_fills {
                        l.fills.push(
                            Fill {
                                bar: at.bar as u32,
                                point: at.phase as u32,
                                tranche: t as i32,
                                asset: i as u32,
                                units: take,
                                price: inp.quote(at.phase as int, at.bar as int, i),
                                fee,
                            },
                        )
                    } else {
                        l.fills
                    },
                    ..l
                })
            }
        }),
{
    let (take, turnover, fee) = s.affords(l, inp, t, at, i);
    arithmetic::lemma_sign(take);
    names::lemma_inserted(l.active[t], i as usize);
    let m: Ledger = s.buy_name(l, inp, t, at, i).1;
    if take.is_nan() || 0 < take.value() {
        assert forall|k: int, x: usize| 0 <= k < l.tranches implies (
        #[trigger] m.active[k].contains(x) <==> l.active[k].contains(x) || k == t && x == i) by {
            assert(m.active == l.touched(t, i).active);
        }
    }
}

/// A standing order tries again where the market lets it: where cash is
/// locked behind a name that can be bought at the point, the lock is freed
/// and the buy is made anew; everywhere else nothing happens.
pub proof fn law_a_standing_order_tries_again(
    s: PlainState,
    l: Ledger,
    inp: Inputs,
    t: int,
    at: Point,
    i: int,
)
    ensures
        ({
            let c = t * s.assets + i;
            let lock = s.locked[c];
            let free = if !lock.is_nan() && 0 < lock.value() {
                PlainState {
                    locked: s.locked.update(c, Binary64 { bits: 0 }),
                    locked_total: s.locked_total.minus(lock),
                    ..s
                }
            } else {
                s
            };
            s.retry_name(l, inp, t, at, i) == if (lock.is_nan() || 0 < lock.value())
                && inp.can_buy(at.phase as int, at.bar as int, i) {
                free.buy_name(l, inp, t, at, i)
            } else {
                (s, l)
            }
        }),
{
    arithmetic::lemma_sign(s.locked[t * s.assets + i]);
}

/// Standing orders try again one after another: tranche by tranche, and
/// within a tranche each name on its list, ascending.
pub proof fn law_standing_orders_try_again_in_order(
    s: PlainState,
    l: Ledger,
    inp: Inputs,
    at: Point,
    n: int,
    k: int,
)
    requires
        0 <= n < l.tranches,
        0 <= k,
    ensures
        Plain::backfilled(s, l, inp, at) == s.backfilled(l, inp, at, l.tranches),
        s.backfilled(l, inp, at, 0) == (s, l),
        ({
            let (z, m) = s.backfilled(l, inp, at, n);
            let list = m.active[n];
            &&& z.retry_names(m, inp, n, at, list.take(0)) == (z, m)
            &&& k < list.len() ==> {
                let (y, j) = z.retry_names(m, inp, n, at, list.take(k));
                z.retry_names(m, inp, n, at, list.take(k + 1)) == y.retry_name(
                    j,
                    inp,
                    n,
                    at,
                    list[k] as int,
                )
            }
            &&& s.backfilled(l, inp, at, n + 1) == z.retry_names(
                m,
                inp,
                n,
                at,
                list.take(list.len() as int),
            )
        }),
{
    let (z, m) = s.backfilled(l, inp, at, n);
    let list: Seq<usize> = m.active[n];
    assert(list.take(list.len() as int) =~= list);
    if k < list.len() {
        assert(list.take(k + 1).drop_last() =~= list.take(k));
    }
}

/// What freeing the cash behind a list of names comes to, of one name.
proof fn lemma_released(s: PlainState, t: int, list: Seq<usize>, i: int)
    requires
        s.fits(s.tranches, s.assets),
        0 <= t < s.tranches,
        0 <= i < s.assets,
        names::ascending(list),
        names::bounded(list, s.assets),
    ensures
        ({
            let c = s.cell(t, i);
            let z = s.released_all(t, list);
            &&& z.fits(s.tranches, s.assets)
            &&& z == (PlainState { locked: z.locked, locked_total: z.locked_total, ..s })
            &&& z.locked[c] == if list.contains(i as usize) && live(s.locked[c]) {
                Binary64::zero()
            } else {
                s.locked[c]
            }
        }),
    decreases list.len(),
{
    ledger::lemma_cell(s.tranches, s.assets, t, i);
    if list.len() > 0 {
        let front: Seq<usize> = list.drop_last();
        let j: int = list.last() as int;
        lemma_ends(list, s.assets, i);
        lemma_released(s, t, front, i);
        lemma_released(s, t, front, j);
        ledger::lemma_cell(s.tranches, s.assets, t, j);
    }
}

proof fn lemma_released_total(s: PlainState, t: int, list: Seq<usize>)
    requires
        s.fits(s.tranches, s.assets),
        0 <= t < s.tranches,
        names::ascending(list),
        names::bounded(list, s.assets),
    ensures
        s.released_all(t, list).locked_total == added(
            s.locked_total,
            terms_below(
                s.assets,
                |i: int| list.contains(i as usize) && live(s.locked[s.cell(t, i)]),
                |i: int| s.locked[s.cell(t, i)].negated(),
            ),
        ),
        forall|c: int|
            0 <= c < s.locked.len() && c / s.assets != t ==> #[trigger] s.released_all(
                t,
                list,
            ).locked[c] == s.locked[c],
    decreases list.len(),
{
    let counts = |i: int| live(s.locked[s.cell(t, i)]);
    let term = |i: int| s.locked[s.cell(t, i)].negated();
    let f = |i: int| list.contains(i as usize) && live(s.locked[s.cell(t, i)]);
    let g = |i: int| list.contains(i as usize) && counts(i);
    worth::lemma_terms_alike(s.assets, f, term, g, term);
    if list.len() > 0 {
        let front: Seq<usize> = list.drop_last();
        let j: int = list.last() as int;
        lemma_ends(list, s.assets, j);
        lemma_released_total(s, t, front);
        lemma_released(s, t, front, j);
        ledger::lemma_cell(s.tranches, s.assets, t, j);
        let h = |i: int| front.contains(i as usize) && live(s.locked[s.cell(t, i)]);
        let k = |i: int| front.contains(i as usize) && counts(i);
        worth::lemma_terms_alike(s.assets, h, term, k, term);
        worth::lemma_listed_terms(list, s.assets, counts, term);
        let rest: Seq<Binary64> = terms_below(s.assets, k, term);
        assert(rest.push(term(j)).drop_last() =~= rest);
        let y: PlainState = s.released_all(t, front);
        assert forall|c: int| 0 <= c < s.locked.len() && c / s.assets != t implies #[trigger]
            s.released_all(t, list).locked[c] == s.locked[c] by {
            assert(y.locked[c] == s.locked[c]);
        }
    } else {
        worth::lemma_terms_end(0, s.assets, g, term);
    }
}

/// What freeing a tranche's orders does: of every name on its list a lock
/// above zero is freed, and taken off what the orders hold, ascending; every
/// other lock stands, and what may be sold is as it was.
pub proof fn law_what_freeing_a_tranche_does(s: PlainState, l: Ledger, t: int, i: int)
    requires
        l.wf(),
        s.fits(l.tranches, l.assets),
        0 <= t < l.tranches,
        0 <= i < l.assets,
    ensures
        ({
            let c = t * l.assets + i;
            let lock = s.locked[c];
            let z = s.released_all(t, l.active[t]);
            &&& z == (PlainState { locked: z.locked, locked_total: z.locked_total, ..s })
            &&& z.locked[c] == if l.active[t].contains(i as usize) && !lock.is_nan() && 0
                < lock.value() {
                Binary64 { bits: 0 }
            } else {
                lock
            }
            &&& forall|k: int|
                0 <= k < s.locked.len() && k / l.assets != t ==> #[trigger] z.locked[k]
                    == s.locked[k]
            &&& z.locked_total == added(
                s.locked_total,
                terms_below(
                    l.assets,
                    |j: int| l.active[t].contains(j as usize) && live(s.locked[t * l.assets + j]),
                    |j: int| s.locked[t * l.assets + j].negated(),
                ),
            )
        }),
{
    assert(names::bounded(l.active[t], l.assets));
    lemma_released(s, t, l.active[t], i);
    lemma_released_total(s, t, l.active[t]);
    arithmetic::lemma_sign(s.locked[t * l.assets + i]);
    worth::lemma_terms_alike(
        l.assets,
        |j: int| l.active[t].contains(j as usize) && live(s.locked[s.cell(t, j)]),
        |j: int| s.locked[s.cell(t, j)].negated(),
        |j: int| l.active[t].contains(j as usize) && live(s.locked[t * l.assets + j]),
        |j: int| s.locked[t * l.assets + j].negated(),
    );
}

/// As a bar closes, every tranche's orders are freed, one tranche after
/// another, and the account is left alone.
pub proof fn law_orders_are_freed_as_a_bar_closes(s: PlainState, l: Ledger, n: int)
    requires
        0 <= n < l.tranches,
    ensures
        Plain::bar_closed(s, l) == (s.expired(l, l.tranches), l),
        s.expired(l, 0) == s,
        s.expired(l, n + 1) == s.expired(l, n).released_all(n, l.active[n]),
{
}

/// What a book remembers of a decision it traded: of each of its names the
/// weight, but where the reduction was refused what it had; and the decision
/// as attained whole exactly if nothing of it was refused. Other tranches,
/// and the rest of the account, are as they were.
pub proof fn law_what_a_book_remembers(l: Ledger, inp: Inputs, t: int, d: int, k: int, i: int)
    requires
        l.wf(),
        0 <= t < l.tranches,
        0 <= d <= i64::MAX,
        0 <= k < l.tranches,
        0 <= i < l.assets,
    ensures
        ({
            let m = l.remembered(inp, t, d);
            let c = k * l.assets + i;
            &&& m == (Ledger { attained: m.attained, attained_row: m.attained_row, ..l })
            &&& m.attained[c] == if k == t && !l.blocked[c] {
                inp.weight(l.run, t, d, i)
            } else {
                l.attained[c]
            }
            &&& k != t ==> m.attained_row[k] == l.attained_row[k]
            &&& m.attained_row[t] == d || m.attained_row[t] == -1
            &&& m.attained_row[t] == d <==> forall|j: int|
                0 <= j < l.assets ==> !#[trigger] l.blocked[l.cell(t, j)]
        }),
{
    ledger::lemma_cell(l.tranches, l.assets, k, i);
}

/// How a tranche acts on a decision: the cash its orders hold is freed, the
/// decision is sized, what is sold is sold before anything is bought, every
/// name on its list is bought one after another, ascending, and what the book
/// attained is remembered.
pub proof fn law_a_decision_goes_in_order(
    s: PlainState,
    l: Ledger,
    inp: Inputs,
    t: int,
    d: int,
    at: Point,
    k: int,
)
    requires
        0 <= k,
    ensures
        ({
            let free = s.released_all(t, l.active[t]);
            let sized = free.sized(l, inp, t, d, at);
            let (sold, after) = free.sell_names(sized, inp, t, at, sized.active[t]);
            let list = after.active[t];
            let (bought, done) = sold.buy_names(after, inp, t, at, list.take(list.len() as int));
            &&& sold.buy_names(after, inp, t, at, list.take(0)) == (sold, after)
            &&& k < list.len() ==> {
                let (y, j) = sold.buy_names(after, inp, t, at, list.take(k));
                sold.buy_names(after, inp, t, at, list.take(k + 1)) == y.buy_name(
                    j,
                    inp,
                    t,
                    at,
                    list[k] as int,
                )
            }
            &&& s.decided(l, inp, t, d, at) == (bought, done.remembered(inp, t, d))
        }),
{
    let free: PlainState = s.released_all(t, l.active[t]);
    let sized: Ledger = free.sized(l, inp, t, d, at);
    let (sold, after) = free.sell_names(sized, inp, t, at, sized.active[t]);
    let list: Seq<usize> = after.active[t];
    assert(list.take(list.len() as int) =~= list);
    if k < list.len() {
        assert(list.take(k + 1).drop_last() =~= list.take(k));
    }
}

/// The tranches that fire act one after another, each on what the one before
/// left, and a tranche that does not fire does nothing.
pub proof fn law_tranches_act_in_order(s: PlainState, l: Ledger, inp: Inputs, at: Point, n: int)
    requires
        0 <= n < l.tranches,
    ensures
        Plain::traded(s, l, inp, at) == s.traded(l, inp, at, l.tranches),
        s.traded(l, inp, at, 0) == (s, l),
        ({
            let (z, m) = s.traded(l, inp, at, n);
            s.traded(l, inp, at, n + 1) == if m.fire[n] < 0 {
                (z, m)
            } else {
                z.decided(m, inp, n, m.fire[n] as int, at)
            }
        }),
{
}

/// Whom an account forgets: exactly the names a tranche holds nothing of, has
/// no target and no refusal for, and that the policy keeps nothing for. What
/// stays is in the order it was, and nothing else of the account moves.
pub proof fn law_whom_an_account_forgets(
    l: Ledger,
    at_rest: spec_fn(int, int) -> bool,
    t: int,
    x: usize,
)
    requires
        l.wf(),
        0 <= t < l.tranches,
    ensures
        ({
            let m = l.swept(at_rest);
            let c = t * l.assets + x;
            let idle = none(l.qty[c]) && none(l.target[c]) && !l.blocked[c];
            &&& m == (Ledger { active: m.active, ..l })
            &&& m.active.len() == l.active.len()
            &&& names::ascending(m.active[t])
            &&& m.active[t].contains(x) <==> l.active[t].contains(x) && !(idle && at_rest(
                t,
                x as int,
            ))
        }),
{
    let keep = |i: int| !(l.idle(t, i) && at_rest(t, i));
    names::lemma_kept(l.active[t], keep);
    assert(l.swept(at_rest).active[t] == names::kept(l.active[t], keep));
}

/// The framework's own policy keeps nothing for a name exactly if nothing of
/// it may be sold and no cash is locked behind it.
pub proof fn law_what_the_policy_keeps(s: PlainState, t: int, i: int)
    ensures
        ({
            let c = t * s.assets + i;
            Plain::rests(s, t, i) == (!s.budget[c].is_nan() && s.budget[c].value() == 0
                && !s.locked[c].is_nan() && s.locked[c].value() == 0)
        }),
{
    arithmetic::lemma_sign(s.budget[t * s.assets + i]);
    arithmetic::lemma_sign(s.locked[t * s.assets + i]);
}

}
