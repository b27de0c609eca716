//! What holds of every account under the framework's own policy.

use vstd::prelude::*;

use crate::arithmetic;
use crate::binary64::Binary64;
use crate::bookkeeping::{Bookkeeping, Plain};
use crate::dense;
use crate::driver;
use crate::inputs::{Inputs, Point};
use crate::inputs::{BOUGHT, CASH, EQUITY, FEES, MIN_FEE, SHORTABLE, SOLD};
use crate::ledger;
use crate::ledger::{live, none, Fill, Ledger};
use crate::names;
use crate::plain::{PlainState, Terms};
use crate::twin;

verus! {

/// A fee is never below the minimum.
pub proof fn law_fee_floor(
    inp: Inputs,
    turnover: Binary64,
    rate: Binary64,
    epoch: int,
    category: int,
)
    ensures
        !inp.charge(turnover, rate, epoch, category).less(
            inp.rated(MIN_FEE as int, epoch, category),
        ),
{
}

/// A missing weight keeps the book.
pub proof fn law_missing_weight_keeps_the_book(
    l: Ledger,
    inp: Inputs,
    t: int,
    i: int,
    weight: Binary64,
    investable: Binary64,
    at: Point,
)
    requires
        weight.is_nan(),
    ensures
        l.struck(inp, t, i, weight, investable, at) == l.qty[l.cell(t, i)],
{
}

/// A name that cannot be sold short is never asked for below zero.
pub proof fn law_no_short(
    l: Ledger,
    inp: Inputs,
    t: int,
    i: int,
    weight: Binary64,
    investable: Binary64,
    at: Point,
)
    requires
        !weight.is_nan(),
        !inp.flag_of(SHORTABLE, i),
    ensures
        !l.struck(inp, t, i, weight, investable, at).less(Binary64::zero()),
{
}

/// Sizing rounds down: a quantity is a whole number of lots no larger than
/// the lots the money buys.
pub proof fn law_whole_lots_rounded_down(
    investable: Binary64,
    weight: Binary64,
    price: Binary64,
    lot: Binary64,
    min_lot: Binary64,
    min_notional: Binary64,
    multiplier: Binary64,
)
    ensures
        ({
            let quantity = crate::inputs::sized(
                investable,
                weight,
                price,
                lot,
                min_lot,
                min_notional,
                multiplier,
            );
            let lots = investable.times(weight).abs().over(price.times(multiplier)).over(lot);
            &&& none(quantity) || quantity == lots.floor().times(lot) || quantity
                == lots.floor().times(lot).negated()
            &&& lots.is_nan() || lots.floor().at_most(lots)
        }),
{
    let lots: Binary64 = investable.times(weight).abs().over(price.times(multiplier)).over(lot);
    arithmetic::lemma_none(Binary64::zero());
    if !lots.is_nan() {
        arithmetic::lemma_floor_at_most(lots);
    }
}

/// Sizing is odd: a weight of the other sign asks for as much the other way,
/// or for nothing if the weight asks for nothing.
pub proof fn law_sizing_is_odd(
    investable: Binary64,
    weight: Binary64,
    price: Binary64,
    lot: Binary64,
    min_lot: Binary64,
    min_notional: Binary64,
    multiplier: Binary64,
)
    requires
        !weight.is_nan(),
    ensures
        ({
            let long = crate::inputs::sized(
                investable,
                weight,
                price,
                lot,
                min_lot,
                min_notional,
                multiplier,
            );
            let short = crate::inputs::sized(
                investable,
                weight.negated(),
                price,
                lot,
                min_lot,
                min_notional,
                multiplier,
            );
            short == long.negated() || (long == Binary64::zero() && short == Binary64::zero())
        }),
{
    reveal(Binary64::times_spec);
    arithmetic::lemma_none(weight);
    arithmetic::lemma_none(weight.negated());
    assert(investable.times(weight).abs() == investable.times(weight.negated()).abs());
    let quantity: Binary64 = investable.times(weight).abs().over(price.times(multiplier)).over(
        lot,
    ).floor().times(lot);
    assert(quantity.negated().negated() == quantity);
}

/// The quantity a sum of money comes to, before anything is too small.
spec fn lots_of(
    investable: Binary64,
    weight: Binary64,
    price: Binary64,
    lot: Binary64,
    multiplier: Binary64,
) -> Binary64 {
    investable.times(weight).abs().over(price.times(multiplier)).over(lot).floor().times(lot)
}

/// A product of two numbers above zero has no sign.
pub(crate) proof fn lemma_product_has_no_sign(a: Binary64, b: Binary64)
    requires
        live(a),
        live(b),
        a.is_finite(),
        b.is_finite(),
    ensures
        !a.times(b).is_nan(),
        !a.times(b).negative(),
{
    reveal(Binary64::times_spec);
    arithmetic::lemma_none(a);
    arithmetic::lemma_none(b);
    arithmetic::lemma_times_ordered(a, a, b);
}

/// What is not a number stays none.
proof fn lemma_lots_are_numbers(
    investable: Binary64,
    weight: Binary64,
    price: Binary64,
    lot: Binary64,
    multiplier: Binary64,
)
    requires
        !lots_of(investable, weight, price, lot, multiplier).is_nan(),
    ensures
        ({
            let value = investable.times(weight).abs();
            let raw = value.over(price.times(multiplier));
            &&& !value.is_nan()
            &&& !raw.is_nan()
            &&& !raw.over(lot).is_nan()
        }),
{
    reveal(Binary64::times_spec);
    reveal(Binary64::over_spec);
    reveal(Binary64::floor_spec);
}

proof fn lemma_lots_grow(
    less: Binary64,
    more: Binary64,
    weight: Binary64,
    price: Binary64,
    lot: Binary64,
    multiplier: Binary64,
)
    requires
        Binary64::zero().at_most(less),
        less.at_most(more),
        more.is_finite(),
        live(weight),
        weight.is_finite(),
        live(price),
        price.is_finite(),
        live(lot),
        lot.is_finite(),
        live(multiplier),
        multiplier.is_finite(),
    ensures
        less.times(weight).abs().at_most(more.times(weight).abs()),
        !lots_of(less, weight, price, lot, multiplier).is_nan() && !lots_of(
            more,
            weight,
            price,
            lot,
            multiplier,
        ).is_nan() ==> lots_of(less, weight, price, lot, multiplier).at_most(
            lots_of(more, weight, price, lot, multiplier),
        ),
        !lots_of(more, weight, price, lot, multiplier).is_nan() ==> Binary64::zero().at_most(
            lots_of(more, weight, price, lot, multiplier),
        ),
{
    arithmetic::lemma_none(weight);
    arithmetic::lemma_none(lot);
    arithmetic::lemma_none(less);
    arithmetic::lemma_none(more);
    arithmetic::lemma_magnitudes_ordered(less, more);
    assert(!less.times(weight).is_nan() && !more.times(weight).is_nan()) by {
        reveal(Binary64::times_spec);
    }
    arithmetic::lemma_times_ordered(less, more, weight);
    let (a, b) = (less.times(weight).abs(), more.times(weight).abs());
    arithmetic::lemma_magnitudes(a, b);
    let unit: Binary64 = price.times(multiplier);
    lemma_product_has_no_sign(price, multiplier);
    let (x, y) = (
        lots_of(less, weight, price, lot, multiplier),
        lots_of(more, weight, price, lot, multiplier),
    );
    if !y.is_nan() {
        lemma_lots_are_numbers(more, weight, price, lot, multiplier);
        arithmetic::lemma_over_ordered(b, b, unit);
        arithmetic::lemma_over_ordered(b.over(unit), b.over(unit), lot);
        arithmetic::lemma_floor_ordered(b.over(unit).over(lot), b.over(unit).over(lot));
        arithmetic::lemma_times_ordered(
            b.over(unit).over(lot).floor(),
            b.over(unit).over(lot).floor(),
            lot,
        );
        arithmetic::lemma_none(y);
        if !x.is_nan() {
            lemma_lots_are_numbers(less, weight, price, lot, multiplier);
            arithmetic::lemma_over_ordered(a, b, unit);
            arithmetic::lemma_over_ordered(a.over(unit), b.over(unit), lot);
            arithmetic::lemma_floor_ordered(a.over(unit).over(lot), b.over(unit).over(lot));
            arithmetic::lemma_times_ordered(
                a.over(unit).over(lot).floor(),
                b.over(unit).over(lot).floor(),
                lot,
            );
            arithmetic::lemma_magnitudes(x, y);
        }
    }
}

/// Sizing does not fall as the money grows: of two sums that are not negative
/// the larger one buys no less. Left out is a quantity that is not a number:
/// a price times a multiplier that is too small or too large for a double.
pub proof fn law_sizing_grows_with_the_money(
    less: Binary64,
    more: Binary64,
    weight: Binary64,
    price: Binary64,
    lot: Binary64,
    min_lot: Binary64,
    min_notional: Binary64,
    multiplier: Binary64,
)
    requires
        Binary64::zero().at_most(less),
        less.at_most(more),
        more.is_finite(),
        live(weight),
        weight.is_finite(),
        live(price),
        price.is_finite(),
        live(lot),
        lot.is_finite(),
        live(multiplier),
        multiplier.is_finite(),
        !crate::inputs::sized(
            less,
            weight,
            price,
            lot,
            min_lot,
            min_notional,
            multiplier,
        ).is_nan(),
        !crate::inputs::sized(
            more,
            weight,
            price,
            lot,
            min_lot,
            min_notional,
            multiplier,
        ).is_nan(),
    ensures
        crate::inputs::sized(
            less,
            weight,
            price,
            lot,
            min_lot,
            min_notional,
            multiplier,
        ).at_most(
            crate::inputs::sized(
                more,
                weight,
                price,
                lot,
                min_lot,
                min_notional,
                multiplier,
            ),
        ),
{
    arithmetic::lemma_none(weight);
    arithmetic::lemma_none(price);
    arithmetic::lemma_none(Binary64::zero());
    lemma_lots_grow(less, more, weight, price, lot, multiplier);
}

/// Backing off stops at a count that fits.
pub(crate) proof fn lemma_backed_off(terms: Terms, inp: Inputs, units: Binary64)
    ensures
        !terms.overdrawn(inp, terms.backed_off(inp, units)),
    decreases terms.distance(units),
{
    arithmetic::lemma_none(Binary64::zero());
    let fewer: Binary64 = units.minus(terms.lot);
    if terms.overdrawn(inp, units) && !fewer.equals(units) {
        terms.lemma_nearer(units);
        lemma_backed_off(terms, inp, fewer);
    }
}

/// A buy fills only from cash on hand: a finite count of units is never
/// bought, nor its cash locked, for more than the account may spend.
pub proof fn law_buy_is_covered(
    s: PlainState,
    l: Ledger,
    inp: Inputs,
    t: int,
    at: Point,
    i: int,
)
    ensures
        ({
            let (take, turnover, fee) = s.affords(l, inp, t, at, i);
            live(take) && take.is_finite() ==> !s.spendable(l).less(turnover.plus(fee))
        }),
{
    let c: int = l.cell(t, i);
    let asked: Binary64 = l.target[c].minus(l.qty[c]);
    let terms: Terms = s.terms(l, inp, at, i);
    lemma_backed_off(terms, inp, terms.fitting(inp).minus(terms.lot));
    assert(!terms.overdrawn(inp, terms.covered(inp, asked)));
    arithmetic::lemma_none(Binary64::zero());
}

/// Nothing is owed: while what the orders hold is not negative, a buy of a
/// finite count leaves the cash at a number that is not negative, or at no
/// number at all.
pub proof fn law_buy_owes_nothing(
    s: PlainState,
    l: Ledger,
    inp: Inputs,
    t: int,
    at: Point,
    i: int,
)
    requires
        Binary64::zero().at_most(s.locked_total),
        ({
            let (take, turnover, fee) = s.affords(l, inp, t, at, i);
            live(take) && take.is_finite()
        }),
    ensures
        ({
            let (take, turnover, fee) = s.affords(l, inp, t, at, i);
            let left = l.cash.minus(turnover.plus(fee));
            left.is_nan() || Binary64::zero().at_most(left)
        }),
{
    let (take, turnover, fee) = s.affords(l, inp, t, at, i);
    let cost: Binary64 = turnover.plus(fee);
    let left: Binary64 = l.cash.minus(cost);
    law_buy_is_covered(s, l, inp, t, at, i);
    reveal(Binary64::plus_spec);
    if !left.is_nan() {
        if s.spendable(l).is_nan() {
            arithmetic::lemma_none(s.locked_total);
            arithmetic::lemma_none(left);
            assert(l.cash.is_infinite() && !l.cash.negative());
        } else {
            arithmetic::lemma_minus_at_most(l.cash, s.locked_total);
            arithmetic::lemma_minus_not_negative(l.cash, cost);
        }
    }
}

/// A buy the market blocks locks its cost, no more and no less, and leaves
/// the account's money, units and quotes as they are: locked cash is not
/// spendable, and still counts in equity.
pub proof fn law_blocked_buy_locks_its_cost(
    s: PlainState,
    l: Ledger,
    inp: Inputs,
    t: int,
    at: Point,
    i: int,
)
    requires
        l.wf(),
        s.fits(l.tranches, l.assets),
        0 <= t < l.tranches,
        0 <= i < l.assets,
        !inp.can_buy(at.phase as int, at.bar as int, i),
        !s.affords(l, inp, t, at, i).0.at_most(Binary64::zero()),
    ensures
        ({
            let (take, turnover, fee) = s.affords(l, inp, t, at, i);
            let (z, m) = s.buy_name(l, inp, t, at, i);
            let cost = turnover.plus(fee);
            &&& z.locked[l.cell(t, i)] == cost
            &&& z.locked_total == s.locked_total.plus(cost)
            &&& z.spendable(m) == l.cash.minus(s.locked_total.plus(cost))
            &&& m.cash == l.cash
            &&& m.qty == l.qty
            &&& m.liq == l.liq
            &&& m.last == l.last
            &&& m.fees == l.fees
            &&& m.fills == l.fills
            &&& dense::worth_of(m, inp, at, l.tranches) == dense::worth_of(
                l,
                inp,
                at,
                l.tranches,
            )
        }),
{
    ledger::lemma_cell(l.tranches, l.assets, t, i);
    let (z, m) = s.buy_name(l, inp, t, at, i);
    twin::lemma_worth_same(m, l, inp, at, l.tranches);
}

/// A refused reduction is cut to what may be sold.
pub proof fn law_refused_reduction_is_cut(
    s: PlainState,
    l: Ledger,
    inp: Inputs,
    t: int,
    at: Point,
    i: int,
)
    requires
        l.blocked[l.cell(t, i)],
    ensures
        s.gives(l, inp, t, at, i) matches Some(give) ==> !s.budget[l.cell(t, i)].less(give),
{
}

/// Settlement only bites when a tranche decides again: while it may sell all
/// it holds, no reduction to a count that is not negative is refused.
pub proof fn law_first_decision_is_not_refused(
    s: PlainState,
    l: Ledger,
    inp: Inputs,
    t: int,
    d: int,
    at: Point,
    money: Binary64,
    i: int,
)
    requires
        l.wf(),
        0 <= t < l.tranches,
        0 <= i < l.assets,
        s.budget[l.cell(t, i)] == l.qty[l.cell(t, i)],
        Binary64::zero().at_most(l.struck(inp, t, i, inp.weight(l.run, t, d, i), money, at)),
    ensures
        !s.size_name(l, inp, t, d, at, money, i).blocked[l.cell(t, i)],
{
    let c: int = l.cell(t, i);
    ledger::lemma_cell(l.tranches, l.assets, t, i);
    let want: Binary64 = l.struck(inp, t, i, inp.weight(l.run, t, d, i), money, at);
    let give: Binary64 = l.qty[c].minus(want);
    if !l.qty[c].is_nan() && !give.is_nan() {
        arithmetic::lemma_minus_at_most(l.qty[c], want);
    }
}

/// A new day releases settlement: what a book holds of a name it is doing
/// something with is what it may sell.
pub proof fn law_new_day_releases(s: PlainState, l: Ledger, t: int, i: int)
    requires
        l.wf(),
        s.fits(l.tranches, l.assets),
        0 <= t < l.tranches,
        0 <= i < l.assets,
        l.active[t].contains(i as usize),
    ensures
        s.dawned(l).budget[l.cell(t, i)] == l.qty[l.cell(t, i)],
{
    ledger::lemma_cell(l.tranches, l.assets, t, i);
}

/// A listed name's cash is free once it is freed.
proof fn lemma_released_listed(s: PlainState, t: int, list: Seq<usize>, x: usize)
    requires
        s.fits(s.tranches, s.assets),
        0 <= t < s.tranches,
        names::bounded(list, s.assets),
        list.contains(x),
    ensures
        !live(s.released_all(t, list).locked[s.cell(t, x as int)]),
    decreases list.len(),
{
    let front: Seq<usize> = list.drop_last();
    let y: int = list.last() as int;
    twin::lemma_bounded_front(list, s.assets);
    twin::lemma_front(list, x);
    s.lemma_released_all(t, front);
    arithmetic::lemma_none(Binary64::zero());
    ledger::lemma_cell(s.tranches, s.assets, t, y);
    if x != y {
        lemma_released_listed(s, t, front, x);
        let k: int = choose|k: int| 0 <= k < list.len() && list[k] == x;
        assert(list[k] < s.assets);
        ledger::lemma_cell(s.tranches, s.assets, t, x as int);
    }
}

/// A fresh decision replaces whatever stood: no cash of the tranche is
/// locked when it is sized.
pub proof fn law_decision_withdraws_orders(s: PlainState, l: Ledger, t: int, i: int)
    requires
        dense::settled(s, l),
        0 <= t < l.tranches,
        0 <= i < l.assets,
    ensures
        !live(s.released_all(t, l.active[t]).locked[l.cell(t, i)]),
{
    let list: Seq<usize> = l.active[t];
    assert(names::bounded(l.active[t], l.assets));
    if list.contains(i as usize) {
        lemma_released_listed(s, t, list, i as usize);
    } else {
        assert(dense::peace(s, l, t, i));
        twin::lemma_released_elsewhere(s, l, t, list);
        twin::lemma_still_at_peace(s, l, s.released_all(t, list), l, t, list, t, i);
        arithmetic::lemma_none(s.released_all(t, list).locked[l.cell(t, i)]);
    }
}

/// Standing orders expire with the bar: no cash is locked after it closes.
pub proof fn law_orders_expire(s: PlainState, l: Ledger, t: int, i: int)
    requires
        dense::settled(s, l),
        0 <= t < l.tranches,
        0 <= i < l.assets,
    ensures
        !live(s.expired(l, l.tranches).locked[l.cell(t, i)]),
{
    lemma_expired(s, l, l.tranches, t, i);
}

proof fn lemma_expired(s: PlainState, l: Ledger, n: int, t: int, i: int)
    requires
        dense::settled(s, l),
        0 <= t < n <= l.tranches,
        0 <= i < l.assets,
    ensures
        !live(s.expired(l, n).locked[l.cell(t, i)]),
        dense::settled(s.expired(l, n), l),
    decreases n,
{
    let before: PlainState = s.expired(l, n - 1);
    let u: int = n - 1;
    lemma_expired_settled(s, l, n - 1);
    lemma_expired_settled(s, l, n);
    if t == u {
        law_decision_withdraws_orders(before, l, t, i);
    } else {
        lemma_expired(s, l, n - 1, t, i);
        assert(names::bounded(l.active[u], l.assets));
        twin::lemma_released_elsewhere(before, l, u, l.active[u]);
        ledger::lemma_cell(l.tranches, l.assets, t, i);
        assert(twin::same_at(
            before,
            l,
            before.released_all(u, l.active[u]),
            l,
            l.cell(t, i),
        ));
    }
}

proof fn lemma_expired_settled(s: PlainState, l: Ledger, n: int)
    requires
        dense::settled(s, l),
        0 <= n <= l.tranches,
    ensures
        dense::settled(s.expired(l, n), l),
{
    assert(twin::twin(s, l, s, l)) by {
        assert forall|c: int| 0 <= c < l.target.len() implies arithmetic::like(
            #[trigger] l.target[c],
            l.target[c],
        ) by {}
    }
    twin::lemma_expired_twin(s, l, s, l, n);
}

/// A holding stuck at the limit leaves its tranche at every point the
/// tranche has a firing at, a firing with nothing to say included.
pub proof fn law_stuck_holdings_leave(l: Ledger, inp: Inputs, at: Point, t: int, i: int)
    requires
        l.wf(),
        0 <= t < l.tranches,
        0 <= i < l.assets,
        l.active[t].contains(i as usize),
        inp.stuck(at.phase as int, at.bar as int, i),
        inp.firing(l.run, t, at.bar as int, at.phase as int) >= 0,
    ensures
        !live(l.fired(inp, at, t).qty[l.cell(t, i)]),
        live(l.qty[l.cell(t, i)]) ==> l.fired(inp, at, t).pool.contains(i as usize),
{
    assert(names::bounded(l.active[t], l.assets) && names::ascending(l.active[t]));
    lemma_stuck(l, inp, at, t, l.active[t], i);
}

proof fn lemma_stuck(l: Ledger, inp: Inputs, at: Point, t: int, list: Seq<usize>, i: int)
    requires
        l.wf(),
        0 <= t < l.tranches,
        0 <= i < l.assets,
        names::ascending(list),
        names::bounded(list, l.assets),
        list.contains(i as usize),
        inp.stuck(at.phase as int, at.bar as int, i),
    ensures
        !live(l.impounded(inp, at, t, list).qty[l.cell(t, i)]),
        live(l.qty[l.cell(t, i)]) ==> l.impounded(inp, at, t, list).pool.contains(i as usize),
    decreases list.len(),
{
    let front: Seq<usize> = list.drop_last();
    let j: int = list.last() as int;
    twin::lemma_bounded_front(list, l.assets);
    twin::lemma_front(list, i as usize);
    let mid: Ledger = l.impounded(inp, at, t, front);
    l.lemma_impounded(inp, at, t, front);
    names::lemma_inserted(mid.pool, j as usize);
    arithmetic::lemma_none(Binary64::zero());
    ledger::lemma_cell(l.tranches, l.assets, t, i);
    ledger::lemma_cell(l.tranches, l.assets, t, j);
    if i != j {
        lemma_stuck(l, inp, at, t, front, i);
    } else {
        assert(!front.contains(i as usize)) by {
            if front.contains(i as usize) {
                let k: int = choose|k: int| 0 <= k < front.len() && front[k] == i;
                assert(list[k] < list[list.len() - 1]);
            }
        }
        twin::lemma_impounded_cells(l, inp, at, t, front);
        assert(mid.qty[l.cell(t, i)] == l.qty[l.cell(t, i)]);
    }
}

/// The pool tries to leave at every point: what can leave there is sold.
pub proof fn law_pool_leaves_when_it_can(l: Ledger, inp: Inputs, at: Point, i: int)
    requires
        l.wf(),
        0 <= i < l.assets,
        l.pool.contains(i as usize),
        l.leaves(inp, at, i),
    ensures
        l.drained(inp, at).liq[i] == Binary64::zero(),
        !l.drained(inp, at).pool.contains(i as usize),
{
    let after: Ledger = l.pool_sold(inp, at, l.pool);
    lemma_pool_left(l, inp, at, l.pool, i);
    arithmetic::lemma_none(Binary64::zero());
    let k: int = choose|k: int| 0 <= k < l.pool.len() && l.pool[k] == i;
    assert(l.leaves(inp, at, l.pool[k] as int));
    names::lemma_kept(l.pool, |j: int| live(after.liq[j]));
}

proof fn lemma_pool_left(l: Ledger, inp: Inputs, at: Point, list: Seq<usize>, i: int)
    requires
        l.wf(),
        0 <= i < l.assets,
        names::ascending(list),
        names::bounded(list, l.assets),
        list.contains(i as usize),
        l.leaves(inp, at, i),
    ensures
        l.pool_sold(inp, at, list).liq[i] == Binary64::zero(),
    decreases list.len(),
{
    let front: Seq<usize> = list.drop_last();
    twin::lemma_bounded_front(list, l.assets);
    twin::lemma_front(list, i as usize);
    l.lemma_pool_sold(inp, at, front);
    if list.last() != i {
        lemma_pool_left(l, inp, at, front, i);
    } else {
        assert(!front.contains(i as usize)) by {
            if front.contains(i as usize) {
                let k: int = choose|k: int| 0 <= k < front.len() && front[k] == i;
                assert(list[k] < list[list.len() - 1]);
            }
        }
        assert(l.pool_sold(inp, at, front).liq[i] == l.liq[i]);
    }
}

/// A corporate action scales the units of every book and of the pool by the
/// ratio of the last quote to the reference close, and marks the name there.
pub proof fn law_corporate_action_scales(l: Ledger, inp: Inputs, bar: int, t: int, i: int)
    requires
        l.wf(),
        inp.has_previous,
        0 <= t < l.tranches,
        0 <= i < l.assets,
        l.rescales(inp, bar, i),
    ensures
        ({
            let c = l.cell(t, i);
            let after = l.rescaled(inp, bar);
            let ratio = l.last[i].over(inp.reference(bar, i));
            &&& after.last[i] == inp.reference(bar, i)
            &&& !none(l.qty[c]) ==> after.qty[c] == l.qty[c].times(ratio) && after.target[c]
                == l.target[c].times(ratio)
            &&& none(l.qty[c]) ==> after.qty[c] == l.qty[c] && after.target[c] == l.target[c]
            &&& live(l.liq[i]) ==> after.liq[i] == l.liq[i].times(ratio)
            &&& after.cash == l.cash
        }),
{
    ledger::lemma_cell(l.tranches, l.assets, t, i);
}

/// Where settlement refused nothing, the book attained the decision: a
/// standing firing of it, or of one with the same weights, is answered.
pub proof fn law_attained_is_answered(l: Ledger, inp: Inputs, t: int, d: int, at: Point)
    requires
        l.wf(),
        0 <= t < l.tranches,
        forall|i: int| 0 <= i < l.assets ==> !#[trigger] l.blocked[l.cell(t, i)],
        ({
            let e = inp.firing(l.run, t, at.bar as int, at.phase as int);
            &&& e >= 0
            &&& forall|i: int|
                0 <= i < l.assets ==> #[trigger] inp.weight(l.run, t, e, i) == inp.weight(
                    l.run,
                    t,
                    d,
                    i,
                )
        }),
        inp.stands(l.run, t, at.bar as int, at.phase as int),
    ensures
        l.remembered(inp, t, d).answered(inp, at, t),
        l.remembered(inp, t, d).attained_row[t] == d as i64,
{
    let m: Ledger = l.remembered(inp, t, d);
    let e: int = inp.firing(l.run, t, at.bar as int, at.phase as int);
    assert forall|i: int| 0 <= i < m.assets implies {
        let asked = inp.weight(m.run, t, e, i);
        let attained = #[trigger] m.attained[m.cell(t, i)];
        asked.equals(attained) || (asked.is_nan() && attained.is_nan())
    } by {
        ledger::lemma_cell(l.tranches, l.assets, t, i);
        assert(!l.blocked[l.cell(t, i)]);
        assert(inp.weight(l.run, t, e, i) == inp.weight(l.run, t, d, i));
    }
    assert(m.attains(inp, t, e));
}

/// Where settlement refused something, the decision is not attained whole.
pub proof fn law_refusal_is_not_attained(l: Ledger, inp: Inputs, t: int, d: int, i: int)
    requires
        l.wf(),
        0 <= t < l.tranches,
        0 <= i < l.assets,
        l.blocked[l.cell(t, i)],
    ensures
        l.remembered(inp, t, d).attained_row[t] == -1,
        l.remembered(inp, t, d).attained[l.cell(t, i)] == l.attained[l.cell(t, i)],
{
    ledger::lemma_cell(l.tranches, l.assets, t, i);
}

/// A firing already answered trades nothing: where nobody decides, trading
/// leaves the policy and the account as they are.
pub proof fn law_nobody_decides(s: PlainState, l: Ledger, inp: Inputs, at: Point, n: int)
    requires
        forall|t: int| 0 <= t < n ==> #[trigger] l.fire[t] < 0,
    ensures
        s.traded(l, inp, at, n) == (s, l),
    decreases n,
{
    if n > 0 {
        law_nobody_decides(s, l, inp, at, n - 1);
        assert(l.fire[n - 1] < 0);
    }
}

/// Whether an account holds nothing, is doing nothing, and has its capital.
pub open spec fn untouched(l: Ledger, inp: Inputs) -> bool {
    &&& l.wf()
    &&& l.suits(inp)
    &&& forall|t: int| 0 <= t < l.tranches ==> (#[trigger] l.active[t]).len() == 0
    &&& l.pool.len() == 0
    &&& forall|c: int| 0 <= c < l.qty.len() ==> none(#[trigger] l.qty[c])
    &&& forall|i: int| 0 <= i < l.assets ==> none(#[trigger] l.liq[i])
    &&& l.cash == inp.capital
    &&& l.fills.len() == 0
}

/// Whether a plan gives no weight to any name.
pub open spec fn asks_nothing(inp: Inputs, run: int) -> bool {
    forall|t: int, d: int, i: int|
        0 <= t < inp.tranches() && 0 <= d < inp.decisions() && 0 <= i < inp.assets() ==> none(
            #[trigger] inp.weight(run, t, d, i),
        )
}

proof fn lemma_row_empty(l: Ledger, inp: Inputs, t: int, d: int, n: int)
    requires
        forall|i: int| 0 <= i < n ==> none(#[trigger] inp.weight(l.run, t, d, i)),
    ensures
        names::where_below(n, |i: int| !none(inp.weight(l.run, t, d, i))).len() == 0,
    decreases n,
{
    if n > 0 {
        lemma_row_empty(l, inp, t, d, n - 1);
        assert(none(inp.weight(l.run, t, d, n - 1)));
    }
}

proof fn lemma_untouched_resolved(l: Ledger, inp: Inputs, at: Point, n: int)
    requires
        untouched(l, inp),
        inp.valid(),
        inp.covers(at),
        0 <= n <= l.tranches,
    ensures
        untouched(l.resolved(inp, at, n), inp),
        l.resolved(inp, at, n) == (Ledger { fire: l.resolved(inp, at, n).fire, ..l }),
    decreases n,
{
    if n > 0 {
        lemma_untouched_resolved(l, inp, at, n - 1);
        let mid: Ledger = l.resolved(inp, at, n - 1);
        mid.lemma_fired(inp, at, n - 1);
        assert(mid.active[n - 1].len() == 0);
        assert(mid.impounded(inp, at, n - 1, mid.active[n - 1]) == mid);
    }
}

proof fn lemma_untouched_backfilled(s: PlainState, l: Ledger, inp: Inputs, at: Point, n: int)
    requires
        untouched(l, inp),
        0 <= n <= l.tranches,
    ensures
        s.backfilled(l, inp, at, n) == (s, l),
    decreases n,
{
    if n > 0 {
        lemma_untouched_backfilled(s, l, inp, at, n - 1);
        assert(l.active[n - 1].len() == 0);
    }
}

proof fn lemma_untouched_traded(s: PlainState, l: Ledger, inp: Inputs, at: Point, n: int)
    requires
        untouched(l, inp),
        inp.valid(),
        asks_nothing(inp, l.run),
        0 <= n <= l.tranches,
    ensures
        ({
            let (z, m) = s.traded(l, inp, at, n);
            &&& z == s
            &&& untouched(m, inp)
            &&& m == (Ledger { attained: m.attained, attained_row: m.attained_row, ..l })
        }),
    decreases n,
{
    if n > 0 {
        lemma_untouched_traded(s, l, inp, at, n - 1);
        let (z, m) = s.traded(l, inp, at, n - 1);
        let t: int = n - 1;
        let d: int = m.fire[t] as int;
        if d >= 0 {
            assert(m.active[t].len() == 0);
            assert(m.fire[t] < inp.decisions());
            assert forall|i: int| 0 <= i < m.assets implies none(
                #[trigger] inp.weight(m.run, t, d, i),
            ) by {}
            lemma_row_empty(m, inp, t, d, m.assets);
            let list: Seq<usize> = names::union(m.row(inp, t, d), m.active[t]);
            assert(list.len() == 0);
            assert(z.released_all(t, m.active[t]) == z);
            assert(z.sized(m, inp, t, d, at) == m);
            assert(z.sell_names(m, inp, t, at, m.active[t]) == (z, m));
            assert(z.buy_names(m, inp, t, at, m.active[t]) == (z, m));
        }
    }
}

proof fn lemma_untouched_point(s: PlainState, l: Ledger, inp: Inputs, at: Point)
    requires
        untouched(l, inp),
        inp.valid(),
        inp.covers(at),
        asks_nothing(inp, l.run),
    ensures
        ({
            let (z, m) = driver::point_walked::<Plain>(s, l, inp, at);
            &&& z == s
            &&& untouched(m, inp)
            &&& m.run == l.run
            &&& m.fees == l.fees
            &&& m.bought == l.bought
            &&& m.sold == l.sold
        }),
{
    let marked: Ledger = l.marked_at(inp, at);
    assert(untouched(marked, inp));
    lemma_untouched_resolved(marked, inp, at, l.tranches);
    let ready: Ledger = marked.resolved(inp, at, l.tranches);
    assert(ready.pool_sold(inp, at, ready.pool) == ready);
    assert(ready.drained(inp, at) == ready);
    lemma_untouched_backfilled(s, ready, inp, at, ready.tranches);
    let read: Ledger = if driver::anybody(ready) {
        ready.snapshot(inp, at)
    } else {
        ready
    };
    assert(untouched(read, inp));
    lemma_untouched_traded(s, read, inp, at, read.tranches);
}

proof fn lemma_untouched_points(s: PlainState, l: Ledger, inp: Inputs, bar: int, n: int)
    requires
        untouched(l, inp),
        inp.valid(),
        0 <= bar < inp.bars(),
        0 <= n <= inp.phases(),
        asks_nothing(inp, l.run),
    ensures
        ({
            let (z, m) = driver::points_walked::<Plain>(s, l, inp, bar, n);
            &&& z == s
            &&& untouched(m, inp)
            &&& m.run == l.run
            &&& m.fees == l.fees
            &&& m.bought == l.bought
            &&& m.sold == l.sold
        }),
    decreases n,
{
    if n > 0 {
        lemma_untouched_points(s, l, inp, bar, n - 1);
        let (z, m) = driver::points_walked::<Plain>(s, l, inp, bar, n - 1);
        twin::lemma_point_covered(inp, bar, n - 1);
        lemma_untouched_point(z, m, inp, driver::point_of(inp, bar, n - 1));
    }
}

proof fn lemma_untouched_expired(s: PlainState, l: Ledger, inp: Inputs, n: int)
    requires
        untouched(l, inp),
        0 <= n <= l.tranches,
    ensures
        s.expired(l, n) == s,
    decreases n,
{
    if n > 0 {
        lemma_untouched_expired(s, l, inp, n - 1);
        assert(l.active[n - 1].len() == 0);
    }
}

proof fn lemma_untouched_bar(s: PlainState, l: Ledger, inp: Inputs, bar: int)
    requires
        untouched(l, inp),
        inp.valid(),
        0 <= bar < inp.bars(),
        asks_nothing(inp, l.run),
    ensures
        ({
            let m = driver::bar_walked::<Plain>(s, l, inp, bar).1;
            &&& untouched(m, inp)
            &&& m.run == l.run
            &&& m.fees == Binary64::zero()
            &&& m.bought == Binary64::zero()
            &&& m.sold == Binary64::zero()
        }),
{
    let marked: Ledger = l.rescaled(inp, bar);
    assert(untouched(marked, inp)) by {
        assert forall|c: int| 0 <= c < marked.qty.len() implies none(#[trigger] marked.qty[c]) by {
            assert(none(l.qty[c]));
        }
        assert forall|i: int| 0 <= i < marked.assets implies none(#[trigger] marked.liq[i]) by {
            assert(none(l.liq[i]));
            arithmetic::lemma_none(l.liq[i]);
        }
    }
    let (woken, opened) = driver::morning::<Plain>(s, l, inp, bar);
    assert(untouched(opened, inp));
    lemma_untouched_points(woken, opened, inp, bar, inp.phases());
    let (book, done) = driver::points_walked::<Plain>(woken, opened, inp, bar, inp.phases());
    lemma_untouched_expired(book, done, inp, done.tranches);
}

/// An account that holds nothing is worth its cash.
proof fn lemma_untouched_equity(l: Ledger, inp: Inputs, at: Point)
    requires
        untouched(l, inp),
    ensures
        l.closing_equity(inp, at) == l.cash.plus(Binary64::zero()),
        forall|i: int| 0 <= i < l.assets ==> none(#[trigger] l.holds(i)),
{
    assert forall|i: int| 0 <= i < l.assets implies none(#[trigger] l.holds(i)) by {
        assert forall|t: int| 0 <= t < l.tranches implies none(
            l.qty[#[trigger] l.cell(t, i)],
        ) by {
            ledger::lemma_cell(l.tranches, l.assets, t, i);
        }
        twin::lemma_held_none(l, l.tranches, i);
    }
    l.lemma_names_of(l.tranches);
    names::lemma_where_below(l.assets, |i: int| true);
    let list: Seq<usize> = l.closing_names(inp);
    lemma_worthless(l, inp, at, list);
}

proof fn lemma_worthless(l: Ledger, inp: Inputs, at: Point, list: Seq<usize>)
    requires
        names::bounded(list, l.assets),
        forall|i: int| 0 <= i < l.assets ==> none(#[trigger] l.holds(i)),
    ensures
        l.holdings_value(inp, at, list) == Binary64::zero(),
    decreases list.len(),
{
    if list.len() > 0 {
        twin::lemma_bounded_front(list, l.assets);
        lemma_worthless(l, inp, at, list.drop_last());
        assert(none(l.holds(list.last() as int)));
    }
}

proof fn lemma_untouched_walk(inp: Inputs, run: int, n: int)
    requires
        inp.valid(),
        0 <= run < inp.runs(),
        0 <= n <= inp.bars(),
        asks_nothing(inp, run),
    ensures
        untouched(driver::walked::<Plain>(inp, run, n).1, inp),
        driver::walked::<Plain>(inp, run, n).1.run == run,
    decreases n,
{
    if n <= 0 {
        twin::lemma_start_settled(inp, run);
        arithmetic::lemma_none(Binary64::zero());
    } else {
        lemma_untouched_walk(inp, run, n - 1);
        let (s, l) = driver::walked::<Plain>(inp, run, n - 1);
        lemma_untouched_bar(s, l, inp, n - 1);
        let (book, closed) = driver::bar_walked::<Plain>(s, l, inp, n - 1);
        let swept: Ledger = closed.swept(|t: int, i: int| Plain::rests(book, t, i));
        assert forall|t: int| 0 <= t < swept.tranches implies (#[trigger] swept.active[t]).len()
            == 0 by {
            assert(closed.active[t].len() == 0);
        }
    }
}

/// An account holding nothing keeps its capital: under a plan that gives no
/// weight to any name, every bar reports the capital as cash, nothing
/// bought, sold or paid in fees, no position, and the capital as equity.
pub proof fn law_holding_nothing_keeps_capital(inp: Inputs, run: int, bar: int)
    requires
        inp.valid(),
        0 <= run < inp.runs(),
        0 <= bar < inp.bars(),
        asks_nothing(inp, run),
    ensures
        driver::series::<Plain>(inp, run, CASH as int, bar) == inp.capital,
        driver::series::<Plain>(inp, run, FEES as int, bar) == Binary64::zero(),
        driver::series::<Plain>(inp, run, BOUGHT as int, bar) == Binary64::zero(),
        driver::series::<Plain>(inp, run, SOLD as int, bar) == Binary64::zero(),
        driver::series::<Plain>(inp, run, EQUITY as int, bar) == inp.capital.plus(
            Binary64::zero(),
        ),
        !inp.capital.is_nan() ==> driver::series::<Plain>(inp, run, EQUITY as int, bar).equals(
            inp.capital,
        ),
        forall|i: int|
            0 <= i < inp.assets() ==> none(
                #[trigger] driver::closing::<Plain>(inp, run, bar).holds(i),
            ),
        driver::walked::<Plain>(inp, run, bar + 1).1.fills == Seq::<Fill>::empty(),
{
    lemma_untouched_walk(inp, run, bar);
    lemma_untouched_walk(inp, run, bar + 1);
    let (s, l) = driver::walked::<Plain>(inp, run, bar);
    lemma_untouched_bar(s, l, inp, bar);
    let closed: Ledger = driver::closing::<Plain>(inp, run, bar);
    lemma_untouched_equity(closed, inp, driver::point_of(inp, bar, inp.phases() - 1));
    if !inp.capital.is_nan() {
        arithmetic::lemma_plus_zero(inp.capital);
    }
}

}
