//! What the record of fills is.
//!
//! Fills come in walk order, so each bar's are one contiguous stretch, point
//! after point. What a bar reports as fees is what its fills paid, and what it
//! reports as bought and sold is what they turned over, added in that order.

use vstd::prelude::*;

use crate::agreement;
use crate::agreement::{alike_at, alike_on, attentive, handed, same_asks, same_bar};
use crate::agreement::{same_terms, underway};
use crate::binary64::Binary64;
use crate::bookkeeping::{Bookkeeping, Plain};
use crate::driver;
use crate::inputs::{Inputs, Point, MULTIPLIER};
use crate::ledger::{live, Fill, Ledger};
use crate::names;
use crate::orders::{exact_minus, exact_plus};
use crate::plain::PlainState;
use crate::plugin;
use crate::silence;
use crate::twin;

verus! {

/// The fees of a list of fills added to `start`, in the list's order.
pub open spec fn fees_paid(start: Binary64, fills: Seq<Fill>) -> Binary64
    decreases fills.len(),
{
    if fills.len() == 0 {
        start
    } else {
        fees_paid(start, fills.drop_last()).plus(fills.last().fee)
    }
}

/// What a fill turned over under an epoch's rules. A buy's units are priced
/// at the cost of one, a sale's units at the price and then by the
/// multiplier; the two may differ in the last bit.
pub open spec fn turnover_of(inp: Inputs, epoch: int, fill: Fill) -> Binary64 {
    let multiplier = inp.rate_of(MULTIPLIER, epoch, fill.asset as int);
    if live(fill.units) {
        fill.units.times(fill.price.times(multiplier))
    } else {
        fill.units.negated().times(fill.price).times(multiplier)
    }
}

/// The turnover of the buys in a list of fills added to `start`, in the
/// list's order.
pub open spec fn bought_in(
    inp: Inputs,
    epoch: int,
    start: Binary64,
    fills: Seq<Fill>,
) -> Binary64
    decreases fills.len(),
{
    if fills.len() == 0 {
        start
    } else {
        let rest = bought_in(inp, epoch, start, fills.drop_last());
        if live(fills.last().units) {
            rest.plus(turnover_of(inp, epoch, fills.last()))
        } else {
            rest
        }
    }
}

/// The turnover of the sales in a list of fills added to `start`, in the
/// list's order.
pub open spec fn sold_in(inp: Inputs, epoch: int, start: Binary64, fills: Seq<Fill>) -> Binary64
    decreases fills.len(),
{
    if fills.len() == 0 {
        start
    } else {
        let rest = sold_in(inp, epoch, start, fills.drop_last());
        if live(fills.last().units) {
            rest
        } else {
            rest.plus(turnover_of(inp, epoch, fills.last()))
        }
    }
}

/// What cash comes to as a list of fills is settled, one after another: a buy
/// draws its turnover and its fee, a sale pays in what its turnover leaves of
/// the fee.
pub open spec fn settled_in(
    inp: Inputs,
    epoch: int,
    start: Binary64,
    fills: Seq<Fill>,
) -> Binary64
    decreases fills.len(),
{
    if fills.len() == 0 {
        start
    } else {
        let rest = settled_in(inp, epoch, start, fills.drop_last());
        let turnover = turnover_of(inp, epoch, fills.last());
        if live(fills.last().units) {
            rest.minus(turnover.plus(fills.last().fee))
        } else {
            rest.plus(turnover.minus(fills.last().fee))
        }
    }
}

/// Whether every fill is of a number of units.
pub open spec fn numbered(fills: Seq<Fill>) -> bool {
    forall|k: int| 0 <= k < fills.len() ==> !(#[trigger] fills[k]).units.is_nan()
}

/// Whether the names can be told apart on record, where they stand as 32
/// bits.
pub open spec fn nameable(inp: Inputs) -> bool {
    inp.assets() <= u32::MAX + 1
}

/// Whether fills come point after point, from one point of a bar to another.
pub open spec fn in_points(fills: Seq<Fill>, from: Point, to: Point) -> bool {
    &&& forall|k: int|
        0 <= k < fills.len() ==> from.phase <= (#[trigger] fills[k]).point <= to.phase
    &&& forall|j: int, k: int| 0 <= j <= k < fills.len() ==> fills[j].point <= fills[k].point
}

/// Whether `m` has the fills of `l` on record and then some made from one
/// point of a bar to another, and paid just their fees and turned over just
/// what they did.
pub open spec fn recorded(inp: Inputs, l: Ledger, m: Ledger, from: Point, to: Point) -> bool {
    let made = m.fills.skip(l.fills.len() as int);
    let epoch = to.epoch as int;
    &&& m.record_fills == l.record_fills
    &&& l.record_fills ==> {
        &&& l.fills.len() <= m.fills.len()
        &&& m.fills.take(l.fills.len() as int) == l.fills
        &&& forall|k: int| 0 <= k < made.len() ==> (#[trigger] made[k]).bar == to.bar as u32
        &&& to.phase <= u32::MAX ==> in_points(made, from, to)
        &&& m.fees == fees_paid(l.fees, made)
        &&& nameable(inp) && numbered(made) ==> {
            &&& m.bought == bought_in(inp, epoch, l.bought, made)
            &&& m.sold == sold_in(inp, epoch, l.sold, made)
            &&& m.cash == settled_in(inp, epoch, l.cash, made)
        }
    }
    &&& !l.record_fills ==> m.fills == l.fills
}

/// Whether one ledger has the fills of another on record and then only fills
/// of one bar.
pub open spec fn adds_fills(l: Ledger, m: Ledger, bar: usize) -> bool {
    &&& l.fills.len() <= m.fills.len()
    &&& m.fills.take(l.fills.len() as int) == l.fills
    &&& forall|k: int|
        l.fills.len() <= k < m.fills.len() ==> (#[trigger] m.fills[k]).bar == bar as u32
}

/// What is put on record of a bar only adds to the record.
proof fn lemma_adds_fills(inp: Inputs, l: Ledger, m: Ledger, from: Point, to: Point)
    requires
        recorded(inp, l, m, from, to),
    ensures
        adds_fills(l, m, to.bar),
{
    let n: int = l.fills.len() as int;
    if l.record_fills {
        let made: Seq<Fill> = m.fills.skip(n);
        assert forall|k: int| n <= k < m.fills.len() implies (#[trigger] m.fills[k]).bar
            == to.bar as u32 by {
            assert(made[k - n].bar == to.bar as u32);
        }
    } else {
        assert(m.fills.take(n) =~= l.fills);
    }
}

/// Whether two points are of one bar, the one no later than the other.
pub open spec fn within(from: Point, to: Point) -> bool {
    from.bar == to.bar && from.epoch == to.epoch && from.phase <= to.phase
}

/// Nothing happening is on record as nothing.
proof fn lemma_recorded_none(inp: Inputs, l: Ledger, m: Ledger, from: Point, to: Point)
    requires
        m.record_fills == l.record_fills,
        m.fills == l.fills,
        m.fees == l.fees,
        m.bought == l.bought,
        m.sold == l.sold,
        m.cash == l.cash,
    ensures
        recorded(inp, l, m, from, to),
{
    assert(m.fills.take(l.fills.len() as int) =~= l.fills);
    assert(m.fills.skip(l.fills.len() as int) =~= Seq::<Fill>::empty());
}

/// Adding up a list of fills and then another is adding up both.
proof fn lemma_added(inp: Inputs, epoch: int, start: Binary64, a: Seq<Fill>, b: Seq<Fill>)
    ensures
        fees_paid(start, a + b) == fees_paid(fees_paid(start, a), b),
        bought_in(inp, epoch, start, a + b) == bought_in(
            inp,
            epoch,
            bought_in(inp, epoch, start, a),
            b,
        ),
        sold_in(inp, epoch, start, a + b) == sold_in(
            inp,
            epoch,
            sold_in(inp, epoch, start, a),
            b,
        ),
        settled_in(inp, epoch, start, a + b) == settled_in(
            inp,
            epoch,
            settled_in(inp, epoch, start, a),
            b,
        ),
    decreases b.len(),
{
    if b.len() == 0 {
        assert(a + b =~= a);
    } else {
        lemma_added(inp, epoch, start, a, b.drop_last());
        assert((a + b).drop_last() =~= a + b.drop_last());
    }
}

/// One thing after another.
proof fn lemma_recorded_both(
    inp: Inputs,
    l: Ledger,
    m: Ledger,
    k: Ledger,
    from: Point,
    mid: Point,
    to: Point,
)
    requires
        recorded(inp, l, m, from, mid),
        recorded(inp, m, k, mid, to),
        within(from, mid),
        within(mid, to),
    ensures
        recorded(inp, l, k, from, to),
{
    if l.record_fills {
        let a: int = l.fills.len() as int;
        let b: int = m.fills.len() as int;
        let first: Seq<Fill> = m.fills.skip(a);
        let second: Seq<Fill> = k.fills.skip(b);
        let both: Seq<Fill> = k.fills.skip(a);
        assert(k.fills.take(a) =~= k.fills.take(b).take(a));
        assert(both =~= first + second) by {
            assert(k.fills.take(b) == m.fills);
            assert forall|j: int| 0 <= j < k.fills.len() - a implies both[j] == (first
                + second)[j] by {
                if j < b - a {
                    assert(k.fills.take(b)[a + j] == m.fills[a + j]);
                }
            }
        }
        lemma_added(inp, to.epoch as int, l.fees, first, second);
        lemma_added(inp, to.epoch as int, l.bought, first, second);
        lemma_added(inp, to.epoch as int, l.sold, first, second);
        lemma_added(inp, to.epoch as int, l.cash, first, second);
        let n: int = first.len() as int;
        assert forall|j: int| 0 <= j < both.len() implies (#[trigger] both[j]).bar
            == to.bar as u32 by {
            if j < n {
                assert(both[j] == first[j]);
            } else {
                assert(both[j] == second[j - n]);
            }
        }
        if to.phase <= u32::MAX {
            assert forall|j: int| 0 <= j < both.len() implies from.phase <= (
            #[trigger] both[j]).point <= to.phase by {
                if j < n {
                    assert(both[j] == first[j]);
                } else {
                    assert(both[j] == second[j - n]);
                }
            }
            assert forall|i: int, j: int| 0 <= i <= j < both.len() implies both[i].point
                <= both[j].point by {
                if j < n {
                    assert(both[i] == first[i] && both[j] == first[j]);
                } else if i < n {
                    assert(both[i] == first[i] && both[j] == second[j - n]);
                    assert(first[i].point <= mid.phase <= second[j - n].point);
                } else {
                    assert(both[i] == second[i - n] && both[j] == second[j - n]);
                }
            }
        }
        if numbered(both) {
            assert forall|j: int| 0 <= j < n implies !(#[trigger] first[j]).units.is_nan() by {
                assert(both[j] == first[j]);
            }
            assert forall|j: int| 0 <= j < second.len() implies !(
            #[trigger] second[j]).units.is_nan() by {
                assert(both[n + j] == second[j]);
            }
        }
    }
}

/// One fill, with its fee paid and its turnover booked, is on record as that.
proof fn lemma_recorded_fill(
    inp: Inputs,
    l: Ledger,
    m: Ledger,
    at: Point,
    tranche: i32,
    i: int,
    units: Binary64,
    price: Binary64,
    fee: Binary64,
)
    requires
        0 <= i < inp.assets(),
        m.record_fills == l.record_fills,
        m.fills == l.fills,
        m.fees == l.fees.plus(fee),
        !units.is_nan() ==> {
            let multiplier = inp.rate_of(MULTIPLIER, at.epoch as int, i);
            if live(units) {
                let turnover = units.times(price.times(multiplier));
                &&& m.bought == l.bought.plus(turnover)
                &&& m.sold == l.sold
                &&& m.cash == l.cash.minus(turnover.plus(fee))
            } else {
                let turnover = units.negated().times(price).times(multiplier);
                &&& m.bought == l.bought
                &&& m.sold == l.sold.plus(turnover)
                &&& m.cash == l.cash.plus(turnover.minus(fee))
            }
        },
    ensures
        recorded(inp, l, m.filled(at, tranche, i, units, price, fee), at, at),
{
    if l.record_fills {
        let k: Ledger = m.filled(at, tranche, i, units, price, fee);
        let n: int = l.fills.len() as int;
        let epoch: int = at.epoch as int;
        assert(k.fills.take(n) =~= l.fills);
        let made: Seq<Fill> = k.fills.skip(n);
        assert(made =~= seq![k.fills[n]]);
        let none: Seq<Fill> = made.drop_last();
        assert(none =~= Seq::<Fill>::empty());
        assert(fees_paid(l.fees, none) == l.fees);
        assert(bought_in(inp, epoch, l.bought, none) == l.bought);
        assert(sold_in(inp, epoch, l.sold, none) == l.sold);
        assert(settled_in(inp, epoch, l.cash, none) == l.cash);
        if nameable(inp) && numbered(made) {
            assert(!made[0].units.is_nan());
            assert(made[0].asset == i);
        }
    }
}

/// Whether a ledger is one these inputs can be walked with at a point.
pub open spec fn sound(inp: Inputs, l: Ledger, at: Point) -> bool {
    alike_at(inp, inp, l, at)
}

proof fn lemma_pool_recorded(l: Ledger, inp: Inputs, at: Point, list: Seq<usize>)
    requires
        l.assets == inp.assets(),
        names::bounded(list, l.assets),
    ensures
        recorded(inp, l, l.pool_sold(inp, at, list), at, at),
        l.pool_sold(inp, at, list).assets == l.assets,
    decreases list.len(),
{
    if list.len() == 0 {
        lemma_recorded_none(inp, l, l, at, at);
    } else {
        twin::lemma_bounded_front(list, l.assets);
        lemma_pool_recorded(l, inp, at, list.drop_last());
        let m: Ledger = l.pool_sold(inp, at, list.drop_last());
        let i: int = list.last() as int;
        let k: Ledger = m.sell_pooled(inp, at, i);
        if m.leaves(inp, at, i) {
            let price: Binary64 = inp.quote(at.phase as int, at.bar as int, i);
            let give: Binary64 = m.liq[i];
            let turnover: Binary64 = give.times(price).times(
                inp.rate_of(MULTIPLIER, at.epoch as int, i),
            );
            let fee: Binary64 = inp.charge(
                turnover,
                inp.rate_of(crate::inputs::SELL_FEE, at.epoch as int, i),
                at.epoch as int,
                inp.category(i),
            );
            let paid: Ledger = Ledger {
                liq: m.liq.update(i, Binary64::zero()),
                cash: m.cash.plus(turnover.minus(fee)),
                fees: m.fees.plus(fee),
                sold: m.sold.plus(turnover),
                ..m
            };
            lemma_given(give);
            lemma_recorded_fill(
                inp,
                m,
                paid,
                at,
                crate::ledger::POOL,
                i,
                give.negated(),
                price,
                fee,
            );
        } else {
            lemma_recorded_none(inp, m, k, at, at);
        }
        lemma_recorded_both(inp, l, m, k, at, at, at);
    }
}

/// What is given away stands on record below zero.
proof fn lemma_given(give: Binary64)
    requires
        !give.at_most(Binary64::zero()),
    ensures
        !live(give.negated()),
        give.negated().negated() == give,
        give.negated().is_nan() == give.is_nan(),
{
    crate::arithmetic::lemma_none(give);
    crate::arithmetic::lemma_none(give.negated());
}

proof fn lemma_size_recorded(
    s: PlainState,
    l: Ledger,
    inp: Inputs,
    t: int,
    d: int,
    at: Point,
    money: Binary64,
    list: Seq<usize>,
)
    ensures
        s.size_names(l, inp, t, d, at, money, list).record_fills == l.record_fills,
        s.size_names(l, inp, t, d, at, money, list).fills == l.fills,
        s.size_names(l, inp, t, d, at, money, list).fees == l.fees,
        s.size_names(l, inp, t, d, at, money, list).bought == l.bought,
        s.size_names(l, inp, t, d, at, money, list).sold == l.sold,
        s.size_names(l, inp, t, d, at, money, list).cash == l.cash,
    decreases list.len(),
{
    if list.len() > 0 {
        lemma_size_recorded(s, l, inp, t, d, at, money, list.drop_last());
    }
}

proof fn lemma_sell_name_recorded(
    s: PlainState,
    l: Ledger,
    inp: Inputs,
    t: int,
    at: Point,
    i: int,
)
    requires
        0 <= i < inp.assets(),
    ensures
        recorded(inp, l, s.sell_name(l, inp, t, at, i).1, at, at),
        s.sell_name(l, inp, t, at, i).1.assets == l.assets,
{
    let c: int = l.cell(t, i);
    let epoch: int = at.epoch as int;
    let price: Binary64 = inp.quote(at.phase as int, at.bar as int, i);
    match s.gives(l, inp, t, at, i) {
        None => {
            lemma_recorded_none(inp, l, l, at, at);
        },
        Some(give) => {
            let turnover: Binary64 = give.times(price).times(inp.rate_of(MULTIPLIER, epoch, i));
            let fee: Binary64 = inp.charge(
                turnover,
                inp.rate_of(crate::inputs::SELL_FEE, epoch, i),
                epoch,
                inp.category(i),
            );
            let paid: Ledger = Ledger {
                qty: l.qty.update(c, l.qty[c].minus(give)),
                cash: l.cash.plus(turnover.minus(fee)),
                fees: l.fees.plus(fee),
                sold: l.sold.plus(turnover),
                ..l
            };
            lemma_given(give);
            lemma_recorded_fill(inp, l, paid, at, t as i32, i, give.negated(), price, fee);
        },
    }
}

proof fn lemma_sell_recorded(
    s: PlainState,
    l: Ledger,
    inp: Inputs,
    t: int,
    at: Point,
    list: Seq<usize>,
)
    requires
        names::bounded(list, inp.assets()),
    ensures
        recorded(inp, l, s.sell_names(l, inp, t, at, list).1, at, at),
    decreases list.len(),
{
    if list.len() == 0 {
        lemma_recorded_none(inp, l, l, at, at);
    } else {
        twin::lemma_bounded_front(list, inp.assets());
        lemma_sell_recorded(s, l, inp, t, at, list.drop_last());
        let (z, m) = s.sell_names(l, inp, t, at, list.drop_last());
        let i: int = list.last() as int;
        lemma_sell_name_recorded(z, m, inp, t, at, i);
        lemma_recorded_both(inp, l, m, z.sell_name(m, inp, t, at, i).1, at, at, at);
    }
}

proof fn lemma_buy_name_recorded(
    s: PlainState,
    l: Ledger,
    inp: Inputs,
    t: int,
    at: Point,
    i: int,
)
    requires
        0 <= i < inp.assets(),
    ensures
        recorded(inp, l, s.buy_name(l, inp, t, at, i).1, at, at),
{
    let c: int = l.cell(t, i);
    let (take, turnover, fee) = s.affords(l, inp, t, at, i);
    if take.at_most(Binary64::zero()) {
        lemma_recorded_none(inp, l, l, at, at);
    } else if !inp.can_buy(at.phase as int, at.bar as int, i) {
        lemma_recorded_none(inp, l, l.touched(t, i), at, at);
    } else {
        let price: Binary64 = inp.quote(at.phase as int, at.bar as int, i);
        let paid: Ledger = Ledger {
            qty: l.qty.update(c, l.qty[c].plus(take)),
            cash: l.cash.minus(turnover.plus(fee)),
            fees: l.fees.plus(fee),
            bought: l.bought.plus(turnover),
            ..l.touched(t, i)
        };
        crate::arithmetic::lemma_none(take);
        crate::arithmetic::lemma_none(Binary64::zero());
        lemma_recorded_fill(inp, l, paid, at, t as i32, i, take, price, fee);
    }
}

proof fn lemma_buy_recorded(
    s: PlainState,
    l: Ledger,
    inp: Inputs,
    t: int,
    at: Point,
    list: Seq<usize>,
)
    requires
        names::bounded(list, inp.assets()),
    ensures
        recorded(inp, l, s.buy_names(l, inp, t, at, list).1, at, at),
    decreases list.len(),
{
    if list.len() == 0 {
        lemma_recorded_none(inp, l, l, at, at);
    } else {
        twin::lemma_bounded_front(list, inp.assets());
        lemma_buy_recorded(s, l, inp, t, at, list.drop_last());
        let (z, m) = s.buy_names(l, inp, t, at, list.drop_last());
        let i: int = list.last() as int;
        lemma_buy_name_recorded(z, m, inp, t, at, i);
        lemma_recorded_both(inp, l, m, z.buy_name(m, inp, t, at, i).1, at, at, at);
    }
}

proof fn lemma_retry_recorded(
    s: PlainState,
    l: Ledger,
    inp: Inputs,
    t: int,
    at: Point,
    list: Seq<usize>,
)
    requires
        names::bounded(list, inp.assets()),
    ensures
        recorded(inp, l, s.retry_names(l, inp, t, at, list).1, at, at),
    decreases list.len(),
{
    if list.len() == 0 {
        lemma_recorded_none(inp, l, l, at, at);
    } else {
        twin::lemma_bounded_front(list, inp.assets());
        lemma_retry_recorded(s, l, inp, t, at, list.drop_last());
        let (z, m) = s.retry_names(l, inp, t, at, list.drop_last());
        let i: int = list.last() as int;
        let k: Ledger = z.retry_name(m, inp, t, at, i).1;
        lemma_buy_name_recorded(z.released(z.cell(t, i)), m, inp, t, at, i);
        lemma_recorded_none(inp, m, m, at, at);
        lemma_recorded_both(inp, l, m, k, at, at, at);
    }
}

proof fn lemma_backfilled_recorded(s: PlainState, l: Ledger, inp: Inputs, at: Point, n: int)
    requires
        sound(inp, l, at),
        s.fits(l.tranches, l.assets),
        0 <= n <= l.tranches,
    ensures
        recorded(inp, l, s.backfilled(l, inp, at, n).1, at, at),
    decreases n,
{
    if n <= 0 {
        lemma_recorded_none(inp, l, l, at, at);
    } else {
        lemma_backfilled_recorded(s, l, inp, at, n - 1);
        agreement::lemma_backfilled(inp, inp, s, l, at, n - 1);
        let (z, m) = s.backfilled(l, inp, at, n - 1);
        assert(names::bounded(m.active[n - 1], m.assets));
        lemma_retry_recorded(z, m, inp, n - 1, at, m.active[n - 1]);
        lemma_recorded_both(
            inp,
            l,
            m,
            z.retry_names(m, inp, n - 1, at, m.active[n - 1]).1,
            at,
            at,
            at,
        );
    }
}

proof fn lemma_decided_recorded(
    s: PlainState,
    l: Ledger,
    inp: Inputs,
    t: int,
    d: int,
    at: Point,
)
    requires
        sound(inp, l, at),
        s.fits(l.tranches, l.assets),
        0 <= t < l.tranches,
    ensures
        recorded(inp, l, s.decided(l, inp, t, d, at).1, at, at),
{
    let free: PlainState = s.released_all(t, l.active[t]);
    assert(names::bounded(l.active[t], l.assets));
    s.lemma_released_all(t, l.active[t]);
    let list: Seq<usize> = names::union(l.row(inp, t, d), l.active[t]);
    let sized: Ledger = free.sized(l, inp, t, d, at);
    agreement::lemma_sized(inp, inp, free, l, t, d, at);
    lemma_size_recorded(free, l, inp, t, d, at, free.funds(l, inp, t, d, at), list);
    lemma_recorded_none(inp, l, sized, at, at);
    let (sold, after) = free.sell_names(sized, inp, t, at, sized.active[t]);
    assert(names::bounded(sized.active[t], sized.assets));
    agreement::lemma_sell_names(inp, inp, free, sized, t, at, sized.active[t]);
    lemma_sell_recorded(free, sized, inp, t, at, sized.active[t]);
    lemma_recorded_both(inp, l, sized, after, at, at, at);
    let (bought, done) = sold.buy_names(after, inp, t, at, after.active[t]);
    assert(names::bounded(after.active[t], after.assets));
    lemma_buy_recorded(sold, after, inp, t, at, after.active[t]);
    lemma_recorded_both(inp, l, after, done, at, at, at);
    lemma_recorded_none(inp, done, done.remembered(inp, t, d), at, at);
    lemma_recorded_both(inp, l, done, done.remembered(inp, t, d), at, at, at);
}

proof fn lemma_traded_recorded(s: PlainState, l: Ledger, inp: Inputs, at: Point, n: int)
    requires
        sound(inp, l, at),
        s.fits(l.tranches, l.assets),
        agreement::fires_at(l, inp, at),
        0 <= n <= l.tranches,
    ensures
        recorded(inp, l, s.traded(l, inp, at, n).1, at, at),
    decreases n,
{
    if n <= 0 {
        lemma_recorded_none(inp, l, l, at, at);
    } else {
        lemma_traded_recorded(s, l, inp, at, n - 1);
        agreement::lemma_traded(inp, inp, s, l, at, n - 1);
        let (z, m) = s.traded(l, inp, at, n - 1);
        let d: int = m.fire[n - 1] as int;
        if d >= 0 {
            lemma_decided_recorded(z, m, inp, n - 1, d, at);
            lemma_recorded_both(inp, l, m, z.decided(m, inp, n - 1, d, at).1, at, at, at);
        }
    }
}

proof fn lemma_impounded_recorded(l: Ledger, inp: Inputs, at: Point, t: int, list: Seq<usize>)
    ensures
        l.impounded(inp, at, t, list).record_fills == l.record_fills,
        l.impounded(inp, at, t, list).fills == l.fills,
        l.impounded(inp, at, t, list).fees == l.fees,
        l.impounded(inp, at, t, list).bought == l.bought,
        l.impounded(inp, at, t, list).sold == l.sold,
        l.impounded(inp, at, t, list).cash == l.cash,
    decreases list.len(),
{
    if list.len() > 0 {
        lemma_impounded_recorded(l, inp, at, t, list.drop_last());
    }
}

proof fn lemma_resolved_recorded(l: Ledger, inp: Inputs, at: Point, n: int)
    ensures
        l.resolved(inp, at, n).record_fills == l.record_fills,
        l.resolved(inp, at, n).fills == l.fills,
        l.resolved(inp, at, n).fees == l.fees,
        l.resolved(inp, at, n).bought == l.bought,
        l.resolved(inp, at, n).sold == l.sold,
        l.resolved(inp, at, n).cash == l.cash,
    decreases n,
{
    if n > 0 {
        lemma_resolved_recorded(l, inp, at, n - 1);
        let m: Ledger = l.resolved(inp, at, n - 1);
        lemma_impounded_recorded(m, inp, at, n - 1, m.active[n - 1]);
    }
}

proof fn lemma_point_recorded(s: PlainState, l: Ledger, inp: Inputs, at: Point)
    requires
        sound(inp, l, at),
        underway::<Plain>(s, l, inp, l.run),
    ensures
        recorded(inp, l, driver::point_walked::<Plain>(s, l, inp, at).1, at, at),
{
    let marked: Ledger = l.marked_at(inp, at);
    assert(marked.wf() && marked.suits(inp));
    let ready: Ledger = marked.resolved(inp, at, l.tranches);
    agreement::lemma_resolved(inp, inp, marked, at, l.tranches);
    lemma_resolved_recorded(marked, inp, at, l.tranches);
    lemma_recorded_none(inp, l, ready, at, at);
    let sold: Ledger = ready.pool_sold(inp, at, ready.pool);
    let drained: Ledger = ready.drained(inp, at);
    agreement::lemma_drained(inp, inp, ready, at);
    assert(names::bounded(ready.pool, ready.assets));
    lemma_pool_recorded(ready, inp, at, ready.pool);
    lemma_recorded_none(inp, sold, drained, at, at);
    lemma_recorded_both(inp, ready, sold, drained, at, at, at);
    lemma_recorded_both(inp, l, ready, drained, at, at, at);
    let (book, filled) = s.backfilled(drained, inp, at, drained.tranches);
    agreement::lemma_backfilled(inp, inp, s, drained, at, drained.tranches);
    lemma_backfilled_recorded(s, drained, inp, at, drained.tranches);
    lemma_recorded_both(inp, l, drained, filled, at, at, at);
    let read: Ledger = if driver::anybody(ready) {
        filled.snapshot(inp, at)
    } else {
        filled
    };
    lemma_recorded_none(inp, filled, read, at, at);
    lemma_recorded_both(inp, l, filled, read, at, at, at);
    assert(agreement::fires_at(read, inp, at)) by {
        assert forall|t: int| 0 <= t < read.tranches && #[trigger] read.fire[t]
            >= 0 implies read.fire[t] == inp.firing(
            read.run,
            t,
            at.bar as int,
            at.phase as int,
        ) by {
            assert(ready.fire[t] >= 0);
        }
    }
    lemma_traded_recorded(book, read, inp, at, read.tranches);
    lemma_recorded_both(
        inp,
        l,
        read,
        book.traded(read, inp, at, read.tranches).1,
        at,
        at,
        at,
    );
}

/// Inputs agree with themselves.
proof fn lemma_itself(inp: Inputs, run: int)
    ensures
        same_terms(inp, inp),
        forall|bar: int| #[trigger] same_bar(inp, inp, run, bar),
        attentive::<Plain>(inp, inp),
{
    agreement::law_plain_is_attentive(inp, inp);
    assert forall|bar: int| #[trigger] same_bar(inp, inp, run, bar) by {
        assert forall|phase: int| 0 <= phase < inp.phases() implies #[trigger]
            agreement::same_point(inp, inp, run, bar, phase) by {}
    }
}

proof fn lemma_points_recorded(s: PlainState, l: Ledger, inp: Inputs, bar: int, n: int)
    requires
        attentive::<Plain>(inp, inp),
        alike_on(inp, inp, l.run, bar),
        underway::<Plain>(s, l, inp, l.run),
        0 <= n <= inp.phases(),
    ensures
        recorded(
            inp,
            l,
            driver::points_walked::<Plain>(s, l, inp, bar, n).1,
            driver::point_of(inp, bar, 0),
            driver::point_of(
                inp,
                bar,
                if n > 0 {
                    n - 1
                } else {
                    0
                },
            ),
        ),
    decreases n,
{
    let from: Point = driver::point_of(inp, bar, 0);
    if n <= 0 {
        lemma_recorded_none(inp, l, l, from, from);
    } else {
        lemma_points_recorded(s, l, inp, bar, n - 1);
        agreement::lemma_points::<Plain>(inp, inp, s, l, bar, n - 1);
        let (z, m) = driver::points_walked::<Plain>(s, l, inp, bar, n - 1);
        let at: Point = driver::point_of(inp, bar, n - 1);
        let mid: Point = driver::point_of(
            inp,
            bar,
            if n > 1 {
                n - 2
            } else {
                0
            },
        );
        assert(inp.prices@.len() == inp.prices.len());
        twin::lemma_point_covered(inp, bar, n - 1);
        assert(agreement::same_point(inp, inp, l.run, bar, n - 1));
        lemma_point_recorded(z, m, inp, at);
        lemma_recorded_none(inp, m, m, mid, at);
        lemma_recorded_both(inp, l, m, m, from, mid, at);
        lemma_recorded_both(
            inp,
            l,
            m,
            driver::point_walked::<Plain>(z, m, inp, at).1,
            from,
            at,
            at,
        );
    }
}

/// The last price point of a bar.
pub open spec fn last_point(inp: Inputs, bar: int) -> Point {
    driver::point_of(inp, bar, inp.phases() - 1)
}

/// A bar puts its own fills on record, and reports just their fees and their
/// turnover.
proof fn lemma_bar_recorded(s: PlainState, l: Ledger, inp: Inputs, bar: int)
    requires
        inp.valid(),
        0 <= l.run < inp.runs(),
        0 <= bar < inp.bars(),
        underway::<Plain>(s, l, inp, l.run),
    ensures
        recorded(
            inp,
            l.opened(),
            driver::bar_walked::<Plain>(s, l, inp, bar).1,
            driver::point_of(inp, bar, 0),
            last_point(inp, bar),
        ),
{
    lemma_itself(inp, l.run);
    agreement::lemma_morning::<Plain>(inp, inp, s, l, bar);
    let (woken, opened) = driver::morning::<Plain>(s, l, inp, bar);
    assert(inp.prices@.len() == inp.prices.len());
    lemma_points_recorded(woken, opened, inp, bar, inp.phases());
}

/// Whether the fills are of the first `n` bars, and come bar after bar.
pub open spec fn in_order(fills: Seq<Fill>, n: int) -> bool {
    &&& forall|k: int| 0 <= k < fills.len() ==> (#[trigger] fills[k]).bar < n
    &&& forall|j: int, k: int| 0 <= j <= k < fills.len() ==> fills[j].bar <= fills[k].bar
}

/// Whether the fills of a bar come point after point.
pub open spec fn by_point(fills: Seq<Fill>) -> bool {
    forall|j: int, k: int|
        0 <= j <= k < fills.len() && fills[j].bar == fills[k].bar ==> fills[j].point
            <= fills[k].point
}

/// A run is underway after any of its bars.
pub(crate) proof fn lemma_underway(inp: Inputs, run: int, n: int)
    requires
        inp.valid(),
        0 <= run < inp.runs(),
        0 <= n <= inp.bars(),
    ensures
        underway::<Plain>(
            driver::walked::<Plain>(inp, run, n).0,
            driver::walked::<Plain>(inp, run, n).1,
            inp,
            run,
        ),
{
    lemma_itself(inp, run);
    agreement::lemma_walked::<Plain>(inp, inp, run, n);
}

/// Fills come in walk order: bar after bar, and point after point within a
/// bar.
pub proof fn law_fills_in_order(inp: Inputs, run: int, n: int)
    requires
        inp.valid(),
        0 <= run < inp.runs(),
        0 <= n <= inp.bars(),
        n <= u32::MAX + 1,
    ensures
        in_order(driver::walked::<Plain>(inp, run, n).1.fills, n),
        inp.phases() <= u32::MAX + 1 ==> by_point(driver::walked::<Plain>(inp, run, n).1.fills),
    decreases n,
{
    if n > 0 {
        law_fills_in_order(inp, run, n - 1);
        lemma_underway(inp, run, n - 1);
        let (s, l) = driver::walked::<Plain>(inp, run, n - 1);
        lemma_bar_recorded(s, l, inp, n - 1);
        let m: Ledger = driver::bar_walked::<Plain>(s, l, inp, n - 1).1;
        let a: int = l.fills.len() as int;
        let made: Seq<Fill> = m.fills.skip(a);
        assert(((n - 1) as usize) as u32 == n - 1);
        if l.record_fills {
            assert forall|k: int| 0 <= k < m.fills.len() implies {
                &&& k < a ==> #[trigger] m.fills[k] == l.fills[k]
                &&& k >= a ==> m.fills[k] == made[k - a] && m.fills[k].bar == n - 1
            } by {
                if k < a {
                    assert(m.fills.take(a)[k] == l.fills[k]);
                } else {
                    assert(made[k - a].bar == ((n - 1) as usize) as u32);
                }
            }
            assert forall|k: int| 0 <= k < m.fills.len() implies (#[trigger] m.fills[k]).bar
                < n by {}
            assert forall|j: int, k: int| 0 <= j <= k < m.fills.len() implies m.fills[j].bar
                <= m.fills[k].bar by {
                if j < a && k >= a {
                    assert(l.fills[j].bar < n - 1);
                }
            }
            if inp.phases() <= u32::MAX + 1 {
                assert forall|j: int, k: int|
                    0 <= j <= k < m.fills.len() && m.fills[j].bar
                        == m.fills[k].bar implies m.fills[j].point <= m.fills[k].point by {
                    if j < a && k >= a {
                        assert(l.fills[j].bar < n - 1);
                    }
                }
            }
        }
    }
}

/// Where fills come bar after bar, a bar's stretch begins after all the
/// fills of the bars before it and before all the others.
proof fn lemma_stretch_bounds(fills: Seq<Fill>, n: int, bar: int)
    requires
        in_order(fills, n),
        0 <= bar,
    ensures
        0 <= plugin::stretch_start(fills, bar) <= fills.len(),
        forall|k: int|
            0 <= k < fills.len() ==> (k < plugin::stretch_start(fills, bar) <==> (
            #[trigger] fills[k]).bar < bar),
    decreases bar,
{
    plugin::lemma_stretch_start(fills, bar);
    if bar > 0 {
        lemma_stretch_bounds(fills, n, bar - 1);
        lemma_stretch_covers(fills, n, plugin::stretch_start(fills, bar - 1), bar - 1);
    }
}

proof fn lemma_stretch_covers(fills: Seq<Fill>, n: int, from: int, bar: int)
    requires
        in_order(fills, n),
        0 <= from <= fills.len(),
        0 <= bar,
        forall|k: int| 0 <= k < fills.len() ==> (k < from ==> (#[trigger] fills[k]).bar <= bar),
        forall|k: int| 0 <= k < fills.len() ==> (k >= from ==> (#[trigger] fills[k]).bar >= bar),
    ensures
        forall|k: int|
            0 <= k < fills.len() ==> (k < plugin::stretch_end(fills, from, bar) <==> (
            #[trigger] fills[k]).bar < bar + 1),
    decreases fills.len() - from,
{
    if from < fills.len() && fills[from].bar == bar {
        lemma_stretch_covers(fills, n, from + 1, bar);
    } else if from < fills.len() {
        assert forall|k: int| 0 <= k < fills.len() implies (k < from <==> (
        #[trigger] fills[k]).bar < bar + 1) by {
            if k >= from {
                assert(fills[from].bar <= fills[k].bar);
            }
        }
    }
}

/// Asking for fills answers every one of them: the stretches the bars are
/// answered with hold every fill of the walk, each in its own bar's, in the
/// order in which they happened.
pub proof fn law_every_fill_answered(inp: Inputs, run: int)
    requires
        inp.valid(),
        0 <= run < inp.runs(),
        inp.bars() <= u32::MAX + 1,
    ensures
        ({
            let fills = driver::walked::<Plain>(inp, run, inp.bars()).1.fills;
            &&& plugin::stretch_start(fills, 0) == 0
            &&& plugin::stretch_start(fills, inp.bars()) == fills.len()
            &&& forall|bar: int, k: int|
                0 <= bar < inp.bars() && 0 <= k < fills.len() ==> (
                #[trigger] plugin::stretch_start(fills, bar) <= k < plugin::stretch_start(
                    fills,
                    bar + 1,
                ) <==> (#[trigger] fills[k]).bar == bar)
        }),
{
    let fills: Seq<Fill> = driver::walked::<Plain>(inp, run, inp.bars()).1.fills;
    let n: int = inp.bars();
    law_fills_in_order(inp, run, n);
    lemma_stretch_bounds(fills, n, n);
    if fills.len() > 0 {
        assert(fills[fills.len() - 1].bar < n);
    }
    assert forall|bar: int, k: int| 0 <= bar < n && 0 <= k < fills.len() implies (
    #[trigger] plugin::stretch_start(fills, bar) <= k < plugin::stretch_start(fills, bar + 1) <==> (
    #[trigger] fills[k]).bar == bar) by {
        lemma_stretch_bounds(fills, n, bar);
        lemma_stretch_bounds(fills, n, bar + 1);
    }
}

/// The fills a run puts on record of a bar.
pub open spec fn fills_of<B: Bookkeeping>(inp: Inputs, run: int, bar: int) -> Seq<Fill> {
    driver::walked::<B>(inp, run, bar + 1).1.fills.skip(
        driver::walked::<B>(inp, run, bar).1.fills.len() as int,
    )
}

/// Whether a policy only adds to the record, at a price point fills of its
/// bar, and leaves it alone as a bar closes.
pub open spec fn keeps_the_record<B: Bookkeeping>(inp: Inputs) -> bool {
    &&& forall|s: B::State, l: Ledger, at: Point|
        handed::<B>(inp, inp, s, l, at) ==> adds_fills(
            l,
            (#[trigger] B::backfilled(s, l, inp, at)).1,
            at.bar,
        )
    &&& forall|s: B::State, l: Ledger, at: Point|
        handed::<B>(inp, inp, s, l, at) ==> adds_fills(
            l,
            (#[trigger] B::traded(s, l, inp, at)).1,
            at.bar,
        )
    &&& forall|s: B::State, l: Ledger|
        l.wf() && B::fits(s, l.tranches, l.assets) ==> (#[trigger] B::bar_closed(s, l)).1.fills
            == l.fills
}

/// The framework's own policy only adds to the record.
pub proof fn law_plain_keeps_the_record(inp: Inputs)
    ensures
        keeps_the_record::<Plain>(inp),
{
    assert forall|s: PlainState, l: Ledger, at: Point|
        handed::<Plain>(inp, inp, s, l, at) implies adds_fills(
        l,
        (#[trigger] Plain::backfilled(s, l, inp, at)).1,
        at.bar,
    ) by {
        lemma_backfilled_recorded(s, l, inp, at, l.tranches);
        lemma_adds_fills(inp, l, Plain::backfilled(s, l, inp, at).1, at, at);
    }
    assert forall|s: PlainState, l: Ledger, at: Point|
        handed::<Plain>(inp, inp, s, l, at) implies adds_fills(
        l,
        (#[trigger] Plain::traded(s, l, inp, at)).1,
        at.bar,
    ) by {
        lemma_traded_recorded(s, l, inp, at, l.tranches);
        lemma_adds_fills(inp, l, Plain::traded(s, l, inp, at).1, at, at);
    }
}

/// One bar's fills added in two goes.
proof fn lemma_adds_both(l: Ledger, m: Ledger, k: Ledger, bar: usize)
    requires
        adds_fills(l, m, bar),
        adds_fills(m, k, bar),
    ensures
        adds_fills(l, k, bar),
{
    let (a, b) = (l.fills.len() as int, m.fills.len() as int);
    assert(k.fills.take(a) =~= k.fills.take(b).take(a));
    assert forall|j: int| a <= j < k.fills.len() implies (#[trigger] k.fills[j]).bar
        == bar as u32 by {
        if j < b {
            assert(k.fills.take(b)[j] == m.fills[j]);
        }
    }
}

/// Leaving the record as it is adds nothing to it.
proof fn lemma_adds_none(l: Ledger, m: Ledger, bar: usize)
    requires
        m.fills == l.fills,
    ensures
        adds_fills(l, m, bar),
{
    assert(m.fills.take(l.fills.len() as int) =~= l.fills);
}

/// A price point only adds its bar's fills to the record.
proof fn lemma_point_adds<B: Bookkeeping>(s: B::State, l: Ledger, inp: Inputs, at: Point)
    requires
        attentive::<B>(inp, inp),
        keeps_the_record::<B>(inp),
        sound(inp, l, at),
        underway::<B>(s, l, inp, l.run),
    ensures
        adds_fills(l, driver::point_walked::<B>(s, l, inp, at).1, at.bar),
{
    let marked: Ledger = l.marked_at(inp, at);
    assert(marked.wf() && marked.suits(inp));
    let ready: Ledger = marked.resolved(inp, at, l.tranches);
    agreement::lemma_resolved(inp, inp, marked, at, l.tranches);
    lemma_resolved_recorded(marked, inp, at, l.tranches);
    let drained: Ledger = ready.drained(inp, at);
    agreement::lemma_drained(inp, inp, ready, at);
    assert(names::bounded(ready.pool, ready.assets));
    lemma_pool_recorded(ready, inp, at, ready.pool);
    lemma_adds_fills(inp, ready, ready.pool_sold(inp, at, ready.pool), at, at);
    assert(adds_fills(l, drained, at.bar));
    assert(agreement::heeds::<B>(inp, inp, at));
    agreement::lemma_fires_on(inp, ready, drained, at);
    assert(handed::<B>(inp, inp, s, drained, at));
    let (book, filled) = B::backfilled(s, drained, inp, at);
    assert(adds_fills(drained, filled, at.bar));
    lemma_adds_both(l, drained, filled, at.bar);
    let read: Ledger = if driver::anybody(ready) {
        filled.snapshot(inp, at)
    } else {
        filled
    };
    agreement::lemma_fires_on(inp, filled, read, at);
    assert(handed::<B>(inp, inp, book, read, at));
    assert(adds_fills(l, read, at.bar));
    lemma_adds_both(l, read, B::traded(book, read, inp, at).1, at.bar);
}

proof fn lemma_points_add<B: Bookkeeping>(
    s: B::State,
    l: Ledger,
    inp: Inputs,
    bar: int,
    n: int,
)
    requires
        attentive::<B>(inp, inp),
        keeps_the_record::<B>(inp),
        alike_on(inp, inp, l.run, bar),
        underway::<B>(s, l, inp, l.run),
        0 <= n <= inp.phases(),
    ensures
        adds_fills(l, driver::points_walked::<B>(s, l, inp, bar, n).1, bar as usize),
    decreases n,
{
    if n <= 0 {
        lemma_adds_none(l, l, bar as usize);
    } else {
        lemma_points_add::<B>(s, l, inp, bar, n - 1);
        agreement::lemma_points::<B>(inp, inp, s, l, bar, n - 1);
        let (z, m) = driver::points_walked::<B>(s, l, inp, bar, n - 1);
        let at: Point = driver::point_of(inp, bar, n - 1);
        assert(inp.prices@.len() == inp.prices.len());
        twin::lemma_point_covered(inp, bar, n - 1);
        assert(agreement::same_point(inp, inp, l.run, bar, n - 1));
        lemma_point_adds::<B>(z, m, inp, at);
        lemma_adds_both(l, m, driver::point_walked::<B>(z, m, inp, at).1, bar as usize);
    }
}

/// A bar only adds its own fills to the record.
proof fn lemma_bar_adds<B: Bookkeeping>(inp: Inputs, run: int, bar: int)
    requires
        attentive::<B>(inp, inp),
        keeps_the_record::<B>(inp),
        inp.valid(),
        0 <= run < inp.runs(),
        0 <= bar < inp.bars(),
    ensures
        adds_fills(
            driver::walked::<B>(inp, run, bar).1,
            driver::walked::<B>(inp, run, bar + 1).1,
            bar as usize,
        ),
{
    lemma_itself(inp, run);
    agreement::lemma_walked::<B>(inp, inp, run, bar);
    let (s, l) = driver::walked::<B>(inp, run, bar);
    agreement::lemma_morning::<B>(inp, inp, s, l, bar);
    let (woken, opened) = driver::morning::<B>(s, l, inp, bar);
    assert(opened.fills == l.fills);
    assert(inp.prices@.len() == inp.prices.len());
    lemma_points_add::<B>(woken, opened, inp, bar, inp.phases());
    agreement::lemma_points::<B>(inp, inp, woken, opened, bar, inp.phases());
}

/// The record only grows: what stands on it after some bars begins what
/// stands on it after more.
pub proof fn law_record_only_grows<B: Bookkeeping>(inp: Inputs, run: int, n: int, m: int)
    requires
        attentive::<B>(inp, inp),
        keeps_the_record::<B>(inp),
        inp.valid(),
        0 <= run < inp.runs(),
        0 <= n <= m <= inp.bars(),
    ensures
        driver::walked::<B>(inp, run, n).1.fills.len() <= driver::walked::<B>(
            inp,
            run,
            m,
        ).1.fills.len(),
        driver::walked::<B>(inp, run, m).1.fills.take(
            driver::walked::<B>(inp, run, n).1.fills.len() as int,
        ) == driver::walked::<B>(inp, run, n).1.fills,
    decreases m,
{
    let first: Seq<Fill> = driver::walked::<B>(inp, run, n).1.fills;
    let last: Seq<Fill> = driver::walked::<B>(inp, run, m).1.fills;
    if n == m {
        assert(last.take(first.len() as int) =~= first);
    } else {
        law_record_only_grows::<B>(inp, run, n, m - 1);
        lemma_bar_adds::<B>(inp, run, m - 1);
        let mid: Seq<Fill> = driver::walked::<B>(inp, run, m - 1).1.fills;
        assert(last.take(first.len() as int) =~= last.take(mid.len() as int).take(
            first.len() as int,
        ));
    }
}

/// Fills come bar after bar, whatever attentive policy made them.
proof fn lemma_in_order<B: Bookkeeping>(inp: Inputs, run: int, n: int)
    requires
        attentive::<B>(inp, inp),
        keeps_the_record::<B>(inp),
        inp.valid(),
        0 <= run < inp.runs(),
        0 <= n <= inp.bars(),
        n <= u32::MAX + 1,
    ensures
        in_order(driver::walked::<B>(inp, run, n).1.fills, n),
    decreases n,
{
    if n > 0 {
        lemma_in_order::<B>(inp, run, n - 1);
        lemma_bar_adds::<B>(inp, run, n - 1);
        let l: Ledger = driver::walked::<B>(inp, run, n - 1).1;
        let m: Ledger = driver::walked::<B>(inp, run, n).1;
        let a: int = l.fills.len() as int;
        assert(((n - 1) as usize) as u32 == n - 1);
        assert forall|k: int| 0 <= k < m.fills.len() implies {
            &&& k < a ==> #[trigger] m.fills[k] == l.fills[k]
            &&& k >= a ==> m.fills[k].bar == n - 1
        } by {
            if k < a {
                assert(m.fills.take(a)[k] == l.fills[k]);
            }
        }
        assert forall|k: int| 0 <= k < m.fills.len() implies (#[trigger] m.fills[k]).bar < n by {}
        assert forall|j: int, k: int| 0 <= j <= k < m.fills.len() implies m.fills[j].bar
            <= m.fills[k].bar by {
            if j < a && k >= a {
                assert(l.fills[j].bar < n - 1);
            }
        }
    }
}

/// Where a bar's stretch of the whole record begins is how much was on record
/// before it.
proof fn lemma_stretch_is_record<B: Bookkeeping>(inp: Inputs, run: int, bar: int)
    requires
        attentive::<B>(inp, inp),
        keeps_the_record::<B>(inp),
        inp.valid(),
        0 <= run < inp.runs(),
        0 <= bar <= inp.bars(),
        inp.bars() <= u32::MAX + 1,
    ensures
        plugin::stretch_start(driver::walked::<B>(inp, run, inp.bars()).1.fills, bar)
            == driver::walked::<B>(inp, run, bar).1.fills.len(),
{
    let n: int = inp.bars();
    let fills: Seq<Fill> = driver::walked::<B>(inp, run, n).1.fills;
    let early: Seq<Fill> = driver::walked::<B>(inp, run, bar).1.fills;
    let a: int = early.len() as int;
    let start: int = plugin::stretch_start(fills, bar);
    lemma_in_order::<B>(inp, run, n);
    lemma_in_order::<B>(inp, run, bar);
    lemma_stretch_bounds(fills, n, bar);
    law_record_only_grows::<B>(inp, run, bar, n);
    if start < a {
        assert(fills.take(a)[start] == early[start]);
        assert(early[start].bar < bar);
    }
    if start > a {
        lemma_late::<B>(inp, run, bar, n);
        assert(fills[a].bar >= bar);
    }
}

/// What goes on record after some bars is of no bar before.
proof fn lemma_late<B: Bookkeeping>(inp: Inputs, run: int, bar: int, m: int)
    requires
        attentive::<B>(inp, inp),
        keeps_the_record::<B>(inp),
        inp.valid(),
        0 <= run < inp.runs(),
        0 <= bar <= m <= inp.bars(),
        inp.bars() <= u32::MAX + 1,
    ensures
        forall|k: int|
            driver::walked::<B>(inp, run, bar).1.fills.len() <= k < driver::walked::<B>(
                inp,
                run,
                m,
            ).1.fills.len() ==> (#[trigger] driver::walked::<B>(inp, run, m).1.fills[k]).bar
                >= bar,
    decreases m,
{
    if bar < m {
        lemma_late::<B>(inp, run, bar, m - 1);
        lemma_bar_adds::<B>(inp, run, m - 1);
        let mid: Seq<Fill> = driver::walked::<B>(inp, run, m - 1).1.fills;
        let fills: Seq<Fill> = driver::walked::<B>(inp, run, m).1.fills;
        assert(((m - 1) as usize) as u32 == m - 1);
        assert forall|k: int|
            driver::walked::<B>(inp, run, bar).1.fills.len() <= k < fills.len() implies (
        #[trigger] fills[k]).bar >= bar by {
            if k < mid.len() {
                assert(fills.take(mid.len() as int)[k] == mid[k]);
            }
        }
    }
}

/// The fills a run puts on record of a bar are the stretch it is answered
/// with.
pub proof fn law_a_bars_fills_are_its_stretch<B: Bookkeeping>(inp: Inputs, run: int, bar: int)
    requires
        attentive::<B>(inp, inp),
        keeps_the_record::<B>(inp),
        inp.valid(),
        0 <= run < inp.runs(),
        0 <= bar < inp.bars(),
        inp.bars() <= u32::MAX + 1,
    ensures
        plugin::stretch(driver::walked::<B>(inp, run, inp.bars()).1.fills, bar) == fills_of::<B>(
            inp,
            run,
            bar,
        ),
{
    lemma_stretch_is_record::<B>(inp, run, bar);
    lemma_stretch_is_record::<B>(inp, run, bar + 1);
    law_record_only_grows::<B>(inp, run, bar, bar + 1);
    law_record_only_grows::<B>(inp, run, bar + 1, inp.bars());
    let fills: Seq<Fill> = driver::walked::<B>(inp, run, inp.bars()).1.fills;
    let next: Seq<Fill> = driver::walked::<B>(inp, run, bar + 1).1.fills;
    let a: int = driver::walked::<B>(inp, run, bar).1.fills.len() as int;
    assert forall|k: int| 0 <= k < next.len() - a implies fills.subrange(
        a,
        next.len() as int,
    )[k] == next.skip(a)[k] by {
        assert(fills.take(next.len() as int)[a + k] == next[a + k]);
    }
    assert(fills.subrange(a, next.len() as int) =~= next.skip(a));
}

/// No later bar reaches an earlier fill: inputs that tell a run the same of
/// every bar before the `n`th have the whole of it answer those bars with the
/// same fills, whatever comes after.
pub proof fn law_early_fills_stay<B: Bookkeeping>(a: Inputs, b: Inputs, run: int, n: int)
    requires
        attentive::<B>(a, b),
        attentive::<B>(a, a),
        attentive::<B>(b, b),
        keeps_the_record::<B>(a),
        keeps_the_record::<B>(b),
        a.valid(),
        b.valid(),
        same_terms(a, b),
        same_asks(a, b),
        0 <= run < a.runs(),
        run < b.runs(),
        0 <= n <= a.bars(),
        n <= b.bars(),
        a.bars() <= u32::MAX + 1,
        b.bars() <= u32::MAX + 1,
        forall|bar: int| 0 <= bar < n ==> #[trigger] same_bar(a, b, run, bar),
    ensures
        forall|bar: int|
            0 <= bar < n ==> #[trigger] plugin::stretch(
                driver::walked::<B>(a, run, a.bars()).1.fills,
                bar,
            ) == plugin::stretch(driver::walked::<B>(b, run, b.bars()).1.fills, bar),
{
    assert forall|bar: int| 0 <= bar < n implies #[trigger] plugin::stretch(
        driver::walked::<B>(a, run, a.bars()).1.fills,
        bar,
    ) == plugin::stretch(driver::walked::<B>(b, run, b.bars()).1.fills, bar) by {
        agreement::lemma_walked::<B>(a, b, run, bar);
        agreement::lemma_walked::<B>(a, b, run, bar + 1);
        law_a_bars_fills_are_its_stretch::<B>(a, run, bar);
        law_a_bars_fills_are_its_stretch::<B>(b, run, bar);
    }
}

/// Under the framework's own policy no later bar reaches an earlier fill.
pub proof fn law_plain_early_fills_stay(a: Inputs, b: Inputs, run: int, n: int)
    requires
        a.valid(),
        b.valid(),
        same_terms(a, b),
        same_asks(a, b),
        0 <= run < a.runs(),
        run < b.runs(),
        0 <= n <= a.bars(),
        n <= b.bars(),
        a.bars() <= u32::MAX + 1,
        b.bars() <= u32::MAX + 1,
        forall|bar: int| 0 <= bar < n ==> #[trigger] same_bar(a, b, run, bar),
    ensures
        forall|bar: int|
            0 <= bar < n ==> #[trigger] plugin::stretch(
                driver::walked::<Plain>(a, run, a.bars()).1.fills,
                bar,
            ) == plugin::stretch(driver::walked::<Plain>(b, run, b.bars()).1.fills, bar),
{
    agreement::law_plain_is_attentive(a, b);
    agreement::law_plain_is_attentive(a, a);
    agreement::law_plain_is_attentive(b, b);
    law_plain_keeps_the_record(a);
    law_plain_keeps_the_record(b);
    law_early_fills_stay::<Plain>(a, b, run, n);
}

/// When fills are recorded, the fees a bar reports are those of the fills it
/// put on record, added in the order in which they happened.
pub proof fn law_fees_are_the_fills(inp: Inputs, run: int, bar: int)
    requires
        inp.valid(),
        0 <= run < inp.runs(),
        inp.record_fills,
        0 <= bar < inp.bars(),
    ensures
        driver::series::<Plain>(inp, run, crate::inputs::FEES as int, bar) == fees_paid(
            Binary64::zero(),
            fills_of::<Plain>(inp, run, bar),
        ),
{
    let (s, l) = driver::walked::<Plain>(inp, run, bar);
    lemma_recording(inp, run, bar);
    lemma_underway(inp, run, bar);
    lemma_bar_recorded(s, l, inp, bar);
}

/// When fills are recorded, what a bar reports as bought and as sold is the
/// turnover of the fills it put on record, added in the order in which they
/// happened. Left out are fills of a count that is not a number, which stand
/// on record as neither, and more names than the record tells apart.
pub proof fn law_turnover_is_the_fills(inp: Inputs, run: int, bar: int)
    requires
        inp.valid(),
        0 <= run < inp.runs(),
        inp.record_fills,
        nameable(inp),
        0 <= bar < inp.bars(),
        numbered(fills_of::<Plain>(inp, run, bar)),
    ensures
        driver::series::<Plain>(inp, run, crate::inputs::BOUGHT as int, bar) == bought_in(
            inp,
            last_point(inp, bar).epoch as int,
            Binary64::zero(),
            fills_of::<Plain>(inp, run, bar),
        ),
        driver::series::<Plain>(inp, run, crate::inputs::SOLD as int, bar) == sold_in(
            inp,
            last_point(inp, bar).epoch as int,
            Binary64::zero(),
            fills_of::<Plain>(inp, run, bar),
        ),
{
    let (s, l) = driver::walked::<Plain>(inp, run, bar);
    lemma_recording(inp, run, bar);
    lemma_underway(inp, run, bar);
    lemma_bar_recorded(s, l, inp, bar);
}

proof fn lemma_recording(inp: Inputs, run: int, n: int)
    requires
        inp.valid(),
        0 <= run < inp.runs(),
        0 <= n <= inp.bars(),
    ensures
        driver::walked::<Plain>(inp, run, n).1.record_fills == inp.record_fills,
    decreases n,
{
    if n > 0 {
        lemma_recording(inp, run, n - 1);
        lemma_underway(inp, run, n - 1);
        let (s, l) = driver::walked::<Plain>(inp, run, n - 1);
        lemma_bar_recorded(s, l, inp, n - 1);
    }
}

/// The cash a run has before a bar: what it reported of the bar before, or
/// its capital.
pub open spec fn cash_before(inp: Inputs, run: int, bar: int) -> Binary64 {
    if bar <= 0 {
        inp.capital
    } else {
        driver::series::<Plain>(inp, run, crate::inputs::CASH as int, bar - 1)
    }
}

/// When fills are recorded, the cash a bar reports is the cash before it with
/// the fills it put on record settled, one after another. Left out are fills
/// of a count that is not a number, and more names than the record tells
/// apart.
pub proof fn law_cash_is_the_fills(inp: Inputs, run: int, bar: int)
    requires
        inp.valid(),
        0 <= run < inp.runs(),
        inp.record_fills,
        nameable(inp),
        0 <= bar < inp.bars(),
        numbered(fills_of::<Plain>(inp, run, bar)),
    ensures
        driver::series::<Plain>(inp, run, crate::inputs::CASH as int, bar) == settled_in(
            inp,
            last_point(inp, bar).epoch as int,
            cash_before(inp, run, bar),
            fills_of::<Plain>(inp, run, bar),
        ),
{
    let (s, l) = driver::walked::<Plain>(inp, run, bar);
    lemma_recording(inp, run, bar);
    lemma_underway(inp, run, bar);
    lemma_bar_recorded(s, l, inp, bar);
    assert(l.cash == cash_before(inp, run, bar));
}

/// Whether settling a list of fills, and adding up what they paid and turned
/// over, rounds nothing.
pub open spec fn unrounded(inp: Inputs, epoch: int, cash: Binary64, fills: Seq<Fill>) -> bool
    decreases fills.len(),
{
    fills.len() > 0 ==> {
        let zero = Binary64::zero();
        let front = fills.drop_last();
        let rest = settled_in(inp, epoch, cash, front);
        let turnover = turnover_of(inp, epoch, fills.last());
        let fee = fills.last().fee;
        &&& unrounded(inp, epoch, cash, front)
        &&& exact_plus(fees_paid(zero, front), fee)
        &&& if live(fills.last().units) {
            &&& exact_plus(turnover, fee)
            &&& exact_minus(rest, turnover.plus(fee))
            &&& exact_plus(bought_in(inp, epoch, zero, front), turnover)
        } else {
            &&& exact_minus(turnover, fee)
            &&& exact_plus(rest, turnover.minus(fee))
            &&& exact_plus(sold_in(inp, epoch, zero, front), turnover)
        }
    }
}

proof fn lemma_unrounded(inp: Inputs, epoch: int, cash: Binary64, fills: Seq<Fill>)
    requires
        unrounded(inp, epoch, cash, fills),
    ensures
        settled_in(inp, epoch, cash, fills).value() == cash.value() + sold_in(
            inp,
            epoch,
            Binary64::zero(),
            fills,
        ).value() - bought_in(inp, epoch, Binary64::zero(), fills).value() - fees_paid(
            Binary64::zero(),
            fills,
        ).value(),
    decreases fills.len(),
{
    assert(Binary64::zero().value() == 0) by {
        crate::arithmetic::lemma_none(Binary64::zero());
    }
    if fills.len() > 0 {
        lemma_unrounded(inp, epoch, cash, fills.drop_last());
    }
}

/// The same inputs, asking for fills.
pub open spec fn asking_for_fills(inp: Inputs) -> Inputs {
    Inputs { record_fills: true, ..inp }
}

/// Cash adds up from bar to bar: where nothing is rounded, the cash a bar
/// reports is the cash before it plus what it sold, less what it bought, less
/// its fees. Whether fills are asked for makes no difference; what is settled
/// without rounding are the fills that asking would put on record.
pub proof fn law_cash_adds_up(inp: Inputs, run: int, bar: int)
    requires
        inp.valid(),
        0 <= run < inp.runs(),
        nameable(inp),
        0 <= bar < inp.bars(),
        numbered(fills_of::<Plain>(asking_for_fills(inp), run, bar)),
        unrounded(
            inp,
            last_point(inp, bar).epoch as int,
            cash_before(inp, run, bar),
            fills_of::<Plain>(asking_for_fills(inp), run, bar),
        ),
    ensures
        driver::series::<Plain>(inp, run, crate::inputs::CASH as int, bar).value()
            == cash_before(inp, run, bar).value() + driver::series::<Plain>(
            inp,
            run,
            crate::inputs::SOLD as int,
            bar,
        ).value() - driver::series::<Plain>(
            inp,
            run,
            crate::inputs::BOUGHT as int,
            bar,
        ).value() - driver::series::<Plain>(inp, run, crate::inputs::FEES as int, bar).value(),
{
    let told: Inputs = asking_for_fills(inp);
    let fills: Seq<Fill> = fills_of::<Plain>(told, run, bar);
    let epoch: int = last_point(inp, bar).epoch as int;
    let cash: Binary64 = cash_before(inp, run, bar);
    lemma_told_series(inp, run, bar);
    if bar > 0 {
        lemma_told_series(inp, run, bar - 1);
    }
    assert(cash_before(told, run, bar) == cash);
    assert(last_point(told, bar) == last_point(inp, bar));
    law_cash_is_the_fills(told, run, bar);
    law_fees_are_the_fills(told, run, bar);
    law_turnover_is_the_fills(told, run, bar);
    lemma_told(inp, epoch, cash, fills);
    lemma_told(inp, epoch, Binary64::zero(), fills);
    lemma_unrounded(inp, epoch, cash, fills);
}

/// Asking for fills leaves the inputs valid, and tells a run the same.
proof fn lemma_told_inputs(inp: Inputs, run: int)
    requires
        inp.valid(),
    ensures
        asking_for_fills(inp).valid(),
        same_terms(inp, asking_for_fills(inp)),
        forall|bar: int| #[trigger] same_bar(inp, asking_for_fills(inp), run, bar),
{
    let told: Inputs = asking_for_fills(inp);
    assert forall|a: int, k: int, bar: int, phase: int|
        0 <= a < told.runs() && 0 <= k < told.tranches() && 0 <= bar < told.bars() && 0 <= phase
            < told.phases() implies #[trigger] told.firing(a, k, bar, phase)
        < told.decisions() by {
        assert(inp.firing(a, k, bar, phase) < inp.decisions());
    }
    assert forall|bar: int| #[trigger] same_bar(inp, told, run, bar) by {
        assert forall|phase: int| 0 <= phase < inp.phases() implies #[trigger]
            agreement::same_point(inp, told, run, bar, phase) by {}
    }
}

/// Asking for fills changes no series.
proof fn lemma_told_series(inp: Inputs, run: int, bar: int)
    requires
        inp.valid(),
        0 <= run < inp.runs(),
        0 <= bar < inp.bars(),
    ensures
        asking_for_fills(inp).valid(),
        forall|row: int| #[trigger]
            driver::series::<Plain>(inp, run, row, bar) == driver::series::<Plain>(
                asking_for_fills(inp),
                run,
                row,
                bar,
            ),
{
    lemma_told_inputs(inp, run);
    silence::law_asking_changes_no_series(inp, asking_for_fills(inp), run, bar + 1);
}

/// What fills turn over does not depend on whether they are asked for.
proof fn lemma_told(inp: Inputs, epoch: int, start: Binary64, fills: Seq<Fill>)
    ensures
        settled_in(asking_for_fills(inp), epoch, start, fills) == settled_in(
            inp,
            epoch,
            start,
            fills,
        ),
        bought_in(asking_for_fills(inp), epoch, start, fills) == bought_in(
            inp,
            epoch,
            start,
            fills,
        ),
        sold_in(asking_for_fills(inp), epoch, start, fills) == sold_in(inp, epoch, start, fills),
    decreases fills.len(),
{
    if fills.len() > 0 {
        lemma_told(inp, epoch, start, fills.drop_last());
        assert(turnover_of(asking_for_fills(inp), epoch, fills.last()) == turnover_of(
            inp,
            epoch,
            fills.last(),
        ));
    }
}

}
