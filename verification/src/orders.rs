//! What trading keeps: the lists of names miss nothing, the cash the orders
//! hold is what each of them locked, and no order draws on what another
//! locked.

use vstd::prelude::*;

use crate::arithmetic;
use crate::binary64::Binary64;
use crate::bookkeeping::{Bookkeeping, Plain};
use crate::dense::peace;
use crate::inputs::{Inputs, Point};
use crate::inputs::{BUY_FEE, MULTIPLIER};
use crate::laws;
use crate::ledger;
use crate::ledger::{live, none, Ledger};
use crate::names;
use crate::plain::{PlainState, Terms};
use crate::twin;

verus! {

/// Whether the lists of names miss nothing: each is ascending, and what none
/// names is at peace.
pub open spec fn listed(s: PlainState, l: Ledger) -> bool {
    &&& l.wf()
    &&& s.fits(l.tranches, l.assets)
    &&& forall|t: int, i: int|
        0 <= t < l.tranches && 0 <= i < l.assets && !l.active[t].contains(i as usize)
            ==> #[trigger] peace(s, l, t, i)
}

/// Whether a cell of every table is as it was.
pub open spec fn untouched(s: PlainState, l: Ledger, z: PlainState, m: Ledger, c: int) -> bool {
    &&& z.budget[c] == s.budget[c]
    &&& z.locked[c] == s.locked[c]
    &&& m.qty[c] == l.qty[c]
    &&& m.target[c] == l.target[c]
    &&& m.blocked[c] == l.blocked[c]
}

/// A step that touches one name's cell, and names it unless it is at peace,
/// leaves the lists missing nothing.
proof fn lemma_step(s: PlainState, l: Ledger, z: PlainState, m: Ledger, t: int, i: int)
    requires
        listed(s, l),
        m.wf(),
        m.tranches == l.tranches,
        m.assets == l.assets,
        z.fits(l.tranches, l.assets),
        0 <= t < l.tranches,
        0 <= i < l.assets,
        forall|c: int|
            0 <= c < l.tranches * l.assets && c != l.cell(t, i) ==> #[trigger] untouched(
                s,
                l,
                z,
                m,
                c,
            ),
        forall|u: int, x: usize|
            0 <= u < l.tranches && l.active[u].contains(x) ==> #[trigger] m.active[u].contains(x),
        m.active[t].contains(i as usize) || peace(z, m, t, i),
    ensures
        listed(z, m),
{
    ledger::lemma_cell(l.tranches, l.assets, t, i);
    assert forall|u: int, j: int|
        0 <= u < m.tranches && 0 <= j < m.assets && !m.active[u].contains(j as usize) implies
        #[trigger] peace(z, m, u, j) by {
        ledger::lemma_cell(l.tranches, l.assets, u, j);
        if u != t || j != i {
            assert(l.cell(u, j) != l.cell(t, i));
            assert(untouched(s, l, z, m, l.cell(u, j)));
            assert(!l.active[u].contains(j as usize));
            assert(peace(s, l, u, j));
        }
    }
}

/// Noting a name forgets none.
proof fn lemma_touched(l: Ledger, t: int, i: int)
    requires
        l.wf(),
        0 <= t < l.tranches,
        0 <= i < l.assets,
    ensures
        l.touched(t, i).wf(),
        l.touched(t, i).active[t].contains(i as usize),
        forall|u: int, x: usize|
            0 <= u < l.tranches && l.active[u].contains(x) ==> #[trigger] l.touched(
                t,
                i,
            ).active[u].contains(x),
{
    l.lemma_touched(t, i);
    names::lemma_inserted(l.active[t], i as usize);
}

proof fn lemma_released(s: PlainState, l: Ledger, t: int, list: Seq<usize>)
    requires
        listed(s, l),
        0 <= t < l.tranches,
        names::bounded(list, l.assets),
        forall|k: int| 0 <= k < list.len() ==> l.active[t].contains(#[trigger] list[k]),
    ensures
        listed(s.released_all(t, list), l),
    decreases list.len(),
{
    if list.len() > 0 {
        twin::lemma_bounded_front(list, l.assets);
        assert forall|k: int| 0 <= k < list.drop_last().len() implies l.active[t].contains(
            #[trigger] list.drop_last()[k],
        ) by {
            assert(l.active[t].contains(list[k]));
        }
        lemma_released(s, l, t, list.drop_last());
        let z: PlainState = s.released_all(t, list.drop_last());
        let i: int = list.last() as int;
        ledger::lemma_cell(l.tranches, l.assets, t, i);
        assert(l.active[t].contains(list[list.len() - 1]));
        lemma_step(z, l, z.released(l.cell(t, i)), l, t, i);
    }
}

proof fn lemma_size_names(
    s: PlainState,
    l: Ledger,
    inp: Inputs,
    t: int,
    d: int,
    at: Point,
    money: Binary64,
    list: Seq<usize>,
)
    requires
        listed(s, l),
        0 <= t < l.tranches,
        names::bounded(list, l.assets),
    ensures
        listed(s, s.size_names(l, inp, t, d, at, money, list)),
        s.size_names(l, inp, t, d, at, money, list).alike(l),
    decreases list.len(),
{
    if list.len() > 0 {
        twin::lemma_bounded_front(list, l.assets);
        lemma_size_names(s, l, inp, t, d, at, money, list.drop_last());
        let m: Ledger = s.size_names(l, inp, t, d, at, money, list.drop_last());
        let i: int = list.last() as int;
        let c: int = m.cell(t, i);
        ledger::lemma_cell(l.tranches, l.assets, t, i);
        let k: Ledger = s.size_name(m, inp, t, d, at, money, i);
        s.lemma_size_name(m, inp, t, d, at, money, i);
        let want: Binary64 = m.struck(inp, t, i, inp.weight(m.run, t, d, i), money, at);
        let refused: bool = inp.audit && live(m.qty[c]) && s.budget[c].less(
            m.qty[c].minus(want),
        );
        let after: Ledger = Ledger {
            target: m.target.update(c, want),
            blocked: m.blocked.update(c, refused),
            ..m
        };
        lemma_touched(after, t, i);
        if !m.active[t].contains(i as usize) {
            assert(peace(s, m, t, i));
        }
        lemma_step(s, m, s, k, t, i);
    }
}

proof fn lemma_sized(s: PlainState, l: Ledger, inp: Inputs, t: int, d: int, at: Point)
    requires
        listed(s, l),
        0 <= t < l.tranches,
    ensures
        listed(s, s.sized(l, inp, t, d, at)),
        s.sized(l, inp, t, d, at).alike(l),
{
    let row: Seq<usize> = l.row(inp, t, d);
    let list: Seq<usize> = names::union(row, l.active[t]);
    names::lemma_where_below(l.assets, |i: int| !none(inp.weight(l.run, t, d, i)));
    names::lemma_union(row, l.active[t]);
    assert forall|k: int| 0 <= k < list.len() implies (#[trigger] list[k]) < l.assets by {
        assert(list.contains(list[k]));
        if row.contains(list[k]) {
            let m: int = choose|m: int| 0 <= m < row.len() && row[m] == list[k];
            assert(row[m] < l.assets);
        } else {
            let m: int = choose|m: int|
                0 <= m < l.active[t].len() && l.active[t][m] == list[k];
            assert(l.active[t][m] < l.assets);
        }
    }
    lemma_size_names(s, l, inp, t, d, at, s.funds(l, inp, t, d, at), list);
}

proof fn lemma_sell_names(
    s: PlainState,
    l: Ledger,
    inp: Inputs,
    t: int,
    at: Point,
    list: Seq<usize>,
)
    requires
        listed(s, l),
        0 <= t < l.tranches,
        names::bounded(list, l.assets),
        forall|k: int| 0 <= k < list.len() ==> l.active[t].contains(#[trigger] list[k]),
    ensures
        listed(s.sell_names(l, inp, t, at, list).0, s.sell_names(l, inp, t, at, list).1),
        s.sell_names(l, inp, t, at, list).1.alike(l),
        s.sell_names(l, inp, t, at, list).1.active == l.active,
        s.sell_names(l, inp, t, at, list).0.locked == s.locked,
        s.sell_names(l, inp, t, at, list).0.locked_total == s.locked_total,
    decreases list.len(),
{
    if list.len() > 0 {
        twin::lemma_bounded_front(list, l.assets);
        assert forall|k: int| 0 <= k < list.drop_last().len() implies l.active[t].contains(
            #[trigger] list.drop_last()[k],
        ) by {
            assert(l.active[t].contains(list[k]));
        }
        lemma_sell_names(s, l, inp, t, at, list.drop_last());
        let (z, m) = s.sell_names(l, inp, t, at, list.drop_last());
        let i: int = list.last() as int;
        ledger::lemma_cell(l.tranches, l.assets, t, i);
        z.lemma_sell_name(m, inp, t, at, i);
        assert(l.active[t].contains(list[list.len() - 1]));
        let (y, k) = z.sell_name(m, inp, t, at, i);
        lemma_step(z, m, y, k, t, i);
    }
}

proof fn lemma_buy_names(
    s: PlainState,
    l: Ledger,
    inp: Inputs,
    t: int,
    at: Point,
    list: Seq<usize>,
)
    requires
        listed(s, l),
        0 <= t < l.tranches,
        names::bounded(list, l.assets),
        forall|k: int| 0 <= k < list.len() ==> l.active[t].contains(#[trigger] list[k]),
    ensures
        listed(s.buy_names(l, inp, t, at, list).0, s.buy_names(l, inp, t, at, list).1),
        s.buy_names(l, inp, t, at, list).1.alike(l),
        s.buy_names(l, inp, t, at, list).1.active == l.active,
    decreases list.len(),
{
    if list.len() > 0 {
        twin::lemma_bounded_front(list, l.assets);
        assert forall|k: int| 0 <= k < list.drop_last().len() implies l.active[t].contains(
            #[trigger] list.drop_last()[k],
        ) by {
            assert(l.active[t].contains(list[k]));
        }
        lemma_buy_names(s, l, inp, t, at, list.drop_last());
        let (z, m) = s.buy_names(l, inp, t, at, list.drop_last());
        let i: int = list.last() as int;
        ledger::lemma_cell(l.tranches, l.assets, t, i);
        assert(l.active[t].contains(list[list.len() - 1]));
        z.lemma_buy_name(m, inp, t, at, i);
        let (y, k) = z.buy_name(m, inp, t, at, i);
        lemma_step(z, m, y, k, t, i);
    }
}

/// The names of a list are in it.
proof fn lemma_own_names(list: Seq<usize>)
    ensures
        forall|k: int| 0 <= k < list.len() ==> list.contains(#[trigger] list[k]),
{
}

proof fn lemma_decided(s: PlainState, l: Ledger, inp: Inputs, t: int, d: int, at: Point)
    requires
        listed(s, l),
        0 <= t < l.tranches,
    ensures
        listed(s.decided(l, inp, t, d, at).0, s.decided(l, inp, t, d, at).1),
        s.decided(l, inp, t, d, at).1.alike(l),
{
    let free: PlainState = s.released_all(t, l.active[t]);
    assert(names::bounded(l.active[t], l.assets));
    lemma_released(s, l, t, l.active[t]);
    lemma_sized(free, l, inp, t, d, at);
    let sized: Ledger = free.sized(l, inp, t, d, at);
    assert(names::bounded(sized.active[t], sized.assets));
    lemma_own_names(sized.active[t]);
    lemma_sell_names(free, sized, inp, t, at, sized.active[t]);
    let (sold, after) = free.sell_names(sized, inp, t, at, sized.active[t]);
    lemma_buy_names(sold, after, inp, t, at, after.active[t]);
    let (bought, done) = sold.buy_names(after, inp, t, at, after.active[t]);
    let kept: Ledger = done.remembered(inp, t, d);
    assert forall|u: int, j: int|
        0 <= u < kept.tranches && 0 <= j < kept.assets && !kept.active[u].contains(
            j as usize,
        ) implies #[trigger] peace(bought, kept, u, j) by {
        assert(peace(bought, done, u, j));
    }
}

proof fn lemma_traded(s: PlainState, l: Ledger, inp: Inputs, at: Point, n: int)
    requires
        listed(s, l),
        0 <= n <= l.tranches,
    ensures
        listed(s.traded(l, inp, at, n).0, s.traded(l, inp, at, n).1),
        s.traded(l, inp, at, n).1.alike(l),
    decreases n,
{
    if n > 0 {
        lemma_traded(s, l, inp, at, n - 1);
        let (z, m) = s.traded(l, inp, at, n - 1);
        let d: int = m.fire[n - 1] as int;
        if d >= 0 {
            lemma_decided(z, m, inp, n - 1, d, at);
        }
    }
}

/// Trading misses nothing: where every name that is held, asked for, refused
/// or kept by the policy is on its tranche's ascending list, it still is once
/// every tranche that fires has traded.
pub proof fn law_trading_misses_nothing(s: PlainState, l: Ledger, inp: Inputs, at: Point)
    requires
        listed(s, l),
    ensures
        listed(Plain::traded(s, l, inp, at).0, Plain::traded(s, l, inp, at).1),
{
    lemma_traded(s, l, inp, at, l.tranches);
}

/// Whether a sum is not rounded.
pub open spec fn exact_plus(a: Binary64, b: Binary64) -> bool {
    a.plus(b).is_finite() && a.plus(b).value() == a.value() + b.value()
}

/// Whether a difference is not rounded.
pub open spec fn exact_minus(a: Binary64, b: Binary64) -> bool {
    a.minus(b).is_finite() && a.minus(b).value() == a.value() - b.value()
}

/// What a table of locks comes to, exactly.
pub open spec fn all_locks(locked: Seq<Binary64>) -> int
    decreases locked.len(),
{
    if locked.len() == 0 {
        0
    } else {
        all_locks(locked.drop_last()) + locked.last().value()
    }
}

/// Whether what the orders hold is the sum of the locks.
pub open spec fn adds_up(s: PlainState) -> bool {
    &&& s.locked_total.is_finite()
    &&& s.locked_total.value() == all_locks(s.locked)
}

/// Whether no lock is negative.
pub open spec fn locks_not_negative(s: PlainState) -> bool {
    forall|c: int| 0 <= c < s.locked.len() ==> Binary64::zero().at_most(#[trigger] s.locked[c])
}

proof fn lemma_all_locks(locked: Seq<Binary64>, c: int, lock: Binary64)
    requires
        0 <= c < locked.len(),
    ensures
        all_locks(locked.update(c, lock)) == all_locks(locked) - locked[c].value() + lock.value(),
    decreases locked.len(),
{
    let after: Seq<Binary64> = locked.update(c, lock);
    if c == locked.len() - 1 {
        assert(after.drop_last() =~= locked.drop_last());
    } else {
        lemma_all_locks(locked.drop_last(), c, lock);
        assert(after.drop_last() =~= locked.drop_last().update(c, lock));
    }
}

/// A buy draws only on cash the account has and no other order has locked:
/// with nothing rounded, cash less what the orders hold does not fall below
/// zero, and what they hold is still the sum of the locks.
pub proof fn law_buy_keeps_the_locks_covered(
    s: PlainState,
    l: Ledger,
    inp: Inputs,
    t: int,
    at: Point,
    i: int,
)
    requires
        l.wf(),
        s.fits(l.tranches, l.assets),
        0 <= t < l.tranches,
        0 <= i < l.assets,
        adds_up(s),
        none(s.locked[l.cell(t, i)]),
        s.locked_total.value() <= l.cash.value(),
        exact_minus(l.cash, s.locked_total),
        ({
            let (take, turnover, fee) = s.affords(l, inp, t, at, i);
            if inp.can_buy(at.phase as int, at.bar as int, i) {
                exact_minus(l.cash, turnover.plus(fee))
            } else {
                exact_plus(s.locked_total, turnover.plus(fee))
            }
        }),
    ensures
        ({
            let (z, m) = s.buy_name(l, inp, t, at, i);
            &&& z.locked_total.value() <= m.cash.value()
            &&& adds_up(z)
        }),
{
    let c: int = l.cell(t, i);
    ledger::lemma_cell(l.tranches, l.assets, t, i);
    let (take, turnover, fee) = s.affords(l, inp, t, at, i);
    let cost: Binary64 = turnover.plus(fee);
    arithmetic::lemma_none(take);
    arithmetic::lemma_none(s.locked[c]);
    laws::law_buy_is_covered(s, l, inp, t, at, i);
    lemma_all_locks(s.locked, c, cost);
    assert(cost.is_finite()) by {
        reveal(Binary64::plus_spec);
    }
    if !take.at_most(Binary64::zero()) {
        lemma_finite_count(s, l, inp, t, at, i);
    }
}

/// A buy of a finite cost is of a finite count.
proof fn lemma_finite_count(s: PlainState, l: Ledger, inp: Inputs, t: int, at: Point, i: int)
    requires
        s.affords(l, inp, t, at, i).1.plus(s.affords(l, inp, t, at, i).2).is_finite(),
    ensures
        s.affords(l, inp, t, at, i).0.is_finite(),
{
    reveal(Binary64::plus_spec);
    reveal(Binary64::times_spec);
}

/// A larger count costs no less.
proof fn lemma_cost_grows(terms: Terms, inp: Inputs, few: Binary64, many: Binary64)
    requires
        live(few),
        few.at_most(many),
        many.is_finite(),
        !terms.unit.is_nan(),
        !terms.unit.negative(),
        Binary64::zero().at_most(terms.rate),
        terms.cost(inp, many).is_finite(),
        !terms.cost(inp, few).is_nan(),
    ensures
        terms.cost(inp, few).at_most(terms.cost(inp, many)),
{
    let (x, y) = (terms.turnover(few), terms.turnover(many));
    let (f, g) = (terms.fee(inp, few), terms.fee(inp, many));
    let fixed: Binary64 = inp.rated(
        crate::inputs::FIXED_FEE as int,
        terms.epoch,
        terms.category,
    );
    arithmetic::lemma_none(few);
    arithmetic::lemma_none(many);
    arithmetic::lemma_none(terms.rate);
    arithmetic::lemma_magnitudes_ordered(few, many);
    assert(!x.is_nan() && !f.is_nan() && y.is_finite() && g.is_finite()) by {
        reveal(Binary64::plus_spec);
    }
    arithmetic::lemma_times_ordered(few, many, terms.unit);
    arithmetic::lemma_times_ordered(many, many, terms.unit);
    arithmetic::lemma_magnitudes(x, y);
    let (p, q) = (x.times(terms.rate), y.times(terms.rate));
    assert(x.is_finite());
    assert(!p.is_nan() && !q.is_nan()) by {
        reveal(Binary64::plus_spec);
        reveal(Binary64::times_spec);
    }
    arithmetic::lemma_times_ordered(x, y, terms.rate);
    arithmetic::lemma_times_ordered(y, y, terms.rate);
    assert(p.at_most(q)) by {
        arithmetic::lemma_none(p);
        arithmetic::lemma_none(q);
        if terms.rate.negative() {
            lemma_times_none(x, terms.rate);
            lemma_times_none(y, terms.rate);
        } else {
            arithmetic::lemma_magnitudes(p, q);
        }
    }
    assert(!p.plus(fixed).is_nan() && !q.plus(fixed).is_nan());
    arithmetic::lemma_plus_ordered(p, q, fixed);
    assert(f.at_most(g));
    assert(!y.plus(f).is_nan()) by {
        reveal(Binary64::plus_spec);
    }
    arithmetic::lemma_plus_ordered(x, y, f);
    arithmetic::law_plus_commutes(y, f);
    arithmetic::law_plus_commutes(y, g);
    arithmetic::lemma_plus_ordered(f, g, y);
}

/// A finite number times none is none.
proof fn lemma_times_none(a: Binary64, b: Binary64)
    requires
        a.is_finite(),
        none(b),
    ensures
        none(a.times(b)),
{
    arithmetic::lemma_none(b);
    arithmetic::lemma_none(Binary64::zero());
    arithmetic::law_times_commutes(a, b);
    arithmetic::lemma_like_times(b, Binary64::zero(), a);
    arithmetic::lemma_none(Binary64::zero().times(a));
    arithmetic::lemma_zero_times(a);
}

/// What an order is cut to is no more than it asked for.
proof fn lemma_covered_at_most(terms: Terms, inp: Inputs, asked: Binary64)
    requires
        !asked.at_most(Binary64::zero()),
        asked.is_finite(),
        !terms.unit.is_nan(),
        !terms.unit.negative(),
        Binary64::zero().at_most(terms.rate),
        live(terms.covered(inp, asked)),
        terms.covered(inp, asked).is_finite(),
        terms.cost(inp, terms.covered(inp, asked)).is_finite(),
    ensures
        terms.covered(inp, asked).at_most(asked),
{
    let fitting: Binary64 = terms.fitting(inp);
    let first: Binary64 = if fitting.less(asked) {
        fitting
    } else {
        asked
    };
    let take: Binary64 = terms.covered(inp, asked);
    if terms.overdrawn(inp, first) {
        laws::lemma_backed_off(terms, inp, fitting.minus(terms.lot));
        assert(!terms.overdrawn(inp, take));
        if !take.at_most(asked) {
            assert(first.at_most(take));
            lemma_cost_grows(terms, inp, first, take);
            assert(terms.spendable.less(terms.cost(inp, take)));
        }
    }
}

/// A buy never takes a book past its target: with nothing rounded, what it
/// holds afterwards is no more than what it held or what it asked for.
pub proof fn law_buy_stops_at_its_target(
    s: PlainState,
    l: Ledger,
    inp: Inputs,
    t: int,
    at: Point,
    i: int,
)
    requires
        l.wf(),
        s.fits(l.tranches, l.assets),
        0 <= t < l.tranches,
        0 <= i < l.assets,
        live(inp.rate_of(MULTIPLIER, at.epoch as int, i)),
        inp.rate_of(MULTIPLIER, at.epoch as int, i).is_finite(),
        Binary64::zero().at_most(inp.rate_of(BUY_FEE, at.epoch as int, i)),
        exact_minus(l.target[l.cell(t, i)], l.qty[l.cell(t, i)]),
        ({
            let (take, turnover, fee) = s.affords(l, inp, t, at, i);
            &&& turnover.plus(fee).is_finite()
            &&& exact_plus(l.qty[l.cell(t, i)], take)
        }),
    ensures
        ({
            let c = l.cell(t, i);
            let m = s.buy_name(l, inp, t, at, i).1;
            m.qty[c].at_most(l.qty[c]) || m.qty[c].at_most(l.target[c])
        }),
{
    let c: int = l.cell(t, i);
    ledger::lemma_cell(l.tranches, l.assets, t, i);
    let asked: Binary64 = l.target[c].minus(l.qty[c]);
    let (take, turnover, fee) = s.affords(l, inp, t, at, i);
    let terms: Terms = s.terms(l, inp, at, i);
    arithmetic::lemma_none(take);
    lemma_finite_count(s, l, inp, t, at, i);
    assert(asked.is_finite() && l.qty[c].is_finite()) by {
        reveal(Binary64::plus_spec);
    }
    if !take.at_most(Binary64::zero()) {
        let price: Binary64 = inp.quote(at.phase as int, at.bar as int, i);
        arithmetic::lemma_none(price);
        arithmetic::lemma_none(inp.rate_of(MULTIPLIER, at.epoch as int, i));
        assert(price.is_finite()) by {
            reveal(Binary64::plus_spec);
            reveal(Binary64::times_spec);
        }
        laws::lemma_product_has_no_sign(
            inp.quote(at.phase as int, at.bar as int, i),
            inp.rate_of(MULTIPLIER, at.epoch as int, i),
        );
        lemma_covered_at_most(terms, inp, asked);
        assert(!l.target[c].is_nan()) by {
            reveal(Binary64::plus_spec);
        }
    }
}

/// Whether releasing the listed names' locks, one after another, rounds
/// nothing.
pub open spec fn exact_releases(s: PlainState, t: int, list: Seq<usize>) -> bool
    decreases list.len(),
{
    list.len() > 0 ==> {
        let z = s.released_all(t, list.drop_last());
        let lock = z.locked[s.cell(t, list.last() as int)];
        exact_releases(s, t, list.drop_last()) && (live(lock) ==> exact_minus(
            z.locked_total,
            lock,
        ))
    }
}

/// Whether locking what the listed names' blocked buys cost, one after
/// another, rounds nothing.
pub open spec fn exact_locks(
    s: PlainState,
    l: Ledger,
    inp: Inputs,
    t: int,
    at: Point,
    list: Seq<usize>,
) -> bool
    decreases list.len(),
{
    list.len() > 0 ==> {
        let (z, m) = s.buy_names(l, inp, t, at, list.drop_last());
        let i = list.last() as int;
        let (take, turnover, fee) = z.affords(m, inp, t, at, i);
        exact_locks(s, l, inp, t, at, list.drop_last()) && (!take.at_most(Binary64::zero())
            && !inp.can_buy(at.phase as int, at.bar as int, i) ==> exact_plus(
            z.locked_total,
            turnover.plus(fee),
        ))
    }
}

/// Whether a tranche that decides rounds none of the cash its orders free or
/// lock.
pub open spec fn exact_decision(
    s: PlainState,
    l: Ledger,
    inp: Inputs,
    t: int,
    d: int,
    at: Point,
) -> bool {
    let free = s.released_all(t, l.active[t]);
    let sized = free.sized(l, inp, t, d, at);
    let (sold, after) = free.sell_names(sized, inp, t, at, sized.active[t]);
    exact_releases(s, t, l.active[t]) && exact_locks(sold, after, inp, t, at, after.active[t])
}

/// Whether the first `n` tranches' trading rounds none of the cash their
/// orders free or lock.
pub open spec fn exact_trading(s: PlainState, l: Ledger, inp: Inputs, at: Point, n: int) -> bool
    decreases n,
{
    n > 0 ==> {
        let (z, m) = s.traded(l, inp, at, n - 1);
        let d = m.fire[n - 1] as int;
        exact_trading(s, l, inp, at, n - 1) && (d >= 0 ==> exact_decision(
            z,
            m,
            inp,
            n - 1,
            d,
            at,
        ))
    }
}

proof fn lemma_released_adds_up(s: PlainState, t: int, list: Seq<usize>)
    requires
        s.fits(s.tranches, s.assets),
        adds_up(s),
        0 <= t < s.tranches,
        names::bounded(list, s.assets),
        forall|i: int|
            0 <= i < s.assets ==> Binary64::zero().at_most(s.locked[#[trigger] s.cell(t, i)]),
        exact_releases(s, t, list),
    ensures
        adds_up(s.released_all(t, list)),
        s.released_all(t, list).fits(s.tranches, s.assets),
        forall|k: int|
            0 <= k < list.len() ==> none(
                s.released_all(t, list).locked[s.cell(t, #[trigger] list[k] as int)],
            ),
        forall|i: int|
            0 <= i < s.assets ==> Binary64::zero().at_most(
                s.released_all(t, list).locked[#[trigger] s.cell(t, i)],
            ),
        forall|i: int|
            0 <= i < s.assets && none(s.locked[s.cell(t, i)]) ==> none(
                s.released_all(t, list).locked[#[trigger] s.cell(t, i)],
            ),
        forall|u: int, i: int|
            0 <= u < s.tranches && u != t && 0 <= i < s.assets ==> s.released_all(
                t,
                list,
            ).locked[#[trigger] s.cell(u, i)] == s.locked[s.cell(u, i)],
    decreases list.len(),
{
    if list.len() > 0 {
        twin::lemma_bounded_front(list, s.assets);
        let front: Seq<usize> = list.drop_last();
        lemma_released_adds_up(s, t, front);
        let z: PlainState = s.released_all(t, front);
        let c: int = s.cell(t, list.last() as int);
        ledger::lemma_cell(s.tranches, s.assets, t, list.last() as int);
        let y: PlainState = z.released(c);
        lemma_all_locks(z.locked, c, Binary64::zero());
        arithmetic::lemma_none(z.locked[c]);
        arithmetic::lemma_none(Binary64::zero());
        assert(Binary64::zero().at_most(z.locked[s.cell(t, list.last() as int)]));
        assert forall|i: int| 0 <= i < s.assets implies Binary64::zero().at_most(
            y.locked[#[trigger] s.cell(t, i)],
        ) && (none(s.locked[s.cell(t, i)]) ==> none(y.locked[s.cell(t, i)])) by {
            ledger::lemma_cell(s.tranches, s.assets, t, i);
            assert(Binary64::zero().at_most(z.locked[s.cell(t, i)]));
        }
        assert forall|k: int| 0 <= k < list.len() implies none(
            y.locked[s.cell(t, #[trigger] list[k] as int)],
        ) by {
            assert(list[k] < s.assets);
            ledger::lemma_cell(s.tranches, s.assets, t, list[k] as int);
            if k < front.len() {
                assert(none(z.locked[s.cell(t, front[k] as int)]));
            }
        }
        assert forall|u: int, i: int|
            0 <= u < s.tranches && u != t && 0 <= i < s.assets implies y.locked[#[trigger] s.cell(
            u,
            i,
        )] == s.locked[s.cell(u, i)] by {
            ledger::lemma_cell(s.tranches, s.assets, u, i);
            assert(z.locked[s.cell(u, i)] == s.locked[s.cell(u, i)]);
        }
    }
}

/// As a tranche buys, the names not bought yet are left free of locks, and so
/// are the other tranches left alone.
proof fn lemma_buys_add_up(
    s: PlainState,
    l: Ledger,
    inp: Inputs,
    t: int,
    at: Point,
    list: Seq<usize>,
)
    requires
        listed(s, l),
        adds_up(s),
        0 <= t < l.tranches,
        names::bounded(list, l.assets),
        names::ascending(list),
        forall|k: int| 0 <= k < list.len() ==> l.active[t].contains(#[trigger] list[k]),
        forall|i: int| 0 <= i < l.assets ==> none(s.locked[#[trigger] l.cell(t, i)]),
        exact_locks(s, l, inp, t, at, list),
    ensures
        adds_up(s.buy_names(l, inp, t, at, list).0),
        forall|i: int|
            0 <= i < l.assets && !list.contains(i as usize) ==> none(
                s.buy_names(l, inp, t, at, list).0.locked[#[trigger] l.cell(t, i)],
            ),
        forall|u: int, i: int|
            0 <= u < l.tranches && u != t && 0 <= i < l.assets ==> s.buy_names(
                l,
                inp,
                t,
                at,
                list,
            ).0.locked[#[trigger] l.cell(u, i)] == s.locked[l.cell(u, i)],
    decreases list.len(),
{
    if list.len() > 0 {
        twin::lemma_bounded_front(list, l.assets);
        let front: Seq<usize> = list.drop_last();
        assert forall|k: int| 0 <= k < front.len() implies l.active[t].contains(
            #[trigger] front[k],
        ) by {
            assert(l.active[t].contains(list[k]));
        }
        assert(names::ascending(front)) by {
            assert forall|j: int, k: int| 0 <= j < k < front.len() implies front[j] < front[k] by {
                assert(list[j] < list[k]);
            }
        }
        lemma_buys_add_up(s, l, inp, t, at, front);
        lemma_buy_names(s, l, inp, t, at, front);
        let (z, m) = s.buy_names(l, inp, t, at, front);
        let i: int = list.last() as int;
        let c: int = l.cell(t, i);
        ledger::lemma_cell(l.tranches, l.assets, t, i);
        if front.contains(i as usize) {
            let k: int = choose|k: int| 0 <= k < front.len() && front[k] == i;
            assert(list[k] < list[list.len() - 1]);
        }
        assert(none(z.locked[l.cell(t, i)]));
        arithmetic::lemma_none(z.locked[c]);
        let (take, turnover, fee) = z.affords(m, inp, t, at, i);
        lemma_all_locks(z.locked, c, turnover.plus(fee));
        let y: PlainState = z.buy_name(m, inp, t, at, i).0;
        assert forall|j: int| 0 <= j < l.assets && !list.contains(j as usize) implies none(
            y.locked[#[trigger] l.cell(t, j)],
        ) by {
            ledger::lemma_cell(l.tranches, l.assets, t, j);
            assert(list[list.len() - 1] != j);
            if front.contains(j as usize) {
                let k: int = choose|k: int| 0 <= k < front.len() && front[k] == j;
                assert(list[k] == j);
            }
            assert(none(z.locked[l.cell(t, j)]));
        }
        assert forall|u: int, j: int|
            0 <= u < l.tranches && u != t && 0 <= j < l.assets implies y.locked[#[trigger] l.cell(
            u,
            j,
        )] == s.locked[l.cell(u, j)] by {
            ledger::lemma_cell(l.tranches, l.assets, u, j);
            assert(z.locked[l.cell(u, j)] == s.locked[l.cell(u, j)]);
        }
    }
}

proof fn lemma_decision_adds_up(
    s: PlainState,
    l: Ledger,
    inp: Inputs,
    t: int,
    d: int,
    at: Point,
)
    requires
        listed(s, l),
        adds_up(s),
        0 <= t < l.tranches,
        forall|i: int|
            0 <= i < l.assets ==> Binary64::zero().at_most(s.locked[#[trigger] l.cell(t, i)]),
        exact_decision(s, l, inp, t, d, at),
    ensures
        adds_up(s.decided(l, inp, t, d, at).0),
        forall|u: int, i: int|
            0 <= u < l.tranches && u != t && 0 <= i < l.assets ==> s.decided(
                l,
                inp,
                t,
                d,
                at,
            ).0.locked[#[trigger] l.cell(u, i)] == s.locked[l.cell(u, i)],
{
    let free: PlainState = s.released_all(t, l.active[t]);
    assert(names::bounded(l.active[t], l.assets));
    lemma_released(s, l, t, l.active[t]);
    assert forall|i: int| 0 <= i < s.assets implies Binary64::zero().at_most(
        s.locked[#[trigger] s.cell(t, i)],
    ) by {
        assert(Binary64::zero().at_most(s.locked[l.cell(t, i)]));
    }
    lemma_released_adds_up(s, t, l.active[t]);
    assert forall|i: int| 0 <= i < l.assets implies none(free.locked[#[trigger] l.cell(t, i)]) by {
        ledger::lemma_cell(l.tranches, l.assets, t, i);
        if l.active[t].contains(i as usize) {
            let k: int = choose|k: int| 0 <= k < l.active[t].len() && l.active[t][k] == i;
            assert(none(free.locked[s.cell(t, l.active[t][k] as int)]));
        } else {
            assert(peace(s, l, t, i));
            assert(none(free.locked[s.cell(t, i)]));
        }
    }
    lemma_sized(free, l, inp, t, d, at);
    let sized: Ledger = free.sized(l, inp, t, d, at);
    assert(names::bounded(sized.active[t], sized.assets));
    lemma_own_names(sized.active[t]);
    lemma_sell_names(free, sized, inp, t, at, sized.active[t]);
    let (sold, after) = free.sell_names(sized, inp, t, at, sized.active[t]);
    assert forall|i: int| 0 <= i < after.assets implies none(
        sold.locked[#[trigger] after.cell(t, i)],
    ) by {
        assert(none(free.locked[l.cell(t, i)]));
    }
    assert(adds_up(sold));
    assert(names::ascending(after.active[t]));
    lemma_buys_add_up(sold, after, inp, t, at, after.active[t]);
    let bought: PlainState = sold.buy_names(after, inp, t, at, after.active[t]).0;
    assert forall|u: int, i: int|
        0 <= u < l.tranches && u != t && 0 <= i < l.assets implies bought.locked[#[trigger] l.cell(
        u,
        i,
    )] == s.locked[l.cell(u, i)] by {
        assert(bought.locked[after.cell(u, i)] == sold.locked[after.cell(u, i)]);
        assert(free.locked[s.cell(u, i)] == s.locked[s.cell(u, i)]);
    }
}

proof fn lemma_trading_adds_up(s: PlainState, l: Ledger, inp: Inputs, at: Point, n: int)
    requires
        listed(s, l),
        adds_up(s),
        locks_not_negative(s),
        0 <= n <= l.tranches,
        exact_trading(s, l, inp, at, n),
    ensures
        adds_up(s.traded(l, inp, at, n).0),
        forall|u: int, i: int|
            n <= u < l.tranches && 0 <= i < l.assets ==> s.traded(
                l,
                inp,
                at,
                n,
            ).0.locked[#[trigger] l.cell(u, i)] == s.locked[l.cell(u, i)],
    decreases n,
{
    if n > 0 {
        lemma_trading_adds_up(s, l, inp, at, n - 1);
        lemma_traded(s, l, inp, at, n - 1);
        let (z, m) = s.traded(l, inp, at, n - 1);
        let d: int = m.fire[n - 1] as int;
        let y: PlainState = s.traded(l, inp, at, n).0;
        if d >= 0 {
            assert forall|i: int| 0 <= i < m.assets implies Binary64::zero().at_most(
                z.locked[#[trigger] m.cell(n - 1, i)],
            ) by {
                ledger::lemma_cell(l.tranches, l.assets, n - 1, i);
                assert(z.locked[l.cell(n - 1, i)] == s.locked[l.cell(n - 1, i)]);
            }
            lemma_decision_adds_up(z, m, inp, n - 1, d, at);
            assert forall|u: int, i: int|
                n <= u < l.tranches && 0 <= i < l.assets implies y.locked[#[trigger] l.cell(u, i)]
                == s.locked[l.cell(u, i)] by {
                assert(y.locked[m.cell(u, i)] == z.locked[m.cell(u, i)]);
                assert(z.locked[l.cell(u, i)] == s.locked[l.cell(u, i)]);
            }
        } else {
            assert forall|u: int, i: int|
                n <= u < l.tranches && 0 <= i < l.assets implies y.locked[#[trigger] l.cell(u, i)]
                == s.locked[l.cell(u, i)] by {
                assert(z.locked[l.cell(u, i)] == s.locked[l.cell(u, i)]);
            }
        }
    }
}

/// What the orders hold stays the sum of their locks through every tranche's
/// trading, as long as none of the cash they free or lock is rounded. Left
/// out is a lock below zero: it is not freed, and an order that replaces it
/// leaves it out of the sum.
pub proof fn law_trading_adds_up_the_locks(s: PlainState, l: Ledger, inp: Inputs, at: Point)
    requires
        listed(s, l),
        adds_up(s),
        locks_not_negative(s),
        exact_trading(s, l, inp, at, l.tranches),
    ensures
        adds_up(Plain::traded(s, l, inp, at).0),
{
    lemma_trading_adds_up(s, l, inp, at, l.tranches);
}

}
