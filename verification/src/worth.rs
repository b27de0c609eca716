//! What an account holds and what it is worth.
//!
//! Every sum is given name by name, in ascending order, as doubles are added:
//! what the account holds of a name, what a book, the pool and the account are
//! worth, and the gross exposure of a decision.

use vstd::prelude::*;

use crate::arithmetic;
use crate::binary64::Binary64;
use crate::inputs::{Inputs, Point, MULTIPLIER};
use crate::ledger;
use crate::ledger::{none, Ledger};
use crate::names;
use crate::plain;

verus! {

/// `start` and then each of the terms, added one after another.
pub open spec fn added(start: Binary64, terms: Seq<Binary64>) -> Binary64
    decreases terms.len(),
{
    if terms.len() == 0 {
        start
    } else {
        added(start, terms.drop_last()).plus(terms.last())
    }
}

/// The terms of those below `n` that count, ascending.
pub open spec fn terms_below<T>(
    n: int,
    counts: spec_fn(int) -> bool,
    term: spec_fn(int) -> T,
) -> Seq<T>
    decreases n,
{
    if n <= 0 {
        Seq::empty()
    } else if counts(n - 1) {
        terms_below(n - 1, counts, term).push(term(n - 1))
    } else {
        terms_below(n - 1, counts, term)
    }
}

/// Adding some terms and then some more is adding them all.
pub(crate) proof fn lemma_added(start: Binary64, a: Seq<Binary64>, b: Seq<Binary64>)
    ensures
        added(start, a + b) == added(added(start, a), b),
    decreases b.len(),
{
    if b.len() == 0 {
        assert(a + b =~= a);
    } else {
        assert((a + b).drop_last() =~= a + b.drop_last());
        lemma_added(start, a, b.drop_last());
    }
}

/// Conditions and terms that agree give the same terms.
pub(crate) proof fn lemma_terms_alike<T>(
    n: int,
    counts: spec_fn(int) -> bool,
    term: spec_fn(int) -> T,
    others: spec_fn(int) -> bool,
    other: spec_fn(int) -> T,
)
    requires
        forall|i: int|
            0 <= i < n ==> (#[trigger] counts(i) == others(i)) && (counts(i) ==> term(i) == other(
                i,
            )),
    ensures
        terms_below(n, counts, term) == terms_below(n, others, other),
    decreases n,
{
    if n > 0 {
        lemma_terms_alike(n - 1, counts, term, others, other);
        assert(counts(n - 1) == others(n - 1));
    }
}

/// Where nothing more counts there are no more terms.
pub(crate) proof fn lemma_terms_end<T>(
    m: int,
    n: int,
    counts: spec_fn(int) -> bool,
    term: spec_fn(int) -> T,
)
    requires
        0 <= m <= n,
        forall|i: int| m <= i < n ==> !#[trigger] counts(i),
    ensures
        terms_below(n, counts, term) == terms_below(m, counts, term),
    decreases n,
{
    if m < n {
        assert(!counts(n - 1));
        lemma_terms_end(m, n - 1, counts, term);
    }
}

/// The terms below a sum are those below the first part and then the rest.
pub(crate) proof fn lemma_terms_split<T>(
    m: int,
    n: int,
    counts: spec_fn(int) -> bool,
    term: spec_fn(int) -> T,
)
    requires
        0 <= m,
        0 <= n,
    ensures
        terms_below(m + n, counts, term) == terms_below(m, counts, term) + terms_below(
            n,
            |i: int| counts(m + i),
            |i: int| term(m + i),
        ),
    decreases n,
{
    let first: Seq<T> = terms_below(m, counts, term);
    let f = |i: int| counts(m + i);
    let g = |i: int| term(m + i);
    if n > 0 {
        lemma_terms_split(m, n - 1, counts, term);
        let rest: Seq<T> = terms_below(n - 1, f, g);
        assert(f(n - 1) == counts(m + n - 1) && g(n - 1) == term(m + n - 1));
        assert((first + rest).push(term(m + n - 1)) =~= first + rest.push(term(m + n - 1)));
    } else {
        assert(terms_below(n, f, g) =~= Seq::<T>::empty());
        assert(first + terms_below(n, f, g) =~= first);
    }
}

/// A fold over an ascending list, as terms.
pub(crate) proof fn lemma_listed_terms<T>(
    list: Seq<usize>,
    n: int,
    counts: spec_fn(int) -> bool,
    term: spec_fn(int) -> T,
)
    requires
        list.len() > 0,
        names::ascending(list),
        names::bounded(list, n),
        n <= usize::MAX,
    ensures
        ({
            let x = list.last() as int;
            let front = list.drop_last();
            let all = terms_below(n, |i: int| list.contains(i as usize) && counts(i), term);
            let rest = terms_below(n, |i: int| front.contains(i as usize) && counts(i), term);
            &&& names::ascending(front)
            &&& names::bounded(front, n)
            &&& 0 <= x < n
            &&& all == if counts(x) {
                rest.push(term(x))
            } else {
                rest
            }
        }),
{
    let x: int = list.last() as int;
    let front: Seq<usize> = list.drop_last();
    let f = |i: int| list.contains(i as usize) && counts(i);
    let g = |i: int| front.contains(i as usize) && counts(i);
    assert(list[list.len() - 1] < n);
    assert forall|a: int, b: int| 0 <= a < b < front.len() implies front[a] < front[b] by {
        assert(list[a] < list[b]);
    }
    assert forall|k: int| 0 <= k < front.len() implies (#[trigger] front[k]) < n by {
        assert(list[k] < n);
    }
    assert forall|i: int| x < i < n implies !#[trigger] f(i) && !g(i) by {
        if list.contains(i as usize) {
            let k: int = choose|k: int| 0 <= k < list.len() && list[k] == i;
            assert(list[k] <= list[list.len() - 1]);
        }
        if front.contains(i as usize) {
            let k: int = choose|k: int| 0 <= k < front.len() && front[k] == i;
            assert(list[k] == i);
            assert(list[k] < list[list.len() - 1]);
        }
    }
    assert(!g(x)) by {
        if front.contains(x as usize) {
            let k: int = choose|k: int| 0 <= k < front.len() && front[k] == x;
            assert(list[k] < list[list.len() - 1]);
        }
    }
    assert(f(x) == counts(x)) by {
        assert(list.contains(list[list.len() - 1]));
    }
    assert forall|i: int| 0 <= i < x implies (#[trigger] f(i) == g(i)) && (f(i) ==> term(i)
        == term(i)) by {
        if list.contains(i as usize) {
            let k: int = choose|k: int| 0 <= k < list.len() && list[k] == i as usize;
            assert(front[k] == i as usize);
        }
        if front.contains(i as usize) {
            let k: int = choose|k: int| 0 <= k < front.len() && front[k] == i as usize;
            assert(list[k] == i as usize);
        }
    }
    lemma_beyond(n, x, f, g, term);
    lemma_terms_alike(x, f, term, g, term);
}

/// Nothing counts beyond the last name of a list.
proof fn lemma_beyond<T>(
    n: int,
    x: int,
    f: spec_fn(int) -> bool,
    g: spec_fn(int) -> bool,
    term: spec_fn(int) -> T,
)
    requires
        0 <= x < n,
        forall|i: int| x < i < n ==> !#[trigger] f(i) && !g(i),
        !g(x),
    ensures
        terms_below(n, f, term) == if f(x) {
            terms_below(x, f, term).push(term(x))
        } else {
            terms_below(x, f, term)
        },
        terms_below(n, g, term) == terms_below(x, g, term),
{
    assert forall|i: int| x + 1 <= i < n implies !#[trigger] f(i) by {}
    assert forall|i: int| x + 1 <= i < n implies !#[trigger] g(i) by {
        assert(!f(i));
    }
    lemma_terms_end(x + 1, n, f, term);
    lemma_terms_end(x + 1, n, g, term);
}

/// What is worth a name's units: their count times the last quote times what
/// the name's class multiplies by under the epoch.
pub proof fn law_units_are_worth_their_last_quote(
    l: Ledger,
    inp: Inputs,
    at: Point,
    i: int,
    units: Binary64,
)
    ensures
        l.value(inp, at, i, units) == units.times(l.last[i]).times(
            inp.rate_of(MULTIPLIER, at.epoch as int, i),
        ),
{
}

proof fn lemma_held(l: Ledger, n: int, i: int)
    requires
        0 <= n,
    ensures
        l.held_by(n, i) == added(
            l.liq[i],
            Seq::new(n as nat, |t: int| l.qty[t * l.assets + i]),
        ),
    decreases n,
{
    let all: Seq<Binary64> = Seq::new(n as nat, |t: int| l.qty[t * l.assets + i]);
    if n > 0 {
        lemma_held(l, n - 1, i);
        assert(all.drop_last() =~= Seq::new((n - 1) as nat, |t: int| l.qty[t * l.assets + i]));
        assert(all.last() == l.qty[(n - 1) * l.assets + i]);
    }
}

/// What an account holds of a name is what its pool holds and then what every
/// tranche holds, added in that order, and nothing is left out.
pub proof fn law_what_is_held_of_a_name(l: Ledger, i: int)
    requires
        l.wf(),
    ensures
        l.holds(i) == added(
            l.liq[i],
            Seq::new(l.tranches as nat, |t: int| l.qty[t * l.assets + i]),
        ),
{
    lemma_held(l, l.tranches, i);
}

proof fn lemma_tally(
    l: Ledger,
    inp: Inputs,
    at: Point,
    start: Binary64,
    table: Seq<Binary64>,
    base: int,
    list: Seq<usize>,
)
    requires
        l.wf(),
        names::ascending(list),
        names::bounded(list, l.assets),
    ensures
        l.tally(inp, at, start, table, base, list) == added(
            start,
            terms_below(
                l.assets,
                |i: int| list.contains(i as usize) && !none(table[base + i]),
                |i: int| l.value(inp, at, i, table[base + i]),
            ),
        ),
    decreases list.len(),
{
    let counts = |i: int| !none(table[base + i]);
    let term = |i: int| l.value(inp, at, i, table[base + i]);
    let f = |i: int| list.contains(i as usize) && !none(table[base + i]);
    let g = |i: int| list.contains(i as usize) && counts(i);
    lemma_terms_alike(l.assets, f, term, g, term);
    if list.len() > 0 {
        let front: Seq<usize> = list.drop_last();
        lemma_listed_terms(list, l.assets, counts, term);
        lemma_tally(l, inp, at, start, table, base, front);
        lemma_terms_alike(
            l.assets,
            |i: int| front.contains(i as usize) && !none(table[base + i]),
            term,
            |i: int| front.contains(i as usize) && counts(i),
            term,
        );
        let rest: Seq<Binary64> = terms_below(
            l.assets,
            |i: int| front.contains(i as usize) && counts(i),
            term,
        );
        let x: int = list.last() as int;
        assert(rest.push(term(x)).drop_last() =~= rest);
    } else {
        lemma_terms_end(0, l.assets, g, term);
    }
}

/// A book is worth the value of each name it is doing something with and
/// holds units of, ascending.
pub proof fn law_what_a_book_is_worth(l: Ledger, inp: Inputs, t: int, at: Point)
    requires
        l.wf(),
        0 <= t < l.tranches,
    ensures
        l.book_value(inp, t, at) == added(
            Binary64 { bits: 0 },
            terms_below(
                l.assets,
                |i: int| l.active[t].contains(i as usize) && !none(l.qty[t * l.assets + i]),
                |i: int|
                    l.qty[t * l.assets + i].times(l.last[i]).times(
                        inp.rate_of(MULTIPLIER, at.epoch as int, i),
                    ),
            ),
        ),
{
    assert(names::bounded(l.active[t], l.assets));
    let base: int = t * l.assets;
    lemma_tally(l, inp, at, Binary64::zero(), l.qty, base, l.active[t]);
    lemma_terms_alike(
        l.assets,
        |i: int| l.active[t].contains(i as usize) && !none(l.qty[base + i]),
        |i: int| l.value(inp, at, i, l.qty[base + i]),
        |i: int| l.active[t].contains(i as usize) && !none(l.qty[t * l.assets + i]),
        |i: int|
            l.qty[t * l.assets + i].times(l.last[i]).times(
                inp.rate_of(MULTIPLIER, at.epoch as int, i),
            ),
    );
}

proof fn lemma_worth(l: Ledger, inp: Inputs, at: Point, n: int)
    requires
        l.wf(),
        0 <= n <= l.tranches,
    ensures
        l.worth_of(inp, at, n) == added(
            l.worth_of(inp, at, 0),
            terms_below(
                n * l.assets,
                |c: int| l.active[c / l.assets].contains((c % l.assets) as usize) && !none(l.qty[c]),
                |c: int| l.value(inp, at, c % l.assets, l.qty[c]),
            ),
        ),
    decreases n,
{
    let counts = |c: int|
        l.active[c / l.assets].contains((c % l.assets) as usize) && !none(l.qty[c]);
    let term = |c: int| l.value(inp, at, c % l.assets, l.qty[c]);
    let start: Binary64 = l.worth_of(inp, at, 0);
    assert(0 * l.assets == 0);
    if n > 0 {
        let t: int = n - 1;
        let base: int = t * l.assets;
        lemma_worth(l, inp, at, t);
        assert(names::bounded(l.active[t], l.assets));
        lemma_tally(l, inp, at, l.worth_of(inp, at, t), l.qty, base, l.active[t]);
        assert(base + l.assets == n * l.assets && 0 <= base) by (nonlinear_arith)
            requires
                base == (n - 1) * l.assets,
                n > 0,
                0 <= l.assets,
        ;
        lemma_terms_split(base, l.assets, counts, term);
        let f = |i: int| l.active[t].contains(i as usize) && !none(l.qty[base + i]);
        let g = |i: int| l.value(inp, at, i, l.qty[base + i]);
        let h = |i: int| counts(base + i);
        let k = |i: int| term(base + i);
        assert forall|i: int| 0 <= i < l.assets implies (#[trigger] f(i) == h(i)) && (f(i) ==> g(i)
            == k(i)) by {
            ledger::lemma_cell(l.tranches, l.assets, t, i);
            assert(ledger::cell_of(l.assets, t, i) == base + i);
        }
        lemma_terms_alike(l.assets, f, g, h, k);
        lemma_added(start, terms_below(base, counts, term), terms_below(l.assets, h, k));
    }
}

/// The equity a decision is sized on: cash, then the value of what the pool
/// holds, name by name, then that of what the tranches hold, tranche by
/// tranche and name by name. Reading it changes nothing else.
pub proof fn law_what_an_account_is_worth(l: Ledger, inp: Inputs, at: Point)
    requires
        l.wf(),
    ensures
        l.snapshot(inp, at) == (Ledger { equity: l.snapshot(inp, at).equity, ..l }),
        l.snapshot(inp, at).equity == added(
            added(
                l.cash,
                terms_below(
                    l.assets,
                    |i: int| l.pool.contains(i as usize) && !none(l.liq[i]),
                    |i: int|
                        l.liq[i].times(l.last[i]).times(
                            inp.rate_of(MULTIPLIER, at.epoch as int, i),
                        ),
                ),
            ),
            terms_below(
                l.tranches * l.assets,
                |c: int| l.active[c / l.assets].contains((c % l.assets) as usize) && !none(l.qty[c]),
                |c: int|
                    l.qty[c].times(l.last[c % l.assets]).times(
                        inp.rate_of(MULTIPLIER, at.epoch as int, c % l.assets),
                    ),
            ),
        ),
{
    lemma_tally(l, inp, at, l.cash, l.liq, 0, l.pool);
    lemma_terms_alike(
        l.assets,
        |i: int| l.pool.contains(i as usize) && !none(l.liq[0 + i]),
        |i: int| l.value(inp, at, i, l.liq[0 + i]),
        |i: int| l.pool.contains(i as usize) && !none(l.liq[i]),
        |i: int| l.liq[i].times(l.last[i]).times(inp.rate_of(MULTIPLIER, at.epoch as int, i)),
    );
    lemma_worth(l, inp, at, l.tranches);
    lemma_terms_alike(
        l.tranches * l.assets,
        |c: int| l.active[c / l.assets].contains((c % l.assets) as usize) && !none(l.qty[c]),
        |c: int| l.value(inp, at, c % l.assets, l.qty[c]),
        |c: int| l.active[c / l.assets].contains((c % l.assets) as usize) && !none(l.qty[c]),
        |c: int|
            l.qty[c].times(l.last[c % l.assets]).times(
                inp.rate_of(MULTIPLIER, at.epoch as int, c % l.assets),
            ),
    );
}

proof fn lemma_holdings(l: Ledger, inp: Inputs, at: Point, list: Seq<usize>)
    requires
        l.wf(),
        names::ascending(list),
        names::bounded(list, l.assets),
    ensures
        l.holdings_value(inp, at, list) == added(
            Binary64 { bits: 0 },
            terms_below(
                l.assets,
                |i: int| list.contains(i as usize) && !none(l.holds(i)),
                |i: int| l.value(inp, at, i, l.holds(i)),
            ),
        ),
    decreases list.len(),
{
    let counts = |i: int| !none(l.holds(i));
    let term = |i: int| l.value(inp, at, i, l.holds(i));
    let f = |i: int| list.contains(i as usize) && !none(l.holds(i));
    let g = |i: int| list.contains(i as usize) && counts(i);
    lemma_terms_alike(l.assets, f, term, g, term);
    if list.len() > 0 {
        let front: Seq<usize> = list.drop_last();
        lemma_listed_terms(list, l.assets, counts, term);
        lemma_holdings(l, inp, at, front);
        lemma_terms_alike(
            l.assets,
            |i: int| front.contains(i as usize) && !none(l.holds(i)),
            term,
            |i: int| front.contains(i as usize) && counts(i),
            term,
        );
        let rest: Seq<Binary64> = terms_below(
            l.assets,
            |i: int| front.contains(i as usize) && counts(i),
            term,
        );
        let x: int = list.last() as int;
        assert(rest.push(term(x)).drop_last() =~= rest);
    } else {
        lemma_terms_end(0, l.assets, g, term);
    }
}

/// The equity a closed bar reports: cash plus the value of all the account
/// holds, name by name; of every name when positions are asked for, and of
/// the names the pool or a tranche is doing something with when they are not.
pub proof fn law_what_a_closed_bar_is_worth(l: Ledger, inp: Inputs, at: Point)
    requires
        l.wf(),
    ensures
        l.closing_equity(inp, at) == l.cash.plus(
            added(
                Binary64 { bits: 0 },
                terms_below(
                    l.assets,
                    |i: int|
                        (inp.record_positions || l.pool.contains(i as usize) || exists|t: int|
                            0 <= t < l.tranches && #[trigger] l.active[t].contains(i as usize))
                            && !none(l.holds(i)),
                    |i: int|
                        l.holds(i).times(l.last[i]).times(
                            inp.rate_of(MULTIPLIER, at.epoch as int, i),
                        ),
                ),
            ),
        ),
{
    let list: Seq<usize> = l.closing_names(inp);
    l.lemma_names_of(l.tranches);
    names::lemma_where_below(l.assets, |i: int| true);
    lemma_holdings(l, inp, at, list);
    let f = |i: int| list.contains(i as usize) && !none(l.holds(i));
    let g = |i: int| l.value(inp, at, i, l.holds(i));
    let h = |i: int|
        (inp.record_positions || l.pool.contains(i as usize) || exists|t: int|
            0 <= t < l.tranches && #[trigger] l.active[t].contains(i as usize)) && !none(
            l.holds(i),
        );
    let k = |i: int|
        l.holds(i).times(l.last[i]).times(inp.rate_of(MULTIPLIER, at.epoch as int, i));
    assert forall|i: int| 0 <= i < l.assets implies (#[trigger] f(i) == h(i)) && (f(i) ==> g(i)
        == k(i)) by {
        let x: usize = i as usize;
        assert(l.names_of(l.tranches).contains(x) <==> l.pool.contains(x) || exists|t: int|
            0 <= t < l.tranches && #[trigger] l.active[t].contains(x));
    }
    lemma_terms_alike(l.assets, f, g, h, k);
}

proof fn lemma_gross(inp: Inputs, run: int, t: int, d: int, n: int)
    requires
        0 <= n <= usize::MAX,
    ensures
        plain::gross(
            inp,
            run,
            t,
            d,
            names::where_below(n, |i: int| !none(inp.weight(run, t, d, i))),
        ) == added(
            Binary64 { bits: 0 },
            terms_below(
                n,
                |i: int|
                    !inp.weight(run, t, d, i).is_nan() && inp.weight(run, t, d, i).value() != 0,
                |i: int| inp.weight(run, t, d, i).abs(),
            ),
        ),
    decreases n,
{
    let keep = |i: int| !none(inp.weight(run, t, d, i));
    let counts = |i: int|
        !inp.weight(run, t, d, i).is_nan() && inp.weight(run, t, d, i).value() != 0;
    let term = |i: int| inp.weight(run, t, d, i).abs();
    if n > 0 {
        lemma_gross(inp, run, t, d, n - 1);
        let w: Binary64 = inp.weight(run, t, d, n - 1);
        arithmetic::lemma_sign(w);
        let rest: Seq<usize> = names::where_below(n - 1, keep);
        let more: Seq<Binary64> = terms_below(n - 1, counts, term);
        assert(rest.push((n - 1) as usize).drop_last() =~= rest);
        assert(more.push(term(n - 1)).drop_last() =~= more);
    }
}

/// The gross exposure of a decision: the magnitudes of its weights, short
/// ones as well as long ones, added name by name; missing ones ask for none.
pub proof fn law_what_a_decision_asks_for(l: Ledger, inp: Inputs, t: int, d: int)
    requires
        l.wf(),
    ensures
        plain::gross(inp, l.run, t, d, l.row(inp, t, d)) == added(
            Binary64 { bits: 0 },
            terms_below(
                l.assets,
                |i: int|
                    !inp.weight(l.run, t, d, i).is_nan() && inp.weight(l.run, t, d, i).value() != 0,
                |i: int| inp.weight(l.run, t, d, i).abs(),
            ),
        ),
{
    lemma_gross(inp, l.run, t, d, l.assets);
}

}
