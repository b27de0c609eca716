//! The course of a walk.
//!
//! Which phase follows which, from a run's start to what is reported of each
//! bar, whatever the policy.

use vstd::prelude::*;

use crate::binary64::Binary64;
use crate::bookkeeping::Bookkeeping;
use crate::driver;
use crate::grid::Grid;
use crate::inputs::{Inputs, Point};
use crate::ledger::{Fill, Ledger};
use crate::plugin;
use crate::plugin::{Answer, FillColumns};

verus! {

/// A run starts with its capital in cash and nothing else: no units, no
/// target, no quote, nothing attained, nothing fired, refused, listed, paid
/// or on record, and a fresh policy.
pub proof fn law_what_a_run_starts_from<B: Bookkeeping>(inp: Inputs, run: int)
    requires
        inp.valid(),
        0 <= run < inp.runs(),
    ensures
        ({
            let (s, l) = driver::walked::<B>(inp, run, 0);
            let zero = Binary64 { bits: 0 };
            let cells = inp.tranches() * inp.assets();
            &&& s == B::fresh(inp.tranches(), inp.assets())
            &&& l.run == run
            &&& l.tranches == inp.tranches()
            &&& l.assets == inp.assets()
            &&& l.cash == inp.capital
            &&& l.qty.len() == cells && l.target.len() == cells
            &&& l.attained.len() == cells && l.blocked.len() == cells
            &&& l.liq.len() == l.assets && l.last.len() == l.assets
            &&& l.attained_row.len() == l.tranches && l.fire.len() == l.tranches
            &&& l.active.len() == l.tranches
            &&& forall|c: int| 0 <= c < cells ==> #[trigger] l.qty[c] == zero
            &&& forall|c: int| 0 <= c < cells ==> #[trigger] l.target[c] == zero
            &&& forall|c: int| 0 <= c < cells ==> (#[trigger] l.attained[c]).is_nan()
            &&& forall|c: int| 0 <= c < cells ==> !#[trigger] l.blocked[c]
            &&& forall|i: int| 0 <= i < l.assets ==> #[trigger] l.liq[i] == zero
            &&& forall|i: int| 0 <= i < l.assets ==> #[trigger] l.last[i] == zero
            &&& forall|t: int| 0 <= t < l.tranches ==> #[trigger] l.attained_row[t] == -1
            &&& forall|t: int| 0 <= t < l.tranches ==> #[trigger] l.fire[t] == -1
            &&& forall|t: int| 0 <= t < l.tranches ==> (#[trigger] l.active[t]).len() == 0
            &&& l.pool.len() == 0
            &&& l.fees == zero && l.bought == zero && l.sold == zero && l.equity == zero
            &&& l.record_fills == inp.record_fills
            &&& l.fills.len() == 0
        }),
{
    assert(0 <= inp.tranches() * inp.assets()) by (nonlinear_arith)
        requires
            0 <= inp.tranches(),
            0 <= inp.assets(),
    ;
}

/// The framework's own policy starts with nothing to sell and nothing locked.
pub proof fn law_what_the_policy_starts_from(tranches: int, assets: int)
    requires
        0 <= tranches,
        0 <= assets,
    ensures
        ({
            let s = crate::bookkeeping::Plain::fresh(tranches, assets);
            let zero = Binary64 { bits: 0 };
            &&& s.tranches == tranches
            &&& s.assets == assets
            &&& s.budget.len() == tranches * assets
            &&& s.locked.len() == tranches * assets
            &&& forall|c: int| 0 <= c < tranches * assets ==> #[trigger] s.budget[c] == zero
            &&& forall|c: int| 0 <= c < tranches * assets ==> #[trigger] s.locked[c] == zero
            &&& s.locked_total == zero
        }),
{
    assert(0 <= tranches * assets) by (nonlinear_arith)
        requires
            0 <= tranches,
            0 <= assets,
    ;
}

/// How a bar opens, whatever the policy: the account is marked at the
/// reference close, the policy is handed every corporate action, one after
/// another, and, after those, the new day if the bar opens one and then the
/// bar; and the bar's sums start empty.
pub proof fn law_what_opens_a_bar<B: Bookkeeping>(
    s: B::State,
    l: Ledger,
    inp: Inputs,
    bar: int,
    k: int,
)
    requires
        0 <= k,
    ensures
        ({
            let marked = l.rescaled(inp, bar);
            let told = l.actions(inp, bar);
            let acted = driver::acted_all::<B>(s, marked, told.take(told.len() as int));
            let zero = Binary64 { bits: 0 };
            &&& driver::acted_all::<B>(s, marked, told.take(0)) == s
            &&& k < told.len() ==> driver::acted_all::<B>(s, marked, told.take(k + 1)) == B::acted(
                driver::acted_all::<B>(s, marked, told.take(k)),
                marked,
                told[k].0 as int,
                told[k].1,
            )
            &&& driver::morning::<B>(s, l, inp, bar) == (
                B::bar_opened(
                    if inp.new_day.word(seq![bar]) != 0 {
                        B::dawned(acted, marked)
                    } else {
                        acted
                    },
                ),
                Ledger { fees: zero, bought: zero, sold: zero, ..marked },
            )
        }),
{
    let told: Seq<(usize, Binary64)> = l.actions(inp, bar);
    assert(told.take(told.len() as int) =~= told);
    if k < told.len() {
        assert(told.take(k + 1).drop_last() =~= told.take(k));
    }
}

/// How a price point goes, whatever the policy: its quotes mark the account,
/// the firings are resolved, the pool sells what can leave, standing orders
/// try again, equity is read after all that if any tranche fires, and then
/// the tranches that fire trade.
pub proof fn law_a_price_point_goes_in_order<B: Bookkeeping>(
    s: B::State,
    l: Ledger,
    inp: Inputs,
    at: Point,
)
    ensures
        ({
            let resolved = l.marked_at(inp, at).resolved(inp, at, l.tranches);
            let (book, filled) = B::backfilled(s, resolved.drained(inp, at), inp, at);
            let fired = exists|t: int| 0 <= t < resolved.tranches && #[trigger] resolved.fire[t]
                >= 0;
            driver::point_walked::<B>(s, l, inp, at) == B::traded(
                book,
                if fired {
                    filled.snapshot(inp, at)
                } else {
                    filled
                },
                inp,
                at,
            )
        }),
{
}

/// How a bar goes: it opens, every one of its price points is walked in order
/// under the bar's epoch, the policy closes it, and the close marks what is
/// held.
pub proof fn law_a_bar_goes_in_order<B: Bookkeeping>(
    s: B::State,
    l: Ledger,
    inp: Inputs,
    bar: int,
    n: int,
)
    requires
        0 <= n < inp.phases(),
        0 <= bar <= usize::MAX,
        inp.phases() <= usize::MAX,
    ensures
        ({
            let (woken, opened) = driver::morning::<B>(s, l, inp, bar);
            let (book, after) = driver::points_walked::<B>(woken, opened, inp, bar, n);
            let at = driver::point_of(inp, bar, n);
            let (last, traded) = driver::points_walked::<B>(
                woken,
                opened,
                inp,
                bar,
                inp.prices@.len() as int,
            );
            let (done, left) = B::bar_closed(last, traded);
            &&& driver::points_walked::<B>(woken, opened, inp, bar, 0) == (woken, opened)
            &&& driver::points_walked::<B>(woken, opened, inp, bar, n + 1)
                == driver::point_walked::<B>(book, after, inp, at)
            &&& at.bar == bar
            &&& at.phase == n
            &&& at.epoch == inp.epoch.code(seq![bar]) as int as usize
            &&& driver::bar_walked::<B>(s, l, inp, bar) == (done, left.closed_at(inp, bar))
        }),
{
}

/// How a run goes: bar after bar, each from what the one before left, and
/// after each the names at rest are forgotten.
pub proof fn law_a_run_goes_bar_by_bar<B: Bookkeeping>(inp: Inputs, run: int, n: int)
    requires
        0 <= n,
    ensures
        ({
            let (s, l) = driver::walked::<B>(inp, run, n);
            let (book, closed) = driver::bar_walked::<B>(s, l, inp, n);
            let (z, m) = driver::walked::<B>(inp, run, n + 1);
            &&& driver::closing::<B>(inp, run, n) == closed
            &&& z == book
            &&& m == closed.swept(|t: int, i: int| B::rests(book, t, i))
        }),
{
}

/// What is reported of a bar: in the first series the equity as it closes, in
/// the second the cash, in the third the fees, in the fourth what was bought
/// and in the fifth what was sold.
pub proof fn law_what_is_reported_of_a_bar<B: Bookkeeping>(inp: Inputs, run: int, bar: int)
    ensures
        ({
            let l = driver::closing::<B>(inp, run, bar);
            let at = driver::point_of(inp, bar, inp.phases() - 1);
            &&& driver::series::<B>(inp, run, 0, bar) == l.closing_equity(inp, at)
            &&& driver::series::<B>(inp, run, 1, bar) == l.cash
            &&& driver::series::<B>(inp, run, 2, bar) == l.fees
            &&& driver::series::<B>(inp, run, 3, bar) == l.bought
            &&& driver::series::<B>(inp, run, 4, bar) == l.sold
        }),
{
}

/// Where a run's report holds what: bar by bar in each of the five series,
/// and where its positions stand: name by name in each bar.
pub proof fn law_where_a_report_holds_what<B: Bookkeeping>(
    inp: Inputs,
    run: int,
    report: Seq<Binary64>,
    table: Seq<Binary64>,
    steps: int,
    row: int,
    bar: int,
    i: int,
)
    requires
        0 <= row < 5,
        0 <= bar < steps,
        0 <= i < inp.assets(),
    ensures
        driver::reports::<B>(inp, run, report, steps, steps) ==> report[row * steps + bar]
            == driver::series::<B>(inp, run, row, bar),
        driver::tables::<B>(inp, run, table, steps) ==> table[bar * inp.assets() + i]
            == driver::closing::<B>(inp, run, bar).holds(i),
{
    assert(crate::ledger::cell_of(steps, row, bar) == row * steps + bar);
    assert(crate::ledger::cell_of(inp.assets(), bar, i) == bar * inp.assets() + i);
    if driver::reports::<B>(inp, run, report, steps, steps) {
        assert(report[crate::ledger::cell_of(steps, row, bar)] == driver::series::<B>(
            inp,
            run,
            row,
            bar,
        ));
    }
    if driver::tables::<B>(inp, run, table, steps) {
        assert(table[crate::ledger::cell_of(inp.assets(), bar, i)] == driver::closing::<B>(
            inp,
            run,
            bar,
        ).holds(i));
    }
}

/// Where the packed report of all runs holds what: each series, run and bar at
/// its own place, and each run's, bar's and name's position at its own.
pub proof fn law_where_all_runs_stand<B: Bookkeeping>(
    inp: Inputs,
    report: Grid,
    table: Grid,
    row: int,
    run: int,
    bar: int,
    i: int,
)
    requires
        0 <= row < 5,
        0 <= run < inp.runs(),
        0 <= bar < inp.bars(),
        0 <= i < inp.assets(),
    ensures
        driver::packs::<B>(inp, report, inp.runs()) ==> report.number(seq![row, run, bar])
            == driver::series::<B>(inp, run, row, bar),
        driver::stacks::<B>(inp, table, inp.runs()) ==> table.number(seq![run, bar, i])
            == driver::closing::<B>(inp, run, bar).holds(i),
{
    if driver::packs::<B>(inp, report, inp.runs()) {
        assert(report.number3(row, run, bar) == driver::series::<B>(inp, run, row, bar));
    }
    if driver::stacks::<B>(inp, table, inp.runs()) {
        assert(table.number3(run, bar, i) == driver::closing::<B>(inp, run, bar).holds(i));
    }
}

/// What a close writes into a report and into a table of positions: the five
/// numbers of the bar and a number for each name, each at its own place, and
/// nothing anywhere else.
pub proof fn law_what_a_close_writes(
    l: Ledger,
    inp: Inputs,
    at: Point,
    steps: int,
    report: Seq<Binary64>,
    table: Seq<Binary64>,
    c: int,
)
    requires
        at.bar < steps,
        4 * steps + at.bar < report.len(),
    ensures
        ({
            let after = l.reports(inp, at, steps, report);
            let bar = at.bar as int;
            &&& after.len() == report.len()
            &&& after[bar] == l.closing_equity(inp, at)
            &&& after[steps + bar] == l.cash
            &&& after[2 * steps + bar] == l.fees
            &&& after[3 * steps + bar] == l.bought
            &&& after[4 * steps + bar] == l.sold
            &&& 0 <= c < report.len() && c != bar && c != steps + bar && c != 2 * steps + bar && c
                != 3 * steps + bar && c != 4 * steps + bar ==> after[c] == report[c]
        }),
        ({
            let after = l.lists_positions(at.bar as int, table);
            let base = at.bar * l.assets;
            &&& after.len() == table.len()
            &&& 0 <= c < table.len() ==> after[c] == if base <= c < base + l.assets {
                l.holds(c - base)
            } else {
                table[c]
            }
        }),
{
}

/// What an answer lists: of each bar the equity, cash, fees, purchases and
/// sales as it closed, and, where they are asked for, what was held of each
/// name and the fills of the whole walk.
pub proof fn law_what_an_answer_lists<B: Bookkeeping>(
    answer: Answer,
    inp: Inputs,
    bar: int,
    i: int,
)
    requires
        answer.of::<B>(inp),
        0 <= bar < inp.bars(),
        0 <= i < inp.assets(),
    ensures
        answer.equity@.len() == inp.bars(),
        answer.cash@.len() == inp.bars(),
        answer.fees@.len() == inp.bars(),
        answer.bought@.len() == inp.bars(),
        answer.sold@.len() == inp.bars(),
        ({
            let l = driver::closing::<B>(inp, 0, bar);
            let at = driver::point_of(inp, bar, inp.phases() - 1);
            &&& answer.equity@[bar] == l.closing_equity(inp, at)
            &&& answer.cash@[bar] == l.cash
            &&& answer.fees@[bar] == l.fees
            &&& answer.bought@[bar] == l.bought
            &&& answer.sold@[bar] == l.sold
            &&& answer.position is Some <==> inp.record_positions
            &&& answer.position matches Some(lists) ==> {
                &&& lists@.len() == inp.bars()
                &&& lists@[bar]@.len() == inp.assets()
                &&& lists@[bar]@[i] == l.holds(i)
            }
            &&& answer.fills is Some <==> inp.record_fills
            &&& answer.fills matches Some(columns) ==> columns.list(
                driver::walked::<B>(inp, 0, inp.bars()).1.fills,
                inp.bars(),
            )
        }),
{
    assert(answer.equity@[bar] == driver::series::<B>(inp, 0, 0, bar));
    assert(answer.cash@[bar] == driver::series::<B>(inp, 0, 1, bar));
    assert(answer.fees@[bar] == driver::series::<B>(inp, 0, 2, bar));
    assert(answer.bought@[bar] == driver::series::<B>(inp, 0, 3, bar));
    assert(answer.sold@[bar] == driver::series::<B>(inp, 0, 4, bar));
    if answer.position is Some {
        let lists: Seq<Vec<Binary64>> = answer.position->0@;
        assert(lists[bar]@.len() == inp.assets());
        assert(lists[bar]@[i] == driver::closing::<B>(inp, 0, bar).holds(i));
    }
}

proof fn lemma_stretch_end(fills: Seq<Fill>, from: int, bar: int)
    requires
        0 <= from <= fills.len(),
    ensures
        from <= plugin::stretch_end(fills, from, bar) <= fills.len(),
        forall|k: int|
            from <= k < plugin::stretch_end(fills, from, bar) ==> (#[trigger] fills[k]).bar == bar,
        plugin::stretch_end(fills, from, bar) < fills.len() ==> fills[plugin::stretch_end(
            fills,
            from,
            bar,
        )].bar != bar,
    decreases fills.len() - from,
{
    if from < fills.len() && fills[from].bar == bar {
        lemma_stretch_end(fills, from + 1, bar);
    }
}

/// What the fill columns list of a bar: the bar's fills and no others, one
/// after another as they stand on record, each with its tranche, name, price
/// point, units, price and fee. The stretches follow each other, and one ends
/// only where another bar's fill comes.
pub proof fn law_what_the_fill_columns_list(
    columns: FillColumns,
    fills: Seq<Fill>,
    bars: int,
    bar: int,
    k: int,
)
    requires
        columns.list(fills, bars),
        0 <= bar < bars,
        0 <= k,
    ensures
        ({
            let start = plugin::stretch_start(fills, bar);
            let end = plugin::stretch_start(fills, bar + 1);
            &&& plugin::stretch_start(fills, 0) == 0
            &&& 0 <= start <= end <= fills.len()
            &&& end < fills.len() ==> fills[end].bar != bar
            &&& columns.tranche@[bar]@.len() == end - start
            &&& columns.asset@[bar]@.len() == end - start
            &&& columns.point@[bar]@.len() == end - start
            &&& columns.units@[bar]@.len() == end - start
            &&& columns.price@[bar]@.len() == end - start
            &&& columns.fee@[bar]@.len() == end - start
            &&& k < end - start ==> {
                let fill = fills[start + k];
                &&& fill.bar == bar
                &&& columns.tranche@[bar]@[k] == fill.tranche
                &&& columns.asset@[bar]@[k] == fill.asset as i32
                &&& columns.point@[bar]@[k] == fill.point as i32
                &&& columns.units@[bar]@[k] == fill.units
                &&& columns.price@[bar]@[k] == fill.price
                &&& columns.fee@[bar]@[k] == fill.fee
            }
        }),
{
    let start: int = plugin::stretch_start(fills, bar);
    let end: int = plugin::stretch_start(fills, bar + 1);
    plugin::lemma_stretch_start(fills, bar);
    lemma_stretch_end(fills, start, bar);
    assert(plugin::bar_listed(columns, bar, plugin::stretch(fills, bar)));
    let part: Seq<Fill> = plugin::stretch(fills, bar);
    assert(part.len() == end - start);
    if k < end - start {
        assert(part[k] == fills[start + k]);
    }
}

}
