//! Walking the bars: one account, then every account in parallel.

use rayon::iter::{IntoParallelIterator, ParallelIterator};
use vstd::arithmetic::div_mod::*;
use vstd::prelude::*;

use crate::account::{repeated, Account, Fill};
use crate::binary64::Binary64;
use crate::bookkeeping::Bookkeeping;
use crate::grid;
use crate::grid::Grid;
use crate::inputs::{Inputs, Point};
use crate::inputs::{BOUGHT, CASH, EQUITY, FEES, REPORTED};
use crate::ledger;
use crate::ledger::Ledger;

verus! {

/// The policy's state after a bar's corporate actions, in order.
pub open spec fn acted_all<B: Bookkeeping>(
    state: B::State,
    l: Ledger,
    actions: Seq<(usize, Binary64)>,
) -> B::State
    decreases actions.len(),
{
    if actions.len() == 0 {
        state
    } else {
        let (i, ratio) = actions.last();
        B::acted(acted_all::<B>(state, l, actions.drop_last()), l, i as int, ratio)
    }
}

/// A bar before its first price point: marked at the reference close,
/// settlement released on the day boundary, the accumulators empty.
pub open spec fn morning<B: Bookkeeping>(state: B::State, l: Ledger, inp: Inputs, bar: int) -> (
    B::State,
    Ledger,
) {
    let marked = l.rescaled(inp, bar);
    let acted = acted_all::<B>(state, marked, l.actions(inp, bar));
    let settled = if inp.opens_day(bar) {
        B::dawned(acted, marked)
    } else {
        acted
    };
    (B::bar_opened(settled), marked.opened())
}

/// Whether some tranche decides.
pub open spec fn anybody(l: Ledger) -> bool {
    exists|t: int| 0 <= t < l.tranches && #[trigger] l.fire[t] >= 0
}

/// One price point: the quotes, the firings, the pool, the standing orders,
/// the equity snapshot if anybody decides, and the decisions.
pub open spec fn point_walked<B: Bookkeeping>(
    state: B::State,
    l: Ledger,
    inp: Inputs,
    at: Point,
) -> (B::State, Ledger) {
    let resolved = l.marked_at(inp, at).resolved(inp, at, l.tranches);
    let (book, filled) = B::backfilled(state, resolved.drained(inp, at), inp, at);
    let ready = if anybody(resolved) {
        filled.snapshot(inp, at)
    } else {
        filled
    };
    B::traded(book, ready, inp, at)
}

/// Where a bar's price point stands.
pub open spec fn point_of(inp: Inputs, bar: int, phase: int) -> Point {
    Point { bar: bar as usize, phase: phase as usize, epoch: inp.era(bar) as usize }
}

/// The first `n` price points of a bar, in order.
pub open spec fn points_walked<B: Bookkeeping>(
    state: B::State,
    l: Ledger,
    inp: Inputs,
    bar: int,
    n: int,
) -> (B::State, Ledger)
    decreases n,
{
    if n <= 0 {
        (state, l)
    } else {
        let (book, after) = points_walked::<B>(state, l, inp, bar, n - 1);
        point_walked::<B>(book, after, inp, point_of(inp, bar, n - 1))
    }
}

/// A bar from its morning to its close.
pub open spec fn bar_walked<B: Bookkeeping>(state: B::State, l: Ledger, inp: Inputs, bar: int) -> (
    B::State,
    Ledger,
) {
    let (woken, opened) = morning::<B>(state, l, inp, bar);
    let (book, traded) = points_walked::<B>(woken, opened, inp, bar, inp.phases());
    let (done, left) = B::bar_closed(book, traded);
    (done, left.closed_at(inp, bar))
}

/// The state and the ledger a run starts from.
pub open spec fn start<B: Bookkeeping>(inp: Inputs, run: int) -> (B::State, Ledger) {
    (
        B::fresh(inp.tranches(), inp.assets()),
        Ledger {
            record_fills: inp.record_fills,
            ..Ledger::fresh(run, inp.tranches(), inp.assets(), inp.capital)
        },
    )
}

/// A run after its first `n` bars, the names at rest forgotten.
pub open spec fn walked<B: Bookkeeping>(inp: Inputs, run: int, n: int) -> (B::State, Ledger)
    decreases n,
{
    if n <= 0 {
        start::<B>(inp, run)
    } else {
        let (state, l) = walked::<B>(inp, run, n - 1);
        let (book, closed) = bar_walked::<B>(state, l, inp, n - 1);
        (book, closed.swept(|t: int, i: int| B::rests(book, t, i)))
    }
}

/// A run's ledger as it closes a bar.
pub open spec fn closing<B: Bookkeeping>(inp: Inputs, run: int, bar: int) -> Ledger {
    let (state, l) = walked::<B>(inp, run, bar);
    bar_walked::<B>(state, l, inp, bar).1
}

/// What a run reports of a bar in one of the series.
pub open spec fn series<B: Bookkeeping>(inp: Inputs, run: int, row: int, bar: int) -> Binary64 {
    let l = closing::<B>(inp, run, bar);
    if row == EQUITY {
        l.closing_equity(inp, point_of(inp, bar, inp.phases() - 1))
    } else if row == CASH {
        l.cash
    } else if row == FEES {
        l.fees
    } else if row == BOUGHT {
        l.bought
    } else {
        l.sold
    }
}

/// Whether a flat report holds a run's series of the first `n` of `steps`
/// bars.
pub open spec fn reports<B: Bookkeeping>(
    inp: Inputs,
    run: int,
    report: Seq<Binary64>,
    steps: int,
    n: int,
) -> bool {
    forall|row: int, bar: int|
        0 <= row < REPORTED && 0 <= bar < n ==> #[trigger] report[ledger::cell_of(steps, row, bar)]
            == series::<B>(inp, run, row, bar)
}

/// Whether a flat table holds a run's positions of the first `n` bars.
pub open spec fn tables<B: Bookkeeping>(
    inp: Inputs,
    run: int,
    table: Seq<Binary64>,
    n: int,
) -> bool {
    forall|bar: int, i: int|
        0 <= bar < n && 0 <= i < inp.assets() ==> #[trigger] table[ledger::cell_of(
            inp.assets(),
            bar,
            i,
        )] == closing::<B>(inp, run, bar).holds(i)
}

/// One price point of a bar.
fn walk_point<B: Bookkeeping>(book: &mut B, acct: &mut Account, inp: &Inputs, at: Point)
    requires
        inp.valid(),
        inp.covers(at),
        old(acct)@.wf(),
        old(acct)@.suits(*inp),
        B::fits(old(book).state(), old(acct)@.tranches, old(acct)@.assets),
    ensures
        (final(book).state(), final(acct)@) == point_walked::<B>(
            old(book).state(),
            old(acct)@,
            *inp,
            at,
        ),
        final(acct)@.wf(),
        final(acct)@.suits(*inp),
        B::fits(final(book).state(), inp.tranches(), inp.assets()),
{
    acct.mark_point(inp, at);
    let deciding: bool = acct.resolve_firings(inp, at);
    acct.pool_sell(inp, at);
    book.backfill(acct, inp, at);
    if deciding {
        acct.snapshot_equity(inp, at);
    }
    book.decide_and_trade(acct, inp, at);
}

/// A bar before its first price point.
fn open_bar<B: Bookkeeping>(book: &mut B, acct: &mut Account, inp: &Inputs, bar: usize)
    requires
        inp.valid(),
        bar < inp.bars(),
        old(acct)@.wf(),
        old(acct)@.suits(*inp),
        B::fits(old(book).state(), old(acct)@.tranches, old(acct)@.assets),
    ensures
        (final(book).state(), final(acct)@) == morning::<B>(
            old(book).state(),
            old(acct)@,
            *inp,
            bar as int,
        ),
        final(acct)@.wf(),
        final(acct)@.suits(*inp),
        B::fits(final(book).state(), inp.tranches(), inp.assets()),
{
    let ghost before: Ledger = acct@;
    let ghost state: B::State = book.state();
    let mut scaled: Vec<(usize, Binary64)> = Vec::new();
    acct.mark_previous(inp, bar, &mut scaled);
    let ghost marked: Ledger = acct@;
    let mut idx: usize = 0;
    proof {
        before.lemma_actions_below(*inp, bar as int, before.assets);
        assert(scaled@.take(0) =~= Seq::<(usize, Binary64)>::empty());
    }
    while idx < scaled.len()
        invariant
            acct@ == marked,
            marked.wf(),
            B::fits(book.state(), marked.tranches, marked.assets),
            idx <= scaled@.len(),
            forall|k: int| 0 <= k < scaled@.len() ==> (#[trigger] scaled@[k]).0 < marked.assets,
            book.state() == acted_all::<B>(state, marked, scaled@.take(idx as int)),
        decreases scaled@.len() - idx,
    {
        let (asset, ratio): (usize, Binary64) = scaled[idx];
        proof {
            assert(scaled@[idx as int].0 < marked.assets);
            assert(scaled@.take(idx + 1).drop_last() =~= scaled@.take(idx as int));
        }
        book.corporate_action(acct, asset, ratio);
        idx = idx + 1;
    }
    proof {
        assert(scaled@.take(idx as int) =~= scaled@);
    }
    // Settlement releases on the day boundary, not the bar boundary.
    if inp.new_day.at1(bar) != 0 {
        book.new_day(acct);
    }
    acct.open_bar();
    book.open_bar();
}

/// Run one account: every tranche, every bar, under one policy.
pub fn run_account<B: Bookkeeping>(
    run: usize,
    inp: &Inputs,
    reported: &mut [Binary64],
    positions: &mut [Binary64],
) -> (fills: Vec<Fill>)
    requires
        inp.valid(),
        run < inp.runs(),
        REPORTED * inp.bars() <= old(reported)@.len(),
        inp.record_positions ==> inp.bars() * inp.assets() <= old(positions)@.len(),
    ensures
        fills@ == walked::<B>(*inp, run as int, inp.bars()).1.fills,
        final(reported)@.len() == old(reported)@.len(),
        reports::<B>(*inp, run as int, final(reported)@, inp.bars(), inp.bars()),
        forall|c: int|
            REPORTED * inp.bars() <= c < old(reported)@.len() ==> #[trigger] final(reported)@[c]
                == old(reported)@[c],
        final(positions)@.len() == old(positions)@.len(),
        !inp.record_positions ==> final(positions)@ == old(positions)@,
        inp.record_positions ==> tables::<B>(
            *inp,
            run as int,
            final(positions)@,
            inp.bars(),
        ),
        inp.record_positions ==> forall|c: int|
            inp.bars() * inp.assets() <= c < old(positions)@.len() ==> #[trigger] final(positions)@[c]
                == old(positions)@[c],
{
    let axes: Vec<usize> = inp.plan.axes();
    proof {
        assert(grid::ints(axes@)[1] == axes@[1] && grid::ints(axes@)[3] == axes@[3]);
    }
    let tranches: usize = axes[1];
    let assets: usize = axes[3];
    let phases: usize = inp.points();
    let steps: usize = inp.steps();
    let ghost before_report: Seq<Binary64> = reported@;
    let ghost before_table: Seq<Binary64> = positions@;

    let mut acct: Account = Account::new(run, tranches, assets, inp.capital);
    acct.record_fills = inp.record_fills;
    let mut book: B = B::new(tranches, assets);
    let mut bar: usize = 0;
    proof {
        assert(acct@ == start::<B>(*inp, run as int).1);
    }
    while bar < steps
        invariant
            inp.valid(),
            run < inp.runs(),
            tranches == inp.tranches(),
            assets == inp.assets(),
            phases == inp.phases(),
            steps == inp.bars(),
            bar <= steps,
            acct@.wf(),
            acct@.suits(*inp),
            B::fits(book.state(), inp.tranches(), inp.assets()),
            (book.state(), acct@) == walked::<B>(*inp, run as int, bar as int),
            REPORTED * steps <= before_report.len(),
            reported@.len() == before_report.len(),
            reports::<B>(*inp, run as int, reported@, steps as int, bar as int),
            forall|c: int|
                REPORTED * steps <= c < before_report.len() ==> #[trigger] reported@[c]
                    == before_report[c],
            inp.record_positions ==> steps * assets <= before_table.len(),
            positions@.len() == before_table.len(),
            !inp.record_positions ==> positions@ == before_table,
            inp.record_positions ==> tables::<B>(
                *inp,
                run as int,
                positions@,
                bar as int,
            ),
            inp.record_positions ==> forall|c: int|
                steps * assets <= c < before_table.len() ==> #[trigger] positions@[c]
                    == before_table[c],
        decreases steps - bar,
    {
        let ghost state: B::State = book.state();
        let ghost l: Ledger = acct@;
        let epoch: usize = #[verifier::truncate]
        (grid::decode_code(inp.epoch.at1(bar)) as usize);
        open_bar(&mut book, &mut acct, inp, bar);
        let ghost woken: B::State = book.state();
        let ghost opened: Ledger = acct@;
        // The auction: each price point of the bar, in order.
        let mut phase: usize = 0;
        while phase < phases
            invariant
                inp.valid(),
                bar < inp.bars(),
                phases == inp.phases(),
                epoch == inp.era(bar as int) as usize,
                phase <= phases,
                acct@.wf(),
                acct@.suits(*inp),
                B::fits(book.state(), inp.tranches(), inp.assets()),
                (book.state(), acct@) == points_walked::<B>(
                    woken,
                    opened,
                    *inp,
                    bar as int,
                    phase as int,
                ),
            decreases phases - phase,
        {
            let at: Point = Point { bar, phase, epoch };
            proof {
                assert(at == point_of(*inp, bar as int, phase as int));
            }
            walk_point(&mut book, &mut acct, inp, at);
            phase = phase + 1;
        }
        book.close_bar(&mut acct);
        let at: Point = Point { bar, phase: phases - 1, epoch };
        let ghost report: Seq<Binary64> = reported@;
        let ghost table: Seq<Binary64> = positions@;
        proof {
            assert(at == point_of(*inp, bar as int, phases - 1));
            assert((bar + 1) * assets <= steps * assets) by (nonlinear_arith)
                requires
                    bar + 1 <= steps,
            ;
        }
        acct.close_bar(inp, at, reported, positions, steps);
        let ghost closed: Ledger = acct@;
        proof {
            assert(closed == closing::<B>(*inp, run as int, bar as int));
            lemma_reports::<B>(*inp, run as int, report, bar as int);
            if inp.record_positions {
                lemma_tables::<B>(*inp, run as int, table, bar as int);
            }
        }
        let at_rest = |t: usize, i: usize| -> (rest: bool)
            requires
                tranches > t,
                assets > i,
                B::fits(book.state(), tranches as int, assets as int),
            ensures
                rest == B::rests(book.state(), t as int, i as int),
        {
            book.at_rest(t, i)
        };
        acct.sweep(at_rest);
        proof {
            let done: B::State = book.state();
            let rests = |t: int, i: int| B::rests(done, t, i);
            let rest = choose|rest: spec_fn(int, int) -> bool|
                {
                    &&& acct@ == #[trigger] closed.swept(rest)
                    &&& forall|t: usize, i: usize|
                        t < closed.tranches && #[trigger] closed.active[t as int].contains(i)
                            && closed.idle(t as int, i as int) ==> rest(t as int, i as int)
                            == B::rests(done, t as int, i as int)
                };
            assert forall|t: int, i: usize|
                0 <= t < closed.tranches && #[trigger] closed.active[t].contains(i) && closed.idle(
                    t,
                    i as int,
                ) implies rest(t, i as int) == rests(t, i as int) by {
                assert(closed.active[(t as usize) as int].contains(i));
            }
            closed.lemma_swept_alike(rest, rests);
        }
        bar = bar + 1;
    }
    acct.fills
}

/// A bar's series go into their rows and disturb no other bar's.
proof fn lemma_reports<B: Bookkeeping>(inp: Inputs, run: int, report: Seq<Binary64>, bar: int)
    requires
        0 <= bar < inp.bars(),
        REPORTED * inp.bars() <= report.len(),
        reports::<B>(inp, run, report, inp.bars(), bar),
        bar <= usize::MAX,
    ensures
        ({
            let after = closing::<B>(inp, run, bar).reports(
                inp,
                point_of(inp, bar, inp.phases() - 1),
                inp.bars(),
                report,
            );
            &&& after.len() == report.len()
            &&& reports::<B>(inp, run, after, inp.bars(), bar + 1)
            &&& forall|c: int|
                REPORTED * inp.bars() <= c < report.len() ==> #[trigger] after[c] == report[c]
        }),
{
    let steps: int = inp.bars();
    let after: Seq<Binary64> = closing::<B>(inp, run, bar).reports(
        inp,
        point_of(inp, bar, inp.phases() - 1),
        steps,
        report,
    );
    assert forall|row: int, b: int|
        0 <= row < REPORTED && 0 <= b < bar + 1 implies #[trigger] after[ledger::cell_of(
        steps,
        row,
        b,
    )] == series::<B>(inp, run, row, b) by {
        let c: int = ledger::cell_of(steps, row, b);
        assert(c == row * steps + b);
        assert(row == 0 || row == 1 || row == 2 || row == 3 || row == 4);
        if b < bar {
            assert(report[ledger::cell_of(steps, row, b)] == series::<B>(inp, run, row, b));
        }
    }
}

/// A bar's positions go into its row and disturb no other bar's.
proof fn lemma_tables<B: Bookkeeping>(inp: Inputs, run: int, table: Seq<Binary64>, bar: int)
    requires
        0 <= bar < inp.bars(),
        0 <= inp.assets(),
        closing::<B>(inp, run, bar).assets == inp.assets(),
        inp.bars() * inp.assets() <= table.len(),
        tables::<B>(inp, run, table, bar),
    ensures
        ({
            let after = closing::<B>(inp, run, bar).lists_positions(bar, table);
            &&& after.len() == table.len()
            &&& tables::<B>(inp, run, after, bar + 1)
            &&& forall|c: int|
                inp.bars() * inp.assets() <= c < table.len() ==> #[trigger] after[c] == table[c]
        }),
{
    let assets: int = inp.assets();
    let after: Seq<Binary64> = closing::<B>(inp, run, bar).lists_positions(bar, table);
    assert(bar * assets + assets <= inp.bars() * assets && 0 <= bar * assets) by (nonlinear_arith)
        requires
            0 <= bar,
            bar + 1 <= inp.bars(),
            0 <= assets,
    ;
    assert forall|b: int, i: int|
        0 <= b < bar + 1 && 0 <= i < assets implies #[trigger] after[ledger::cell_of(
        assets,
        b,
        i,
    )] == closing::<B>(inp, run, b).holds(i) by {
        ledger::lemma_cell(inp.bars(), assets, b, i);
        if b < bar {
            assert(b * assets + assets <= bar * assets) by (nonlinear_arith)
                requires
                    b + 1 <= bar,
                    0 <= assets,
            ;
            assert(table[ledger::cell_of(assets, b, i)] == closing::<B>(inp, run, b).holds(i));
        }
    }
}

/// What one run comes to: its reported series, row after row, its
/// positions, bar after bar, if they are recorded, and its fills in walk
/// order.
pub struct RunOutput {
    pub reported: Vec<Binary64>,
    pub positions: Vec<Binary64>,
    pub fills: Vec<Fill>,
}

impl RunOutput {
    /// Whether this is what run `run` comes to under a policy.
    pub open spec fn of<B: Bookkeeping>(self, inp: Inputs, run: int) -> bool {
        &&& self.reported@.len() == REPORTED * inp.bars()
        &&& reports::<B>(inp, run, self.reported@, inp.bars(), inp.bars())
        &&& inp.record_positions ==> self.positions@.len() == inp.bars() * inp.assets()
        &&& inp.record_positions ==> tables::<B>(inp, run, self.positions@, inp.bars())
        &&& self.fills@ == walked::<B>(inp, run, inp.bars()).1.fills
    }
}

/// Whether a simulation's answer can be laid out in memory.
pub open spec fn answerable(inp: Inputs) -> bool {
    &&& grid::storable(seq![REPORTED as int, inp.runs(), inp.bars()])
    &&& inp.record_positions ==> grid::storable(seq![inp.runs(), inp.bars(), inp.assets()])
}

/// The answer of a three-axis shape spans what its last two axes do.
proof fn lemma_answer(a: int, b: int, c: int)
    requires
        0 <= a,
        0 <= b,
        0 <= c,
        grid::storable(seq![a, b, c]),
    ensures
        a * c <= isize::MAX,
        b * c <= isize::MAX,
{
    let all: Seq<int> = seq![a, b, c];
    let two: Seq<int> = seq![a, b];
    let one: Seq<int> = seq![a];
    assert(all.drop_last() =~= two);
    assert(two.drop_last() =~= one);
    assert(one.drop_last() =~= Seq::<int>::empty());
    reveal_with_fuel(grid::extent, 4);
    let x: int = if a <= 1 { 1 } else { a };
    let y: int = if b <= 1 { x } else { x * b };
    let z: int = if c <= 1 { y } else { y * c };
    assert(grid::extent(one) == x);
    assert(grid::extent(two) == y);
    assert(grid::extent(all) == z);
    assert(y >= x && y >= b) by (nonlinear_arith)
        requires
            y == (if b <= 1 { x } else { x * b }),
            x >= 1,
    ;
    assert(a * c <= z && b * c <= z) by (nonlinear_arith)
        requires
            z == (if c <= 1 { y } else { y * c }),
            y >= x,
            y >= b,
            x >= a,
            x >= 1,
            0 <= a,
            0 <= b,
            0 <= c,
    ;
}

/// Walk one run and hand back what it comes to.
pub fn walk_run<B: Bookkeeping>(run: usize, inp: &Inputs) -> (out: RunOutput)
    requires
        inp.valid(),
        answerable(*inp),
        run < inp.runs(),
    ensures
        out.of::<B>(*inp, run as int),
{
    let axes: Vec<usize> = inp.plan.axes();
    proof {
        assert(grid::ints(axes@)[3] == axes@[3]);
        lemma_answer(REPORTED as int, inp.runs(), inp.bars());
        if inp.record_positions {
            lemma_answer(inp.runs(), inp.bars(), inp.assets());
        }
    }
    let steps: usize = inp.steps();
    let mut reported: Vec<Binary64> = repeated(Binary64::zero(), REPORTED * steps);
    let cells: usize = if inp.record_positions {
        proof {
            assert(0 <= steps * axes[3]) by (nonlinear_arith);
        }
        steps * axes[3]
    } else {
        0
    };
    let mut positions: Vec<Binary64> = repeated(Binary64::zero(), cells);
    let fills: Vec<Fill> = run_account::<B>(
        run,
        inp,
        reported.as_mut_slice(),
        positions.as_mut_slice(),
    );
    RunOutput { reported, positions, fills }
}

/// `rayon`'s parallel `map` and `collect` over a range: element `run` of the
/// list is what [`walk_run`] returned for `run`, whatever thread it ran on.
#[verifier::external_body]
fn walk_runs<B: Bookkeeping>(runs: usize, inp: &Inputs) -> (out: Vec<RunOutput>)
    requires
        forall|run: usize| run < runs ==> call_requires(walk_run::<B>, (run, inp)),
    ensures
        out@.len() == runs,
        forall|run: usize|
            run < runs ==> call_ensures(walk_run::<B>, (run, inp), #[trigger] out@[run as int]),
{
    (0..runs).into_par_iter().map(|run| walk_run::<B>(run, inp)).collect()
}

/// Write `width` numbers of a list into a row of a three-axis array.
fn put_row(
    grid: &mut Grid,
    a: usize,
    b: usize,
    list: &Vec<Binary64>,
    base: usize,
    width: usize,
)
    requires
        old(grid).shape().len() == 3,
        a < old(grid).shape()[0],
        b < old(grid).shape()[1],
        width <= old(grid).shape()[2],
        base + width <= list@.len(),
    ensures
        final(grid).shape() == old(grid).shape(),
        forall|x: int, y: int, z: int| #[trigger]
            final(grid).number3(x, y, z) == if x == a && y == b && 0 <= z < width {
                list@[base + z]
            } else {
                old(grid).number3(x, y, z)
            },
{
    let ghost before: Grid = *grid;
    let mut c: usize = 0;
    while c < width
        invariant
            before.shape().len() == 3,
            a < before.shape()[0],
            b < before.shape()[1],
            width <= before.shape()[2],
            base + width <= list@.len(),
            c <= width,
            grid.shape() == before.shape(),
            forall|x: int, y: int, z: int| #[trigger]
                grid.number3(x, y, z) == if x == a && y == b && 0 <= z < c {
                    list@[base + z]
                } else {
                    before.number3(x, y, z)
                },
        decreases width - c,
    {
        let index: [usize; 3] = [a, b, c];
        let ghost mid: Grid = *grid;
        let ghost place: Seq<int> = seq![a as int, b as int, c as int];
        proof {
            assert(grid::ints(index@) =~= place);
            assert(list.len() == list@.len());
        }
        grid.put(&index, list[base + c].bits);
        proof {
            assert forall|x: int, y: int, z: int| #[trigger]
                grid.number3(x, y, z) == if x == a && y == b && 0 <= z < c + 1 {
                    list@[base + z]
                } else {
                    before.number3(x, y, z)
                } by {
                let spot: Seq<int> = seq![x, y, z];
                assert(mid.number3(x, y, z) == if x == a && y == b && 0 <= z < c {
                    list@[base + z]
                } else {
                    before.number3(x, y, z)
                });
                if x == a && y == b && z == c {
                    assert(spot =~= place);
                } else {
                    assert(spot[0] != place[0] || spot[1] != place[1] || spot[2] != place[2]);
                }
            }
        }
        c = c + 1;
    }
}

/// Whether a packed report holds every run's series.
pub open spec fn packs<B: Bookkeeping>(inp: Inputs, report: Grid, runs: int) -> bool {
    forall|row: int, run: int, bar: int|
        0 <= row < REPORTED && 0 <= run < runs && 0 <= bar < inp.bars()
            ==> #[trigger] report.number3(row, run, bar) == series::<B>(inp, run, row, bar)
}

/// Whether a packed table holds every run's positions.
pub open spec fn stacks<B: Bookkeeping>(inp: Inputs, table: Grid, runs: int) -> bool {
    forall|run: int, bar: int, i: int|
        0 <= run < runs && 0 <= bar < inp.bars() && 0 <= i < inp.assets()
            ==> #[trigger] table.number3(run, bar, i) == closing::<B>(inp, run, bar).holds(i)
}

/// Write one run's series into the packed report.
fn pack_report<B: Bookkeeping>(inp: &Inputs, report: &mut Grid, run: usize, list: &Vec<Binary64>)
    requires
        inp.valid(),
        run < inp.runs(),
        old(report).shape() == seq![REPORTED as int, inp.runs(), inp.bars()],
        list@.len() == REPORTED * inp.bars(),
        reports::<B>(*inp, run as int, list@, inp.bars(), inp.bars()),
        packs::<B>(*inp, *old(report), run as int),
    ensures
        final(report).shape() == old(report).shape(),
        packs::<B>(*inp, *final(report), run + 1),
{
    let ghost before: Grid = *report;
    let steps: usize = inp.steps();
    let mut row: usize = 0;
    while row < REPORTED
        invariant
            inp.valid(),
            run < inp.runs(),
            steps == inp.bars(),
            row <= REPORTED,
            before.shape() == seq![REPORTED as int, inp.runs(), inp.bars()],
            report.shape() == before.shape(),
            list@.len() == REPORTED * steps,
            reports::<B>(*inp, run as int, list@, inp.bars(), inp.bars()),
            packs::<B>(*inp, before, run as int),
            forall|r: int, k: int, bar: int|
                #![trigger report.number3(r, k, bar)]
                0 <= r < REPORTED && 0 <= k <= run && 0 <= bar < steps && (k < run || r < row)
                    ==> report.number3(r, k, bar) == series::<B>(*inp, k, r, bar),
        decreases REPORTED - row,
    {
        let ghost mid: Grid = *report;
        proof {
            assert(list.len() == list@.len());
            assert(row * steps + steps <= REPORTED * steps && 0 <= row * steps) by (nonlinear_arith)
                requires
                    row + 1 <= REPORTED,
            ;
        }
        put_row(report, row, run, list, row * steps, steps);
        proof {
            assert forall|r: int, k: int, bar: int|
                #![trigger report.number3(r, k, bar)]
                0 <= r < REPORTED && 0 <= k <= run && 0 <= bar < steps && (k < run || r < row
                    + 1) implies report.number3(r, k, bar) == series::<B>(*inp, k, r, bar) by {
                if k == run && r == row {
                    assert(list@[ledger::cell_of(inp.bars(), r, bar)] == series::<B>(
                        *inp,
                        k,
                        r,
                        bar,
                    ));
                } else {
                    assert(mid.number3(r, k, bar) == series::<B>(*inp, k, r, bar));
                }
            }
        }
        row = row + 1;
    }
}

/// Write one run's positions into the packed table.
fn pack_positions<B: Bookkeeping>(inp: &Inputs, table: &mut Grid, run: usize, list: &Vec<Binary64>)
    requires
        inp.valid(),
        run < inp.runs(),
        old(table).shape() == seq![inp.runs(), inp.bars(), inp.assets()],
        list@.len() == inp.bars() * inp.assets(),
        tables::<B>(*inp, run as int, list@, inp.bars()),
        stacks::<B>(*inp, *old(table), run as int),
    ensures
        final(table).shape() == old(table).shape(),
        stacks::<B>(*inp, *final(table), run + 1),
{
    let ghost before: Grid = *table;
    let axes: Vec<usize> = inp.plan.axes();
    proof {
        assert(grid::ints(axes@)[3] == axes@[3]);
    }
    let assets: usize = axes[3];
    let steps: usize = inp.steps();
    let mut bar: usize = 0;
    while bar < steps
        invariant
            inp.valid(),
            run < inp.runs(),
            steps == inp.bars(),
            assets == inp.assets(),
            bar <= steps,
            before.shape() == seq![inp.runs(), inp.bars(), inp.assets()],
            table.shape() == before.shape(),
            list@.len() == steps * assets,
            tables::<B>(*inp, run as int, list@, inp.bars()),
            stacks::<B>(*inp, before, run as int),
            forall|k: int, b: int, i: int|
                #![trigger table.number3(k, b, i)]
                0 <= k <= run && 0 <= b < steps && 0 <= i < assets && (k < run || b < bar)
                    ==> table.number3(k, b, i) == closing::<B>(*inp, k, b).holds(i),
        decreases steps - bar,
    {
        let ghost mid: Grid = *table;
        proof {
            assert(list.len() == list@.len());
            assert(bar * assets + assets <= steps * assets && 0 <= bar * assets) by (nonlinear_arith)
                requires
                    bar + 1 <= steps,
            ;
        }
        put_row(table, run, bar, list, bar * assets, assets);
        proof {
            assert forall|k: int, b: int, i: int|
                #![trigger table.number3(k, b, i)]
                0 <= k <= run && 0 <= b < steps && 0 <= i < assets && (k < run || b < bar
                    + 1) implies table.number3(k, b, i) == closing::<B>(*inp, k, b).holds(i) by {
                if k == run && b == bar {
                    assert(list@[ledger::cell_of(inp.assets(), b, i)] == closing::<B>(
                        *inp,
                        k,
                        b,
                    ).holds(i));
                } else {
                    assert(mid.number3(k, b, i) == closing::<B>(*inp, k, b).holds(i));
                }
            }
        }
        bar = bar + 1;
    }
}

/// Run every account in parallel, one policy for all.
///
/// Returns `(5, R, T)` reported series, `(R, T, N)` positions (or a
/// `(1, 1, 1)` placeholder when positions are not recorded) and each run's
/// fills in walk order (empty unless recorded).
pub fn run_all<B: Bookkeeping>(inputs: &Inputs) -> (out: (Grid, Grid, Vec<Vec<Fill>>))
    requires
        inputs.valid(),
        answerable(*inputs),
    ensures
        out.0.shape() == seq![REPORTED as int, inputs.runs(), inputs.bars()],
        packs::<B>(*inputs, out.0, inputs.runs()),
        inputs.record_positions ==> out.1.shape() == seq![
            inputs.runs(),
            inputs.bars(),
            inputs.assets(),
        ] && stacks::<B>(*inputs, out.1, inputs.runs()),
        !inputs.record_positions ==> out.1.shape() == seq![1int, 1, 1] && out.1.number3(0, 0, 0)
            == Binary64::zero(),
        out.2@.len() == inputs.runs(),
        forall|run: int|
            0 <= run < inputs.runs() ==> (#[trigger] out.2@[run])@ == walked::<B>(
                *inputs,
                run,
                inputs.bars(),
            ).1.fills,
{
    let axes: Vec<usize> = inputs.plan.axes();
    proof {
        assert(grid::ints(axes@)[0] == axes@[0] && grid::ints(axes@)[3] == axes@[3]);
    }
    let runs: usize = axes[0];
    let assets: usize = axes[3];
    let steps: usize = inputs.steps();
    let mut outputs: Vec<RunOutput> = walk_runs::<B>(runs, inputs);
    proof {
        assert forall|run: int| 0 <= run < runs implies (#[trigger] outputs@[run]).of::<B>(
            *inputs,
            run,
        ) by {
            let r: usize = run as usize;
            assert(call_ensures(walk_run::<B>, (r, inputs), outputs@[r as int]));
        }
    }
    let shape: [usize; 3] = [REPORTED, runs, steps];
    let flat: [usize; 3] = if inputs.record_positions {
        [runs, steps, assets]
    } else {
        [1, 1, 1]
    };
    proof {
        assert(grid::ints(shape@) =~= seq![REPORTED as int, inputs.runs(), inputs.bars()]);
        if inputs.record_positions {
            assert(grid::ints(flat@) =~= seq![inputs.runs(), inputs.bars(), inputs.assets()]);
        } else {
            assert(grid::ints(flat@) =~= seq![1int, 1, 1]);
            reveal_with_fuel(grid::extent, 4);
            assert(grid::storable(grid::ints(flat@)));
            assert(grid::inside(seq![1int, 1, 1], seq![0int, 0, 0]));
        }
    }
    let mut packed: Grid = Grid::filled(&shape, 0);
    let mut positions: Grid = Grid::filled(&flat, 0);
    let mut run: usize = 0;
    while run < runs
        invariant
            inputs.valid(),
            run <= runs,
            runs == inputs.runs(),
            outputs@.len() == runs,
            forall|r: int| 0 <= r < runs ==> (#[trigger] outputs@[r]).of::<B>(*inputs, r),
            packed.shape() == seq![REPORTED as int, inputs.runs(), inputs.bars()],
            packs::<B>(*inputs, packed, run as int),
            inputs.record_positions ==> positions.shape() == seq![
                inputs.runs(),
                inputs.bars(),
                inputs.assets(),
            ] && stacks::<B>(*inputs, positions, run as int),
            !inputs.record_positions ==> positions.shape() == seq![1int, 1, 1]
                && positions.number3(0, 0, 0) == Binary64::zero(),
        decreases runs - run,
    {
        proof {
            assert(outputs@[run as int].of::<B>(*inputs, run as int));
        }
        pack_report::<B>(inputs, &mut packed, run, &outputs[run].reported);
        if inputs.record_positions {
            pack_positions::<B>(inputs, &mut positions, run, &outputs[run].positions);
        }
        run = run + 1;
    }
    let mut fills: Vec<Vec<Fill>> = Vec::new();
    while outputs.len() > 0
        invariant
            runs == inputs.runs(),
            outputs@.len() + fills@.len() == runs,
            forall|r: int|
                0 <= r < outputs@.len() ==> (#[trigger] outputs@[r]).of::<B>(*inputs, r),
            forall|k: int|
                0 <= k < fills@.len() ==> (#[trigger] fills@[k])@ == walked::<B>(
                    *inputs,
                    outputs@.len() + k,
                    inputs.bars(),
                ).1.fills,
        decreases outputs@.len(),
    {
        let ghost before: Seq<RunOutput> = outputs@;
        let ghost done: Seq<Vec<Fill>> = fills@;
        proof {
            assert(before[before.len() - 1].of::<B>(*inputs, before.len() - 1));
        }
        match outputs.pop() {
            Some(output) => {
                fills.insert(0, output.fills);
            },
            None => {},
        }
        proof {
            assert forall|k: int| 0 <= k < fills@.len() implies (#[trigger] fills@[k])@
                == walked::<B>(*inputs, outputs@.len() + k, inputs.bars()).1.fills by {
                if k > 0 {
                    assert(fills@[k] == done[k - 1]);
                }
            }
            assert forall|r: int| 0 <= r < outputs@.len() implies (#[trigger] outputs@[r]).of::<B>(
                *inputs,
                r,
            ) by {
                assert(outputs@[r] == before[r]);
            }
        }
    }
    (packed, positions, fills)
}

}
