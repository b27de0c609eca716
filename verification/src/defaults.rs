//! What a part that no column is named for stands for.
//!
//! No column means always buyable, always sellable, never impounded and never
//! standing: a simulation that names columns saying just that is answered the
//! same, and so is one that names some of them.

use vstd::prelude::*;

use crate::agreement;
use crate::agreement::{same_firing, same_market, same_name, same_plan, same_terms};
use crate::assembly;
use crate::assembly::{assembles, fault_in, or_off};
use crate::bookkeeping::{Bookkeeping, Plain};
use crate::decisions;
use crate::driver;
use crate::frame::{placeable, plane_cell, Column, Kind};
use crate::grid;
use crate::inputs::Inputs;
use crate::plugin;
use crate::plugin::{Answer, Firing, SimulateKwargs};

verus! {

/// Whether a column says the same of every name on every bar.
pub open spec fn even_column(column: Column, on: bool, steps: int, width: int) -> bool {
    &&& column.meets(Kind::SwitchPlane)
    &&& placeable(column.switches(), steps, width)
    &&& forall|b: int, i: int|
        0 <= b < steps && 0 <= i < width ==> or_off(
            #[trigger] plane_cell(column.switches(), steps, width, b, i),
        ) == on
}

/// Whether a part has no columns, or one per price point that says the same
/// of every name on every bar.
pub open spec fn even_part(
    inputs: Seq<Column>,
    which: Option<Vec<usize>>,
    on: bool,
    points: int,
    steps: int,
    width: int,
) -> bool {
    which matches Some(which) ==> {
        &&& which@.len() == points
        &&& forall|p: int|
            0 <= p < points ==> (#[trigger] which@[p]) < inputs.len() && even_column(
                inputs[which@[p] as int],
                on,
                steps,
                width,
            )
    }
}

/// Whether a firing has no standing column, or one that is off on every bar.
pub open spec fn never_stands(inputs: Seq<Column>, firing: Firing, steps: int) -> bool {
    firing.standing matches Some(index) ==> {
        let flags = decisions::flags_of(inputs[index as int]);
        &&& index < inputs.len()
        &&& inputs[index as int].meets(Kind::Switches)
        &&& flags.len() >= steps
        &&& forall|b: int| 0 <= b < steps ==> !or_off(#[trigger] flags[b])
    }
}

/// Whether kwargs name no columns for what may be bought, sold or impounded
/// and for what stands, or columns that say what no columns mean.
pub open spec fn plain_sailing(inputs: Seq<Column>, kwargs: SimulateKwargs) -> bool {
    let (steps, width) = (assembly::bars_of(inputs, kwargs), assembly::names_of(inputs, kwargs));
    let points = kwargs.points as int;
    &&& even_part(inputs, kwargs.buyable, true, points, steps, width)
    &&& even_part(inputs, kwargs.sellable, true, points, steps, width)
    &&& even_part(inputs, kwargs.impound, false, points, steps, width)
    &&& forall|f: int|
        0 <= f < kwargs.firings@.len() ==> #[trigger] never_stands(
            inputs,
            kwargs.firings@[f],
            steps,
        )
}

/// Whether two lists of firings are the same but for what stands.
pub open spec fn same_firings(one: Seq<Firing>, other: Seq<Firing>) -> bool {
    &&& one.len() == other.len()
    &&& forall|f: int|
        0 <= f < one.len() ==> {
            &&& (#[trigger] one[f]).tranche == other[f].tranche
            &&& one[f].point == other[f].point
            &&& one[f].plan == other[f].plan
        }
}

/// Whether kwargs are the same but for the columns they name for what may be
/// bought, sold or impounded and for what stands.
pub open spec fn same_otherwise(one: SimulateKwargs, other: SimulateKwargs) -> bool {
    &&& one.points == other.points
    &&& one.tranches == other.tranches
    &&& one.mark == other.mark
    &&& one.previous == other.previous
    &&& one.prices@ == other.prices@
    &&& same_firings(one.firings@, other.firings@)
    &&& one.instrument == other.instrument
    &&& one.epoch == other.epoch
    &&& one.new_day == other.new_day
    &&& one.rates@ == other.rates@
    &&& one.flags@ == other.flags@
    &&& one.capital == other.capital
    &&& one.buffer == other.buffer
    &&& one.audit == other.audit
    &&& one.positions == other.positions
    &&& one.fills == other.fills
}

proof fn lemma_in_bar(
    inputs: Seq<Column>,
    one: Seq<Firing>,
    other: Seq<Firing>,
    t: int,
    b: int,
    n: int,
)
    requires
        same_firings(one, other),
        n <= one.len(),
    ensures
        decisions::in_bar(inputs, one, t, b, n) == decisions::in_bar(inputs, other, t, b, n),
    decreases n,
{
    if n > 0 {
        lemma_in_bar(inputs, one, other, t, b, n - 1);
        assert(one[n - 1].tranche == other[n - 1].tranche);
    }
}

proof fn lemma_before(
    inputs: Seq<Column>,
    one: Seq<Firing>,
    other: Seq<Firing>,
    f: int,
    b: int,
    n: int,
)
    requires
        same_firings(one, other),
        0 <= f < one.len(),
        n <= one.len(),
    ensures
        decisions::before(inputs, one, f, b, n) == decisions::before(inputs, other, f, b, n),
    decreases n,
{
    if n > 0 {
        lemma_before(inputs, one, other, f, b, n - 1);
        assert(one[n - 1].tranche == other[n - 1].tranche);
        assert(one[f].tranche == other[f].tranche);
    }
}

proof fn lemma_rows_before(
    inputs: Seq<Column>,
    one: Seq<Firing>,
    other: Seq<Firing>,
    t: int,
    b: int,
)
    requires
        same_firings(one, other),
    ensures
        decisions::rows_before(inputs, one, t, b) == decisions::rows_before(inputs, other, t, b),
    decreases b,
{
    if b > 0 {
        lemma_rows_before(inputs, one, other, t, b - 1);
        lemma_in_bar(inputs, one, other, t, b - 1, one.len() as int);
    }
}

proof fn lemma_row_number(
    inputs: Seq<Column>,
    one: Seq<Firing>,
    other: Seq<Firing>,
    f: int,
    b: int,
)
    requires
        same_firings(one, other),
        0 <= f < one.len(),
    ensures
        decisions::row_number(inputs, one, f, b) == decisions::row_number(inputs, other, f, b),
{
    assert(one[f].tranche == other[f].tranche);
    lemma_rows_before(inputs, one, other, one[f].tranche as int, b);
    lemma_before(inputs, one, other, f, b, one.len() as int);
}

proof fn lemma_depth(
    inputs: Seq<Column>,
    one: Seq<Firing>,
    other: Seq<Firing>,
    steps: int,
    n: int,
)
    requires
        same_firings(one, other),
    ensures
        decisions::depth(inputs, one, steps, n) == decisions::depth(inputs, other, steps, n),
    decreases n,
{
    if n > 0 {
        lemma_depth(inputs, one, other, steps, n - 1);
        lemma_rows_before(inputs, one, other, n - 1, steps);
    }
}

/// The row a tranche decides by is the row of some firing of it on the bar,
/// and does not depend on what stands.
proof fn lemma_decided_row(
    inputs: Seq<Column>,
    one: Seq<Firing>,
    other: Seq<Firing>,
    t: int,
    b: int,
    p: int,
    n: int,
) -> (f: int)
    requires
        same_firings(one, other),
        n <= one.len(),
    ensures
        decisions::decided_row(inputs, one, t, b, p, n) == decisions::decided_row(
            inputs,
            other,
            t,
            b,
            p,
            n,
        ),
        decisions::decided_row(inputs, one, t, b, p, n) >= 0 ==> {
            &&& 0 <= f < one.len()
            &&& one[f].tranche == t
            &&& decisions::fires(inputs, one[f], b)
            &&& decisions::decided_row(inputs, one, t, b, p, n) == decisions::row_number(
                inputs,
                one,
                f,
                b,
            )
        },
    decreases n,
{
    if n > 0 {
        assert(one[n - 1].tranche == other[n - 1].tranche);
        if one[n - 1].tranche == t && one[n - 1].point == p && decisions::fires(
            inputs,
            one[n - 1],
            b,
        ) {
            lemma_row_number(inputs, one, other, n - 1, b);
            n - 1
        } else {
            lemma_decided_row(inputs, one, other, t, b, p, n - 1)
        }
    } else {
        0
    }
}

proof fn lemma_stands(
    inputs: Seq<Column>,
    firings: Seq<Firing>,
    steps: int,
    t: int,
    b: int,
    p: int,
    n: int,
)
    requires
        forall|f: int|
            0 <= f < firings.len() ==> #[trigger] never_stands(inputs, firings[f], steps),
        n <= firings.len(),
        0 <= b < steps,
    ensures
        !decisions::decided_standing(inputs, firings, t, b, p, n),
    decreases n,
{
    if n > 0 {
        lemma_stands(inputs, firings, steps, t, b, p, n - 1);
        assert(never_stands(inputs, firings[n - 1], steps));
    }
}

proof fn lemma_terms(
    inputs: Seq<Column>,
    one: SimulateKwargs,
    other: SimulateKwargs,
    a: Inputs,
    b: Inputs,
)
    requires
        same_otherwise(one, other),
        assembles(a, inputs, one),
        assembles(b, inputs, other),
    ensures
        same_terms(a, b),
        agreement::same_asks(a, b),
{
    assert forall|i: int| 0 <= i < a.assets() implies #[trigger] a.category(i) == b.category(
        i,
    ) by {
        assert(grid::single(i) == seq![i]);
        assert(a.instrument.code(grid::single(i)) == b.instrument.code(grid::single(i)));
    }
    assert forall|row: int, epoch: int, category: int| #[trigger]
        a.rated(row, epoch, category) == b.rated(row, epoch, category) by {
        let index: Seq<int> = seq![row, epoch, category];
        assert(a.rates.shape() == b.rates.shape());
        if grid::inside(a.rates.shape(), index) {
            assert(index[0] == row && index[1] == epoch && index[2] == category);
            assert(a.rates.number3(row, epoch, category) == b.rates.number3(
                row,
                epoch,
                category,
            ));
        }
    }
    assert forall|row: int, category: int| #[trigger]
        a.flagged(row, category) == b.flagged(row, category) by {
        let index: Seq<int> = seq![row, category];
        assert(a.flags.shape() == b.flags.shape());
        if grid::inside(a.flags.shape(), index) {
            assert(index[0] == row && index[1] == category);
            assert(a.flags.on2(row, category) == b.flags.on2(row, category));
        }
    }
}

/// A stack read from a part that says the same of everything says that.
proof fn lemma_even_stack(
    stack: Seq<grid::Grid>,
    inputs: Seq<Column>,
    which: Option<Vec<usize>>,
    on: bool,
    points: int,
    steps: int,
    width: int,
)
    requires
        assembly::switch_planes_of(stack, inputs, which, on, points, steps, width),
        even_part(inputs, which, on, points, steps, width),
    ensures
        forall|p: int, b: int, i: int|
            0 <= p < points && 0 <= b < steps && 0 <= i < width
                ==> #[trigger] crate::inputs::switched(stack, p, b, i) == on,
{
    assert forall|p: int, b: int, i: int|
        0 <= p < points && 0 <= b < steps && 0 <= i < width implies #[trigger]
        crate::inputs::switched(stack, p, b, i) == on by {
        let plane: grid::Grid = stack[p];
        assert(grid::pair(b, i) == seq![b, i]);
        match which {
            Some(which) => {
                assert(which@[p] < inputs.len());
                let column: Column = inputs[which@[p] as int];
                assert(plane.on2(b, i) == or_off(
                    plane_cell(column.switches(), steps, width, b, i),
                ));
            },
            None => {
                assert(plane.on2(b, i) == on);
            },
        }
    }
}

proof fn lemma_market(
    inputs: Seq<Column>,
    one: SimulateKwargs,
    other: SimulateKwargs,
    a: Inputs,
    b: Inputs,
)
    requires
        same_otherwise(one, other),
        plain_sailing(inputs, one),
        plain_sailing(inputs, other),
        one.prices@.len() == one.points,
        assembles(a, inputs, one),
        assembles(b, inputs, other),
    ensures
        same_market(a, b),
{
    let (steps, width) = (assembly::bars_of(inputs, one), assembly::names_of(inputs, one));
    let points: int = one.points as int;
    lemma_even_stack(a.buyable@, inputs, one.buyable, true, points, steps, width);
    lemma_even_stack(b.buyable@, inputs, other.buyable, true, points, steps, width);
    lemma_even_stack(a.sellable@, inputs, one.sellable, true, points, steps, width);
    lemma_even_stack(b.sellable@, inputs, other.sellable, true, points, steps, width);
    lemma_even_stack(a.impound@, inputs, one.impound, false, points, steps, width);
    lemma_even_stack(b.impound@, inputs, other.impound, false, points, steps, width);
    assert(a.bars() == steps && b.bars() == steps);
    assert forall|bar: int| 0 <= bar < a.bars() implies {
        &&& #[trigger] a.era(bar) == b.era(bar)
        &&& a.opens_day(bar) == b.opens_day(bar)
    } by {
        assert(grid::single(bar) == seq![bar]);
        assert(a.epoch.code(grid::single(bar)) == b.epoch.code(grid::single(bar)));
        assert(a.new_day.on(grid::single(bar)) == b.new_day.on(grid::single(bar)));
    }
    assert forall|bar: int, i: int|
        0 <= bar < a.bars() && 0 <= i < a.assets() implies #[trigger] a.close(bar, i) == b.close(
        bar,
        i,
    ) by {
        assert(grid::pair(bar, i) == seq![bar, i]);
        assert(a.mark.number2(bar, i) == b.mark.number2(bar, i));
    }
    if a.has_previous {
        assert forall|bar: int, i: int|
            0 <= bar < a.bars() && 0 <= i < a.assets() implies #[trigger] a.reference(bar, i)
            == b.reference(bar, i) by {
            assert(grid::pair(bar, i) == seq![bar, i]);
            assert(a.previous.number2(bar, i) == b.previous.number2(bar, i));
        }
    }
    assert forall|phase: int, bar: int, i: int|
        0 <= phase < a.phases() && 0 <= bar < a.bars() && 0 <= i < a.assets() implies
        #[trigger] same_name(a, b, phase, bar, i) by {
        assert(grid::pair(bar, i) == seq![bar, i]);
        assert(a.prices@[phase].number2(bar, i) == b.prices@[phase].number2(bar, i));
        assert(crate::inputs::switched(a.buyable@, phase, bar, i));
        assert(crate::inputs::switched(b.buyable@, phase, bar, i));
        assert(crate::inputs::switched(a.sellable@, phase, bar, i));
        assert(crate::inputs::switched(b.sellable@, phase, bar, i));
        assert(!crate::inputs::switched(a.impound@, phase, bar, i));
        assert(!crate::inputs::switched(b.impound@, phase, bar, i));
    }
}

proof fn lemma_plan(
    inputs: Seq<Column>,
    one: SimulateKwargs,
    other: SimulateKwargs,
    a: Inputs,
    b: Inputs,
)
    requires
        same_otherwise(one, other),
        plain_sailing(inputs, one),
        plain_sailing(inputs, other),
        assembles(a, inputs, one),
        assembles(b, inputs, other),
    ensures
        same_plan(a, b, 0),
{
    let steps: int = assembly::bars_of(inputs, one);
    let n: int = one.firings@.len() as int;
    let (ones, others) = (one.firings@, other.firings@);
    assert forall|t: int, bar: int, phase: int|
        0 <= t < a.tranches() && 0 <= bar < a.bars() && 0 <= phase < a.phases() implies
        #[trigger] same_firing(a, b, 0, t, bar, phase) by {
        let cell: Seq<int> = grid::quad(0, t, bar, phase);
        assert(cell == seq![0, t, bar, phase]);
        let f: int = lemma_decided_row(inputs, ones, others, t, bar, phase, n);
        lemma_stands(inputs, ones, steps, t, bar, phase, n);
        lemma_stands(inputs, others, steps, t, bar, phase, n);
        let d: int = decisions::decided_row(inputs, ones, t, bar, phase, n);
        assert(a.at.code(cell) == d && b.at.code(cell) == d);
        assert(!a.standing.on(cell) && !b.standing.on(cell));
        if d >= 0 {
            lemma_row_number(inputs, ones, others, f, bar);
            assert(ones[f].tranche == others[f].tranche);
            assert forall|i: int| 0 <= i < a.assets() implies #[trigger] a.weight(0, t, d, i)
                == b.weight(0, t, d, i) by {
                assert(grid::quad(0, t, d, i) == seq![0, t, d, i]);
                assert(decisions::planned(a.plan, inputs, ones, f, bar, i)
                    == decisions::planned(b.plan, inputs, others, f, bar, i));
            }
        }
    }
}

/// No column means always buyable, always sellable, never impounded and never
/// standing: whether or not kwargs name columns that say just that, the
/// arrays they are read into are answered the same, under any policy that
/// reads no more than the price point it is handed.
pub proof fn law_no_column_is_an_even_column<B: Bookkeeping>(
    inputs: Seq<Column>,
    one: SimulateKwargs,
    other: SimulateKwargs,
    a: Inputs,
    b: Inputs,
)
    requires
        agreement::attentive::<B>(a, b),
        same_otherwise(one, other),
        plain_sailing(inputs, one),
        plain_sailing(inputs, other),
        one.prices@.len() == one.points,
        assembles(a, inputs, one),
        assembles(b, inputs, other),
        a.valid(),
        b.valid(),
    ensures
        forall|answer: Answer| #[trigger] answer.of::<B>(a) == answer.of::<B>(b),
{
    lemma_terms(inputs, one, other, a, b);
    lemma_market(inputs, one, other, a, b);
    lemma_plan(inputs, one, other, a, b);
    assert(a.runs() == 1 && b.runs() == 1);
    agreement::law_runs_are_independent::<B>(a, b, 0);
    assert forall|answer: Answer| #[trigger] answer.of::<B>(a) == answer.of::<B>(b) by {
        lemma_listed::<B>(answer.equity@, a, b, crate::inputs::EQUITY);
        lemma_listed::<B>(answer.cash@, a, b, crate::inputs::CASH);
        lemma_listed::<B>(answer.fees@, a, b, crate::inputs::FEES);
        lemma_listed::<B>(answer.bought@, a, b, crate::inputs::BOUGHT);
        lemma_listed::<B>(answer.sold@, a, b, crate::inputs::SOLD);
        if answer.position is Some {
            lemma_positions::<B>(answer.position->0@, a, b);
        }
    }
}

/// Under the framework's own policy no column is a column that says what no
/// column means.
pub proof fn law_plain_needs_no_even_column(
    inputs: Seq<Column>,
    one: SimulateKwargs,
    other: SimulateKwargs,
    a: Inputs,
    b: Inputs,
)
    requires
        same_otherwise(one, other),
        plain_sailing(inputs, one),
        plain_sailing(inputs, other),
        one.prices@.len() == one.points,
        assembles(a, inputs, one),
        assembles(b, inputs, other),
        a.valid(),
        b.valid(),
    ensures
        forall|answer: Answer| #[trigger] answer.of::<Plain>(a) == answer.of::<Plain>(b),
{
    agreement::law_plain_is_attentive(a, b);
    law_no_column_is_an_even_column::<Plain>(inputs, one, other, a, b);
}

proof fn lemma_listed<B: Bookkeeping>(
    list: Seq<crate::binary64::Binary64>,
    a: Inputs,
    b: Inputs,
    row: usize,
)
    requires
        a.bars() == b.bars(),
        forall|row: int, bar: int|
            0 <= bar < a.bars() ==> #[trigger] driver::series::<B>(a, 0, row, bar)
                == driver::series::<B>(b, 0, row, bar),
    ensures
        plugin::series_listed::<B>(list, a, row) == plugin::series_listed::<B>(
            list,
            b,
            row,
        ),
{
    assert forall|bar: int| 0 <= bar < a.bars() implies driver::series::<B>(
        a,
        0,
        row as int,
        bar,
    ) == #[trigger] driver::series::<B>(b, 0, row as int, bar) by {
        assert(driver::series::<B>(a, 0, row as int, bar) == driver::series::<B>(
            b,
            0,
            row as int,
            bar,
        ));
    }
    if plugin::series_listed::<B>(list, a, row) {
        assert forall|bar: int| 0 <= bar < b.bars() implies #[trigger] list[bar]
            == driver::series::<B>(b, 0, row as int, bar) by {}
    }
    if plugin::series_listed::<B>(list, b, row) {
        assert forall|bar: int| 0 <= bar < a.bars() implies #[trigger] list[bar]
            == driver::series::<B>(a, 0, row as int, bar) by {}
    }
}

proof fn lemma_positions<B: Bookkeeping>(
    lists: Seq<Vec<crate::binary64::Binary64>>,
    a: Inputs,
    b: Inputs,
)
    requires
        a.bars() == b.bars(),
        a.assets() == b.assets(),
        forall|bar: int|
            0 <= bar < a.bars() ==> #[trigger] driver::closing::<B>(a, 0, bar)
                == driver::closing::<B>(b, 0, bar),
    ensures
        plugin::positions_listed::<B>(lists, a) == plugin::positions_listed::<B>(lists, b),
{
    if plugin::positions_listed::<B>(lists, a) {
        assert forall|bar: int| 0 <= bar < b.bars() implies {
            &&& (#[trigger] lists[bar])@.len() == b.assets()
            &&& forall|i: int|
                0 <= i < b.assets() ==> #[trigger] lists[bar]@[i] == driver::closing::<B>(
                    b,
                    0,
                    bar,
                ).holds(i)
        } by {
            assert(driver::closing::<B>(a, 0, bar) == driver::closing::<B>(b, 0, bar));
        }
    }
    if plugin::positions_listed::<B>(lists, b) {
        assert forall|bar: int| 0 <= bar < a.bars() implies {
            &&& (#[trigger] lists[bar])@.len() == a.assets()
            &&& forall|i: int|
                0 <= i < a.assets() ==> #[trigger] lists[bar]@[i] == driver::closing::<B>(
                    a,
                    0,
                    bar,
                ).holds(i)
        } by {
            assert(driver::closing::<B>(a, 0, bar) == driver::closing::<B>(b, 0, bar));
        }
    }
}

/// The first fault of two lists of needs one after the other is the first
/// list's, or else the second's.
proof fn lemma_fault_joined(
    inputs: Seq<Column>,
    first: Seq<(usize, Kind)>,
    second: Seq<(usize, Kind)>,
)
    ensures
        fault_in(inputs, first + second) == (if fault_in(inputs, first) is Some {
            fault_in(inputs, first)
        } else {
            fault_in(inputs, second)
        }),
    decreases first.len(),
{
    if first.len() == 0 {
        assert(first + second =~= second);
    } else {
        assert((first + second).drop_first() =~= first.drop_first() + second);
        lemma_fault_joined(inputs, first.drop_first(), second);
    }
}

/// A list of columns that are there and are what they have to be has no
/// fault.
proof fn lemma_faultless(inputs: Seq<Column>, needed: Seq<(usize, Kind)>)
    requires
        forall|k: int|
            0 <= k < needed.len() ==> (#[trigger] needed[k]).0 < inputs.len()
                && inputs[needed[k].0 as int].meets(needed[k].1),
    ensures
        fault_in(inputs, needed) is None,
    decreases needed.len(),
{
    if needed.len() > 0 {
        assert(needed[0].0 < inputs.len());
        assert forall|k: int| 0 <= k < needed.drop_first().len() implies (
        #[trigger] needed.drop_first()[k]).0 < inputs.len() && inputs[needed.drop_first()[k].0 as
            int].meets(needed.drop_first()[k].1) by {
            assert(needed.drop_first()[k] == needed[k + 1]);
        }
        lemma_faultless(inputs, needed.drop_first());
    }
}

proof fn lemma_even_faultless(
    inputs: Seq<Column>,
    which: Option<Vec<usize>>,
    on: bool,
    points: int,
    steps: int,
    width: int,
)
    requires
        even_part(inputs, which, on, points, steps, width),
    ensures
        fault_in(inputs, assembly::named_parts(which, Kind::SwitchPlane)) is None,
        assembly::switches_fit(inputs, which, steps, width),
{
    let needed: Seq<(usize, Kind)> = assembly::named_parts(which, Kind::SwitchPlane);
    assert forall|k: int| 0 <= k < needed.len() implies (#[trigger] needed[k]).0 < inputs.len()
        && inputs[needed[k].0 as int].meets(needed[k].1) by {
        assert(which->0@[k] < inputs.len());
    }
    lemma_faultless(inputs, needed);
}

/// Whether a firing's columns are at fault does not depend on a standing
/// column that is there.
proof fn lemma_firing_faults(
    inputs: Seq<Column>,
    one: Seq<Firing>,
    other: Seq<Firing>,
    steps: int,
)
    requires
        same_firings(one, other),
        forall|f: int| 0 <= f < one.len() ==> #[trigger] never_stands(inputs, one[f], steps),
        forall|f: int| 0 <= f < other.len() ==> #[trigger] never_stands(inputs, other[f], steps),
    ensures
        fault_in(inputs, assembly::firing_parts(one)) == fault_in(
            inputs,
            assembly::firing_parts(other),
        ),
    decreases one.len(),
{
    if one.len() > 0 {
        let n: int = one.len() - 1;
        assert(one[n].plan == other[n].plan);
        assert(never_stands(inputs, one[n], steps));
        assert(never_stands(inputs, other[n], steps));
        assert forall|f: int| 0 <= f < one.drop_last().len() implies #[trigger] never_stands(
            inputs,
            one.drop_last()[f],
            steps,
        ) by {
            assert(never_stands(inputs, one[f], steps));
        }
        assert forall|f: int| 0 <= f < other.drop_last().len() implies #[trigger] never_stands(
            inputs,
            other.drop_last()[f],
            steps,
        ) by {
            assert(never_stands(inputs, other[f], steps));
        }
        assert(same_firings(one.drop_last(), other.drop_last())) by {
            assert forall|f: int| 0 <= f < one.drop_last().len() implies {
                &&& (#[trigger] one.drop_last()[f]).tranche == other.drop_last()[f].tranche
                &&& one.drop_last()[f].point == other.drop_last()[f].point
                &&& one.drop_last()[f].plan == other.drop_last()[f].plan
            } by {
                assert(one[f].tranche == other[f].tranche);
            }
        }
        lemma_firing_faults(inputs, one.drop_last(), other.drop_last(), steps);
        lemma_last_firing(inputs, one, steps);
        lemma_last_firing(inputs, other, steps);
    }
}

/// The faults of a list of firings, the last one's standing column being
/// there.
proof fn lemma_last_firing(inputs: Seq<Column>, firings: Seq<Firing>, steps: int)
    requires
        firings.len() > 0,
        never_stands(inputs, firings.last(), steps),
    ensures
        fault_in(inputs, assembly::firing_parts(firings)) == ({
            let rest = fault_in(inputs, assembly::firing_parts(firings.drop_last()));
            if rest is Some {
                rest
            } else {
                fault_in(inputs, seq![(firings.last().plan, Kind::NumberRows)])
            }
        }),
{
    let firing: Firing = firings.last();
    let rest: Seq<(usize, Kind)> = assembly::firing_parts(firings.drop_last());
    let plan: Seq<(usize, Kind)> = seq![(firing.plan, Kind::NumberRows)];
    let flags: Seq<(usize, Kind)> = match firing.standing {
        Some(index) => seq![(index, Kind::Switches)],
        None => Seq::empty(),
    };
    assert(assembly::firing_parts(firings) =~= rest + flags + plan);
    lemma_faultless(inputs, flags);
    lemma_fault_joined(inputs, rest, flags);
    lemma_fault_joined(inputs, rest + flags, plan);
}

proof fn lemma_needs(inputs: Seq<Column>, one: SimulateKwargs, other: SimulateKwargs)
    requires
        same_otherwise(one, other),
        plain_sailing(inputs, one),
        plain_sailing(inputs, other),
    ensures
        fault_in(inputs, assembly::needs(one)) == fault_in(inputs, assembly::needs(other)),
        assembly::switches_fit(
            inputs,
            one.buyable,
            assembly::bars_of(inputs, one),
            assembly::names_of(inputs, one),
        ),
        assembly::switches_fit(
            inputs,
            one.sellable,
            assembly::bars_of(inputs, one),
            assembly::names_of(inputs, one),
        ),
        assembly::switches_fit(
            inputs,
            one.impound,
            assembly::bars_of(inputs, one),
            assembly::names_of(inputs, one),
        ),
{
    lemma_needed(inputs, one);
    lemma_needed(inputs, other);
    lemma_firing_faults(
        inputs,
        one.firings@,
        other.firings@,
        assembly::bars_of(inputs, one),
    );
    let plan_of = |firing: Firing| (firing.plan, Kind::Lists);
    assert(one.firings@.map_values(plan_of) =~= other.firings@.map_values(plan_of)) by {
        assert forall|f: int| 0 <= f < one.firings@.len() implies one.firings@.map_values(
            plan_of,
        )[f] == other.firings@.map_values(plan_of)[f] by {
            assert(one.firings@[f].plan == other.firings@[f].plan);
        }
    }
}

/// The columns read before the switches, or after them.
pub open spec fn early_needs(kwargs: SimulateKwargs) -> Seq<(usize, Kind)> {
    let previous = match kwargs.previous {
        Some(index) => seq![(index, Kind::NumberPlane)],
        None => Seq::empty(),
    };
    seq![(kwargs.mark, Kind::NumberPlane)] + previous + assembly::parts(
        kwargs.prices@,
        Kind::NumberPlane,
    )
}

proof fn lemma_needed(inputs: Seq<Column>, kwargs: SimulateKwargs)
    requires
        plain_sailing(inputs, kwargs),
    ensures
        fault_in(inputs, assembly::needs(kwargs)) == ({
            let early = fault_in(inputs, early_needs(kwargs));
            let plans = fault_in(
                inputs,
                kwargs.firings@.map_values(|firing: Firing| (firing.plan, Kind::Lists)),
            );
            let firings = fault_in(inputs, assembly::firing_parts(kwargs.firings@));
            if early is Some {
                early
            } else if plans is Some {
                plans
            } else if firings is Some {
                firings
            } else {
                fault_in(
                    inputs,
                    seq![
                        (kwargs.instrument, Kind::CodeRows),
                        (kwargs.epoch, Kind::Codes),
                        (kwargs.new_day, Kind::Switches),
                    ],
                )
            }
        }),
        assembly::switches_fit(
            inputs,
            kwargs.buyable,
            assembly::bars_of(inputs, kwargs),
            assembly::names_of(inputs, kwargs),
        ),
        assembly::switches_fit(
            inputs,
            kwargs.sellable,
            assembly::bars_of(inputs, kwargs),
            assembly::names_of(inputs, kwargs),
        ),
        assembly::switches_fit(
            inputs,
            kwargs.impound,
            assembly::bars_of(inputs, kwargs),
            assembly::names_of(inputs, kwargs),
        ),
{
    let (steps, width) = (assembly::bars_of(inputs, kwargs), assembly::names_of(inputs, kwargs));
    let points: int = kwargs.points as int;
    lemma_even_faultless(inputs, kwargs.buyable, true, points, steps, width);
    lemma_even_faultless(inputs, kwargs.sellable, true, points, steps, width);
    lemma_even_faultless(inputs, kwargs.impound, false, points, steps, width);
    let early: Seq<(usize, Kind)> = early_needs(kwargs);
    let buyable: Seq<(usize, Kind)> = assembly::named_parts(kwargs.buyable, Kind::SwitchPlane);
    let sellable: Seq<(usize, Kind)> = assembly::named_parts(kwargs.sellable, Kind::SwitchPlane);
    let impound: Seq<(usize, Kind)> = assembly::named_parts(kwargs.impound, Kind::SwitchPlane);
    let plans: Seq<(usize, Kind)> = kwargs.firings@.map_values(
        |firing: Firing| (firing.plan, Kind::Lists),
    );
    let fired: Seq<(usize, Kind)> = assembly::firing_parts(kwargs.firings@);
    let rules: Seq<(usize, Kind)> = seq![
        (kwargs.instrument, Kind::CodeRows),
        (kwargs.epoch, Kind::Codes),
        (kwargs.new_day, Kind::Switches),
    ];
    assert(assembly::needs(kwargs) =~= early + buyable + sellable + impound + plans + fired
        + rules);
    lemma_fault_joined(inputs, early, buyable);
    lemma_fault_joined(inputs, early + buyable, sellable);
    lemma_fault_joined(inputs, early + buyable + sellable, impound);
    lemma_fault_joined(inputs, early + buyable + sellable + impound, plans);
    lemma_fault_joined(inputs, early + buyable + sellable + impound + plans, fired);
    lemma_fault_joined(inputs, early + buyable + sellable + impound + plans + fired, rules);
}

/// Whether the rows of firings have a place does not depend on a standing
/// column that covers every bar.
proof fn lemma_firings_fit(
    inputs: Seq<Column>,
    one: Seq<Firing>,
    other: Seq<Firing>,
    tranches: int,
    points: int,
    steps: int,
    width: int,
)
    requires
        same_firings(one, other),
        forall|f: int| 0 <= f < other.len() ==> #[trigger] never_stands(inputs, other[f], steps),
        decisions::firings_fit(inputs, one, tranches, points, steps, width),
    ensures
        decisions::firings_fit(inputs, other, tranches, points, steps, width),
{
    assert forall|f: int, b: int|
        0 <= f < other.len() && #[trigger] decisions::fires(inputs, other[f], b) implies
        decisions::firing_fits(inputs, other[f], b, tranches, points, steps, width) by {
        assert(one[f].plan == other[f].plan);
        assert(decisions::fires(inputs, one[f], b));
        assert(never_stands(inputs, other[f], steps));
    }
}

proof fn lemma_same_firings(one: Seq<Firing>, other: Seq<Firing>)
    requires
        same_firings(one, other),
    ensures
        same_firings(other, one),
{
    assert forall|f: int| 0 <= f < other.len() implies {
        &&& (#[trigger] other[f]).tranche == one[f].tranche
        &&& other[f].point == one[f].point
        &&& other[f].plan == one[f].plan
    } by {
        assert(one[f].tranche == other[f].tranche);
    }
}

proof fn lemma_posed(inputs: Seq<Column>, one: SimulateKwargs, other: SimulateKwargs)
    requires
        same_otherwise(one, other),
        plain_sailing(inputs, one),
        plain_sailing(inputs, other),
        assembly::posed(inputs, one),
    ensures
        assembly::posed(inputs, other),
{
    let (steps, width) = (assembly::bars_of(inputs, one), assembly::names_of(inputs, one));
    let (tranches, points) = (one.tranches as int, one.points as int);
    lemma_needed(inputs, other);
    lemma_firings_fit(inputs, one.firings@, other.firings@, tranches, points, steps, width);
    lemma_depth(inputs, one.firings@, other.firings@, steps, tranches);
}

/// Naming columns that say what no columns mean changes nothing about whether
/// a simulation is refused, or why.
pub proof fn law_an_even_column_is_not_refused(
    inputs: Seq<Column>,
    one: SimulateKwargs,
    other: SimulateKwargs,
)
    requires
        same_otherwise(one, other),
        plain_sailing(inputs, one),
        plain_sailing(inputs, other),
    ensures
        plugin::refusal(inputs, one) == plugin::refusal(inputs, other),
{
    lemma_needs(inputs, one, other);
    lemma_same_firings(one.firings@, other.firings@);
    if assembly::posed(inputs, one) {
        lemma_posed(inputs, one, other);
    }
    if assembly::posed(inputs, other) {
        lemma_posed(inputs, other, one);
    }
}

}
