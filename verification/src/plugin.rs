//! Frame in, frame out: what a frame library's expression hands the walk.
//!
//! One group of the frame is one account, one row is one bar, and a cell
//! holding the market is a list — every instrument the account's universe
//! covers, in one fixed order. Which column plays which part is said by the
//! kwargs, the market's rules and the account's terms ride along in them,
//! and the answer is one struct per bar.

use vstd::prelude::*;

use crate::account::Fill;
use crate::assembly;
use crate::assembly::{assemble, SimulateError};
use crate::binary64::Binary64;
use crate::bookkeeping::Bookkeeping;
use crate::driver;
use crate::driver::run_all;
use crate::frame::Column;
use crate::grid::Grid;
use crate::inputs::{Inputs, BOUGHT, CASH, EQUITY, FEES, SOLD};

verus! {

/// One firing: a tranche's decision at one price point of a bar, given as a
/// list column that is missing on the bars where nothing fires.
#[derive(Clone, Copy, Debug)]
pub struct Firing {
    pub tranche: usize,
    pub point: usize,
    /// The list column of target weights, by input index.
    pub plan: usize,
    /// A boolean column: the firing acts only on a change; None for never.
    pub standing: Option<usize>,
}

/// What the kwargs say about the inputs and the account.
#[derive(Clone, Debug)]
pub struct SimulateKwargs {
    pub points: usize,
    pub tranches: usize,
    /// Input indices of the list columns, per part.
    pub mark: usize,
    pub previous: Option<usize>,
    pub prices: Vec<usize>,
    pub buyable: Option<Vec<usize>>,
    pub sellable: Option<Vec<usize>>,
    pub impound: Option<Vec<usize>>,
    pub firings: Vec<Firing>,
    /// A list column of class codes (any row; they are the same on every bar).
    pub instrument: usize,
    /// Scalar columns.
    pub epoch: usize,
    pub new_day: usize,
    /// `(rates, epochs, classes)` and `(flags, classes)`, mirroring the rulebook.
    pub rates: Vec<Vec<Vec<Binary64>>>,
    pub flags: Vec<Vec<bool>>,
    pub capital: Binary64,
    pub buffer: Binary64,
    pub audit: bool,
    /// Whether to report the `(N,)` quantities held on each bar as well.
    pub positions: bool,
    /// Whether every fill is answered, as per-bar lists.
    pub fills: bool,
}

/// The fill columns, one list per bar, the lists of a bar in step:
/// tranche, asset and point as codes, units, price and fee as doubles.
pub const FILL_COLUMNS: [&'static str; 6] = [
    "fill_tranche",
    "fill_asset",
    "fill_point",
    "fill_units",
    "fill_price",
    "fill_fee",
];

/// What a column of the answer holds on each bar.
#[derive(Clone, Copy, Debug, PartialEq, Eq, Structural)]
pub enum Cells {
    Number,
    Numbers,
    Codes,
}

/// One column of the answer.
#[derive(Debug)]
pub struct OutputColumn {
    pub name: String,
    pub cells: Cells,
}

/// The output field of the expression: one struct per bar.
#[derive(Debug)]
pub struct OutputField {
    pub name: String,
    pub columns: Vec<OutputColumn>,
}

impl OutputField {
    /// The columns, each with its name and what it holds.
    pub open spec fn listed(self) -> Seq<(Seq<char>, Cells)> {
        self.columns@.map_values(|column: OutputColumn| (column.name@, column.cells))
    }
}

/// What the answer's columns are called and hold, in order.
pub open spec fn output_columns(positions: bool, fills: bool) -> Seq<(Seq<char>, Cells)> {
    let reported = seq![
        ("equity"@, Cells::Number),
        ("cash"@, Cells::Number),
        ("fees"@, Cells::Number),
        ("bought"@, Cells::Number),
        ("sold"@, Cells::Number),
    ];
    let held = if positions {
        seq![("position"@, Cells::Numbers)]
    } else {
        Seq::empty()
    };
    let filled = if fills {
        Seq::new(
            6,
            |k: int|
                (
                    FILL_COLUMNS[k]@,
                    if k < 3 {
                        Cells::Codes
                    } else {
                        Cells::Numbers
                    },
                ),
        )
    } else {
        Seq::empty()
    };
    reported + held + filled
}

fn named(name: &str, cells: Cells) -> (column: OutputColumn)
    ensures
        column.name@ == name@,
        column.cells == cells,
{
    OutputColumn { name: name.to_string(), cells }
}

/// The output field of the expression: one struct per bar.
pub fn output_field(name: &str, positions: bool, fills: bool) -> (field: OutputField)
    ensures
        field.name@ == name@,
        field.listed() == output_columns(positions, fills),
{
    let mut columns: Vec<OutputColumn> = Vec::new();
    columns.push(named("equity", Cells::Number));
    columns.push(named("cash", Cells::Number));
    columns.push(named("fees", Cells::Number));
    columns.push(named("bought", Cells::Number));
    columns.push(named("sold", Cells::Number));
    if positions {
        columns.push(named("position", Cells::Numbers));
    }
    let ghost before: Seq<OutputColumn> = columns@;
    if fills {
        let mut k: usize = 0;
        while k < 6
            invariant
                k <= 6,
                columns@.len() == before.len() + k,
                forall|j: int| 0 <= j < before.len() ==> #[trigger] columns@[j] == before[j],
                forall|j: int|
                    0 <= j < k ==> (#[trigger] columns@[before.len() + j]).name@
                        == FILL_COLUMNS[j]@ && columns@[before.len() + j].cells == (if j < 3 {
                        Cells::Codes
                    } else {
                        Cells::Numbers
                    }),
            decreases 6 - k,
        {
            let cells: Cells = if k < 3 {
                Cells::Codes
            } else {
                Cells::Numbers
            };
            columns.push(named(FILL_COLUMNS[k], cells));
            k = k + 1;
        }
    }
    let field: OutputField = OutputField { name: name.to_string(), columns };
    proof {
        let listed: Seq<(Seq<char>, Cells)> = field.listed();
        let wanted: Seq<(Seq<char>, Cells)> = output_columns(positions, fills);
        assert(listed.len() == wanted.len());
        assert forall|j: int| 0 <= j < wanted.len() implies #[trigger] listed[j] == wanted[j] by {
            if j >= before.len() {
                assert(columns@[before.len() + (j - before.len())].name@ == FILL_COLUMNS[j
                    - before.len()]@);
            } else {
                assert(columns@[j] == before[j]);
            }
        }
        assert(listed =~= wanted);
    }
    field
}

/// Where the stretch of fills of `bar` that begins at `from` ends.
pub open spec fn stretch_end(fills: Seq<Fill>, from: int, bar: int) -> int
    decreases fills.len() - from,
{
    if 0 <= from < fills.len() && fills[from].bar == bar {
        stretch_end(fills, from + 1, bar)
    } else {
        from
    }
}

/// Where a bar's stretch of fills begins: where the one before it ends.
pub open spec fn stretch_start(fills: Seq<Fill>, bar: int) -> int
    decreases bar,
{
    if bar <= 0 {
        0
    } else {
        stretch_end(fills, stretch_start(fills, bar - 1), bar - 1)
    }
}

/// A bar's stretch of fills. Fills come in walk order, so each bar's are one
/// contiguous stretch.
pub open spec fn stretch(fills: Seq<Fill>, bar: int) -> Seq<Fill> {
    fills.subrange(stretch_start(fills, bar), stretch_start(fills, bar + 1))
}

proof fn lemma_stretch_end(fills: Seq<Fill>, from: int, bar: int)
    requires
        0 <= from <= fills.len(),
    ensures
        from <= stretch_end(fills, from, bar) <= fills.len(),
    decreases fills.len() - from,
{
    if from < fills.len() && fills[from].bar == bar {
        lemma_stretch_end(fills, from + 1, bar);
    }
}

pub proof fn lemma_stretch_start(fills: Seq<Fill>, bar: int)
    ensures
        0 <= stretch_start(fills, bar) <= fills.len(),
        bar >= 0 ==> stretch_start(fills, bar) <= stretch_start(fills, bar + 1),
        stretch_start(fills, bar + 1) <= fills.len(),
    decreases bar,
{
    if bar > 0 {
        lemma_stretch_start(fills, bar - 1);
    }
    if bar >= 0 {
        lemma_stretch_end(fills, stretch_start(fills, bar), bar);
    }
}

/// The fill columns: a list per bar, the lists of a bar in step.
#[derive(Debug)]
pub struct FillColumns {
    pub tranche: Vec<Vec<i32>>,
    pub asset: Vec<Vec<i32>>,
    pub point: Vec<Vec<i32>>,
    pub units: Vec<Vec<Binary64>>,
    pub price: Vec<Vec<Binary64>>,
    pub fee: Vec<Vec<Binary64>>,
}

/// Whether a bar's lists say of each of its fills what happened, in order.
pub open spec fn bar_listed(columns: FillColumns, bar: int, fills: Seq<Fill>) -> bool {
    &&& columns.tranche@[bar]@ == fills.map_values(|fill: Fill| fill.tranche)
    &&& columns.asset@[bar]@ == fills.map_values(|fill: Fill| fill.asset as i32)
    &&& columns.point@[bar]@ == fills.map_values(|fill: Fill| fill.point as i32)
    &&& columns.units@[bar]@ == fills.map_values(|fill: Fill| fill.units)
    &&& columns.price@[bar]@ == fills.map_values(|fill: Fill| fill.price)
    &&& columns.fee@[bar]@ == fills.map_values(|fill: Fill| fill.fee)
}

impl FillColumns {
    /// How many bars the columns answer, if they are in step.
    pub open spec fn spans(self, bars: int) -> bool {
        &&& self.tranche@.len() == bars
        &&& self.asset@.len() == bars
        &&& self.point@.len() == bars
        &&& self.units@.len() == bars
        &&& self.price@.len() == bars
        &&& self.fee@.len() == bars
    }

    /// Whether the columns list one run's fills, bar by bar.
    pub open spec fn list(self, fills: Seq<Fill>, bars: int) -> bool {
        &&& self.spans(bars)
        &&& forall|bar: int|
            0 <= bar < bars ==> #[trigger] bar_listed(self, bar, stretch(fills, bar))
    }
}

/// Lay one run's fills out as the six per-bar list columns.
pub fn fill_columns(fills: &Vec<Fill>, steps: usize) -> (columns: FillColumns)
    ensures
        columns.list(fills@, steps as int),
{
    let mut columns: FillColumns = FillColumns {
        tranche: Vec::new(),
        asset: Vec::new(),
        point: Vec::new(),
        units: Vec::new(),
        price: Vec::new(),
        fee: Vec::new(),
    };
    let mut cursor: usize = 0;
    let mut bar: usize = 0;
    while bar < steps
        invariant
            bar <= steps,
            cursor == stretch_start(fills@, bar as int),
            cursor <= fills@.len(),
            columns.list(fills@, bar as int),
        decreases steps - bar,
    {
        let ghost start: int = cursor as int;
        let ghost done: FillColumns = columns;
        let mut tranche: Vec<i32> = Vec::new();
        let mut asset: Vec<i32> = Vec::new();
        let mut point: Vec<i32> = Vec::new();
        let mut units: Vec<Binary64> = Vec::new();
        let mut price: Vec<Binary64> = Vec::new();
        let mut fee: Vec<Binary64> = Vec::new();
        while cursor < fills.len() && fills[cursor].bar as usize == bar
            invariant
                0 <= start <= cursor <= fills@.len(),
                stretch_end(fills@, start, bar as int) == stretch_end(
                    fills@,
                    cursor as int,
                    bar as int,
                ),
                tranche@ == fills@.subrange(start, cursor as int).map_values(
                    |fill: Fill| fill.tranche,
                ),
                asset@ == fills@.subrange(start, cursor as int).map_values(
                    |fill: Fill| fill.asset as i32,
                ),
                point@ == fills@.subrange(start, cursor as int).map_values(
                    |fill: Fill| fill.point as i32,
                ),
                units@ == fills@.subrange(start, cursor as int).map_values(
                    |fill: Fill| fill.units,
                ),
                price@ == fills@.subrange(start, cursor as int).map_values(
                    |fill: Fill| fill.price,
                ),
                fee@ == fills@.subrange(start, cursor as int).map_values(|fill: Fill| fill.fee),
            decreases fills@.len() - cursor,
        {
            let fill: Fill = fills[cursor];
            tranche.push(fill.tranche);
            asset.push(
                #[verifier::truncate]
                (fill.asset as i32),
            );
            point.push(
                #[verifier::truncate]
                (fill.point as i32),
            );
            units.push(fill.units);
            price.push(fill.price);
            fee.push(fill.fee);
            proof {
                assert(fills@.subrange(start, cursor + 1) =~= fills@.subrange(
                    start,
                    cursor as int,
                ).push(fill));
            }
            cursor = cursor + 1;
        }
        proof {
            assert(stretch(fills@, bar as int) == fills@.subrange(start, cursor as int));
        }
        columns.tranche.push(tranche);
        columns.asset.push(asset);
        columns.point.push(point);
        columns.units.push(units);
        columns.price.push(price);
        columns.fee.push(fee);
        proof {
            assert(bar_listed(columns, bar as int, stretch(fills@, bar as int)));
            assert forall|b: int| 0 <= b < bar + 1 implies #[trigger] bar_listed(
                columns,
                b,
                stretch(fills@, b),
            ) by {
                if b < bar {
                    assert(bar_listed(done, b, stretch(fills@, b)));
                }
            }
        }
        bar = bar + 1;
    }
    columns
}

/// What a simulation answers: a number per bar in each series, and, where
/// they are asked for, the quantities held on each bar and the bar's fills.
#[derive(Debug)]
pub struct Answer {
    pub equity: Vec<Binary64>,
    pub cash: Vec<Binary64>,
    pub fees: Vec<Binary64>,
    pub bought: Vec<Binary64>,
    pub sold: Vec<Binary64>,
    pub position: Option<Vec<Vec<Binary64>>>,
    pub fills: Option<FillColumns>,
}

/// Whether a list holds one of a run's series.
pub open spec fn series_listed<B: Bookkeeping>(
    list: Seq<Binary64>,
    inp: Inputs,
    row: usize,
) -> bool {
    &&& list.len() == inp.bars()
    &&& forall|bar: int|
        0 <= bar < inp.bars() ==> #[trigger] list[bar] == driver::series::<B>(
            inp,
            0,
            row as int,
            bar,
        )
}

/// Whether the lists hold what a run held on each bar.
pub open spec fn positions_listed<B: Bookkeeping>(lists: Seq<Vec<Binary64>>, inp: Inputs) -> bool {
    &&& lists.len() == inp.bars()
    &&& forall|bar: int|
        0 <= bar < inp.bars() ==> {
            &&& (#[trigger] lists[bar])@.len() == inp.assets()
            &&& forall|i: int|
                0 <= i < inp.assets() ==> #[trigger] lists[bar]@[i] == driver::closing::<B>(
                    inp,
                    0,
                    bar,
                ).holds(i)
        }
}

impl Answer {
    /// Whether this is what walking the arrays answers.
    pub open spec fn of<B: Bookkeeping>(self, inp: Inputs) -> bool {
        &&& series_listed::<B>(self.equity@, inp, EQUITY)
        &&& series_listed::<B>(self.cash@, inp, CASH)
        &&& series_listed::<B>(self.fees@, inp, FEES)
        &&& series_listed::<B>(self.bought@, inp, BOUGHT)
        &&& series_listed::<B>(self.sold@, inp, SOLD)
        &&& self.position is Some <==> inp.record_positions
        &&& self.position matches Some(lists) ==> positions_listed::<B>(lists@, inp)
        &&& self.fills is Some <==> inp.record_fills
        &&& self.fills matches Some(columns) ==> columns.list(
            driver::walked::<B>(inp, 0, inp.bars()).1.fills,
            inp.bars(),
        )
    }
}

/// One series of a report, as a list.
fn take_series<B: Bookkeeping>(
    reported: &Grid,
    row: usize,
    steps: usize,
    Ghost(inp): Ghost<Inputs>,
) -> (list: Vec<Binary64>)
    requires
        row < crate::inputs::REPORTED,
        inp.runs() == 1,
        inp.bars() == steps,
        reported.shape() == seq![crate::inputs::REPORTED as int, 1, steps as int],
        driver::packs::<B>(inp, *reported, 1),
    ensures
        series_listed::<B>(list@, inp, row),
{
    let mut list: Vec<Binary64> = Vec::new();
    let mut bar: usize = 0;
    while bar < steps
        invariant
            row < crate::inputs::REPORTED,
            inp.runs() == 1,
            inp.bars() == steps,
            reported.shape() == seq![crate::inputs::REPORTED as int, 1, steps as int],
            driver::packs::<B>(inp, *reported, 1),
            bar <= steps,
            list@.len() == bar,
            forall|b: int|
                0 <= b < bar ==> #[trigger] list@[b] == driver::series::<B>(
                    inp,
                    0,
                    row as int,
                    b,
                ),
        decreases steps - bar,
    {
        let bits: u64 = reported.at3(row, 0, bar);
        proof {
            assert(reported.number3(row as int, 0, bar as int) == driver::series::<B>(
                inp,
                0,
                row as int,
                bar as int,
            ));
        }
        list.push(Binary64 { bits });
        bar = bar + 1;
    }
    list
}

/// The positions of a report, a list per bar.
fn take_positions<B: Bookkeeping>(
    held: &Grid,
    steps: usize,
    width: usize,
    Ghost(inp): Ghost<Inputs>,
) -> (lists: Vec<Vec<Binary64>>)
    requires
        inp.runs() == 1,
        inp.bars() == steps,
        inp.assets() == width,
        held.shape() == seq![1int, steps as int, width as int],
        driver::stacks::<B>(inp, *held, 1),
    ensures
        positions_listed::<B>(lists@, inp),
{
    let mut lists: Vec<Vec<Binary64>> = Vec::new();
    let mut bar: usize = 0;
    while bar < steps
        invariant
            inp.runs() == 1,
            inp.bars() == steps,
            inp.assets() == width,
            held.shape() == seq![1int, steps as int, width as int],
            driver::stacks::<B>(inp, *held, 1),
            bar <= steps,
            lists@.len() == bar,
            forall|b: int|
                0 <= b < bar ==> {
                    &&& (#[trigger] lists@[b])@.len() == width
                    &&& forall|i: int|
                        0 <= i < width ==> #[trigger] lists@[b]@[i] == driver::closing::<B>(
                            inp,
                            0,
                            b,
                        ).holds(i)
                },
        decreases steps - bar,
    {
        let mut list: Vec<Binary64> = Vec::new();
        let mut i: usize = 0;
        while i < width
            invariant
                bar < steps,
                inp.runs() == 1,
                inp.bars() == steps,
                inp.assets() == width,
                held.shape() == seq![1int, steps as int, width as int],
                driver::stacks::<B>(inp, *held, 1),
                i <= width,
                list@.len() == i,
                forall|j: int|
                    0 <= j < i ==> #[trigger] list@[j] == driver::closing::<B>(
                        inp,
                        0,
                        bar as int,
                    ).holds(j),
            decreases width - i,
        {
            let bits: u64 = held.at3(0, bar, i);
            proof {
                assert(held.number3(0, bar as int, i as int) == driver::closing::<B>(
                    inp,
                    0,
                    bar as int,
                ).holds(i as int));
            }
            list.push(Binary64 { bits });
            i = i + 1;
        }
        lists.push(list);
        bar = bar + 1;
    }
    lists
}

/// Walk one account under policy `B` and answer one struct per bar.
pub fn simulate<B: Bookkeeping>(inputs: &[Column], kwargs: &SimulateKwargs) -> (out: Result<
    Answer,
    SimulateError,
>)
    ensures
        out is Err <==> refusal(inputs@, *kwargs) is Some,
        out matches Err(error) ==> refusal(inputs@, *kwargs) == Some(error),
        out matches Ok(answer) ==> exists|inp: Inputs|
            #![trigger assembly::assembles(inp, inputs@, *kwargs)]
            assembly::assembles(inp, inputs@, *kwargs) && inp.valid() && answer.of::<B>(inp),
{
    let inp: Inputs = match assemble(inputs, kwargs) {
        Ok(inp) => inp,
        Err(error) => {
            return Err(error);
        },
    };
    let steps: usize = inp.steps();
    let axes: Vec<usize> = inp.plan.axes();
    proof {
        assert(crate::grid::ints(axes@)[3] == axes@[3]);
    }
    let width: usize = axes[3];
    if kwargs.positions && steps > 0 && width == 0 {
        return Err(SimulateError::NoNames);
    }
    let (reported, held, runs): (Grid, Grid, Vec<Vec<Fill>>) = run_all::<B>(&inp);
    let position: Option<Vec<Vec<Binary64>>> = if kwargs.positions {
        Some(take_positions::<B>(&held, steps, width, Ghost(inp)))
    } else {
        None
    };
    proof {
        assert(runs@[0]@ == driver::walked::<B>(inp, 0, inp.bars()).1.fills);
    }
    let fills: Option<FillColumns> = if kwargs.fills {
        Some(fill_columns(&runs[0], steps))
    } else {
        None
    };
    let answer: Answer = Answer {
        equity: take_series::<B>(&reported, EQUITY, steps, Ghost(inp)),
        cash: take_series::<B>(&reported, CASH, steps, Ghost(inp)),
        fees: take_series::<B>(&reported, FEES, steps, Ghost(inp)),
        bought: take_series::<B>(&reported, BOUGHT, steps, Ghost(inp)),
        sold: take_series::<B>(&reported, SOLD, steps, Ghost(inp)),
        position,
        fills,
    };
    proof {
        assert(assembly::assembles(inp, inputs@, *kwargs) && answer.of::<B>(inp));
    }
    Ok(answer)
}

/// Why a simulation is refused, if it is: its inputs are at fault, or
/// positions are asked for on bars that know no name.
pub open spec fn refusal(inputs: Seq<Column>, kwargs: SimulateKwargs) -> Option<SimulateError> {
    let fault = assembly::fault(inputs, kwargs);
    if fault is Some {
        fault
    } else if kwargs.positions && assembly::bars_of(inputs, kwargs) > 0 && assembly::names_of(
        inputs,
        kwargs,
    ) == 0 {
        Some(SimulateError::NoNames)
    } else {
        None
    }
}

}
