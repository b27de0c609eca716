//! Reading a frame's columns into the arrays the walk indexes.

use vstd::prelude::*;

use crate::binary64::Binary64;
use crate::decisions;
use crate::decisions::{check_firings, lay_decisions, number_rows, Decisions, Numbering};
use crate::driver;
use crate::frame::{lay_out, Column, Kind};
use crate::frame::{placeable, plane_cell};
use crate::grid;
use crate::grid::Grid;
use crate::inputs::{Inputs, REPORTED};
use crate::ledger;
use crate::plugin::{Firing, SimulateKwargs};
use crate::rulebook;
use crate::rulebook::{read_classes, read_days, read_epochs, read_flags, read_rates};

verus! {

/// A missing number is not a number.
pub open spec fn or_nan(value: Option<Binary64>) -> Binary64 {
    match value {
        Some(number) => number,
        None => Binary64::nan(),
    }
}

/// A missing weight is none.
pub open spec fn or_none(value: Option<Binary64>) -> Binary64 {
    match value {
        Some(number) => number,
        None => Binary64::zero(),
    }
}

/// A missing switch is off.
pub open spec fn or_off(value: Option<bool>) -> bool {
    match value {
        Some(on) => on,
        None => false,
    }
}

/// A missing code is the first one.
pub open spec fn or_first(value: Option<i32>) -> i32 {
    match value {
        Some(code) => code,
        None => 0,
    }
}

/// Whether a grid is the plane a column of doubles is read into.
pub open spec fn number_plane_of(plane: Grid, column: Column, steps: int, width: int) -> bool {
    &&& plane.shape() == seq![steps, width]
    &&& forall|b: int, i: int|
        0 <= b < steps && 0 <= i < width ==> #[trigger] plane.number2(b, i) == or_nan(
            plane_cell(column.numbers(), steps, width, b, i),
        )
}

/// Whether a grid is the plane a column of booleans is read into.
pub open spec fn switch_plane_of(plane: Grid, column: Column, steps: int, width: int) -> bool {
    &&& plane.shape() == seq![steps, width]
    &&& forall|b: int, i: int|
        0 <= b < steps && 0 <= i < width ==> #[trigger] plane.on2(b, i) == or_off(
            plane_cell(column.switches(), steps, width, b, i),
        )
}

/// Whether a grid is a plane with the same switch everywhere.
pub open spec fn even_plane(plane: Grid, on: bool, steps: int, width: int) -> bool {
    &&& plane.shape() == seq![steps, width]
    &&& forall|b: int, i: int|
        0 <= b < steps && 0 <= i < width ==> #[trigger] plane.on2(b, i) == on
}

/// A plane of two axes spans what can be counted.
pub(crate) proof fn lemma_plane(a: int, b: int)
    requires
        0 <= a,
        0 <= b,
        grid::storable(seq![a, b]),
    ensures
        a * b <= isize::MAX,
{
    let two: Seq<int> = seq![a, b];
    let one: Seq<int> = seq![a];
    assert(two.drop_last() =~= one);
    assert(one.drop_last() =~= Seq::<int>::empty());
    reveal_with_fuel(grid::extent, 3);
    let x: int = if a <= 1 { 1 } else { a };
    let y: int = if b <= 1 { x } else { x * b };
    assert(grid::extent(one) == x);
    assert(grid::extent(two) == y);
    assert(a * b <= y) by (nonlinear_arith)
        requires
            y == (if b <= 1 { x } else { x * b }),
            x >= a,
            x >= 1,
            0 <= a,
            0 <= b,
    ;
}

/// The words laid out row by row, as a plane.
fn plane_of_words(words: &Vec<u64>, steps: usize, width: usize) -> (plane: Grid)
    requires
        grid::storable(seq![steps as int, width as int]),
        words@.len() == steps * width,
    ensures
        plane.shape() == seq![steps as int, width as int],
        forall|b: int, i: int|
            0 <= b < steps && 0 <= i < width ==> plane.word(#[trigger] grid::pair(b, i))
                == words@[ledger::cell_of(width as int, b, i)],
{
    let shape: [usize; 2] = [steps, width];
    proof {
        assert(grid::ints(shape@) =~= seq![steps as int, width as int]);
        assert(words.len() == words@.len());
    }
    let mut plane: Grid = Grid::filled(&shape, 0);
    let mut b: usize = 0;
    while b < steps
        invariant
            b <= steps,
            words@.len() == steps * width,
            words@.len() <= usize::MAX,
            plane.shape() == seq![steps as int, width as int],
            forall|c: int, i: int|
                0 <= c < b && 0 <= i < width ==> plane.word(#[trigger] grid::pair(c, i))
                    == words@[ledger::cell_of(width as int, c, i)],
        decreases steps - b,
    {
        let mut i: usize = 0;
        while i < width
            invariant
                b < steps,
                i <= width,
                words@.len() == steps * width,
                words@.len() <= usize::MAX,
                plane.shape() == seq![steps as int, width as int],
                forall|c: int, j: int|
                    0 <= c < b && 0 <= j < width ==> plane.word(#[trigger] grid::pair(c, j))
                        == words@[ledger::cell_of(width as int, c, j)],
                forall|j: int|
                    0 <= j < i ==> plane.word(#[trigger] grid::pair(b as int, j))
                        == words@[ledger::cell_of(width as int, b as int, j)],
            decreases width - i,
        {
            proof {
                ledger::lemma_cell(steps as int, width as int, b as int, i as int);
            }
            let ghost before: Grid = plane;
            plane.put2(b, i, words[b * width + i]);
            proof {
                assert forall|c: int, j: int|
                    (0 <= c < b && 0 <= j < width) || (c == b && 0 <= j < i) implies plane.word(
                    #[trigger] grid::pair(c, j),
                ) == words@[ledger::cell_of(width as int, c, j)] by {
                    assert(grid::pair(c, j) != grid::pair(b as int, i as int)) by {
                        assert(grid::pair(c, j)[0] == c && grid::pair(c, j)[1] == j);
                        assert(grid::pair(b as int, i as int)[0] == b);
                        assert(grid::pair(b as int, i as int)[1] == i);
                    }
                    assert(before.word(grid::pair(c, j)) == words@[ledger::cell_of(
                        width as int,
                        c,
                        j,
                    )]);
                }
            }
            i = i + 1;
        }
        b = b + 1;
    }
    plane
}

/// Read a `(T, N)` column of doubles; `None` if it does not fit the plane.
pub(crate) fn number_plane(column: &Column, steps: usize, width: usize) -> (plane: Option<Grid>)
    requires
        grid::storable(seq![steps as int, width as int]),
    ensures
        plane is Some <==> placeable(column.numbers(), steps as int, width as int),
        plane matches Some(plane) ==> number_plane_of(
            plane,
            *column,
            steps as int,
            width as int,
        ),
{
    proof {
        lemma_plane(steps as int, width as int);
    }
    let none: Vec<Option<Vec<Option<Binary64>>>> = Vec::new();
    let rows: &Vec<Option<Vec<Option<Binary64>>>> = match column {
        Column::NumberLists(rows) => rows,
        _ => &none,
    };
    proof {
        assert(rows@ =~= column.numbers());
    }
    let cells: Vec<Option<Binary64>> = match lay_out(rows, steps, width) {
        Some(cells) => cells,
        None => {
            return None;
        },
    };
    let mut words: Vec<u64> = Vec::new();
    let mut c: usize = 0;
    while c < cells.len()
        invariant
            c <= cells@.len(),
            words@.len() == c,
            forall|k: int| 0 <= k < c ==> #[trigger] words@[k] == or_nan(cells@[k]).bits,
        decreases cells@.len() - c,
    {
        match cells[c] {
            Some(number) => words.push(number.bits),
            None => words.push(Binary64::nan().bits),
        }
        c = c + 1;
    }
    let plane: Grid = plane_of_words(&words, steps, width);
    proof {
        assert forall|b: int, i: int| 0 <= b < steps && 0 <= i < width implies #[trigger]
            plane.number2(b, i) == or_nan(
            plane_cell(column.numbers(), steps as int, width as int, b, i),
        ) by {
            ledger::lemma_cell(steps as int, width as int, b, i);
            assert(plane.word(grid::pair(b, i)) == words@[ledger::cell_of(width as int, b, i)]);
            assert(cells@[ledger::cell_of(width as int, b, i)] == plane_cell(
                rows@,
                steps as int,
                width as int,
                b,
                i,
            ));
        }
    }
    Some(plane)
}

/// Read a `(T, N)` column of booleans; `None` if it does not fit the plane.
pub(crate) fn switch_plane(column: &Column, steps: usize, width: usize) -> (plane: Option<Grid>)
    requires
        grid::storable(seq![steps as int, width as int]),
    ensures
        plane is Some <==> placeable(column.switches(), steps as int, width as int),
        plane matches Some(plane) ==> switch_plane_of(
            plane,
            *column,
            steps as int,
            width as int,
        ),
{
    proof {
        lemma_plane(steps as int, width as int);
    }
    let none: Vec<Option<Vec<Option<bool>>>> = Vec::new();
    let rows: &Vec<Option<Vec<Option<bool>>>> = match column {
        Column::SwitchLists(rows) => rows,
        _ => &none,
    };
    proof {
        assert(rows@ =~= column.switches());
    }
    let cells: Vec<Option<bool>> = match lay_out(rows, steps, width) {
        Some(cells) => cells,
        None => {
            return None;
        },
    };
    let mut words: Vec<u64> = Vec::new();
    let mut c: usize = 0;
    while c < cells.len()
        invariant
            c <= cells@.len(),
            words@.len() == c,
            forall|k: int|
                0 <= k < c ==> #[trigger] words@[k] == grid::word_of_switch(or_off(cells@[k])),
        decreases cells@.len() - c,
    {
        match cells[c] {
            Some(on) => words.push(
                if on {
                    1
                } else {
                    0
                },
            ),
            None => words.push(0),
        }
        c = c + 1;
    }
    let plane: Grid = plane_of_words(&words, steps, width);
    proof {
        assert forall|b: int, i: int| 0 <= b < steps && 0 <= i < width implies #[trigger] plane.on2(
            b,
            i,
        ) == or_off(plane_cell(column.switches(), steps as int, width as int, b, i)) by {
            ledger::lemma_cell(steps as int, width as int, b, i);
            assert(plane.word(grid::pair(b, i)) == words@[ledger::cell_of(width as int, b, i)]);
            assert(cells@[ledger::cell_of(width as int, b, i)] == plane_cell(
                rows@,
                steps as int,
                width as int,
                b,
                i,
            ));
        }
    }
    Some(plane)
}

/// Whether the columns named for a part fit: each fits the plane.
pub open spec fn switches_fit(
    inputs: Seq<Column>,
    which: Option<Vec<usize>>,
    steps: int,
    width: int,
) -> bool {
    which matches Some(which) ==> forall|p: int|
        0 <= p < which@.len() ==> placeable(
            inputs[#[trigger] which@[p] as int].switches(),
            steps,
            width,
        )
}

/// Whether a plane is read from each column named, or there is one plane per
/// price point, `default` everywhere, when the kwargs name none.
pub open spec fn switch_planes_of(
    stack: Seq<Grid>,
    inputs: Seq<Column>,
    which: Option<Vec<usize>>,
    default: bool,
    points: int,
    steps: int,
    width: int,
) -> bool {
    &&& stack.len() == match which {
        Some(which) => which@.len() as int,
        None => points,
    }
    &&& forall|p: int|
        0 <= p < stack.len() ==> match which {
            Some(which) => switch_plane_of(
                #[trigger] stack[p],
                inputs[which@[p] as int],
                steps,
                width,
            ),
            None => even_plane(stack[p], default, steps, width),
        }
}

/// One boolean plane per column named, or one per point, `default`
/// everywhere, when the kwargs name none; `None` if the columns do not fit.
pub(crate) fn boolean_planes(
    inputs: &[Column],
    which: &Option<Vec<usize>>,
    points: usize,
    steps: usize,
    width: usize,
    default: bool,
) -> (stack: Option<Vec<Grid>>)
    requires
        grid::storable(seq![steps as int, width as int]),
        which matches Some(which) ==> forall|p: int|
            0 <= p < which@.len() ==> #[trigger] which@[p] < inputs@.len(),
    ensures
        stack is Some <==> switches_fit(
            inputs@,
            *which,
            steps as int,
            width as int,
        ),
        stack matches Some(stack) ==> switch_planes_of(
            stack@,
            inputs@,
            *which,
            default,
            points as int,
            steps as int,
            width as int,
        ),
{
    let mut stack: Vec<Grid> = Vec::new();
    match which {
        Some(list) => {
            let mut p: usize = 0;
            while p < list.len()
                invariant
                    *which == Some(*list),
                    grid::storable(seq![steps as int, width as int]),
                    forall|q: int|
                        0 <= q < list@.len() ==> #[trigger] list@[q] < inputs@.len(),
                    p <= list@.len(),
                    stack@.len() == p,
                    forall|q: int|
                        0 <= q < stack@.len() ==> switch_plane_of(
                            #[trigger] stack@[q],
                            inputs@[list@[q] as int],
                            steps as int,
                            width as int,
                        ),
                    forall|q: int|
                        0 <= q < p ==> placeable(
                            inputs@[#[trigger] list@[q] as int].switches(),
                            steps as int,
                            width as int,
                        ),
                decreases list@.len() - p,
            {
                match switch_plane(&inputs[list[p]], steps, width) {
                    Some(plane) => {
                        stack.push(plane);
                    },
                    None => {
                        proof {
                            assert(!placeable(
                                inputs@[list@[p as int] as int].switches(),
                                steps as int,
                                width as int,
                            ));
                            assert((*which)->0@[p as int] == list@[p as int]);
                        }
                        return None;
                    },
                }
                p = p + 1;
            }
        },
        None => {
            let word: u64 = if default {
                1
            } else {
                0
            };
            let shape: [usize; 2] = [steps, width];
            proof {
                assert(grid::ints(shape@) =~= seq![steps as int, width as int]);
            }
            let mut p: usize = 0;
            while p < points
                invariant
                    grid::storable(grid::ints(shape@)),
                    grid::ints(shape@) == seq![steps as int, width as int],
                    word == grid::word_of_switch(default),
                    p <= points,
                    stack@.len() == p,
                    forall|q: int|
                        0 <= q < p ==> even_plane(
                            #[trigger] stack@[q],
                            default,
                            steps as int,
                            width as int,
                        ),
                decreases points - p,
            {
                let plane: Grid = Grid::filled(&shape, word);
                proof {
                    assert forall|b: int, i: int| 0 <= b < steps && 0 <= i < width implies
                        #[trigger] plane.on2(b, i) == default by {
                        assert(grid::inside(grid::ints(shape@), grid::pair(b, i)));
                    }
                }
                stack.push(plane);
                p = p + 1;
            }
        },
    }
    Some(stack)
}

/// Why a simulation is refused.
#[derive(Clone, Copy, Debug, PartialEq, Eq, Structural)]
pub enum SimulateError {
    /// The kwargs name so many price points and so many price columns.
    PricePoints { points: usize, columns: usize },
    /// An input is not the kind of column its part needs.
    Column { index: usize },
    /// The kwargs and the inputs do not fit together: a column, a tranche or
    /// a price point that does not exist, a row too long or a column too
    /// short, or more than memory can hold.
    Malformed,
    /// Positions are asked for and there is no name to hold.
    NoNames,
}

/// Each column named for a part, with what the part needs it to be.
pub open spec fn parts(which: Seq<usize>, kind: Kind) -> Seq<(usize, Kind)> {
    which.map_values(|index: usize| (index, kind))
}

/// The columns named for a part, if any are.
pub open spec fn named_parts(which: Option<Vec<usize>>, kind: Kind) -> Seq<(usize, Kind)> {
    match which {
        Some(which) => parts(which@, kind),
        None => Seq::empty(),
    }
}

/// What the firings need: of each its standing flags, if it names some, and
/// its plan.
pub open spec fn firing_parts(firings: Seq<Firing>) -> Seq<(usize, Kind)>
    decreases firings.len(),
{
    if firings.len() == 0 {
        Seq::empty()
    } else {
        let firing = firings.last();
        let rest = firing_parts(firings.drop_last());
        let flagged = match firing.standing {
            Some(index) => rest.push((index, Kind::Switches)),
            None => rest,
        };
        flagged.push((firing.plan, Kind::NumberRows))
    }
}

/// The columns a simulation reads, in the order in which it reads them, with
/// what each has to be.
pub open spec fn needs(kwargs: SimulateKwargs) -> Seq<(usize, Kind)> {
    let previous = match kwargs.previous {
        Some(index) => seq![(index, Kind::NumberPlane)],
        None => Seq::empty(),
    };
    seq![(kwargs.mark, Kind::NumberPlane)] + previous + parts(kwargs.prices@, Kind::NumberPlane)
        + named_parts(kwargs.buyable, Kind::SwitchPlane) + named_parts(
        kwargs.sellable,
        Kind::SwitchPlane,
    ) + named_parts(kwargs.impound, Kind::SwitchPlane) + kwargs.firings@.map_values(
        |firing: Firing| (firing.plan, Kind::Lists),
    ) + firing_parts(kwargs.firings@) + seq![
        (kwargs.instrument, Kind::CodeRows),
        (kwargs.epoch, Kind::Codes),
        (kwargs.new_day, Kind::Switches),
    ]
}

/// The first fault among the columns needed: one that does not exist, or one
/// that is not what it has to be.
pub open spec fn fault_in(inputs: Seq<Column>, needed: Seq<(usize, Kind)>) -> Option<SimulateError>
    decreases needed.len(),
{
    if needed.len() == 0 {
        None
    } else if needed[0].0 >= inputs.len() {
        Some(SimulateError::Malformed)
    } else if !inputs[needed[0].0 as int].meets(needed[0].1) {
        Some(SimulateError::Column { index: needed[0].0 })
    } else {
        fault_in(inputs, needed.drop_first())
    }
}

/// Where there is no fault, every column needed is there.
proof fn lemma_no_fault(inputs: Seq<Column>, needed: Seq<(usize, Kind)>, k: int)
    requires
        fault_in(inputs, needed) is None,
        0 <= k < needed.len(),
    ensures
        needed[k].0 < inputs.len(),
        inputs[needed[k].0 as int].meets(needed[k].1),
    decreases needed.len(),
{
    if k > 0 {
        lemma_no_fault(inputs, needed.drop_first(), k - 1);
        assert(needed.drop_first()[k - 1] == needed[k]);
    }
}

fn first_fault(inputs: &[Column], needed: &Vec<(usize, Kind)>) -> (fault: Option<SimulateError>)
    ensures
        fault == fault_in(inputs@, needed@),
{
    let mut k: usize = 0;
    proof {
        assert(needed@.skip(0) =~= needed@);
    }
    while k < needed.len()
        invariant
            k <= needed@.len(),
            fault_in(inputs@, needed@) == fault_in(inputs@, needed@.skip(k as int)),
        decreases needed@.len() - k,
    {
        proof {
            assert(needed@.skip(k as int).drop_first() =~= needed@.skip(k + 1));
        }
        let (index, kind): (usize, Kind) = needed[k];
        if index >= inputs.len() {
            return Some(SimulateError::Malformed);
        }
        if !inputs[index].is(kind) {
            return Some(SimulateError::Column { index });
        }
        k = k + 1;
    }
    None
}

fn push_parts(needed: &mut Vec<(usize, Kind)>, which: &Vec<usize>, kind: Kind)
    ensures
        final(needed)@ == old(needed)@ + parts(which@, kind),
{
    let ghost start: Seq<(usize, Kind)> = needed@;
    let mut k: usize = 0;
    proof {
        assert(start + parts(which@.take(0), kind) =~= start);
    }
    while k < which.len()
        invariant
            k <= which@.len(),
            needed@ == start + parts(which@.take(k as int), kind),
        decreases which@.len() - k,
    {
        needed.push((which[k], kind));
        k = k + 1;
        proof {
            assert(needed@ =~= start + parts(which@.take(k as int), kind));
        }
    }
    proof {
        assert(which@.take(k as int) =~= which@);
    }
}

fn push_named_parts(needed: &mut Vec<(usize, Kind)>, which: &Option<Vec<usize>>, kind: Kind)
    ensures
        final(needed)@ == old(needed)@ + named_parts(*which, kind),
{
    match which {
        Some(which) => push_parts(needed, which, kind),
        None => {
            proof {
                assert(needed@ + named_parts(*which, kind) =~= needed@);
            }
        },
    }
}

fn push_plans(needed: &mut Vec<(usize, Kind)>, firings: &Vec<Firing>)
    ensures
        final(needed)@ == old(needed)@ + firings@.map_values(
            |firing: Firing| (firing.plan, Kind::Lists),
        ),
{
    let ghost start: Seq<(usize, Kind)> = needed@;
    let ghost plan_of = |firing: Firing| (firing.plan, Kind::Lists);
    let mut f: usize = 0;
    proof {
        assert(start + firings@.take(0).map_values(plan_of) =~= start);
    }
    while f < firings.len()
        invariant
            f <= firings@.len(),
            plan_of == (|firing: Firing| (firing.plan, Kind::Lists)),
            needed@ == start + firings@.take(f as int).map_values(plan_of),
        decreases firings@.len() - f,
    {
        needed.push((firings[f].plan, Kind::Lists));
        f = f + 1;
        proof {
            assert(needed@ =~= start + firings@.take(f as int).map_values(plan_of));
        }
    }
    proof {
        assert(firings@.take(f as int) =~= firings@);
    }
}

fn push_firings(needed: &mut Vec<(usize, Kind)>, firings: &Vec<Firing>)
    ensures
        final(needed)@ == old(needed)@ + firing_parts(firings@),
{
    let ghost start: Seq<(usize, Kind)> = needed@;
    let mut f: usize = 0;
    proof {
        assert(start + firing_parts(firings@.take(0)) =~= start);
    }
    while f < firings.len()
        invariant
            f <= firings@.len(),
            needed@ == start + firing_parts(firings@.take(f as int)),
        decreases firings@.len() - f,
    {
        let firing: Firing = firings[f];
        proof {
            assert(firings@.take(f + 1).drop_last() =~= firings@.take(f as int));
        }
        match firing.standing {
            Some(index) => {
                needed.push((index, Kind::Switches));
            },
            None => {},
        }
        needed.push((firing.plan, Kind::NumberRows));
        f = f + 1;
        proof {
            assert(needed@ =~= start + firing_parts(firings@.take(f as int)));
        }
    }
    proof {
        assert(firings@.take(f as int) =~= firings@);
    }
}

fn list_needs(kwargs: &SimulateKwargs) -> (needed: Vec<(usize, Kind)>)
    ensures
        needed@ == needs(*kwargs),
{
    let mut needed: Vec<(usize, Kind)> = Vec::new();
    needed.push((kwargs.mark, Kind::NumberPlane));
    match kwargs.previous {
        Some(index) => {
            needed.push((index, Kind::NumberPlane));
        },
        None => {},
    }
    push_parts(&mut needed, &kwargs.prices, Kind::NumberPlane);
    push_named_parts(&mut needed, &kwargs.buyable, Kind::SwitchPlane);
    push_named_parts(&mut needed, &kwargs.sellable, Kind::SwitchPlane);
    push_named_parts(&mut needed, &kwargs.impound, Kind::SwitchPlane);
    push_plans(&mut needed, &kwargs.firings);
    push_firings(&mut needed, &kwargs.firings);
    needed.push((kwargs.instrument, Kind::CodeRows));
    needed.push((kwargs.epoch, Kind::Codes));
    needed.push((kwargs.new_day, Kind::Switches));
    proof {
        assert(needed@ =~= needs(*kwargs));
    }
    needed
}

/// The length of the first row that is there; zero, if none is.
pub open spec fn first_length(lengths: Seq<Option<int>>) -> int
    decreases lengths.len(),
{
    if lengths.len() == 0 {
        0
    } else {
        match lengths[0] {
            Some(length) => length,
            None => first_length(lengths.drop_first()),
        }
    }
}

/// How many bars a simulation walks: the marks' rows.
pub open spec fn bars_of(inputs: Seq<Column>, kwargs: SimulateKwargs) -> int {
    inputs[kwargs.mark as int].lengths()->0.len() as int
}

/// How many names it knows: those of the first row of marks that is there.
pub open spec fn names_of(inputs: Seq<Column>, kwargs: SimulateKwargs) -> int {
    first_length(inputs[kwargs.mark as int].lengths()->0)
}

fn width_of(lengths: &Vec<Option<usize>>, Ghost(all): Ghost<Seq<Option<int>>>) -> (width: usize)
    requires
        lengths@.len() == all.len(),
        forall|b: int|
            0 <= b < lengths@.len() ==> match (#[trigger] lengths@[b]) {
                Some(length) => all[b] == Some(length as int),
                None => all[b] is None,
            },
    ensures
        width == first_length(all),
{
    let mut b: usize = 0;
    proof {
        assert(all.skip(0) =~= all);
    }
    while b < lengths.len()
        invariant
            b <= lengths@.len(),
            lengths@.len() == all.len(),
            forall|c: int|
                0 <= c < lengths@.len() ==> match (#[trigger] lengths@[c]) {
                    Some(length) => all[c] == Some(length as int),
                    None => all[c] is None,
                },
            first_length(all) == first_length(all.skip(b as int)),
        decreases lengths@.len() - b,
    {
        proof {
            assert(all.skip(b as int).drop_first() =~= all.skip(b + 1));
            assert(all.skip(b as int)[0] == all[b as int]);
        }
        match lengths[b] {
            Some(length) => {
                return length;
            },
            None => {},
        }
        b = b + 1;
    }
    0
}

/// Whether the columns of doubles fit their planes.
pub open spec fn numbers_fit(inputs: Seq<Column>, kwargs: SimulateKwargs) -> bool {
    let (steps, width) = (bars_of(inputs, kwargs), names_of(inputs, kwargs));
    &&& placeable(inputs[kwargs.mark as int].numbers(), steps, width)
    &&& kwargs.previous matches Some(index) ==> placeable(
        inputs[index as int].numbers(),
        steps,
        width,
    )
    &&& forall|p: int|
        0 <= p < kwargs.prices@.len() ==> placeable(
            inputs[#[trigger] kwargs.prices@[p] as int].numbers(),
            steps,
            width,
        )
}

/// Whether the rulebook's rows fit its arrays, and the class codes, the epochs
/// and the days fit theirs.
pub open spec fn rules_fit(inputs: Seq<Column>, kwargs: SimulateKwargs) -> bool {
    let (steps, width) = (bars_of(inputs, kwargs), names_of(inputs, kwargs));
    let epochs = rulebook::epochs_said(kwargs.rates@);
    let classes = rulebook::classes_said(kwargs.flags@);
    let codes = rulebook::codes_of(inputs[kwargs.epoch as int]);
    &&& rulebook::rates_fit(kwargs.rates@, epochs, classes)
    &&& rulebook::flags_fit(kwargs.flags@, classes)
    &&& rulebook::first_row(inputs[kwargs.instrument as int].codes()).len() <= width
    &&& codes.len() >= steps
    &&& decisions::flags_of(inputs[kwargs.new_day as int]).len() >= steps
}

/// Whether memory can hold every array.
pub open spec fn arrays_fit(inputs: Seq<Column>, kwargs: SimulateKwargs) -> bool {
    let (steps, width) = (bars_of(inputs, kwargs), names_of(inputs, kwargs));
    let (tranches, points) = (kwargs.tranches as int, kwargs.points as int);
    let epochs = rulebook::epochs_said(kwargs.rates@);
    let classes = rulebook::classes_said(kwargs.flags@);
    let deepest = decisions::depth(inputs, kwargs.firings@, steps, tranches);
    &&& tranches * width <= usize::MAX
    &&& deepest <= decisions::MOST_ROWS
    &&& grid::storable(seq![1, tranches, deepest, width])
    &&& grid::storable(seq![1, tranches, steps, points])
    &&& grid::storable(seq![steps, width])
    &&& grid::storable(seq![steps])
    &&& grid::storable(seq![width])
    &&& grid::storable(seq![kwargs.rates@.len() as int, epochs, classes])
    &&& grid::storable(seq![kwargs.flags@.len() as int, classes])
    &&& grid::storable(seq![REPORTED as int, 1, steps])
    &&& kwargs.positions ==> grid::storable(seq![1, steps, width])
}

/// Whether the kwargs and the inputs fit together.
pub open spec fn posed(inputs: Seq<Column>, kwargs: SimulateKwargs) -> bool {
    let (steps, width) = (bars_of(inputs, kwargs), names_of(inputs, kwargs));
    let (tranches, points) = (kwargs.tranches as int, kwargs.points as int);
    &&& steps > 0 ==> points > 0
    &&& numbers_fit(inputs, kwargs)
    &&& switches_fit(inputs, kwargs.buyable, steps, width)
    &&& switches_fit(inputs, kwargs.sellable, steps, width)
    &&& switches_fit(inputs, kwargs.impound, steps, width)
    &&& decisions::firings_fit(inputs, kwargs.firings@, tranches, points, steps, width)
    &&& rules_fit(inputs, kwargs)
    &&& arrays_fit(inputs, kwargs)
}

/// Why these inputs are refused, if they are: the marks are no lists, the
/// price points and the price columns do not match, a column is not what
/// its part needs, or the parts do not fit together.
pub open spec fn fault(inputs: Seq<Column>, kwargs: SimulateKwargs) -> Option<SimulateError> {
    let marks = fault_in(inputs, seq![(kwargs.mark, Kind::Lists)]);
    let rest = fault_in(inputs, needs(kwargs));
    if marks is Some {
        marks
    } else if kwargs.prices@.len() != kwargs.points {
        Some(
            SimulateError::PricePoints {
                points: kwargs.points,
                columns: kwargs.prices@.len() as usize,
            },
        )
    } else if rest is Some {
        rest
    } else if !posed(inputs, kwargs) {
        Some(SimulateError::Malformed)
    } else {
        None
    }
}

/// Whether these are the arrays the columns and the kwargs say.
pub open spec fn assembles(inp: Inputs, inputs: Seq<Column>, kwargs: SimulateKwargs) -> bool {
    let (steps, width) = (bars_of(inputs, kwargs), names_of(inputs, kwargs));
    let (tranches, points) = (kwargs.tranches as int, kwargs.points as int);
    let epochs = rulebook::epochs_said(kwargs.rates@);
    let classes = rulebook::classes_said(kwargs.flags@);
    &&& decisions::plan_of(inp.plan, inputs, kwargs.firings@, tranches, steps, width)
    &&& decisions::table_of(inp.at, inputs, kwargs.firings@, tranches, steps, points)
    &&& decisions::standing_of(inp.standing, inputs, kwargs.firings@, tranches, steps, points)
    &&& inp.prices@.len() == points
    &&& forall|p: int|
        0 <= p < points ==> number_plane_of(
            #[trigger] inp.prices@[p],
            inputs[kwargs.prices@[p] as int],
            steps,
            width,
        )
    &&& number_plane_of(inp.mark, inputs[kwargs.mark as int], steps, width)
    &&& inp.has_previous == kwargs.previous is Some
    &&& kwargs.previous matches Some(index) ==> number_plane_of(
        inp.previous,
        inputs[index as int],
        steps,
        width,
    )
    &&& switch_planes_of(inp.buyable@, inputs, kwargs.buyable, true, points, steps, width)
    &&& switch_planes_of(inp.sellable@, inputs, kwargs.sellable, true, points, steps, width)
    &&& switch_planes_of(inp.impound@, inputs, kwargs.impound, false, points, steps, width)
    &&& rulebook::days_of(inp.new_day, inputs[kwargs.new_day as int], steps)
    &&& rulebook::epochs_of(inp.epoch, inputs[kwargs.epoch as int], steps)
    &&& rulebook::classes_of(inp.instrument, inputs[kwargs.instrument as int], width)
    &&& rulebook::rates_of(inp.rates, kwargs.rates@, epochs, classes)
    &&& rulebook::flag_table_of(inp.flags, kwargs.flags@, classes)
    &&& inp.capital == kwargs.capital
    &&& inp.buffer == kwargs.buffer
    &&& inp.audit == kwargs.audit
    &&& inp.record_positions == kwargs.positions
    &&& inp.record_fills == kwargs.fills
}

/// A fault of either part is a fault of the whole.
proof fn lemma_fault_split(
    inputs: Seq<Column>,
    first: Seq<(usize, Kind)>,
    second: Seq<(usize, Kind)>,
)
    requires
        fault_in(inputs, first + second) is None,
    ensures
        fault_in(inputs, first) is None,
        fault_in(inputs, second) is None,
    decreases first.len(),
{
    if first.len() == 0 {
        assert(first + second =~= second);
    } else {
        assert((first + second).drop_first() =~= first.drop_first() + second);
        lemma_fault_split(inputs, first.drop_first(), second);
    }
}

/// Where nothing of the firings is at fault, their columns are there.
proof fn lemma_firing_parts(inputs: Seq<Column>, firings: Seq<Firing>)
    requires
        fault_in(inputs, firing_parts(firings)) is None,
    ensures
        decisions::firings_named(inputs, firings),
    decreases firings.len(),
{
    if firings.len() > 0 {
        let firing: Firing = firings.last();
        let rest: Seq<(usize, Kind)> = firing_parts(firings.drop_last());
        let all: Seq<(usize, Kind)> = firing_parts(firings);
        let tail: Seq<(usize, Kind)> = all.skip(rest.len() as int);
        assert(all =~= rest + tail);
        lemma_fault_split(inputs, rest, tail);
        lemma_firing_parts(inputs, firings.drop_last());
        lemma_no_fault(inputs, all, all.len() - 1);
        if firing.standing is Some {
            lemma_no_fault(inputs, all, all.len() - 2);
        }
        assert forall|f: int| 0 <= f < firings.len() implies {
            &&& (#[trigger] firings[f]).plan < inputs.len()
            &&& firings[f].standing matches Some(index) ==> index < inputs.len()
        } by {
            if f < firings.len() - 1 {
                assert(firings.drop_last()[f] == firings[f]);
            }
        }
    }
}

/// Whether every column named for a part is there.
pub open spec fn there(inputs: Seq<Column>, which: Seq<usize>) -> bool {
    forall|p: int| 0 <= p < which.len() ==> #[trigger] which[p] < inputs.len()
}

proof fn lemma_parts(inputs: Seq<Column>, which: Seq<usize>, kind: Kind)
    requires
        fault_in(inputs, parts(which, kind)) is None,
    ensures
        there(inputs, which),
{
    assert forall|p: int| 0 <= p < which.len() implies #[trigger] which[p] < inputs.len() by {
        lemma_no_fault(inputs, parts(which, kind), p);
    }
}

/// Where nothing needed is at fault, every column named is there.
proof fn lemma_needs(inputs: Seq<Column>, kwargs: SimulateKwargs)
    requires
        fault_in(inputs, needs(kwargs)) is None,
    ensures
        kwargs.mark < inputs.len(),
        kwargs.previous matches Some(index) ==> index < inputs.len(),
        there(inputs, kwargs.prices@),
        kwargs.buyable matches Some(which) ==> there(inputs, which@),
        kwargs.sellable matches Some(which) ==> there(inputs, which@),
        kwargs.impound matches Some(which) ==> there(inputs, which@),
        decisions::firings_named(inputs, kwargs.firings@),
        kwargs.instrument < inputs.len(),
        kwargs.epoch < inputs.len(),
        kwargs.new_day < inputs.len(),
{
    let marks: Seq<(usize, Kind)> = seq![(kwargs.mark, Kind::NumberPlane)];
    let previous: Seq<(usize, Kind)> = match kwargs.previous {
        Some(index) => seq![(index, Kind::NumberPlane)],
        None => Seq::empty(),
    };
    let prices: Seq<(usize, Kind)> = parts(kwargs.prices@, Kind::NumberPlane);
    let buyable: Seq<(usize, Kind)> = named_parts(kwargs.buyable, Kind::SwitchPlane);
    let sellable: Seq<(usize, Kind)> = named_parts(kwargs.sellable, Kind::SwitchPlane);
    let impound: Seq<(usize, Kind)> = named_parts(kwargs.impound, Kind::SwitchPlane);
    let plans: Seq<(usize, Kind)> = kwargs.firings@.map_values(
        |firing: Firing| (firing.plan, Kind::Lists),
    );
    let fired: Seq<(usize, Kind)> = firing_parts(kwargs.firings@);
    let rules: Seq<(usize, Kind)> = seq![
        (kwargs.instrument, Kind::CodeRows),
        (kwargs.epoch, Kind::Codes),
        (kwargs.new_day, Kind::Switches),
    ];
    let g: Seq<(usize, Kind)> = marks + previous + prices + buyable + sellable + impound + plans
        + fired;
    assert(needs(kwargs) =~= g + rules);
    lemma_fault_split(inputs, g, rules);
    lemma_no_fault(inputs, rules, 0);
    lemma_no_fault(inputs, rules, 1);
    lemma_no_fault(inputs, rules, 2);
    let f: Seq<(usize, Kind)> = marks + previous + prices + buyable + sellable + impound + plans;
    lemma_fault_split(inputs, f, fired);
    lemma_firing_parts(inputs, kwargs.firings@);
    let e: Seq<(usize, Kind)> = marks + previous + prices + buyable + sellable + impound;
    lemma_fault_split(inputs, e, plans);
    let d: Seq<(usize, Kind)> = marks + previous + prices + buyable + sellable;
    lemma_fault_split(inputs, d, impound);
    let c: Seq<(usize, Kind)> = marks + previous + prices + buyable;
    lemma_fault_split(inputs, c, sellable);
    let b: Seq<(usize, Kind)> = marks + previous + prices;
    lemma_fault_split(inputs, b, buyable);
    let a: Seq<(usize, Kind)> = marks + previous;
    lemma_fault_split(inputs, a, prices);
    lemma_fault_split(inputs, marks, previous);
    lemma_no_fault(inputs, marks, 0);
    if kwargs.previous is Some {
        lemma_no_fault(inputs, previous, 0);
    }
    lemma_parts(inputs, kwargs.prices@, Kind::NumberPlane);
    if kwargs.buyable is Some {
        lemma_parts(inputs, kwargs.buyable->0@, Kind::SwitchPlane);
    }
    if kwargs.sellable is Some {
        lemma_parts(inputs, kwargs.sellable->0@, Kind::SwitchPlane);
    }
    if kwargs.impound is Some {
        lemma_parts(inputs, kwargs.impound->0@, Kind::SwitchPlane);
    }
}

/// Where nothing needed is at fault, the epochs are codes and the days are
/// booleans.
pub(crate) proof fn lemma_served(inputs: Seq<Column>, kwargs: SimulateKwargs)
    requires
        fault_in(inputs, needs(kwargs)) is None,
    ensures
        inputs[kwargs.epoch as int] is Codes,
        inputs[kwargs.new_day as int] is Switches,
{
    let needed: Seq<(usize, Kind)> = needs(kwargs);
    lemma_no_fault(inputs, needed, needed.len() - 2);
    lemma_no_fault(inputs, needed, needed.len() - 1);
}

/// One plane of doubles per price point; `None` if a column does not fit.
fn price_planes(
    inputs: &[Column],
    which: &Vec<usize>,
    steps: usize,
    width: usize,
) -> (stack: Option<Vec<Grid>>)
    requires
        grid::storable(seq![steps as int, width as int]),
        there(inputs@, which@),
    ensures
        stack is Some <==> forall|p: int|
            0 <= p < which@.len() ==> placeable(
                inputs@[#[trigger] which@[p] as int].numbers(),
                steps as int,
                width as int,
            ),
        stack matches Some(stack) ==> {
            &&& stack@.len() == which@.len()
            &&& forall|p: int|
                0 <= p < which@.len() ==> number_plane_of(
                    #[trigger] stack@[p],
                    inputs@[which@[p] as int],
                    steps as int,
                    width as int,
                )
        },
{
    let mut stack: Vec<Grid> = Vec::new();
    let mut p: usize = 0;
    while p < which.len()
        invariant
            grid::storable(seq![steps as int, width as int]),
            there(inputs@, which@),
            p <= which@.len(),
            stack@.len() == p,
            forall|q: int|
                0 <= q < p ==> number_plane_of(
                    #[trigger] stack@[q],
                    inputs@[which@[q] as int],
                    steps as int,
                    width as int,
                ),
            forall|q: int|
                0 <= q < p ==> placeable(
                    inputs@[#[trigger] which@[q] as int].numbers(),
                    steps as int,
                    width as int,
                ),
        decreases which@.len() - p,
    {
        proof {
            assert(which@[p as int] < inputs@.len());
        }
        match number_plane(&inputs[which[p]], steps, width) {
            Some(plane) => {
                stack.push(plane);
            },
            None => {
                proof {
                    assert(!placeable(
                        inputs@[which@[p as int] as int].numbers(),
                        steps as int,
                        width as int,
                    ));
                }
                return None;
            },
        }
        p = p + 1;
    }
    Some(stack)
}

/// Whether an array can be laid out in memory.
fn holds2(a: usize, b: usize) -> (fits: bool)
    ensures
        fits == grid::storable(seq![a as int, b as int]),
{
    let shape: [usize; 2] = [a, b];
    proof {
        assert(grid::ints(shape@) =~= seq![a as int, b as int]);
    }
    grid::can_store(&shape)
}

/// Whether an array can be laid out in memory.
fn holds3(a: usize, b: usize, c: usize) -> (fits: bool)
    ensures
        fits == grid::storable(seq![a as int, b as int, c as int]),
{
    let shape: [usize; 3] = [a, b, c];
    proof {
        assert(grid::ints(shape@) =~= seq![a as int, b as int, c as int]);
    }
    grid::can_store(&shape)
}

/// A row a tranche decides by is one of the plan's.
proof fn lemma_decided_row(
    inputs: Seq<Column>,
    firings: Seq<Firing>,
    shape: (int, int, int, int),
    t: int,
    b: int,
    p: int,
    n: int,
)
    requires
        0 <= n <= firings.len(),
        0 <= t < shape.0,
        decisions::firings_fit(inputs, firings, shape.0, shape.1, shape.2, shape.3),
    ensures
        decisions::decided_row(inputs, firings, t, b, p, n) < decisions::depth(
            inputs,
            firings,
            shape.2,
            shape.0,
        ),
    decreases n,
{
    decisions::lemma_depth(inputs, firings, shape.2, t, shape.0);
    decisions::lemma_depth_positive(inputs, firings, shape.2, shape.0);
    if n > 0 {
        if firings[n - 1].tranche == t && decisions::fires(inputs, firings[n - 1], b) {
            assert(decisions::firing_fits(
                inputs,
                firings[n - 1],
                b,
                shape.0,
                shape.1,
                shape.2,
                shape.3,
            ));
            decisions::lemma_row_number(inputs, firings, n - 1, b, shape.2);
        }
        lemma_decided_row(inputs, firings, shape, t, b, p, n - 1);
    }
}

/// What is assembled of inputs that fit together is valid, and its answer
/// fits memory.
#[verifier::spinoff_prover]
proof fn lemma_assembled(inp: Inputs, inputs: Seq<Column>, kwargs: SimulateKwargs)
    requires
        assembles(inp, inputs, kwargs),
        posed(inputs, kwargs),
        kwargs.prices@.len() == kwargs.points,
        0 <= bars_of(inputs, kwargs) <= usize::MAX,
        0 <= names_of(inputs, kwargs) <= usize::MAX,
    ensures
        inp.valid(),
        driver::answerable(inp),
        inp.runs() == 1,
        inp.bars() == bars_of(inputs, kwargs),
        inp.assets() == names_of(inputs, kwargs),
{
    let (steps, width) = (bars_of(inputs, kwargs), names_of(inputs, kwargs));
    let (tranches, points) = (kwargs.tranches as int, kwargs.points as int);
    let shape: (int, int, int, int) = (tranches, points, steps, width);
    let firings: Seq<Firing> = kwargs.firings@;
    decisions::lemma_depth_positive(inputs, firings, steps, tranches);
    assert(inp.plan.shape()[0] == 1 && inp.plan.shape()[1] == tranches);
    assert(inp.plan.shape()[3] == width);
    assert(inp.mark.shape()[0] == steps);
    assert forall|run: int, k: int, b: int, p: int|
        0 <= run < inp.runs() && 0 <= k < inp.tranches() && 0 <= b < steps && 0 <= p
            < points implies #[trigger] inp.firing(run, k, b, p) < inp.decisions() by {
        assert(inp.at.code(grid::quad(0, k, b, p)) == decisions::decided_row(
            inputs,
            firings,
            k,
            b,
            p,
            firings.len() as int,
        ));
        lemma_decided_row(inputs, firings, shape, k, b, p, firings.len() as int);
    }
}

/// The rulebook's arrays.
struct Rules {
    instrument: Grid,
    epoch: Grid,
    new_day: Grid,
    rates: Grid,
    flags: Grid,
}

/// Read the market's rules; `None` if they do not fit together.
fn read_rules(
    inputs: &[Column],
    kwargs: &SimulateKwargs,
    steps: usize,
    width: usize,
) -> (rules: Option<Rules>)
    requires
        kwargs.instrument < inputs@.len(),
        kwargs.epoch < inputs@.len(),
        kwargs.new_day < inputs@.len(),
        steps == bars_of(inputs@, *kwargs),
        width == names_of(inputs@, *kwargs),
    ensures
        rules is Some <==> {
            let epochs = rulebook::epochs_said(kwargs.rates@);
            let classes = rulebook::classes_said(kwargs.flags@);
            &&& rules_fit(inputs@, *kwargs)
            &&& grid::storable(seq![steps as int])
            &&& grid::storable(seq![width as int])
            &&& grid::storable(seq![kwargs.rates@.len() as int, epochs, classes])
            &&& grid::storable(seq![kwargs.flags@.len() as int, classes])
        },
        rules matches Some(rules) ==> {
            let epochs = rulebook::epochs_said(kwargs.rates@);
            let classes = rulebook::classes_said(kwargs.flags@);
            &&& rulebook::days_of(
                rules.new_day,
                inputs@[kwargs.new_day as int],
                steps as int,
            )
            &&& rulebook::epochs_of(rules.epoch, inputs@[kwargs.epoch as int], steps as int)
            &&& rulebook::classes_of(
                rules.instrument,
                inputs@[kwargs.instrument as int],
                width as int,
            )
            &&& rulebook::rates_of(rules.rates, kwargs.rates@, epochs, classes)
            &&& rulebook::flag_table_of(rules.flags, kwargs.flags@, classes)
        },
{
    let epochs: usize = if kwargs.rates.len() > 0 {
        kwargs.rates[0].len()
    } else {
        0
    };
    let classes: usize = if kwargs.flags.len() > 0 {
        kwargs.flags[0].len()
    } else {
        0
    };
    let rates: Grid = match read_rates(&kwargs.rates, epochs, classes) {
        Some(rates) => rates,
        None => {
            return None;
        },
    };
    let flags: Grid = match read_flags(&kwargs.flags, classes) {
        Some(flags) => flags,
        None => {
            return None;
        },
    };
    let instrument: Grid = match read_classes(&inputs[kwargs.instrument], width) {
        Some(instrument) => instrument,
        None => {
            return None;
        },
    };
    let epoch: Grid = match read_epochs(&inputs[kwargs.epoch], steps) {
        Some(epoch) => epoch,
        None => {
            return None;
        },
    };
    let new_day: Grid = match read_days(&inputs[kwargs.new_day], steps) {
        Some(new_day) => new_day,
        None => {
            return None;
        },
    };
    Some(Rules { instrument, epoch, new_day, rates, flags })
}

/// Read the columns into the arrays the walk indexes.
#[verifier::spinoff_prover]
pub fn assemble(inputs: &[Column], kwargs: &SimulateKwargs) -> (out: Result<Inputs, SimulateError>)
    ensures
        out matches Err(error) ==> fault(inputs@, *kwargs) == Some(error),
        out matches Ok(inp) ==> {
            &&& fault(inputs@, *kwargs) is None
            &&& assembles(inp, inputs@, *kwargs)
            &&& inp.valid()
            &&& driver::answerable(inp)
            &&& inp.runs() == 1
            &&& inp.bars() == bars_of(inputs@, *kwargs)
            &&& inp.assets() == names_of(inputs@, *kwargs)
        },
{
    let ghost marks: Seq<(usize, Kind)> = seq![(kwargs.mark, Kind::Lists)];
    proof {
        assert(marks.drop_first() =~= Seq::<(usize, Kind)>::empty());
        reveal_with_fuel(fault_in, 2);
        assert(marks[0] == (kwargs.mark, Kind::Lists));
    }
    if kwargs.mark >= inputs.len() {
        return Err(SimulateError::Malformed);
    }
    let lengths: Vec<Option<usize>> = match inputs[kwargs.mark].row_lengths() {
        Some(lengths) => lengths,
        None => {
            return Err(SimulateError::Column { index: kwargs.mark });
        },
    };
    let steps: usize = lengths.len();
    let width: usize = width_of(&lengths, Ghost(inputs@[kwargs.mark as int].lengths()->0));
    let points: usize = kwargs.points;
    let tranches: usize = kwargs.tranches;
    if kwargs.prices.len() != points {
        return Err(SimulateError::PricePoints { points, columns: kwargs.prices.len() });
    }
    match first_fault(inputs, &list_needs(kwargs)) {
        Some(error) => {
            return Err(error);
        },
        None => {},
    }
    proof {
        lemma_needs(inputs@, *kwargs);
    }
    let malformed: Result<Inputs, SimulateError> = Err(SimulateError::Malformed);
    if steps > 0 && points == 0 {
        return malformed;
    }
    if !holds2(steps, width) || !holds3(REPORTED, 1, steps) || (kwargs.positions && !holds3(
        1,
        steps,
        width,
    )) {
        return malformed;
    }
    proof {
        assert(width > 0 && tranches > usize::MAX / width ==> tranches * width > usize::MAX)
            by (nonlinear_arith);
        assert(width > 0 && tranches <= usize::MAX / width ==> tranches * width <= usize::MAX)
            by (nonlinear_arith);
        assert(tranches * 0 == 0);
    }
    if width > 0 && tranches > usize::MAX / width {
        return malformed;
    }
    let mark: Grid = match number_plane(&inputs[kwargs.mark], steps, width) {
        Some(plane) => plane,
        None => {
            return malformed;
        },
    };
    let zeros: [usize; 2] = [steps, width];
    proof {
        assert(grid::ints(zeros@) =~= seq![steps as int, width as int]);
    }
    let previous: Grid = match kwargs.previous {
        Some(index) => match number_plane(&inputs[index], steps, width) {
            Some(plane) => plane,
            None => {
                return malformed;
            },
        },
        None => Grid::filled(&zeros, 0),
    };
    let prices: Vec<Grid> = match price_planes(inputs, &kwargs.prices, steps, width) {
        Some(stack) => stack,
        None => {
            return malformed;
        },
    };
    let buyable: Vec<Grid> = match boolean_planes(
        inputs,
        &kwargs.buyable,
        points,
        steps,
        width,
        true,
    ) {
        Some(stack) => stack,
        None => {
            return malformed;
        },
    };
    let sellable: Vec<Grid> = match boolean_planes(
        inputs,
        &kwargs.sellable,
        points,
        steps,
        width,
        true,
    ) {
        Some(stack) => stack,
        None => {
            return malformed;
        },
    };
    let impound: Vec<Grid> = match boolean_planes(
        inputs,
        &kwargs.impound,
        points,
        steps,
        width,
        false,
    ) {
        Some(stack) => stack,
        None => {
            return malformed;
        },
    };
    if !check_firings(inputs, &kwargs.firings, tranches, points, steps, width) {
        return malformed;
    }
    proof {
        assert forall|f: int, b: int|
            0 <= f < kwargs.firings@.len() && #[trigger] decisions::fires(
                inputs@,
                kwargs.firings@[f],
                b,
            ) implies kwargs.firings@[f].tranche < tranches && b < steps by {
            assert(decisions::firing_fits(
                inputs@,
                kwargs.firings@[f],
                b,
                tranches as int,
                points as int,
                steps as int,
                width as int,
            ));
        }
    }
    let numbering: Numbering = match number_rows(inputs, &kwargs.firings, tranches, steps) {
        Some(numbering) => numbering,
        None => {
            return malformed;
        },
    };
    let laid: Decisions = match lay_decisions(
        inputs,
        &kwargs.firings,
        tranches,
        points,
        steps,
        width,
        &numbering,
    ) {
        Some(laid) => laid,
        None => {
            return malformed;
        },
    };
    let rules: Rules = match read_rules(inputs, kwargs, steps, width) {
        Some(rules) => rules,
        None => {
            return malformed;
        },
    };
    let inp: Inputs = Inputs {
        plan: laid.plan,
        at: laid.at,
        standing: laid.standing,
        prices,
        mark,
        impound,
        previous,
        has_previous: kwargs.previous.is_some(),
        new_day: rules.new_day,
        buyable,
        sellable,
        instrument: rules.instrument,
        epoch: rules.epoch,
        rates: rules.rates,
        flags: rules.flags,
        capital: kwargs.capital,
        buffer: kwargs.buffer,
        audit: kwargs.audit,
        record_positions: kwargs.positions,
        record_fills: kwargs.fills,
    };
    proof {
        assert(posed(inputs@, *kwargs));
        assert(assembles(inp, inputs@, *kwargs));
        lemma_assembled(inp, inputs@, *kwargs);
    }
    Ok(inp)
}

}
