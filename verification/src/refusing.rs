//! What is refused, and why.
//!
//! Which columns a part of the simulation takes, in which order they are
//! looked at, which fault is told, and that whatever is in order is answered.

use vstd::prelude::*;

use crate::assembly;
use crate::assembly::SimulateError;
use crate::binary64::Binary64;
use crate::decisions;
use crate::frame;
use crate::frame::{Column, Kind};
use crate::grid;
use crate::plugin;
use crate::plugin::{Cells, Firing, SimulateKwargs};
use crate::rulebook;

verus! {

/// Which columns serve for what: lists of any type where lists are asked
/// for; of the type asked for where doubles, booleans or codes are, or of any
/// type if every row is missing, and, where a column is read as a whole, if
/// there is a row to be missing; and booleans and codes only as themselves.
pub proof fn law_what_a_column_serves_for(column: Column)
    ensures
        ({
            let lists = column is NumberLists || column is SwitchLists || column is CodeLists
                || column is OtherLists;
            let missing = match column {
                Column::NumberLists(rows) => forall|b: int|
                    0 <= b < rows@.len() ==> #[trigger] rows@[b] is None,
                Column::SwitchLists(rows) => forall|b: int|
                    0 <= b < rows@.len() ==> #[trigger] rows@[b] is None,
                Column::CodeLists(rows) => forall|b: int|
                    0 <= b < rows@.len() ==> #[trigger] rows@[b] is None,
                Column::OtherLists(rows) => forall|b: int|
                    0 <= b < rows@.len() ==> #[trigger] rows@[b] is None,
                _ => false,
            };
            let any = match column {
                Column::NumberLists(rows) => rows@.len() > 0,
                Column::SwitchLists(rows) => rows@.len() > 0,
                Column::CodeLists(rows) => rows@.len() > 0,
                Column::OtherLists(rows) => rows@.len() > 0,
                _ => false,
            };
            &&& column.meets(Kind::Lists) <==> lists
            &&& column.meets(Kind::NumberPlane) <==> column is NumberLists || missing && any
            &&& column.meets(Kind::SwitchPlane) <==> column is SwitchLists || missing && any
            &&& column.meets(Kind::NumberRows) <==> column is NumberLists || missing
            &&& column.meets(Kind::CodeRows) <==> column is CodeLists || missing
            &&& column.meets(Kind::Switches) <==> column is Switches
            &&& column.meets(Kind::Codes) <==> column is Codes
        }),
{
    match column {
        Column::NumberLists(rows) => {
            let lengths: Seq<Option<int>> = column.lengths()->0;
            assert(forall|b: int|
                0 <= b < rows@.len() ==> (#[trigger] lengths[b] is None <==> rows@[b] is None));
            assert(column.blank() <==> forall|b: int|
                0 <= b < rows@.len() ==> #[trigger] rows@[b] is None) by {
                if column.blank() {
                    assert forall|b: int| 0 <= b < rows@.len() implies #[trigger]
                        rows@[b] is None by {
                        assert(lengths[b] is None);
                    }
                }
            }
        },
        Column::SwitchLists(rows) => {
            let lengths: Seq<Option<int>> = column.lengths()->0;
            assert(column.blank() <==> forall|b: int|
                0 <= b < rows@.len() ==> #[trigger] rows@[b] is None) by {
                if column.blank() {
                    assert forall|b: int| 0 <= b < rows@.len() implies #[trigger]
                        rows@[b] is None by {
                        assert(lengths[b] is None);
                    }
                }
            }
        },
        Column::CodeLists(rows) => {
            let lengths: Seq<Option<int>> = column.lengths()->0;
            assert(column.blank() <==> forall|b: int|
                0 <= b < rows@.len() ==> #[trigger] rows@[b] is None) by {
                if column.blank() {
                    assert forall|b: int| 0 <= b < rows@.len() implies #[trigger]
                        rows@[b] is None by {
                        assert(lengths[b] is None);
                    }
                }
            }
        },
        Column::OtherLists(rows) => {
            let lengths: Seq<Option<int>> = column.lengths()->0;
            assert(column.blank() <==> forall|b: int|
                0 <= b < rows@.len() ==> #[trigger] rows@[b] is None) by {
                if column.blank() {
                    assert forall|b: int| 0 <= b < rows@.len() implies #[trigger]
                        rows@[b] is None by {
                        assert(lengths[b] is None);
                    }
                }
            }
        },
        _ => {},
    }
}

/// The first fault is the one that is told: of the columns a part needs, in
/// the order they are needed, the first that is not there makes the request
/// malformed, and the first that does not serve is named.
pub proof fn law_the_first_fault_is_told(inputs: Seq<Column>, needed: Seq<(usize, Kind)>, k: int)
    requires
        0 <= k <= needed.len(),
        forall|j: int|
            0 <= j < k ==> (#[trigger] needed[j]).0 < inputs.len() && inputs[needed[j].0 as int].meets(
                needed[j].1,
            ),
        k < needed.len() ==> needed[k].0 >= inputs.len() || !inputs[needed[k].0 as int].meets(
            needed[k].1,
        ),
    ensures
        assembly::fault_in(inputs, needed) == if k == needed.len() {
            None
        } else if needed[k].0 >= inputs.len() {
            Some(SimulateError::Malformed)
        } else {
            Some(SimulateError::Column { index: needed[k].0 })
        },
    decreases needed.len(),
{
    if k > 0 {
        let rest: Seq<(usize, Kind)> = needed.drop_first();
        assert(needed[0].0 < inputs.len());
        assert forall|j: int| 0 <= j < k - 1 implies (#[trigger] rest[j]).0 < inputs.len()
            && inputs[rest[j].0 as int].meets(rest[j].1) by {
            assert(rest[j] == needed[j + 1]);
        }
        if k < needed.len() {
            assert(rest[k - 1] == needed[k]);
        }
        law_the_first_fault_is_told(inputs, rest, k - 1);
    }
}

/// How many columns the kwargs name for a part that can be left out.
pub open spec fn count(which: Option<Vec<usize>>) -> int {
    match which {
        Some(which) => which@.len() as int,
        None => 0,
    }
}

/// Which columns a simulation looks at, one after another: the marks, the
/// reference closes if it has some, the prices, who can be bought, who can be
/// sold and who is impounded as far as it says, every plan as lists, what the
/// firings need, the class codes, the epochs and the days, and no others.
pub proof fn law_what_a_simulation_looks_at(kwargs: SimulateKwargs, k: int)
    requires
        0 <= k,
    ensures
        ({
            let needed = assembly::needs(kwargs);
            let prices = if kwargs.previous is Some {
                2int
            } else {
                1
            };
            let buyable = prices + kwargs.prices@.len();
            let sellable = buyable + count(kwargs.buyable);
            let impound = sellable + count(kwargs.sellable);
            let plans = impound + count(kwargs.impound);
            let fired = plans + kwargs.firings@.len();
            let parts = assembly::firing_parts(kwargs.firings@);
            let rules = fired + parts.len();
            &&& needed.len() == rules + 3
            &&& needed[0] == (kwargs.mark, Kind::NumberPlane)
            &&& kwargs.previous matches Some(index) ==> needed[1] == (index, Kind::NumberPlane)
            &&& k < kwargs.prices@.len() ==> needed[prices + k] == (
                kwargs.prices@[k],
                Kind::NumberPlane,
            )
            &&& k < count(kwargs.buyable) ==> needed[buyable + k] == (
                kwargs.buyable->0@[k],
                Kind::SwitchPlane,
            )
            &&& k < count(kwargs.sellable) ==> needed[sellable + k] == (
                kwargs.sellable->0@[k],
                Kind::SwitchPlane,
            )
            &&& k < count(kwargs.impound) ==> needed[impound + k] == (
                kwargs.impound->0@[k],
                Kind::SwitchPlane,
            )
            &&& k < kwargs.firings@.len() ==> needed[plans + k] == (
                kwargs.firings@[k].plan,
                Kind::Lists,
            )
            &&& k < parts.len() ==> needed[fired + k] == parts[k]
            &&& needed[rules] == (kwargs.instrument, Kind::CodeRows)
            &&& needed[rules + 1] == (kwargs.epoch, Kind::Codes)
            &&& needed[rules + 2] == (kwargs.new_day, Kind::Switches)
        }),
{
}

/// What one more firing needs: after what the others need its standing flags,
/// if it names a column of them, and then its plan, row by row.
pub proof fn law_what_a_firing_needs(firings: Seq<Firing>, firing: Firing)
    ensures
        assembly::firing_parts(Seq::empty()) == Seq::<(usize, Kind)>::empty(),
        assembly::firing_parts(firings.push(firing)) == assembly::firing_parts(firings) + (
        match firing.standing {
            Some(index) => seq![(index, Kind::Switches), (firing.plan, Kind::NumberRows)],
            None => seq![(firing.plan, Kind::NumberRows)],
        }),
{
    assert(firings.push(firing).drop_last() =~= firings);
}

proof fn lemma_joined_known<T>(rows: Seq<Option<Vec<Option<T>>>>)
    requires
        forall|b: int| 0 <= b < rows.len() ==> #[trigger] rows[b] is Some,
    ensures
        (forall|k: int|
            0 <= k < frame::joined(rows).len() ==> #[trigger] frame::joined(rows)[k] is Some)
            <==> forall|b: int, i: int|
            0 <= b < rows.len() && 0 <= i < rows[b]->0@.len() ==> #[trigger] rows[b]->0@[i] is Some,
    decreases rows.len(),
{
    if rows.len() > 0 {
        let front: Seq<Option<Vec<Option<T>>>> = rows.drop_last();
        let last: int = rows.len() - 1;
        assert(rows[last] is Some);
        assert forall|b: int| 0 <= b < front.len() implies #[trigger] front[b] is Some by {
            assert(rows[b] is Some);
        }
        lemma_joined_known(front);
        let all: Seq<Option<T>> = frame::joined(rows);
        let part: Seq<Option<T>> = frame::joined(front);
        let list: Seq<Option<T>> = rows[last]->0@;
        assert(all == part + list);
        if forall|k: int| 0 <= k < all.len() ==> #[trigger] all[k] is Some {
            assert forall|k: int| 0 <= k < part.len() implies #[trigger] part[k] is Some by {
                assert(all[k] is Some);
            }
            assert forall|b: int, i: int|
                0 <= b < rows.len() && 0 <= i < rows[b]->0@.len() implies #[trigger]
                rows[b]->0@[i] is Some by {
                if b < last {
                    assert(front[b]->0@[i] is Some);
                } else {
                    assert(all[part.len() + i] is Some);
                }
            }
        }
        if forall|b: int, i: int|
            0 <= b < rows.len() && 0 <= i < rows[b]->0@.len() ==> #[trigger]
                rows[b]->0@[i] is Some {
            assert forall|b: int, i: int|
                0 <= b < front.len() && 0 <= i < front[b]->0@.len() implies #[trigger]
                front[b]->0@[i] is Some by {
                assert(rows[b]->0@[i] is Some);
            }
            assert forall|k: int| 0 <= k < all.len() implies #[trigger] all[k] is Some by {
                if k < part.len() {
                    assert(part[k] is Some);
                } else {
                    assert(rows[last]->0@[k - part.len()] is Some);
                }
            }
        }
    }
}

/// When rows can be read into a plane: if each that has a value has a bar of
/// its own and is no wider than the plane, or else if nothing is missing and
/// there are just as many values as cells; and not otherwise.
pub proof fn law_when_rows_fit_a_plane<T>(
    rows: Seq<Option<Vec<Option<T>>>>,
    steps: int,
    width: int,
)
    ensures
        ({
            let apart = forall|b: int|
                0 <= b < rows.len() && (#[trigger] rows[b]) is Some && rows[b]->0@.len() > 0 ==> b
                    < steps && rows[b]->0@.len() <= width;
            let full = {
                &&& forall|b: int| 0 <= b < rows.len() ==> #[trigger] rows[b] is Some
                &&& forall|b: int, i: int|
                    0 <= b < rows.len() && 0 <= i < rows[b]->0@.len() ==> #[trigger]
                        rows[b]->0@[i] is Some
                &&& frame::joined(rows).len() == steps * width
            };
            frame::placeable(rows, steps, width) <==> apart || full
        }),
{
    if forall|b: int| 0 <= b < rows.len() ==> #[trigger] rows[b] is Some {
        lemma_joined_known(rows);
    }
}

/// How many values there are: none of no rows, and of one row more as many
/// more as that row has, if it is there.
pub proof fn law_how_many_values_rows_have<T>(
    rows: Seq<Option<Vec<Option<T>>>>,
    row: Option<Vec<Option<T>>>,
)
    ensures
        frame::joined(Seq::<Option<Vec<Option<T>>>>::empty()).len() == 0,
        frame::joined(rows.push(row)).len() == frame::joined(rows).len() + match row {
            Some(list) => list@.len(),
            None => 0,
        },
{
    assert(rows.push(row).drop_last() =~= rows);
}

/// What the marks measure, whether the simulation is refused or not: a bar
/// for every row, and the names of the first row that is there.
pub proof fn law_what_the_marks_measure(
    inputs: Seq<Column>,
    kwargs: SimulateKwargs,
    rows: Vec<Option<Vec<Option<Binary64>>>>,
    b: int,
)
    requires
        inputs[kwargs.mark as int] == Column::NumberLists(rows),
        0 <= b <= rows@.len(),
        forall|c: int| 0 <= c < b ==> #[trigger] rows@[c] is None,
        b < rows@.len() ==> rows@[b] is Some,
    ensures
        assembly::bars_of(inputs, kwargs) == rows@.len(),
        assembly::names_of(inputs, kwargs) == if b < rows@.len() {
            rows@[b]->0@.len() as int
        } else {
            0
        },
{
    let lengths: Seq<Option<int>> = inputs[kwargs.mark as int].lengths()->0;
    assert forall|c: int| 0 <= c < b implies #[trigger] lengths[c] is None by {
        assert(rows@[c] is None);
    }
    crate::reading::lemma_first_length(lengths, b);
}

/// When the firings fit: every row of every one of them then has a place. Its
/// tranche and its price point are the account's, its bar is one of the walk,
/// it has no more weights than there are names, and its bar has a flag if it
/// names a column of them. Where the firings do not fit, some row has none.
pub proof fn law_when_the_firings_fit(
    inputs: Seq<Column>,
    firings: Seq<Firing>,
    tranches: int,
    points: int,
    steps: int,
    width: int,
    f: int,
    b: int,
) -> (at: (int, int))
    ensures
        ({
            let placed = |f: int, b: int|
                match inputs[firings[f].plan as int] {
                    Column::NumberLists(rows) => 0 <= b < rows@.len() && rows@[b] is Some ==> {
                        &&& firings[f].tranche < tranches
                        &&& firings[f].point < points
                        &&& b < steps
                        &&& rows@[b]->0@.len() <= width
                        &&& firings[f].standing matches Some(index) ==> (
                        inputs[index as int] matches Column::Switches(flags) && b < flags@.len())
                    },
                    _ => true,
                };
            let fit = decisions::firings_fit(inputs, firings, tranches, points, steps, width);
            &&& fit && 0 <= f < firings.len() ==> placed(f, b)
            &&& !fit ==> 0 <= at.0 < firings.len() && !placed(at.0, at.1)
        }),
{
    if decisions::firings_fit(inputs, firings, tranches, points, steps, width) {
        if 0 <= f < firings.len() && decisions::fires(inputs, firings[f], b) {
            assert(decisions::firing_fits(
                inputs,
                firings[f],
                b,
                tranches,
                points,
                steps,
                width,
            ));
        }
        (f, b)
    } else {
        let at: (int, int) = choose|g: int, c: int|
            0 <= g < firings.len() && #[trigger] decisions::fires(inputs, firings[g], c)
                && !decisions::firing_fits(
                inputs,
                firings[g],
                c,
                tranches,
                points,
                steps,
                width,
            );
        at
    }
}

/// How many rows a tranche's plan has: on each bar more as many as there are
/// firings of the tranche whose plan column has a row there; and the plans
/// are as deep as the tranche with the most rows, and at least one row.
pub proof fn law_how_deep_the_plans_are(
    inputs: Seq<Column>,
    firings: Seq<Firing>,
    t: int,
    b: int,
    n: int,
    steps: int,
    tranches: int,
)
    requires
        0 <= b,
        0 <= n < firings.len(),
        0 <= tranches,
    ensures
        decisions::rows_before(inputs, firings, t, 0) == 0,
        decisions::rows_before(inputs, firings, t, b + 1) == decisions::rows_before(
            inputs,
            firings,
            t,
            b,
        ) + decisions::in_bar(inputs, firings, t, b, firings.len() as int),
        decisions::in_bar(inputs, firings, t, b, 0) == 0,
        decisions::in_bar(inputs, firings, t, b, n + 1) == decisions::in_bar(
            inputs,
            firings,
            t,
            b,
            n,
        ) + if firings[n].tranche == t && (
        inputs[firings[n].plan as int] matches Column::NumberLists(rows) && b < rows@.len()
            && rows@[b] is Some) {
            1int
        } else {
            0
        },
        ({
            let depth = decisions::depth(inputs, firings, steps, tranches);
            &&& 1 <= depth
            &&& 0 <= t < tranches ==> decisions::rows_before(inputs, firings, t, steps) <= depth
            &&& depth == 1 || exists|u: int|
                0 <= u < tranches && depth == #[trigger] decisions::rows_before(
                    inputs,
                    firings,
                    u,
                    steps,
                )
        }),
{
    decisions::lemma_depth_positive(inputs, firings, steps, tranches);
    if 0 <= t < tranches {
        decisions::lemma_depth(inputs, firings, steps, t, tranches);
    }
    lemma_depth_is_some_rows(inputs, firings, steps, tranches);
}

proof fn lemma_depth_is_some_rows(inputs: Seq<Column>, firings: Seq<Firing>, steps: int, n: int)
    requires
        0 <= n,
    ensures
        decisions::depth(inputs, firings, steps, n) == 1 || exists|u: int|
            0 <= u < n && decisions::depth(inputs, firings, steps, n)
                == #[trigger] decisions::rows_before(inputs, firings, u, steps),
    decreases n,
{
    if n > 0 {
        lemma_depth_is_some_rows(inputs, firings, steps, n - 1);
        let rest: int = decisions::depth(inputs, firings, steps, n - 1);
        if rest < decisions::rows_before(inputs, firings, n - 1, steps) {
            assert(decisions::depth(inputs, firings, steps, n) == decisions::rows_before(
                inputs,
                firings,
                n - 1,
                steps,
            ));
        } else if rest != 1 {
            let u: int = choose|u: int|
                0 <= u < n - 1 && rest == #[trigger] decisions::rows_before(
                    inputs,
                    firings,
                    u,
                    steps,
                );
            assert(decisions::depth(inputs, firings, steps, n) == decisions::rows_before(
                inputs,
                firings,
                u,
                steps,
            ));
        }
    }
}

/// An axis, counted as one where it is empty.
pub open spec fn span(axis: int) -> int {
    if axis <= 1 {
        1
    } else {
        axis
    }
}

/// What memory can hold: an array whose axes, the empty ones counted as one,
/// span words that come to no more bytes than an address reaches.
pub proof fn law_what_memory_holds(a: int, b: int, c: int, d: int)
    ensures
        grid::storable(seq![a]) <==> span(a) * 8 <= isize::MAX,
        grid::storable(seq![a, b]) <==> span(a) * span(b) * 8 <= isize::MAX,
        grid::storable(seq![a, b, c]) <==> span(a) * span(b) * span(c) * 8 <= isize::MAX,
        grid::storable(seq![a, b, c, d]) <==> span(a) * span(b) * span(c) * span(d) * 8
            <= isize::MAX,
{
    reveal_with_fuel(grid::extent, 5);
    let one: Seq<int> = seq![a];
    let two: Seq<int> = seq![a, b];
    let three: Seq<int> = seq![a, b, c];
    let four: Seq<int> = seq![a, b, c, d];
    assert(one.drop_last() =~= Seq::<int>::empty());
    assert(two.drop_last() =~= one);
    assert(three.drop_last() =~= two);
    assert(four.drop_last() =~= three);
    assert(grid::extent(one) == span(a));
    assert(grid::extent(two) == span(a) * span(b));
    assert(grid::extent(three) == span(a) * span(b) * span(c));
    assert(grid::extent(four) == span(a) * span(b) * span(c) * span(d));
}

/// What a simulation is refused for, one thing after another: marks that are
/// not there or no lists; price points that are not as many as the price
/// columns; the first of the columns it looks at that is at fault; parts that
/// do not go together; and positions of no names on some bars. Whatever none
/// of these holds of is answered. The parts go together if there is a price
/// point where there is a bar, every plane's rows fit, every firing's rows
/// have a place, the rulebook says nothing of epochs or classes it does not
/// have, no more names have a class than there are, every bar has an epoch
/// and a day, and memory holds every array.
pub proof fn law_what_a_simulation_is_refused_for(inputs: Seq<Column>, kwargs: SimulateKwargs)
    ensures
        ({
            let refusal = plugin::refusal(inputs, kwargs);
            let marks = kwargs.mark < inputs.len() && inputs[kwargs.mark as int].meets(Kind::Lists);
            let matched = kwargs.prices@.len() == kwargs.points;
            let fault = assembly::fault_in(inputs, assembly::needs(kwargs));
            let steps = assembly::bars_of(inputs, kwargs);
            let width = assembly::names_of(inputs, kwargs);
            let (tranches, points) = (kwargs.tranches as int, kwargs.points as int);
            let epochs = if kwargs.rates@.len() > 0 {
                kwargs.rates@[0]@.len() as int
            } else {
                0
            };
            let classes = if kwargs.flags@.len() > 0 {
                kwargs.flags@[0]@.len() as int
            } else {
                0
            };
            let depth = decisions::depth(inputs, kwargs.firings@, steps, tranches);
            let together = {
                &&& steps == 0 || points > 0
                &&& frame::placeable(inputs[kwargs.mark as int].numbers(), steps, width)
                &&& kwargs.previous is Some ==> frame::placeable(
                    inputs[kwargs.previous->0 as int].numbers(),
                    steps,
                    width,
                )
                &&& forall|p: int|
                    0 <= p < kwargs.prices@.len() ==> frame::placeable(
                        inputs[#[trigger] kwargs.prices@[p] as int].numbers(),
                        steps,
                        width,
                    )
                &&& forall|p: int|
                    0 <= p < count(kwargs.buyable) ==> frame::placeable(
                        inputs[#[trigger] kwargs.buyable->0@[p] as int].switches(),
                        steps,
                        width,
                    )
                &&& forall|p: int|
                    0 <= p < count(kwargs.sellable) ==> frame::placeable(
                        inputs[#[trigger] kwargs.sellable->0@[p] as int].switches(),
                        steps,
                        width,
                    )
                &&& forall|p: int|
                    0 <= p < count(kwargs.impound) ==> frame::placeable(
                        inputs[#[trigger] kwargs.impound->0@[p] as int].switches(),
                        steps,
                        width,
                    )
                &&& decisions::firings_fit(inputs, kwargs.firings@, tranches, points, steps, width)
                &&& forall|row: int, epoch: int|
                    0 <= row < kwargs.rates@.len() && 0 <= epoch < kwargs.rates@[row]@.len()
                        && (#[trigger] kwargs.rates@[row]@[epoch])@.len() > 0 ==> epoch < epochs
                        && kwargs.rates@[row]@[epoch]@.len() <= classes
                &&& forall|row: int|
                    0 <= row < kwargs.flags@.len() ==> (#[trigger] kwargs.flags@[row])@.len() <= classes
                &&& rulebook::first_row(inputs[kwargs.instrument as int].codes()).len() <= width
                &&& steps <= inputs[kwargs.epoch as int]->Codes_0@.len()
                &&& steps <= inputs[kwargs.new_day as int]->Switches_0@.len()
                &&& tranches * width <= usize::MAX
                &&& depth <= 0x7fff_ffff
                &&& grid::storable(seq![1, tranches, depth, width])
                &&& grid::storable(seq![1, tranches, steps, points])
                &&& grid::storable(seq![steps, width])
                &&& grid::storable(seq![steps])
                &&& grid::storable(seq![width])
                &&& grid::storable(seq![kwargs.rates@.len() as int, epochs, classes])
                &&& grid::storable(seq![kwargs.flags@.len() as int, classes])
                &&& grid::storable(seq![5, 1, steps])
                &&& kwargs.positions ==> grid::storable(seq![1, steps, width])
            };
            let nameless = kwargs.positions && steps > 0 && width == 0;
            &&& kwargs.mark >= inputs.len() ==> refusal == Some(SimulateError::Malformed)
            &&& kwargs.mark < inputs.len() && !marks ==> refusal == Some(
                SimulateError::Column { index: kwargs.mark },
            )
            &&& marks && !matched ==> refusal == Some(
                SimulateError::PricePoints {
                    points: kwargs.points,
                    columns: kwargs.prices@.len() as usize,
                },
            )
            &&& marks && matched && fault is Some ==> refusal == fault
            &&& marks && matched && fault is None && !together ==> refusal == Some(
                SimulateError::Malformed,
            )
            &&& marks && matched && fault is None && together && nameless ==> refusal == Some(
                SimulateError::NoNames,
            )
            &&& marks && matched && fault is None && together && !nameless ==> refusal is None
        }),
{
    let marks: Seq<(usize, Kind)> = seq![(kwargs.mark, Kind::Lists)];
    assert(marks.drop_first() =~= Seq::<(usize, Kind)>::empty());
    reveal_with_fuel(assembly::fault_in, 2);
    assert(marks[0] == (kwargs.mark, Kind::Lists));
    if assembly::fault_in(inputs, assembly::needs(kwargs)) is None {
        assembly::lemma_served(inputs, kwargs);
    }
}

/// What the answer's columns are called and hold: the five series, then the
/// positions if they are asked for, then what the fills are if those are.
pub proof fn law_what_the_answers_columns_are(positions: bool, fills: bool)
    ensures
        ({
            let columns = plugin::output_columns(positions, fills);
            let first = if positions {
                6int
            } else {
                5
            };
            &&& columns.len() == if fills {
                first + 6
            } else {
                first
            }
            &&& columns[0] == ("equity"@, Cells::Number)
            &&& columns[1] == ("cash"@, Cells::Number)
            &&& columns[2] == ("fees"@, Cells::Number)
            &&& columns[3] == ("bought"@, Cells::Number)
            &&& columns[4] == ("sold"@, Cells::Number)
            &&& positions ==> columns[5] == ("position"@, Cells::Numbers)
            &&& fills ==> {
                &&& columns[first] == ("fill_tranche"@, Cells::Codes)
                &&& columns[first + 1] == ("fill_asset"@, Cells::Codes)
                &&& columns[first + 2] == ("fill_point"@, Cells::Codes)
                &&& columns[first + 3] == ("fill_units"@, Cells::Numbers)
                &&& columns[first + 4] == ("fill_price"@, Cells::Numbers)
                &&& columns[first + 5] == ("fill_fee"@, Cells::Numbers)
            }
        }),
{
}

}
