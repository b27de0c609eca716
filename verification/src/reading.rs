//! What the walk reads of a frame.
//!
//! Every number, code and switch of the columns, and every rate and flag of
//! the rulebook, is read at its own name, bar, class and epoch, and a
//! decision at the bar and the price point it fires at.

use vstd::prelude::*;

use crate::assembly;
use crate::assembly::assembles;
use crate::binary64::Binary64;
use crate::decisions;
use crate::driver;
use crate::frame;
use crate::frame::Column;
use crate::grid;
use crate::inputs::Inputs;
use crate::inputs::{
    BUY_FEE, FIXED_FEE, LOT, MIN_FEE, MIN_LOT, MIN_NOTIONAL, MULTIPLIER, SAME_BAR, SELL_FEE, SHORTABLE,
};
use crate::plugin::SimulateKwargs;
use crate::rulebook;

verus! {

proof fn lemma_first_row(rows: Seq<Option<Vec<Option<i32>>>>, b: int)
    requires
        0 <= b <= rows.len(),
        forall|c: int| 0 <= c < b ==> #[trigger] rows[c] is None,
        b < rows.len() ==> rows[b] is Some,
    ensures
        rulebook::first_row(rows) == if b < rows.len() {
            rows[b]->0@
        } else {
            Seq::<Option<i32>>::empty()
        },
    decreases rows.len(),
{
    if rows.len() > 0 && b > 0 {
        assert(rows[0] is None);
        let rest: Seq<Option<Vec<Option<i32>>>> = rows.drop_first();
        assert forall|c: int| 0 <= c < b - 1 implies #[trigger] rest[c] is None by {
            assert(rows[c + 1] is None);
        }
        lemma_first_row(rest, b - 1);
    }
}

/// A name's class is its own code: that of the name's place in the first row
/// of the instrument column that is there, and the first class where that row
/// has none for it, or no row is there.
pub proof fn law_a_names_class_is_its_own_code(
    inp: Inputs,
    inputs: Seq<Column>,
    kwargs: SimulateKwargs,
    rows: Vec<Option<Vec<Option<i32>>>>,
    b: int,
    i: int,
)
    requires
        assembles(inp, inputs, kwargs),
        inputs[kwargs.instrument as int] == Column::CodeLists(rows),
        0 <= b <= rows@.len(),
        forall|c: int| 0 <= c < b ==> #[trigger] rows@[c] is None,
        b < rows@.len() ==> rows@[b] is Some,
        0 <= i < inp.instrument.shape()[0],
    ensures
        ({
            let there = b < rows@.len() && i < rows@[b]->0@.len() && rows@[b]->0@[i] is Some;
            let code = if there {
                rows@[b]->0@[i]->0
            } else {
                0i32
            };
            &&& inp.instrument.code(seq![i]) == code
            &&& 0 <= code ==> inp.category(i) == code
        }),
{
    lemma_first_row(rows@, b);
    assert(inp.instrument.code(grid::single(i)) == rulebook::class_code(
        inputs[kwargs.instrument as int],
        i,
    ));
}

/// A rate is the rulebook's own: under every row, epoch and class the kwargs
/// give a number for, the walk reads that very number; zero where they give
/// none of an epoch and a class they have, and no number beyond those.
pub proof fn law_a_rate_is_the_rulebooks_own(
    inp: Inputs,
    inputs: Seq<Column>,
    kwargs: SimulateKwargs,
    row: int,
    epoch: int,
    class: int,
)
    requires
        assembles(inp, inputs, kwargs),
        0 <= row,
        0 <= epoch,
        0 <= class,
    ensures
        ({
            let rates = kwargs.rates@;
            let known = row < rates.len() && epoch < rates[0]@.len() && kwargs.flags@.len() > 0
                && class < kwargs.flags@[0]@.len();
            let given = epoch < rates[row]@.len() && class < rates[row]@[epoch]@.len();
            &&& known && given ==> inp.rated(row, epoch, class) == rates[row]@[epoch]@[class]
            &&& known && !given ==> inp.rated(row, epoch, class) == Binary64 { bits: 0 }
            &&& !known ==> inp.rated(row, epoch, class).is_nan()
        }),
{
    let place: Seq<int> = seq![row, epoch, class];
    let shape: Seq<int> = inp.rates.shape();
    assert(place[0] == row && place[1] == epoch && place[2] == class);
    if grid::inside(shape, place) {
        assert(place[0] < shape[0] && place[1] < shape[1] && place[2] < shape[2]);
        assert(inp.rates.number3(row, epoch, class) == rulebook::rate_said(
            kwargs.rates@,
            row,
            epoch,
            class,
        ));
    }
}

/// A flag is the rulebook's own: under every row and class the kwargs give a
/// flag for, the walk reads that very flag; off where they give none.
pub proof fn law_a_flag_is_the_rulebooks_own(
    inp: Inputs,
    inputs: Seq<Column>,
    kwargs: SimulateKwargs,
    row: int,
    class: int,
)
    requires
        assembles(inp, inputs, kwargs),
        0 <= row,
        0 <= class,
    ensures
        ({
            let flags = kwargs.flags@;
            let given = row < flags.len() && class < flags[0]@.len() && class < flags[row]@.len();
            inp.flagged(row, class) == (given && flags[row]@[class])
        }),
{
    let place: Seq<int> = seq![row, class];
    let shape: Seq<int> = inp.flags.shape();
    assert(place[0] == row && place[1] == class);
    if grid::inside(shape, place) {
        assert(place[0] < shape[0] && place[1] < shape[1]);
        assert(inp.flags.on2(row, class) == rulebook::flag_said(kwargs.flags@, row, class));
    }
}

/// What a name is charged, rounded and traded by is what the rulebook says of
/// its class under the epoch: two names of two classes, and two epochs, are
/// read apart.
pub proof fn law_a_names_rate_is_its_classes(
    inp: Inputs,
    inputs: Seq<Column>,
    kwargs: SimulateKwargs,
    row: usize,
    epoch: int,
    i: int,
)
    requires
        assembles(inp, inputs, kwargs),
        0 <= epoch,
        inp.instrument.code(seq![i]) >= 0,
        ({
            let class = inp.instrument.code(seq![i]) as int;
            &&& row < kwargs.rates@.len()
            &&& epoch < kwargs.rates@[0]@.len()
            &&& kwargs.flags@.len() > 0
            &&& class < kwargs.flags@[0]@.len()
            &&& epoch < kwargs.rates@[row as int]@.len()
            &&& class < kwargs.rates@[row as int]@[epoch]@.len()
        }),
    ensures
        inp.rate_of(row, epoch, i) == kwargs.rates@[row as int]@[epoch]@[inp.instrument.code(
            seq![i],
        ) as int],
{
    law_a_rate_is_the_rulebooks_own(
        inp,
        inputs,
        kwargs,
        row as int,
        epoch,
        inp.instrument.code(seq![i]) as int,
    );
}

/// What a word of an array reads as: as a number the double of those bits, as
/// a switch whether any bit is set, and as a code what was put there as one.
pub proof fn law_what_a_word_reads_as(array: grid::Grid, place: Seq<int>, code: i32)
    ensures
        array.number(place).bits == array.word(place),
        array.on(place) <==> array.word(place) != 0,
        array.word(place) == code as u32 as u64 ==> array.code(place) == code,
{
    grid::lemma_code_round_trip(code);
}

/// Which row of the rulebook says what: of the rates the first the lot, the
/// second the least lot, the third the least notional, the fourth the
/// multiplier, the fifth and the sixth what a buy and a sale are charged, the
/// seventh the fixed fee and the eighth the least; of the flags the first who
/// may be short, the second who may be sold on the bar of the buy.
pub proof fn law_which_row_says_what(inp: Inputs, epoch: int, i: int)
    ensures
        ({
            let class = inp.category(i);
            &&& inp.rate_of(LOT, epoch, i) == inp.rated(0, epoch, class)
            &&& inp.rate_of(MIN_LOT, epoch, i) == inp.rated(1, epoch, class)
            &&& inp.rate_of(MIN_NOTIONAL, epoch, i) == inp.rated(2, epoch, class)
            &&& inp.rate_of(MULTIPLIER, epoch, i) == inp.rated(3, epoch, class)
            &&& inp.rate_of(BUY_FEE, epoch, i) == inp.rated(4, epoch, class)
            &&& inp.rate_of(SELL_FEE, epoch, i) == inp.rated(5, epoch, class)
            &&& inp.rate_of(FIXED_FEE, epoch, i) == inp.rated(6, epoch, class)
            &&& inp.rate_of(MIN_FEE, epoch, i) == inp.rated(7, epoch, class)
            &&& inp.flag_of(SHORTABLE, i) == inp.flagged(0, class)
            &&& inp.flag_of(SAME_BAR, i) == inp.flagged(1, class)
        }),
{
}

/// A bar's rule epoch and whether it opens a day are its own rows', the first
/// epoch and no where they are missing, and every price point of the bar is
/// walked under that epoch.
pub proof fn law_a_bar_is_read_at_its_own_row(
    inp: Inputs,
    inputs: Seq<Column>,
    kwargs: SimulateKwargs,
    epochs: Vec<Option<i32>>,
    days: Vec<Option<bool>>,
    bar: int,
)
    requires
        assembles(inp, inputs, kwargs),
        inputs[kwargs.epoch as int] == Column::Codes(epochs),
        inputs[kwargs.new_day as int] == Column::Switches(days),
        0 <= bar < inp.epoch.shape()[0],
    ensures
        ({
            let epoch = if epochs@[bar] is Some {
                epochs@[bar]->0
            } else {
                0i32
            };
            &&& inp.epoch.code(seq![bar]) == epoch
            &&& 0 <= epoch ==> forall|phase: int|
                (#[trigger] driver::point_of(inp, bar, phase)).epoch == epoch
            &&& inp.opens_day(bar) == (days@[bar] is Some && days@[bar]->0)
        }),
{
    assert(inp.epoch.code(grid::single(bar)) == assembly::or_first(epochs@[bar]));
    assert(inp.new_day.on(grid::single(bar)) == assembly::or_off(days@[bar]));
}

/// The account's terms are those the kwargs state.
pub proof fn law_the_terms_are_the_kwargs_own(
    inp: Inputs,
    inputs: Seq<Column>,
    kwargs: SimulateKwargs,
)
    requires
        assembles(inp, inputs, kwargs),
    ensures
        inp.capital == kwargs.capital,
        inp.buffer == kwargs.buffer,
        inp.audit == kwargs.audit,
        inp.has_previous == kwargs.previous is Some,
        inp.record_positions == kwargs.positions,
        inp.record_fills == kwargs.fills,
        inp.prices@.len() == kwargs.points,
        inp.plan.shape()[0] == 1,
        inp.plan.shape()[1] == kwargs.tranches,
{
    assert(inp.plan.shape()[0] == 1 && inp.plan.shape()[1] == kwargs.tranches);
}

pub(crate) proof fn lemma_first_length(lengths: Seq<Option<int>>, b: int)
    requires
        0 <= b <= lengths.len(),
        forall|c: int| 0 <= c < b ==> #[trigger] lengths[c] is None,
        b < lengths.len() ==> lengths[b] is Some,
    ensures
        assembly::first_length(lengths) == if b < lengths.len() {
            lengths[b]->0
        } else {
            0
        },
    decreases lengths.len(),
{
    if lengths.len() > 0 && b > 0 {
        assert(lengths[0] is None);
        let rest: Seq<Option<int>> = lengths.drop_first();
        assert forall|c: int| 0 <= c < b - 1 implies #[trigger] rest[c] is None by {
            assert(lengths[c + 1] is None);
        }
        lemma_first_length(rest, b - 1);
    }
}

/// How many bars a walk has and how many names it knows: a bar for every row
/// of marks, and the names of the first row of them that is there.
pub proof fn law_the_marks_say_how_far_and_how_wide(
    inp: Inputs,
    inputs: Seq<Column>,
    kwargs: SimulateKwargs,
    rows: Vec<Option<Vec<Option<Binary64>>>>,
    b: int,
)
    requires
        assembles(inp, inputs, kwargs),
        inputs[kwargs.mark as int] == Column::NumberLists(rows),
        0 <= b <= rows@.len(),
        forall|c: int| 0 <= c < b ==> #[trigger] rows@[c] is None,
        b < rows@.len() ==> rows@[b] is Some,
    ensures
        inp.bars() == rows@.len(),
        inp.assets() == if b < rows@.len() {
            rows@[b]->0@.len() as int
        } else {
            0
        },
        inp.mark.shape() == seq![inp.bars(), inp.assets()],
{
    let lengths: Seq<Option<int>> = inputs[kwargs.mark as int].lengths()->0;
    assert forall|c: int| 0 <= c < b implies #[trigger] lengths[c] is None by {
        assert(rows@[c] is None);
    }
    lemma_first_length(lengths, b);
    assert(inp.mark.shape()[0] == lengths.len());
    assert(inp.plan.shape()[3] == assembly::first_length(lengths));
}

/// Whether a column's rows are read one bar's row at a time: every row that
/// is there has a value for every name, or something is missing, or there are
/// not just as many values as cells.
spec fn by_row<T>(rows: Seq<Option<Vec<Option<T>>>>, steps: int, width: int) -> bool {
    ||| rows.len() == steps && forall|c: int|
        0 <= c < rows.len() && (#[trigger] rows[c]) is Some ==> rows[c]->0@.len() == width
    ||| exists|c: int| 0 <= c < rows.len() && #[trigger] rows[c] is None
    ||| exists|k: int|
        0 <= k < frame::joined(rows).len() && #[trigger] frame::joined(rows)[k] is None
    ||| frame::joined(rows).len() != steps * width
}

/// A cell of a plane that is read row by row is the row's own value there.
proof fn lemma_by_row<T>(rows: Seq<Option<Vec<Option<T>>>>, steps: int, width: int, b: int, i: int)
    requires
        by_row(rows, steps, width),
        0 <= b < steps,
        0 <= i < width,
    ensures
        frame::plane_cell(rows, steps, width, b, i) == if b < rows.len() && rows[b] is Some && i
            < rows[b]->0@.len() {
            rows[b]->0@[i]
        } else {
            None
        },
{
    if frame::complete(rows, steps * width) {
        assert forall|c: int| 0 <= c < steps implies (#[trigger] rows[c]) is Some
            && rows[c]->0@.len() == width by {}
        frame::law_full_rows_read_through(rows, steps, width, b, i);
    }
}

/// A value of a row stands, among all the values, after those of the rows
/// before it.
proof fn lemma_joined_at<T>(rows: Seq<Option<Vec<Option<T>>>>, r: int, j: int)
    requires
        0 <= r < rows.len(),
        rows[r] is Some,
        0 <= j < rows[r]->0@.len(),
    ensures
        0 <= frame::joined(rows.take(r)).len() + j < frame::joined(rows).len(),
        frame::joined(rows)[frame::joined(rows.take(r)).len() + j] == rows[r]->0@[j],
    decreases rows.len(),
{
    let front: Seq<Option<Vec<Option<T>>>> = rows.drop_last();
    if r == rows.len() - 1 {
        assert(rows.take(r) =~= front);
    } else {
        assert(front[r] == rows[r]);
        assert(front.take(r) =~= rows.take(r));
        lemma_joined_at(front, r, j);
    }
}

/// Rows that leave nothing out and come to just as many values as there are
/// cells are read straight through: a row's value stands as far from the
/// first cell as there are values before it.
pub proof fn law_complete_rows_are_read_through<T>(
    rows: Seq<Option<Vec<Option<T>>>>,
    steps: int,
    width: int,
    b: int,
    i: int,
    r: int,
    j: int,
)
    requires
        forall|c: int| 0 <= c < rows.len() ==> #[trigger] rows[c] is Some,
        forall|k: int|
            0 <= k < frame::joined(rows).len() ==> #[trigger] frame::joined(rows)[k] is Some,
        frame::joined(rows).len() == steps * width,
        0 <= r < rows.len(),
        0 <= j < rows[r]->0@.len(),
        b * width + i == frame::joined(rows.take(r)).len() + j,
    ensures
        frame::plane_cell(rows, steps, width, b, i) == rows[r]->0@[j],
{
    lemma_joined_at(rows, r, j);
}

/// Every mark, reference close and price is read at its own bar and name, and
/// is no number where the column has none; so from columns that are read row
/// by row.
pub proof fn law_a_number_is_read_where_it_stands(
    inp: Inputs,
    inputs: Seq<Column>,
    kwargs: SimulateKwargs,
    b: int,
    i: int,
)
    requires
        assembles(inp, inputs, kwargs),
        0 <= b < inp.bars(),
        0 <= i < inp.assets(),
    ensures
        ({
            let (steps, width) = (inp.bars(), inp.assets());
            let by_row = |rows: Seq<Option<Vec<Option<Binary64>>>>|
                {
                    ||| rows.len() == steps && forall|c: int|
                        0 <= c < rows.len() && (#[trigger] rows[c]) is Some ==> rows[c]->0@.len()
                            == width
                    ||| exists|c: int| 0 <= c < rows.len() && #[trigger] rows[c] is None
                    ||| exists|k: int|
                        0 <= k < frame::joined(rows).len() && #[trigger] frame::joined(
                            rows,
                        )[k] is None
                    ||| frame::joined(rows).len() != steps * width
                };
            let value = |rows: Seq<Option<Vec<Option<Binary64>>>>|
                if b < rows.len() && rows[b] is Some && i < rows[b]->0@.len() {
                    rows[b]->0@[i]
                } else {
                    None
                };
            let stands = |number: Binary64, rows: Seq<Option<Vec<Option<Binary64>>>>|
                match value(rows) {
                    Some(given) => number == given,
                    None => number.is_nan(),
                };
            &&& inputs[kwargs.mark as int] matches Column::NumberLists(rows) ==> (
            by_row(rows@) ==> stands(inp.close(b, i), rows@))
            &&& kwargs.previous matches Some(index) ==> (
            inputs[index as int] matches Column::NumberLists(rows) ==> (
            by_row(rows@) ==> stands(inp.reference(b, i), rows@)))
            &&& forall|p: int|
                0 <= p < kwargs.points ==> (
                inputs[#[trigger] kwargs.prices@[p] as int] matches Column::NumberLists(rows) ==> (
                by_row(rows@) ==> stands(inp.quote(p, b, i), rows@)))
        }),
{
    lemma_dimensions(inp, inputs, kwargs);
    let (steps, width) = (inp.bars(), inp.assets());
    assert(inp.mark.number2(b, i) == assembly::or_nan(
        frame::plane_cell(inputs[kwargs.mark as int].numbers(), steps, width, b, i),
    ));
    if inputs[kwargs.mark as int] is NumberLists {
        let rows: Seq<Option<Vec<Option<Binary64>>>> = inputs[kwargs.mark as int].numbers();
        if by_row(rows, steps, width) {
            lemma_by_row(rows, steps, width, b, i);
        }
    }
    if kwargs.previous is Some {
        let index: usize = kwargs.previous->0;
        assert(inp.previous.number2(b, i) == assembly::or_nan(
            frame::plane_cell(inputs[index as int].numbers(), steps, width, b, i),
        ));
        if inputs[index as int] is NumberLists {
            let rows: Seq<Option<Vec<Option<Binary64>>>> = inputs[index as int].numbers();
            if by_row(rows, steps, width) {
                lemma_by_row(rows, steps, width, b, i);
            }
        }
    }
    let value = |rows: Seq<Option<Vec<Option<Binary64>>>>|
        if b < rows.len() && rows[b] is Some && i < rows[b]->0@.len() {
            rows[b]->0@[i]
        } else {
            None
        };
    let stands = |number: Binary64, rows: Seq<Option<Vec<Option<Binary64>>>>|
        match value(rows) {
            Some(given) => number == given,
            None => number.is_nan(),
        };
    assert forall|p: int| 0 <= p < kwargs.points implies (
    inputs[#[trigger] kwargs.prices@[p] as int] matches Column::NumberLists(rows) ==> (by_row(
        rows@,
        steps,
        width,
    ) ==> stands(inp.quote(p, b, i), rows@))) by {
        let column: Column = inputs[kwargs.prices@[p] as int];
        assert(assembly::number_plane_of(inp.prices@[p], column, steps, width));
        assert(inp.prices@[p].number2(b, i) == assembly::or_nan(
            frame::plane_cell(column.numbers(), steps, width, b, i),
        ));
        if column is NumberLists {
            if by_row(column.numbers(), steps, width) {
                lemma_by_row(column.numbers(), steps, width, b, i);
            }
        }
    }
}

proof fn lemma_dimensions(inp: Inputs, inputs: Seq<Column>, kwargs: SimulateKwargs)
    requires
        assembles(inp, inputs, kwargs),
    ensures
        inp.bars() == assembly::bars_of(inputs, kwargs),
        inp.assets() == assembly::names_of(inputs, kwargs),
        inp.tranches() == kwargs.tranches,
        inp.phases() == kwargs.points,
{
    assert(inp.mark.shape()[0] == assembly::bars_of(inputs, kwargs));
    assert(inp.plan.shape()[3] == assembly::names_of(inputs, kwargs));
    assert(inp.plan.shape()[1] == kwargs.tranches);
}

/// Whether a switch of a stack is what its column says at its own bar and
/// name, off where it says nothing, and `default` where no columns are named.
spec fn switch_stands(
    on: bool,
    default: bool,
    inputs: Seq<Column>,
    which: Option<Vec<usize>>,
    inp: Inputs,
    p: int,
    b: int,
    i: int,
) -> bool {
    match which {
        Some(list) => {
            &&& p < list@.len() ==> (
            inputs[list@[p] as int] matches Column::SwitchLists(rows) ==> (by_row(
                rows@,
                inp.bars(),
                inp.assets(),
            ) ==> on == (b < rows@.len() && rows@[b] is Some && i < rows@[b]->0@.len()
                && rows@[b]->0@[i] == Some(true))))
            &&& p >= list@.len() ==> !on
        },
        None => on == default,
    }
}

proof fn lemma_switch(
    stack: Seq<grid::Grid>,
    default: bool,
    inputs: Seq<Column>,
    which: Option<Vec<usize>>,
    inp: Inputs,
    p: int,
    b: int,
    i: int,
)
    requires
        assembly::switch_planes_of(
            stack,
            inputs,
            which,
            default,
            inp.phases(),
            inp.bars(),
            inp.assets(),
        ),
        0 <= p < inp.phases(),
        0 <= b < inp.bars(),
        0 <= i < inp.assets(),
    ensures
        switch_stands(
            crate::inputs::switched(stack, p, b, i),
            default,
            inputs,
            which,
            inp,
            p,
            b,
            i,
        ),
{
    if p < stack.len() {
        assert(stack[p].on2(b, i) == stack[p].on(seq![b, i]));
        match which {
            Some(list) => {
                let column: Column = inputs[list@[p] as int];
                assert(assembly::switch_plane_of(stack[p], column, inp.bars(), inp.assets()));
                assert(stack[p].on2(b, i) == assembly::or_off(
                    frame::plane_cell(column.switches(), inp.bars(), inp.assets(), b, i),
                ));
                if column is SwitchLists && by_row(
                    column.switches(),
                    inp.bars(),
                    inp.assets(),
                ) {
                    lemma_by_row(column.switches(), inp.bars(), inp.assets(), b, i);
                }
            },
            None => {
                assert(assembly::even_plane(stack[p], default, inp.bars(), inp.assets()));
            },
        }
    }
}

/// Whether a name can be bought, can be sold or is stuck at a price point is
/// read at its own bar and name of the point's own column, off where the
/// column says nothing; where no columns are named, every name can be bought
/// and sold and none is stuck.
pub proof fn law_a_switch_is_read_where_it_stands(
    inp: Inputs,
    inputs: Seq<Column>,
    kwargs: SimulateKwargs,
    p: int,
    b: int,
    i: int,
)
    requires
        assembles(inp, inputs, kwargs),
        0 <= p < inp.phases(),
        0 <= b < inp.bars(),
        0 <= i < inp.assets(),
    ensures
        ({
            let (steps, width) = (inp.bars(), inp.assets());
            let by_row = |rows: Seq<Option<Vec<Option<bool>>>>|
                {
                    ||| rows.len() == steps && forall|c: int|
                        0 <= c < rows.len() && (#[trigger] rows[c]) is Some ==> rows[c]->0@.len()
                            == width
                    ||| exists|c: int| 0 <= c < rows.len() && #[trigger] rows[c] is None
                    ||| exists|k: int|
                        0 <= k < frame::joined(rows).len() && #[trigger] frame::joined(
                            rows,
                        )[k] is None
                    ||| frame::joined(rows).len() != steps * width
                };
            let stands = |on: bool, default: bool, which: Option<Vec<usize>>|
                match which {
                    Some(list) => if p < list@.len() {
                        match inputs[list@[p] as int] {
                            Column::SwitchLists(rows) => by_row(rows@) ==> on == (b < rows@.len()
                                && rows@[b] is Some && i < rows@[b]->0@.len() && rows@[b]->0@[i]
                                == Some(true)),
                            _ => true,
                        }
                    } else {
                        !on
                    },
                    None => on == default,
                };
            &&& stands(inp.can_buy(p, b, i), true, kwargs.buyable)
            &&& stands(inp.can_sell(p, b, i), true, kwargs.sellable)
            &&& stands(inp.stuck(p, b, i), false, kwargs.impound)
        }),
{
    lemma_dimensions(inp, inputs, kwargs);
    lemma_switch(inp.buyable@, true, inputs, kwargs.buyable, inp, p, b, i);
    lemma_switch(inp.sellable@, true, inputs, kwargs.sellable, inp, p, b, i);
    lemma_switch(inp.impound@, false, inputs, kwargs.impound, inp, p, b, i);
}

/// A column of doubles that leaves nothing out and comes to just as many
/// values as there are cells is read straight through: the value that stands
/// so many values after the first is the one so many cells after the first.
pub proof fn law_a_full_column_is_read_straight_through(
    inp: Inputs,
    inputs: Seq<Column>,
    kwargs: SimulateKwargs,
    rows: Vec<Option<Vec<Option<Binary64>>>>,
    r: int,
    j: int,
    b: int,
    i: int,
)
    requires
        assembles(inp, inputs, kwargs),
        forall|c: int| 0 <= c < rows@.len() ==> #[trigger] rows@[c] is Some,
        forall|k: int|
            0 <= k < frame::joined(rows@).len() ==> #[trigger] frame::joined(rows@)[k] is Some,
        frame::joined(rows@).len() == inp.bars() * inp.assets(),
        0 <= r < rows@.len(),
        0 <= j < rows@[r]->0@.len(),
        0 <= b < inp.bars(),
        0 <= i < inp.assets(),
        b * inp.assets() + i == frame::joined(rows@.take(r)).len() + j,
    ensures
        inputs[kwargs.mark as int] == Column::NumberLists(rows) ==> Some(inp.close(b, i))
            == rows@[r]->0@[j],
        kwargs.previous matches Some(index) ==> inputs[index as int] == Column::NumberLists(rows)
            ==> Some(inp.reference(b, i)) == rows@[r]->0@[j],
        forall|p: int|
            0 <= p < kwargs.points && inputs[#[trigger] kwargs.prices@[p] as int]
                == Column::NumberLists(rows) ==> Some(inp.quote(p, b, i)) == rows@[r]->0@[j],
{
    lemma_dimensions(inp, inputs, kwargs);
    let (steps, width) = (inp.bars(), inp.assets());
    law_complete_rows_are_read_through(rows@, steps, width, b, i, r, j);
    lemma_joined_at(rows@, r, j);
    assert(inp.mark.number2(b, i) == assembly::or_nan(
        frame::plane_cell(inputs[kwargs.mark as int].numbers(), steps, width, b, i),
    ));
    if kwargs.previous is Some {
        assert(inp.previous.number2(b, i) == assembly::or_nan(
            frame::plane_cell(inputs[kwargs.previous->0 as int].numbers(), steps, width, b, i),
        ));
    }
    assert forall|p: int|
        0 <= p < kwargs.points && inputs[#[trigger] kwargs.prices@[p] as int]
            == Column::NumberLists(rows) implies Some(inp.quote(p, b, i)) == rows@[r]->0@[j] by {
        let column: Column = inputs[kwargs.prices@[p] as int];
        assert(assembly::number_plane_of(inp.prices@[p], column, steps, width));
        assert(inp.prices@[p].number2(b, i) == assembly::or_nan(
            frame::plane_cell(column.numbers(), steps, width, b, i),
        ));
    }
}

/// A column of another type than its part reads says nothing: no price is a
/// number, no switch is on, and every name is of the first class.
pub proof fn law_a_column_of_another_type_says_nothing(
    inp: Inputs,
    inputs: Seq<Column>,
    kwargs: SimulateKwargs,
    p: int,
    b: int,
    i: int,
)
    requires
        assembles(inp, inputs, kwargs),
        0 <= p < inp.phases(),
        0 <= b < inp.bars(),
        0 <= i < inp.assets(),
    ensures
        !(inputs[kwargs.mark as int] is NumberLists) ==> inp.close(b, i).is_nan(),
        kwargs.previous matches Some(index) ==> !(inputs[index as int] is NumberLists)
            ==> inp.reference(b, i).is_nan(),
        !(inputs[kwargs.prices@[p] as int] is NumberLists) ==> inp.quote(p, b, i).is_nan(),
        kwargs.buyable matches Some(which) ==> p < which@.len()
            && !(inputs[which@[p] as int] is SwitchLists) ==> !inp.can_buy(p, b, i),
        kwargs.sellable matches Some(which) ==> p < which@.len()
            && !(inputs[which@[p] as int] is SwitchLists) ==> !inp.can_sell(p, b, i),
        kwargs.impound matches Some(which) ==> p < which@.len()
            && !(inputs[which@[p] as int] is SwitchLists) ==> !inp.stuck(p, b, i),
        !(inputs[kwargs.instrument as int] is CodeLists) ==> inp.category(i) == 0,
{
    lemma_dimensions(inp, inputs, kwargs);
    let (steps, width) = (inp.bars(), inp.assets());
    assert(steps * width > 0) by (nonlinear_arith)
        requires
            0 < steps,
            0 < width,
    ;
    assert(inp.mark.number2(b, i) == assembly::or_nan(
        frame::plane_cell(inputs[kwargs.mark as int].numbers(), steps, width, b, i),
    ));
    if kwargs.previous is Some {
        assert(inp.previous.number2(b, i) == assembly::or_nan(
            frame::plane_cell(inputs[kwargs.previous->0 as int].numbers(), steps, width, b, i),
        ));
    }
    let column: Column = inputs[kwargs.prices@[p] as int];
    assert(assembly::number_plane_of(inp.prices@[p], column, steps, width));
    assert(inp.prices@[p].number2(b, i) == assembly::or_nan(
        frame::plane_cell(column.numbers(), steps, width, b, i),
    ));
    lemma_silent(inp.buyable@, true, inputs, kwargs.buyable, inp, p, b, i);
    lemma_silent(inp.sellable@, true, inputs, kwargs.sellable, inp, p, b, i);
    lemma_silent(inp.impound@, false, inputs, kwargs.impound, inp, p, b, i);
    assert(inp.instrument.code(grid::single(i)) == rulebook::class_code(
        inputs[kwargs.instrument as int],
        i,
    ));
}

proof fn lemma_silent(
    stack: Seq<grid::Grid>,
    default: bool,
    inputs: Seq<Column>,
    which: Option<Vec<usize>>,
    inp: Inputs,
    p: int,
    b: int,
    i: int,
)
    requires
        assembly::switch_planes_of(
            stack,
            inputs,
            which,
            default,
            inp.phases(),
            inp.bars(),
            inp.assets(),
        ),
        0 <= p,
        0 <= b < inp.bars(),
        0 <= i < inp.assets(),
    ensures
        which matches Some(list) ==> p < list@.len() && !(
        inputs[list@[p] as int] is SwitchLists) ==> !crate::inputs::switched(stack, p, b, i),
{
    if which is Some && p < which->0@.len() {
        let column: Column = inputs[which->0@[p] as int];
        assert(inp.bars() * inp.assets() > 0) by (nonlinear_arith)
            requires
                0 < inp.bars(),
                0 < inp.assets(),
        ;
        assert(assembly::switch_plane_of(stack[p], column, inp.bars(), inp.assets()));
        assert(stack[p].on2(b, i) == assembly::or_off(
            frame::plane_cell(column.switches(), inp.bars(), inp.assets(), b, i),
        ));
    }
}

proof fn lemma_decided_row(
    inputs: Seq<Column>,
    kwargs: SimulateKwargs,
    f: int,
    b: int,
    n: int,
)
    requires
        0 <= f < n <= kwargs.firings@.len(),
        decisions::fires(inputs, kwargs.firings@[f], b),
        forall|g: int|
            f < g < n && (#[trigger] kwargs.firings@[g]).tranche == kwargs.firings@[f].tranche
                && kwargs.firings@[g].point == kwargs.firings@[f].point ==> !decisions::fires(
                inputs,
                kwargs.firings@[g],
                b,
            ),
    ensures
        decisions::decided_row(
            inputs,
            kwargs.firings@,
            kwargs.firings@[f].tranche as int,
            b,
            kwargs.firings@[f].point as int,
            n,
        ) == decisions::row_number(inputs, kwargs.firings@, f, b),
    decreases n,
{
    if f < n - 1 {
        lemma_decided_row(inputs, kwargs, f, b, n - 1);
        assert(kwargs.firings@[n - 1] == kwargs.firings@[n - 1]);
    }
}

/// A firing's decision is fired where it stands: on a bar its plan column has
/// a row for, at its tranche and its price point, the walk decides by a row
/// of the plan that gives every name the weight the column's row gives it,
/// and none where that is missing. Of several firings of one tranche at one
/// point of a bar the last one listed is the one.
pub proof fn law_a_decision_brings_its_own_weights(
    inp: Inputs,
    inputs: Seq<Column>,
    kwargs: SimulateKwargs,
    rows: Vec<Option<Vec<Option<Binary64>>>>,
    f: int,
    b: int,
)
    requires
        assembles(inp, inputs, kwargs),
        0 <= f < kwargs.firings@.len(),
        inputs[kwargs.firings@[f].plan as int] == Column::NumberLists(rows),
        0 <= b < rows@.len(),
        rows@[b] is Some,
        kwargs.firings@[f].tranche < kwargs.tranches,
        kwargs.firings@[f].point < kwargs.points,
        b < inp.bars(),
        forall|g: int|
            f < g < kwargs.firings@.len() && (#[trigger] kwargs.firings@[g]).tranche
                == kwargs.firings@[f].tranche && kwargs.firings@[g].point
                == kwargs.firings@[f].point ==> !(
            inputs[kwargs.firings@[g].plan as int] matches Column::NumberLists(other) && b
                < other@.len() && other@[b] is Some),
    ensures
        ({
            let t = kwargs.firings@[f].tranche as int;
            let d = inp.at.code(seq![0, t, b, kwargs.firings@[f].point as int]) as int;
            &&& 0 <= d
            &&& forall|i: int|
                0 <= i < inp.assets() ==> inp.plan.number(#[trigger] grid::quad(0, t, d, i)) == if i
                    < rows@[b]->0@.len() && rows@[b]->0@[i] is Some {
                    rows@[b]->0@[i]->0
                } else {
                    Binary64 { bits: 0 }
                }
        }),
{
    lemma_dimensions(inp, inputs, kwargs);
    let firings: Seq<crate::plugin::Firing> = kwargs.firings@;
    let t: int = firings[f].tranche as int;
    let p: int = firings[f].point as int;
    let n: int = firings.len() as int;
    assert forall|g: int|
        f < g < n && (#[trigger] firings[g]).tranche == firings[f].tranche && firings[g].point
            == firings[f].point implies !decisions::fires(inputs, firings[g], b) by {}
    lemma_decided_row(inputs, kwargs, f, b, n);
    let d: int = inp.at.code(seq![0, t, b, p]) as int;
    assert(inp.at.code(grid::quad(0, t, b, p)) == decisions::decided_row(
        inputs,
        firings,
        t,
        b,
        p,
        n,
    ));
    decisions::lemma_row_number(inputs, firings, f, b, b + 1);
    assert forall|i: int| 0 <= i < inp.assets() implies inp.plan.number(
        #[trigger] grid::quad(0, t, d, i),
    ) == if i < rows@[b]->0@.len() && rows@[b]->0@[i] is Some {
        rows@[b]->0@[i]->0
    } else {
        Binary64 { bits: 0 }
    } by {
        assert(decisions::planned(inp.plan, inputs, firings, f, b, i) == assembly::or_none(
            frame::value_at(inputs[firings[f].plan as int].numbers(), b, i),
        ));
    }
}

proof fn lemma_undecided(
    inputs: Seq<Column>,
    kwargs: SimulateKwargs,
    t: int,
    b: int,
    p: int,
    n: int,
)
    requires
        0 <= n <= kwargs.firings@.len(),
        forall|g: int|
            0 <= g < n && (#[trigger] kwargs.firings@[g]).tranche == t && kwargs.firings@[g].point
                == p ==> !decisions::fires(inputs, kwargs.firings@[g], b),
    ensures
        decisions::decided_row(inputs, kwargs.firings@, t, b, p, n) == -1,
        !decisions::decided_standing(inputs, kwargs.firings@, t, b, p, n),
    decreases n,
{
    if n > 0 {
        lemma_undecided(inputs, kwargs, t, b, p, n - 1);
        assert(kwargs.firings@[n - 1] == kwargs.firings@[n - 1]);
    }
}

/// Where no firing of a tranche at a price point has a row for a bar, nothing
/// is fired there.
pub proof fn law_nothing_fires_without_a_row(
    inp: Inputs,
    inputs: Seq<Column>,
    kwargs: SimulateKwargs,
    t: int,
    b: int,
    p: int,
)
    requires
        assembles(inp, inputs, kwargs),
        0 <= t < kwargs.tranches,
        0 <= b < inp.bars(),
        0 <= p < kwargs.points,
        forall|g: int|
            0 <= g < kwargs.firings@.len() && (#[trigger] kwargs.firings@[g]).tranche == t
                && kwargs.firings@[g].point == p ==> !(
            inputs[kwargs.firings@[g].plan as int] matches Column::NumberLists(other) && b
                < other@.len() && other@[b] is Some),
    ensures
        inp.at.code(seq![0, t, b, p]) == -1,
        inp.standing.word(seq![0, t, b, p]) == 0,
{
    lemma_dimensions(inp, inputs, kwargs);
    let firings: Seq<crate::plugin::Firing> = kwargs.firings@;
    let n: int = firings.len() as int;
    assert forall|g: int|
        0 <= g < n && (#[trigger] firings[g]).tranche == t && firings[g].point == p implies
        !decisions::fires(inputs, firings[g], b) by {}
    lemma_undecided(inputs, kwargs, t, b, p, n);
    assert(inp.at.code(grid::quad(0, t, b, p)) == -1);
    assert(!inp.standing.on(grid::quad(0, t, b, p)));
}

proof fn lemma_decided_standing(
    inputs: Seq<Column>,
    kwargs: SimulateKwargs,
    f: int,
    b: int,
    n: int,
)
    requires
        0 <= f < n <= kwargs.firings@.len(),
        decisions::fires(inputs, kwargs.firings@[f], b),
        kwargs.firings@[f].standing is Some,
        forall|g: int|
            f < g < n && (#[trigger] kwargs.firings@[g]).tranche == kwargs.firings@[f].tranche
                && kwargs.firings@[g].point == kwargs.firings@[f].point
                && kwargs.firings@[g].standing is Some ==> !decisions::fires(
                inputs,
                kwargs.firings@[g],
                b,
            ),
    ensures
        decisions::decided_standing(
            inputs,
            kwargs.firings@,
            kwargs.firings@[f].tranche as int,
            b,
            kwargs.firings@[f].point as int,
            n,
        ) == assembly::or_off(
            decisions::flags_of(inputs[kwargs.firings@[f].standing->0 as int])[b],
        ),
    decreases n,
{
    if f < n - 1 {
        lemma_decided_standing(inputs, kwargs, f, b, n - 1);
        assert(kwargs.firings@[n - 1] == kwargs.firings@[n - 1]);
    }
}

/// Whether a firing stands is what its own standing column says of the bar,
/// no where it says nothing. Of several firings of one tranche at one point
/// of a bar that name such a column the last one listed is the one.
pub proof fn law_a_firing_stands_as_its_column_says(
    inp: Inputs,
    inputs: Seq<Column>,
    kwargs: SimulateKwargs,
    rows: Vec<Option<Vec<Option<Binary64>>>>,
    flags: Vec<Option<bool>>,
    f: int,
    b: int,
)
    requires
        assembles(inp, inputs, kwargs),
        0 <= f < kwargs.firings@.len(),
        inputs[kwargs.firings@[f].plan as int] == Column::NumberLists(rows),
        0 <= b < rows@.len(),
        rows@[b] is Some,
        kwargs.firings@[f].tranche < kwargs.tranches,
        kwargs.firings@[f].point < kwargs.points,
        b < inp.bars(),
        kwargs.firings@[f].standing is Some,
        inputs[kwargs.firings@[f].standing->0 as int] == Column::Switches(flags),
        forall|g: int|
            f < g < kwargs.firings@.len() && (#[trigger] kwargs.firings@[g]).tranche
                == kwargs.firings@[f].tranche && kwargs.firings@[g].point
                == kwargs.firings@[f].point && kwargs.firings@[g].standing is Some ==> !(
            inputs[kwargs.firings@[g].plan as int] matches Column::NumberLists(other) && b
                < other@.len() && other@[b] is Some),
    ensures
        (inp.standing.word(
            seq![0, kwargs.firings@[f].tranche as int, b, kwargs.firings@[f].point as int],
        ) != 0) == (flags@[b] == Some(true)),
{
    lemma_dimensions(inp, inputs, kwargs);
    let firings: Seq<crate::plugin::Firing> = kwargs.firings@;
    let t: int = firings[f].tranche as int;
    let p: int = firings[f].point as int;
    let n: int = firings.len() as int;
    assert forall|g: int|
        f < g < n && (#[trigger] firings[g]).tranche == firings[f].tranche && firings[g].point
            == firings[f].point && firings[g].standing is Some implies !decisions::fires(
        inputs,
        firings[g],
        b,
    ) by {}
    lemma_decided_standing(inputs, kwargs, f, b, n);
    assert(inp.standing.on(grid::quad(0, t, b, p)) == decisions::decided_standing(
        inputs,
        firings,
        t,
        b,
        p,
        n,
    ));
}

/// Where no firing of a tranche at a price point that names a standing column
/// has a row for a bar, nothing stands there: what is fired acts.
pub proof fn law_nothing_stands_without_a_column(
    inp: Inputs,
    inputs: Seq<Column>,
    kwargs: SimulateKwargs,
    t: int,
    b: int,
    p: int,
)
    requires
        assembles(inp, inputs, kwargs),
        0 <= t < kwargs.tranches,
        0 <= b < inp.bars(),
        0 <= p < kwargs.points,
        forall|g: int|
            0 <= g < kwargs.firings@.len() && (#[trigger] kwargs.firings@[g]).tranche == t
                && kwargs.firings@[g].point == p && kwargs.firings@[g].standing is Some ==> !(
            inputs[kwargs.firings@[g].plan as int] matches Column::NumberLists(other) && b
                < other@.len() && other@[b] is Some),
    ensures
        inp.standing.word(seq![0, t, b, p]) == 0,
{
    lemma_dimensions(inp, inputs, kwargs);
    let firings: Seq<crate::plugin::Firing> = kwargs.firings@;
    let n: int = firings.len() as int;
    assert forall|g: int|
        0 <= g < n && (#[trigger] firings[g]).tranche == t && firings[g].point == p
            && firings[g].standing is Some implies !decisions::fires(inputs, firings[g], b) by {}
    lemma_standless(inputs, kwargs, t, b, p, n);
    assert(!inp.standing.on(grid::quad(0, t, b, p)));
}

proof fn lemma_standless(
    inputs: Seq<Column>,
    kwargs: SimulateKwargs,
    t: int,
    b: int,
    p: int,
    n: int,
)
    requires
        0 <= n <= kwargs.firings@.len(),
        forall|g: int|
            0 <= g < n && (#[trigger] kwargs.firings@[g]).tranche == t && kwargs.firings@[g].point
                == p && kwargs.firings@[g].standing is Some ==> !decisions::fires(
                inputs,
                kwargs.firings@[g],
                b,
            ),
    ensures
        !decisions::decided_standing(inputs, kwargs.firings@, t, b, p, n),
    decreases n,
{
    if n > 0 {
        lemma_standless(inputs, kwargs, t, b, p, n - 1);
        assert(kwargs.firings@[n - 1] == kwargs.firings@[n - 1]);
    }
}

/// Every array is read at its own place: a weight by run, tranche, decision
/// and name, a firing and whether it stands by run, tranche, bar and price
/// point, a price and a switch by price point, bar and name, a mark and a
/// reference close by bar and name, a day and an epoch by bar, a class by
/// name, a rate by row, epoch and class, a flag by row and class. A rate that
/// is not there is no number; a switch or a flag that is not there is off.
pub proof fn law_every_array_is_read_at_its_place(
    inp: Inputs,
    run: int,
    t: int,
    d: int,
    i: int,
    bar: int,
    phase: int,
    row: usize,
    epoch: int,
)
    requires
        inp.rates.shape().len() == 3,
        inp.flags.shape().len() == 2,
        0 <= phase,
        0 <= epoch,
    ensures
        inp.weight(run, t, d, i).bits == inp.plan.word(seq![run, t, d, i]),
        inp.firing(run, t, bar, phase) == inp.at.code(seq![run, t, bar, phase]),
        inp.stands(run, t, bar, phase) == (inp.standing.word(seq![run, t, bar, phase]) != 0),
        inp.quote(phase, bar, i).bits == inp.prices@[phase].word(seq![bar, i]),
        inp.can_buy(phase, bar, i) == (phase < inp.buyable@.len() && inp.buyable@[phase].word(
            seq![bar, i],
        ) != 0),
        inp.can_sell(phase, bar, i) == (phase < inp.sellable@.len() && inp.sellable@[phase].word(
            seq![bar, i],
        ) != 0),
        inp.stuck(phase, bar, i) == (phase < inp.impound@.len() && inp.impound@[phase].word(
            seq![bar, i],
        ) != 0),
        inp.close(bar, i).bits == inp.mark.word(seq![bar, i]),
        inp.reference(bar, i).bits == inp.previous.word(seq![bar, i]),
        inp.opens_day(bar) == (inp.new_day.word(seq![bar]) != 0),
        inp.era(bar) == inp.epoch.code(seq![bar]),
        inp.category(i) == inp.instrument.code(seq![i]) as usize,
        ({
            let class = inp.instrument.code(seq![i]) as usize as int;
            let shape = inp.rates.shape();
            let there = row < shape[0] && epoch < shape[1] && class < shape[2];
            &&& there ==> inp.rate_of(row, epoch, i).bits == inp.rates.word(
                seq![row as int, epoch, class],
            )
            &&& !there ==> inp.rate_of(row, epoch, i).is_nan()
            &&& inp.rated(row as int, epoch, class) == inp.rate_of(row, epoch, i)
        }),
        ({
            let class = inp.instrument.code(seq![i]) as usize as int;
            let shape = inp.flags.shape();
            inp.flag_of(row, i) == (row < shape[0] && class < shape[1] && inp.flags.word(
                seq![row as int, class],
            ) != 0)
        }),
{
    let class: int = inp.instrument.code(seq![i]) as usize as int;
    let place: Seq<int> = seq![row as int, epoch, class];
    let shape: Seq<int> = inp.rates.shape();
    assert(place[0] == row && place[1] == epoch && place[2] == class);
    if grid::inside(shape, place) {
        assert(place[0] < shape[0] && place[1] < shape[1] && place[2] < shape[2]);
    }
    let flag: Seq<int> = seq![row as int, class];
    let table: Seq<int> = inp.flags.shape();
    assert(flag[0] == row && flag[1] == class);
    if grid::inside(table, flag) {
        assert(flag[0] < table[0] && flag[1] < table[1]);
    }
}

}
