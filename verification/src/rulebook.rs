//! Reading the market's rules into the arrays the walk indexes.

use vstd::prelude::*;

use crate::assembly::{or_first, or_off};
use crate::binary64::Binary64;
use crate::decisions::flags_of;
use crate::frame::Column;
use crate::grid;
use crate::grid::Grid;

verus! {

/// The first row that is there; an empty one, if none is.
pub open spec fn first_row(rows: Seq<Option<Vec<Option<i32>>>>) -> Seq<Option<i32>>
    decreases rows.len(),
{
    if rows.len() == 0 {
        Seq::empty()
    } else {
        match rows[0] {
            Some(list) => list@,
            None => first_row(rows.drop_first()),
        }
    }
}

/// A name's class code: what the first row says of it.
pub open spec fn class_code(column: Column, i: int) -> i32 {
    let codes = first_row(column.codes());
    or_first(
        if 0 <= i < codes.len() {
            codes[i]
        } else {
            None
        },
    )
}

/// An integer column's values; none for a column of another type.
pub open spec fn codes_of(column: Column) -> Seq<Option<i32>> {
    match column {
        Column::Codes(values) => values@,
        _ => Seq::empty(),
    }
}

/// Whether a grid holds each name's class code.
pub open spec fn classes_of(instrument: Grid, column: Column, width: int) -> bool {
    &&& instrument.shape() == seq![width]
    &&& forall|i: int|
        0 <= i < width ==> instrument.code(#[trigger] grid::single(i)) == class_code(column, i)
}

/// Whether a grid holds each bar's rule epoch.
pub open spec fn epochs_of(epoch: Grid, column: Column, steps: int) -> bool {
    &&& epoch.shape() == seq![steps]
    &&& forall|b: int|
        0 <= b < steps ==> epoch.code(#[trigger] grid::single(b)) == or_first(codes_of(column)[b])
}

/// Whether a grid says of each bar whether it opens a trading day.
pub open spec fn days_of(new_day: Grid, column: Column, steps: int) -> bool {
    &&& new_day.shape() == seq![steps]
    &&& forall|b: int|
        0 <= b < steps ==> new_day.on(#[trigger] grid::single(b)) == or_off(flags_of(column)[b])
}

/// Write codes into a one-axis array.
fn code_grid(codes: &Vec<i32>) -> (grid: Option<Grid>)
    ensures
        grid is Some <==> grid::storable(seq![codes@.len() as int]),
        grid matches Some(grid) ==> {
            &&& grid.shape() == seq![codes@.len() as int]
            &&& forall|i: int|
                0 <= i < codes@.len() ==> grid.code(#[trigger] grid::single(i)) == codes@[i]
        },
{
    let shape: [usize; 1] = [codes.len()];
    proof {
        assert(grid::ints(shape@) =~= seq![codes@.len() as int]);
    }
    let mut grid: Grid = match Grid::new(&shape, 0) {
        Some(grid) => grid,
        None => {
            return None;
        },
    };
    let mut i: usize = 0;
    while i < codes.len()
        invariant
            i <= codes@.len(),
            grid.shape() == seq![codes@.len() as int],
            forall|j: int|
                0 <= j < i ==> grid.code(#[trigger] grid::single(j)) == codes@[j],
        decreases codes@.len() - i,
    {
        let ghost before: Grid = grid;
        grid.put1(i, grid::encode_code(codes[i]));
        proof {
            assert forall|j: int| 0 <= j < i + 1 implies grid.code(#[trigger] grid::single(j))
                == codes@[j] by {
                assert(grid::single(j)[0] == j && grid::single(i as int)[0] == i);
                if j < i {
                    assert(before.code(grid::single(j)) == codes@[j]);
                }
            }
        }
        i = i + 1;
    }
    Some(grid)
}

/// Read the names' class codes; `None` if the column names more names than
/// there are.
pub(crate) fn read_classes(column: &Column, width: usize) -> (instrument: Option<Grid>)
    ensures
        instrument is Some <==> {
            &&& first_row(column.codes()).len() <= width
            &&& grid::storable(seq![width as int])
        },
        instrument matches Some(instrument) ==> classes_of(instrument, *column, width as int),
{
    let none: Vec<Option<Vec<Option<i32>>>> = Vec::new();
    let rows: &Vec<Option<Vec<Option<i32>>>> = match column {
        Column::CodeLists(rows) => rows,
        _ => &none,
    };
    let empty: Vec<Option<i32>> = Vec::new();
    let mut first: &Vec<Option<i32>> = &empty;
    let mut b: usize = 0;
    proof {
        assert(rows@ =~= column.codes());
        assert(rows@.skip(0) =~= rows@);
    }
    let mut found: bool = false;
    while b < rows.len() && !found
        invariant
            b <= rows@.len(),
            found ==> first_row(rows@) == first@,
            !found ==> first_row(rows@) == first_row(rows@.skip(b as int)) && first@.len() == 0,
        decreases rows@.len() - b,
    {
        proof {
            assert(rows@.skip(b as int).drop_first() =~= rows@.skip(b + 1));
        }
        match &rows[b] {
            Some(list) => {
                first = list;
                found = true;
            },
            None => {},
        }
        b = b + 1;
    }
    proof {
        if !found {
            assert(first_row(rows@) =~= first@);
        }
    }
    if first.len() > width {
        return None;
    }
    let mut codes: Vec<i32> = Vec::new();
    let mut i: usize = 0;
    while i < width
        invariant
            i <= width,
            codes@.len() == i,
            first@ == first_row(column.codes()),
            forall|j: int| 0 <= j < i ==> #[trigger] codes@[j] == class_code(*column, j),
        decreases width - i,
    {
        let mut code: i32 = 0;
        if i < first.len() {
            match first[i] {
                Some(known) => {
                    code = known;
                },
                None => {},
            }
        }
        codes.push(code);
        i = i + 1;
    }
    code_grid(&codes)
}

/// Read the bars' rule epochs; `None` if the column is too short.
pub(crate) fn read_epochs(column: &Column, steps: usize) -> (epoch: Option<Grid>)
    ensures
        epoch is Some <==> codes_of(*column).len() >= steps && grid::storable(seq![steps as int]),
        epoch matches Some(epoch) ==> epochs_of(epoch, *column, steps as int),
{
    let none: Vec<Option<i32>> = Vec::new();
    let values: &Vec<Option<i32>> = match column {
        Column::Codes(values) => values,
        _ => &none,
    };
    proof {
        assert(values@ =~= codes_of(*column));
    }
    if values.len() < steps {
        return None;
    }
    let mut codes: Vec<i32> = Vec::new();
    let mut b: usize = 0;
    while b < steps
        invariant
            b <= steps <= values@.len(),
            codes@.len() == b,
            values@ == codes_of(*column),
            forall|j: int| 0 <= j < b ==> #[trigger] codes@[j] == or_first(values@[j]),
        decreases steps - b,
    {
        match values[b] {
            Some(code) => codes.push(code),
            None => codes.push(0),
        }
        b = b + 1;
    }
    code_grid(&codes)
}

/// Read which bars open a trading day; `None` if the column is too short.
pub(crate) fn read_days(column: &Column, steps: usize) -> (new_day: Option<Grid>)
    ensures
        new_day is Some <==> flags_of(*column).len() >= steps && grid::storable(
            seq![steps as int],
        ),
        new_day matches Some(new_day) ==> days_of(new_day, *column, steps as int),
{
    let none: Vec<Option<bool>> = Vec::new();
    let values: &Vec<Option<bool>> = match column {
        Column::Switches(values) => values,
        _ => &none,
    };
    proof {
        assert(values@ =~= flags_of(*column));
    }
    if values.len() < steps {
        return None;
    }
    let shape: [usize; 1] = [steps];
    proof {
        assert(grid::ints(shape@) =~= seq![steps as int]);
    }
    let mut grid: Grid = match Grid::new(&shape, 0) {
        Some(grid) => grid,
        None => {
            return None;
        },
    };
    let mut b: usize = 0;
    while b < steps
        invariant
            b <= steps <= values@.len(),
            values@ == flags_of(*column),
            grid.shape() == seq![steps as int],
            forall|j: int|
                0 <= j < b ==> grid.on(#[trigger] grid::single(j)) == or_off(values@[j]),
        decreases steps - b,
    {
        let ghost before: Grid = grid;
        let on: bool = match values[b] {
            Some(on) => on,
            None => false,
        };
        grid.put1(
            b,
            if on {
                1
            } else {
                0
            },
        );
        proof {
            assert forall|j: int| 0 <= j < b + 1 implies grid.on(#[trigger] grid::single(j))
                == or_off(values@[j]) by {
                assert(grid::single(j)[0] == j && grid::single(b as int)[0] == b);
                if j < b {
                    assert(before.on(grid::single(j)) == or_off(values@[j]));
                }
            }
        }
        b = b + 1;
    }
    Some(grid)
}

/// A rate of the rulebook; zero where it says nothing.
pub open spec fn rate_said(
    rates: Seq<Vec<Vec<Binary64>>>,
    row: int,
    epoch: int,
    category: int,
) -> Binary64 {
    if epoch < rates[row]@.len() && category < rates[row]@[epoch]@.len() {
        rates[row]@[epoch]@[category]
    } else {
        Binary64::zero()
    }
}

/// A flag of the rulebook; off where it says nothing.
pub open spec fn flag_said(flags: Seq<Vec<bool>>, row: int, category: int) -> bool {
    category < flags[row]@.len() && flags[row]@[category]
}

/// How many epochs the rulebook has.
pub open spec fn epochs_said(rates: Seq<Vec<Vec<Binary64>>>) -> int {
    if rates.len() > 0 {
        rates[0]@.len() as int
    } else {
        0
    }
}

/// How many classes the rulebook has.
pub open spec fn classes_said(flags: Seq<Vec<bool>>) -> int {
    if flags.len() > 0 {
        flags[0]@.len() as int
    } else {
        0
    }
}

/// Whether no row of the rates says anything of an epoch the first row does
/// not have, nor of more classes than there are.
pub open spec fn rates_fit(rates: Seq<Vec<Vec<Binary64>>>, epochs: int, classes: int) -> bool {
    forall|row: int, epoch: int|
        0 <= row < rates.len() && 0 <= epoch < rates[row]@.len() && (
        #[trigger] rates[row]@[epoch])@.len() > 0 ==> epoch < epochs && rates[row]@[epoch]@.len()
            <= classes
}

/// Whether no row of the flags has more classes than the first.
pub open spec fn flags_fit(flags: Seq<Vec<bool>>, classes: int) -> bool {
    forall|row: int| 0 <= row < flags.len() ==> (#[trigger] flags[row])@.len() <= classes
}

/// Whether a grid holds the rulebook's rates.
pub open spec fn rates_of(
    grid: Grid,
    rates: Seq<Vec<Vec<Binary64>>>,
    epochs: int,
    classes: int,
) -> bool {
    &&& grid.shape() == seq![rates.len() as int, epochs, classes]
    &&& forall|row: int, epoch: int, category: int|
        0 <= row < rates.len() && 0 <= epoch < epochs && 0 <= category < classes
            ==> #[trigger] grid.number3(row, epoch, category) == rate_said(
            rates,
            row,
            epoch,
            category,
        )
}

/// Whether a grid holds the rulebook's flags.
pub open spec fn flag_table_of(grid: Grid, flags: Seq<Vec<bool>>, classes: int) -> bool {
    &&& grid.shape() == seq![flags.len() as int, classes]
    &&& forall|row: int, category: int|
        0 <= row < flags.len() && 0 <= category < classes ==> #[trigger] grid.on2(row, category)
            == flag_said(flags, row, category)
}

fn rates_checked(rates: &Vec<Vec<Vec<Binary64>>>, epochs: usize, classes: usize) -> (fit: bool)
    ensures
        fit == rates_fit(rates@, epochs as int, classes as int),
{
    let mut row: usize = 0;
    while row < rates.len()
        invariant
            row <= rates@.len(),
            forall|r: int, e: int|
                0 <= r < row && 0 <= e < rates@[r]@.len() && (#[trigger] rates@[r]@[e])@.len() > 0
                    ==> e < epochs && rates@[r]@[e]@.len() <= classes,
        decreases rates@.len() - row,
    {
        let mut epoch: usize = 0;
        while epoch < rates[row].len()
            invariant
                row < rates@.len(),
                epoch <= rates@[row as int]@.len(),
                forall|e: int|
                    0 <= e < epoch && (#[trigger] rates@[row as int]@[e])@.len() > 0 ==> e < epochs
                        && rates@[row as int]@[e]@.len() <= classes,
            decreases rates@[row as int]@.len() - epoch,
        {
            if rates[row][epoch].len() > 0 && (epoch >= epochs || rates[row][epoch].len()
                > classes) {
                proof {
                    assert(rates@[row as int]@[epoch as int]@.len() > 0);
                }
                return false;
            }
            epoch = epoch + 1;
        }
        row = row + 1;
    }
    true
}

fn flags_checked(flags: &Vec<Vec<bool>>, classes: usize) -> (fit: bool)
    ensures
        fit == flags_fit(flags@, classes as int),
{
    let mut row: usize = 0;
    while row < flags.len()
        invariant
            row <= flags@.len(),
            forall|r: int| 0 <= r < row ==> (#[trigger] flags@[r])@.len() <= classes,
        decreases flags@.len() - row,
    {
        if flags[row].len() > classes {
            proof {
                assert(flags@[row as int]@.len() > classes);
            }
            return false;
        }
        row = row + 1;
    }
    true
}

/// Read the rulebook's rates; `None` if it says anything of an epoch or a
/// class that there is not.
pub(crate) fn read_rates(
    rates: &Vec<Vec<Vec<Binary64>>>,
    epochs: usize,
    classes: usize,
) -> (grid: Option<Grid>)
    ensures
        grid is Some <==> {
            &&& rates_fit(rates@, epochs as int, classes as int)
            &&& grid::storable(seq![rates@.len() as int, epochs as int, classes as int])
        },
        grid matches Some(grid) ==> rates_of(grid, rates@, epochs as int, classes as int),
{
    if !rates_checked(rates, epochs, classes) {
        return None;
    }
    let shape: [usize; 3] = [rates.len(), epochs, classes];
    proof {
        assert(grid::ints(shape@) =~= seq![rates@.len() as int, epochs as int, classes as int]);
    }
    let mut grid: Grid = match Grid::new(&shape, 0) {
        Some(grid) => grid,
        None => {
            return None;
        },
    };
    proof {
        assert forall|r: int, e: int, c: int|
            0 <= r < rates@.len() && 0 <= e < epochs && 0 <= c < classes implies #[trigger]
            grid.number3(r, e, c) == Binary64::zero() by {
            assert(grid::inside(grid::ints(shape@), seq![r, e, c]));
        }
    }
    let mut row: usize = 0;
    while row < rates.len()
        invariant
            rates_fit(rates@, epochs as int, classes as int),
            row <= rates@.len(),
            grid.shape() == seq![rates@.len() as int, epochs as int, classes as int],
            forall|r: int, e: int, c: int|
                0 <= r < rates@.len() && 0 <= e < epochs && 0 <= c < classes
                    ==> #[trigger] grid.number3(r, e, c) == (if r < row {
                    rate_said(rates@, r, e, c)
                } else {
                    Binary64::zero()
                }),
        decreases rates@.len() - row,
    {
        let mut epoch: usize = 0;
        while epoch < rates[row].len()
            invariant
                rates_fit(rates@, epochs as int, classes as int),
                row < rates@.len(),
                epoch <= rates@[row as int]@.len(),
                grid.shape() == seq![rates@.len() as int, epochs as int, classes as int],
                forall|r: int, e: int, c: int|
                    0 <= r < rates@.len() && 0 <= e < epochs && 0 <= c < classes
                        ==> #[trigger] grid.number3(r, e, c) == (if r < row || r == row && e
                        < epoch {
                        rate_said(rates@, r, e, c)
                    } else {
                        Binary64::zero()
                    }),
            decreases rates@[row as int]@.len() - epoch,
        {
            proof {
                assert(rates@[row as int]@[epoch as int]@.len() > 0 ==> epoch < epochs
                    && rates@[row as int]@[epoch as int]@.len() <= classes);
            }
            let mut category: usize = 0;
            while category < rates[row][epoch].len()
                invariant
                    row < rates@.len(),
                    epoch < rates@[row as int]@.len(),
                    rates@[row as int]@[epoch as int]@.len() > 0 ==> epoch < epochs
                        && rates@[row as int]@[epoch as int]@.len() <= classes,
                    category <= rates@[row as int]@[epoch as int]@.len(),
                    grid.shape() == seq![rates@.len() as int, epochs as int, classes as int],
                    forall|r: int, e: int, c: int|
                        0 <= r < rates@.len() && 0 <= e < epochs && 0 <= c < classes
                            ==> #[trigger] grid.number3(r, e, c) == (if r < row || r == row && (e
                            < epoch || e == epoch && c < category) {
                            rate_said(rates@, r, e, c)
                        } else {
                            Binary64::zero()
                        }),
                decreases rates@[row as int]@[epoch as int]@.len() - category,
            {
                let ghost before: Grid = grid;
                let value: Binary64 = rates[row][epoch][category];
                grid.put3(row, epoch, category, value.bits);
                proof {
                    assert forall|r: int, e: int, c: int|
                        0 <= r < rates@.len() && 0 <= e < epochs && 0 <= c < classes implies
                        #[trigger] grid.number3(r, e, c) == (if r < row || r == row && (e < epoch
                        || e == epoch && c < category + 1) {
                        rate_said(rates@, r, e, c)
                    } else {
                        Binary64::zero()
                    }) by {
                        let there: Seq<int> = seq![r, e, c];
                        let here: Seq<int> = seq![row as int, epoch as int, category as int];
                        assert(there[0] == r && there[1] == e && there[2] == c);
                        assert(here[0] == row && here[1] == epoch && here[2] == category);
                        assert(before.number3(r, e, c) == (if r < row || r == row && (e < epoch
                            || e == epoch && c < category) {
                            rate_said(rates@, r, e, c)
                        } else {
                            Binary64::zero()
                        }));
                    }
                }
                category = category + 1;
            }
            epoch = epoch + 1;
        }
        row = row + 1;
    }
    Some(grid)
}

/// Read the rulebook's flags; `None` if a row of it is too long.
pub(crate) fn read_flags(flags: &Vec<Vec<bool>>, classes: usize) -> (grid: Option<Grid>)
    ensures
        grid is Some <==> {
            &&& flags_fit(flags@, classes as int)
            &&& grid::storable(seq![flags@.len() as int, classes as int])
        },
        grid matches Some(grid) ==> flag_table_of(grid, flags@, classes as int),
{
    if !flags_checked(flags, classes) {
        return None;
    }
    let shape: [usize; 2] = [flags.len(), classes];
    proof {
        assert(grid::ints(shape@) =~= seq![flags@.len() as int, classes as int]);
    }
    let mut grid: Grid = match Grid::new(&shape, 0) {
        Some(grid) => grid,
        None => {
            return None;
        },
    };
    proof {
        assert forall|r: int, c: int| 0 <= r < flags@.len() && 0 <= c < classes implies !(
        #[trigger] grid.on2(r, c)) by {
            assert(grid::inside(grid::ints(shape@), grid::pair(r, c)));
        }
    }
    let mut row: usize = 0;
    while row < flags.len()
        invariant
            flags_fit(flags@, classes as int),
            row <= flags@.len(),
            grid.shape() == seq![flags@.len() as int, classes as int],
            forall|r: int, c: int|
                0 <= r < flags@.len() && 0 <= c < classes ==> #[trigger] grid.on2(r, c) == (r
                    < row && flag_said(flags@, r, c)),
        decreases flags@.len() - row,
    {
        let mut category: usize = 0;
        while category < flags[row].len()
            invariant
                flags_fit(flags@, classes as int),
                row < flags@.len(),
                category <= flags@[row as int]@.len(),
                grid.shape() == seq![flags@.len() as int, classes as int],
                forall|r: int, c: int|
                    0 <= r < flags@.len() && 0 <= c < classes ==> #[trigger] grid.on2(r, c) == ((r
                        < row || r == row && c < category) && flag_said(flags@, r, c)),
            decreases flags@[row as int]@.len() - category,
        {
            let ghost before: Grid = grid;
            proof {
                assert(flags@[row as int]@.len() <= classes);
            }
            grid.put2(
                row,
                category,
                if flags[row][category] {
                    1
                } else {
                    0
                },
            );
            proof {
                assert forall|r: int, c: int| 0 <= r < flags@.len() && 0 <= c < classes implies
                    #[trigger] grid.on2(r, c) == ((r < row || r == row && c < category + 1)
                    && flag_said(flags@, r, c)) by {
                    assert(grid::pair(r, c)[0] == r && grid::pair(r, c)[1] == c);
                    assert(grid::pair(row as int, category as int)[0] == row);
                    assert(grid::pair(row as int, category as int)[1] == category);
                    assert(before.on2(r, c) == ((r < row || r == row && c < category)
                        && flag_said(flags@, r, c)));
                }
            }
            category = category + 1;
        }
        row = row + 1;
    }
    Some(grid)
}

}
