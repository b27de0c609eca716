//! The columns a frame hands over, and the planes they are read into.
//!
//! A cell holding the market is a list — every instrument the account's
//! universe covers, in one fixed order — so a list column is a row per bar,
//! a row may be missing, and so may a value of a row.

use vstd::prelude::*;

use crate::binary64::Binary64;

verus! {

/// One column of a frame.
pub enum Column {
    /// Lists of doubles.
    NumberLists(Vec<Option<Vec<Option<Binary64>>>>),
    /// Lists of booleans.
    SwitchLists(Vec<Option<Vec<Option<bool>>>>),
    /// Lists of 32-bit integers.
    CodeLists(Vec<Option<Vec<Option<i32>>>>),
    /// Lists of anything else, by their lengths.
    OtherLists(Vec<Option<usize>>),
    /// Booleans.
    Switches(Vec<Option<bool>>),
    /// 32-bit integers.
    Codes(Vec<Option<i32>>),
    /// Anything else.
    Other,
}

/// What a part of the simulation needs a column to be.
#[derive(Clone, Copy)]
pub enum Kind {
    /// Lists.
    Lists,
    /// Lists of doubles, read as a whole: lists of another type pass only
    /// if there are rows and all are missing.
    NumberPlane,
    /// Lists of booleans, read as a whole: lists of another type pass only
    /// if there are rows and all are missing.
    SwitchPlane,
    /// Lists of doubles, read row by row: lists of another type pass if all
    /// rows are missing.
    NumberRows,
    /// Lists of codes, read row by row: lists of another type pass if all
    /// rows are missing.
    CodeRows,
    /// Booleans.
    Switches,
    /// Codes.
    Codes,
}

/// How long a row is, if it is there.
pub open spec fn row_length<T>(row: Option<Vec<Option<T>>>) -> Option<int> {
    match row {
        Some(list) => Some(list@.len() as int),
        None => None,
    }
}

/// A row's value, if the row is there, is long enough and has it.
pub open spec fn value_at<T>(rows: Seq<Option<Vec<Option<T>>>>, b: int, i: int) -> Option<T> {
    if 0 <= b < rows.len() && 0 <= i && rows[b] is Some && i < rows[b]->0@.len() {
        rows[b]->0@[i]
    } else {
        None
    }
}

/// The values of all the rows that are there, one row after another.
pub open spec fn joined<T>(rows: Seq<Option<Vec<Option<T>>>>) -> Seq<Option<T>>
    decreases rows.len(),
{
    if rows.len() == 0 {
        Seq::empty()
    } else {
        match rows.last() {
            Some(list) => joined(rows.drop_last()) + list@,
            None => joined(rows.drop_last()),
        }
    }
}

/// Whether no row and no value is missing, and there are so many values.
pub open spec fn complete<T>(rows: Seq<Option<Vec<Option<T>>>>, cells: int) -> bool {
    &&& forall|b: int| 0 <= b < rows.len() ==> #[trigger] rows[b] is Some
    &&& joined(rows).len() == cells
    &&& forall|k: int| 0 <= k < joined(rows).len() ==> #[trigger] joined(rows)[k] is Some
}

/// Whether the rows can be read into a `(steps, width)` plane: they fill it
/// exactly, or every row with a value has a bar and is not too long.
pub open spec fn placeable<T>(rows: Seq<Option<Vec<Option<T>>>>, steps: int, width: int) -> bool {
    complete(rows, steps * width) || forall|b: int|
        0 <= b < rows.len() && (#[trigger] rows[b]) is Some && rows[b]->0@.len() > 0 ==> b < steps
            && rows[b]->0@.len() <= width
}

/// A cell of the plane: the value that falls there when the rows fill the
/// plane exactly, and the row's own value, if it has one, when not.
pub open spec fn plane_cell<T>(
    rows: Seq<Option<Vec<Option<T>>>>,
    steps: int,
    width: int,
    b: int,
    i: int,
) -> Option<T> {
    if complete(rows, steps * width) {
        joined(rows)[b * width + i]
    } else {
        value_at(rows, b, i)
    }
}

impl Column {
    /// The lengths of the rows of a list column, if it is one.
    pub open spec fn lengths(self) -> Option<Seq<Option<int>>> {
        match self {
            Column::NumberLists(rows) => Some(
                rows@.map_values(|row: Option<Vec<Option<Binary64>>>| row_length(row)),
            ),
            Column::SwitchLists(rows) => Some(
                rows@.map_values(|row: Option<Vec<Option<bool>>>| row_length(row)),
            ),
            Column::CodeLists(rows) => Some(
                rows@.map_values(|row: Option<Vec<Option<i32>>>| row_length(row)),
            ),
            Column::OtherLists(rows) => Some(
                rows@.map_values(
                    |row: Option<usize>|
                        match row {
                            Some(length) => Some(length as int),
                            None => None::<int>,
                        },
                ),
            ),
            _ => None,
        }
    }

    /// Whether this is a list column whose rows are all missing.
    pub open spec fn blank(self) -> bool {
        self.lengths() matches Some(lengths) && forall|b: int|
            0 <= b < lengths.len() ==> #[trigger] lengths[b] is None
    }

    /// Whether the column is what a part of the simulation needs.
    pub open spec fn meets(self, kind: Kind) -> bool {
        match kind {
            Kind::Lists => self.lengths() is Some,
            Kind::NumberPlane => self is NumberLists || self.blank() && self.lengths()->0.len() > 0,
            Kind::SwitchPlane => self is SwitchLists || self.blank() && self.lengths()->0.len() > 0,
            Kind::NumberRows => self is NumberLists || self.blank(),
            Kind::CodeRows => self is CodeLists || self.blank(),
            Kind::Switches => self is Switches,
            Kind::Codes => self is Codes,
        }
    }

    /// The column's rows of doubles; none for a column of another type.
    pub open spec fn numbers(self) -> Seq<Option<Vec<Option<Binary64>>>> {
        match self {
            Column::NumberLists(rows) => rows@,
            _ => Seq::empty(),
        }
    }

    /// The column's rows of booleans; none for a column of another type.
    pub open spec fn switches(self) -> Seq<Option<Vec<Option<bool>>>> {
        match self {
            Column::SwitchLists(rows) => rows@,
            _ => Seq::empty(),
        }
    }

    /// The column's rows of codes; none for a column of another type.
    pub open spec fn codes(self) -> Seq<Option<Vec<Option<i32>>>> {
        match self {
            Column::CodeLists(rows) => rows@,
            _ => Seq::empty(),
        }
    }

    /// The lengths of the rows of a list column, if it is one.
    pub(crate) fn row_lengths(&self) -> (lengths: Option<Vec<Option<usize>>>)
        ensures
            lengths is Some <==> self.lengths() is Some,
            lengths matches Some(lengths) ==> {
                &&& lengths@.len() == self.lengths()->0.len()
                &&& forall|b: int|
                    0 <= b < lengths@.len() ==> match (#[trigger] lengths@[b]) {
                        Some(length) => self.lengths()->0[b] == Some(length as int),
                        None => self.lengths()->0[b] is None,
                    }
            },
    {
        match self {
            Column::NumberLists(rows) => Some(lengths_of(rows)),
            Column::SwitchLists(rows) => Some(lengths_of(rows)),
            Column::CodeLists(rows) => Some(lengths_of(rows)),
            Column::OtherLists(rows) => {
                let mut out: Vec<Option<usize>> = Vec::new();
                let mut b: usize = 0;
                while b < rows.len()
                    invariant
                        b <= rows@.len(),
                        out@ == rows@.take(b as int),
                    decreases rows@.len() - b,
                {
                    out.push(rows[b]);
                    b = b + 1;
                    proof {
                        assert(out@ =~= rows@.take(b as int));
                    }
                }
                Some(out)
            },
            _ => None,
        }
    }

    /// Whether the column is what a part of the simulation needs.
    pub(crate) fn is(&self, kind: Kind) -> (met: bool)
        ensures
            met == self.meets(kind),
    {
        match kind {
            Kind::Switches => match self {
                Column::Switches(_) => true,
                _ => false,
            },
            Kind::Codes => match self {
                Column::Codes(_) => true,
                _ => false,
            },
            _ => {
                let lengths: Vec<Option<usize>> = match self.row_lengths() {
                    Some(lengths) => lengths,
                    None => {
                        return false;
                    },
                };
                let mut blank: bool = true;
                let mut b: usize = 0;
                while b < lengths.len()
                    invariant
                        b <= lengths@.len(),
                        self.lengths() is Some,
                        lengths@.len() == self.lengths()->0.len(),
                        forall|k: int|
                            0 <= k < lengths@.len() ==> match (#[trigger] lengths@[k]) {
                                Some(length) => self.lengths()->0[k] == Some(length as int),
                                None => self.lengths()->0[k] is None,
                            },
                        blank == forall|k: int|
                            0 <= k < b ==> #[trigger] self.lengths()->0[k] is None,
                    decreases lengths@.len() - b,
                {
                    if lengths[b].is_some() {
                        blank = false;
                        proof {
                            assert(self.lengths()->0[b as int] is Some);
                        }
                    }
                    b = b + 1;
                }
                match kind {
                    Kind::Lists => true,
                    Kind::NumberPlane => match self {
                        Column::NumberLists(_) => true,
                        _ => blank && lengths.len() > 0,
                    },
                    Kind::SwitchPlane => match self {
                        Column::SwitchLists(_) => true,
                        _ => blank && lengths.len() > 0,
                    },
                    Kind::NumberRows => match self {
                        Column::NumberLists(_) => true,
                        _ => blank,
                    },
                    _ => match self {
                        Column::CodeLists(_) => true,
                        _ => blank,
                    },
                }
            },
        }
    }
}

fn lengths_of<T>(rows: &Vec<Option<Vec<Option<T>>>>) -> (lengths: Vec<Option<usize>>)
    ensures
        lengths@.len() == rows@.len(),
        forall|b: int|
            0 <= b < lengths@.len() ==> match (#[trigger] lengths@[b]) {
                Some(length) => row_length(rows@[b]) == Some(length as int),
                None => row_length(rows@[b]) is None,
            },
{
    let mut out: Vec<Option<usize>> = Vec::new();
    let mut b: usize = 0;
    while b < rows.len()
        invariant
            b <= rows@.len(),
            out@.len() == b,
            forall|k: int|
                0 <= k < b ==> match (#[trigger] out@[k]) {
                    Some(length) => row_length(rows@[k]) == Some(length as int),
                    None => row_length(rows@[k]) is None,
                },
        decreases rows@.len() - b,
    {
        match &rows[b] {
            Some(list) => out.push(Some(list.len())),
            None => out.push(None),
        }
        b = b + 1;
    }
    out
}

/// All the values there are, one row after another, if no row and no value
/// is missing.
fn flattened<T: Copy>(rows: &Vec<Option<Vec<Option<T>>>>) -> (out: Option<Vec<T>>)
    ensures
        out is Some <==> complete(rows@, joined(rows@).len() as int),
        out matches Some(values) ==> {
            &&& values@.len() == joined(rows@).len()
            &&& forall|k: int|
                0 <= k < values@.len() ==> joined(rows@)[k] == Some(#[trigger] values@[k])
        },
{
    let mut out: Vec<T> = Vec::new();
    let mut b: usize = 0;
    proof {
        assert(rows@.take(0) =~= Seq::<Option<Vec<Option<T>>>>::empty());
    }
    while b < rows.len()
        invariant
            b <= rows@.len(),
            forall|k: int| 0 <= k < b ==> #[trigger] rows@[k] is Some,
            out@.len() == joined(rows@.take(b as int)).len(),
            forall|k: int|
                0 <= k < out@.len() ==> joined(rows@.take(b as int))[k] == Some(
                    #[trigger] out@[k],
                ),
        decreases rows@.len() - b,
    {
        let ghost part: Seq<Option<T>> = joined(rows@.take(b as int));
        proof {
            assert(rows@.take(b + 1).drop_last() =~= rows@.take(b as int));
            lemma_joined_prefix(rows@, b + 1);
        }
        match &rows[b] {
            None => {
                proof {
                    assert(rows@[b as int] is None);
                }
                return None;
            },
            Some(list) => {
                let mut i: usize = 0;
                while i < list.len()
                    invariant
                        i <= list@.len(),
                        b < rows@.len(),
                        rows@[b as int] == Some(*list),
                        joined(rows@.take(b + 1)) == part + list@,
                        forall|k: int|
                            0 <= k < joined(rows@.take(b + 1)).len() ==> #[trigger] joined(
                                rows@.take(b + 1),
                            )[k] == joined(rows@)[k],
                        joined(rows@.take(b + 1)).len() <= joined(rows@).len(),
                        out@.len() == part.len() + i,
                        forall|k: int|
                            0 <= k < out@.len() ==> (part + list@)[k] == Some(#[trigger] out@[k]),
                    decreases list@.len() - i,
                {
                    match list[i] {
                        Some(value) => {
                            out.push(value);
                        },
                        None => {
                            proof {
                                let k: int = part.len() + i;
                                assert((part + list@)[k] == list@[i as int]);
                                assert(joined(rows@.take(b + 1))[k] == joined(rows@)[k]);
                                assert(joined(rows@)[k] is None);
                            }
                            return None;
                        },
                    }
                    i = i + 1;
                }
            },
        }
        b = b + 1;
    }
    proof {
        assert(rows@.take(b as int) =~= rows@);
        assert forall|k: int| 0 <= k < joined(rows@).len() implies #[trigger] joined(
            rows@,
        )[k] is Some by {
            assert(joined(rows@)[k] == Some(out@[k]));
        }
    }
    Some(out)
}

/// The first rows' values come first.
proof fn lemma_joined_prefix<T>(rows: Seq<Option<Vec<Option<T>>>>, n: int)
    requires
        0 <= n <= rows.len(),
    ensures
        joined(rows.take(n)).len() <= joined(rows).len(),
        forall|k: int|
            0 <= k < joined(rows.take(n)).len() ==> #[trigger] joined(rows.take(n))[k] == joined(
                rows,
            )[k],
    decreases rows.len() - n,
{
    if n == rows.len() {
        assert(rows.take(n) =~= rows);
    } else {
        lemma_joined_prefix(rows, n + 1);
        assert(rows.take(n + 1).drop_last() =~= rows.take(n));
        let more: Seq<Option<T>> = joined(rows.take(n + 1));
        assert forall|k: int| 0 <= k < joined(rows.take(n)).len() implies #[trigger] joined(
            rows.take(n),
        )[k] == joined(rows)[k] by {
            assert(more[k] == joined(rows)[k]);
        }
    }
}

/// Rows that each give every name a value are read cell by cell: row by row
/// and straight through come to the same.
pub proof fn law_full_rows_read_through<T>(
    rows: Seq<Option<Vec<Option<T>>>>,
    steps: int,
    width: int,
    b: int,
    i: int,
)
    requires
        rows.len() == steps,
        0 <= b < steps,
        0 <= i < width,
        forall|c: int|
            0 <= c < steps ==> (#[trigger] rows[c]) is Some && rows[c]->0@.len() == width,
    ensures
        plane_cell(rows, steps, width, b, i) == rows[b]->0@[i],
{
    lemma_joined_cell(rows, width, b, i);
}

proof fn lemma_joined_cell<T>(rows: Seq<Option<Vec<Option<T>>>>, width: int, b: int, i: int)
    requires
        0 <= b < rows.len(),
        0 <= i < width,
        forall|c: int|
            0 <= c < rows.len() ==> (#[trigger] rows[c]) is Some && rows[c]->0@.len() == width,
    ensures
        joined(rows).len() == rows.len() * width,
        joined(rows)[b * width + i] == rows[b]->0@[i],
    decreases rows.len(),
{
    let front: Seq<Option<Vec<Option<T>>>> = rows.drop_last();
    let n: int = front.len() as int;
    assert(rows[rows.len() - 1] is Some);
    assert forall|c: int| 0 <= c < front.len() implies (#[trigger] front[c]) is Some
        && front[c]->0@.len() == width by {
        assert(rows[c] is Some);
    }
    assert((n + 1) * width == n * width + width) by (nonlinear_arith);
    if n == 0 {
        assert(joined(front).len() == 0);
        assert(0 * width == 0);
    } else {
        lemma_joined_cell(front, width, if b < n { b } else { 0 }, i);
        if b < n {
            assert(b * width + i < n * width) by (nonlinear_arith)
                requires
                    b + 1 <= n,
                    i < width,
                    0 <= width,
            ;
            assert(b * width + i >= 0) by (nonlinear_arith)
                requires
                    0 <= b,
                    0 <= i,
                    0 <= width,
            ;
        }
    }
}

/// Whether every row with a value has a bar and is not too long.
fn rows_fit<T>(rows: &Vec<Option<Vec<Option<T>>>>, steps: usize, width: usize) -> (fit: bool)
    ensures
        fit == forall|b: int|
            0 <= b < rows@.len() && (#[trigger] rows@[b]) is Some && rows@[b]->0@.len() > 0 ==> b
                < steps && rows@[b]->0@.len() <= width,
{
    let mut b: usize = 0;
    while b < rows.len()
        invariant
            b <= rows@.len(),
            forall|k: int|
                0 <= k < b && (#[trigger] rows@[k]) is Some && rows@[k]->0@.len() > 0 ==> k < steps
                    && rows@[k]->0@.len() <= width,
        decreases rows@.len() - b,
    {
        match &rows[b] {
            Some(list) => {
                if list.len() > 0 && (b >= steps || list.len() > width) {
                    proof {
                        assert(rows@[b as int] is Some);
                    }
                    return false;
                }
            },
            None => {},
        }
        b = b + 1;
    }
    true
}

/// The rows laid out as a `(steps, width)` plane, row after row; `None` if
/// they cannot be.
pub(crate) fn lay_out<T: Copy>(
    rows: &Vec<Option<Vec<Option<T>>>>,
    steps: usize,
    width: usize,
) -> (out: Option<Vec<Option<T>>>)
    requires
        steps * width <= usize::MAX,
    ensures
        out is Some <==> placeable(rows@, steps as int, width as int),
        out matches Some(cells) ==> {
            &&& cells@.len() == steps * width
            &&& forall|b: int, i: int|
                0 <= b < steps && 0 <= i < width ==> #[trigger] cells@[crate::ledger::cell_of(
                    width as int,
                    b,
                    i,
                )] == plane_cell(rows@, steps as int, width as int, b, i)
        },
{
    proof {
        assert(0 <= steps * width) by (nonlinear_arith);
    }
    let mut out: Vec<Option<T>> = Vec::new();
    match flattened(rows) {
        Some(values) => {
            if values.len() == steps * width {
                let mut k: usize = 0;
                while k < values.len()
                    invariant
                        k <= values@.len(),
                        out@.len() == k,
                        values@.len() == joined(rows@).len(),
                        forall|j: int|
                            0 <= j < values@.len() ==> joined(rows@)[j] == Some(
                                #[trigger] values@[j],
                            ),
                        forall|j: int| 0 <= j < k ==> #[trigger] out@[j] == joined(rows@)[j],
                    decreases values@.len() - k,
                {
                    out.push(Some(values[k]));
                    k = k + 1;
                }
                proof {
                    assert forall|b: int, i: int| 0 <= b < steps && 0 <= i < width implies
                        #[trigger] out@[crate::ledger::cell_of(width as int, b, i)] == plane_cell(
                        rows@,
                        steps as int,
                        width as int,
                        b,
                        i,
                    ) by {
                        crate::ledger::lemma_cell(steps as int, width as int, b, i);
                    }
                }
                return Some(out);
            }
        },
        None => {},
    }
    proof {
        assert(!complete(rows@, steps * width));
    }
    if !rows_fit(rows, steps, width) {
        return None;
    }
    let mut b: usize = 0;
    proof {
        assert(0 * width == 0);
    }
    while b < steps
        invariant
            b <= steps,
            out@.len() == b * width,
            forall|c: int, i: int|
                0 <= c < b && 0 <= i < width ==> #[trigger] out@[crate::ledger::cell_of(
                    width as int,
                    c,
                    i,
                )] == value_at(rows@, c, i),
        decreases steps - b,
    {
        let ghost done: Seq<Option<T>> = out@;
        let mut i: usize = 0;
        while i < width
            invariant
                b < steps,
                i <= width,
                done.len() == b * width,
                out@.len() == done.len() + i,
                forall|k: int| 0 <= k < done.len() ==> #[trigger] out@[k] == done[k],
                forall|j: int| 0 <= j < i ==> out@[done.len() + j] == #[trigger] value_at(rows@, b as int, j),
            decreases width - i,
        {
            let mut value: Option<T> = None;
            if b < rows.len() {
                match &rows[b] {
                    Some(list) => {
                        if i < list.len() {
                            value = list[i];
                        }
                    },
                    None => {},
                }
            }
            proof {
                assert(value == value_at(rows@, b as int, i as int));
            }
            out.push(value);
            i = i + 1;
        }
        proof {
            assert((b + 1) * width == b * width + width) by (nonlinear_arith);
            assert forall|c: int, j: int| 0 <= c < b + 1 && 0 <= j < width implies #[trigger] out@[
                crate::ledger::cell_of(width as int, c, j)
            ] == value_at(rows@, c, j) by {
                crate::ledger::lemma_cell(b + 1, width as int, c, j);
                if c < b {
                    crate::ledger::lemma_cell(b as int, width as int, c, j);
                    assert(done[crate::ledger::cell_of(width as int, c, j)] == value_at(
                        rows@,
                        c,
                        j,
                    ));
                } else {
                    assert(value_at(rows@, b as int, j) == out@[done.len() + j]);
                }
            }
        }
        b = b + 1;
    }
    Some(out)
}

}
