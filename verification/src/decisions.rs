//! Numbering the decisions.
//!
//! Every firing's rows that are there become plan rows, numbered in bar
//! order per tranche; the firing table points each bar and price point at
//! its row.

use vstd::prelude::*;

use crate::assembly::{or_none, or_off};
use crate::binary64::Binary64;
use crate::frame::value_at;
use crate::frame::Column;
use crate::grid;
use crate::grid::Grid;
use crate::plugin::Firing;

verus! {

/// The most rows a tranche's plan can have: a firing table holds their
/// numbers as codes.
pub const MOST_ROWS: usize = 0x7fff_ffff;

/// Whether a firing fires on a bar: its plan column has a row there.
pub open spec fn fires(inputs: Seq<Column>, firing: Firing, b: int) -> bool {
    let rows = inputs[firing.plan as int].numbers();
    0 <= b < rows.len() && rows[b] is Some
}

/// How many of the first `n` firings are of a tranche and fire on a bar.
pub open spec fn in_bar(inputs: Seq<Column>, firings: Seq<Firing>, t: int, b: int, n: int) -> int
    decreases n,
{
    if n <= 0 {
        0
    } else {
        in_bar(inputs, firings, t, b, n - 1) + if firings[n - 1].tranche == t && fires(
            inputs,
            firings[n - 1],
            b,
        ) {
            1int
        } else {
            0
        }
    }
}

/// Whether firing `g` comes before firing `f` on a bar: at an earlier price
/// point, or listed earlier at the same one.
pub open spec fn ahead(firings: Seq<Firing>, g: int, f: int) -> bool {
    firings[g].point < firings[f].point || firings[g].point == firings[f].point && g < f
}

/// How many of the first `n` firings are of firing `f`'s tranche, fire on a
/// bar, and come before it.
pub open spec fn before(inputs: Seq<Column>, firings: Seq<Firing>, f: int, b: int, n: int) -> int
    decreases n,
{
    if n <= 0 {
        0
    } else {
        before(inputs, firings, f, b, n - 1) + if firings[n - 1].tranche == firings[f].tranche
            && fires(inputs, firings[n - 1], b) && ahead(firings, n - 1, f) {
            1int
        } else {
            0
        }
    }
}

/// How many rows a tranche has on the bars before `b`.
pub open spec fn rows_before(inputs: Seq<Column>, firings: Seq<Firing>, t: int, b: int) -> int
    decreases b,
{
    if b <= 0 {
        0
    } else {
        rows_before(inputs, firings, t, b - 1) + in_bar(
            inputs,
            firings,
            t,
            b - 1,
            firings.len() as int,
        )
    }
}

/// The plan row a firing's decision on a bar has: the firings of one tranche
/// interleave by bar, then by point.
pub open spec fn row_number(inputs: Seq<Column>, firings: Seq<Firing>, f: int, b: int) -> int {
    rows_before(inputs, firings, firings[f].tranche as int, b) + before(
        inputs,
        firings,
        f,
        b,
        firings.len() as int,
    )
}

/// The most rows any of the first `n` tranches has, and at least one.
pub open spec fn depth(inputs: Seq<Column>, firings: Seq<Firing>, steps: int, n: int) -> int
    decreases n,
{
    if n <= 0 {
        1
    } else {
        let rest = depth(inputs, firings, steps, n - 1);
        let rows = rows_before(inputs, firings, n - 1, steps);
        if rest < rows {
            rows
        } else {
            rest
        }
    }
}

/// The row a tranche decides by at a price point of a bar, by the first `n`
/// firings: that of the last one that fires there; -1 for none.
pub open spec fn decided_row(
    inputs: Seq<Column>,
    firings: Seq<Firing>,
    t: int,
    b: int,
    p: int,
    n: int,
) -> int
    decreases n,
{
    if n <= 0 {
        -1int
    } else if firings[n - 1].tranche == t && firings[n - 1].point == p && fires(
        inputs,
        firings[n - 1],
        b,
    ) {
        row_number(inputs, firings, n - 1, b)
    } else {
        decided_row(inputs, firings, t, b, p, n - 1)
    }
}

/// A boolean column's values; none for a column of another type.
pub open spec fn flags_of(column: Column) -> Seq<Option<bool>> {
    match column {
        Column::Switches(values) => values@,
        _ => Seq::empty(),
    }
}

/// Whether a tranche's firing at a price point of a bar acts only on a
/// change, by the first `n` firings: as the last one that fires there and
/// names a standing column says; no, if none does.
pub open spec fn decided_standing(
    inputs: Seq<Column>,
    firings: Seq<Firing>,
    t: int,
    b: int,
    p: int,
    n: int,
) -> bool
    decreases n,
{
    if n <= 0 {
        false
    } else if firings[n - 1].tranche == t && firings[n - 1].point == p && firings[n
        - 1].standing is Some && fires(inputs, firings[n - 1], b) {
        or_off(flags_of(inputs[firings[n - 1].standing->0 as int])[b])
    } else {
        decided_standing(inputs, firings, t, b, p, n - 1)
    }
}

/// Whether a firing's row on a bar has a place: a tranche and a price point
/// of the account, a bar of the walk, no more names than there are, and a
/// standing flag if the firing names a column of them.
pub open spec fn firing_fits(
    inputs: Seq<Column>,
    firing: Firing,
    b: int,
    tranches: int,
    points: int,
    steps: int,
    width: int,
) -> bool {
    &&& firing.tranche < tranches
    &&& firing.point < points
    &&& b < steps
    &&& inputs[firing.plan as int].numbers()[b]->0@.len() <= width
    &&& firing.standing matches Some(index) ==> b < flags_of(inputs[index as int]).len()
}

/// Whether every row of every firing has a place.
pub open spec fn firings_fit(
    inputs: Seq<Column>,
    firings: Seq<Firing>,
    tranches: int,
    points: int,
    steps: int,
    width: int,
) -> bool {
    forall|f: int, b: int|
        0 <= f < firings.len() && #[trigger] fires(inputs, firings[f], b) ==> firing_fits(
            inputs,
            firings[f],
            b,
            tranches,
            points,
            steps,
            width,
        )
}

proof fn lemma_in_bar(inputs: Seq<Column>, firings: Seq<Firing>, t: int, b: int, n: int)
    requires
        0 <= n,
    ensures
        0 <= in_bar(inputs, firings, t, b, n) <= n,
    decreases n,
{
    if n > 0 {
        lemma_in_bar(inputs, firings, t, b, n - 1);
    }
}

proof fn lemma_rows_before(inputs: Seq<Column>, firings: Seq<Firing>, t: int, b: int, c: int)
    requires
        0 <= b <= c,
    ensures
        0 <= rows_before(inputs, firings, t, b) <= rows_before(inputs, firings, t, c),
    decreases c,
{
    if c > 0 {
        lemma_in_bar(inputs, firings, t, c - 1, firings.len() as int);
        if b < c {
            lemma_rows_before(inputs, firings, t, b, c - 1);
        } else {
            lemma_rows_before(inputs, firings, t, b - 1, c - 1);
        }
    }
}

/// What comes before a firing on a bar, and the firing itself, are firings
/// of its tranche on that bar.
proof fn lemma_before(inputs: Seq<Column>, firings: Seq<Firing>, f: int, b: int, n: int)
    requires
        0 <= f < firings.len(),
        0 <= n <= firings.len(),
        fires(inputs, firings[f], b),
    ensures
        0 <= before(inputs, firings, f, b, n),
        before(inputs, firings, f, b, n) + (if f < n {
            1int
        } else {
            0
        }) <= in_bar(inputs, firings, firings[f].tranche as int, b, n),
    decreases n,
{
    if n > 0 {
        lemma_before(inputs, firings, f, b, n - 1);
    }
}

/// A firing that comes before another has less before it.
proof fn lemma_ahead(inputs: Seq<Column>, firings: Seq<Firing>, f: int, g: int, b: int, n: int)
    requires
        0 <= f < firings.len(),
        0 <= g < firings.len(),
        0 <= n <= firings.len(),
        firings[f].tranche == firings[g].tranche,
        fires(inputs, firings[f], b),
        ahead(firings, f, g),
    ensures
        before(inputs, firings, f, b, n) + (if f < n {
            1int
        } else {
            0
        }) <= before(inputs, firings, g, b, n),
    decreases n,
{
    if n > 0 {
        lemma_ahead(inputs, firings, f, g, b, n - 1);
    }
}

/// A row's number is below the number of rows there are.
pub proof fn lemma_row_number(
    inputs: Seq<Column>,
    firings: Seq<Firing>,
    f: int,
    b: int,
    steps: int,
)
    requires
        0 <= f < firings.len(),
        fires(inputs, firings[f], b),
        b < steps,
    ensures
        0 <= row_number(inputs, firings, f, b),
        row_number(inputs, firings, f, b) < rows_before(
            inputs,
            firings,
            firings[f].tranche as int,
            b + 1,
        ),
        row_number(inputs, firings, f, b) < rows_before(
            inputs,
            firings,
            firings[f].tranche as int,
            steps,
        ),
{
    let t: int = firings[f].tranche as int;
    lemma_before(inputs, firings, f, b, firings.len() as int);
    lemma_rows_before(inputs, firings, t, b, b);
    lemma_rows_before(inputs, firings, t, b + 1, steps);
}

/// Two decisions of one tranche never share a plan row.
pub proof fn law_rows_distinct(
    inputs: Seq<Column>,
    firings: Seq<Firing>,
    f: int,
    b: int,
    g: int,
    c: int,
)
    requires
        0 <= f < firings.len(),
        0 <= g < firings.len(),
        firings[f].tranche == firings[g].tranche,
        fires(inputs, firings[f], b),
        fires(inputs, firings[g], c),
        f != g || b != c,
    ensures
        row_number(inputs, firings, f, b) != row_number(inputs, firings, g, c),
{
    let t: int = firings[f].tranche as int;
    let n: int = firings.len() as int;
    lemma_before(inputs, firings, f, b, n);
    lemma_before(inputs, firings, g, c, n);
    if b < c {
        lemma_row_number(inputs, firings, f, b, c);
    } else if c < b {
        lemma_row_number(inputs, firings, g, c, b);
    } else if ahead(firings, f, g) {
        lemma_ahead(inputs, firings, f, g, b, n);
    } else {
        lemma_ahead(inputs, firings, g, f, b, n);
    }
}

/// An earlier decision of a tranche has a smaller row: by bar, then by
/// price point, then by its place among the firings.
pub proof fn law_rows_in_order(
    inputs: Seq<Column>,
    firings: Seq<Firing>,
    f: int,
    b: int,
    g: int,
    c: int,
)
    requires
        0 <= f < firings.len(),
        0 <= g < firings.len(),
        firings[f].tranche == firings[g].tranche,
        fires(inputs, firings[f], b),
        fires(inputs, firings[g], c),
        b < c || b == c && ahead(firings, f, g),
    ensures
        row_number(inputs, firings, f, b) < row_number(inputs, firings, g, c),
{
    let n: int = firings.len() as int;
    lemma_before(inputs, firings, g, c, n);
    if b < c {
        lemma_row_number(inputs, firings, f, b, c);
    } else {
        lemma_ahead(inputs, firings, f, g, b, n);
    }
}

/// Among a bar's firings of a tranche, every rank is some firing's.
proof fn lemma_rank(
    inputs: Seq<Column>,
    firings: Seq<Firing>,
    t: int,
    b: int,
    n: int,
    r: int,
) -> (f: int)
    requires
        0 <= n <= firings.len(),
        0 <= r < in_bar(inputs, firings, t, b, n),
    ensures
        0 <= f < n,
        firings[f].tranche == t,
        fires(inputs, firings[f], b),
        before(inputs, firings, f, b, n) == r,
    decreases n,
{
    let e: int = n - 1;
    if firings[e].tranche == t && fires(inputs, firings[e], b) {
        let own: int = before(inputs, firings, e, b, e);
        assert(!ahead(firings, e, e));
        lemma_before(inputs, firings, e, b, e);
        if r < own {
            let f: int = lemma_rank(inputs, firings, t, b, e, r);
            if ahead(firings, e, f) {
                lemma_ahead(inputs, firings, e, f, b, e);
            }
            f
        } else if r == own {
            e
        } else {
            let f: int = lemma_rank(inputs, firings, t, b, e, r - 1);
            if !ahead(firings, e, f) {
                lemma_ahead(inputs, firings, f, e, b, e);
            }
            f
        }
    } else {
        lemma_rank(inputs, firings, t, b, n - 1, r)
    }
}

/// Every row a tranche's plan has is some firing's decision on some bar.
pub proof fn law_every_row_is_a_decision(
    inputs: Seq<Column>,
    firings: Seq<Firing>,
    t: int,
    d: int,
    steps: int,
) -> (at: (int, int))
    requires
        0 <= steps,
        0 <= d < rows_before(inputs, firings, t, steps),
    ensures
        0 <= at.0 < firings.len(),
        0 <= at.1 < steps,
        firings[at.0].tranche == t,
        fires(inputs, firings[at.0], at.1),
        row_number(inputs, firings, at.0, at.1) == d,
    decreases steps,
{
    let b: int = steps - 1;
    if d < rows_before(inputs, firings, t, b) {
        law_every_row_is_a_decision(inputs, firings, t, d, b)
    } else {
        let r: int = d - rows_before(inputs, firings, t, b);
        let f: int = lemma_rank(inputs, firings, t, b, firings.len() as int, r);
        (f, b)
    }
}

pub(crate) proof fn lemma_depth(inputs: Seq<Column>, firings: Seq<Firing>, steps: int, t: int, n: int)
    requires
        0 <= t < n,
    ensures
        rows_before(inputs, firings, t, steps) <= depth(inputs, firings, steps, n),
    decreases n,
{
    if t < n - 1 {
        lemma_depth(inputs, firings, steps, t, n - 1);
    }
}

pub(crate) proof fn lemma_depth_positive(
    inputs: Seq<Column>,
    firings: Seq<Firing>,
    steps: int,
    n: int,
)
    ensures
        depth(inputs, firings, steps, n) >= 1,
    decreases n,
{
    if n > 0 {
        lemma_depth_positive(inputs, firings, steps, n - 1);
    }
}

fn fires_at(column: &Column, b: usize) -> (yes: bool)
    ensures
        yes == {
            let rows = column.numbers();
            0 <= b < rows.len() && rows[b as int] is Some
        },
{
    match column {
        Column::NumberLists(rows) => b < rows.len() && rows[b].is_some(),
        _ => false,
    }
}

/// Whether every column a firing names is one of the inputs, with standing
/// flags that are booleans.
pub open spec fn firings_named(inputs: Seq<Column>, firings: Seq<Firing>) -> bool {
    forall|f: int|
        0 <= f < firings.len() ==> {
            &&& (#[trigger] firings[f]).plan < inputs.len()
            &&& firings[f].standing matches Some(index) ==> index < inputs.len()
        }
}

/// Whether every row of every firing has a place.
pub(crate) fn check_firings(
    inputs: &[Column],
    firings: &Vec<Firing>,
    tranches: usize,
    points: usize,
    steps: usize,
    width: usize,
) -> (fit: bool)
    requires
        firings_named(inputs@, firings@),
    ensures
        fit == firings_fit(
            inputs@,
            firings@,
            tranches as int,
            points as int,
            steps as int,
            width as int,
        ),
{
    let mut f: usize = 0;
    while f < firings.len()
        invariant
            firings_named(inputs@, firings@),
            f <= firings@.len(),
            forall|g: int, b: int|
                0 <= g < f && #[trigger] fires(inputs@, firings@[g], b) ==> firing_fits(
                    inputs@,
                    firings@[g],
                    b,
                    tranches as int,
                    points as int,
                    steps as int,
                    width as int,
                ),
        decreases firings@.len() - f,
    {
        let firing: Firing = firings[f];
        let none: Vec<Option<Vec<Option<Binary64>>>> = Vec::new();
        let rows: &Vec<Option<Vec<Option<Binary64>>>> = match &inputs[firing.plan] {
            Column::NumberLists(rows) => rows,
            _ => &none,
        };
        let flags: usize = match firing.standing {
            Some(index) => match &inputs[index] {
                Column::Switches(values) => values.len(),
                _ => 0,
            },
            None => usize::MAX,
        };
        proof {
            assert(rows@ =~= inputs@[firing.plan as int].numbers());
            assert(rows.len() == rows@.len());
        }
        let mut b: usize = 0;
        while b < rows.len()
            invariant
                firings_named(inputs@, firings@),
                f < firings@.len(),
                firing == firings@[f as int],
                rows@ == inputs@[firing.plan as int].numbers(),
                rows@.len() <= usize::MAX,
                match firing.standing {
                    Some(index) => flags == flags_of(inputs@[index as int]).len(),
                    None => flags == usize::MAX,
                },
                b <= rows@.len(),
                forall|c: int|
                    0 <= c < b && #[trigger] fires(inputs@, firings@[f as int], c) ==> firing_fits(
                        inputs@,
                        firings@[f as int],
                        c,
                        tranches as int,
                        points as int,
                        steps as int,
                        width as int,
                    ),
            decreases rows@.len() - b,
        {
            match &rows[b] {
                Some(list) => {
                    proof {
                        assert(fires(inputs@, firings@[f as int], b as int));
                    }
                    if firing.tranche >= tranches || firing.point >= points || b >= steps
                        || list.len() > width || b >= flags {
                        proof {
                            assert(firing.standing is None ==> b < flags);
                        }
                        return false;
                    }
                },
                None => {},
            }
            b = b + 1;
        }
        f = f + 1;
    }
    true
}

/// How many of a bar's firings come before one of them.
fn count_before(inputs: &[Column], firings: &Vec<Firing>, f: usize, b: usize) -> (count: usize)
    requires
        firings_named(inputs@, firings@),
        f < firings@.len(),
    ensures
        count == before(inputs@, firings@, f as int, b as int, firings@.len() as int),
        count <= firings@.len(),
{
    let mut count: usize = 0;
    let mut g: usize = 0;
    while g < firings.len()
        invariant
            firings_named(inputs@, firings@),
            f < firings@.len(),
            g <= firings@.len(),
            count == before(inputs@, firings@, f as int, b as int, g as int),
            count <= g,
        decreases firings@.len() - g,
    {
        let other: Firing = firings[g];
        if other.tranche == firings[f].tranche && fires_at(&inputs[other.plan], b) && (other.point
            < firings[f].point || other.point == firings[f].point && g < f) {
            count = count + 1;
        }
        g = g + 1;
    }
    count
}

/// What numbering the rows comes to: each row's number, by bar and firing,
/// and how many rows the deepest tranche has.
pub(crate) struct Numbering {
    pub numbers: Vec<Vec<usize>>,
    pub deepest: usize,
}

/// Whether a bar's rows are numbered.
pub(crate) open spec fn bar_numbered(
    inputs: Seq<Column>,
    firings: Seq<Firing>,
    numbers: Seq<usize>,
    b: int,
) -> bool {
    &&& numbers.len() == firings.len()
    &&& forall|f: int|
        0 <= f < firings.len() && #[trigger] fires(inputs, firings[f], b) ==> numbers[f]
            == row_number(inputs, firings, f, b)
}

/// Number a bar's rows; `None` if one would have a number too large.
fn number_bar(
    inputs: &[Column],
    firings: &Vec<Firing>,
    totals: &Vec<usize>,
    b: usize,
) -> (numbers: Option<Vec<usize>>)
    requires
        firings_named(inputs@, firings@),
        forall|f: int|
            0 <= f < firings@.len() && #[trigger] fires(inputs@, firings@[f], b as int)
                ==> firings@[f].tranche < totals@.len(),
        forall|t: int|
            0 <= t < totals@.len() ==> #[trigger] totals@[t] == rows_before(
                inputs@,
                firings@,
                t,
                b as int,
            ),
        forall|t: int| 0 <= t < totals@.len() ==> #[trigger] totals@[t] <= MOST_ROWS,
    ensures
        numbers matches Some(numbers) ==> bar_numbered(inputs@, firings@, numbers@, b as int),
        numbers is None ==> exists|t: int|
            0 <= t < totals@.len() && #[trigger] rows_before(inputs@, firings@, t, b + 1)
                > MOST_ROWS,
{
    let mut numbers: Vec<usize> = Vec::new();
    let mut f: usize = 0;
    while f < firings.len()
        invariant
            firings_named(inputs@, firings@),
            forall|g: int|
                0 <= g < firings@.len() && #[trigger] fires(inputs@, firings@[g], b as int)
                    ==> firings@[g].tranche < totals@.len(),
            forall|t: int|
                0 <= t < totals@.len() ==> #[trigger] totals@[t] == rows_before(
                    inputs@,
                    firings@,
                    t,
                    b as int,
                ),
            forall|t: int| 0 <= t < totals@.len() ==> #[trigger] totals@[t] <= MOST_ROWS,
            f <= firings@.len(),
            numbers@.len() == f,
            forall|g: int|
                0 <= g < f && #[trigger] fires(inputs@, firings@[g], b as int) ==> numbers@[g]
                    == row_number(inputs@, firings@, g, b as int),
        decreases firings@.len() - f,
    {
        let firing: Firing = firings[f];
        if fires_at(&inputs[firing.plan], b) {
            proof {
                assert(fires(inputs@, firings@[f as int], b as int));
                lemma_row_number(inputs@, firings@, f as int, b as int, b + 1);
            }
            let ahead: usize = count_before(inputs, firings, f, b);
            let total: usize = totals[firing.tranche];
            if ahead > MOST_ROWS - total {
                return None;
            }
            numbers.push(total + ahead);
        } else {
            numbers.push(0);
        }
        f = f + 1;
    }
    Some(numbers)
}

/// Count a bar's rows in; `None` if a tranche would have too many.
fn count_bar(
    inputs: &[Column],
    firings: &Vec<Firing>,
    totals: &mut Vec<usize>,
    b: usize,
) -> (fit: bool)
    requires
        firings_named(inputs@, firings@),
        forall|f: int|
            0 <= f < firings@.len() && #[trigger] fires(inputs@, firings@[f], b as int)
                ==> firings@[f].tranche < old(totals)@.len(),
        forall|t: int|
            0 <= t < old(totals)@.len() ==> #[trigger] old(totals)@[t] == rows_before(
                inputs@,
                firings@,
                t,
                b as int,
            ),
        forall|t: int| 0 <= t < old(totals)@.len() ==> #[trigger] old(totals)@[t] <= MOST_ROWS,
    ensures
        final(totals)@.len() == old(totals)@.len(),
        fit ==> forall|t: int|
            0 <= t < final(totals)@.len() ==> #[trigger] final(totals)@[t] == rows_before(
                inputs@,
                firings@,
                t,
                b + 1,
            ),
        fit ==> forall|t: int|
            0 <= t < final(totals)@.len() ==> #[trigger] final(totals)@[t] <= MOST_ROWS,
        !fit ==> exists|t: int|
            0 <= t < old(totals)@.len() && #[trigger] rows_before(inputs@, firings@, t, b + 1)
                > MOST_ROWS,
{
    let mut f: usize = 0;
    let ghost width: nat = totals@.len();
    while f < firings.len()
        invariant
            firings_named(inputs@, firings@),
            totals@.len() == width,
            width == old(totals)@.len(),
            forall|g: int|
                0 <= g < firings@.len() && #[trigger] fires(inputs@, firings@[g], b as int)
                    ==> firings@[g].tranche < width,
            f <= firings@.len(),
            forall|t: int|
                0 <= t < width ==> #[trigger] totals@[t] == rows_before(
                    inputs@,
                    firings@,
                    t,
                    b as int,
                ) + in_bar(inputs@, firings@, t, b as int, f as int),
            forall|t: int| 0 <= t < width ==> #[trigger] totals@[t] <= MOST_ROWS,
        decreases firings@.len() - f,
    {
        let firing: Firing = firings[f];
        if fires_at(&inputs[firing.plan], b) {
            proof {
                assert(fires(inputs@, firings@[f as int], b as int));
            }
            let total: usize = totals[firing.tranche];
            if total >= MOST_ROWS {
                proof {
                    let t: int = firing.tranche as int;
                    lemma_in_bar_grows(
                        inputs@,
                        firings@,
                        t,
                        b as int,
                        f + 1,
                        firings@.len() as int,
                    );
                    assert(rows_before(inputs@, firings@, t, b + 1) > MOST_ROWS);
                }
                return false;
            }
            totals.set(firing.tranche, total + 1);
        }
        f = f + 1;
    }
    true
}

proof fn lemma_in_bar_grows(
    inputs: Seq<Column>,
    firings: Seq<Firing>,
    t: int,
    b: int,
    n: int,
    m: int,
)
    requires
        0 <= n <= m,
    ensures
        in_bar(inputs, firings, t, b, n) <= in_bar(inputs, firings, t, b, m),
    decreases m,
{
    if n < m {
        lemma_in_bar_grows(inputs, firings, t, b, n, m - 1);
    }
}

/// Number every row; `None` if a tranche has too many.
pub(crate) fn number_rows(
    inputs: &[Column],
    firings: &Vec<Firing>,
    tranches: usize,
    steps: usize,
) -> (out: Option<Numbering>)
    requires
        firings_named(inputs@, firings@),
        forall|f: int, b: int|
            0 <= f < firings@.len() && #[trigger] fires(inputs@, firings@[f], b)
                ==> firings@[f].tranche < tranches && b < steps,
    ensures
        out is Some <==> depth(inputs@, firings@, steps as int, tranches as int) <= MOST_ROWS,
        out matches Some(out) ==> {
            &&& out.deepest == depth(inputs@, firings@, steps as int, tranches as int)
            &&& out.numbers@.len() == steps
            &&& forall|b: int|
                0 <= b < steps ==> bar_numbered(
                    inputs@,
                    firings@,
                    (#[trigger] out.numbers@[b])@,
                    b,
                )
        },
{
    let mut totals: Vec<usize> = Vec::new();
    let mut t: usize = 0;
    while t < tranches
        invariant
            t <= tranches,
            totals@.len() == t,
            forall|k: int| 0 <= k < t ==> #[trigger] totals@[k] == 0,
        decreases tranches - t,
    {
        totals.push(0);
        t = t + 1;
    }
    let mut numbers: Vec<Vec<usize>> = Vec::new();
    let mut b: usize = 0;
    while b < steps
        invariant
            firings_named(inputs@, firings@),
            forall|f: int, c: int|
                0 <= f < firings@.len() && #[trigger] fires(inputs@, firings@[f], c)
                    ==> firings@[f].tranche < tranches && c < steps,
            b <= steps,
            totals@.len() == tranches,
            forall|k: int|
                0 <= k < tranches ==> #[trigger] totals@[k] == rows_before(
                    inputs@,
                    firings@,
                    k,
                    b as int,
                ),
            forall|k: int| 0 <= k < tranches ==> #[trigger] totals@[k] <= MOST_ROWS,
            numbers@.len() == b,
            forall|c: int|
                0 <= c < b ==> bar_numbered(inputs@, firings@, (#[trigger] numbers@[c])@, c),
        decreases steps - b,
    {
        match number_bar(inputs, firings, &totals, b) {
            Some(row) => {
                numbers.push(row);
            },
            None => {
                proof {
                    let k: int = choose|k: int|
                        0 <= k < totals@.len() && #[trigger] rows_before(
                            inputs@,
                            firings@,
                            k,
                            b + 1,
                        ) > MOST_ROWS;
                    lemma_rows_before(inputs@, firings@, k, b + 1, steps as int);
                    lemma_depth(inputs@, firings@, steps as int, k, tranches as int);
                }
                return None;
            },
        }
        if !count_bar(inputs, firings, &mut totals, b) {
            proof {
                let k: int = choose|k: int|
                    0 <= k < tranches && #[trigger] rows_before(inputs@, firings@, k, b + 1)
                        > MOST_ROWS;
                lemma_rows_before(inputs@, firings@, k, b + 1, steps as int);
                lemma_depth(inputs@, firings@, steps as int, k, tranches as int);
            }
            return None;
        }
        b = b + 1;
    }
    let mut deepest: usize = 1;
    let mut k: usize = 0;
    while k < totals.len()
        invariant
            k <= totals@.len(),
            totals@.len() == tranches,
            forall|j: int|
                0 <= j < tranches ==> #[trigger] totals@[j] == rows_before(
                    inputs@,
                    firings@,
                    j,
                    steps as int,
                ),
            forall|j: int| 0 <= j < tranches ==> #[trigger] totals@[j] <= MOST_ROWS,
            deepest == depth(inputs@, firings@, steps as int, k as int),
            deepest <= MOST_ROWS,
        decreases totals@.len() - k,
    {
        if deepest < totals[k] {
            deepest = totals[k];
        }
        k = k + 1;
    }
    Some(Numbering { numbers, deepest })
}

/// The weight a firing's decision on a bar gives a name, in the plan.
pub open spec fn planned(
    plan: Grid,
    inputs: Seq<Column>,
    firings: Seq<Firing>,
    f: int,
    b: int,
    i: int,
) -> Binary64 {
    plan.number(
        grid::quad(0, firings[f].tranche as int, row_number(inputs, firings, f, b), i),
    )
}

/// Whether a plan holds every decision's weights at its row, a missing
/// weight as none, and nothing in the rows no decision has.
pub open spec fn plan_of(
    plan: Grid,
    inputs: Seq<Column>,
    firings: Seq<Firing>,
    tranches: int,
    steps: int,
    width: int,
) -> bool {
    &&& plan.shape() == seq![1int, tranches, depth(inputs, firings, steps, tranches), width]
    &&& forall|f: int, b: int, i: int|
        0 <= f < firings.len() && fires(inputs, firings[f], b) && 0 <= i < width
            ==> #[trigger] planned(plan, inputs, firings, f, b, i) == or_none(
            value_at(inputs[firings[f].plan as int].numbers(), b, i),
        )
    &&& forall|t: int, d: int, i: int|
        0 <= t < tranches && rows_before(inputs, firings, t, steps) <= d < depth(
            inputs,
            firings,
            steps,
            tranches,
        ) && 0 <= i < width ==> plan.number(#[trigger] grid::quad(0, t, d, i)) == Binary64::zero()
}

/// Whether a firing table points each bar and price point at its row.
pub open spec fn table_of(
    at: Grid,
    inputs: Seq<Column>,
    firings: Seq<Firing>,
    tranches: int,
    steps: int,
    points: int,
) -> bool {
    &&& at.shape() == seq![1int, tranches, steps, points]
    &&& forall|t: int, b: int, p: int|
        0 <= t < tranches && 0 <= b < steps && 0 <= p < points ==> at.code(
            #[trigger] grid::quad(0, t, b, p),
        ) == decided_row(inputs, firings, t, b, p, firings.len() as int)
}

/// Whether a table says of each bar and price point whether its firing acts
/// only on a change.
pub open spec fn standing_of(
    standing: Grid,
    inputs: Seq<Column>,
    firings: Seq<Firing>,
    tranches: int,
    steps: int,
    points: int,
) -> bool {
    &&& standing.shape() == seq![1int, tranches, steps, points]
    &&& forall|t: int, b: int, p: int|
        0 <= t < tranches && 0 <= b < steps && 0 <= p < points ==> standing.on(
            #[trigger] grid::quad(0, t, b, p),
        ) == decided_standing(inputs, firings, t, b, p, firings.len() as int)
}

/// Two indices of four axes differ where one of their positions does.
proof fn lemma_quad(a: int, b: int, c: int, d: int, e: int, f: int, g: int, h: int)
    ensures
        (grid::quad(a, b, c, d) == grid::quad(e, f, g, h)) <==> (a == e && b == f && c == g && d
            == h),
{
    let x: Seq<int> = grid::quad(a, b, c, d);
    let y: Seq<int> = grid::quad(e, f, g, h);
    assert(x[0] == a && x[1] == b && x[2] == c && x[3] == d);
    assert(y[0] == e && y[1] == f && y[2] == g && y[3] == h);
}

/// Write a decision's weights into its plan row.
fn put_decision(
    plan: &mut Grid,
    t: usize,
    d: usize,
    list: &Vec<Option<Binary64>>,
    width: usize,
)
    requires
        old(plan).shape().len() == 4,
        old(plan).shape()[0] == 1,
        t < old(plan).shape()[1],
        d < old(plan).shape()[2],
        width == old(plan).shape()[3],
    ensures
        final(plan).shape() == old(plan).shape(),
        forall|i: int|
            0 <= i < width ==> final(plan).number(
                #[trigger] grid::quad(0, t as int, d as int, i),
            ) == or_none(
                if i < list@.len() {
                    list@[i]
                } else {
                    None
                },
            ),
        forall|s: int, e: int, i: int|
            s != t || e != d ==> final(plan).word(#[trigger] grid::quad(0, s, e, i)) == old(
                plan,
            ).word(grid::quad(0, s, e, i)),
{
    let ghost start: Grid = *plan;
    let mut i: usize = 0;
    while i < width
        invariant
            i <= width,
            plan.shape() == start.shape(),
            start.shape().len() == 4,
            start.shape()[0] == 1,
            t < start.shape()[1],
            d < start.shape()[2],
            width == start.shape()[3],
            forall|j: int|
                0 <= j < i ==> plan.number(#[trigger] grid::quad(0, t as int, d as int, j))
                    == or_none(
                    if j < list@.len() {
                        list@[j]
                    } else {
                        None
                    },
                ),
            forall|s: int, e: int, j: int|
                s != t || e != d ==> plan.word(#[trigger] grid::quad(0, s, e, j)) == start.word(
                    grid::quad(0, s, e, j),
                ),
        decreases width - i,
    {
        let ghost before: Grid = *plan;
        let mut weight: Binary64 = Binary64::zero();
        if i < list.len() {
            match list[i] {
                Some(number) => {
                    weight = number;
                },
                None => {},
            }
        }
        plan.put4(0, t, d, i, weight.bits);
        proof {
            let here: Seq<int> = grid::quad(0, t as int, d as int, i as int);
            assert forall|j: int| 0 <= j < i + 1 implies plan.number(
                #[trigger] grid::quad(0, t as int, d as int, j),
            ) == or_none(
                if j < list@.len() {
                    list@[j]
                } else {
                    None
                },
            ) by {
                lemma_quad(0, t as int, d as int, j, 0, t as int, d as int, i as int);
                if j < i {
                    assert(plan.word(grid::quad(0, t as int, d as int, j)) == before.word(
                        grid::quad(0, t as int, d as int, j),
                    ));
                }
            }
            assert forall|s: int, e: int, j: int| s != t || e != d implies plan.word(
                #[trigger] grid::quad(0, s, e, j),
            ) == start.word(grid::quad(0, s, e, j)) by {
                lemma_quad(0, s, e, j, 0, t as int, d as int, i as int);
                assert(plan.word(grid::quad(0, s, e, j)) == before.word(grid::quad(0, s, e, j)));
            }
        }
        i = i + 1;
    }
}

/// The plan, the firing table and the standing table.
pub(crate) struct Decisions {
    pub plan: Grid,
    pub at: Grid,
    pub standing: Grid,
}

/// Whether the first `f` firings, and the next one's rows before bar `b`,
/// are laid out.
spec fn laid_out(
    laid: Decisions,
    inputs: Seq<Column>,
    firings: Seq<Firing>,
    tranches: int,
    points: int,
    steps: int,
    width: int,
    f: int,
    b: int,
) -> bool {
    &&& laid.plan.shape() == seq![1int, tranches, depth(inputs, firings, steps, tranches), width]
    &&& laid.at.shape() == seq![1int, tranches, steps, points]
    &&& laid.standing.shape() == seq![1int, tranches, steps, points]
    &&& forall|g: int, c: int, i: int|
        0 <= g < firings.len() && fires(inputs, firings[g], c) && (g < f || g == f && c < b) && 0
            <= i < width ==> #[trigger] planned(laid.plan, inputs, firings, g, c, i) == or_none(
            value_at(inputs[firings[g].plan as int].numbers(), c, i),
        )
    &&& forall|t: int, d: int, i: int|
        0 <= t < tranches && rows_before(inputs, firings, t, steps) <= d < depth(
            inputs,
            firings,
            steps,
            tranches,
        ) && 0 <= i < width ==> laid.plan.number(#[trigger] grid::quad(0, t, d, i))
            == Binary64::zero()
    &&& forall|t: int, c: int, p: int|
        0 <= t < tranches && 0 <= c < steps && 0 <= p < points ==> laid.at.code(
            #[trigger] grid::quad(0, t, c, p),
        ) == decided_row(
            inputs,
            firings,
            t,
            c,
            p,
            if c < b {
                f + 1
            } else {
                f
            },
        )
    &&& forall|t: int, c: int, p: int|
        0 <= t < tranches && 0 <= c < steps && 0 <= p < points ==> laid.standing.on(
            #[trigger] grid::quad(0, t, c, p),
        ) == decided_standing(
            inputs,
            firings,
            t,
            c,
            p,
            if c < b {
                f + 1
            } else {
                f
            },
        )
}

/// Lay one row of one firing out.
#[verifier::spinoff_prover]
fn lay_row(
    laid: &mut Decisions,
    inputs: &[Column],
    firings: &Vec<Firing>,
    Ghost(shape): Ghost<(int, int, int, int)>,
    f: usize,
    b: usize,
    list: &Vec<Option<Binary64>>,
    d: usize,
    width: usize,
)
    requires
        firings_named(inputs@, firings@),
        firings_fit(inputs@, firings@, shape.0, shape.1, shape.2, shape.3),
        width == shape.3,
        f < firings@.len(),
        fires(inputs@, firings@[f as int], b as int),
        inputs@[firings@[f as int].plan as int].numbers()[b as int] == Some(*list),
        d == row_number(inputs@, firings@, f as int, b as int),
        depth(inputs@, firings@, shape.2, shape.0) <= MOST_ROWS,
        laid_out(
            *old(laid),
            inputs@,
            firings@,
            shape.0,
            shape.1,
            shape.2,
            shape.3,
            f as int,
            b as int,
        ),
    ensures
        laid_out(
            *final(laid),
            inputs@,
            firings@,
            shape.0,
            shape.1,
            shape.2,
            shape.3,
            f as int,
            b + 1,
        ),
{
    let firing: Firing = firings[f];
    let ghost (tranches, points, steps, names) = shape;
    let ghost start: Decisions = *laid;
    let ghost t: int = firing.tranche as int;
    let ghost deepest: int = depth(inputs@, firings@, steps, tranches);
    proof {
        assert(firing_fits(inputs@, firings@[f as int], b as int, tranches, points, steps, names));
        lemma_row_number(inputs@, firings@, f as int, b as int, steps);
        lemma_depth(inputs@, firings@, steps, t, tranches);
    }
    put_decision(&mut laid.plan, firing.tranche, d, list, width);
    laid.at.put4(0, firing.tranche, b, firing.point, grid::encode_code(d as i32));
    match firing.standing {
        Some(index) => {
            let on: bool = match &inputs[index] {
                Column::Switches(values) => match values[b] {
                    Some(on) => on,
                    None => false,
                },
                _ => false,
            };
            laid.standing.put4(
                0,
                firing.tranche,
                b,
                firing.point,
                if on {
                    1
                } else {
                    0
                },
            );
        },
        None => {},
    }
    proof {
        let here: Seq<int> = grid::quad(0, t, b as int, firing.point as int);
        assert forall|g: int, c: int, i: int|
            0 <= g < firings@.len() && fires(inputs@, firings@[g], c) && (g < f || g == f && c < b
                + 1) && 0 <= i < width implies #[trigger] planned(
            laid.plan,
            inputs@,
            firings@,
            g,
            c,
            i,
        ) == or_none(value_at(inputs@[firings@[g].plan as int].numbers(), c, i)) by {
            let e: int = row_number(inputs@, firings@, g, c);
            if g == f && c == b {
                assert(laid.plan.number(grid::quad(0, t, d as int, i)) == or_none(
                    if i < list@.len() {
                        list@[i]
                    } else {
                        None
                    },
                ));
            } else {
                if firings@[g].tranche == t {
                    law_rows_distinct(inputs@, firings@, f as int, b as int, g, c);
                }
                assert(laid.plan.word(grid::quad(0, firings@[g].tranche as int, e, i))
                    == start.plan.word(grid::quad(0, firings@[g].tranche as int, e, i)));
                assert(planned(start.plan, inputs@, firings@, g, c, i) == or_none(
                    value_at(inputs@[firings@[g].plan as int].numbers(), c, i),
                ));
            }
        }
        assert forall|s: int, e: int, i: int|
            0 <= s < tranches && rows_before(inputs@, firings@, s, steps) <= e < deepest && 0 <= i
                < width implies laid.plan.number(#[trigger] grid::quad(0, s, e, i))
            == Binary64::zero() by {
            assert(laid.plan.word(grid::quad(0, s, e, i)) == start.plan.word(
                grid::quad(0, s, e, i),
            ));
        }
        assert forall|s: int, c: int, p: int|
            0 <= s < tranches && 0 <= c < steps && 0 <= p < points implies laid.at.code(
            #[trigger] grid::quad(0, s, c, p),
        ) == decided_row(
            inputs@,
            firings@,
            s,
            c,
            p,
            if c < b + 1 {
                f + 1
            } else {
                f as int
            },
        ) by {
            lemma_quad(0, s, c, p, 0, t, b as int, firing.point as int);
            assert(start.at.code(grid::quad(0, s, c, p)) == decided_row(
                inputs@,
                firings@,
                s,
                c,
                p,
                if c < b {
                    f + 1
                } else {
                    f as int
                },
            ));
        }
        assert forall|s: int, c: int, p: int|
            0 <= s < tranches && 0 <= c < steps && 0 <= p < points implies laid.standing.on(
            #[trigger] grid::quad(0, s, c, p),
        ) == decided_standing(
            inputs@,
            firings@,
            s,
            c,
            p,
            if c < b + 1 {
                f + 1
            } else {
                f as int
            },
        ) by {
            lemma_quad(0, s, c, p, 0, t, b as int, firing.point as int);
            assert(start.standing.on(grid::quad(0, s, c, p)) == decided_standing(
                inputs@,
                firings@,
                s,
                c,
                p,
                if c < b {
                    f + 1
                } else {
                    f as int
                },
            ));
        }
    }
}

/// Nothing is left to lay out of a firing on a bar it does not fire on, and
/// after its last bar comes the next firing.
proof fn lemma_laid_out(
    laid: Decisions,
    inputs: Seq<Column>,
    firings: Seq<Firing>,
    shape: (int, int, int, int),
    f: int,
    b: int,
)
    requires
        0 <= f < firings.len(),
        firings_fit(inputs, firings, shape.0, shape.1, shape.2, shape.3),
        laid_out(laid, inputs, firings, shape.0, shape.1, shape.2, shape.3, f, b),
    ensures
        b < shape.2 && !fires(inputs, firings[f], b) ==> laid_out(
            laid,
            inputs,
            firings,
            shape.0,
            shape.1,
            shape.2,
            shape.3,
            f,
            b + 1,
        ),
        b == shape.2 ==> laid_out(
            laid,
            inputs,
            firings,
            shape.0,
            shape.1,
            shape.2,
            shape.3,
            f + 1,
            0,
        ),
{
    if b == shape.2 {
        assert forall|g: int, c: int, i: int|
            0 <= g < firings.len() && fires(inputs, firings[g], c) && (g < f + 1 || g == f + 1 && c
                < 0) && 0 <= i < shape.3 implies #[trigger] planned(
            laid.plan,
            inputs,
            firings,
            g,
            c,
            i,
        ) == or_none(value_at(inputs[firings[g].plan as int].numbers(), c, i)) by {
            assert(firing_fits(inputs, firings[g], c, shape.0, shape.1, shape.2, shape.3));
        }
    }
}

/// Lay every firing's rows out.
pub(crate) fn lay_decisions(
    inputs: &[Column],
    firings: &Vec<Firing>,
    tranches: usize,
    points: usize,
    steps: usize,
    width: usize,
    numbering: &Numbering,
) -> (laid: Option<Decisions>)
    requires
        firings_named(inputs@, firings@),
        firings_fit(
            inputs@,
            firings@,
            tranches as int,
            points as int,
            steps as int,
            width as int,
        ),
        numbering.deepest == depth(inputs@, firings@, steps as int, tranches as int),
        numbering.deepest <= MOST_ROWS,
        numbering.numbers@.len() == steps,
        forall|b: int|
            0 <= b < steps ==> bar_numbered(
                inputs@,
                firings@,
                (#[trigger] numbering.numbers@[b])@,
                b,
            ),
    ensures
        laid is Some <==> {
            &&& grid::storable(
                seq![1int, tranches as int, numbering.deepest as int, width as int],
            )
            &&& grid::storable(seq![1int, tranches as int, steps as int, points as int])
        },
        laid matches Some(laid) ==> {
            &&& plan_of(
                laid.plan,
                inputs@,
                firings@,
                tranches as int,
                steps as int,
                width as int,
            )
            &&& table_of(
                laid.at,
                inputs@,
                firings@,
                tranches as int,
                steps as int,
                points as int,
            )
            &&& standing_of(
                laid.standing,
                inputs@,
                firings@,
                tranches as int,
                steps as int,
                points as int,
            )
        },
{
    let rows: [usize; 4] = [1, tranches, numbering.deepest, width];
    let table: [usize; 4] = [1, tranches, steps, points];
    proof {
        assert(grid::ints(rows@) =~= seq![
            1int,
            tranches as int,
            numbering.deepest as int,
            width as int,
        ]);
        assert(grid::ints(table@) =~= seq![1int, tranches as int, steps as int, points as int]);
    }
    let plan: Grid = match Grid::new(&rows, 0) {
        Some(plan) => plan,
        None => {
            return None;
        },
    };
    let none: u64 = grid::encode_code(-1);
    let at: Grid = match Grid::new(&table, none) {
        Some(at) => at,
        None => {
            return None;
        },
    };
    let standing: Grid = match Grid::new(&table, 0) {
        Some(standing) => standing,
        None => {
            return None;
        },
    };
    let mut laid: Decisions = Decisions { plan, at, standing };
    let ghost shape: (int, int, int, int) = (
        tranches as int,
        points as int,
        steps as int,
        width as int,
    );
    proof {
        assert forall|t: int, d: int, i: int|
            0 <= t < tranches && rows_before(inputs@, firings@, t, steps as int) <= d
                < numbering.deepest && 0 <= i < width implies laid.plan.number(
            #[trigger] grid::quad(0, t, d, i),
        ) == Binary64::zero() by {
            lemma_rows_before(inputs@, firings@, t, steps as int, steps as int);
            assert(grid::inside(grid::ints(rows@), grid::quad(0, t, d, i)));
        }
        assert forall|t: int, c: int, p: int|
            0 <= t < tranches && 0 <= c < steps && 0 <= p < points implies laid.at.code(
            #[trigger] grid::quad(0, t, c, p),
        ) == -1 && !laid.standing.on(grid::quad(0, t, c, p)) by {
            assert(grid::inside(grid::ints(table@), grid::quad(0, t, c, p)));
        }
        assert(laid_out(
            laid,
            inputs@,
            firings@,
            tranches as int,
            points as int,
            steps as int,
            width as int,
            0,
            0,
        ));
    }
    let mut f: usize = 0;
    while f < firings.len()
        invariant
            firings_named(inputs@, firings@),
            shape == (tranches as int, points as int, steps as int, width as int),
            firings_fit(inputs@, firings@, shape.0, shape.1, shape.2, shape.3),
            numbering.deepest == depth(inputs@, firings@, steps as int, tranches as int),
            numbering.deepest <= MOST_ROWS,
            numbering.numbers@.len() == steps,
            forall|b: int|
                0 <= b < steps ==> bar_numbered(
                    inputs@,
                    firings@,
                    (#[trigger] numbering.numbers@[b])@,
                    b,
                ),
            f <= firings@.len(),
            laid_out(
                laid,
                inputs@,
                firings@,
                shape.0,
                shape.1,
                shape.2,
                shape.3,
                f as int,
                0,
            ),
        decreases firings@.len() - f,
    {
        let mut b: usize = 0;
        while b < steps
            invariant
                firings_named(inputs@, firings@),
                shape == (tranches as int, points as int, steps as int, width as int),
                firings_fit(inputs@, firings@, shape.0, shape.1, shape.2, shape.3),
                numbering.deepest == depth(inputs@, firings@, steps as int, tranches as int),
                numbering.deepest <= MOST_ROWS,
                numbering.numbers@.len() == steps,
                forall|c: int|
                    0 <= c < steps ==> bar_numbered(
                        inputs@,
                        firings@,
                        (#[trigger] numbering.numbers@[c])@,
                        c,
                    ),
                f < firings@.len(),
                b <= steps,
                laid_out(
                    laid,
                    inputs@,
                    firings@,
                    shape.0,
                    shape.1,
                    shape.2,
                    shape.3,
                    f as int,
                    b as int,
                ),
            decreases steps - b,
        {
            proof {
                assert(bar_numbered(inputs@, firings@, numbering.numbers@[b as int]@, b as int));
                lemma_laid_out(laid, inputs@, firings@, shape, f as int, b as int);
            }
            match &inputs[firings[f].plan] {
                Column::NumberLists(rows) => {
                    if b < rows.len() {
                        match &rows[b] {
                            Some(list) => {
                                proof {
                                    assert(fires(inputs@, firings@[f as int], b as int));
                                }
                                lay_row(
                                    &mut laid,
                                    inputs,
                                    firings,
                                    Ghost(shape),
                                    f,
                                    b,
                                    list,
                                    numbering.numbers[b][f],
                                    width,
                                );
                            },
                            None => {},
                        }
                    }
                },
                _ => {},
            }
            b = b + 1;
        }
        proof {
            lemma_laid_out(laid, inputs@, firings@, shape, f as int, b as int);
        }
        f = f + 1;
    }
    Some(laid)
}

}
