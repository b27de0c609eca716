//! The arrays a simulation reads and answers with.
//!
//! A [`Grid`] is an `ndarray` array of 64-bit words, of any number of axes.
//! Its contents are the map from an index to the word there, and its shape
//! is the length of each axis. Doubles stand in it by their bits, codes by
//! [`word_of_code`], switches as zero and one.

use ndarray::{ArrayD, IxDyn};
use vstd::prelude::*;

use crate::binary64::Binary64;

verus! {

/// An array of words.
#[verifier::external_body]
pub struct Grid {
    cells: ArrayD<u64>,
}

/// The length of each axis of a grid.
pub uninterp spec fn grid_shape(grid: Grid) -> Seq<int>;

/// What a grid holds, by index.
pub uninterp spec fn grid_words(grid: Grid) -> Map<Seq<int>, u64>;

/// An index or a shape, as integers.
pub open spec fn ints(index: Seq<usize>) -> Seq<int> {
    index.map_values(|i: usize| i as int)
}

/// An index of one axis.
pub open spec fn single(a: int) -> Seq<int> {
    seq![a]
}

/// An index of two axes.
pub open spec fn pair(a: int, b: int) -> Seq<int> {
    seq![a, b]
}

/// An index of four axes.
pub open spec fn quad(a: int, b: int, c: int, d: int) -> Seq<int> {
    seq![a, b, c, d]
}

/// Whether `index` points at a cell of an array of this shape.
pub open spec fn inside(shape: Seq<int>, index: Seq<int>) -> bool {
    &&& index.len() == shape.len()
    &&& forall|axis: int| 0 <= axis < shape.len() ==> 0 <= #[trigger] index[axis] < shape[axis]
}

/// How many cells the axes that are not empty span.
pub open spec fn extent(shape: Seq<int>) -> int
    decreases shape.len(),
{
    if shape.len() == 0 {
        1
    } else if shape.last() <= 1 {
        extent(shape.drop_last())
    } else {
        extent(shape.drop_last()) * shape.last()
    }
}

/// Whether an array of words of this shape can be laid out in memory.
pub open spec fn storable(shape: Seq<int>) -> bool {
    extent(shape) * 8 <= isize::MAX
}

/// The word a code stands in a grid as.
pub open spec fn word_of_code(code: i32) -> u64 {
    code as u32 as u64
}

/// The code a word stands for.
pub open spec fn code_of_word(word: u64) -> i32 {
    word as u32 as i32
}

/// The word a switch stands in a grid as.
pub open spec fn word_of_switch(on: bool) -> u64 {
    if on {
        1
    } else {
        0
    }
}

/// A code comes back from the word it was stored as.
pub proof fn lemma_code_round_trip(code: i32)
    ensures
        code_of_word(word_of_code(code)) == code,
{
    assert((code as u32 as u64) as u32 as i32 == code) by (bit_vector);
}

pub(crate) fn encode_code(code: i32) -> (word: u64)
    ensures
        word == word_of_code(code),
        code_of_word(word) == code,
{
    proof {
        lemma_code_round_trip(code);
    }
    (#[verifier::truncate]
    (code as u32)) as u64
}

pub(crate) fn decode_code(word: u64) -> (code: i32)
    ensures
        code == code_of_word(word),
{
    #[verifier::truncate]
    ((#[verifier::truncate]
    (word as u32)) as i32)
}

proof fn lemma_extent_positive(shape: Seq<int>)
    ensures
        extent(shape) >= 1,
    decreases shape.len(),
{
    if shape.len() > 0 {
        lemma_extent_positive(shape.drop_last());
        let e: int = extent(shape.drop_last());
        let d: int = shape.last();
        if d > 1 {
            assert(e * d >= 1) by (nonlinear_arith)
                requires
                    e >= 1,
                    d >= 1,
            ;
        }
    }
}

/// More axes never span less.
proof fn lemma_extent_grows(shape: Seq<int>, n: int)
    requires
        0 <= n <= shape.len(),
    ensures
        extent(shape.take(n)) <= extent(shape),
    decreases shape.len() - n,
{
    if n == shape.len() {
        assert(shape.take(n) =~= shape);
    } else {
        lemma_extent_grows(shape, n + 1);
        lemma_extent_positive(shape.take(n));
        assert(shape.take(n + 1).drop_last() =~= shape.take(n));
        let e: int = extent(shape.take(n));
        let d: int = shape[n];
        if d > 1 {
            assert(e * d >= e) by (nonlinear_arith)
                requires
                    e >= 1,
                    d >= 1,
            ;
        }
    }
}

/// Whether an array of words of this shape can be laid out in memory.
pub(crate) fn can_store(shape: &[usize]) -> (fits: bool)
    ensures
        fits == storable(ints(shape@)),
{
    let limit: usize = isize::MAX as usize / 8;
    let mut cells: usize = 1;
    let mut axis: usize = 0;
    proof {
        assert(ints(shape@).take(0) =~= Seq::<int>::empty());
    }
    while axis < shape.len()
        invariant
            axis <= shape@.len(),
            limit == isize::MAX as usize / 8,
            cells == extent(ints(shape@).take(axis as int)),
            1 <= cells,
            cells <= limit,
        decreases shape@.len() - axis,
    {
        let length: usize = shape[axis];
        proof {
            let all: Seq<int> = ints(shape@);
            assert(all.take(axis + 1).drop_last() =~= all.take(axis as int));
            lemma_extent_grows(all, axis + 1);
            if length > 1 {
                assert(cells * length > limit ==> length > limit / cells) by (nonlinear_arith)
                    requires
                        cells >= 1,
                ;
                assert(length > limit / cells ==> cells * length > limit) by (nonlinear_arith)
                    requires
                        cells >= 1,
                ;
            }
        }
        if length > 1 {
            if length > limit / cells {
                return false;
            }
            proof {
                assert(cells * length >= 1) by (nonlinear_arith)
                    requires
                        cells >= 1,
                        length >= 1,
                ;
            }
            cells = cells * length;
        }
        axis = axis + 1;
    }
    proof {
        assert(ints(shape@).take(axis as int) =~= ints(shape@));
    }
    true
}

/// Whether an index points at a cell of an array of this shape.
fn points_inside(shape: &Vec<usize>, index: &[usize]) -> (ok: bool)
    ensures
        ok == inside(ints(shape@), ints(index@)),
{
    if index.len() != shape.len() {
        return false;
    }
    let mut axis: usize = 0;
    while axis < shape.len()
        invariant
            axis <= shape@.len(),
            index@.len() == shape@.len(),
            forall|a: int| 0 <= a < axis ==> index@[a] < shape@[a],
        decreases shape@.len() - axis,
    {
        if index[axis] >= shape[axis] {
            proof {
                assert(ints(index@)[axis as int] >= ints(shape@)[axis as int]);
            }
            return false;
        }
        axis = axis + 1;
    }
    true
}

impl Grid {
    /// The length of each axis.
    pub open spec fn shape(self) -> Seq<int> {
        grid_shape(self)
    }

    /// The word at an index.
    pub open spec fn word(self, index: Seq<int>) -> u64 {
        grid_words(self)[index]
    }

    /// The double at an index.
    pub open spec fn number(self, index: Seq<int>) -> Binary64 {
        Binary64 { bits: self.word(index) }
    }

    /// The double at an index of a two-axis array.
    pub open spec fn number2(self, a: int, b: int) -> Binary64 {
        self.number(pair(a, b))
    }

    /// The switch at an index of a two-axis array.
    pub open spec fn on2(self, a: int, b: int) -> bool {
        self.on(pair(a, b))
    }

    /// The double at an index of a three-axis array.
    pub open spec fn number3(self, a: int, b: int, c: int) -> Binary64 {
        self.number(seq![a, b, c])
    }

    /// The code at an index.
    pub open spec fn code(self, index: Seq<int>) -> i32 {
        code_of_word(self.word(index))
    }

    /// The switch at an index.
    pub open spec fn on(self, index: Seq<int>) -> bool {
        self.word(index) != 0
    }

    /// `ndarray`'s `ArrayBase::from_elem`: an array of the given shape whose
    /// every cell holds `word`. It panics on a shape too large to lay out,
    /// which `requires` leaves out.
    #[verifier::external_body]
    pub(crate) fn filled(shape: &[usize], word: u64) -> (grid: Grid)
        requires
            storable(ints(shape@)),
        ensures
            grid_shape(grid) == ints(shape@),
            grid_words(grid) == Map::new(
                |index: Seq<int>| inside(ints(shape@), index),
                |index: Seq<int>| word,
            ),
    {
        Grid { cells: ArrayD::from_elem(IxDyn(shape), word) }
    }

    /// `ndarray`'s `Index` on an array: the element at an index. It panics
    /// outside the array, which `requires` leaves out.
    #[verifier::external_body]
    pub(crate) fn at(&self, index: &[usize]) -> (word: u64)
        requires
            inside(self.shape(), ints(index@)),
        ensures
            word == grid_words(*self)[ints(index@)],
    {
        self.cells[index]
    }

    /// `ndarray`'s `ArrayBase::get`: the element at an index, or `None` if the
    /// index is not one of the array's.
    #[verifier::external_body]
    pub(crate) fn find(&self, index: &[usize]) -> (word: Option<u64>)
        ensures
            word == if inside(grid_shape(*self), ints(index@)) {
                Some(grid_words(*self)[ints(index@)])
            } else {
                None
            },
    {
        self.cells.get(index).copied()
    }

    /// `ndarray`'s `IndexMut` on an array: the element at an index is
    /// replaced and nothing else changes. It panics outside the array, which
    /// `requires` leaves out.
    #[verifier::external_body]
    pub(crate) fn put(&mut self, index: &[usize], word: u64)
        requires
            inside(old(self).shape(), ints(index@)),
        ensures
            grid_shape(*final(self)) == grid_shape(*old(self)),
            grid_words(*final(self)) == grid_words(*old(self)).insert(ints(index@), word),
    {
        self.cells[index] = word;
    }

    /// `ndarray`'s `ArrayBase::shape`: the length of each axis.
    #[verifier::external_body]
    pub(crate) fn axes(&self) -> (axes: Vec<usize>)
        ensures
            ints(axes@) == grid_shape(*self),
    {
        self.cells.shape().to_vec()
    }

    /// An array of the given shape with `word` in every cell; `None` for a
    /// shape too large to lay out.
    pub fn new(shape: &[usize], word: u64) -> (grid: Option<Grid>)
        ensures
            grid is Some <==> storable(ints(shape@)),
            grid matches Some(grid) ==> {
                &&& grid.shape() == ints(shape@)
                &&& forall|index: Seq<int>| #[trigger]
                    inside(ints(shape@), index) ==> grid.word(index) == word
            },
    {
        if can_store(shape) {
            Some(Grid::filled(shape, word))
        } else {
            None
        }
    }

    /// The word at an index; `None` outside the array.
    pub fn get(&self, index: &[usize]) -> (word: Option<u64>)
        ensures
            word is Some <==> inside(self.shape(), ints(index@)),
            word matches Some(word) ==> word == self.word(ints(index@)),
    {
        self.find(index)
    }

    /// Replace the word at an index; `false`, and nothing changes, outside
    /// the array.
    pub fn set(&mut self, index: &[usize], word: u64) -> (done: bool)
        ensures
            done == inside(old(self).shape(), ints(index@)),
            final(self).shape() == old(self).shape(),
            !done ==> grid_words(*final(self)) == grid_words(*old(self)),
            done ==> grid_words(*final(self)) == grid_words(*old(self)).insert(ints(index@), word),
    {
        if points_inside(&self.axes(), index) {
            self.put(index, word);
            true
        } else {
            false
        }
    }

    /// The word at a position of a one-axis array.
    pub(crate) fn at1(&self, a: usize) -> (word: u64)
        requires
            inside(self.shape(), seq![a as int]),
        ensures
            word == self.word(seq![a as int]),
    {
        let index: [usize; 1] = [a];
        proof {
            assert(ints(index@) =~= seq![a as int]);
        }
        self.at(&index)
    }

    /// The word at a position of a two-axis array.
    pub(crate) fn at2(&self, a: usize, b: usize) -> (word: u64)
        requires
            inside(self.shape(), seq![a as int, b as int]),
        ensures
            word == self.word(seq![a as int, b as int]),
    {
        let index: [usize; 2] = [a, b];
        proof {
            assert(ints(index@) =~= seq![a as int, b as int]);
        }
        self.at(&index)
    }

    /// The word at a position of a three-axis array.
    pub(crate) fn at3(&self, a: usize, b: usize, c: usize) -> (word: u64)
        requires
            inside(self.shape(), seq![a as int, b as int, c as int]),
        ensures
            word == self.word(seq![a as int, b as int, c as int]),
    {
        let index: [usize; 3] = [a, b, c];
        proof {
            assert(ints(index@) =~= seq![a as int, b as int, c as int]);
        }
        self.at(&index)
    }

    /// The word at a position of a four-axis array.
    pub(crate) fn at4(&self, a: usize, b: usize, c: usize, d: usize) -> (word: u64)
        requires
            inside(self.shape(), seq![a as int, b as int, c as int, d as int]),
        ensures
            word == self.word(seq![a as int, b as int, c as int, d as int]),
    {
        let index: [usize; 4] = [a, b, c, d];
        proof {
            assert(ints(index@) =~= seq![a as int, b as int, c as int, d as int]);
        }
        self.at(&index)
    }

    /// Replace the word at a position of a one-axis array.
    pub(crate) fn put1(&mut self, a: usize, word: u64)
        requires
            inside(old(self).shape(), single(a as int)),
        ensures
            final(self).shape() == old(self).shape(),
            grid_words(*final(self)) == grid_words(*old(self)).insert(single(a as int), word),
    {
        let index: [usize; 1] = [a];
        proof {
            assert(ints(index@) =~= single(a as int));
        }
        self.put(&index, word);
    }

    /// Replace the word at a position of a two-axis array.
    pub(crate) fn put2(&mut self, a: usize, b: usize, word: u64)
        requires
            inside(old(self).shape(), pair(a as int, b as int)),
        ensures
            final(self).shape() == old(self).shape(),
            grid_words(*final(self)) == grid_words(*old(self)).insert(
                pair(a as int, b as int),
                word,
            ),
    {
        let index: [usize; 2] = [a, b];
        proof {
            assert(ints(index@) =~= pair(a as int, b as int));
        }
        self.put(&index, word);
    }

    /// Replace the word at a position of a three-axis array.
    pub(crate) fn put3(&mut self, a: usize, b: usize, c: usize, word: u64)
        requires
            inside(old(self).shape(), seq![a as int, b as int, c as int]),
        ensures
            final(self).shape() == old(self).shape(),
            grid_words(*final(self)) == grid_words(*old(self)).insert(
                seq![a as int, b as int, c as int],
                word,
            ),
    {
        let index: [usize; 3] = [a, b, c];
        proof {
            assert(ints(index@) =~= seq![a as int, b as int, c as int]);
        }
        self.put(&index, word);
    }

    /// Replace the word at a position of a four-axis array.
    pub(crate) fn put4(&mut self, a: usize, b: usize, c: usize, d: usize, word: u64)
        requires
            inside(old(self).shape(), quad(a as int, b as int, c as int, d as int)),
        ensures
            final(self).shape() == old(self).shape(),
            grid_words(*final(self)) == grid_words(*old(self)).insert(
                quad(a as int, b as int, c as int, d as int),
                word,
            ),
    {
        let index: [usize; 4] = [a, b, c, d];
        proof {
            assert(ints(index@) =~= quad(a as int, b as int, c as int, d as int));
        }
        self.put(&index, word);
    }
}

}
