//! A dense two-dimensional table stored row by row in one vector.

use vstd::prelude::*;

verus! {

/// A `row` by `col` table whose entry `(r, c)` lives at `vec[r * col + c]`.
#[derive(Debug)]
pub struct Vec2d<T> {
    pub vec: Vec<T>,
    pub row: usize,
    pub col: usize,
}

/// A vector of `len` copies of `fill`, reduced to sixteen bits.
#[allow(non_snake_case)]
pub fn Fill(fill: usize, len: usize) -> (vec: Vec<u16>)
    ensures
        vec@ == Seq::new(len as nat, |i: int| fill as u16),
{
    let value: u16 = fill as u16;
    let mut vec: Vec<u16> = Vec::new();
    let mut i: usize = 0;
    while i < len
        invariant
            i <= len,
            value == fill as u16,
            vec@ == Seq::new(i as nat, |j: int| value),
        decreases len - i,
    {
        vec.push(value);
        i += 1;
        assert(vec@ =~= Seq::new(i as nat, |j: int| value));
    }
    vec
}

/// The flat position of entry `(r, c)` in a table with `col` columns.
pub open spec fn flat_index(col: usize, r: int, c: int) -> int {
    r * (col as int) + c
}

/// Inside a `row` by `col` table, the flat position of `(r, c)` stays below
/// `row * col`, and starts the row `r` at `r * col`.
pub proof fn lemma_flat_index_in_bounds(row: usize, col: usize, r: int, c: int)
    requires
        0 <= r < row,
        0 <= c < col,
    ensures
        0 <= r * col <= flat_index(col, r, c) < r * col + col <= row * col,
        col * r == r * col,
{
    lemma_row_in_bounds(row, col, r);
}

/// Row `r` of a `row` by `col` table occupies the flat positions from
/// `r * col` up to `r * col + col`, all below `row * col`.
pub proof fn lemma_row_in_bounds(row: usize, col: usize, r: int)
    requires
        0 <= r < row,
    ensures
        0 <= r * col <= r * col + col <= row * col,
        col * r == r * col,
{
    assert(col * r == r * col) by (nonlinear_arith);
    assert(r * col >= 0) by (nonlinear_arith)
        requires
            r >= 0,
            col >= 0,
    ;
    assert((r + 1) * col <= row * col) by (nonlinear_arith)
        requires
            r + 1 <= row,
            col >= 0,
    ;
    assert((r + 1) * col == r * col + col) by (nonlinear_arith);
}

/// Two different cells of a table lie at different flat positions.
pub proof fn lemma_flat_index_injective(col: usize, r1: int, c1: int, r2: int, c2: int)
    requires
        0 <= c1 < col,
        0 <= c2 < col,
        0 <= r1,
        0 <= r2,
        r1 != r2 || c1 != c2,
    ensures
        flat_index(col, r1, c1) != flat_index(col, r2, c2),
{
    if r1 < r2 {
        assert(r1 * col + col <= r2 * col) by (nonlinear_arith)
            requires
                r1 + 1 <= r2,
                col >= 0,
        ;
    } else if r2 < r1 {
        assert(r2 * col + col <= r1 * col) by (nonlinear_arith)
            requires
                r2 + 1 <= r1,
                col >= 0,
        ;
    }
}

impl<T> Vec2d<T> {
    /// The table holds exactly `row * col` entries.
    pub open spec fn wf(&self) -> bool {
        self.vec@.len() == self.row * self.col
    }

    /// Entry `(r, c)` of the table.
    pub open spec fn entry(&self, r: int, c: int) -> T {
        self.vec@[flat_index(self.col, r, c)]
    }

    /// Row `r` of the table as a sequence.
    pub open spec fn row_seq(&self, r: int) -> Seq<T> {
        self.vec@.subrange(r * self.col, r * self.col + self.col)
    }

    /// Wraps `vec` as a `row` by `col` table.
    pub fn new(vec: Vec<T>, row: usize, col: usize) -> (table: Self)
        requires
            vec@.len() == row * col,
        ensures
            table.vec == vec,
            table.row == row,
            table.col == col,
            table.wf(),
    {
        Self { vec, row, col }
    }

    /// The entries of row `row`, in column order.
    pub fn row(&self, row: usize) -> (entries: &[T])
        requires
            self.wf(),
            row < self.row,
        ensures
            entries@ == self.row_seq(row as int),
            entries@.len() == self.col,
            forall|c: int| 0 <= c < self.col ==> entries@[c] == self.entry(row as int, c),
    {
        let len = self.vec.len();
        proof {
            lemma_row_in_bounds(self.row, self.col, row as int);
        }
        let i = self.col * row;
        vstd::slice::slice_subrange(self.vec.as_slice(), i, i + self.col)
    }

    /// A shared reference to entry `(row, col)`.
    pub fn index(&self, row: usize, col: usize) -> (entry: &T)
        requires
            self.wf(),
            row < self.row,
            col < self.col,
        ensures
            *entry == self.entry(row as int, col as int),
    {
        let len = self.vec.len();
        proof {
            lemma_flat_index_in_bounds(self.row, self.col, row as int, col as int);
        }
        let i = self.col * row;
        &self.vec[i + col]
    }

    /// A mutable reference to entry `(row, col)`; writing through it changes
    /// that entry and nothing else.
    pub fn index_mut(&mut self, row: usize, col: usize) -> (entry: &mut T)
        requires
            old(self).wf(),
            row < old(self).row,
            col < old(self).col,
        ensures
            *entry == old(self).entry(row as int, col as int),
            final(self).row == old(self).row,
            final(self).col == old(self).col,
            final(self).vec@ == old(self).vec@.update(
                flat_index(old(self).col, row as int, col as int),
                *final(entry),
            ),
            final(self).wf(),
            final(self).entry(row as int, col as int) == *final(entry),
            forall|r: int, c: int|
                0 <= r < old(self).row && 0 <= c < old(self).col && (r != row || c != col)
                    ==> #[trigger] final(self).entry(r, c) == old(self).entry(r, c),
    {
        let len = self.vec.len();
        proof {
            lemma_flat_index_in_bounds(self.row, self.col, row as int, col as int);
            assert forall|r: int, c: int|
                0 <= r < self.row && 0 <= c < self.col && (r != row || c != col) implies flat_index(
                self.col,
                r,
                c,
            ) != flat_index(self.col, row as int, col as int) && 0 <= flat_index(self.col, r, c)
                < self.vec@.len() by {
                lemma_flat_index_injective(self.col, r, c, row as int, col as int);
                lemma_flat_index_in_bounds(self.row, self.col, r, c);
            }
        }
        let i = self.col * row;
        &mut self.vec[i + col]
    }
}

} // verus!
