//! The mathematical model of a grid: a sequence of rows of heights, `0` for an
//! empty cell.

use vstd::prelude::*;

verus! {

/// The rows of an executable grid, as sequences of heights.
pub open spec fn grid_of(g: &Vec<Vec<u8>>) -> Seq<Seq<u8>> {
    Seq::new(g@.len(), |r: int| g@[r]@)
}

/// `m` has `n` rows of `n` cells each.
pub open spec fn shaped(m: Seq<Seq<u8>>, n: int) -> bool {
    &&& m.len() == n
    &&& forall|r: int| 0 <= r < n ==> (#[trigger] m[r]).len() == n
}

/// A partial grid that breaks no rule: every placed height is at most `n`, and
/// no placed height occurs twice in a row or in a column.
pub open spec fn consistent(m: Seq<Seq<u8>>, n: int) -> bool {
    &&& shaped(m, n)
    &&& forall|r: int, c: int| 0 <= r < n && 0 <= c < n ==> #[trigger] m[r][c] <= n
    &&& forall|r: int, c1: int, c2: int|
        0 <= r < n && 0 <= c1 < n && 0 <= c2 < n && c1 != c2 && m[r][c1] != 0
            ==> #[trigger] m[r][c1] != #[trigger] m[r][c2]
    &&& forall|r1: int, r2: int, c: int|
        0 <= r1 < n && 0 <= r2 < n && 0 <= c < n && r1 != r2 && m[r1][c] != 0
            ==> #[trigger] m[r1][c] != #[trigger] m[r2][c]
}

/// No cell of `m` is empty.
pub open spec fn complete(m: Seq<Seq<u8>>, n: int) -> bool {
    forall|r: int, c: int| 0 <= r < n && 0 <= c < n ==> #[trigger] m[r][c] != 0
}

/// A solved grid: every cell holds a height in `1..=n`, and no height occurs
/// twice in a row or in a column, so that each row and each column is a
/// permutation of `1..=n`.
pub open spec fn latin(m: Seq<Seq<u8>>, n: int) -> bool {
    consistent(m, n) && complete(m, n)
}

/// `m` keeps every height that `g` has placed.
pub open spec fn extends(m: Seq<Seq<u8>>, g: Seq<Seq<u8>>, n: int) -> bool {
    forall|r: int, c: int|
        0 <= r < n && 0 <= c < n && g[r][c] != 0 ==> #[trigger] m[r][c] == g[r][c]
}

/// The grid `m` with height `v` at row `r`, column `c`.
pub open spec fn with_cell(m: Seq<Seq<u8>>, r: int, c: int, v: u8) -> Seq<Seq<u8>> {
    m.update(r, m[r].update(c, v))
}

/// The number of empty cells in one row.
pub open spec fn empty_in_row(row: Seq<u8>) -> nat
    decreases row.len(),
{
    if row.len() == 0 {
        0
    } else {
        empty_in_row(row.drop_last()) + if row.last() == 0 { 1nat } else { 0nat }
    }
}

/// The number of empty cells in a grid.
pub open spec fn empty_cells(m: Seq<Seq<u8>>) -> nat
    decreases m.len(),
{
    if m.len() == 0 {
        0
    } else {
        empty_cells(m.drop_last()) + empty_in_row(m.last())
    }
}

/// Filling a cell changes the count of empty cells in its row by what the
/// old and new heights say.
pub proof fn lemma_empty_in_row_update(row: Seq<u8>, c: int, v: u8)
    requires
        0 <= c < row.len(),
    ensures
        empty_in_row(row.update(c, v)) + (if row[c] == 0 { 1nat } else { 0nat })
            == empty_in_row(row) + (if v == 0 { 1nat } else { 0nat }),
    decreases row.len(),
{
    let new = row.update(c, v);
    if c == row.len() - 1 {
        assert(new.drop_last() =~= row.drop_last());
    } else {
        assert(new.drop_last() =~= row.drop_last().update(c, v));
        lemma_empty_in_row_update(row.drop_last(), c, v);
    }
}

/// Replacing one row changes the count of empty cells by the difference
/// between the two rows.
pub proof fn lemma_empty_cells_update(m: Seq<Seq<u8>>, r: int, row: Seq<u8>)
    requires
        0 <= r < m.len(),
    ensures
        empty_cells(m.update(r, row)) + empty_in_row(m[r]) == empty_cells(m) + empty_in_row(row),
    decreases m.len(),
{
    let new = m.update(r, row);
    if r == m.len() - 1 {
        assert(new.drop_last() =~= m.drop_last());
    } else {
        assert(new.drop_last() =~= m.drop_last().update(r, row));
        lemma_empty_cells_update(m.drop_last(), r, row);
    }
}

/// Writes height `v` into the cell at row `r`, column `c`.
pub fn set_cell(grid: &mut Vec<Vec<u8>>, r: usize, c: usize, v: u8)
    requires
        r < old(grid)@.len(),
        c < old(grid)@[r as int]@.len(),
    ensures
        grid_of(final(grid)) == with_cell(grid_of(old(grid)), r as int, c as int, v),
{
    grid[r][c] = v;
    assert(grid_of(grid) =~~= with_cell(grid_of(old(grid)), r as int, c as int, v));
}

} // verus!
