//! Visibility clues: how many buildings an observer sees along a line.

use vstd::prelude::*;
use crate::grid::{shaped, complete, grid_of};

verus! {

/// The building at index `i` of `line` is seen: it is placed, and every
/// building before it is lower.
pub open spec fn is_visible(line: Seq<u8>, i: int) -> bool {
    line[i] != 0 && forall|j: int| 0 <= j < i ==> #[trigger] line[j] < line[i]
}

/// The number of buildings seen among the first `k` of `line`.
pub open spec fn visible_upto(line: Seq<u8>, k: int) -> nat
    decreases k,
{
    if k <= 0 {
        0
    } else {
        visible_upto(line, k - 1) + if is_visible(line, k - 1) { 1nat } else { 0nat }
    }
}

/// The number of buildings seen along the whole of `line`.
pub open spec fn visible_count(line: Seq<u8>) -> nat {
    visible_upto(line, line.len() as int)
}

/// One of the first `k` buildings of `line` is at least `h` high.
pub open spec fn has_height(line: Seq<u8>, k: int, h: nat) -> bool {
    exists|j: int| 0 <= j < k && h <= #[trigger] line[j]
}

/// The index of such a building.
pub open spec fn tall_index(line: Seq<u8>, k: int, h: nat) -> int {
    choose|j: int| 0 <= j < k && h <= #[trigger] line[j]
}

/// Each building seen is higher than the one seen before it, so the count of
/// those seen never exceeds the greatest height, and fits in a byte.
pub proof fn lemma_visible_bounded(line: Seq<u8>, k: int)
    requires
        0 <= k <= line.len(),
    ensures
        visible_upto(line, k) != 0 ==> has_height(line, k, visible_upto(line, k)),
        visible_upto(line, k) <= 255,
    decreases k,
{
    if k > 0 {
        lemma_visible_bounded(line, k - 1);
        if visible_upto(line, k - 1) != 0 {
            let j = tall_index(line, k - 1, visible_upto(line, k - 1));
            if is_visible(line, k - 1) {
                assert(line[j] < line[k - 1]);
                assert(visible_upto(line, k) <= line[k - 1]);
            } else {
                assert(visible_upto(line, k) <= line[j]);
            }
        } else if is_visible(line, k - 1) {
            assert(visible_upto(line, k) <= line[k - 1]);
        }
    }
}

/// Counts the buildings seen along `row_or_col`, read in the order in which
/// the observer meets them. Empty cells are passed over.
pub fn calculate_clue_from_direction(row_or_col: &[u8]) -> (visible: u8)
    ensures
        visible as nat == visible_count(row_or_col@),
{
    let mut max_height: u8 = 0;
    let mut visible: u8 = 0;
    let mut i: usize = 0;
    while i < row_or_col.len()
        invariant
            i <= row_or_col@.len(),
            visible as nat == visible_upto(row_or_col@, i as int),
            visible <= max_height,
            forall|j: int| 0 <= j < i ==> #[trigger] row_or_col@[j] <= max_height,
            max_height == 0 || exists|j: int| 0 <= j < i && #[trigger] row_or_col@[j] == max_height,
        decreases row_or_col@.len() - i,
    {
        let height = row_or_col[i];
        if height != 0 && height > max_height {
            max_height = height;
            visible += 1;
        } else {
            assert(!is_visible(row_or_col@, i as int));
        }
        i += 1;
    }
    visible
}

/// Column `c` of `m`, read from the top.
pub open spec fn column(m: Seq<Seq<u8>>, c: int) -> Seq<u8> {
    Seq::new(m.len(), |r: int| m[r][c])
}

/// The line that clue `i` of an `n` by `n` grid looks along, in the order in
/// which its observer meets the cells: the columns from the top, the rows from
/// the right, the columns from the bottom, the rows from the left.
pub open spec fn clue_line(m: Seq<Seq<u8>>, n: int, i: int) -> Seq<u8> {
    if i < n {
        column(m, i)
    } else if i < 2 * n {
        m[i - n].reverse()
    } else if i < 3 * n {
        column(m, i - 2 * n).reverse()
    } else {
        m[i - 3 * n]
    }
}

/// The value of clue `i` on the grid `m`.
pub open spec fn clue_at(m: Seq<Seq<u8>>, n: int, i: int) -> nat {
    visible_count(clue_line(m, n, i))
}

/// All `4 * n` clues of the grid `m`. Each is a count that fits in a byte, as
/// `lemma_visible_bounded` shows.
pub open spec fn all_clues(m: Seq<Seq<u8>>, n: int) -> Seq<u8> {
    Seq::new((4 * n) as nat, |i: int| clue_at(m, n, i) as u8)
}

/// The grid `m` agrees with every clue that is given; a clue of `0` asks
/// nothing.
pub open spec fn satisfies(m: Seq<Seq<u8>>, n: int, clues: Seq<u8>) -> bool {
    forall|i: int| 0 <= i < 4 * n && #[trigger] clues[i] != 0 ==> clues[i] as nat == clue_at(m, n, i)
}

/// Copies column `c` of the grid, from the top.
pub fn column_of(grid: &Vec<Vec<u8>>, size: usize, c: usize) -> (line: Vec<u8>)
    requires
        shaped(grid_of(grid), size as int),
        c < size,
    ensures
        line@ == column(grid_of(grid), c as int),
{
    let mut line: Vec<u8> = Vec::with_capacity(size);
    let mut r: usize = 0;
    while r < size
        invariant
            shaped(grid_of(grid), size as int),
            c < size,
            r <= size,
            line@.len() == r,
            forall|j: int| 0 <= j < r ==> #[trigger] line@[j] == grid_of(grid)[j][c as int],
        decreases size - r,
    {
        assert(grid_of(grid)[r as int].len() == size);
        line.push(grid[r][c]);
        r += 1;
    }
    assert(line@ =~= column(grid_of(grid), c as int));
    line
}

/// Copies a line back to front.
pub fn reversed(line: &Vec<u8>) -> (back: Vec<u8>)
    ensures
        back@ == line@.reverse(),
{
    let n = line.len();
    let mut back: Vec<u8> = Vec::with_capacity(n);
    let mut i: usize = 0;
    while i < n
        invariant
            n == line@.len(),
            i <= n,
            back@.len() == i,
            forall|j: int| 0 <= j < i ==> #[trigger] back@[j] == line@[n - 1 - j],
        decreases n - i,
    {
        back.push(line[n - 1 - i]);
        i += 1;
    }
    assert(back@ =~= line@.reverse());
    back
}

/// Computes the clues of all four edges of a grid: top, right, bottom, left,
/// `size` clues each.
pub fn calculate_all_clues(grid: &Vec<Vec<u8>>, size: usize) -> (clues: Vec<u8>)
    requires
        shaped(grid_of(grid), size as int),
        4 * size <= usize::MAX,
    ensures
        clues@ == all_clues(grid_of(grid), size as int),
{
    let ghost m = grid_of(grid);
    let ghost n = size as int;
    let total_clues = 4 * size;
    let mut clues: Vec<u8> = Vec::with_capacity(total_clues);
    let mut col: usize = 0;
    while col < size
        invariant
            shaped(m, n),
            m == grid_of(grid),
            n == size,
            col <= size,
            clues@.len() == col,
            forall|j: int| 0 <= j < clues@.len() ==> #[trigger] clues@[j] as nat == clue_at(m, n, j),
        decreases size - col,
    {
        let line = column_of(grid, size, col);
        clues.push(calculate_clue_from_direction(line.as_slice()));
        col += 1;
    }
    let mut row: usize = 0;
    while row < size
        invariant
            shaped(m, n),
            m == grid_of(grid),
            n == size,
            row <= size,
            clues@.len() == n + row,
            forall|j: int| 0 <= j < clues@.len() ==> #[trigger] clues@[j] as nat == clue_at(m, n, j),
        decreases size - row,
    {
        assert(m[row as int] == grid@[row as int]@);
        let line = reversed(&grid[row]);
        clues.push(calculate_clue_from_direction(line.as_slice()));
        row += 1;
    }
    let mut col: usize = 0;
    while col < size
        invariant
            shaped(m, n),
            m == grid_of(grid),
            n == size,
            col <= size,
            clues@.len() == 2 * n + col,
            forall|j: int| 0 <= j < clues@.len() ==> #[trigger] clues@[j] as nat == clue_at(m, n, j),
        decreases size - col,
    {
        let line = column_of(grid, size, col);
        let back = reversed(&line);
        clues.push(calculate_clue_from_direction(back.as_slice()));
        col += 1;
    }
    let mut row: usize = 0;
    while row < size
        invariant
            shaped(m, n),
            m == grid_of(grid),
            n == size,
            row <= size,
            clues@.len() == 3 * n + row,
            forall|j: int| 0 <= j < clues@.len() ==> #[trigger] clues@[j] as nat == clue_at(m, n, j),
        decreases size - row,
    {
        assert(m[row as int] == grid@[row as int]@);
        clues.push(calculate_clue_from_direction(grid[row].as_slice()));
        row += 1;
    }
    assert(clues@ =~= all_clues(m, n));
    clues
}

/// Tells whether every cell of the grid is filled.
pub fn is_filled(grid: &Vec<Vec<u8>>, size: usize) -> (filled: bool)
    requires
        shaped(grid_of(grid), size as int),
    ensures
        filled == complete(grid_of(grid), size as int),
{
    let ghost m = grid_of(grid);
    let mut r: usize = 0;
    while r < size
        invariant
            shaped(m, size as int),
            m == grid_of(grid),
            r <= size,
            forall|i: int, j: int| 0 <= i < r && 0 <= j < size ==> #[trigger] m[i][j] != 0,
        decreases size - r,
    {
        let mut c: usize = 0;
        while c < size
            invariant
                shaped(m, size as int),
                m == grid_of(grid),
                r < size,
                c <= size,
                forall|i: int, j: int| 0 <= i < r && 0 <= j < size ==> #[trigger] m[i][j] != 0,
                forall|j: int| 0 <= j < c ==> #[trigger] m[r as int][j] != 0,
            decreases size - c,
        {
            assert(m[r as int].len() == size);
            if grid[r][c] == 0 {
                assert(m[r as int][c as int] == 0);
                return false;
            }
            c += 1;
        }
        r += 1;
    }
    true
}

/// Checks a grid against a clue set. A grid with an empty cell passes: only a
/// filled grid is held to the clues, and only to those that are not `0`.
pub fn check_clues(grid: &Vec<Vec<u8>>, size: usize, clues: &[u8]) -> (ok: bool)
    requires
        shaped(grid_of(grid), size as int),
        clues@.len() == 4 * size,
    ensures
        ok == (complete(grid_of(grid), size as int) ==> satisfies(
            grid_of(grid),
            size as int,
            clues@,
        )),
{
    if !is_filled(grid, size) {
        return true;
    }
    let ghost m = grid_of(grid);
    let ghost n = size as int;
    let total_clues = clues.len();
    let calculated_clues = calculate_all_clues(grid, size);
    let mut i: usize = 0;
    while i < total_clues
        invariant
            total_clues == 4 * n,
            n == size,
            m == grid_of(grid),
            complete(m, n),
            i <= total_clues,
            clues@.len() == total_clues,
            calculated_clues@ == all_clues(m, n),
            forall|j: int| 0 <= j < i && #[trigger] clues@[j] != 0 ==> clues@[j] as nat == clue_at(m, n, j),
        decreases total_clues - i,
    {
        proof {
            let line = clue_line(m, n, i as int);
            lemma_visible_bounded(line, line.len() as int);
        }
        if clues[i] != 0 && calculated_clues[i] != clues[i] {
            assert(calculated_clues@[i as int] as nat == clue_at(m, n, i as int));
            assert(clues@[i as int] as nat != clue_at(m, n, i as int));
            return false;
        }
        i += 1;
    }
    true
}

} // verus!
