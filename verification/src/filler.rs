//! The grid filler: a backtracking search, in random order, for a solved grid.

use vstd::prelude::*;
use crate::grid::{consistent, latin, extends, with_cell, grid_of, set_cell, empty_cells};
use crate::clues::satisfies;
use crate::solver::{is_solution, first_empty, find_empty, is_valid_placement, empty_grid, blank,
    lemma_place, lemma_blocked, lemma_blank};
use crate::shuffle::{shuffled_heights, is_height_order};

verus! {

/// The clue set of `4 * n` clues that asks nothing.
pub open spec fn no_clues(n: int) -> Seq<u8> {
    Seq::new((4 * n) as nat, |i: int| 0u8)
}

/// `m` is a solved grid that keeps what `g` has placed.
pub open spec fn completes(m: Seq<Seq<u8>>, g: Seq<Seq<u8>>, n: int) -> bool {
    latin(m, n) && extends(m, g, n)
}

/// The height at row `r`, column `c` of the square whose rows count upwards,
/// each starting one higher than the row above, the first at `s + 1`, and
/// going back to `1` after `n`.
pub open spec fn cyclic_height(n: int, s: int, r: int, c: int) -> int {
    let t = r + c + s;
    if t < n {
        t + 1
    } else if t < 2 * n {
        t - n + 1
    } else {
        t - 2 * n + 1
    }
}

/// That square.
pub open spec fn cyclic(n: int, s: int) -> Seq<Seq<u8>> {
    Seq::new(n as nat, |r: int| Seq::new(n as nat, |c: int| cyclic_height(n, s, r, c) as u8))
}

/// The cyclic squares are solved grids: there is a solved grid of every size
/// from 1 to 255.
pub proof fn lemma_cyclic_latin(n: int, s: int)
    requires
        1 <= n <= 255,
        0 <= s <= n,
    ensures
        latin(cyclic(n, s), n),
{
    let m = cyclic(n, s);
    assert forall|r: int, c: int| 0 <= r < n && 0 <= c < n implies #[trigger] m[r][c]
        == cyclic_height(n, s, r, c) && 1 <= m[r][c] <= n by {}
    assert forall|r: int, c1: int, c2: int|
        0 <= r < n && 0 <= c1 < n && 0 <= c2 < n && c1 != c2 implies #[trigger] m[r][c1]
        != #[trigger] m[r][c2] by {
        assert(m[r][c1] == cyclic_height(n, s, r, c1));
        assert(m[r][c2] == cyclic_height(n, s, r, c2));
    }
    assert forall|r1: int, r2: int, c: int|
        0 <= r1 < n && 0 <= r2 < n && 0 <= c < n && r1 != r2 implies #[trigger] m[r1][c]
        != #[trigger] m[r2][c] by {
        assert(m[r1][c] == cyclic_height(n, s, r1, c));
        assert(m[r2][c] == cyclic_height(n, s, r2, c));
    }
}

/// Fills the empty cells of `grid`, first cell first, trying the heights of
/// each cell in a fresh random order. It returns `true` with a solved grid
/// that keeps what was placed, if there is one; otherwise it returns `false`
/// and leaves the grid as it was.
pub fn fill_grid(grid: &mut Vec<Vec<u8>>, size: usize) -> (done: bool)
    requires
        size <= 255,
        consistent(grid_of(old(grid)), size as int),
    ensures
        done ==> completes(grid_of(final(grid)), grid_of(old(grid)), size as int),
        !done ==> grid_of(final(grid)) == grid_of(old(grid)),
        !done ==> forall|m: Seq<Seq<u8>>| !#[trigger] completes(m, grid_of(old(grid)), size as int),
    decreases empty_cells(grid_of(old(grid))),
{
    let ghost g0 = grid_of(grid);
    let ghost n = size as int;
    let ghost free = no_clues(n);
    assert forall|m: Seq<Seq<u8>>| #[trigger] satisfies(m, n, free) by {}
    match find_empty(grid, size) {
        None => {
            assert(extends(g0, g0, n));
            true
        },
        Some((row, col)) => {
            let numbers = shuffled_heights(size);
            let mut i: usize = 0;
            while i < numbers.len()
                invariant
                    size <= 255,
                    n == size,
                    free == no_clues(n),
                    g0 == grid_of(old(grid)),
                    grid_of(grid) == g0,
                    consistent(g0, n),
                    first_empty(g0, n, row as int, col as int),
                    is_height_order(numbers@, n),
                    i <= numbers@.len(),
                    forall|m: Seq<Seq<u8>>| #[trigger] satisfies(m, n, free),
                    forall|m: Seq<Seq<u8>>, j: int|
                        0 <= j < i && #[trigger] completes(m, g0, n) ==> m[row as int][col as int]
                            != #[trigger] numbers@[j],
                decreases numbers@.len() - i,
            {
                let num = numbers[i];
                proof {
                    assert(numbers@.contains(num));
                    lemma_place(n, free, g0, row as int, col as int, num);
                }
                let ghost g1 = with_cell(g0, row as int, col as int, num);
                if is_valid_placement(grid, row, col, num, size) {
                    set_cell(grid, row, col, num);
                    if fill_grid(grid, size) {
                        proof {
                            let m = grid_of(grid);
                            assert(is_solution(m, n, free, g1));
                            assert(is_solution(m, n, free, g0));
                        }
                        return true;
                    }
                    assert(grid_of(grid)[row as int].len() == size);
                    set_cell(grid, row, col, 0);
                    assert(grid_of(grid) =~~= g0);
                    assert forall|m: Seq<Seq<u8>>| #[trigger]
                        completes(m, g0, n) implies m[row as int][col as int] != num by {
                        assert(!completes(m, g1, n));
                        assert(is_solution(m, n, free, g1) == (is_solution(m, n, free, g0)
                            && m[row as int][col as int] == num));
                    }
                } else {
                    proof {
                        lemma_blocked(n, free, g0, row as int, col as int, num);
                        assert forall|m: Seq<Seq<u8>>| #[trigger]
                            completes(m, g0, n) implies m[row as int][col as int] != num by {
                            assert(is_solution(m, n, free, g0));
                        }
                    }
                }
                i += 1;
            }
            proof {
                assert forall|m: Seq<Seq<u8>>| !#[trigger] completes(m, g0, n) by {
                    if completes(m, g0, n) {
                        let v = m[row as int][col as int];
                        assert(v != 0 && v <= n);
                        assert(numbers@.contains(v));
                        let j = choose|j: int| 0 <= j < numbers@.len() && numbers@[j] == v;
                        assert(m[row as int][col as int] != numbers@[j]);
                    }
                }
            }
            false
        },
    }
}

/// Generates a random solved grid of `size` by `size` cells. A solved grid
/// exists for every size from 1 to 255, and one is returned. Heights are
/// bytes, so a greater size has no solved grid: the result is `None`.
pub fn generate_complete_grid(size: usize) -> (made: Option<Vec<Vec<u8>>>)
    requires
        size >= 1,
    ensures
        match made {
            Some(grid) => size <= 255 && latin(grid_of(&grid), size as int),
            None => size > 255,
        },
{
    if size > 255 {
        return None;
    }
    let mut grid = empty_grid(size);
    proof {
        let n = size as int;
        lemma_blank(n, no_clues(n));
        lemma_cyclic_latin(n, 0);
        assert(extends(cyclic(n, 0), blank(n), n));
        assert(completes(cyclic(n, 0), blank(n), n));
    }
    if fill_grid(&mut grid, size) {
        Some(grid)
    } else {
        None
    }
}

} // verus!
