//! The clue reducer: removes clues one at a time, in a given order, for as
//! long as the puzzle keeps exactly one solution.

use vstd::prelude::*;
use crate::grid::{shaped, latin, grid_of};
use crate::clues::{all_clues, satisfies, calculate_all_clues};
use crate::laws::{weaker, lemma_reduced_weaker, lemma_weaker_satisfied, lemma_reduced_unique,
    lemma_grid_solves_its_clues, lemma_locally_irreducible};
use crate::solver::{capped_count, puzzle_solutions, count_solutions, SolutionCount};
use crate::shuffle::{shuffled_positions, is_position_order};

verus! {

/// Exactly one solved grid agrees with `clues`.
pub open spec fn is_unique(n: int, clues: Seq<u8>) -> bool {
    capped_count(puzzle_solutions(n, clues)) == 1
}

/// `clues` with clue `i` removed.
pub open spec fn without(clues: Seq<u8>, i: int) -> Seq<u8> {
    clues.update(i, 0u8)
}

/// `clues` after one test: clue `i` is removed if the rest still has exactly
/// one solution, and kept otherwise.
pub open spec fn try_remove(n: int, clues: Seq<u8>, i: int) -> Seq<u8> {
    if is_unique(n, without(clues, i)) {
        without(clues, i)
    } else {
        clues
    }
}

/// `full` after the tests of the first `k` positions of `order`, each made on
/// what the tests before it left.
pub open spec fn reduced(n: int, full: Seq<u8>, order: Seq<usize>, k: int) -> Seq<u8>
    decreases k,
{
    if k <= 0 {
        full
    } else {
        try_remove(n, reduced(n, full, order, k - 1), order[k - 1] as int)
    }
}

/// Every position in `order` is one of the `total` clue positions.
pub open spec fn positions_within(order: Seq<usize>, total: int) -> bool {
    forall|j: int| 0 <= j < order.len() ==> #[trigger] order[j] < total
}

/// Tests one clue: removes the clue at `position` if the puzzle keeps
/// exactly one solution without it.
pub fn try_remove_clue(clues: &mut Vec<u8>, size: usize, position: usize)
    requires
        size <= 255,
        old(clues)@.len() == 4 * size,
        position < 4 * size,
    ensures
        final(clues)@ == try_remove(size as int, old(clues)@, position as int),
{
    let removed = clues[position];
    clues.set(position, 0);
    match count_solutions(size, clues.as_slice()) {
        SolutionCount::Unique => {},
        _ => {
            clues.set(position, removed);
            assert(clues@ =~= old(clues)@);
        },
    }
}

/// Tests the clues of `full` for removal at the positions of `order`, one
/// after the other. A decision is never taken back.
pub fn reduce_clues(full: Vec<u8>, size: usize, order: &Vec<usize>) -> (clues: Vec<u8>)
    requires
        size <= 255,
        full@.len() == 4 * size,
        positions_within(order@, 4 * size),
    ensures
        clues@ == reduced(size as int, full@, order@, order@.len() as int),
        clues@.len() == 4 * size,
{
    let mut clues = full;
    let mut k: usize = 0;
    while k < order.len()
        invariant
            size <= 255,
            clues@.len() == 4 * size,
            positions_within(order@, 4 * size),
            k <= order@.len(),
            clues@ == reduced(size as int, full@, order@, k as int),
        decreases order@.len() - k,
    {
        try_remove_clue(&mut clues, size, order[k]);
        k += 1;
    }
    clues
}

/// Makes a puzzle from a grid: computes all its clues and removes, in a
/// random order of the positions, each clue without which the puzzle still
/// has exactly one solution.
///
/// Every clue of the result is removed or is the grid's own. Of a solved
/// grid the result is a puzzle that the grid solves; no clue that is left can
/// be removed alone without the puzzle having a second solution; and where
/// the grid is the only one with its clues, it is the only solution of the
/// result.
pub fn create_puzzle(grid: &Vec<Vec<u8>>, size: usize) -> (clues: Vec<u8>)
    requires
        size <= 255,
        shaped(grid_of(grid), size as int),
    ensures
        clues@.len() == 4 * size,
        exists|order: Seq<usize>| #[trigger]
            is_position_order(order, 4 * size) && clues@ == reduced(
                size as int,
                all_clues(grid_of(grid), size as int),
                order,
                4 * size,
            ),
        weaker(clues@, all_clues(grid_of(grid), size as int)),
        latin(grid_of(grid), size as int) ==> satisfies(grid_of(grid), size as int, clues@),
        latin(grid_of(grid), size as int) && is_unique(
            size as int,
            all_clues(grid_of(grid), size as int),
        ) ==> is_unique(size as int, clues@),
        latin(grid_of(grid), size as int) ==> forall|i: int|
            0 <= i < 4 * size && #[trigger] clues@[i] != 0 ==> capped_count(
                puzzle_solutions(size as int, without(clues@, i)),
            ) == 2,
{
    let all_clues = calculate_all_clues(grid, size);
    let total_clues = 4 * size;
    let indices = shuffled_positions(total_clues);
    proof {
        assert forall|j: int| 0 <= j < indices@.len() implies #[trigger] indices@[j] < total_clues by {
            assert(indices@.contains(indices@[j]));
        }
    }
    let ghost full = all_clues@;
    let clues = reduce_clues(all_clues, size, &indices);
    proof {
        let g = grid_of(grid);
        let n = size as int;
        assert(is_position_order(indices@, 4 * size));
        lemma_reduced_weaker(n, full, indices@, 0, 4 * n);
        if latin(g, n) {
            lemma_grid_solves_its_clues(g, n);
            lemma_weaker_satisfied(g, n, clues@, full);
            if is_unique(n, full) {
                lemma_reduced_unique(n, full, indices@, 4 * n);
            }
            assert forall|i: int| 0 <= i < 4 * size && #[trigger] clues@[i] != 0 implies capped_count(
                puzzle_solutions(n, without(clues@, i)),
            ) == 2 by {
                lemma_locally_irreducible(g, n, indices@, i as usize);
            }
        }
    }
    clues
}

} // verus!
