//! What holds of the clues of a solved grid, of the reduced clue set, and of
//! the puzzle without clues.

use vstd::prelude::*;
use vstd::set_lib::{set_int_range, lemma_int_range, lemma_len_subset, lemma_subset_equality};
use crate::grid::latin;
use crate::clues::{is_visible, visible_upto, clue_line, clue_at, all_clues, column, satisfies,
    tall_index, lemma_visible_bounded};
use crate::solver::{capped_count, puzzle_solutions, lemma_count_subset};
use crate::reducer::{is_unique, without, try_remove, reduced, positions_within};
use crate::shuffle::is_position_order;
use crate::filler::{no_clues, cyclic, lemma_cyclic_latin};

verus! {

/// A line of `n` different heights from `1` to `n` holds every one of them.
pub proof fn lemma_line_has_every_height(line: Seq<u8>, n: int, v: u8)
    requires
        line.len() == n,
        forall|j: int| 0 <= j < n ==> 1 <= #[trigger] line[j] <= n,
        forall|j: int, k: int|
            0 <= j < n && 0 <= k < n && j != k ==> #[trigger] line[j] != #[trigger] line[k],
        1 <= v <= n,
    ensures
        line.contains(v),
{
    let heights = Seq::new(n as nat, |j: int| line[j] as int);
    let range = set_int_range(1, n + 1);
    assert(heights.no_duplicates());
    heights.unique_seq_to_set();
    lemma_int_range(1, n + 1);
    assert forall|a: int| heights.to_set().contains(a) implies range.contains(a) by {
        let j = choose|j: int| 0 <= j < heights.len() && heights[j] == a;
        assert(1 <= line[j] <= n);
    }
    lemma_len_subset(heights.to_set(), range);
    lemma_subset_equality(heights.to_set(), range);
    assert(range.contains(v as int));
    assert(heights.to_set().contains(v as int));
    let j = choose|j: int| 0 <= j < heights.len() && heights[j] == v as int;
    assert(line[j] == v);
}

/// Every row and every column of a solved grid is a permutation of the
/// heights `1..=n`: it has `n` cells, and each height stands in it.
pub proof fn lemma_lines_are_permutations(g: Seq<Seq<u8>>, n: int, i: int, v: u8)
    requires
        latin(g, n),
        0 <= i < n,
        1 <= v <= n,
    ensures
        g[i].len() == n,
        g[i].contains(v),
        column(g, i).len() == n,
        column(g, i).contains(v),
{
    let row = g[i];
    let col = column(g, i);
    assert forall|j: int| 0 <= j < n implies 1 <= #[trigger] row[j] <= n by {
        assert(g[i][j] != 0);
    }
    assert forall|j: int| 0 <= j < n implies 1 <= #[trigger] col[j] <= n by {
        assert(g[j][i] != 0);
    }
    assert forall|j: int, k: int| 0 <= j < n && 0 <= k < n && j != k implies #[trigger] col[j]
        != #[trigger] col[k] by {
        assert(g[j][i] != 0);
        assert(g[j][i] != g[k][i]);
    }
    assert forall|j: int, k: int| 0 <= j < n && 0 <= k < n && j != k implies #[trigger] row[j]
        != #[trigger] row[k] by {
        assert(g[i][j] != 0);
        assert(g[i][j] != g[i][k]);
    }
    lemma_line_has_every_height(row, n, v);
    lemma_line_has_every_height(col, n, v);
}

/// Where the first building of a line is placed, it is seen.
pub proof fn lemma_visible_positive(line: Seq<u8>, k: int)
    requires
        1 <= k <= line.len(),
        line[0] != 0,
    ensures
        visible_upto(line, k) >= 1,
    decreases k,
{
    if k == 1 {
        assert(is_visible(line, 0));
        assert(visible_upto(line, 0) == 0);
    } else {
        lemma_visible_positive(line, k - 1);
    }
}

/// Every line that a clue of a solved grid looks along holds `n` heights
/// from `1` to `n`.
pub proof fn lemma_line_heights(g: Seq<Seq<u8>>, n: int, i: int, j: int)
    requires
        latin(g, n),
        0 <= i < 4 * n,
        0 <= j < n,
    ensures
        clue_line(g, n, i).len() == n,
        1 <= clue_line(g, n, i)[j] <= n,
{
    if i < n {
        assert(column(g, i)[j] == g[j][i]);
    } else if i < 2 * n {
        assert(g[i - n].reverse()[j] == g[i - n][n - 1 - j]);
    } else if i < 3 * n {
        assert(column(g, i - 2 * n).reverse()[j] == g[n - 1 - j][i - 2 * n]);
    } else {
        assert(g[i - 3 * n][j] != 0);
    }
}

/// Every clue of a solved grid lies between `1` and `n`.
pub proof fn lemma_clue_range(g: Seq<Seq<u8>>, n: int, i: int)
    requires
        latin(g, n),
        0 <= i < 4 * n,
    ensures
        1 <= clue_at(g, n, i) <= n,
        all_clues(g, n)[i] as nat == clue_at(g, n, i),
{
    let line = clue_line(g, n, i);
    lemma_line_heights(g, n, i, 0);
    lemma_visible_bounded(line, n);
    lemma_visible_positive(line, n);
    let j = tall_index(line, n, visible_upto(line, n));
    lemma_line_heights(g, n, i, j);
}

/// A solved grid agrees with all its own clues, so its full clue set has at
/// least one solution.
pub proof fn lemma_grid_solves_its_clues(g: Seq<Seq<u8>>, n: int)
    requires
        latin(g, n),
    ensures
        satisfies(g, n, all_clues(g, n)),
        capped_count(puzzle_solutions(n, all_clues(g, n))) >= 1,
{
    let full = all_clues(g, n);
    assert forall|i: int| 0 <= i < 4 * n && #[trigger] full[i] != 0 implies full[i] as nat
        == clue_at(g, n, i) by {
        lemma_clue_range(g, n, i);
    }
    let p = puzzle_solutions(n, full);
    assert(p(g));
}

/// A solved grid that agrees with the full clue set of another has the same
/// full clue set.
pub proof fn lemma_same_clues(m: Seq<Seq<u8>>, g: Seq<Seq<u8>>, n: int)
    requires
        latin(m, n),
        latin(g, n),
        satisfies(m, n, all_clues(g, n)),
    ensures
        all_clues(m, n) == all_clues(g, n),
{
    assert forall|i: int| 0 <= i < 4 * n implies all_clues(m, n)[i] == all_clues(g, n)[i] by {
        lemma_clue_range(g, n, i);
        lemma_clue_range(m, n, i);
        assert(all_clues(g, n)[i] != 0);
    }
    assert(all_clues(m, n) =~= all_clues(g, n));
}

/// The round trip of the clues: where no other solved grid has the same full
/// clue set as `g`, that clue set has exactly one solution, and it is `g`.
pub proof fn lemma_clue_round_trip(g: Seq<Seq<u8>>, n: int)
    requires
        latin(g, n),
        forall|m: Seq<Seq<u8>>|
            latin(m, n) && #[trigger] all_clues(m, n) == all_clues(g, n) ==> m == g,
    ensures
        is_unique(n, all_clues(g, n)),
        forall|m: Seq<Seq<u8>>| #[trigger] puzzle_solutions(n, all_clues(g, n))(m) ==> m == g,
{
    lemma_grid_solves_its_clues(g, n);
    let p = puzzle_solutions(n, all_clues(g, n));
    assert forall|m: Seq<Seq<u8>>| #[trigger] p(m) implies m == g by {
        lemma_same_clues(m, g, n);
    }
    assert(p(g));
}

/// The reducer keeps uniqueness: where the full clue set has exactly one
/// solution, so has the clue set after any number of tests.
pub proof fn lemma_reduced_unique(n: int, full: Seq<u8>, order: Seq<usize>, k: int)
    requires
        is_unique(n, full),
    ensures
        is_unique(n, reduced(n, full, order, k)),
    decreases k,
{
    if k > 0 {
        lemma_reduced_unique(n, full, order, k - 1);
    }
}

/// `a` asks no more than `b`: each clue of `a` is removed or is that of `b`.
pub open spec fn weaker(a: Seq<u8>, b: Seq<u8>) -> bool {
    &&& a.len() == b.len()
    &&& forall|i: int| 0 <= i < a.len() ==> #[trigger] a[i] == 0 || a[i] == b[i]
}

/// A grid that agrees with a clue set agrees with every one that asks no more.
pub proof fn lemma_weaker_satisfied(m: Seq<Seq<u8>>, n: int, a: Seq<u8>, b: Seq<u8>)
    requires
        weaker(a, b),
        a.len() == 4 * n,
        satisfies(m, n, b),
    ensures
        satisfies(m, n, a),
{
    assert forall|i: int| 0 <= i < 4 * n && #[trigger] a[i] != 0 implies a[i] as nat == clue_at(
        m,
        n,
        i,
    ) by {
        assert(b[i] != 0);
    }
}

/// A clue set that asks no more has no fewer solutions.
pub proof fn lemma_weaker_count(n: int, a: Seq<u8>, b: Seq<u8>)
    requires
        weaker(a, b),
        a.len() == 4 * n,
    ensures
        capped_count(puzzle_solutions(n, b)) <= capped_count(puzzle_solutions(n, a)),
{
    let p = puzzle_solutions(n, b);
    let q = puzzle_solutions(n, a);
    assert forall|m: Seq<Seq<u8>>| #[trigger] p(m) implies q(m) by {
        lemma_weaker_satisfied(m, n, a, b);
    }
    lemma_count_subset(p, q);
}

/// Each test leaves a clue set that asks no more than the one before it.
pub proof fn lemma_reduced_weaker(n: int, full: Seq<u8>, order: Seq<usize>, j: int, k: int)
    requires
        0 <= j <= k <= order.len(),
        positions_within(order, full.len() as int),
    ensures
        weaker(reduced(n, full, order, k), reduced(n, full, order, j)),
        reduced(n, full, order, k).len() == full.len(),
    decreases k,
{
    if k == 0 {
    } else if j == k {
        lemma_reduced_weaker(n, full, order, 0, k - 1);
    } else {
        lemma_reduced_weaker(n, full, order, j, k - 1);
    }
}

/// The reduced clue set is locally irreducible. Take the full clue set of a
/// solved grid and test every position in some order. Then no clue that is
/// left can be removed alone: without it the puzzle has more than one
/// solution.
pub proof fn lemma_locally_irreducible(g: Seq<Seq<u8>>, n: int, order: Seq<usize>, i: usize)
    requires
        latin(g, n),
        is_position_order(order, 4 * n),
        i < 4 * n,
        reduced(n, all_clues(g, n), order, 4 * n)[i as int] != 0,
    ensures
        !is_unique(n, without(reduced(n, all_clues(g, n), order, 4 * n), i as int)),
        capped_count(puzzle_solutions(n, without(reduced(n, all_clues(g, n), order, 4 * n), i as int)))
            == 2,
{
    let full = all_clues(g, n);
    let total = 4 * n;
    let last = reduced(n, full, order, total);
    assert(order.contains(i));
    let k = choose|k: int| 0 <= k < order.len() && order[k] == i;
    assert forall|j: int| 0 <= j < order.len() implies #[trigger] order[j] < total by {
        assert(order.contains(order[j]));
    }
    let before = reduced(n, full, order, k);
    let after = reduced(n, full, order, k + 1);
    lemma_reduced_weaker(n, full, order, 0, k);
    lemma_reduced_weaker(n, full, order, k, total);
    lemma_reduced_weaker(n, full, order, k + 1, total);
    assert(after == try_remove(n, before, i as int));
    assert(after[i as int] != 0);
    assert(!is_unique(n, without(before, i as int)));
    lemma_grid_solves_its_clues(g, n);
    assert(weaker(without(before, i as int), full));
    lemma_weaker_count(n, without(before, i as int), full);
    assert(weaker(without(last, i as int), without(before, i as int)));
    lemma_weaker_count(n, without(last, i as int), without(before, i as int));
}

/// Without clues a puzzle of size two or more is never unique: more than one
/// solved grid of that size exists.
pub proof fn lemma_no_clues_multiple(n: int)
    requires
        2 <= n <= 255,
    ensures
        capped_count(puzzle_solutions(n, no_clues(n))) == 2,
{
    let a = cyclic(n, 0);
    let b = cyclic(n, 1);
    lemma_cyclic_latin(n, 0);
    lemma_cyclic_latin(n, 1);
    let p = puzzle_solutions(n, no_clues(n));
    assert(a[0][0] == 1);
    assert(b[0][0] == 2);
    assert(p(a) && p(b) && a != b);
}

} // verus!
