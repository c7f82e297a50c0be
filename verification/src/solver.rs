//! The uniqueness solver: a backtracking search that counts, up to two, the
//! solved grids that agree with a clue set.

use vstd::prelude::*;
use crate::grid::{shaped, consistent, complete, latin, extends, with_cell, grid_of, set_cell,
    empty_cells, lemma_empty_in_row_update, lemma_empty_cells_update};
use crate::clues::{satisfies, check_clues};

verus! {

/// What a search for solutions found: none, exactly one, or at least two.
#[derive(Clone, Copy, Debug, PartialEq, Eq, Structural)]
pub enum SolutionCount {
    NoSolution,
    Unique,
    Multiple,
}

/// `x`, counted no further than two.
pub open spec fn capped(x: nat) -> nat {
    if x >= 2 { 2 } else { x }
}

/// No grid has the property `p`.
pub open spec fn none_of(p: spec_fn(Seq<Seq<u8>>) -> bool) -> bool {
    forall|m: Seq<Seq<u8>>| !#[trigger] p(m)
}

/// Two different grids have the property `p`.
pub open spec fn several_of(p: spec_fn(Seq<Seq<u8>>) -> bool) -> bool {
    exists|x: Seq<Seq<u8>>, y: Seq<Seq<u8>>| #[trigger] p(x) && #[trigger] p(y) && x != y
}

/// The number of grids with the property `p`, counted no further than two.
pub open spec fn capped_count(p: spec_fn(Seq<Seq<u8>>) -> bool) -> nat {
    if none_of(p) { 0 } else if several_of(p) { 2 } else { 1 }
}

/// `m` is a solved grid that keeps what `g` has placed and agrees with `clues`.
pub open spec fn is_solution(m: Seq<Seq<u8>>, n: int, clues: Seq<u8>, g: Seq<Seq<u8>>) -> bool {
    latin(m, n) && extends(m, g, n) && satisfies(m, n, clues)
}

/// The solutions of `clues` that complete the partial grid `g`.
pub open spec fn solutions(n: int, clues: Seq<u8>, g: Seq<Seq<u8>>) -> spec_fn(Seq<Seq<u8>>) -> bool {
    |m: Seq<Seq<u8>>| is_solution(m, n, clues, g)
}

/// Those solutions whose height at row `r`, column `c` is below `k`.
pub open spec fn solutions_below(n: int, clues: Seq<u8>, g: Seq<Seq<u8>>, r: int, c: int, k: int)
    -> spec_fn(Seq<Seq<u8>>) -> bool {
    |m: Seq<Seq<u8>>| is_solution(m, n, clues, g) && m[r][c] < k
}

/// The solved grids that agree with `clues`.
pub open spec fn puzzle_solutions(n: int, clues: Seq<u8>) -> spec_fn(Seq<Seq<u8>>) -> bool {
    |m: Seq<Seq<u8>>| latin(m, n) && satisfies(m, n, clues)
}

/// The grid of `n` by `n` empty cells.
pub open spec fn blank(n: int) -> Seq<Seq<u8>> {
    Seq::new(n as nat, |r: int| Seq::new(n as nat, |c: int| 0u8))
}

/// The classification that a capped count stands for.
pub open spec fn classify(count: nat) -> SolutionCount {
    if count == 0 {
        SolutionCount::NoSolution
    } else if count == 1 {
        SolutionCount::Unique
    } else {
        SolutionCount::Multiple
    }
}

/// Height `v` occurs neither in row `r` nor in column `c` of `m`.
pub open spec fn can_place(m: Seq<Seq<u8>>, n: int, r: int, c: int, v: u8) -> bool {
    &&& forall|j: int| 0 <= j < n ==> #[trigger] m[r][j] != v
    &&& forall|i: int| 0 <= i < n ==> #[trigger] m[i][c] != v
}

/// The cell at row `r`, column `c` is the first empty one in row-major order.
pub open spec fn first_empty(m: Seq<Seq<u8>>, n: int, r: int, c: int) -> bool {
    &&& 0 <= r < n
    &&& 0 <= c < n
    &&& m[r][c] == 0
    &&& forall|i: int, j: int| 0 <= i < r && 0 <= j < n ==> #[trigger] m[i][j] != 0
    &&& forall|j: int| 0 <= j < c ==> #[trigger] m[r][j] != 0
}

/// A property that is the union of two disjoint ones has their counts added.
pub proof fn lemma_count_split(
    p: spec_fn(Seq<Seq<u8>>) -> bool,
    a: spec_fn(Seq<Seq<u8>>) -> bool,
    b: spec_fn(Seq<Seq<u8>>) -> bool,
)
    requires
        forall|m: Seq<Seq<u8>>| #![trigger p(m)] #![trigger a(m)] #![trigger b(m)] p(m) <==> (a(m) || b(m)),
        forall|m: Seq<Seq<u8>>| #![trigger a(m)] #![trigger b(m)] !(a(m) && b(m)),
    ensures
        capped_count(p) == capped(capped_count(a) + capped_count(b)),
{
    if several_of(a) {
        let (x, y) = choose|x: Seq<Seq<u8>>, y: Seq<Seq<u8>>| #[trigger] a(x) && #[trigger] a(y) && x != y;
        assert(p(x) && p(y));
    } else if several_of(b) {
        let (x, y) = choose|x: Seq<Seq<u8>>, y: Seq<Seq<u8>>| #[trigger] b(x) && #[trigger] b(y) && x != y;
        assert(p(x) && p(y));
    } else if !none_of(a) && !none_of(b) {
        let x = choose|x: Seq<Seq<u8>>| #[trigger] a(x);
        let y = choose|y: Seq<Seq<u8>>| #[trigger] b(y);
        assert(p(x) && p(y) && x != y);
    } else if !none_of(a) {
        let x = choose|x: Seq<Seq<u8>>| #[trigger] a(x);
        assert(p(x));
    } else if !none_of(b) {
        let y = choose|y: Seq<Seq<u8>>| #[trigger] b(y);
        assert(p(y));
    }
}

/// A property that implies another has no greater count.
pub proof fn lemma_count_subset(p: spec_fn(Seq<Seq<u8>>) -> bool, q: spec_fn(Seq<Seq<u8>>) -> bool)
    requires
        forall|m: Seq<Seq<u8>>| #[trigger] p(m) ==> q(m),
    ensures
        capped_count(p) <= capped_count(q),
{
    if several_of(p) {
        let (x, y) = choose|x: Seq<Seq<u8>>, y: Seq<Seq<u8>>| #[trigger] p(x) && #[trigger] p(y) && x != y;
        assert(q(x) && q(y));
    } else if !none_of(p) {
        let x = choose|x: Seq<Seq<u8>>| #[trigger] p(x);
        assert(q(x));
    }
}

/// Two properties that hold of the same grids have the same count.
pub proof fn lemma_count_same(p: spec_fn(Seq<Seq<u8>>) -> bool, q: spec_fn(Seq<Seq<u8>>) -> bool)
    requires
        forall|m: Seq<Seq<u8>>| #![trigger p(m)] #![trigger q(m)] p(m) == q(m),
    ensures
        capped_count(p) == capped_count(q),
{
    lemma_count_subset(p, q);
    lemma_count_subset(q, p);
}

/// A solved grid that keeps all of a filled grid is that grid.
pub proof fn lemma_filled_is_itself(m: Seq<Seq<u8>>, g: Seq<Seq<u8>>, n: int)
    requires
        shaped(m, n),
        shaped(g, n),
        complete(g, n),
        extends(m, g, n),
    ensures
        m == g,
{
    assert forall|r: int| 0 <= r < n implies m[r] == g[r] by {
        assert forall|c: int| 0 <= c < n implies m[r][c] == g[r][c] by {
            assert(g[r][c] != 0);
        }
        assert(m[r] =~= g[r]);
    }
    assert(m =~= g);
}

/// A filled grid that breaks no rule has itself as its only completion: it
/// counts once if it agrees with the clues, and not at all otherwise.
pub proof fn lemma_filled_count(n: int, clues: Seq<u8>, g: Seq<Seq<u8>>)
    requires
        consistent(g, n),
        complete(g, n),
    ensures
        capped_count(solutions(n, clues, g)) == if satisfies(g, n, clues) { 1nat } else { 0nat },
{
    let p = solutions(n, clues, g);
    assert forall|m: Seq<Seq<u8>>| #[trigger] p(m) implies m == g by {
        lemma_filled_is_itself(m, g, n);
    }
    if satisfies(g, n, clues) {
        assert(p(g));
    }
}

/// Placing a height that is free in its row and column keeps the grid within
/// the rules, fills one cell, and narrows the solutions to those with that
/// height in that cell.
pub proof fn lemma_place(n: int, clues: Seq<u8>, g: Seq<Seq<u8>>, r: int, c: int, v: u8)
    requires
        consistent(g, n),
        0 <= r < n,
        0 <= c < n,
        g[r][c] == 0,
        1 <= v <= n,
    ensures
        can_place(g, n, r, c, v) ==> consistent(with_cell(g, r, c, v), n),
        empty_cells(with_cell(g, r, c, v)) + 1 == empty_cells(g),
        forall|m: Seq<Seq<u8>>| #[trigger]
            is_solution(m, n, clues, with_cell(g, r, c, v)) == (is_solution(m, n, clues, g)
                && m[r][c] == v),
{
    let h = with_cell(g, r, c, v);
    lemma_empty_in_row_update(g[r], c, v);
    lemma_empty_cells_update(g, r, g[r].update(c, v));
    assert forall|m: Seq<Seq<u8>>| #[trigger]
        is_solution(m, n, clues, h) == (is_solution(m, n, clues, g) && m[r][c] == v) by {
        if latin(m, n) {
            if extends(m, h, n) {
                assert(h[r][c] == v);
                assert forall|i: int, j: int|
                    0 <= i < n && 0 <= j < n && g[i][j] != 0 implies #[trigger] m[i][j]
                    == g[i][j] by {
                    assert(h[i][j] == g[i][j]);
                }
            }
            if extends(m, g, n) && m[r][c] == v {
                assert forall|i: int, j: int|
                    0 <= i < n && 0 <= j < n && h[i][j] != 0 implies #[trigger] m[i][j]
                    == h[i][j] by {
                    if i != r || j != c {
                        assert(h[i][j] == g[i][j]);
                    }
                }
            }
        }
    }
    if can_place(g, n, r, c, v) {
        assert forall|i: int, j: int| 0 <= i < n && 0 <= j < n implies #[trigger] h[i][j] <= n by {
            assert(g[i][j] <= n);
        }
        assert forall|i: int, j1: int, j2: int|
            0 <= i < n && 0 <= j1 < n && 0 <= j2 < n && j1 != j2 && h[i][j1] != 0 implies #[trigger] h[i][j1]
            != #[trigger] h[i][j2] by {
            assert(h[i][j1] == if i == r && j1 == c { v } else { g[i][j1] });
            assert(h[i][j2] == if i == r && j2 == c { v } else { g[i][j2] });
            if i == r {
                assert(g[r][j1] != v && g[r][j2] != v);
            }
        }
        assert forall|i1: int, i2: int, j: int|
            0 <= i1 < n && 0 <= i2 < n && 0 <= j < n && i1 != i2 && h[i1][j] != 0 implies #[trigger] h[i1][j]
            != #[trigger] h[i2][j] by {
            assert(h[i1][j] == if i1 == r && j == c { v } else { g[i1][j] });
            assert(h[i2][j] == if i2 == r && j == c { v } else { g[i2][j] });
            if j == c {
                assert(g[i1][c] != v && g[i2][c] != v);
            }
        }
        assert(shaped(h, n));
    }
}

/// A height that already stands in the row or the column of an empty cell is
/// the height of that cell in no solution.
pub proof fn lemma_blocked(n: int, clues: Seq<u8>, g: Seq<Seq<u8>>, r: int, c: int, v: u8)
    requires
        shaped(g, n),
        0 <= r < n,
        0 <= c < n,
        g[r][c] == 0,
        v != 0,
        !can_place(g, n, r, c, v),
    ensures
        forall|m: Seq<Seq<u8>>| #[trigger] is_solution(m, n, clues, g) ==> m[r][c] != v,
{
    assert forall|m: Seq<Seq<u8>>| #[trigger] is_solution(m, n, clues, g) implies m[r][c] != v by {
        if exists|j: int| 0 <= j < n && #[trigger] g[r][j] == v {
            let j = choose|j: int| 0 <= j < n && #[trigger] g[r][j] == v;
            assert(m[r][j] == v);
            assert(m[r][j] != m[r][c]);
        } else {
            let i = choose|i: int| 0 <= i < n && #[trigger] g[i][c] == v;
            assert(m[i][c] == v);
            assert(m[i][c] != m[r][c]);
        }
    }
}

/// Going from the heights below `v` to those below `v + 1` adds the solutions
/// with `v` in the cell: those of the grid with `v` placed, if it can be
/// placed, and none otherwise.
pub proof fn lemma_next_height(n: int, clues: Seq<u8>, g: Seq<Seq<u8>>, r: int, c: int, v: u8)
    requires
        consistent(g, n),
        0 <= r < n,
        0 <= c < n,
        g[r][c] == 0,
        1 <= v <= n,
    ensures
        capped_count(solutions_below(n, clues, g, r, c, v + 1)) == capped(
            capped_count(solutions_below(n, clues, g, r, c, v as int)) + if can_place(g, n, r, c, v) {
                capped_count(solutions(n, clues, with_cell(g, r, c, v)))
            } else {
                0
            },
        ),
        capped_count(solutions_below(n, clues, g, r, c, v + 1)) <= capped_count(
            solutions(n, clues, g),
        ),
{
    let next = solutions_below(n, clues, g, r, c, v + 1);
    let prev = solutions_below(n, clues, g, r, c, v as int);
    let here = solutions(n, clues, with_cell(g, r, c, v));
    lemma_place(n, clues, g, r, c, v);
    if can_place(g, n, r, c, v) {
        assert forall|m: Seq<Seq<u8>>| #![trigger next(m)] #![trigger prev(m)] #![trigger here(m)]
            next(m) <==> (prev(m) || here(m)) by {
            assert(is_solution(m, n, clues, with_cell(g, r, c, v)) == (is_solution(m, n, clues, g)
                && m[r][c] == v));
        }
        assert forall|m: Seq<Seq<u8>>| #![trigger prev(m)] #![trigger here(m)]
            !(prev(m) && here(m)) by {
            assert(is_solution(m, n, clues, with_cell(g, r, c, v)) == (is_solution(m, n, clues, g)
                && m[r][c] == v));
        }
        lemma_count_split(next, prev, here);
    } else {
        lemma_blocked(n, clues, g, r, c, v);
        lemma_count_same(next, prev);
    }
    lemma_count_subset(next, solutions(n, clues, g));
}

/// No solution has a height below one in any cell, and every solution has a
/// height below `n + 1` there.
pub proof fn lemma_height_range(n: int, clues: Seq<u8>, g: Seq<Seq<u8>>, r: int, c: int)
    requires
        0 <= r < n,
        0 <= c < n,
    ensures
        capped_count(solutions_below(n, clues, g, r, c, 1)) == 0,
        capped_count(solutions_below(n, clues, g, r, c, n + 1)) == capped_count(
            solutions(n, clues, g),
        ),
{
    let low = solutions_below(n, clues, g, r, c, 1);
    assert forall|m: Seq<Seq<u8>>| !#[trigger] low(m) by {
        if is_solution(m, n, clues, g) {
            assert(m[r][c] != 0);
        }
    }
    let high = solutions_below(n, clues, g, r, c, n + 1);
    let all = solutions(n, clues, g);
    assert forall|m: Seq<Seq<u8>>| #![trigger high(m)] #![trigger all(m)] high(m) == all(m) by {
        if is_solution(m, n, clues, g) {
            assert(m[r][c] <= n);
        }
    }
    lemma_count_same(high, all);
}

/// Tells whether `num` may go into the cell at `row`, `col`: it stands nowhere
/// in that row and nowhere in that column.
pub fn is_valid_placement(grid: &Vec<Vec<u8>>, row: usize, col: usize, num: u8, size: usize) -> (ok:
    bool)
    requires
        shaped(grid_of(grid), size as int),
        row < size,
        col < size,
    ensures
        ok == can_place(grid_of(grid), size as int, row as int, col as int, num),
{
    let ghost m = grid_of(grid);
    assert(m[row as int].len() == size);
    let mut c: usize = 0;
    while c < size
        invariant
            m == grid_of(grid),
            shaped(m, size as int),
            row < size,
            c <= size,
            forall|j: int| 0 <= j < c ==> #[trigger] m[row as int][j] != num,
        decreases size - c,
    {
        assert(m[row as int].len() == size);
        if grid[row][c] == num {
            assert(m[row as int][c as int] == num);
            return false;
        }
        c += 1;
    }
    let mut r: usize = 0;
    while r < size
        invariant
            m == grid_of(grid),
            shaped(m, size as int),
            col < size,
            r <= size,
            row < size,
            forall|j: int| 0 <= j < size ==> #[trigger] m[row as int][j] != num,
            forall|i: int| 0 <= i < r ==> #[trigger] m[i][col as int] != num,
        decreases size - r,
    {
        assert(m[r as int].len() == size);
        if grid[r][col] == num {
            assert(m[r as int][col as int] == num);
            return false;
        }
        r += 1;
    }
    true
}

/// Finds the first empty cell in row-major order, if there is one.
pub fn find_empty(grid: &Vec<Vec<u8>>, size: usize) -> (cell: Option<(usize, usize)>)
    requires
        shaped(grid_of(grid), size as int),
    ensures
        match cell {
            Some((r, c)) => first_empty(grid_of(grid), size as int, r as int, c as int),
            None => complete(grid_of(grid), size as int),
        },
{
    let ghost m = grid_of(grid);
    let mut r: usize = 0;
    while r < size
        invariant
            shaped(m, size as int),
            m == grid_of(grid),
            r <= size,
            forall|i: int, j: int| 0 <= i < r && 0 <= j < size ==> #[trigger] m[i][j] != 0,
        decreases size - r,
    {
        let mut c: usize = 0;
        while c < size
            invariant
                shaped(m, size as int),
                m == grid_of(grid),
                r < size,
                c <= size,
                forall|i: int, j: int| 0 <= i < r && 0 <= j < size ==> #[trigger] m[i][j] != 0,
                forall|j: int| 0 <= j < c ==> #[trigger] m[r as int][j] != 0,
            decreases size - c,
        {
            assert(m[r as int].len() == size);
            if grid[r][c] == 0 {
                assert(m[r as int][c as int] == 0);
                return Some((r, c));
            }
            c += 1;
        }
        r += 1;
    }
    None
}

/// Counts, up to two, the solved grids that complete `grid` and agree with
/// `clues`, adding to `solution_count`. The search fills the first empty cell
/// with each height that its row and column allow, and holds a grid to the
/// clues only once it is filled. It stops as soon as the count reaches two,
/// and then returns `true`, with the grid as the search left it: the heights
/// that were placed before, and some more. A search that ran to its end
/// leaves the grid as it was. The grid that is handed in must break no rule.
pub fn solve_skyscraper(
    grid: &mut Vec<Vec<u8>>,
    size: usize,
    clues: &[u8],
    solution_count: &mut u32,
) -> (stop: bool)
    requires
        size <= 255,
        consistent(grid_of(old(grid)), size as int),
        clues@.len() == 4 * size,
    ensures
        stop == (*final(solution_count) >= 2),
        *old(solution_count) >= 2 ==> *final(solution_count) == *old(solution_count) && grid_of(
            final(grid),
        ) == grid_of(old(grid)),
        *old(solution_count) < 2 ==> *final(solution_count) as nat == capped(
            *old(solution_count) as nat + capped_count(
                solutions(size as int, clues@, grid_of(old(grid))),
            ),
        ),
        !stop ==> grid_of(final(grid)) == grid_of(old(grid)),
        consistent(grid_of(final(grid)), size as int),
        extends(grid_of(final(grid)), grid_of(old(grid)), size as int),
    decreases empty_cells(grid_of(old(grid))),
{
    if *solution_count >= 2 {
        return true;
    }
    let ghost g0 = grid_of(grid);
    let ghost n = size as int;
    let ghost found = *solution_count as nat;
    match find_empty(grid, size) {
        None => {
            proof {
                lemma_filled_count(n, clues@, g0);
            }
            if check_clues(grid, size, clues) {
                *solution_count += 1;
            }
            *solution_count >= 2
        },
        Some((row, col)) => {
            proof {
                lemma_height_range(n, clues@, g0, row as int, col as int);
            }
            let mut k: usize = 1;
            while k <= size
                invariant
                    size <= 255,
                    n == size,
                    clues@.len() == 4 * size,
                    g0 == grid_of(old(grid)),
                    grid_of(grid) == g0,
                    consistent(g0, n),
                    first_empty(g0, n, row as int, col as int),
                    found == *old(solution_count),
                    1 <= k <= size + 1,
                    *solution_count < 2,
                    *solution_count as nat == found + capped_count(
                        solutions_below(n, clues@, g0, row as int, col as int, k as int),
                    ),
                decreases size + 1 - k,
            {
                let num = k as u8;
                proof {
                    lemma_next_height(n, clues@, g0, row as int, col as int, num);
                    lemma_place(n, clues@, g0, row as int, col as int, num);
                }
                if is_valid_placement(grid, row, col, num, size) {
                    set_cell(grid, row, col, num);
                    if solve_skyscraper(grid, size, clues, solution_count) {
                        proof {
                            let g1 = with_cell(g0, row as int, col as int, num);
                            let last = grid_of(grid);
                            assert forall|i: int, j: int|
                                0 <= i < n && 0 <= j < n && g0[i][j] != 0 implies #[trigger] last[i][j]
                                == g0[i][j] by {
                                assert(g1[i][j] == g0[i][j]);
                            }
                        }
                        return true;
                    }
                    assert(grid_of(grid)[row as int].len() == size);
                    set_cell(grid, row, col, 0);
                    assert(grid_of(grid) =~~= g0);
                }
                k += 1;
            }
            false
        },
    }
}

/// An `size` by `size` grid of empty cells.
pub fn empty_grid(size: usize) -> (grid: Vec<Vec<u8>>)
    ensures
        grid_of(&grid) == blank(size as int),
{
    let mut grid: Vec<Vec<u8>> = Vec::with_capacity(size);
    let mut r: usize = 0;
    while r < size
        invariant
            r <= size,
            grid@.len() == r,
            forall|i: int| 0 <= i < r ==> (#[trigger] grid@[i])@ == Seq::new(size as nat, |c: int| 0u8),
        decreases size - r,
    {
        let mut row: Vec<u8> = Vec::with_capacity(size);
        let mut c: usize = 0;
        while c < size
            invariant
                c <= size,
                row@.len() == c,
                forall|j: int| 0 <= j < c ==> #[trigger] row@[j] == 0,
            decreases size - c,
        {
            row.push(0);
            c += 1;
        }
        assert(row@ =~= Seq::new(size as nat, |c: int| 0u8));
        grid.push(row);
        r += 1;
    }
    assert(grid_of(&grid) =~~= blank(size as int));
    grid
}

/// The empty grid breaks no rule, and every grid keeps what it has placed.
pub proof fn lemma_blank(n: int, clues: Seq<u8>)
    requires
        0 <= n,
    ensures
        consistent(blank(n), n),
        capped_count(solutions(n, clues, blank(n))) == capped_count(puzzle_solutions(n, clues)),
{
    let b = blank(n);
    assert forall|r: int, c: int| 0 <= r < n && 0 <= c < n implies #[trigger] b[r][c] == 0 by {}
    assert(shaped(b, n));
    assert(consistent(b, n));
    let p = solutions(n, clues, b);
    let q = puzzle_solutions(n, clues);
    assert forall|m: Seq<Seq<u8>>| #![trigger p(m)] #![trigger q(m)] p(m) == q(m) by {
        assert(extends(m, b, n));
    }
    lemma_count_same(p, q);
}

/// Searches every filling of the empty grid and tells whether no solved grid,
/// exactly one, or more than one agrees with `clues`.
pub fn count_solutions(size: usize, clues: &[u8]) -> (found: SolutionCount)
    requires
        size <= 255,
        clues@.len() == 4 * size,
    ensures
        found == classify(capped_count(puzzle_solutions(size as int, clues@))),
{
    let mut grid = empty_grid(size);
    let mut solution_count: u32 = 0;
    proof {
        lemma_blank(size as int, clues@);
    }
    solve_skyscraper(&mut grid, size, clues, &mut solution_count);
    if solution_count == 0 {
        SolutionCount::NoSolution
    } else if solution_count == 1 {
        SolutionCount::Unique
    } else {
        SolutionCount::Multiple
    }
}

} // verus!
