use skyscraper::{
    calculate_all_clues, check_clues, count_solutions, is_valid_placement, solve_skyscraper,
    SolutionCount,
};

fn blank(size: usize) -> Vec<Vec<u8>> {
    vec![vec![0; size]; size]
}

#[test]
fn placement_is_refused_in_a_taken_row_or_column() {
    let grid = vec![vec![1, 0, 0], vec![0, 0, 2], vec![0, 3, 0]];
    assert!(!is_valid_placement(&grid, 0, 1, 1, 3));
    assert!(!is_valid_placement(&grid, 0, 1, 3, 3));
    assert!(is_valid_placement(&grid, 0, 1, 2, 3));
    assert!(!is_valid_placement(&grid, 1, 0, 1, 3));
    assert!(!is_valid_placement(&grid, 1, 0, 2, 3));
    assert!(is_valid_placement(&grid, 1, 0, 3, 3));
}

#[test]
fn placement_sees_the_cell_itself() {
    let grid = vec![vec![1, 2], vec![2, 1]];
    assert!(!is_valid_placement(&grid, 0, 0, 1, 2));
    assert!(!is_valid_placement(&grid, 0, 0, 2, 2));
}

#[test]
fn two_by_two_full_clues_are_unique() {
    let grid = vec![vec![1, 2], vec![2, 1]];
    let clues = calculate_all_clues(&grid, 2);
    assert_eq!(clues, vec![2, 1, 1, 2, 1, 2, 2, 1]);
    assert_eq!(count_solutions(2, &clues), SolutionCount::Unique);
    // the one solution is the grid itself, and its mirror image is none
    assert!(check_clues(&grid, 2, &clues));
    assert!(!check_clues(&vec![vec![2, 1], vec![1, 2]], 2, &clues));
}

#[test]
fn one_by_one_is_unique_under_every_clue_subset() {
    for mask in 0u8..16 {
        let clues: Vec<u8> = (0..4).map(|i| if mask & (1 << i) != 0 { 1 } else { 0 }).collect();
        assert_eq!(count_solutions(1, &clues), SolutionCount::Unique);
    }
}

#[test]
fn no_clues_give_multiple_from_size_two() {
    for size in 2usize..=5 {
        let clues = vec![0u8; 4 * size];
        assert_eq!(count_solutions(size, &clues), SolutionCount::Multiple);
    }
}

#[test]
fn contradicting_clues_give_no_solution() {
    // both columns cannot show two buildings from the top
    assert_eq!(count_solutions(2, &[2, 2, 0, 0, 0, 0, 0, 0]), SolutionCount::NoSolution);
    // a clue above the size is met by no grid
    assert_eq!(count_solutions(3, &[4, 0, 0, 0, 0, 0, 0, 0, 0, 0, 0, 0]), SolutionCount::NoSolution);
}

#[test]
fn size_zero_has_the_empty_grid_as_its_one_solution() {
    assert_eq!(count_solutions(0, &[]), SolutionCount::Unique);
}

#[test]
fn round_trip_of_a_three_by_three_grid() {
    let grid = vec![vec![1, 2, 3], vec![2, 3, 1], vec![3, 1, 2]];
    let clues = calculate_all_clues(&grid, 3);
    assert_eq!(count_solutions(3, &clues), SolutionCount::Unique);
    assert!(check_clues(&grid, 3, &clues));
}

#[test]
fn two_grids_of_size_four_share_all_their_clues() {
    let first = vec![vec![1, 2, 3, 4], vec![2, 1, 4, 3], vec![3, 4, 1, 2], vec![4, 3, 2, 1]];
    let second = vec![vec![1, 2, 3, 4], vec![2, 4, 1, 3], vec![3, 1, 4, 2], vec![4, 3, 2, 1]];
    let clues = calculate_all_clues(&first, 4);
    assert_eq!(clues, vec![4, 2, 2, 1, 1, 2, 2, 4, 1, 2, 2, 4, 4, 2, 2, 1]);
    assert_eq!(calculate_all_clues(&second, 4), clues);
    assert_eq!(count_solutions(4, &clues), SolutionCount::Multiple);
}

#[test]
fn search_stops_at_the_second_solution() {
    // 576 solved grids of size four agree with no clues; the count stays at two
    let mut grid = blank(4);
    let mut count = 0u32;
    let clues = vec![0u8; 16];
    assert!(solve_skyscraper(&mut grid, 4, &clues, &mut count));
    assert_eq!(count, 2);
}

#[test]
fn search_that_starts_at_two_returns_at_once() {
    let mut grid = blank(3);
    let mut count = 2u32;
    let clues = vec![0u8; 12];
    assert!(solve_skyscraper(&mut grid, 3, &clues, &mut count));
    assert_eq!(count, 2);
    assert_eq!(grid, blank(3));
    let mut count = 7u32;
    assert!(solve_skyscraper(&mut grid, 3, &clues, &mut count));
    assert_eq!(count, 7);
    assert_eq!(grid, blank(3));
}

#[test]
fn search_adds_to_the_count_it_is_given() {
    let clues = vec![2u8, 1, 1, 2, 1, 2, 2, 1];
    let mut grid = blank(2);
    let mut count = 1u32;
    assert!(solve_skyscraper(&mut grid, 2, &clues, &mut count));
    assert_eq!(count, 2);
}

#[test]
fn search_that_runs_to_its_end_restores_the_grid() {
    let clues = vec![2u8, 1, 1, 2, 1, 2, 2, 1];
    let mut grid = blank(2);
    let mut count = 0u32;
    assert!(!solve_skyscraper(&mut grid, 2, &clues, &mut count));
    assert_eq!(count, 1);
    assert_eq!(grid, blank(2));
}

#[test]
fn search_completes_a_partial_grid() {
    // two solved grids of size three have 1, 2, 3 as their first row
    let mut grid = vec![vec![1, 2, 0], vec![0, 0, 0], vec![0, 0, 0]];
    let mut count = 0u32;
    let clues = vec![0u8; 12];
    assert!(solve_skyscraper(&mut grid, 3, &clues, &mut count));
    assert_eq!(count, 2);
    // and one of them has 2, 3, 1 as its second
    let mut grid = vec![vec![1, 2, 3], vec![2, 3, 1], vec![0, 0, 0]];
    let mut count = 0u32;
    assert!(!solve_skyscraper(&mut grid, 3, &clues, &mut count));
    assert_eq!(count, 1);
    assert_eq!(grid, vec![vec![1, 2, 3], vec![2, 3, 1], vec![0, 0, 0]]);
}

#[test]
fn search_counts_a_filled_grid_by_its_clues() {
    let mut grid = vec![vec![1, 2], vec![2, 1]];
    let mut count = 0u32;
    assert!(!solve_skyscraper(&mut grid, 2, &[2, 1, 1, 2, 1, 2, 2, 1], &mut count));
    assert_eq!(count, 1);
    let mut count = 0u32;
    assert!(!solve_skyscraper(&mut grid, 2, &[1, 0, 0, 0, 0, 0, 0, 0], &mut count));
    assert_eq!(count, 0);
}
