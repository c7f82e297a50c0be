use skyscraper::shuffle::{shuffled_heights, shuffled_positions};
use skyscraper::{
    calculate_all_clues, count_solutions, create_puzzle, fill_grid, generate_complete_grid,
    reduce_clues, try_remove_clue, SolutionCount,
};

fn is_solved(grid: &Vec<Vec<u8>>, size: usize) -> bool {
    if grid.len() != size || grid.iter().any(|row| row.len() != size) {
        return false;
    }
    for i in 0..size {
        let mut row: Vec<u8> = grid[i].clone();
        let mut col: Vec<u8> = (0..size).map(|r| grid[r][i]).collect();
        row.sort();
        col.sort();
        let want: Vec<u8> = (1..=size as u8).collect();
        if row != want || col != want {
            return false;
        }
    }
    true
}

#[test]
fn generated_grids_have_each_height_once_in_each_line() {
    for size in 1usize..=7 {
        for _ in 0..5 {
            let grid = generate_complete_grid(size).unwrap();
            assert!(is_solved(&grid, size));
        }
    }
}

#[test]
fn the_grid_of_size_one() {
    assert_eq!(generate_complete_grid(1), Some(vec![vec![1]]));
}

#[test]
fn no_grid_above_the_greatest_height() {
    assert_eq!(generate_complete_grid(256), None);
}

#[test]
fn a_grid_of_size_nine_is_filled() {
    let grid = generate_complete_grid(9).unwrap();
    assert!(is_solved(&grid, 9));
}

#[test]
fn generated_grids_vary() {
    let first = generate_complete_grid(5).unwrap();
    let mut differs = false;
    for _ in 0..30 {
        if generate_complete_grid(5).unwrap() != first {
            differs = true;
        }
    }
    assert!(differs);
}

#[test]
fn fill_keeps_what_is_placed() {
    let mut grid = vec![vec![3, 0, 0], vec![0, 0, 0], vec![0, 2, 0]];
    assert!(fill_grid(&mut grid, 3));
    assert!(is_solved(&grid, 3));
    assert_eq!(grid[0][0], 3);
    assert_eq!(grid[2][1], 2);
}

#[test]
fn fill_of_a_dead_end_fails_and_restores() {
    let mut grid = vec![vec![1, 2, 0], vec![0, 0, 3], vec![0, 0, 0]];
    let before = grid.clone();
    assert!(!fill_grid(&mut grid, 3));
    assert_eq!(grid, before);
}

#[test]
fn shuffled_heights_are_a_permutation() {
    let mut moved = false;
    for _ in 0..20 {
        let order = shuffled_heights(8);
        let mut sorted = order.clone();
        sorted.sort();
        assert_eq!(sorted, vec![1, 2, 3, 4, 5, 6, 7, 8]);
        if order != sorted {
            moved = true;
        }
    }
    assert!(moved);
    assert_eq!(shuffled_heights(0), Vec::<u8>::new());
    assert_eq!(shuffled_heights(1), vec![1]);
}

#[test]
fn shuffled_positions_are_a_permutation() {
    let mut moved = false;
    for _ in 0..20 {
        let order = shuffled_positions(12);
        let mut sorted = order.clone();
        sorted.sort();
        assert_eq!(sorted, (0..12).collect::<Vec<usize>>());
        if order != sorted {
            moved = true;
        }
    }
    assert!(moved);
}

#[test]
fn one_test_removes_a_clue_that_is_not_needed() {
    let mut clues = vec![2u8, 1, 1, 2, 1, 2, 2, 1];
    try_remove_clue(&mut clues, 2, 3);
    assert_eq!(clues, vec![2, 1, 1, 0, 1, 2, 2, 1]);
}

#[test]
fn one_test_keeps_the_last_clue() {
    let mut clues = vec![0u8, 0, 0, 0, 0, 2, 0, 0];
    try_remove_clue(&mut clues, 2, 5);
    assert_eq!(clues, vec![0, 0, 0, 0, 0, 2, 0, 0]);
    // a clue set without a solution may gain one by the removal
    let mut clues = vec![2u8, 2, 0, 0, 0, 0, 0, 0];
    try_remove_clue(&mut clues, 2, 0);
    assert_eq!(clues, vec![0, 2, 0, 0, 0, 0, 0, 0]);
}

#[test]
fn reduction_depends_on_the_order() {
    let full = vec![2u8, 1, 1, 2, 1, 2, 2, 1];
    let forward: Vec<usize> = (0..8).collect();
    let backward: Vec<usize> = (0..8).rev().collect();
    assert_eq!(reduce_clues(full.clone(), 2, &forward), vec![0, 0, 0, 0, 0, 0, 0, 1]);
    assert_eq!(reduce_clues(full.clone(), 2, &backward), vec![2, 0, 0, 0, 0, 0, 0, 0]);
    assert_eq!(reduce_clues(full.clone(), 2, &vec![]), full);
}

#[test]
fn reduction_of_the_one_by_one_puzzle_removes_everything() {
    let order: Vec<usize> = vec![2, 0, 3, 1];
    assert_eq!(reduce_clues(vec![1, 1, 1, 1], 1, &order), vec![0, 0, 0, 0]);
}

#[test]
fn reduction_leaves_clues_that_are_not_unique_alone() {
    let grid = vec![vec![1, 2, 3, 4], vec![2, 1, 4, 3], vec![3, 4, 1, 2], vec![4, 3, 2, 1]];
    let full = calculate_all_clues(&grid, 4);
    assert_eq!(create_puzzle(&grid, 4), full);
}

#[test]
fn puzzle_is_unique_and_cannot_lose_a_clue() {
    for size in 1usize..=4 {
        for _ in 0..3 {
            let grid = generate_complete_grid(size).unwrap();
            let full = calculate_all_clues(&grid, size);
            let clues = create_puzzle(&grid, size);
            assert_eq!(clues.len(), 4 * size);
            for i in 0..4 * size {
                assert!(clues[i] == 0 || clues[i] == full[i]);
            }
            if count_solutions(size, &full) != SolutionCount::Unique {
                assert_eq!(clues, full);
                continue;
            }
            assert_eq!(count_solutions(size, &clues), SolutionCount::Unique);
            for i in 0..4 * size {
                if clues[i] != 0 {
                    let mut fewer = clues.clone();
                    fewer[i] = 0;
                    assert_eq!(count_solutions(size, &fewer), SolutionCount::Multiple);
                }
            }
        }
    }
}

#[test]
fn puzzle_of_the_two_by_two_grid_keeps_one_clue() {
    let grid = vec![vec![1, 2], vec![2, 1]];
    let full = calculate_all_clues(&grid, 2);
    for _ in 0..10 {
        let clues = create_puzzle(&grid, 2);
        let kept: Vec<usize> = (0..8).filter(|&i| clues[i] != 0).collect();
        assert_eq!(kept.len(), 1);
        assert_eq!(clues[kept[0]], full[kept[0]]);
    }
}
