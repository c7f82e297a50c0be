use skyscraper::{calculate_all_clues, calculate_clue_from_direction, check_clues};

#[test]
fn clue_of_an_empty_line_is_zero() {
    assert_eq!(calculate_clue_from_direction(&[]), 0);
    assert_eq!(calculate_clue_from_direction(&[0, 0, 0]), 0);
}

#[test]
fn clue_counts_each_new_highest_building() {
    assert_eq!(calculate_clue_from_direction(&[1, 2, 3]), 3);
    assert_eq!(calculate_clue_from_direction(&[3, 1, 2]), 1);
    assert_eq!(calculate_clue_from_direction(&[1, 3, 2, 4]), 3);
    assert_eq!(calculate_clue_from_direction(&[2, 1, 4, 3]), 2);
    assert_eq!(calculate_clue_from_direction(&[4, 3, 2, 1]), 1);
}

#[test]
fn clue_passes_over_empty_cells_and_ties() {
    assert_eq!(calculate_clue_from_direction(&[0, 2, 0, 3]), 2);
    assert_eq!(calculate_clue_from_direction(&[2, 2, 3, 3]), 2);
    assert_eq!(calculate_clue_from_direction(&[0, 0, 1]), 1);
}

#[test]
fn clue_of_the_tallest_line_fits() {
    let line: Vec<u8> = (1..=255).collect();
    assert_eq!(calculate_clue_from_direction(&line), 255);
}

#[test]
fn all_clues_of_the_two_by_two_grid() {
    let grid = vec![vec![1, 2], vec![2, 1]];
    assert_eq!(calculate_all_clues(&grid, 2), vec![2, 1, 1, 2, 1, 2, 2, 1]);
}

#[test]
fn all_clues_of_the_one_by_one_grid() {
    let grid = vec![vec![1]];
    assert_eq!(calculate_all_clues(&grid, 1), vec![1, 1, 1, 1]);
}

#[test]
fn all_clues_come_in_four_blocks() {
    let grid = vec![vec![1, 2, 3], vec![2, 3, 1], vec![3, 1, 2]];
    let clues = calculate_all_clues(&grid, 3);
    // top, seen downwards
    assert_eq!(&clues[0..3], &[3, 2, 1]);
    // right, seen leftwards
    assert_eq!(&clues[3..6], &[1, 2, 2]);
    // bottom, seen upwards
    assert_eq!(&clues[6..9], &[1, 2, 2]);
    // left, seen rightwards
    assert_eq!(&clues[9..12], &[3, 2, 1]);
}

#[test]
fn all_clues_of_a_partial_grid_skip_empty_cells() {
    let grid = vec![vec![0, 2], vec![1, 0]];
    assert_eq!(calculate_all_clues(&grid, 2), vec![1, 1, 1, 1, 1, 1, 1, 1]);
}

#[test]
fn all_clues_of_the_empty_grid_of_size_zero() {
    let grid: Vec<Vec<u8>> = Vec::new();
    assert_eq!(calculate_all_clues(&grid, 0), Vec::<u8>::new());
}

#[test]
fn check_accepts_a_grid_with_an_empty_cell() {
    let grid = vec![vec![1, 0], vec![2, 1]];
    assert!(check_clues(&grid, 2, &[1, 1, 1, 1, 1, 1, 1, 1]));
}

#[test]
fn check_holds_a_filled_grid_to_the_clues() {
    let grid = vec![vec![1, 2], vec![2, 1]];
    assert!(check_clues(&grid, 2, &[2, 1, 1, 2, 1, 2, 2, 1]));
    assert!(!check_clues(&grid, 2, &[1, 1, 1, 2, 1, 2, 2, 1]));
    assert!(!check_clues(&grid, 2, &[2, 1, 1, 2, 1, 2, 2, 2]));
}

#[test]
fn check_takes_zero_for_any_clue() {
    let grid = vec![vec![1, 2], vec![2, 1]];
    assert!(check_clues(&grid, 2, &[0, 0, 0, 0, 0, 0, 0, 0]));
    assert!(check_clues(&grid, 2, &[2, 0, 0, 2, 0, 0, 0, 1]));
    assert!(!check_clues(&grid, 2, &[0, 2, 0, 0, 0, 0, 0, 0]));
}
