use aoc2022::day08::{
    count_visible, is_visible, look, max_scenic_score, parse_grid, parse_row, scenic_score,
    step_away,
};

fn lines(rows: &[&str]) -> Vec<Vec<u8>> {
    rows.iter().map(|row| row.as_bytes().to_vec()).collect()
}

fn patch() -> Vec<Vec<u8>> {
    parse_grid(&lines(&["30373", "25512", "65332", "33549", "35390"]), 5).unwrap()
}

#[test]
fn patch_is_read_from_digits() {
    assert_eq!(
        patch(),
        vec![
            vec![3, 0, 3, 7, 3],
            vec![2, 5, 5, 1, 2],
            vec![6, 5, 3, 3, 2],
            vec![3, 3, 5, 4, 9],
            vec![3, 5, 3, 9, 0]
        ]
    );
    assert_eq!(parse_grid(&lines(&[]), 0), Some(vec![]));
    assert_eq!(parse_row(&lines(&["19"]), 0, 2), Some(vec![1, 9]));
}

#[test]
fn patch_is_filled_up_with_trees_of_height_0() {
    assert_eq!(
        parse_grid(&lines(&["12", "3"]), 3),
        Some(vec![vec![1, 2, 0], vec![3, 0, 0], vec![0, 0, 0]])
    );
    assert_eq!(parse_grid(&lines(&[]), 2), Some(vec![vec![0, 0], vec![0, 0]]));
    assert_eq!(parse_row(&lines(&["19"]), 0, 4), Some(vec![1, 9, 0, 0]));
    assert_eq!(parse_row(&lines(&["19"]), 1, 2), Some(vec![0, 0]));
}

#[test]
fn lines_that_are_no_patch_are_refused() {
    assert_eq!(parse_grid(&lines(&["12", "34", "56"]), 2), None);
    assert_eq!(parse_grid(&lines(&["123", "45"]), 2), None);
    assert_eq!(parse_grid(&lines(&["12", "3a"]), 2), None);
    assert_eq!(parse_grid(&lines(&["1 ", "34"]), 2), None);
    assert_eq!(parse_grid(&lines(&["1/", "34"]), 2), None);
    assert_eq!(parse_grid(&lines(&["1:", "34"]), 2), None);
    assert_eq!(parse_row(&lines(&["1:"]), 0, 2), None);
}

#[test]
fn places_away_from_a_tree() {
    let grid = patch();
    assert_eq!(step_away(&grid, 1, 2, 0, 2), Some((1, 0)));
    assert_eq!(step_away(&grid, 1, 2, 0, 3), None);
    assert_eq!(step_away(&grid, 1, 2, 1, 2), Some((1, 4)));
    assert_eq!(step_away(&grid, 1, 2, 1, 3), None);
    assert_eq!(step_away(&grid, 1, 2, 2, 1), Some((0, 2)));
    assert_eq!(step_away(&grid, 1, 2, 2, 2), None);
    assert_eq!(step_away(&grid, 1, 2, 3, 3), Some((4, 2)));
    assert_eq!(step_away(&grid, 1, 2, 3, 4), None);
    assert_eq!(step_away(&grid, 1, 2, 3, usize::MAX), None);
    assert_eq!(step_away(&grid, 1, 2, 1, usize::MAX), None);
}

#[test]
fn looking_from_a_tree() {
    let grid = patch();
    assert_eq!(look(&grid, 1, 2, 0), (1, false));
    assert_eq!(look(&grid, 1, 2, 1), (2, true));
    assert_eq!(look(&grid, 1, 2, 2), (1, true));
    assert_eq!(look(&grid, 1, 2, 3), (2, false));
    assert_eq!(look(&grid, 3, 2, 0), (2, true));
    assert_eq!(look(&grid, 3, 2, 1), (2, false));
    assert_eq!(look(&grid, 3, 2, 2), (2, false));
    assert_eq!(look(&grid, 3, 2, 3), (1, true));
    assert_eq!(look(&grid, 0, 0, 0), (0, true));
    assert_eq!(look(&grid, 0, 0, 2), (0, true));
}

#[test]
fn trees_seen_from_outside() {
    let grid = patch();
    assert!(is_visible(&grid, 0, 0));
    assert!(is_visible(&grid, 4, 2));
    assert!(is_visible(&grid, 1, 1));
    assert!(is_visible(&grid, 1, 2));
    assert!(!is_visible(&grid, 1, 3));
    assert!(is_visible(&grid, 2, 1));
    assert!(!is_visible(&grid, 2, 2));
    assert!(is_visible(&grid, 2, 3));
    assert!(!is_visible(&grid, 3, 1));
    assert!(is_visible(&grid, 3, 2));
    assert!(!is_visible(&grid, 3, 3));
    assert_eq!(count_visible(&grid), 21);
}

#[test]
fn scenic_scores() {
    let grid = patch();
    assert_eq!(scenic_score(&grid, 1, 2), 4);
    assert_eq!(scenic_score(&grid, 3, 2), 8);
    assert_eq!(scenic_score(&grid, 0, 2), 0);
    assert_eq!(max_scenic_score(&grid), 8);
}

#[test]
fn patch_with_a_rim_of_low_trees() {
    let grid =
        parse_grid(&lines(&["30373", "25512", "65332", "33549", "35390"]), 6).unwrap();
    assert_eq!(count_visible(&grid), 31);
    assert_eq!(max_scenic_score(&grid), 24);
}

#[test]
fn small_patches() {
    assert_eq!(count_visible(&vec![]), 0);
    assert_eq!(max_scenic_score(&vec![]), 0);
    assert_eq!(count_visible(&vec![vec![], vec![]]), 0);
    assert_eq!(max_scenic_score(&vec![vec![], vec![]]), 0);
    assert_eq!(count_visible(&vec![vec![5]]), 1);
    assert_eq!(max_scenic_score(&vec![vec![5]]), 0);
    assert_eq!(count_visible(&vec![vec![1, 1], vec![1, 1]]), 4);
    assert_eq!(count_visible(&vec![vec![1, 1, 1], vec![1, 0, 1], vec![1, 1, 1]]), 8);
    assert_eq!(max_scenic_score(&vec![vec![1, 1, 1], vec![1, 2, 1], vec![1, 1, 1]]), 1);
    let mut wide = vec![vec![0u8; 5]; 5];
    wide[2][2] = 9;
    assert_eq!(max_scenic_score(&wide), 16);
}
