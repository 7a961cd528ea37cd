use aoc2022::day14::{
    cave_of, fill_row, find_arrow, lowest_row, read_path, read_point, Cave,
};

fn paths() -> Vec<Vec<(usize, usize)>> {
    vec![
        vec![(498, 4), (498, 6), (496, 6)],
        vec![(503, 4), (502, 4), (502, 9), (494, 9)],
    ]
}

fn rock_at(cave: &Cave, x: usize, y: usize) -> bool {
    cave.cells[y][x + cave.depth + 2 - 500]
}

#[test]
fn cave_is_as_deep_as_its_lowest_rock() {
    assert_eq!(lowest_row(&paths()), 9);
    assert_eq!(lowest_row(&vec![]), 0);
    assert_eq!(lowest_row(&vec![vec![], vec![(3, 7)], vec![(1, 2), (9, 5)]]), 7);
    let cave = cave_of(&paths()).unwrap();
    assert_eq!(cave.depth, 9);
    assert_eq!(cave.cells.len(), 11);
    assert!(cave.cells.iter().all(|row| row.len() == 23));
}

#[test]
fn rock_lies_on_the_lines_of_the_paths() {
    let cave = cave_of(&paths()).unwrap();
    let rocks: usize = cave.cells.iter().map(|row| row.iter().filter(|&&c| c).count()).sum();
    assert_eq!(rocks, 20);
    for (x, y) in [(498, 4), (498, 5), (498, 6), (497, 6), (496, 6), (503, 4), (502, 4)] {
        assert!(rock_at(&cave, x, y));
    }
    for (x, y) in [(502, 9), (494, 9), (498, 9), (502, 5), (502, 8)] {
        assert!(rock_at(&cave, x, y));
    }
    for (x, y) in [(500, 0), (499, 4), (498, 3), (498, 7), (495, 6), (503, 9), (493, 9), (501, 4)] {
        assert!(!rock_at(&cave, x, y));
    }
}

#[test]
fn rock_out_of_reach_is_not_kept() {
    let far = vec![vec![(0, 1), (1000, 1)], vec![(500, 2), (500, 2)]];
    let cave = cave_of(&far).unwrap();
    assert_eq!(cave.depth, 2);
    assert_eq!(cave.cells[1], vec![true; 9]);
    assert_eq!(cave.cells[0], vec![false; 9]);
    assert!(rock_at(&cave, 500, 2));
    let lone = cave_of(&vec![vec![(500, 3)]]).unwrap();
    assert_eq!(lone.depth, 3);
    assert!(lone.cells.iter().all(|row| row.iter().all(|&c| !c)));
}

#[test]
fn lines_that_are_not_level_or_upright_fill_a_rectangle() {
    let mut cave = Cave::new(3);
    cave.draw_line((499, 1), (501, 2));
    let filled: Vec<(usize, usize)> = (0..5)
        .flat_map(|y| (495..506).map(move |x| (x, y)))
        .filter(|&(x, y)| rock_at(&cave, x, y))
        .collect();
    assert_eq!(filled, vec![(499, 1), (500, 1), (501, 1), (499, 2), (500, 2), (501, 2)]);
}

#[test]
fn single_rocks_are_added_within_reach_only() {
    let mut cave = Cave::new(1);
    cave.add_rock(500, 1);
    cave.add_rock(497, 0);
    cave.add_rock(503, 2);
    cave.add_rock(496, 1);
    cave.add_rock(504, 1);
    cave.add_rock(500, 3);
    cave.add_rock(usize::MAX, 0);
    cave.add_rock(0, usize::MAX);
    assert_eq!(cave.cells[0], vec![true, false, false, false, false, false, false]);
    assert_eq!(cave.cells[1], vec![false, false, false, true, false, false, false]);
    assert_eq!(cave.cells[2], vec![false, false, false, false, false, false, true]);
}

#[test]
fn row_is_filled_between_two_places() {
    let mut row = vec![false, true, false, false, false];
    fill_row(&mut row, 2, 3);
    assert_eq!(row, vec![false, true, true, true, false]);
    fill_row(&mut row, 4, 3);
    assert_eq!(row, vec![false, true, true, true, false]);
    fill_row(&mut row, 0, 0);
    assert_eq!(row, vec![true, true, true, true, false]);
    fill_row(&mut row, 0, 4);
    assert_eq!(row, vec![true; 5]);
}

#[test]
fn first_units_of_sand_come_to_rest() {
    let mut cave = cave_of(&paths()).unwrap();
    assert_eq!(cave.fall_from_source(), (11, 8));
    cave.fill(11, 8);
    assert_eq!(cave.fall_from_source(), (10, 8));
    cave.fill(10, 8);
    assert_eq!(cave.fall_from_source(), (12, 8));
    cave.fill(12, 8);
    assert_eq!(cave.fall_from_source(), (11, 7));
}

#[test]
fn sand_falls_until_it_flows_into_the_abyss() {
    let mut cave = cave_of(&paths()).unwrap();
    assert_eq!(cave.pour_until_abyss(), Some(24));
    let filled: usize = cave.cells.iter().map(|row| row.iter().filter(|&&c| c).count()).sum();
    assert_eq!(filled, 20 + 24);
    assert_eq!(cave.pour_until_abyss(), Some(0));
}

#[test]
fn sand_falls_until_the_source_is_blocked() {
    let mut cave = cave_of(&paths()).unwrap();
    assert_eq!(cave.pour_until_blocked(), 93);
    assert!(cave.cells[0][11]);
    let mut cave = cave_of(&paths()).unwrap();
    assert_eq!(cave.pour_until_abyss(), Some(24));
    assert_eq!(cave.pour_until_blocked(), 69);
}

#[test]
fn sand_in_an_empty_cave() {
    let mut cave = Cave::new(0);
    assert_eq!(cave.fall_from_source(), (2, 1));
    assert_eq!(cave.pour_until_abyss(), Some(0));
    assert_eq!(cave.pour_until_blocked(), 4);
    let mut cave = Cave::new(2);
    assert_eq!(cave.pour_until_blocked(), 16);
}

#[test]
fn sand_in_a_bowl_blocks_the_source() {
    let bowl = vec![vec![(499, 0), (499, 1), (501, 1), (501, 0)]];
    let mut cave = cave_of(&bowl).unwrap();
    assert_eq!(cave.pour_until_abyss(), None);
    assert!(cave.cells[0][3]);
}

#[test]
fn path_is_read_from_a_line() {
    assert_eq!(read_path(b"498,4 -> 498,6 -> 496,6"), Some(vec![(498, 4), (498, 6), (496, 6)]));
    assert_eq!(read_path(b"5,7"), Some(vec![(5, 7)]));
    assert_eq!(read_path(b""), None);
    assert_eq!(read_path(b"5,7 -> "), None);
    assert_eq!(read_path(b" -> 5,7"), None);
    assert_eq!(read_path(b"5,7 ->  -> 1,2"), None);
    assert_eq!(read_path(b"5,7->1,2"), None);
    assert_eq!(read_path(b"5,7 -> 1;2"), None);
    assert_eq!(read_path(b"5,7 -> 1,2,3"), None);
    assert_eq!(read_path(b"5,-7"), None);
    assert_eq!(read_point(b"12,34"), Some((12, 34)));
    assert_eq!(read_point(b"12"), None);
    assert_eq!(read_point(b",34"), None);
    assert_eq!(find_arrow(b"1,2 -> 3,4", 0), 3);
    assert_eq!(find_arrow(b"1,2 -> 3,4", 4), 10);
    assert_eq!(find_arrow(b"1,2 ->", 0), 6);
}
