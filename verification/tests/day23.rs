use aoc2022::day23::num_free_spaces;
use aoc2022::day23::rounds::{
    elves_of, is_clear_towards, is_crowded, round, rounds_until_still, spread, stands_at, step_towards,
    wish_of, Elf,
};

fn placed(rows: &[&str]) -> Vec<Elf> {
    elves_of(&rows.iter().map(|row| row.as_bytes().to_vec()).collect())
}

fn few() -> Vec<Elf> {
    placed(&[".....", "..##.", "..#..", ".....", "..##.", "....."])
}

fn many() -> Vec<Elf> {
    placed(&["....#..", "..###.#", "#...#.#", ".#...##", "#.###..", "##.#.##", ".#..#.."])
}

#[test]
fn elf_is_found_at_its_place() {
    assert!(stands_at(&few(), 2, 1));
    assert!(stands_at(&few(), 3, 4));
    assert!(!stands_at(&few(), 1, 2));
    assert!(!stands_at(&few(), 2, 3));
    assert!(!stands_at(&vec![], 0, 0));
}

#[test]
fn elf_with_and_without_neighbours() {
    assert!(is_crowded(&few(), (2, 2)));
    assert!(is_crowded(&few(), (2, 3)));
    assert!(is_crowded(&few(), (4, 5)));
    assert!(!is_crowded(&few(), (0, 0)));
    assert!(!is_crowded(&vec![(0, 0)], (0, 0)));
    assert!(!is_crowded(&vec![(0, 0), (0, 2)], (0, 0)));
    assert!(is_crowded(&vec![(0, 0), (-1, -1)], (0, 0)));
}

#[test]
fn sides_that_are_clear() {
    let elves = vec![(0, 0), (1, -1)];
    assert!(!is_clear_towards(&elves, (0, 0), 0));
    assert!(is_clear_towards(&elves, (0, 0), 1));
    assert!(is_clear_towards(&elves, (0, 0), 2));
    assert!(!is_clear_towards(&elves, (0, 0), 3));
    assert_eq!(step_towards((5, 5), 0), (5, 4));
    assert_eq!(step_towards((5, 5), 1), (5, 6));
    assert_eq!(step_towards((5, 5), 2), (4, 5));
    assert_eq!(step_towards((5, 5), 3), (6, 5));
}

#[test]
fn wishes_follow_the_order_of_the_sides() {
    let elves = vec![(0, 0), (1, -1)];
    assert_eq!(wish_of(&elves, (0, 0), 0), Some((0, 1)));
    assert_eq!(wish_of(&elves, (0, 0), 1), Some((0, 1)));
    assert_eq!(wish_of(&elves, (0, 0), 2), Some((-1, 0)));
    assert_eq!(wish_of(&elves, (0, 0), 3), Some((0, 1)));
    assert_eq!(wish_of(&vec![(0, 0)], (0, 0), 0), None);
    let ring: Vec<Elf> = vec![(0, 0), (1, 1), (2, 0), (1, -1), (1, 0)];
    assert_eq!(wish_of(&ring, (1, 0), 0), None);
}

#[test]
fn one_round_of_a_few_elves() {
    assert_eq!(round(&few(), 0), (vec![(2, 0), (3, 0), (2, 2), (2, 4), (3, 3)], true));
    assert_eq!(round(&vec![(0, 0)], 0), (vec![(0, 0)], false));
    assert_eq!(round(&vec![(0, 0), (0, 1)], 0), (vec![(0, -1), (0, 2)], true));
    assert_eq!(round(&vec![(0, 0), (0, 2)], 1), (vec![(0, 0), (0, 2)], false));
    assert_eq!(round(&vec![(0, 0), (1, 0)], 2), (vec![(-1, 0), (2, 0)], true));
    assert_eq!(round(&vec![], 3), (vec![], false));
}

#[test]
fn elves_with_the_same_wish_stay() {
    let (next, any) = round(&vec![(0, 0), (0, 1), (0, 3), (0, 4)], 0);
    assert!(any);
    assert_eq!(next, vec![(0, -1), (0, 1), (0, 3), (0, 5)]);
}

#[test]
fn a_few_elves_spread_out() {
    assert_eq!(spread(few(), 0), few());
    assert_eq!(spread(few(), 1), vec![(2, 0), (3, 0), (2, 2), (2, 4), (3, 3)]);
    assert_eq!(spread(few(), 2), vec![(2, 1), (3, 1), (1, 2), (2, 5), (4, 3)]);
    assert_eq!(spread(few(), 3), vec![(2, 0), (4, 1), (0, 2), (2, 5), (4, 3)]);
    assert_eq!(spread(few(), 4), spread(few(), 3));
    assert_eq!(rounds_until_still(few(), 100), Some(4));
    assert_eq!(rounds_until_still(few(), 4), Some(4));
    assert_eq!(rounds_until_still(few(), 3), None);
    assert_eq!(rounds_until_still(few(), 0), None);
    assert_eq!(rounds_until_still(vec![], 1), Some(1));
}

#[test]
fn many_elves_spread_out() {
    assert_eq!(num_free_spaces(&spread(many(), 10)), 110);
    assert_eq!(rounds_until_still(many(), 1000), Some(20));
    assert_eq!(rounds_until_still(many(), 19), None);
}

#[test]
fn elves_are_read_from_a_map() {
    let rows: Vec<Vec<u8>> = [".....", "..##.", "..#..", ".....", "..##.", "....."]
        .iter()
        .map(|row| row.as_bytes().to_vec())
        .collect();
    assert_eq!(elves_of(&rows), vec![(2, 1), (3, 1), (2, 2), (2, 4), (3, 4)]);
    assert_eq!(elves_of(&vec![]), vec![]);
    assert_eq!(elves_of(&vec![b"#".to_vec(), vec![], b"x#".to_vec()]), vec![(0, 0), (1, 2)]);
}
