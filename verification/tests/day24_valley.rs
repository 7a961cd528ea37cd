use aoc2022::day24::basin::{time_to_move_between, Direction};
use aoc2022::day24::valley::{find_open, forecast, read_valley};

fn rows(map: &[&str]) -> Vec<Vec<u8>> {
    map.iter().map(|row| row.as_bytes().to_vec()).collect()
}

const MAP: [&str; 6] =
    ["#.######", "#>>.<^<#", "#.<..<<#", "#>v.><>#", "#<^v^^>#", "######.#"];

#[test]
fn valley_is_read_from_a_map() {
    let valley = read_valley(&rows(&MAP)).unwrap();
    assert_eq!(valley.entrance, (1, 0));
    assert_eq!(valley.exit, (6, 5));
    assert_eq!(valley.walls.len(), 6);
    assert!(valley.walls.iter().all(|row| row.len() == 8));
    assert_eq!(valley.walls[0], vec![true, false, true, true, true, true, true, true]);
    assert_eq!(valley.walls[1], vec![true, false, false, false, false, false, false, true]);
    assert_eq!(valley.blizzards.0.len(), 6);
    assert!(valley.blizzards.0.iter().all(|row| row.len() == 8));
    assert_eq!(valley.blizzards.0[1][1], vec![Direction::East]);
    assert_eq!(valley.blizzards.0[1][4], vec![Direction::West]);
    assert_eq!(valley.blizzards.0[1][5], vec![Direction::North]);
    assert_eq!(valley.blizzards.0[3][2], vec![Direction::South]);
    assert_eq!(valley.blizzards.0[1][3], vec![]);
    assert_eq!(valley.blizzards.0[0][0], vec![]);
    let blizzards: usize = valley.blizzards.0.iter().flatten().map(|cell| cell.len()).sum();
    assert_eq!(blizzards, 19);
}

#[test]
fn maps_that_are_no_valley() {
    assert!(read_valley(&rows(&[])).is_none());
    assert!(read_valley(&rows(&["#.#", "#x#", "#.#"])).is_none());
    assert!(read_valley(&rows(&["#.#", "#..#", "#.#"])).is_none());
    assert!(read_valley(&rows(&["#.#", "# #", "#.#"])).is_none());
    assert!(read_valley(&rows(&["#.#", "#V#", "#.#"])).is_none());
}

#[test]
fn short_rows_and_missing_doors() {
    let valley = read_valley(&rows(&["###", "#", "###"])).unwrap();
    assert_eq!((valley.entrance, valley.exit), ((0, 0), (0, 0)));
    assert_eq!(valley.walls[1], vec![true, false, false]);
    let valley = read_valley(&rows(&["#..#.#"])).unwrap();
    assert_eq!((valley.entrance, valley.exit), ((1, 0), (2, 0)));
    let valley = read_valley(&rows(&["#.##"])).unwrap();
    assert_eq!((valley.entrance, valley.exit), ((1, 0), (0, 0)));
    let valley = read_valley(&rows(&["##..", "..#."])).unwrap();
    assert_eq!((valley.entrance, valley.exit), ((2, 0), (0, 1)));
    let valley = read_valley(&rows(&[""])).unwrap();
    assert_eq!((valley.entrance, valley.exit), ((0, 0), (0, 0)));
    assert_eq!(find_open(b"##.#.", 0), 2);
    assert_eq!(find_open(b"##.#.", 2), 2);
    assert_eq!(find_open(b"##.#.", 3), 4);
    assert_eq!(find_open(b"##.#.", 5), 5);
    assert_eq!(find_open(b"##.#.", 9), 5);
    assert_eq!(find_open(b"###", 0), 3);
}

#[test]
fn blizzards_are_forecast_for_every_minute() {
    let valley = read_valley(&rows(&MAP)).unwrap();
    let all = forecast(valley.blizzards, 8, 6).unwrap();
    assert_eq!(all.len(), 48);
    assert_eq!(all[1].0[1][2], vec![Direction::East]);
    assert_eq!(all[1].0[2][1], vec![Direction::West]);
    assert_eq!(all[1].0[1][1], vec![]);
    assert_eq!(all[1].0[3][1], vec![Direction::East]);
    let at_start = read_valley(&rows(&MAP)).unwrap().blizzards;
    let once_round = all[47].next();
    for y in 0..6 {
        for x in 0..8 {
            let mut there = once_round.0[y][x].clone();
            there.sort_by_key(|d| *d as u8);
            let mut first = at_start.0[y][x].clone();
            first.sort_by_key(|d| *d as u8);
            assert_eq!(there, first);
        }
    }
}

#[test]
fn through_the_blizzards_there_and_back_and_there() {
    let valley = read_valley(&rows(&MAP)).unwrap();
    let (entrance, exit, walls) = (valley.entrance, valley.exit, valley.walls);
    let all = forecast(valley.blizzards, 8, 6).unwrap();
    let part1 = time_to_move_between(&entrance, &exit, &all, &walls, 8, 6, 0).unwrap();
    assert_eq!(part1, 18);
    let go_back = time_to_move_between(&exit, &entrance, &all, &walls, 8, 6, part1).unwrap();
    assert_eq!(go_back, 41);
    let again = time_to_move_between(&entrance, &exit, &all, &walls, 8, 6, go_back).unwrap();
    assert_eq!(again, 54);
}
