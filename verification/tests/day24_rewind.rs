use aoc2022::day24::rewind::{
    blank_layer, cell_of_byte, find_time_at_reaching, position_downwind, position_upwind, Cell,
    ValleyMap,
};

const EXAMPLE: &str = "#.######
#>>.<^<#
#.<..<<#
#>v.><>#
#<^v^^>#
######.#";

#[test]
fn east_blizzard() {
    let map = ValleyMap::parse("#.###\n#>..#\n#...#\n#...#\n###.#");

    assert_not_open(&map, &[(1, 1)], 0);
    assert_not_open(&map, &[(2, 1)], 1);
    assert_not_open(&map, &[(3, 1)], 2);
    assert_not_open(&map, &[(1, 1)], 3);
}

#[test]
fn west_blizzard() {
    let map = ValleyMap::parse("#.###\n#<..#\n#...#\n#...#\n###.#");

    assert_not_open(&map, &[(1, 1)], 0);
    assert_not_open(&map, &[(3, 1)], 1);
    assert_not_open(&map, &[(2, 1)], 2);
    assert_not_open(&map, &[(1, 1)], 3);
}

#[test]
fn north_blizzard() {
    let map = ValleyMap::parse("#.###\n#^..#\n#...#\n#...#\n###.#");

    assert_not_open(&map, &[(1, 1)], 0);
    assert_not_open(&map, &[(1, 3)], 1);
    assert_not_open(&map, &[(1, 2)], 2);
    assert_not_open(&map, &[(1, 1)], 3);
}

#[test]
fn south_blizzard() {
    let map = ValleyMap::parse("#.###\n#v..#\n#...#\n#...#\n###.#");

    assert_not_open(&map, &[(1, 1)], 0);
    assert_not_open(&map, &[(1, 2)], 1);
    assert_not_open(&map, &[(1, 3)], 2);
    assert_not_open(&map, &[(1, 1)], 3);
}

#[test]
fn converging_blizzards() {
    let map = ValleyMap::parse("#.###\n#.v.#\n#>.<#\n#.^.#\n###.#");

    assert_not_open(&map, &[(2, 1), (1, 2), (3, 2), (2, 3)], 0);
    assert_not_open(&map, &[(2, 2)], 1);
    assert_not_open(&map, &[(2, 1), (1, 2), (3, 2), (2, 3)], 2);
    assert_not_open(&map, &[(2, 1), (1, 2), (3, 2), (2, 3)], 3);
    assert_not_open(&map, &[(2, 2)], 4);
    assert_not_open(&map, &[(2, 1), (1, 2), (3, 2), (2, 3)], 5);
    assert_not_open(&map, &[(2, 1), (1, 2), (3, 2), (2, 3)], 6);
    assert_not_open(&map, &[(2, 2)], 7);
    assert_not_open(&map, &[(2, 1), (1, 2), (3, 2), (2, 3)], 8);
}

#[test]
fn neighbours_corners() {
    let map = ValleyMap::parse("#####\n#...#\n#...#\n#...#\n#####");
    assert_eq!(map.open_neighbours(1, 1, 0), vec![(1, 2), (2, 1), (1, 1)]);
    assert_eq!(map.open_neighbours(3, 1, 0), vec![(3, 2), (2, 1), (3, 1)]);
    assert_eq!(map.open_neighbours(1, 3, 0), vec![(1, 2), (2, 3), (1, 3)]);
    assert_eq!(map.open_neighbours(3, 3, 0), vec![(3, 2), (2, 3), (3, 3)]);
}

#[test]
fn neighbours_middle() {
    let map = ValleyMap::parse("#.###\n#...#\n#...#\n#...#\n###.#");
    assert_eq!(map.open_neighbours(2, 2, 0), vec![(2, 1), (2, 3), (1, 2), (3, 2), (2, 2)]);
}

#[test]
fn neighbours_by_blizzards() {
    let map = ValleyMap::parse("#.###\n#.v.#\n#>.<#\n#.^.#\n###.#");
    assert_eq!(map.open_neighbours(2, 2, 0), vec![(2, 2)]);
    assert_eq!(map.open_neighbours(2, 2, 1), vec![(2, 1), (2, 3), (1, 2), (3, 2)]);
}

#[test]
fn time_for_example_route() {
    let map = ValleyMap::parse("#.######
#>>.<^<#
#.<..<<#
#>v.><>#
#<^v^^>#
######.#");
    let expected =
        find_time_at_reaching((1, 0), (map.width - 2, map.height - 2), 0, &map).unwrap() + 1;
    assert_eq!(expected, 18);
}

#[test]
fn time_to_go_back_example() {
    let map = ValleyMap::parse("#.######
#>>.<^<#
#.<..<<#
#>v.><>#
#<^v^^>#
######.#");
    let expected =
        find_time_at_reaching((map.width - 2, map.height - 1), (1, 1), 18, &map).unwrap() + 1;
    assert_eq!(expected, 18 + 23);
}

fn assert_not_open(map: &ValleyMap, not_opens: &[(usize, usize)], time: usize) {
    for x in 1..(map.width - 1) {
        for y in 1..(map.height - 1) {
            let expect_open = !not_opens.contains(&(x, y));
            assert_eq!(
                map.is_open(x, y, time),
                expect_open,
                "({:?}, {:?}) @ {} is_open should be {:?}",
                x,
                y,
                time,
                expect_open
            );
        }
    }
}

#[test]
fn there_and_back_and_there_again() {
    let map = ValleyMap::parse(EXAMPLE);
    let there = find_time_at_reaching((1, 0), (6, 4), 0, &map).unwrap() + 1;
    let back = find_time_at_reaching((6, 5), (1, 1), there, &map).unwrap() + 1;
    let again = find_time_at_reaching((1, 0), (6, 4), back, &map).unwrap() + 1;
    assert_eq!((there, back, again), (18, 41, 54));
}

#[test]
fn with_nowhere_to_be_nothing_is_reached() {
    let map = ValleyMap::parse("####\n#><#\n####");
    assert_eq!(find_time_at_reaching((1, 1), (2, 1), 0, &map), None);
    assert_eq!(find_time_at_reaching((1, 1), (9, 9), 0, &map), None);
}

#[test]
fn shortest_way_over_an_empty_field() {
    let map = ValleyMap::parse("#####\n#...#\n#...#\n#...#\n#####");
    assert_eq!(find_time_at_reaching((1, 1), (3, 3), 0, &map), Some(4));
    assert_eq!(find_time_at_reaching((1, 1), (3, 3), 7, &map), Some(11));
    assert_eq!(find_time_at_reaching((1, 1), (1, 1), 5, &map), Some(6));
    assert_eq!(find_time_at_reaching((3, 1), (2, 1), 0, &map), Some(1));
}

#[test]
fn a_map_is_read_row_by_row() {
    let map = ValleyMap::parse("#.#\n>v<\n^.#\n");
    assert_eq!(map.width, 3);
    assert_eq!(map.height, 3);
    assert_eq!(
        map.rows,
        vec![
            vec![Cell::Wall, Cell::Open, Cell::Wall],
            vec![Cell::East, Cell::South, Cell::West],
            vec![Cell::North, Cell::Open, Cell::Wall],
        ]
    );
    let one_line = ValleyMap::parse("#..#");
    assert_eq!((one_line.width, one_line.height), (4, 1));
    let with_gap = ValleyMap::parse("#\n\n.");
    assert_eq!(with_gap.rows, vec![vec![Cell::Wall], vec![], vec![Cell::Open]]);
    assert_eq!(cell_of_byte(b'v'), Cell::South);
}

#[test]
fn blizzards_wrap_round() {
    assert_eq!(position_upwind(1, 0, 3), 1);
    assert_eq!(position_upwind(1, 1, 3), 3);
    assert_eq!(position_upwind(1, 2, 3), 2);
    assert_eq!(position_upwind(1, 3, 3), 1);
    assert_eq!(position_upwind(3, 7, 3), 2);
    assert_eq!(position_downwind(1, 0, 3), 1);
    assert_eq!(position_downwind(1, 1, 3), 2);
    assert_eq!(position_downwind(3, 1, 3), 1);
    assert_eq!(position_downwind(2, 8, 3), 1);
    assert_eq!(position_upwind(0, 0, 4), 4);
    assert_eq!(blank_layer(2, 3), vec![vec![false, false]; 3]);
}
