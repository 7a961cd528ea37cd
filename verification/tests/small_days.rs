use std::collections::VecDeque;

use aoc2022::day02::{RoundResult, RPS};
use aoc2022::day06::{find_position_of_marker, is_marker, seek_marker};
use aoc2022::day10::CPU;
use aoc2022::day15::{gap_between, Coord as Point, Sensor};
use aoc2022::day16::{is_open, open, BitValves};
use aoc2022::day18::{expanded_bounding_box, Coord, Cuboid};
use aoc2022::day19::State;
use aoc2022::day22::{
    convert_to_cube, update_line, Agent, Direction, MapCell, Rotation, Run, Seam, WrapMap,
};
use aoc2022::day23::{bounds, num_free_spaces};
use aoc2022::day24::basin::{time_to_move_between, Blizzards, Direction as BlizzardDirection};

#[test]
fn rock_paper_scissors_scores() {
    assert_eq!(RPS::parse("A"), RPS::Rock);
    assert_eq!(RPS::parse("B"), RPS::Paper);
    assert_eq!(RPS::parse("C"), RPS::Scissors);
    assert_eq!(RPS::parse("X"), RPS::Rock);
    assert_eq!(RPS::parse("Y"), RPS::Paper);
    assert_eq!(RPS::parse("Z"), RPS::Scissors);
    assert_eq!(RoundResult::parse("X"), RoundResult::Loss);
    assert_eq!(RoundResult::parse("Y"), RoundResult::Draw);
    assert_eq!(RoundResult::parse("Z"), RoundResult::Win);
    assert_eq!(RPS::Rock.value() + RPS::Paper.value() + RPS::Scissors.value(), 6);
    assert_eq!(RoundResult::Win.value(), 6);
    assert_eq!(RoundResult::Draw.value(), 3);
    assert_eq!(RoundResult::Loss.value(), 0);
    assert_eq!(RPS::Paper.score(&RPS::Rock), 8);
    assert_eq!(RPS::Rock.score(&RPS::Paper), 1);
    assert_eq!(RPS::Scissors.score(&RPS::Scissors), 6);
    assert_eq!(RPS::Rock.result(&RPS::Scissors), RoundResult::Win);
    assert_eq!(RPS::Scissors.result(&RPS::Rock), RoundResult::Loss);
    let moves = [RPS::Rock, RPS::Paper, RPS::Scissors];
    let results = [RoundResult::Win, RoundResult::Draw, RoundResult::Loss];
    for opponent in moves {
        for wanted in results {
            assert_eq!(wanted.required_move(&opponent).result(&opponent), wanted);
        }
    }
    assert_eq!(RoundResult::Draw.required_move(&RPS::Rock).score(&RPS::Rock), 4);
    assert_eq!(RoundResult::Loss.required_move(&RPS::Paper).score(&RPS::Paper), 1);
    assert_eq!(RoundResult::Win.required_move(&RPS::Scissors).score(&RPS::Scissors), 7);
}

#[test]
fn processor_draws_and_measures() {
    let mut cpu = CPU::new();
    assert_eq!((cpu.x, cpu.cycle, cpu.signal_strength), (1, 0, 0));
    cpu.noop();
    cpu.addx(3);
    cpu.addx(-5);
    assert_eq!((cpu.x, cpu.cycle, cpu.signal_strength), (-1, 5, 0));
    assert_eq!(&cpu.screen[0][..6], &[true, true, true, true, true, false]);
    let mut long = CPU::new();
    long.addx(20);
    for _ in 0..18 {
        long.noop();
    }
    assert_eq!((long.cycle, long.signal_strength), (20, 21 * 20));
    for _ in 0..40 {
        long.noop();
    }
    assert_eq!((long.cycle, long.signal_strength), (60, 21 * 20 + 21 * 60));
    assert!(long.screen[0][20] && long.screen[0][21] && long.screen[0][22]);
    assert!(!long.screen[0][19] && !long.screen[0][23] && !long.screen[1][0]);
    let mut beam = CPU::new();
    beam.cycle = 41;
    beam.x = 2;
    beam.draw_pixel();
    assert!(beam.screen[1][1]);
    assert_eq!(beam.cycle, 41);
    beam.tick();
    assert_eq!(beam.cycle, 42);
    assert!(!beam.screen[1][2]);
    beam.tick();
    beam.tick();
    assert!(beam.screen[1][2] && beam.screen[1][3] && !beam.screen[1][4]);
}

#[test]
fn sensors_cover_a_diamond() {
    let sensor = Sensor::new(Point::new(8, 7), Point::new(2, 10));
    assert_eq!(sensor.dist, 9);
    assert_eq!(Point::new(-3, 4).dist_to(&Point::new(2, -1)), 10);
    assert_eq!(gap_between(isize::MIN, isize::MAX), usize::MAX);
    assert_eq!(gap_between(5, -5), 10);
    assert_eq!(sensor.covered_range_at(7), Some((-1, 17)));
    assert_eq!(sensor.covered_range_at(10), Some((2, 14)));
    assert_eq!(sensor.covered_range_at(16), Some((8, 8)));
    assert_eq!(sensor.covered_range_at(-2), Some((8, 8)));
    assert_eq!(sensor.covered_range_at(17), None);
    assert_eq!(sensor.covered_range_at(-3), None);
    assert!(sensor.contains(&Point::new(2, 10)));
    assert!(sensor.contains(&Point::new(8, 16)));
    assert!(!sensor.contains(&Point::new(1, 10)));
    assert!(!sensor.contains(&Point::new(9, 16)));
}

#[test]
fn valves_as_bits() {
    assert!(!is_open(0, 5));
    assert_eq!(open(0, 5), 32);
    assert!(is_open(open(0, 5), 5));
    assert!(!is_open(open(0, 5), 4));
    assert_eq!(open(open(1, 63), 63), 1 | (1 << 63));
    let none = BitValves::new();
    assert_eq!(none, BitValves(0));
    let some = none.open(3).open(0);
    assert_eq!(some, BitValves(9));
    assert!(some.is_open(0) && some.is_open(3) && !some.is_open(1));
    assert!(some.disjoint_with(&BitValves(6)));
    assert!(!some.disjoint_with(&BitValves(8)));
    assert!(none.disjoint_with(&none));
}

#[test]
fn cubes_and_their_box() {
    let c = Coord(1, -2, 3);
    assert_eq!(
        c.neighbours(),
        [
            Coord(0, -2, 3),
            Coord(2, -2, 3),
            Coord(1, -3, 3),
            Coord(1, -1, 3),
            Coord(1, -2, 2),
            Coord(1, -2, 4)
        ]
    );
    let b = expanded_bounding_box(&vec![Coord(2, 2, 2), Coord(1, 2, 5), Coord(3, -1, 2)]);
    assert_eq!(b, Cuboid((0, 4), (-2, 3), (1, 6)));
    assert_eq!(b.min_coord(), Coord(0, -2, 1));
    assert!(b.contains(&Coord(0, -2, 1)));
    assert!(b.contains(&Coord(4, 3, 6)));
    assert!(!b.contains(&Coord(5, 3, 6)));
    assert!(!b.contains(&Coord(0, -3, 1)));
    assert!(!b.contains(&Coord(0, 0, 7)));
    assert_eq!(expanded_bounding_box(&vec![Coord(7, 7, 7)]), Cuboid((6, 8), (6, 8), (6, 8)));
}

#[test]
fn factory_states() {
    let start = State::default(24);
    assert_eq!((start.ore_robots, start.time_remaining, start.ore), (1, 24, 0));
    let waited = start.idle_for(4);
    assert_eq!((waited.ore, waited.time_remaining), (4, 20));
    let more_ore = waited.build_ore_robot(4);
    assert_eq!((more_ore.ore, more_ore.ore_robots, more_ore.time_remaining), (1, 2, 19));
    let clay = more_ore.idle_for(1).build_clay_robot(2);
    assert_eq!((clay.ore, clay.clay, clay.clay_robots, clay.time_remaining), (3, 0, 1, 17));
    let later = clay.idle_for(14);
    assert_eq!((later.ore, later.clay, later.time_remaining), (31, 14, 3));
    let obsidian = later.build_obsidian_robot(3, 14);
    assert_eq!((obsidian.ore, obsidian.clay, obsidian.obsidian), (30, 1, 0));
    assert_eq!((obsidian.obsidian_robots, obsidian.time_remaining), (1, 2));
    let rich = State { obsidian: 7, ..obsidian };
    let geode = rich.build_geode_robot(2, 7);
    assert_eq!((geode.ore, geode.obsidian, geode.geode, geode.geode_robots), (30, 1, 0, 1));
    assert_eq!(geode.idle_for(1).geode, 1);
    assert_eq!(geode.idle_for(1).time_remaining, 0);
}

#[test]
fn walking_and_turning() {
    let (north, east, south, west) =
        (Direction::North, Direction::East, Direction::South, Direction::West);
    for d in [north, east, south, west] {
        assert_eq!(d.turn_right().turn_left(), d);
        assert_eq!(d.turn_right().turn_right(), d.turn_left().turn_left());
    }
    assert_eq!(north.turn_right(), east);
    assert_eq!(west.turn_left(), south);
    let scores: Vec<usize> = [east, south, west, north].iter().map(|d| d.password_score()).collect();
    assert_eq!(scores, vec![0, 1, 2, 3]);
    let wall = MapCell { north: None, east: None, south: None, west: None };
    let a = wall.update_dir(&east, Some(((1, 0), Rotation::Nothing)));
    let b = wall
        .update_dir(&east, Some(((0, 0), Rotation::Right)))
        .update_dir(&south, Some(((1, 0), Rotation::Half)));
    assert_eq!(*a.step(&east), Some(((1, 0), Rotation::Nothing)));
    assert_eq!(*a.step(&west), None);
    assert_eq!(*b.step(&south), Some(((1, 0), Rotation::Half)));
    let map = WrapMap { rows: vec![vec![Some(a), Some(b), None]] };
    assert_eq!(map.get(&(1, 0)), Some(b));
    assert_eq!(map.get(&(2, 0)), None);
    assert_eq!(map.get(&(0, 1)), None);
    let mut agent = Agent { position: (0, 0), direction: east };
    agent.advance(1, &map);
    assert_eq!(agent, Agent { position: (1, 0), direction: east });
    agent.advance(1, &map);
    assert_eq!(agent, Agent { position: (0, 0), direction: south });
    agent.advance(5, &map);
    assert_eq!(agent, Agent { position: (0, 0), direction: south });
    agent.turn(&Rotation::Left);
    assert_eq!(agent.direction, east);
    agent.advance(3, &map);
    assert_eq!(agent, Agent { position: (0, 0), direction: south });
    let mut agent = Agent { position: (1, 0), direction: south };
    agent.advance(1, &map);
    assert_eq!(agent, Agent { position: (1, 0), direction: north });
    agent.advance(2, &map);
    assert_eq!(agent, Agent { position: (1, 0), direction: north });
    agent.turn(&Rotation::Half);
    assert_eq!(agent.direction, south);
    agent.turn(&Rotation::Right);
    agent.turn(&Rotation::Nothing);
    assert_eq!(agent.direction, west);
    assert_eq!(agent.password_score(), 1000 + 8 + 2);
    let there = Agent { position: (7, 5), direction: east };
    assert_eq!(there.password_score(), 6032);
}

#[test]
fn an_empty_valley() {
    let valley = Blizzards::new(4, 3);
    assert_eq!(valley.height(), 3);
    assert_eq!(valley.width(), 4);
    assert!(valley.is_open(3, 2));
    assert_eq!(valley.0, vec![vec![Vec::new(); 4]; 3]);
}

#[test]
fn blizzards_move_and_wrap() {
    let mut valley = Blizzards::new(5, 4);
    valley.0[1][1] = vec![BlizzardDirection::West, BlizzardDirection::North];
    valley.0[1][3] = vec![BlizzardDirection::East];
    valley.0[2][2] = vec![BlizzardDirection::South, BlizzardDirection::East];
    let later = valley.next();
    let mut expected = Blizzards::new(5, 4);
    expected.0[1][3] = vec![BlizzardDirection::West];
    expected.0[2][1] = vec![BlizzardDirection::North];
    expected.0[1][1] = vec![BlizzardDirection::East];
    expected.0[1][2] = vec![BlizzardDirection::South];
    expected.0[2][3] = vec![BlizzardDirection::East];
    assert_eq!(later.0, expected.0);
    assert!(later.is_open(2, 2));
    assert!(!later.is_open(1, 1));
    let much_later = later.next().next().next().next().next();
    let tally = |valley: &Blizzards| -> Vec<Vec<[usize; 4]>> {
        let all = [
            BlizzardDirection::North,
            BlizzardDirection::East,
            BlizzardDirection::South,
            BlizzardDirection::West,
        ];
        let per_cell = |cell: &Vec<BlizzardDirection>| {
            all.map(|d| cell.iter().filter(|b| **b == d).count())
        };
        valley.0.iter().map(|row| row.iter().map(per_cell).collect()).collect()
    };
    assert_eq!(tally(&much_later), tally(&valley));
    assert_eq!(tally(&later)[1][1], [0, 1, 0, 0]);
    assert_eq!(Blizzards::new(3, 3).next().0, Blizzards::new(3, 3).0);
}

#[test]
fn streams_with_and_without_a_marker() {
    assert_eq!(seek_marker("mjqjpqmgbljsphdztnvjfqwrcgsmlb", 4), Some(7));
    assert_eq!(seek_marker("mjqjpqmgbljsphdztnvjfqwrcgsmlb", 14), Some(19));
    assert_eq!(seek_marker("aba", 2), Some(2));
    assert_eq!(seek_marker("aab", 2), Some(3));
    assert_eq!(seek_marker("", 0), Some(0));
    assert_eq!(seek_marker("aaaa", 2), None);
    assert_eq!(seek_marker("abab", 3), None);
    assert_eq!(seek_marker("ab", 3), None);
    assert_eq!(seek_marker("", 1), None);
}

#[test]
fn markers_in_streams() {
    let examples = [
        ("mjqjpqmgbljsphdztnvjfqwrcgsmlb", 7, 19),
        ("bvwbjplbgvbhsrlpgdmjqwftvncz", 5, 23),
        ("nppdvjthqldpwncqszvftbrmjlhg", 6, 23),
        ("nznrnfrfntjfmvfwmzdfjlvtqnbhcprsg", 10, 29),
        ("zcfzfwzzqfrljwzlrfnpqdbhtmscgvjw", 11, 26),
    ];
    for (stream, packet, message) in examples {
        assert_eq!(find_position_of_marker(stream, 4), packet);
        assert_eq!(find_position_of_marker(stream, 14), message);
    }
    assert_eq!(find_position_of_marker("aabc", 1), 1);
    assert_eq!(find_position_of_marker("aabc", 2), 3);
    assert_eq!(find_position_of_marker("aabc", 3), 4);
    assert_eq!(find_position_of_marker("anything", 0), 0);
    assert_eq!(find_position_of_marker("ééèé", 2), 3);
    assert!(is_marker(&VecDeque::from(vec!['a', 'b', 'c'])));
    assert!(!is_marker(&VecDeque::from(vec!['a', 'b', 'a'])));
    assert!(is_marker(&VecDeque::new()));
}

#[test]
fn the_rectangle_round_the_elves() {
    let elves = vec![(2, 1), (3, 1), (2, 2), (2, 4), (3, 4)];
    assert_eq!(bounds(&elves), ((2, 3), (1, 4)));
    assert_eq!(num_free_spaces(&elves), 3);
    assert_eq!(bounds(&Vec::new()), ((100000, -100000), (100000, -100000)));
    assert_eq!(bounds(&vec![(-7, 200000)]), ((-7, -7), (100000, 200000)));
    assert_eq!(bounds(&vec![(-7, 5)]), ((-7, -7), (5, 5)));
    assert_eq!(num_free_spaces(&vec![(-7, 5)]), 0);
    assert_eq!(num_free_spaces(&vec![(0, 0), (9, 9)]), 98);
}

fn net_of_a_cube() -> WrapMap {
    let open = MapCell { north: None, east: None, south: None, west: None };
    let mut rows = Vec::new();
    for y in 0..200 {
        let mut row = vec![None; 150];
        let (from, to) = match y / 50 {
            0 => (50, 150),
            1 => (50, 100),
            2 => (0, 100),
            _ => (0, 50),
        };
        for x in from..to {
            row[x] = Some(open);
        }
        rows.push(row);
    }
    WrapMap { rows }
}

#[test]
fn the_board_folds_into_a_cube() {
    let mut map = net_of_a_cube();
    convert_to_cube(&mut map);
    let cell = |x: usize, y: usize| map.get(&(x, y)).unwrap();
    assert_eq!(cell(50, 0).north, Some(((0, 150), Rotation::Right)));
    assert_eq!(cell(99, 0).north, Some(((0, 199), Rotation::Right)));
    assert_eq!(cell(0, 150).west, Some(((50, 0), Rotation::Left)));
    assert_eq!(cell(100, 0).north, Some(((0, 199), Rotation::Nothing)));
    assert_eq!(cell(49, 199).south, Some(((149, 0), Rotation::Nothing)));
    assert_eq!(cell(149, 0).east, Some(((99, 149), Rotation::Half)));
    assert_eq!(cell(149, 49).east, Some(((99, 100), Rotation::Half)));
    assert_eq!(cell(99, 100).east, Some(((149, 49), Rotation::Half)));
    assert_eq!(cell(100, 49).south, Some(((99, 50), Rotation::Right)));
    assert_eq!(cell(99, 99).east, Some(((149, 49), Rotation::Left)));
    assert_eq!(cell(50, 149).south, Some(((49, 150), Rotation::Right)));
    assert_eq!(cell(49, 150).east, Some(((50, 149), Rotation::Left)));
    assert_eq!(cell(0, 100).west, Some(((50, 49), Rotation::Half)));
    assert_eq!(cell(50, 0).west, Some(((0, 149), Rotation::Half)));
    assert_eq!(cell(0, 100).north, Some(((50, 50), Rotation::Right)));
    assert_eq!(cell(50, 99).west, Some(((49, 100), Rotation::Left)));
    assert_eq!(cell(60, 60).north, None);
    assert_eq!(cell(50, 0).east, None);
    assert_eq!(map.get(&(0, 0)), None);
    assert_eq!(map.rows.len(), 200);
}

#[test]
fn a_seam_joins_what_is_there() {
    let open = MapCell { north: None, east: None, south: None, west: None };
    let mut rows = vec![vec![Some(open); 60]; 2];
    rows[0][3] = None;
    rows[1][7] = None;
    let mut map = WrapMap { rows };
    let seam = Seam {
        from_xs: Run::Rising(0),
        from_ys: Run::Level(0),
        to_xs: Run::Falling(49),
        to_ys: Run::Level(1),
        from_direction: Direction::South,
        rotation: Rotation::Half,
    };
    update_line(&mut map, &seam);
    assert_eq!(map.get(&(0, 0)).unwrap().south, Some(((49, 1), Rotation::Half)));
    assert_eq!(map.get(&(49, 0)).unwrap().south, Some(((0, 1), Rotation::Half)));
    assert_eq!(map.get(&(42, 0)).unwrap().south, None);
    assert_eq!(map.get(&(50, 0)).unwrap().south, None);
    assert_eq!(map.get(&(3, 0)), None);
    assert_eq!(map.get(&(7, 1)), None);
    assert_eq!(map.get(&(5, 1)).unwrap(), open);
    assert_eq!(map.get(&(5, 0)).unwrap().north, None);
    assert_eq!(Run::Rising(7).value(3), 10);
    assert_eq!(Run::Falling(49).value(49), 0);
    assert_eq!(Run::Level(9).value(20), 9);
}

fn states_of(valley: Blizzards, width: usize, height: usize) -> Vec<Blizzards> {
    let mut all_blizzards = vec![valley];
    for i in 1..(width * height) {
        let new_blizzards = all_blizzards[i - 1].next();
        all_blizzards.push(new_blizzards);
    }
    all_blizzards
}

fn walls_of(rows: &[&str]) -> Vec<Vec<bool>> {
    rows.iter().map(|row| row.bytes().map(|b| b == b'#').collect()).collect()
}

#[test]
fn ways_through_a_calm_valley() {
    let walls = walls_of(&["#.###", "#...#", "#...#", "#...#", "###.#"]);
    let all_blizzards = states_of(Blizzards::new(5, 5), 5, 5);
    let there = time_to_move_between(&(1, 0), &(3, 4), &all_blizzards, &walls, 5, 5, 0);
    assert_eq!(there, Some(5));
    let back = time_to_move_between(&(3, 4), &(1, 0), &all_blizzards, &walls, 5, 5, 7);
    assert_eq!(back, Some(12));
    assert_eq!(time_to_move_between(&(1, 0), &(1, 1), &all_blizzards, &walls, 5, 5, 3), Some(3));
    assert_eq!(time_to_move_between(&(1, 0), &(1, 0), &all_blizzards, &walls, 5, 5, 3), Some(3));
}

#[test]
fn ways_past_a_blizzard() {
    let walls = walls_of(&["#####", "#...#", "#####"]);
    let mut valley = Blizzards::new(5, 3);
    valley.0[1][1].push(BlizzardDirection::East);
    let all_blizzards = states_of(valley, 5, 3);
    assert_eq!(time_to_move_between(&(3, 1), &(1, 1), &all_blizzards, &walls, 5, 3, 0), Some(1));
    assert_eq!(time_to_move_between(&(1, 1), &(3, 1), &all_blizzards, &walls, 5, 3, 0), Some(1));
    assert_eq!(time_to_move_between(&(3, 1), &(2, 1), &all_blizzards, &walls, 5, 3, 0), Some(0));
    assert_eq!(time_to_move_between(&(3, 1), &(2, 1), &all_blizzards, &walls, 5, 3, 1), Some(2));
    let cell = walls_of(&["###", "#.#", "###"]);
    let mut stormy = Blizzards::new(3, 3);
    stormy.0[1][1].push(BlizzardDirection::East);
    let for_ever = states_of(stormy, 3, 3);
    assert_eq!(time_to_move_between(&(1, 1), &(1, 1), &for_ever, &cell, 3, 3, 0), None);
    assert_eq!(time_to_move_between(&(1, 1), &(7, 7), &for_ever, &cell, 3, 3, 4), None);
}
