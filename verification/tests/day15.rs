use aoc2022::pattern::{find_texts, taken_texts};
use aoc2022::day15::border::{coord_iterator, find_gap, is_covered};
use aoc2022::day15::cover::total_coverage;
use aoc2022::day15::{parse_sensor_line, sensor_from_groups, Coord, Sensor};
use aoc2022::day19::{blueprint_from_groups, parse_blueprint_line, Blueprint};
use aoc2022::text::{parse_digits, parse_isize, parse_isize_text, parse_usize, parse_usize_text};

const EXAMPLE: [&str; 14] = [
    "Sensor at x=2, y=18: closest beacon is at x=-2, y=15",
    "Sensor at x=9, y=16: closest beacon is at x=10, y=16",
    "Sensor at x=13, y=2: closest beacon is at x=15, y=3",
    "Sensor at x=12, y=14: closest beacon is at x=10, y=16",
    "Sensor at x=10, y=20: closest beacon is at x=10, y=16",
    "Sensor at x=14, y=17: closest beacon is at x=10, y=16",
    "Sensor at x=8, y=7: closest beacon is at x=2, y=10",
    "Sensor at x=2, y=0: closest beacon is at x=2, y=10",
    "Sensor at x=0, y=11: closest beacon is at x=2, y=10",
    "Sensor at x=20, y=14: closest beacon is at x=25, y=17",
    "Sensor at x=17, y=20: closest beacon is at x=21, y=22",
    "Sensor at x=16, y=7: closest beacon is at x=15, y=3",
    "Sensor at x=14, y=3: closest beacon is at x=15, y=3",
    "Sensor at x=20, y=1: closest beacon is at x=15, y=3",
];

fn example_sensors() -> Vec<Sensor> {
    EXAMPLE.iter().map(|line| parse_sensor_line(line).unwrap()).collect()
}

#[test]
fn sensor_lines_are_read() {
    let first = parse_sensor_line(EXAMPLE[0]).unwrap();
    assert_eq!(first.coord, Coord { x: 2, y: 18 });
    assert_eq!(first.nearest_beacon, Coord { x: -2, y: 15 });
    assert_eq!(first.dist, 7);
    assert_eq!(parse_sensor_line("Sensor at x=2, y=18"), None);
    assert_eq!(parse_sensor_line(""), None);
    assert_eq!(parse_sensor_line("Sensor at x=a, y=1: closest beacon is at x=1, y=1"), None);
    let huge = "Sensor at x=99999999999999999999, y=1: closest beacon is at x=1, y=1";
    assert_eq!(parse_sensor_line(huge), None);
    let inside = parse_sensor_line(">> Sensor at x=-1, y=-2: closest beacon is at x=3, y=4 <<");
    assert_eq!(inside, Some(Sensor::new(Coord::new(-1, -2), Coord::new(3, 4))));
    assert_eq!(Sensor::parse("8", "7", "2", "10"), Sensor::new(Coord::new(8, 7), Coord::new(2, 10)));
    assert_eq!(Coord::parse("-12", "+7"), Coord { x: -12, y: 7 });
}

#[test]
fn sensors_from_groups() {
    let groups = |texts: [&str; 4]| texts.iter().map(|t| t.to_string()).collect::<Vec<String>>();
    assert_eq!(
        sensor_from_groups(&groups(["1", "2", "3", "4"])),
        Some(Sensor { coord: Coord { x: 1, y: 2 }, nearest_beacon: Coord { x: 3, y: 4 }, dist: 4 })
    );
    assert_eq!(sensor_from_groups(&groups(["1", "2", "3", ""])), None);
    assert_eq!(sensor_from_groups(&groups(["1", "2", "x3", "4"])), None);
    assert_eq!(sensor_from_groups(&groups(["1", "٢", "3", "4"])), None);
    assert_eq!(sensor_from_groups(&vec!["1".to_string(); 3]), None);
    assert_eq!(sensor_from_groups(&vec!["1".to_string(); 5]), None);
    let far = [isize::MIN.to_string(), isize::MIN.to_string(), isize::MAX.to_string(), "0".into()];
    assert_eq!(sensor_from_groups(&far.to_vec()), None);
    let edge = [isize::MIN.to_string(), "0".into(), isize::MAX.to_string(), "0".into()];
    assert_eq!(sensor_from_groups(&edge.to_vec()).unwrap().dist, usize::MAX);
}

#[test]
fn row_ten_of_the_example() {
    let sensors = example_sensors();
    assert_eq!(total_coverage(&sensors, 10), 27);
    assert_eq!(total_coverage(&sensors, 11), 28);
    assert_eq!(total_coverage(&sensors, 9), 25);
    assert_eq!(total_coverage(&sensors, -100), 0);
    assert_eq!(total_coverage(&Vec::new(), 10), 0);
}

#[test]
fn ranges_that_touch_or_lie_apart() {
    let at = |x: isize, reach: isize| Sensor::new(Coord::new(x, 0), Coord::new(x + reach, 0));
    assert_eq!(total_coverage(&vec![at(0, 2)], 0), 5);
    assert_eq!(total_coverage(&vec![at(0, 2)], 2), 1);
    assert_eq!(total_coverage(&vec![at(0, 2)], 3), 0);
    assert_eq!(total_coverage(&vec![at(0, 2), at(5, 2)], 0), 10);
    assert_eq!(total_coverage(&vec![at(0, 2), at(6, 2)], 0), 10);
    assert_eq!(total_coverage(&vec![at(0, 2), at(3, 2)], 0), 8);
    assert_eq!(total_coverage(&vec![at(0, 2), at(0, 1), at(1, 0)], 0), 5);
    assert_eq!(total_coverage(&vec![at(10, 1), at(0, 1), at(5, 10)], 0), 21);
    assert_eq!(total_coverage(&vec![at(10, 1), at(0, 1), at(5, 10)], 9), 3);
    assert_eq!(total_coverage(&vec![at(10, 1), at(0, 1), at(5, 10)], 1), 19);
}

#[test]
fn blueprint_lines_are_read() {
    let line = "Blueprint 1: Each ore robot costs 4 ore. Each clay robot costs 2 ore. Each obsidian robot costs 3 ore and 14 clay. Each geode robot costs 2 ore and 7 obsidian.";
    let expected = Blueprint {
        id: 1,
        ore_ore: 4,
        clay_ore: 2,
        obsidian_ore: 3,
        obsidian_clay: 14,
        geode_ore: 2,
        geode_obsidian: 7,
        max_ore: 4,
    };
    assert_eq!(parse_blueprint_line(line), Some(expected));
    assert_eq!(parse_blueprint_line(&line[..80]), None);
    let other = "Blueprint 30: Each ore robot costs 2 ore. Each clay robot costs 3 ore. Each obsidian robot costs 3 ore and 8 clay. Each geode robot costs 5 ore and 12 obsidian.";
    let read = parse_blueprint_line(other).unwrap();
    assert_eq!((read.id, read.max_ore, read.geode_obsidian, read.obsidian_clay), (30, 5, 12, 8));
    let texts: Vec<String> = ["7", "1", "9", "3", "4", "5", "6"].iter().map(|t| t.to_string()).collect();
    let built = blueprint_from_groups(&texts).unwrap();
    assert_eq!((built.id, built.clay_ore, built.max_ore), (7, 9, 9));
    assert_eq!(blueprint_from_groups(&texts[..6].to_vec()), None);
    let mut bad = texts.clone();
    bad[3] = "-3".to_string();
    assert_eq!(blueprint_from_groups(&bad), None);
}

#[test]
fn numerals() {
    assert_eq!(parse_usize(b"0"), Some(0));
    assert_eq!(parse_usize(b"007"), Some(7));
    assert_eq!(parse_usize(b"+42"), Some(42));
    assert_eq!(parse_usize(b"-42"), None);
    assert_eq!(parse_usize(b"-0"), None);
    assert_eq!(parse_usize(b""), None);
    assert_eq!(parse_usize(b"+"), None);
    assert_eq!(parse_usize(b"4 2"), None);
    assert_eq!(parse_usize(b"12a"), None);
    assert_eq!(parse_usize(usize::MAX.to_string().as_bytes()), Some(usize::MAX));
    assert_eq!(parse_usize(b"18446744073709551616"), None);
    assert_eq!(parse_usize(b"99999999999999999999999"), None);
    assert_eq!(parse_isize(b"-42"), Some(-42));
    assert_eq!(parse_isize(b"+42"), Some(42));
    assert_eq!(parse_isize(b"42"), Some(42));
    assert_eq!(parse_isize(b"-"), None);
    assert_eq!(parse_isize(b"--1"), None);
    assert_eq!(parse_isize(b"+-1"), None);
    assert_eq!(parse_isize(isize::MAX.to_string().as_bytes()), Some(isize::MAX));
    assert_eq!(parse_isize(isize::MIN.to_string().as_bytes()), Some(isize::MIN));
    assert_eq!(parse_isize(b"9223372036854775808"), None);
    assert_eq!(parse_isize(b"-9223372036854775809"), None);
    assert_eq!(parse_digits(b"move 17", 5), Some(17));
    assert_eq!(parse_digits(b"move 17", 4), None);
    assert_eq!(parse_digits(b"17", 2), None);
    assert_eq!(parse_isize_text("-5"), Some(-5));
    assert_eq!(parse_isize_text("５"), None);
    assert_eq!(parse_usize_text("15"), Some(15));
    assert_eq!(parse_usize_text("1५"), None);
    for text in ["0", "-1", "+1", "123456", "-987654321", "x", "", "1.5"] {
        assert_eq!(parse_isize_text(text), text.parse::<isize>().ok());
        assert_eq!(parse_usize_text(text), text.parse::<usize>().ok());
    }
}

#[test]
fn the_gap_of_the_example() {
    let sensors = example_sensors();
    let gap = find_gap(&sensors, 20).unwrap();
    assert_eq!(gap, Coord { x: 14, y: 11 });
    assert_eq!(gap.x * 4000000 + gap.y, 56000011);
    assert!(!is_covered(&sensors, &gap));
    assert!(is_covered(&sensors, &Coord { x: 14, y: 12 }));
    assert_eq!(find_gap(&sensors, 10), None);
    assert_eq!(find_gap(&Vec::new(), 20), None);
    let lone = vec![Sensor::new(Coord::new(0, 0), Coord::new(1, 0))];
    assert_eq!(find_gap(&lone, 5), Some(Coord { x: 2, y: 0 }));
    assert_eq!(find_gap(&lone, 1), Some(Coord { x: 1, y: 1 }));
    assert_eq!(find_gap(&lone, 0), None);
}

#[test]
fn rings_and_walks() {
    let sensor = Sensor::new(Coord::new(5, 5), Coord::new(5, 6));
    let ring = sensor.border_iter();
    let expected: Vec<Coord> = [(3, 5), (4, 4), (5, 3), (6, 4), (7, 5), (6, 6), (5, 7), (4, 6)]
        .iter()
        .map(|p| Coord::new(p.0, p.1))
        .collect();
    assert_eq!(ring, expected);
    let point = Sensor::new(Coord::new(-1, 2), Coord::new(-1, 2));
    let around: Vec<(isize, isize)> = point.border_iter().iter().map(|c| (c.x, c.y)).collect();
    assert_eq!(around, vec![(-2, 2), (-1, 1), (0, 2), (-1, 3)]);
    assert_eq!(sensor.border_iter().len(), 8);
    let walk = coord_iterator(Coord::new(1, 1), Coord::new(7, -2), 2, -1);
    assert_eq!(walk, vec![Coord::new(1, 1), Coord::new(3, 0), Coord::new(5, -1)]);
    assert_eq!(coord_iterator(Coord::new(1, 1), Coord::new(1, 1), 3, 4), Vec::new());
    assert_eq!(
        coord_iterator(Coord::new(0, 0), Coord::new(0, -2), 0, -1),
        vec![Coord::new(0, 0), Coord::new(0, -1)]
    );
}

#[test]
fn groups_of_a_match_are_taken_as_texts() {
    let texts = |found: Option<Vec<String>>| found.map(|v| v.join("|"));
    assert_eq!(texts(find_texts("a(b)?(c)", "xac")), Some("|c".to_string()));
    assert_eq!(texts(find_texts("a(b)?(c)", "xabc")), Some("b|c".to_string()));
    assert_eq!(texts(find_texts("(\\d+)-(\\d+)", "from 12-345 to 6-7")), Some("12|345".to_string()));
    assert_eq!(find_texts("abc", "xabcx"), Some(vec![]));
    assert_eq!(find_texts("abc", "xabx"), None);
    assert_eq!(find_texts("(", "("), None);
    let parts = vec![Some("whole".to_string()), None, Some("x".to_string())];
    assert_eq!(taken_texts(&parts), vec!["".to_string(), "x".to_string()]);
    assert_eq!(taken_texts(&vec![]), Vec::<String>::new());
    assert_eq!(taken_texts(&vec![None]), Vec::<String>::new());
}
