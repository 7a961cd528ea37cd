use aoc2022::day16::paths::{add_far, calculate_all_shortest_distances, find_name};
use aoc2022::day16::scan::{find_pair, parse_valves, read_list, trim};
use aoc2022::day16::search::{
    explore, max_pressure_release, max_pressure_release_by_two_agents,
    max_pressure_release_for_all_combinations, Releases, SearchState,
};
use aoc2022::day16::walk::{
    all_valves, keep_most, key_of, max_released_pressure_duo, max_released_pressure_solo, Duo,
};
use aoc2022::day16::{usable_valve_indexes, Valve};

const EXAMPLE: &str = "Valve AA has flow rate=0; tunnels lead to valves DD, II, BB
Valve BB has flow rate=13; tunnels lead to valves CC, AA
Valve CC has flow rate=2; tunnels lead to valves DD, BB
Valve DD has flow rate=20; tunnels lead to valves CC, AA, EE
Valve EE has flow rate=3; tunnels lead to valves FF, DD
Valve FF has flow rate=0; tunnels lead to valves EE, GG
Valve GG has flow rate=0; tunnels lead to valves FF, HH
Valve HH has flow rate=22; tunnel leads to valve GG
Valve II has flow rate=0; tunnels lead to valves AA, JJ
Valve JJ has flow rate=21; tunnel leads to valve II
";

#[test]
fn valves_are_read() {
    let (valves, names) = parse_valves(EXAMPLE).unwrap();
    assert_eq!(names, vec!["AA", "BB", "CC", "DD", "EE", "FF", "GG", "HH", "II", "JJ"]);
    let rates: Vec<usize> = valves.iter().map(|v| v.rate).collect();
    assert_eq!(rates, vec![0, 13, 2, 20, 3, 0, 0, 22, 0, 21]);
    assert_eq!(valves[0].neighbours, vec!["DD", "II", "BB"]);
    assert_eq!(valves[7].neighbours, vec!["GG"]);
    assert_eq!(valves[9].neighbours, vec!["II"]);
    assert_eq!(usable_valve_indexes(&valves), vec![1, 2, 3, 4, 7, 9]);
    assert!(parse_valves("").unwrap().0.is_empty());
    assert!(parse_valves("Valve AA has flow rate=0").is_none());
    assert!(parse_valves("Valve AA has flow rate=x; tunnel leads to valve GG").is_none());
    assert!(parse_valves("Valve AA has flow rate=1; tunnel leads to").is_none());
    assert!(parse_valves("Valve AA has flow rate=1; tunnel leads to valve GG\n\n").is_none());
    let (odd, _) = parse_valves("Valve AA has flow rate=1; tunnel leads to valve  G ,H, I\t").unwrap();
    assert_eq!(odd[0].neighbours, vec!["G ,H", "I"]);
    let (bare, _) = parse_valves("Valve AA has flow rate=1; tunnel leads to valve ").unwrap();
    assert_eq!(bare[0].neighbours, vec![""]);
}

#[test]
fn shortest_ways_of_the_example() {
    let (valves, names) = parse_valves(EXAMPLE).unwrap();
    let dists = calculate_all_shortest_distances(&valves, &names).unwrap();
    let between = |a: &str, b: &str| {
        dists[find_name(&names, &a.to_string())][find_name(&names, &b.to_string())]
    };
    assert_eq!(between("AA", "AA"), 0);
    assert_eq!(between("AA", "DD"), 1);
    assert_eq!(between("AA", "HH"), 5);
    assert_eq!(between("HH", "AA"), 5);
    assert_eq!(between("AA", "JJ"), 2);
    assert_eq!(between("BB", "JJ"), 3);
    assert_eq!(between("CC", "HH"), 5);
    assert_eq!(between("JJ", "HH"), 7);
    assert_eq!(dists.len(), 10);
    assert!(dists.iter().all(|row| row.len() == 10));
}

#[test]
fn ways_that_do_not_exist() {
    let valve = |to: &[&str]| Valve { rate: 1, neighbours: to.iter().map(|n| n.to_string()).collect() };
    let names: Vec<String> = ["a", "b", "c", "d"].iter().map(|n| n.to_string()).collect();
    let one_way = vec![valve(&["b"]), valve(&["c"]), valve(&[]), valve(&["a", "d"])];
    let dists = calculate_all_shortest_distances(&one_way, &names).unwrap();
    let no = usize::MAX;
    assert_eq!(
        dists,
        vec![vec![0, 1, 2, no], vec![no, 0, 1, no], vec![no, no, 0, no], vec![1, 2, 3, 0]]
    );
    let lost = vec![valve(&["b"]), valve(&["x"]), valve(&[]), valve(&[])];
    assert_eq!(calculate_all_shortest_distances(&lost, &names), None);
    assert_eq!(calculate_all_shortest_distances(&Vec::new(), &Vec::new()), Some(Vec::new()));
    assert_eq!(add_far(3, 4), 7);
    assert_eq!(add_far(usize::MAX, 4), usize::MAX);
    assert_eq!(add_far(usize::MAX - 4, 4), usize::MAX);
    assert_eq!(find_name(&names, &"c".to_string()), 2);
    assert_eq!(find_name(&names, &"x".to_string()), 4);
}

#[test]
fn lists_and_trimming() {
    assert_eq!(find_pair(b"ab, cd,e, f", b',', b' ', 0), 2);
    assert_eq!(find_pair(b"ab, cd,e, f", b',', b' ', 3), 8);
    assert_eq!(find_pair(b"ab, cd,e, f", b',', b' ', 9), 11);
    assert_eq!(find_pair(b"ab,", b',', b' ', 0), 3);
    assert_eq!(trim(b"  ab \t", 0, 6), (2, 4));
    assert_eq!(trim(b"  ab \t", 3, 6), (3, 4));
    assert_eq!(trim(b"    ", 1, 3), (3, 3));
    assert_eq!(read_list(b"x: a, bc , d", 3), Some(vec!["a".to_string(), "bc".to_string(), "d".to_string()]));
    assert_eq!(read_list(b"abc", 3), Some(vec![String::new()]));
    assert_eq!(read_list(&[b'a', 200], 0), None);
}

#[test]
fn pressure_released_in_the_example() {
    let (valves, names) = parse_valves(EXAMPLE).unwrap();
    let dists = calculate_all_shortest_distances(&valves, &names).unwrap();
    let usable = usable_valve_indexes(&valves);
    let start = find_name(&names, &"AA".to_string());
    assert_eq!(max_pressure_release(&valves, &usable, start, &dists, 30), 1651);
    assert_eq!(max_pressure_release_by_two_agents(&valves, &usable, start, &dists, 26), 1707);
    let all = max_pressure_release_for_all_combinations(&valves, &usable, start, &dists, 30);
    assert_eq!(all.sets.len(), all.best.len());
    assert_eq!(all.best[&0], 0);
    assert_eq!(all.best[&(1 << 3)], 20 * 28);
    assert_eq!(all.best[&(1 << 1)], 13 * 28);
    assert_eq!(all.best[&((1 << 1) | (1 << 3))], 20 * 28 + 13 * 25);
    assert_eq!(all.greatest(), 1651);
    assert!(all.sets.iter().all(|set| all.best.contains_key(set)));
}

#[test]
fn short_searches_for_pressure() {
    let (valves, names) = parse_valves(EXAMPLE).unwrap();
    let dists = calculate_all_shortest_distances(&valves, &names).unwrap();
    let usable = usable_valve_indexes(&valves);
    let start = find_name(&names, &"AA".to_string());
    assert_eq!(max_pressure_release(&valves, &usable, start, &dists, 0), 0);
    assert_eq!(max_pressure_release(&valves, &usable, start, &dists, 1), 0);
    assert_eq!(max_pressure_release(&valves, &usable, start, &dists, 2), 0);
    assert_eq!(max_pressure_release(&valves, &usable, start, &dists, 3), 20);
    assert_eq!(max_pressure_release(&valves, &usable, start, &dists, 4), 40);
    assert_eq!(max_pressure_release(&valves, &usable, start, &dists, 5), 63);
    assert_eq!(max_pressure_release_by_two_agents(&valves, &usable, start, &dists, 3), 33);
    assert_eq!(max_pressure_release_by_two_agents(&valves, &usable, start, &dists, 2), 0);
    assert_eq!(max_pressure_release(&valves, &Vec::new(), start, &dists, 30), 0);
    let mut state = SearchState { valve: start, mins_remaining: 3, open_valves: 0, pressure: 0 };
    let mut found = Releases { sets: Vec::new(), best: Default::default() };
    explore(&valves, &usable, &dists, state, &mut found);
    assert_eq!(found.sets, vec![0, 2, 4, 8, 16, 512]);
    state.open_valves = 1 << 3;
    explore(&valves, &usable, &dists, state, &mut found);
    assert_eq!(found.sets, vec![0, 2, 4, 8, 16, 512, 10, 12, 24, 520]);
    assert_eq!(found.best[&10], 13);
    assert_eq!(found.best[&(1 << 3)], 20);
    found.note(1 << 3, 7);
    found.note(1 << 5, 7);
    assert_eq!((found.best[&(1 << 3)], found.best[&(1 << 5)]), (20, 7));
    assert_eq!(found.greatest_apart(), 33);
}

#[test]
fn walking_alone_and_in_two() {
    let (valves, names) = parse_valves(EXAMPLE).unwrap();
    let dists = calculate_all_shortest_distances(&valves, &names).unwrap();
    let usable = usable_valve_indexes(&valves);
    let start = find_name(&names, &"AA".to_string());
    let all_open = all_valves(&usable);
    assert_eq!(all_open, (1 << 1) | (1 << 2) | (1 << 3) | (1 << 4) | (1 << 7) | (1 << 9));
    let alone = |mins| max_released_pressure_solo(start, mins, 0, 0, all_open, &valves, &usable, &dists);
    assert_eq!(alone(30), 1651);
    assert_eq!(alone(0), 0);
    assert_eq!(alone(1), 0);
    assert_eq!(alone(3), 20);
    assert_eq!(alone(5), 63);
    assert_eq!(max_released_pressure_solo(start, 30, 7, all_open, all_open, &valves, &usable, &dists), 7);
    let two = |mins| {
        let mut cache = Default::default();
        max_released_pressure_duo(start, start, mins, mins, 0, 0, all_open, &valves, &usable, &dists, &mut cache)
    };
    assert_eq!(two(0), 0);
    assert_eq!(two(1), 0);
    assert_eq!(two(2), 0);
    assert_eq!(two(3), 33);
    assert_eq!(two(26), 1707);
    let mut cache = Default::default();
    let first = max_released_pressure_duo(start, start, 3, 3, 0, 0, all_open, &valves, &usable, &dists, &mut cache);
    let again = max_released_pressure_duo(start, start, 3, 3, 0, 0, all_open, &valves, &usable, &dists, &mut cache);
    assert_eq!((first, again), (33, 0));
    let key = key_of(&Duo { my_valve: 1, el_valve: 2, my_mins: 3, el_mins: 4, pressure: 9, open: 5 });
    assert_eq!(key, 1 + (2 << 16) + (3 << 32) + (4 << 48) + (5 << 64));
    assert_eq!(keep_most(None, 4), Some(4));
    assert_eq!(keep_most(Some(5), 4), Some(5));
    assert_eq!(keep_most(Some(3), 4), Some(4));
}

#[test]
fn valves_with_high_rates() {
    let text = "Valve AA has flow rate=0; tunnels lead to valves BB
Valve BB has flow rate=1000000; tunnels lead to valves AA, CC
Valve CC has flow rate=70000; tunnel leads to valve BB
";
    let (valves, names) = parse_valves(text).unwrap();
    let dists = calculate_all_shortest_distances(&valves, &names).unwrap();
    let usable = usable_valve_indexes(&valves);
    let start = find_name(&names, &"AA".to_string());
    assert_eq!(max_pressure_release(&valves, &usable, start, &dists, 30), 28_000_000 + 26 * 70_000);
    assert_eq!(
        max_pressure_release_by_two_agents(&valves, &usable, start, &dists, 26),
        24_000_000 + 23 * 70_000
    );
    let all_open = all_valves(&usable);
    assert_eq!(
        max_released_pressure_solo(start, 30, 0, 0, all_open, &valves, &usable, &dists),
        28_000_000 + 26 * 70_000
    );
    let mut cache = Default::default();
    assert_eq!(
        max_released_pressure_duo(start, start, 26, 26, 0, 0, all_open, &valves, &usable, &dists, &mut cache),
        24_000_000 + 23 * 70_000
    );
}
