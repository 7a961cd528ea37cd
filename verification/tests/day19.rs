use aoc2022::day19::{minutes_until, spare, Blueprint, State};

/*
Blueprint 1:
  Each ore robot costs 4 ore.
  Each clay robot costs 2 ore.
  Each obsidian robot costs 3 ore and 14 clay.
  Each geode robot costs 2 ore and 7 obsidian.
     */
#[test]
fn example_1_quality() {
    let b = Blueprint {
        id: 1,
        ore_ore: 4,
        clay_ore: 2,
        obsidian_ore: 3, obsidian_clay: 14,
        geode_ore: 2, geode_obsidian: 7,
        max_ore: 4,
    };
    let q = b.quality_level(24);
    assert_eq!(q, 9);
}

/*
Blueprint 2:
  Each ore robot costs 2 ore.
  Each clay robot costs 3 ore.
  Each obsidian robot costs 3 ore and 8 clay.
  Each geode robot costs 3 ore and 12 obsidian
     */
#[test]
fn example_2_quality() {
    let b = Blueprint {
        id: 2,
        ore_ore: 2,
        clay_ore: 3,
        obsidian_ore: 3, obsidian_clay: 8,
        geode_ore: 3, geode_obsidian: 12,
        max_ore: 3,
    };
    let q = b.quality_level(24);
    assert_eq!(q, 24);
}

#[test]
fn short_searches() {
    let b = Blueprint {
        id: 7,
        ore_ore: 4,
        clay_ore: 2,
        obsidian_ore: 3,
        obsidian_clay: 14,
        geode_ore: 2,
        geode_obsidian: 7,
        max_ore: 4,
    };
    assert_eq!(b.maximal_geodes(0), 0);
    assert_eq!(b.maximal_geodes(1), 0);
    assert_eq!(b.maximal_geodes(4), 0);
    assert_eq!(b.maximal_geodes(24), 9);
    assert_eq!(b.quality_level(24), 63);
    let cheap = Blueprint {
        id: 3,
        ore_ore: 1,
        clay_ore: 1,
        obsidian_ore: 1,
        obsidian_clay: 1,
        geode_ore: 1,
        geode_obsidian: 1,
        max_ore: 1,
    };
    assert_eq!(cheap.maximal_geodes(5), 0);
    assert_eq!(cheap.maximal_geodes(6), 0);
    assert_eq!(cheap.maximal_geodes(7), 1);
    assert_eq!(cheap.best_from(State::default(7)), 1);
    assert_eq!(cheap.quality_level(7), 3);
}

#[test]
fn steps_of_the_search() {
    let b = Blueprint {
        id: 1,
        ore_ore: 4,
        clay_ore: 2,
        obsidian_ore: 3,
        obsidian_clay: 14,
        geode_ore: 2,
        geode_obsidian: 7,
        max_ore: 4,
    };
    let start = State::default(24);
    let ore = b.next_with_ore_robot(&start).unwrap();
    assert_eq!((ore.ore, ore.ore_robots, ore.time_remaining), (1, 2, 19));
    let clay = b.next_with_clay_robot(&start).unwrap();
    assert_eq!((clay.ore, clay.clay_robots, clay.time_remaining), (1, 1, 21));
    assert_eq!(b.next_with_obsidian_robot(&start), None);
    assert_eq!(b.next_with_geode_robot(&start), None);
    let stocked = State { ore: 5, clay: 20, obsidian: 3, clay_robots: 2, obsidian_robots: 2, ..clay };
    let obsidian = b.next_with_obsidian_robot(&stocked).unwrap();
    assert_eq!((obsidian.ore, obsidian.clay, obsidian.obsidian), (3, 8, 5));
    assert_eq!((obsidian.obsidian_robots, obsidian.time_remaining), (3, 20));
    let geode = b.next_with_geode_robot(&stocked).unwrap();
    assert_eq!((geode.ore, geode.obsidian, geode.geode, geode.geode_robots), (6, 2, 0, 1));
    assert_eq!(geode.time_remaining, 18);
    let late = State { time_remaining: 2, ..stocked };
    assert_eq!(b.next_with_geode_robot(&late), None);
    let enough = State { ore_robots: 4, ..start };
    assert_eq!(b.next_with_ore_robot(&enough), None);
    assert_eq!(minutes_until(7, 2), 4);
    assert_eq!(minutes_until(8, 2), 4);
    assert_eq!(minutes_until(0, 3), 0);
    assert_eq!(spare(7, 3), 4);
    assert_eq!(spare(3, 7), 0);
}

#[test]
fn blueprint_with_a_high_number_and_high_costs() {
    let cheap = Blueprint {
        id: 1_000_000,
        ore_ore: 1,
        clay_ore: 1,
        obsidian_ore: 1,
        obsidian_clay: 1,
        geode_ore: 1,
        geode_obsidian: 1,
        max_ore: 1,
    };
    assert_eq!(cheap.quality_level(5), cheap.maximal_geodes(5) * 1_000_000);
    let dear = Blueprint {
        id: 3,
        ore_ore: 5_000_000_000,
        clay_ore: 5_000_000_000,
        obsidian_ore: 5_000_000_000,
        obsidian_clay: 5_000_000_000,
        geode_ore: 5_000_000_000,
        geode_obsidian: 5_000_000_000,
        max_ore: 5_000_000_000,
    };
    assert_eq!(dear.maximal_geodes(24), 0);
    assert_eq!(dear.quality_level(2000), 0);
}
