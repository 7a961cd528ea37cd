use aoc2022::day17::chamber::{Chamber, Settlement};
use aoc2022::day17::cycle::{check_jets, copy_rows, key_of, same_rows, tower_height_after, JetError};
use aoc2022::day17::seal::{find_seal_row, is_blocked, is_clear_between, spread_row};
use aoc2022::day17::shape::{rock_shape, RockShape};

const EXAMPLE: &[u8] = b">>><<><>><<<>><>>><<<>>><<<><<<>><>><<>>";

fn row(cells: &str) -> [bool; 7] {
    let bytes = cells.as_bytes();
    assert_eq!(bytes.len(), 7);
    let mut out = [false; 7];
    for i in 0..7 {
        out[i] = bytes[i] == b'#';
    }
    out
}

fn chamber_of(rows_top_first: &[&str]) -> Chamber {
    let mut chamber = Chamber::new();
    for cells in rows_top_first.iter().rev() {
        chamber.rows.push(row(cells));
    }
    chamber
}

#[test]
fn example_height_after_2022_rocks() {
    let mut chamber = Chamber::new();
    assert_eq!(chamber.calc_height_after_rounds(EXAMPLE, 2022), 3068);
    assert_eq!(tower_height_after(EXAMPLE, 2022), Ok(3068));
}

#[test]
fn example_height_after_a_million_million_rocks() {
    let mut chamber = Chamber::new();
    assert_eq!(chamber.calc_height_after_rounds(EXAMPLE, 1_000_000_000_000), 1_514_285_714_288);
    assert_eq!(tower_height_after(EXAMPLE, 1_000_000_000_000), Ok(1_514_285_714_288));
}

#[test]
fn example_height_simulated_directly() {
    let mut chamber = Chamber::new();
    assert_eq!(chamber.calc_height_directly(EXAMPLE, 2022), 3068);
    assert_eq!(chamber.height(), 3068);
    assert_eq!(chamber.rows.len(), 3068);
    assert_eq!(chamber.elided, 0);
}

#[test]
fn no_rocks_no_tower() {
    let mut chamber = Chamber::new();
    assert_eq!(chamber.height(), 0);
    assert_eq!(chamber.calc_height_after_rounds(EXAMPLE, 0), 0);
    assert_eq!(Chamber::new().calc_height_directly(EXAMPLE, 0), 0);
    assert_eq!(tower_height_after(b"<", 0), Ok(0));
}

#[test]
fn one_rock_lies_flat_on_the_floor() {
    let mut chamber = Chamber::new();
    assert_eq!(chamber.calc_height_after_rounds(EXAMPLE, 1), 1);
    let mut direct = Chamber::new();
    assert_eq!(direct.calc_height_directly(EXAMPLE, 1), 1);
    assert_eq!(direct.rows, vec![row("..####.")]);
    assert_eq!(tower_height_after(b">", 1), Ok(1));
    assert_eq!(tower_height_after(b"<", 1), Ok(1));
}

#[test]
fn extrapolated_and_direct_heights_agree() {
    let jet_sets: [&[u8]; 6] = [EXAMPLE, b"<", b">", b"<>", b"<<>><", b"><<<>>><><"];
    for jets in jet_sets {
        for rounds in 0..260u64 {
            let fast = Chamber::new().calc_height_after_rounds(jets, rounds);
            let slow = Chamber::new().calc_height_directly(jets, rounds);
            assert_eq!(fast, slow);
        }
    }
}

#[test]
fn replay_gives_the_same_height() {
    let first = Chamber::new().calc_height_after_rounds(EXAMPLE, 500);
    let second = Chamber::new().calc_height_after_rounds(EXAMPLE, 500);
    assert_eq!(first, second);
    assert_eq!(first, Chamber::new().calc_height_directly(EXAMPLE, 500));
}

#[test]
fn discarding_rows_keeps_the_height() {
    let mut kept = Chamber::new();
    let mut whole = Chamber::new();
    let mut discarded_any = false;
    for i in 0..400u64 {
        let a = kept.simulate_single_rock(i, EXAMPLE);
        kept.discard_sealed_rows();
        let b = whole.simulate_single_rock(i, EXAMPLE);
        assert_eq!(a.height, b.height);
        assert_eq!(kept.height(), whole.height());
        assert_eq!(kept.jet_index, whole.jet_index);
        assert_eq!(kept.elided as usize + kept.rows.len(), whole.rows.len());
        assert_eq!(&whole.rows[kept.elided as usize..], &kept.rows[..]);
        discarded_any = discarded_any || kept.elided > 0;
    }
    assert!(discarded_any);
    assert!(kept.rows.len() < 60);
}

#[test]
fn tower_grows_by_the_same_amount_in_every_period() {
    let height = |n: u64| Chamber::new().calc_height_directly(EXAMPLE, n);
    for n in 28..80u64 {
        assert_eq!(height(n + 35) - height(n), 53);
    }
    assert_eq!(height(28 + 3 * 35 + 7), height(28 + 7) + 3 * 53);
}

#[test]
fn first_rocks_of_the_example() {
    let mut chamber = Chamber::new();
    let heights = [1u64, 4, 6, 7, 9, 10, 13, 15, 17, 17];
    for i in 0..10u64 {
        let outcome = chamber.simulate_single_rock(i, EXAMPLE);
        assert_eq!(outcome.height, heights[i as usize]);
        assert_eq!(outcome.completed_row, None);
    }
    let top_first = [
        "....#..", "....#..", "....##.", "##..##.", "######.", ".###...", "..#....", ".####..",
        "....##.", "....##.", "....#..", "..#.#..", "..#.#..", "#####..", "..###..", "...#...",
        "..####.",
    ];
    assert_eq!(chamber.rows, chamber_of(&top_first).rows);
}

#[test]
fn a_rock_that_completes_a_row_reports_it() {
    let mut chamber = chamber_of(&["###....", "###....", "#######"]);
    chamber.elided = 10;
    let outcome = chamber.simulate_single_rock(0, b">");
    assert_eq!(outcome, Settlement { completed_row: Some(11), height: 13 });
    assert_eq!(chamber.rows, chamber_of(&["###....", "#######", "#######"]).rows);
    let mut other = chamber_of(&["###....", "###....", "#######"]);
    let outcome = other.simulate_single_rock(0, b"<");
    assert_eq!(outcome, Settlement { completed_row: None, height: 4 });
    assert_eq!(other.rows, chamber_of(&["####...", "###....", "###....", "#######"]).rows);
}

#[test]
fn jets_are_counted_as_they_are_used() {
    let mut chamber = Chamber::new();
    chamber.simulate_single_rock(0, EXAMPLE);
    assert_eq!(chamber.jet_index, 4);
    chamber.simulate_single_rock(1, EXAMPLE);
    assert_eq!(chamber.jet_index, 8);
    let mut short = Chamber::new();
    short.simulate_single_rock(0, b"<<>");
    assert_eq!(short.jet_index, 4);
    assert_eq!(short.rows, vec![row("####...")]);
    let mut late = Chamber::new();
    late.jet_index = 7;
    late.simulate_single_rock(0, b"<<>");
    assert_eq!(late.jet_index, 11);
    assert_eq!(late.rows, vec![row("####...")]);
    let mut right = Chamber::new();
    right.jet_index = 2;
    right.simulate_single_rock(0, b"<<>");
    assert_eq!(right.jet_index, 6);
    assert_eq!(right.rows, vec![row("..####.")]);
}

#[test]
fn one_jet_is_used_again_and_again() {
    let mut chamber = Chamber::new();
    let outcome = chamber.simulate_single_rock(0, b">");
    assert_eq!(outcome, Settlement { completed_row: None, height: 1 });
    assert_eq!(chamber.rows, vec![row("...####")]);
    assert_eq!(chamber.jet_index, 4);
    chamber.simulate_single_rock(1, b">");
    assert_eq!(chamber.jet_index, 8);
    let mut deep = chamber_of(&["#......", "#......", "#......", "#......"]);
    let coord = deep.come_to_rest(&RockShape::Horizontal, b">");
    assert_eq!(coord, (3, 0));
    assert_eq!(deep.jet_index, 8);
}

#[test]
fn jets_that_cannot_be_counted() {
    let mut chamber = Chamber::new();
    chamber.jet_index = usize::MAX - 4;
    assert_eq!(chamber.try_height_after_rounds(EXAMPLE, 1), Some(1));
    assert_eq!(chamber.jet_index, usize::MAX);
    assert_eq!(chamber.try_height_after_rounds(EXAMPLE, 0), Some(1));
    assert_eq!(chamber.try_height_after_rounds(EXAMPLE, 1), None);
    let mut other = Chamber::new();
    other.jet_index = usize::MAX - 3;
    assert_eq!(other.try_height_after_rounds(EXAMPLE, 5), None);
    assert_eq!(other.try_height_after_rounds(EXAMPLE, 0), Some(0));
    let mut fresh = Chamber::new();
    assert_eq!(fresh.try_height_after_rounds(EXAMPLE, 2022), Some(3068));
}

#[test]
fn new_rock_appears_above_the_tower() {
    assert_eq!(Chamber::new().new_rock_coord(), (2, 3));
    assert_eq!(chamber_of(&["#......", "#......"]).new_rock_coord(), (2, 5));
}

#[test]
fn collisions() {
    let chamber = chamber_of(&["..#....", ".###...", "..#...."]);
    assert!(!chamber.would_collide(&RockShape::Horizontal, &(0, 3)));
    assert!(chamber.would_collide(&RockShape::Horizontal, &(0, 2)));
    assert!(!chamber.would_collide(&RockShape::Horizontal, &(3, 2)));
    assert!(chamber.would_collide(&RockShape::Horizontal, &(3, 1)));
    assert!(!chamber.would_collide(&RockShape::Vertical, &(0, 2)));
    assert!(!chamber.would_collide(&RockShape::Vertical, &(0, 0)));
    assert!(chamber.would_collide(&RockShape::Vertical, &(1, 0)));
    assert!(!chamber.would_collide(&RockShape::L, &(4, 0)));
    assert!(chamber.would_collide(&RockShape::L, &(1, 1)));
    assert!(!chamber.would_collide(&RockShape::Plus, &(3, 2)));
    assert!(!chamber.would_collide(&RockShape::Plus, &(2, 2)));
    assert!(chamber.would_collide(&RockShape::Plus, &(1, 2)));
    assert!(chamber.would_collide(&RockShape::Plus, &(2, 1)));
    assert!(chamber.would_collide(&RockShape::Square, &(2, 2)));
    assert!(!chamber.would_collide(&RockShape::Square, &(5, 0)));
}

#[test]
fn sideways_and_down() {
    let chamber = chamber_of(&["..#....", ".###...", "..#...."]);
    assert_eq!(chamber.try_left(&RockShape::Square, &(0, 5)), None);
    assert_eq!(chamber.try_left(&RockShape::Square, &(1, 5)), Some((0, 5)));
    assert_eq!(chamber.try_left(&RockShape::Square, &(4, 1)), None);
    assert_eq!(chamber.try_left(&RockShape::Square, &(4, 0)), None);
    assert_eq!(chamber.try_left(&RockShape::Square, &(5, 0)), Some((4, 0)));
    assert_eq!(chamber.try_right(&RockShape::Square, &(5, 5)), None);
    assert_eq!(chamber.try_right(&RockShape::Square, &(4, 5)), Some((5, 5)));
    assert_eq!(chamber.try_right(&RockShape::Horizontal, &(3, 0)), None);
    assert_eq!(chamber.try_right(&RockShape::Horizontal, &(2, 3)), Some((3, 3)));
    assert_eq!(chamber.try_right(&RockShape::Vertical, &(0, 0)), None);
    assert_eq!(chamber.try_right(&RockShape::Vertical, &(3, 2)), Some((4, 2)));
    assert_eq!(chamber.try_right(&RockShape::Vertical, &(0, 2)), Some((1, 2)));
    assert_eq!(chamber.try_right(&RockShape::Vertical, &(0, 1)), None);
    assert_eq!(chamber.try_right(&RockShape::Vertical, &(6, 4)), None);
    assert_eq!(chamber.try_down(&RockShape::Square, &(5, 0)), None);
    assert_eq!(chamber.try_down(&RockShape::Square, &(5, 1)), Some((5, 0)));
    assert_eq!(chamber.try_down(&RockShape::Square, &(1, 3)), None);
    assert_eq!(chamber.try_down(&RockShape::Square, &(1, 4)), Some((1, 3)));
}

#[test]
fn settling_writes_the_cells() {
    let mut chamber = chamber_of(&["#......"]);
    chamber.settle(&RockShape::Plus, &(1, 0));
    assert_eq!(chamber.rows, chamber_of(&["..#....", ".###...", "#.#...."]).rows);
    chamber.settle(&RockShape::L, &(4, 2));
    assert_eq!(
        chamber.rows,
        chamber_of(&["......#", "......#", "..#.###", ".###...", "#.#...."]).rows
    );
    chamber.settle(&RockShape::Vertical, &(0, 1));
    chamber.settle(&RockShape::Square, &(3, 3));
    chamber.settle(&RockShape::Horizontal, &(0, 5));
    assert_eq!(
        chamber.rows,
        chamber_of(&["####...", "#..##.#", "#..##.#", "#.#.###", "####...", "#.#...."]).rows
    );
    assert_eq!(chamber.jet_index, 0);
    assert_eq!(chamber.elided, 0);
}

#[test]
fn full_rows() {
    let chamber = chamber_of(&["#######", "###.###", "#######", "......."]);
    assert!(!chamber.row_is_full(0));
    assert!(chamber.row_is_full(1));
    assert!(!chamber.row_is_full(2));
    assert!(chamber.row_is_full(3));
    assert_eq!(chamber.highest_full_row(0, 4), Some(3));
    assert_eq!(chamber.highest_full_row(0, 3), Some(1));
    assert_eq!(chamber.highest_full_row(2, 3), None);
    assert_eq!(chamber.highest_full_row(0, 1), None);
    assert_eq!(chamber.highest_full_row(2, 2), None);
}

#[test]
fn shapes() {
    assert_eq!(rock_shape(0), RockShape::Horizontal);
    assert_eq!(rock_shape(1), RockShape::Plus);
    assert_eq!(rock_shape(2), RockShape::L);
    assert_eq!(rock_shape(3), RockShape::Vertical);
    assert_eq!(rock_shape(4), RockShape::Square);
    assert_eq!(rock_shape(5), RockShape::Horizontal);
    assert_eq!(rock_shape(1_000_000_000_003), RockShape::Vertical);
    assert_eq!(RockShape::Horizontal.width(), 4);
    assert_eq!(RockShape::Plus.width(), 3);
    assert_eq!(RockShape::L.width(), 3);
    assert_eq!(RockShape::Vertical.width(), 1);
    assert_eq!(RockShape::Square.width(), 2);
    assert_eq!(RockShape::Horizontal.blocks().to_vec(), vec![[true, true, true, true]]);
    assert_eq!(
        RockShape::L.blocks().to_vec(),
        vec![[false, false, true, false], [false, false, true, false], [true, true, true, false]]
    );
    assert_eq!(RockShape::Plus.blocks().len(), 3);
    assert_eq!(RockShape::Vertical.blocks().len(), 4);
    assert_eq!(RockShape::Square.blocks().to_vec(), vec![[true, true, false, false]; 2]);
}

#[test]
fn cells_that_can_be_entered() {
    let open = [true; 7];
    assert_eq!(spread_row(&row("..#...."), &open), row("##.####").map(|b| b));
    let above = row("#......");
    assert_eq!(spread_row(&row("..#...."), &above), row("##....."));
    assert_eq!(spread_row(&row("#.#...."), &above), row("......."));
    assert_eq!(spread_row(&row("......."), &row("......#")), row("#######"));
    assert!(is_blocked(&row(".......")));
    assert!(!is_blocked(&row("......#")));
    assert!(is_clear_between(&row("#..#..#"), 1, 2));
    assert!(is_clear_between(&row("#..#..#"), 5, 4));
    assert!(!is_clear_between(&row("#..#..#"), 2, 4));
    assert!(!is_clear_between(&row("#..#..#"), 3, 3));
    assert!(!is_clear_between(&row("#..#..#"), 1, 0));
}

#[test]
fn seal_rows() {
    assert_eq!(find_seal_row(&Vec::new()), 0);
    assert_eq!(find_seal_row(&chamber_of(&["#######"]).rows), 0);
    assert_eq!(find_seal_row(&chamber_of(&["..#....", "#######", "..#...."]).rows), 1);
    assert_eq!(find_seal_row(&chamber_of(&["####...", "...####", "......."]).rows), 1);
    assert_eq!(find_seal_row(&chamber_of(&["####...", "....###", "......."]).rows), 1);
    assert_eq!(find_seal_row(&chamber_of(&["###....", "....###", "......."]).rows), 0);
    assert_eq!(find_seal_row(&chamber_of(&["###....", "....###", "..###..", "#......"]).rows), 0);
    assert_eq!(find_seal_row(&chamber_of(&["###....", "....###", "..####.", "#.....#"]).rows), 0);
    assert_eq!(find_seal_row(&chamber_of(&["###....", "....###", "######.", "#.....#"]).rows), 1);
    assert_eq!(
        find_seal_row(&chamber_of(&["#......", "#######", ".......", "#######", "......."]).rows),
        3
    );
}

#[test]
fn discarding_keeps_the_rows_from_the_seal_up() {
    let mut chamber = chamber_of(&["#......", "####...", "...####", ".#.#.#."]);
    chamber.elided = 5;
    chamber.jet_index = 3;
    chamber.discard_sealed_rows();
    assert_eq!(chamber.rows, chamber_of(&["#......", "####...", "...####"]).rows);
    assert_eq!(chamber.elided, 6);
    assert_eq!(chamber.jet_index, 3);
    assert_eq!(chamber.height(), 9);
    chamber.discard_sealed_rows();
    assert_eq!(chamber.rows.len(), 3);
    assert_eq!(chamber.elided, 6);
}

#[test]
fn rows_are_copied_and_compared() {
    let rows = chamber_of(&["#......", "####..."]).rows;
    let copy = copy_rows(&rows);
    assert_eq!(copy, rows);
    assert!(same_rows(&rows, &copy));
    assert!(!same_rows(&rows, &chamber_of(&["#......", "####..#"]).rows));
    assert!(!same_rows(&rows, &chamber_of(&["#......"]).rows));
    assert!(same_rows(&Vec::new(), &Vec::new()));
    assert_eq!(key_of(7, 3), 17);
    assert_eq!(key_of(10, 0), 0);
}

#[test]
fn jets_are_checked() {
    assert_eq!(check_jets(EXAMPLE), Ok(()));
    assert_eq!(check_jets(b""), Err(JetError::Empty));
    assert_eq!(check_jets(b"<<>x>"), Err(JetError::Unrecognized { index: 3, byte: b'x' }));
    assert_eq!(check_jets(b"<>\n"), Err(JetError::Unrecognized { index: 2, byte: b'\n' }));
    assert_eq!(tower_height_after(b"", 5), Err(JetError::Empty));
    assert_eq!(tower_height_after(b"^", 5), Err(JetError::Unrecognized { index: 0, byte: b'^' }));
    assert_eq!(tower_height_after(b"<", u64::MAX), Err(JetError::TooManyRounds));
    assert_eq!(tower_height_after(b"<", 2), Ok(4));
    assert_eq!(tower_height_after(b"<", 3), Ok(7));
}
