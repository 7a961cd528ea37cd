use aoc2022::day09::{
    count_visited, follow_knot, note, pull, pull_along, read_motion, shift_knot, Heading, Knot,
    Motion,
};

fn motions(list: &[(Heading, u32)]) -> Vec<Motion> {
    list.iter().map(|&(heading, steps)| Motion { heading, steps }).collect()
}

#[test]
fn knot_follows_only_when_out_of_touch() {
    assert_eq!(follow_knot((1, 1), (0, 0)), (0, 0));
    assert_eq!(follow_knot((0, 0), (0, 0)), (0, 0));
    assert_eq!(follow_knot((-1, 1), (0, 0)), (0, 0));
    assert_eq!(follow_knot((2, 0), (0, 0)), (1, 0));
    assert_eq!(follow_knot((0, -2), (0, 0)), (0, -1));
    assert_eq!(follow_knot((2, 1), (0, 0)), (1, 1));
    assert_eq!(follow_knot((-1, -2), (0, 0)), (-1, -1));
    assert_eq!(follow_knot((2, 2), (0, 0)), (1, 1));
    assert_eq!(follow_knot((5, 7), (7, 5)), (6, 6));
}

#[test]
fn knot_is_shifted_one_place() {
    assert_eq!(shift_knot((3, 4), Heading::Left), Some((2, 4)));
    assert_eq!(shift_knot((3, 4), Heading::Right), Some((4, 4)));
    assert_eq!(shift_knot((3, 4), Heading::Up), Some((3, 3)));
    assert_eq!(shift_knot((3, 4), Heading::Down), Some((3, 5)));
    assert_eq!(shift_knot((i64::MIN, 0), Heading::Left), None);
    assert_eq!(shift_knot((i64::MAX, 0), Heading::Right), None);
    assert_eq!(shift_knot((0, i64::MIN), Heading::Up), None);
    assert_eq!(shift_knot((0, i64::MAX), Heading::Down), None);
    assert_eq!(shift_knot((i64::MIN, 0), Heading::Right), Some((i64::MIN + 1, 0)));
}

#[test]
fn pull_moves_the_head_and_lets_the_rest_follow() {
    let mut knots: [Knot; 10] = [(0, 0); 10];
    assert!(pull(&mut knots, Heading::Right));
    assert_eq!(knots[0], (1, 0));
    assert_eq!(knots[1], (0, 0));
    assert!(pull(&mut knots, Heading::Right));
    assert_eq!(knots[0], (2, 0));
    assert_eq!(knots[1], (1, 0));
    assert_eq!(knots[2], (0, 0));
    assert!(pull(&mut knots, Heading::Right));
    assert!(pull(&mut knots, Heading::Up));
    assert!(pull(&mut knots, Heading::Up));
    assert_eq!(
        knots,
        [(3, -2), (3, -1), (2, -1), (1, -1), (0, 0), (0, 0), (0, 0), (0, 0), (0, 0), (0, 0)]
    );
}

#[test]
fn pull_beyond_the_integers_leaves_the_rope() {
    let mut knots: [Knot; 10] = [(i64::MAX, 5); 10];
    assert!(!pull(&mut knots, Heading::Right));
    assert_eq!(knots, [(i64::MAX, 5); 10]);
    assert!(pull(&mut knots, Heading::Left));
    assert_eq!(knots[0], (i64::MAX - 1, 5));
}

#[test]
fn place_is_noted_once() {
    let mut seen: Vec<Knot> = vec![];
    note(&mut seen, (1, 2));
    note(&mut seen, (2, 1));
    note(&mut seen, (1, 2));
    assert_eq!(seen, vec![(1, 2), (2, 1)]);
}

#[test]
fn motion_is_carried_out_pull_by_pull() {
    let mut knots: [Knot; 10] = [(0, 0); 10];
    let mut second: Vec<Knot> = vec![(0, 0)];
    let mut last: Vec<Knot> = vec![(0, 0)];
    assert!(pull_along(&mut knots, &mut second, &mut last, Motion { heading: Heading::Right, steps: 10 }));
    assert_eq!(
        knots,
        [(10, 0), (9, 0), (8, 0), (7, 0), (6, 0), (5, 0), (4, 0), (3, 0), (2, 0), (1, 0)]
    );
    assert_eq!(second.len(), 10);
    assert_eq!(last, vec![(0, 0), (1, 0)]);
    assert!(pull_along(&mut knots, &mut second, &mut last, Motion { heading: Heading::Down, steps: 0 }));
    assert_eq!(knots[0], (10, 0));
}

#[test]
fn short_rope_example() {
    let list = motions(&[
        (Heading::Right, 4),
        (Heading::Up, 4),
        (Heading::Left, 3),
        (Heading::Down, 1),
        (Heading::Right, 4),
        (Heading::Down, 1),
        (Heading::Left, 5),
        (Heading::Right, 2),
    ]);
    assert_eq!(count_visited(&list), Some((13, 1)));
}

#[test]
fn long_rope_example() {
    let list = motions(&[
        (Heading::Right, 5),
        (Heading::Up, 8),
        (Heading::Left, 8),
        (Heading::Down, 3),
        (Heading::Right, 17),
        (Heading::Down, 10),
        (Heading::Left, 25),
        (Heading::Up, 20),
    ]);
    assert_eq!(count_visited(&list), Some((88, 36)));
}

#[test]
fn rope_that_does_not_move() {
    assert_eq!(count_visited(&vec![]), Some((1, 1)));
    assert_eq!(count_visited(&motions(&[(Heading::Left, 0)])), Some((1, 1)));
    assert_eq!(count_visited(&motions(&[(Heading::Left, 1)])), Some((1, 1)));
    assert_eq!(count_visited(&motions(&[(Heading::Left, 2)])), Some((2, 1)));
    assert_eq!(count_visited(&motions(&[(Heading::Right, 3), (Heading::Up, 2)])), Some((4, 1)));
}

#[test]
fn motion_is_read_from_a_line() {
    assert_eq!(read_motion(b"R 4"), Some(Motion { heading: Heading::Right, steps: 4 }));
    assert_eq!(read_motion(b"L 25"), Some(Motion { heading: Heading::Left, steps: 25 }));
    assert_eq!(read_motion(b"U 0"), Some(Motion { heading: Heading::Up, steps: 0 }));
    assert_eq!(read_motion(b"D 4294967295"), Some(Motion { heading: Heading::Down, steps: u32::MAX }));
    assert_eq!(read_motion(b"D 4294967296"), None);
    assert_eq!(read_motion(b"X 4"), None);
    assert_eq!(read_motion(b"R4"), None);
    assert_eq!(read_motion(b"R  4"), None);
    assert_eq!(read_motion(b"R -4"), None);
    assert_eq!(read_motion(b"R "), None);
    assert_eq!(read_motion(b"R"), None);
    assert_eq!(read_motion(b""), None);
    assert_eq!(read_motion(b"RR 4"), None);
}
