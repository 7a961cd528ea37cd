use aoc2022::day22::input::{parse_input, read_last_line, read_rows, seek_next, tile_at, widest_row};
use aoc2022::day22::{Agent, Direction, Instruction, Rotation};

const EXAMPLE: &str = "        ...#
        .#..
        #...
        ....
...#.......#
........#...
..#....#....
..........#.
        ...#....
        .....#..
        .#......
        ......#.

10R5L5R10L4R5L5
";

#[test]
fn the_walk_of_the_example() {
    let (mut agent, map, instructions) = parse_input(EXAMPLE).unwrap();
    assert_eq!(agent, Agent { position: (8, 0), direction: Direction::East });
    assert_eq!(instructions.len(), 13);
    assert_eq!(map.rows.len(), 12);
    assert!(map.rows.iter().all(|row| row.len() == 16));
    for instr in &instructions {
        match instr {
            Instruction::Advance(n) => agent.advance(*n, &map),
            Instruction::Turn(rot) => agent.turn(rot),
        }
    }
    assert_eq!(agent, Agent { position: (7, 5), direction: Direction::East });
    assert_eq!(agent.password_score(), 6032);
}

#[test]
fn tiles_are_joined_round_the_edges() {
    let (_, map, _) = parse_input(EXAMPLE).unwrap();
    let cell = |x: usize, y: usize| map.get(&(x, y));
    assert_eq!(cell(0, 0), None);
    assert_eq!(cell(11, 0), None);
    assert_eq!(cell(12, 0), None);
    let start = cell(8, 0).unwrap();
    assert_eq!(start.east, Some(((9, 0), Rotation::Nothing)));
    assert_eq!(start.west, None);
    assert_eq!(start.south, Some(((8, 1), Rotation::Nothing)));
    assert_eq!(start.north, Some(((8, 11), Rotation::Nothing)));
    let edge = cell(0, 4).unwrap();
    assert_eq!(edge.west, None);
    assert_eq!(edge.north, Some(((0, 7), Rotation::Nothing)));
    assert_eq!(edge.south, Some(((0, 5), Rotation::Nothing)));
    let right = cell(11, 5).unwrap();
    assert_eq!(right.east, Some(((0, 5), Rotation::Nothing)));
    let low = cell(5, 7).unwrap();
    assert_eq!(low.south, Some(((5, 4), Rotation::Nothing)));
    let corner = cell(15, 8).unwrap();
    assert_eq!(corner.east, Some(((8, 8), Rotation::Nothing)));
    assert_eq!(corner.north, Some(((15, 11), Rotation::Nothing)));
}

#[test]
fn small_boards() {
    let (agent, map, instructions) = parse_input(".\n\n").unwrap();
    assert_eq!(agent.position, (0, 0));
    let only = map.get(&(0, 0)).unwrap();
    assert_eq!(only.east, Some(((0, 0), Rotation::Nothing)));
    assert_eq!(only.north, Some(((0, 0), Rotation::Nothing)));
    assert!(instructions.is_empty());
    let (agent, map, instructions) = parse_input("#.\n .\n\nL3").unwrap();
    assert_eq!(agent.position, (1, 0));
    assert_eq!(map.get(&(0, 0)), None);
    assert_eq!(map.get(&(1, 0)).unwrap().west, None);
    assert_eq!(map.get(&(1, 1)).unwrap().west, Some(((1, 1), Rotation::Nothing)));
    assert_eq!(map.get(&(1, 1)).unwrap().south, Some(((1, 0), Rotation::Nothing)));
    assert_eq!(instructions, vec![Instruction::Turn(Rotation::Left), Instruction::Advance(3)]);
    let (agent, map, _) = parse_input("##\n\n1").unwrap();
    assert_eq!(agent.position, (0, 0));
    assert_eq!(map.get(&(0, 0)), None);
    assert!(parse_input("").is_none());
    assert!(parse_input("..\n\nx").is_none());
    assert!(parse_input("..\n..").is_none());
    let (_, none, walk) = parse_input("5R").unwrap();
    assert_eq!(none.rows.len(), 1);
    assert_eq!(walk.len(), 2);
}

#[test]
fn rows_and_lines() {
    let rows = read_rows(b"ab\nc\n\nd\n");
    assert_eq!(rows, vec![b"ab".to_vec(), b"c".to_vec()]);
    assert_eq!(read_rows(b"\nab"), Vec::<Vec<u8>>::new());
    assert_eq!(read_rows(b"ab"), vec![b"ab".to_vec()]);
    assert_eq!(widest_row(&rows), 2);
    assert_eq!(tile_at(&rows, 1, 0), b'b');
    assert_eq!(tile_at(&rows, 1, 1), b' ');
    assert_eq!(tile_at(&rows, 0, 2), b' ');
    assert_eq!(read_last_line(b"ab\nc\n\nd\n"), b"d".to_vec());
    assert_eq!(read_last_line(b"ab\nc\n\nd"), b"d".to_vec());
    assert_eq!(read_last_line(b"ab\n\n"), Vec::<u8>::new());
    assert_eq!(read_last_line(b"ab"), b"ab".to_vec());
    assert_eq!(read_last_line(b""), Vec::<u8>::new());
    let drawn = vec![b". .#.".to_vec()];
    assert_eq!(seek_next(&drawn, 0, 0, 1, 0, 5, 1, 5), Some(((2, 0), Rotation::Nothing)));
    assert_eq!(seek_next(&drawn, 2, 0, 1, 0, 5, 1, 5), None);
    assert_eq!(seek_next(&drawn, 0, 0, 4, 0, 5, 1, 5), Some(((4, 0), Rotation::Nothing)));
    assert_eq!(seek_next(&drawn, 0, 0, 1, 0, 5, 1, 1), None);
}

#[test]
fn instructions_are_followed_in_their_order() {
    let (start, map, instructions) = parse_input(EXAMPLE).unwrap();
    let mut agent = start;
    agent.follow(&instructions, &map);
    assert_eq!(agent.position, (7, 5));
    assert_eq!(agent.direction, Direction::East);
    assert_eq!(agent.password_score(), 6032);
    let mut agent = start;
    agent.follow(&vec![], &map);
    assert_eq!(agent, start);
    let mut agent = start;
    agent.follow(&instructions[..3].to_vec(), &map);
    assert_eq!((agent.position, agent.direction), ((10, 5), Direction::South));
}
