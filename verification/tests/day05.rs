use aoc2022::day05::{
    find_space, move_one_by_one, move_together, read_step, tops_of_stacks, ProcStep,
};
use aoc2022::text::copy_part;
use aoc2022::day22::{parse_instructions, read_instructions, Instruction, Rotation};

fn stacks() -> Vec<Vec<char>> {
    vec![vec!['Z', 'N'], vec!['M', 'C', 'D'], vec!['P']]
}

#[test]
fn steps_are_read() {
    assert_eq!(ProcStep::parse("move 1 from 2 to 1"), ProcStep { num: 1, from: 2, to: 1 });
    assert_eq!(ProcStep::parse("move 13 from 9 to 10"), ProcStep { num: 13, from: 9, to: 10 });
    assert_eq!(ProcStep::parse("a +7 b 8 c 9"), ProcStep { num: 7, from: 8, to: 9 });
    assert_eq!(ProcStep::parse(" 7  8  9"), ProcStep { num: 7, from: 8, to: 9 });
    assert_eq!(read_step(b"move 1 from 2 to 1"), Some(ProcStep { num: 1, from: 2, to: 1 }));
    assert_eq!(read_step(b"move 1 from 2 to"), None);
    assert_eq!(read_step(b"move 1 from 2 to "), None);
    assert_eq!(read_step(b"move 1 from 2 to 1 "), None);
    assert_eq!(read_step(b"move 1 from 2 to 1 2"), None);
    assert_eq!(read_step(b"move one from 2 to 1"), None);
    assert_eq!(read_step(b"move 1 from -2 to 1"), None);
    assert_eq!(read_step(b"move  1 from 2 to 1"), None);
    assert_eq!(read_step(b""), None);
    assert_eq!(find_space(b"ab cd e", 0), 2);
    assert_eq!(find_space(b"ab cd e", 2), 2);
    assert_eq!(find_space(b"ab cd e", 3), 5);
    assert_eq!(find_space(b"ab cd e", 6), 7);
    assert_eq!(find_space(b"ab cd e", 7), 7);
    assert_eq!(copy_part(b"ab cd e", 3, 5), b"cd".to_vec());
    assert_eq!(copy_part(b"ab cd e", 3, 3), Vec::<u8>::new());
}

#[test]
fn crates_one_by_one() {
    let mut s = stacks();
    for step in ["move 1 from 2 to 1", "move 3 from 1 to 3", "move 2 from 2 to 1", "move 1 from 1 to 2"]
    {
        move_one_by_one(&mut s, &ProcStep::parse(step));
    }
    assert_eq!(s, vec![vec!['C'], vec!['M'], vec!['P', 'D', 'N', 'Z']]);
    assert_eq!(tops_of_stacks(&s), vec!['C', 'M', 'Z']);
}

#[test]
fn crates_together() {
    let mut s = stacks();
    for step in ["move 1 from 2 to 1", "move 3 from 1 to 3", "move 2 from 2 to 1", "move 1 from 1 to 2"]
    {
        move_together(&mut s, &ProcStep::parse(step));
    }
    assert_eq!(s, vec![vec!['M'], vec!['C'], vec!['P', 'Z', 'N', 'D']]);
    assert_eq!(tops_of_stacks(&s), vec!['M', 'C', 'D']);
    move_together(&mut s, &ProcStep { num: 0, from: 3, to: 1 });
    assert_eq!(s, vec![vec!['M'], vec!['C'], vec!['P', 'Z', 'N', 'D']]);
}

#[test]
fn instructions_are_read() {
    let left = Instruction::Turn(Rotation::Left);
    let right = Instruction::Turn(Rotation::Right);
    let walk = Instruction::Advance;
    assert_eq!(
        parse_instructions("10R5L5R10L4R5L5"),
        vec![
            walk(10),
            right,
            walk(5),
            left,
            walk(5),
            right,
            walk(10),
            left,
            walk(4),
            right,
            walk(5),
            left,
            walk(5)
        ]
    );
    assert_eq!(parse_instructions(""), Vec::new());
    assert_eq!(parse_instructions("7"), vec![walk(7)]);
    assert_eq!(parse_instructions("LLR"), vec![left, left, right]);
    assert_eq!(parse_instructions("R007L"), vec![right, walk(7), left]);
    assert_eq!(read_instructions(b"12L3"), Some(vec![walk(12), left, walk(3)]));
    assert_eq!(read_instructions(b"12X3"), None);
    assert_eq!(read_instructions(b"12L3 "), None);
    assert_eq!(read_instructions(b"1-2L3"), None);
    assert_eq!(read_instructions(b"99999999999999999999999R"), None);
}
