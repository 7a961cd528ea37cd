use aoc2022::day10::program::{
    can_execute, execute, read_instruction, run, screen_rows, Instruction,
};
use aoc2022::day10::CPU;

#[test]
fn instructions_are_read_from_lines() {
    assert_eq!(read_instruction(b"noop"), Some(Instruction::Noop));
    assert_eq!(read_instruction(b"addx 3"), Some(Instruction::Addx(3)));
    assert_eq!(read_instruction(b"addx -5"), Some(Instruction::Addx(-5)));
    assert_eq!(read_instruction(b"addx +7"), Some(Instruction::Addx(7)));
    assert_eq!(read_instruction(b"addx 2147483647"), Some(Instruction::Addx(i32::MAX)));
    assert_eq!(read_instruction(b"addx -2147483648"), Some(Instruction::Addx(i32::MIN)));
    assert_eq!(read_instruction(b"move 12"), Some(Instruction::Addx(12)));
}

#[test]
fn lines_that_are_no_instructions_are_refused() {
    assert_eq!(read_instruction(b""), None);
    assert_eq!(read_instruction(b"nop"), None);
    assert_eq!(read_instruction(b"noop "), None);
    assert_eq!(read_instruction(b"addx"), None);
    assert_eq!(read_instruction(b"addx "), None);
    assert_eq!(read_instruction(b"addx x"), None);
    assert_eq!(read_instruction(b"addx 2147483648"), None);
    assert_eq!(read_instruction(b"addx -2147483649"), None);
    assert_eq!(read_instruction(b"addx 3 "), None);
}

#[test]
fn short_program_is_carried_out() {
    let program = vec![Instruction::Noop, Instruction::Addx(3), Instruction::Addx(-5)];
    let mut cpu = CPU::new();
    assert_eq!(run(&mut cpu, &program), 3);
    assert_eq!((cpu.x, cpu.cycle, cpu.signal_strength), (-1, 5, 0));
    assert_eq!(&cpu.screen[0][..6], &[true, true, true, true, true, false]);
}

#[test]
fn signal_is_taken_in_the_middle_of_each_line() {
    let mut program = vec![Instruction::Addx(2)];
    program.extend(vec![Instruction::Noop; 18]);
    let mut cpu = CPU::new();
    assert_eq!(run(&mut cpu, &program), 19);
    assert_eq!((cpu.x, cpu.cycle, cpu.signal_strength), (3, 20, 60));
    program.extend(vec![Instruction::Noop; 39]);
    program.push(Instruction::Addx(-4));
    let mut cpu = CPU::new();
    assert_eq!(run(&mut cpu, &program), 59);
    assert_eq!((cpu.x, cpu.cycle, cpu.signal_strength), (-1, 61, 60 + 3 * 60));
}

#[test]
fn program_stops_where_the_screen_ends() {
    let program = vec![Instruction::Noop; 250];
    let mut cpu = CPU::new();
    assert_eq!(run(&mut cpu, &program), 240);
    assert_eq!(cpu.cycle, 240);
    assert!(!can_execute(&cpu, &Instruction::Noop));
    let mut cpu = CPU::new();
    let mut program = vec![Instruction::Noop; 239];
    program.push(Instruction::Addx(1));
    assert_eq!(run(&mut cpu, &program), 239);
    assert_eq!((cpu.x, cpu.cycle), (1, 239));
    assert!(can_execute(&cpu, &Instruction::Noop));
    assert!(!can_execute(&cpu, &Instruction::Addx(1)));
}

#[test]
fn program_stops_before_the_register_overflows() {
    let program = vec![Instruction::Addx(i32::MAX), Instruction::Noop];
    let mut cpu = CPU::new();
    assert_eq!(run(&mut cpu, &program), 0);
    assert_eq!(cpu, CPU::new());
    let program = vec![Instruction::Addx(i32::MAX - 1), Instruction::Addx(-5), Instruction::Addx(6)];
    let mut cpu = CPU::new();
    assert_eq!(run(&mut cpu, &program), 2);
    assert_eq!((cpu.x, cpu.cycle), (i32::MAX - 5, 4));
    assert!(!can_execute(&cpu, &Instruction::Addx(6)));
    assert!(can_execute(&cpu, &Instruction::Addx(5)));
}

#[test]
fn program_stops_before_the_signal_overflows() {
    let mut program = vec![Instruction::Addx(i32::MAX / 2)];
    program.extend(vec![Instruction::Noop; 30]);
    let mut cpu = CPU::new();
    assert_eq!(run(&mut cpu, &program), 18);
    assert_eq!((cpu.cycle, cpu.signal_strength), (19, 0));
    let mut program = vec![Instruction::Addx(99_999_999)];
    program.extend(vec![Instruction::Noop; 60]);
    let mut cpu = CPU::new();
    assert_eq!(run(&mut cpu, &program), 58);
    assert_eq!((cpu.cycle, cpu.signal_strength), (59, 2_000_000_000));
}

#[test]
fn one_instruction_at_a_time() {
    let mut cpu = CPU::new();
    assert!(can_execute(&cpu, &Instruction::Addx(10)));
    execute(&mut cpu, &Instruction::Addx(10));
    assert_eq!((cpu.x, cpu.cycle), (11, 2));
    execute(&mut cpu, &Instruction::Noop);
    assert_eq!((cpu.x, cpu.cycle), (11, 3));
    assert_eq!(&cpu.screen[0][..4], &[true, true, false, false]);
}

#[test]
fn screen_is_given_as_text() {
    let mut cpu = CPU::new();
    let blank = screen_rows(&cpu);
    assert_eq!(blank, vec![vec![b'.'; 40]; 6]);
    let program = vec![Instruction::Noop, Instruction::Addx(3), Instruction::Addx(-5)];
    run(&mut cpu, &program);
    let rows = screen_rows(&cpu);
    assert_eq!(&rows[0][..8], b"#####...");
    assert_eq!(rows[1], vec![b'.'; 40]);
}
