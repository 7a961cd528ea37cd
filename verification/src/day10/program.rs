//! Programs for the processor: instructions read from text and carried
//! out one after another, and the screen as text.

use vstd::prelude::*;
use crate::day10::CPU;
use crate::text::{copy_part, parse_isize, signed_value};

verus! {

#[derive(Debug, Clone, Copy, PartialEq, Eq)]
pub enum Instruction {
    Noop,
    Addx(i32),
}

/// The instruction that a line stands for: nothing to do for `noop`, and
/// else to add the number that follows the first five bytes.
pub open spec fn instruction_of(line: Seq<u8>) -> Option<Instruction> {
    if line == seq![110u8, 111u8, 111u8, 112u8] {
        Some(Instruction::Noop)
    } else if line.len() < 5 {
        None
    } else {
        match signed_value(line.subrange(5, line.len() as int)) {
            Some(v) => if i32::MIN <= v <= i32::MAX {
                Some(Instruction::Addx(v as i32))
            } else {
                None
            },
            None => None,
        }
    }
}

/// The instruction that the bytes of a line stand for, if they stand for
/// one.
pub fn read_instruction(line: &[u8]) -> (instruction: Option<Instruction>)
    ensures
        instruction == instruction_of(line@),
{
    if line.len() == 4 && line[0] == 110 && line[1] == 111 && line[2] == 111 && line[3] == 112 {
        assert(line@ =~= seq![110u8, 111u8, 111u8, 112u8]);
        return Some(Instruction::Noop);
    }
    if line.len() < 5 {
        return None;
    }
    match parse_isize(copy_part(line, 5, line.len()).as_slice()) {
        Some(v) => if -0x8000_0000 <= v && v <= 0x7fff_ffff {
            Some(Instruction::Addx(v as i32))
        } else {
            None
        },
        None => None,
    }
}

/// Whether the processor can carry the instruction out: the beam stays on
/// the screen, and the signal strength and the register fit.
pub open spec fn can_do(cpu: CPU, instruction: Instruction) -> bool {
    match instruction {
        Instruction::Noop => cpu.can_tick(),
        Instruction::Addx(v) => {
            &&& cpu.can_tick()
            &&& cpu.cycle < 239
            &&& (cpu.cycle + 2) % 40 == 20 ==> i32::MIN <= cpu.x * (cpu.cycle + 2) <= i32::MAX
            &&& i32::MIN <= cpu.next_signal() + (if (cpu.cycle + 2) % 40 == 20 {
                cpu.x * (cpu.cycle + 2)
            } else {
                0
            }) <= i32::MAX
            &&& i32::MIN <= cpu.x + v <= i32::MAX
        },
    }
}

/// Whether `after` is what the instruction makes of `before`: one cycle
/// for `noop`; for `addx` two cycles, and then the number is added to the
/// register.
pub open spec fn does(before: CPU, instruction: Instruction, after: CPU) -> bool {
    match instruction {
        Instruction::Noop => after.follows(&before),
        Instruction::Addx(v) => exists|between: CPU|
            #[trigger] between.follows(&before) && after.cycle == between.cycle + 1
                && after.signal_strength == between.next_signal() && after.x == before.x + v && (CPU {
                x: before.x,
                ..after
            }).follows(&between),
    }
}

/// Whether `end` is what the instructions, carried out in their order,
/// make of `start`.
pub open spec fn runs(start: CPU, program: Seq<Instruction>, end: CPU) -> bool
    decreases program.len(),
{
    if program.len() == 0 {
        end == start
    } else {
        exists|mid: CPU|
            runs(start, program.drop_last(), mid) && can_do(mid, program.last()) && #[trigger] does(
                mid,
                program.last(),
                end,
            )
    }
}

/// Whether the processor can carry the instruction out.
pub fn can_execute(cpu: &CPU, instruction: &Instruction) -> (yes: bool)
    ensures
        yes == can_do(*cpu, *instruction),
{
    if cpu.cycle < 0 || cpu.cycle >= 240 {
        return false;
    }
    let x = cpu.x as i64;
    let cycle = cpu.cycle as i64;
    assert(-0x8000_0000 * 242 <= x * (cycle + 1) <= 0x8000_0000 * 242 && -0x8000_0000 * 242 <= x * (
    cycle + 2) <= 0x8000_0000 * 242) by (nonlinear_arith)
        requires
            -0x8000_0000 <= x <= 0x7fff_ffff,
            0 <= cycle < 240,
    ;
    let first = x * (cycle + 1);
    let signal = if (cycle + 1) % 40 == 20 {
        cpu.signal_strength as i64 + first
    } else {
        cpu.signal_strength as i64
    };
    let fits = |n: i64| -> (yes: bool)
        ensures
            yes == (i32::MIN <= n <= i32::MAX),
        { -0x8000_0000 <= n && n <= 0x7fff_ffff };
    if ((cycle + 1) % 40 == 20 && !fits(first)) || !fits(signal) {
        return false;
    }
    match instruction {
        Instruction::Noop => true,
        Instruction::Addx(v) => {
            let second = x * (cycle + 2);
            let later = if (cycle + 2) % 40 == 20 {
                signal + second
            } else {
                signal
            };
            cpu.cycle < 239 && ((cycle + 2) % 40 != 20 || fits(second)) && fits(later) && fits(
                x + *v as i64,
            )
        },
    }
}

/// Carries the instruction out.
pub fn execute(cpu: &mut CPU, instruction: &Instruction)
    requires
        can_do(*old(cpu), *instruction),
    ensures
        does(*old(cpu), *instruction, *final(cpu)),
{
    match instruction {
        Instruction::Noop => cpu.noop(),
        Instruction::Addx(v) => cpu.addx(*v),
    }
}

/// Carries out the instructions in their order, up to the first that
/// cannot be carried out, and returns how many were.
pub fn run(cpu: &mut CPU, program: &Vec<Instruction>) -> (done: usize)
    ensures
        done <= program@.len(),
        runs(*old(cpu), program@.take(done as int), *final(cpu)),
        done < program@.len() ==> !can_do(*final(cpu), program@[done as int]),
{
    let mut done: usize = 0;
    assert(program@.take(0).len() == 0);
    while done < program.len()
        invariant
            done <= program@.len(),
            runs(*old(cpu), program@.take(done as int), *cpu),
        decreases program@.len() - done,
    {
        if !can_execute(cpu, &program[done]) {
            return done;
        }
        let ghost mid = *cpu;
        execute(cpu, &program[done]);
        proof {
            let more = program@.take(done + 1);
            assert(more.drop_last() =~= program@.take(done as int));
            assert(more.last() == program@[done as int]);
            assert(runs(*old(cpu), more.drop_last(), mid) && can_do(mid, more.last()) && does(
                mid,
                more.last(),
                *cpu,
            ));
            assert(more.len() > 0);
            assert(runs(*old(cpu), more, *cpu));
        }
        done += 1;
    }
    done
}

/// The sign for a pixel: `#` if it is lit, `.` if it is dark.
pub open spec fn glyph(lit: bool) -> u8 {
    if lit {
        35
    } else {
        46
    }
}

/// The screen as text, line by line.
pub fn screen_rows(cpu: &CPU) -> (rows: Vec<Vec<u8>>)
    ensures
        rows@.len() == 6,
        forall|row: int| 0 <= row < 6 ==> (#[trigger] rows@[row])@.len() == 40,
        forall|row: int, column: int|
            0 <= row < 6 && 0 <= column < 40 ==> #[trigger] rows@[row]@[column] == glyph(
                cpu.pixel(column, row),
            ),
{
    let mut rows: Vec<Vec<u8>> = Vec::new();
    let mut y: usize = 0;
    while y < 6
        invariant
            y <= 6,
            rows@.len() == y,
            forall|row: int| 0 <= row < y ==> (#[trigger] rows@[row])@.len() == 40,
            forall|row: int, column: int|
                0 <= row < y && 0 <= column < 40 ==> #[trigger] rows@[row]@[column] == glyph(
                    cpu.pixel(column, row),
                ),
        decreases 6 - y,
    {
        let mut line: Vec<u8> = Vec::new();
        let mut x: usize = 0;
        while x < 40
            invariant
                x <= 40,
                y < 6,
                line@.len() == x,
                forall|column: int|
                    0 <= column < x ==> #[trigger] line@[column] == glyph(
                        cpu.pixel(column, y as int),
                    ),
            decreases 40 - x,
        {
            let lit = cpu.screen[y][x];
            assert(lit == cpu.pixel(x as int, y as int));
            line.push(if lit {
                35
            } else {
                46
            });
            x += 1;
        }
        rows.push(line);
        y += 1;
    }
    rows
}

} // verus!
