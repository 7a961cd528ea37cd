//! The notes on the monkeys: seven lines for each, with what matters at
//! fixed places in five of them.

use vstd::prelude::*;
use crate::day11::{Monkey, WorryOp};
use crate::text::{copy_part, parse_usize, unsigned_value};

verus! {

/// What the notes say of one monkey: its items, what its inspection does,
/// and its test.
pub struct Noted {
    pub items: Seq<u64>,
    pub op: WorryOp,
    pub test: (u64, usize, usize),
}

/// The number that the text stands for, if it stands for one that fits.
pub open spec fn number_of(s: Seq<u8>) -> Option<usize> {
    match unsigned_value(s) {
        Some(v) => if v <= usize::MAX {
            Some(v as usize)
        } else {
            None
        },
        None => None,
    }
}

/// The number that the line holds from the byte `from` on.
pub open spec fn number_after(line: Seq<u8>, from: int) -> Option<usize> {
    if line.len() < from {
        None
    } else {
        number_of(line.subrange(from, line.len() as int))
    }
}

/// Whether a comma and a space stand at place `i`.
pub open spec fn comma_at(s: Seq<u8>, i: int) -> bool {
    0 <= i && i + 2 <= s.len() && s[i] == 44 && s[i + 1] == 32
}

/// The first place at or after `from` at which a comma and a space stand,
/// or the length of the text if there is none.
pub open spec fn next_comma(s: Seq<u8>, from: int) -> int
    decreases s.len() - from,
{
    if from >= s.len() {
        s.len() as int
    } else if comma_at(s, from) {
        from
    } else {
        next_comma(s, from + 1)
    }
}

/// The numbers that the text holds from `from` on, with a comma and a
/// space between them.
pub open spec fn items_from(s: Seq<u8>, from: int) -> Option<Seq<u64>>
    decreases s.len() - from,
{
    let end = next_comma(s, from);
    if from < 0 || from > s.len() || end < from {
        None
    } else {
        match number_of(s.subrange(from, end)) {
            None => None,
            Some(n) => if end >= s.len() {
                Some(seq![n as u64])
            } else if end + 2 > s.len() {
                None
            } else {
                match items_from(s, end + 2) {
                    Some(rest) => Some(seq![n as u64] + rest),
                    None => None,
                }
            },
        }
    }
}

/// `old`
pub open spec fn old_worry() -> Seq<u8> {
    seq![111u8, 108u8, 100u8]
}

/// What the inspection does, by the line that tells of it: the operand
/// stands from byte 25 on, the sign before it at byte 23.
pub open spec fn op_of(line: Seq<u8>) -> Option<WorryOp> {
    if line.len() < 25 {
        None
    } else if line.subrange(25, line.len() as int) == old_worry() {
        Some(WorryOp::Square)
    } else {
        match number_of(line.subrange(25, line.len() as int)) {
            Some(n) => if line[23] == 43 {
                Some(WorryOp::Add(n as u64))
            } else if line[23] == 42 {
                Some(WorryOp::Times(n as u64))
            } else {
                None
            },
            None => None,
        }
    }
}

/// What the seven lines from line `at` on say of a monkey. The first and
/// the last of them say nothing, and the last may be missing.
pub open spec fn noted_at(lines: Seq<Vec<u8>>, at: int) -> Option<Noted> {
    if at < 0 || at + 5 >= lines.len() {
        None
    } else {
        match (
            items_from(lines[at + 1]@, 18),
            op_of(lines[at + 2]@),
            number_after(lines[at + 3]@, 21),
            number_after(lines[at + 4]@, 29),
            number_after(lines[at + 5]@, 30),
        ) {
            (Some(items), Some(op), Some(divisor), Some(if_true), Some(if_false)) => Some(
                Noted { items, op, test: (divisor as u64, if_true, if_false) },
            ),
            _ => None,
        }
    }
}

/// What is noted of a monkey.
pub open spec fn noted_of(monkey: Monkey) -> Noted {
    Noted { items: monkey.items@, op: monkey.op, test: monkey.test }
}

/// The number that the line holds from the byte `from` on.
pub fn read_number_after(line: &[u8], from: usize) -> (n: Option<usize>)
    ensures
        n == number_after(line@, from as int),
{
    if line.len() < from {
        return None;
    }
    parse_usize(copy_part(line, from, line.len()).as_slice())
}

/// The first place at or after `from` at which a comma and a space stand.
pub fn find_comma(line: &[u8], from: usize) -> (at: usize)
    requires
        from <= line@.len(),
    ensures
        at == next_comma(line@, from as int),
        from <= at <= line@.len(),
        at < line@.len() ==> comma_at(line@, at as int),
{
    let mut at = from;
    while at < line.len()
        invariant
            from <= at <= line@.len(),
            next_comma(line@, from as int) == next_comma(line@, at as int),
        decreases line@.len() - at,
    {
        if line.len() - at >= 2 && line[at] == 44 && line[at + 1] == 32 {
            return at;
        }
        at += 1;
    }
    at
}

/// The numbers that the line holds from the byte `start` on.
pub fn read_items(line: &[u8], start: usize) -> (items: Option<Vec<u64>>)
    ensures
        match items {
            Some(v) => items_from(line@, start as int) == Some(v@),
            None => items_from(line@, start as int) is None,
        },
{
    if start > line.len() {
        return None;
    }
    let mut items: Vec<u64> = Vec::new();
    let mut from: usize = start;
    loop
        invariant
            start <= from <= line@.len(),
            items_from(line@, start as int) == match items_from(line@, from as int) {
                Some(rest) => Some(items@ + rest),
                None => None,
            },
        decreases line@.len() - from,
    {
        let end = find_comma(line, from);
        let ghost before = items@;
        match parse_usize(copy_part(line, from, end).as_slice()) {
            Some(n) => {
                items.push(n as u64);
            },
            None => {
                return None;
            },
        }
        if end >= line.len() {
            proof {
                assert(items@ =~= before + seq![items@.last()]);
            }
            return Some(items);
        }
        proof {
            match items_from(line@, end + 2) {
                Some(rest) => {
                    assert(items@ + rest =~= before + (seq![items@.last()] + rest));
                },
                None => {},
            }
        }
        from = end + 2;
    }
}

/// What the inspection does, by the line that tells of it.
pub fn read_op(line: &[u8]) -> (op: Option<WorryOp>)
    ensures
        op == op_of(line@),
{
    if line.len() < 25 {
        return None;
    }
    let ghost operand = line@.subrange(25, line@.len() as int);
    if line.len() == 28 && line[25] == 111 && line[26] == 108 && line[27] == 100 {
        assert(operand =~= old_worry());
        return Some(WorryOp::Square);
    }
    proof {
        if operand == old_worry() {
            assert(operand.len() == 3);
            assert(operand[0] == 111 && operand[1] == 108 && operand[2] == 100);
        }
    }
    match parse_usize(copy_part(line, 25, line.len()).as_slice()) {
        Some(n) => if line[23] == 43 {
            Some(WorryOp::Add(n as u64))
        } else if line[23] == 42 {
            Some(WorryOp::Times(n as u64))
        } else {
            None
        },
        None => None,
    }
}

/// The monkey that the seven lines from line `at` on tell of, with nothing
/// inspected yet.
pub fn read_monkey(lines: &Vec<Vec<u8>>, at: usize) -> (monkey: Option<Monkey>)
    ensures
        match monkey {
            Some(m) => noted_at(lines@, at as int) == Some(noted_of(m)) && m.inspections == 0,
            None => noted_at(lines@, at as int) is None,
        },
{
    if lines.len() < 6 || at >= lines.len() - 5 {
        return None;
    }
    let items = read_items(lines[at + 1].as_slice(), 18);
    let op = read_op(lines[at + 2].as_slice());
    let divisor = read_number_after(lines[at + 3].as_slice(), 21);
    let if_true = read_number_after(lines[at + 4].as_slice(), 29);
    let if_false = read_number_after(lines[at + 5].as_slice(), 30);
    match (items, op, divisor, if_true, if_false) {
        (Some(items), Some(op), Some(divisor), Some(if_true), Some(if_false)) => Some(
            Monkey { items, op, test: (divisor as u64, if_true, if_false), inspections: 0 },
        ),
        _ => None,
    }
}

/// What the lines from line `at` on say of the monkeys, seven lines for
/// each.
pub open spec fn all_noted(lines: Seq<Vec<u8>>, at: int) -> Option<Seq<Noted>>
    decreases lines.len() + 7 - at,
{
    if at < 0 {
        None
    } else if at >= lines.len() {
        Some(Seq::empty())
    } else {
        match noted_at(lines, at) {
            None => None,
            Some(first) => match all_noted(lines, at + 7) {
                Some(rest) => Some(seq![first] + rest),
                None => None,
            },
        }
    }
}

/// What is noted of each of the monkeys.
pub open spec fn all_noted_of(monkeys: Seq<Monkey>) -> Seq<Noted> {
    Seq::new(monkeys.len(), |i: int| noted_of(monkeys[i]))
}

/// The monkeys that the notes tell of; `None` if the notes of one cannot be
/// read.
pub fn read_monkeys(lines: &Vec<Vec<u8>>) -> (monkeys: Option<Vec<Monkey>>)
    ensures
        match monkeys {
            Some(v) => all_noted(lines@, 0) == Some(all_noted_of(v@)) && forall|i: int|
                0 <= i < v@.len() ==> (#[trigger] v@[i]).inspections == 0,
            None => all_noted(lines@, 0) is None,
        },
{
    let mut monkeys: Vec<Monkey> = Vec::new();
    let mut at: usize = 0;
    assert(all_noted_of(monkeys@) =~= Seq::empty());
    loop
        invariant
            all_noted(lines@, 0) == match all_noted(lines@, at as int) {
                Some(rest) => Some(all_noted_of(monkeys@) + rest),
                None => None,
            },
            forall|i: int| 0 <= i < monkeys@.len() ==> (#[trigger] monkeys@[i]).inspections == 0,
        decreases lines@.len() + 7 - at,
    {
        if at >= lines.len() {
            assert(all_noted_of(monkeys@) + Seq::<Noted>::empty() =~= all_noted_of(monkeys@));
            return Some(monkeys);
        }
        let ghost before = all_noted_of(monkeys@);
        match read_monkey(lines, at) {
            Some(monkey) => {
                let ghost first = noted_of(monkey);
                monkeys.push(monkey);
                proof {
                    assert(all_noted_of(monkeys@) =~= before.push(first));
                    match all_noted(lines@, at + 7) {
                        Some(rest) => {
                            assert(all_noted_of(monkeys@) + rest =~= before + (seq![first] + rest));
                        },
                        None => {},
                    }
                }
            },
            None => {
                return None;
            },
        }
        if lines.len() - at <= 7 {
            proof {
                assert(all_noted(lines@, at + 7) == Some(Seq::<Noted>::empty()));
                assert(all_noted_of(monkeys@) + Seq::<Noted>::empty() =~= all_noted_of(monkeys@));
            }
            return Some(monkeys);
        }
        at += 7;
    }
}

/// The product of the divisors that the first `n` monkeys test by.
pub open spec fn divisors_product(monkeys: Seq<Monkey>, n: int) -> int
    decreases n,
{
    if n <= 0 {
        1
    } else {
        divisors_product(monkeys, n - 1) * monkeys[n - 1].test.0
    }
}

/// The product of the divisors that the monkeys test by; `None` if it, or
/// the product for some of the first monkeys, does not fit.
pub fn test_product(monkeys: &Vec<Monkey>) -> (product: Option<u64>)
    ensures
        match product {
            Some(p) => p == divisors_product(monkeys@, monkeys@.len() as int),
            None => exists|n: int|
                0 <= n <= monkeys@.len() && #[trigger] divisors_product(monkeys@, n) > u64::MAX,
        },
{
    let mut product: u64 = 1;
    let mut i: usize = 0;
    while i < monkeys.len()
        invariant
            i <= monkeys@.len(),
            product == divisors_product(monkeys@, i as int),
        decreases monkeys@.len() - i,
    {
        match product.checked_mul(monkeys[i].test.0) {
            Some(p) => {
                product = p;
            },
            None => {
                assert(divisors_product(monkeys@, i + 1) > u64::MAX);
                return None;
            },
        }
        i += 1;
    }
    Some(product)
}

} // verus!
