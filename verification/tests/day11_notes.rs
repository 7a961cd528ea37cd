use aoc2022::day11::notes::{
    find_comma, read_items, read_monkey, read_monkeys, read_number_after, read_op, test_product,
};
use aoc2022::day11::{calc_monkey_business, Monkey, WorryOp};

const NOTES: &str = "Monkey 0:
  Starting items: 79, 98
  Operation: new = old * 19
  Test: divisible by 23
    If true: throw to monkey 2
    If false: throw to monkey 3

Monkey 1:
  Starting items: 54, 65, 75, 74
  Operation: new = old + 6
  Test: divisible by 19
    If true: throw to monkey 2
    If false: throw to monkey 0

Monkey 2:
  Starting items: 79, 60, 97
  Operation: new = old * old
  Test: divisible by 13
    If true: throw to monkey 1
    If false: throw to monkey 3

Monkey 3:
  Starting items: 74
  Operation: new = old + 3
  Test: divisible by 17
    If true: throw to monkey 0
    If false: throw to monkey 1";

fn lines(text: &str) -> Vec<Vec<u8>> {
    text.lines().map(|line| line.as_bytes().to_vec()).collect()
}

fn told(monkey: &Monkey) -> (Vec<u64>, WorryOp, (u64, usize, usize), u64) {
    (monkey.items.clone(), monkey.op, monkey.test, monkey.inspections)
}

#[test]
fn monkeys_are_read_from_the_notes() {
    let monkeys = read_monkeys(&lines(NOTES)).unwrap();
    assert_eq!(monkeys.len(), 4);
    assert_eq!(told(&monkeys[0]), (vec![79, 98], WorryOp::Times(19), (23, 2, 3), 0));
    assert_eq!(told(&monkeys[1]), (vec![54, 65, 75, 74], WorryOp::Add(6), (19, 2, 0), 0));
    assert_eq!(told(&monkeys[2]), (vec![79, 60, 97], WorryOp::Square, (13, 1, 3), 0));
    assert_eq!(told(&monkeys[3]), (vec![74], WorryOp::Add(3), (17, 0, 1), 0));
    let with_last_line = format!("{}\n\n", NOTES);
    assert_eq!(read_monkeys(&lines(&with_last_line)).unwrap().len(), 4);
    assert_eq!(read_monkeys(&vec![]).unwrap().len(), 0);
}

#[test]
fn monkey_business_from_the_notes() {
    let monkeys = read_monkeys(&lines(NOTES)).unwrap();
    assert_eq!(test_product(&monkeys), Some(96577));
    assert_eq!(calc_monkey_business(monkeys, 20, |w| w / 3), Some(10605));
    let monkeys = read_monkeys(&lines(NOTES)).unwrap();
    assert_eq!(calc_monkey_business(monkeys, 10_000, |w| w % 96577), Some(2713310158));
}

#[test]
fn notes_that_cannot_be_read() {
    let all = lines(NOTES);
    assert!(read_monkeys(&all[..5].to_vec()).is_none());
    assert!(read_monkeys(&all[..26].to_vec()).is_none());
    assert!(read_monkeys(&all[1..].to_vec()).is_none());
    assert!(read_monkey(&all, 22).is_none());
    assert!(read_monkey(&all, 1).is_none());
    assert!(read_monkey(&all, usize::MAX).is_none());
    assert_eq!(told(&read_monkey(&all, 21).unwrap()), (vec![74], WorryOp::Add(3), (17, 0, 1), 0));
    let mut wrong = lines(NOTES);
    wrong[1] = b"  Starting items: ".to_vec();
    assert!(read_monkeys(&wrong).is_none());
}

#[test]
fn single_lines_of_the_notes() {
    assert_eq!(read_items(b"  Starting items: 79, 98", 18), Some(vec![79, 98]));
    assert_eq!(read_items(b"  Starting items: 7", 18), Some(vec![7]));
    assert_eq!(read_items(b"  Starting items: ", 18), None);
    assert_eq!(read_items(b"  Starting items: 7, ", 18), None);
    assert_eq!(read_items(b"  Starting items: 7,8", 18), None);
    assert_eq!(read_items(b"  Starting items: 7, x", 18), None);
    assert_eq!(read_items(b"short", 18), None);
    assert_eq!(read_items(b"1, 2, 3", 0), Some(vec![1, 2, 3]));
    assert_eq!(find_comma(b"1, 2, 3", 0), 1);
    assert_eq!(find_comma(b"1, 2, 3", 2), 4);
    assert_eq!(find_comma(b"1, 2, 3", 5), 7);
    assert_eq!(find_comma(b"1,2,", 0), 4);
    assert_eq!(read_op(b"  Operation: new = old * 19"), Some(WorryOp::Times(19)));
    assert_eq!(read_op(b"  Operation: new = old + 6"), Some(WorryOp::Add(6)));
    assert_eq!(read_op(b"  Operation: new = old * old"), Some(WorryOp::Square));
    assert_eq!(read_op(b"  Operation: new = old + old"), Some(WorryOp::Square));
    assert_eq!(read_op(b"  Operation: new = old - 6"), None);
    assert_eq!(read_op(b"  Operation: new = old * x"), None);
    assert_eq!(read_op(b"  Operation: new = old * "), None);
    assert_eq!(read_op(b"  Operation: new = old *"), None);
    assert_eq!(read_number_after(b"  Test: divisible by 23", 21), Some(23));
    assert_eq!(read_number_after(b"  Test: divisible by ", 21), None);
    assert_eq!(read_number_after(b"  Test", 21), None);
    assert_eq!(read_number_after(b"    If true: throw to monkey 2", 29), Some(2));
    assert_eq!(read_number_after(b"    If false: throw to monkey 3", 30), Some(3));
}

#[test]
fn product_of_the_divisors() {
    let monkey = |divisor| Monkey { items: vec![], op: WorryOp::Square, test: (divisor, 0, 0), inspections: 0 };
    assert_eq!(test_product(&vec![]), Some(1));
    assert_eq!(test_product(&vec![monkey(7)]), Some(7));
    assert_eq!(test_product(&vec![monkey(7), monkey(0), monkey(3)]), Some(0));
    assert_eq!(test_product(&vec![monkey(1 << 32), monkey(1 << 31)]), Some(1 << 63));
    assert_eq!(test_product(&vec![monkey(1 << 32), monkey(1 << 32)]), None);
    assert_eq!(test_product(&vec![monkey(1 << 32), monkey(1 << 32), monkey(0)]), None);
}
