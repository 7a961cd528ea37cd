use aoc2022::day11::{calc_monkey_business, collect_throws, hand_over, take_turn, throw_item};
use aoc2022::day11::{Monkey, WorryOp};

fn example() -> Vec<Monkey> {
    vec![
        Monkey { items: vec![79, 98], op: WorryOp::Times(19), test: (23, 2, 3), inspections: 0 },
        Monkey { items: vec![54, 65, 75, 74], op: WorryOp::Add(6), test: (19, 2, 0), inspections: 0 },
        Monkey { items: vec![79, 60, 97], op: WorryOp::Square, test: (13, 1, 3), inspections: 0 },
        Monkey { items: vec![74], op: WorryOp::Add(3), test: (17, 0, 1), inspections: 0 },
    ]
}

#[test]
fn monkey_business_of_the_example() {
    assert_eq!(calc_monkey_business(example(), 20, |w| w / 3), Some(10605));
    let test_product = 23 * 19 * 13 * 17;
    assert_eq!(calc_monkey_business(example(), 10_000, |w| w % test_product), Some(2713310158));
    assert_eq!(calc_monkey_business(example(), 1, |w| w % test_product), Some(4 * 6));
    assert_eq!(calc_monkey_business(example(), 20, |w| w % test_product), Some(99 * 103));
    assert_eq!(calc_monkey_business(example(), 0, |w| w / 3), Some(0));
}

#[test]
fn the_first_round_of_the_example() {
    let mut monkeys = example();
    assert!(take_turn(&mut monkeys, 0, &|w| w / 3));
    assert_eq!(monkeys[0].items, Vec::<u64>::new());
    assert_eq!(monkeys[0].inspections, 2);
    assert_eq!(monkeys[3].items, vec![74, 500, 620]);
    for i in 1..4 {
        assert!(take_turn(&mut monkeys, i, &|w| w / 3));
    }
    assert_eq!(monkeys[0].items, vec![20, 23, 27, 26]);
    assert_eq!(monkeys[1].items, vec![2080, 25, 167, 207, 401, 1046]);
    assert!(monkeys[2].items.is_empty() && monkeys[3].items.is_empty());
    let counts: Vec<u64> = monkeys.iter().map(|m| m.inspections).collect();
    assert_eq!(counts, vec![2, 4, 3, 5]);
}

#[test]
fn throws() {
    let monkeys = example();
    let third = |w| w / 3;
    assert_eq!(throw_item(&monkeys[0], &third, 79), Some((3, 500)));
    assert_eq!(throw_item(&monkeys[2], &third, 79), Some((1, 2080)));
    assert_eq!(throw_item(&monkeys[2], &third, 60), Some((3, 1200)));
    assert_eq!(throw_item(&monkeys[2], &|w| w % 1000, 79), Some((3, 241)));
    assert_eq!(throw_item(&monkeys[2], &third, u64::MAX), None);
    assert_eq!(throw_item(&monkeys[1], &third, u64::MAX - 5), None);
    assert_eq!(throw_item(&monkeys[0], &third, u64::MAX / 19 + 1), None);
    let broken = Monkey { items: vec![], op: WorryOp::Add(1), test: (0, 0, 0), inspections: 0 };
    assert_eq!(throw_item(&broken, &third, 1), None);
    assert_eq!(collect_throws(&monkeys[0], &third, 4), Some(vec![(3, 500), (3, 620)]));
    assert_eq!(collect_throws(&monkeys[0], &third, 3), None);
    assert_eq!(collect_throws(&broken, &third, 0), Some(vec![]));
    let mut table = example();
    hand_over(&mut table, &vec![(3, 1), (0, 2), (3, 3)]);
    assert_eq!(table[3].items, vec![74, 1, 3]);
    assert_eq!(table[0].items, vec![79, 98, 2]);
}

#[test]
fn business_of_few_monkeys() {
    assert_eq!(calc_monkey_business(Vec::new(), 5, |w| w / 3), Some(1));
    let alone = || vec![Monkey { items: vec![1, 2], op: WorryOp::Add(1), test: (1, 0, 0), inspections: 0 }];
    assert_eq!(calc_monkey_business(alone(), 5, |w| w / 1), Some(10));
    let away = || vec![Monkey { items: vec![1, 2], op: WorryOp::Add(1), test: (1, 1, 1), inspections: 0 }];
    assert_eq!(calc_monkey_business(away(), 5, |w| w / 1), None);
    assert_eq!(calc_monkey_business(away(), 0, |w| w / 1), Some(0));
    let grows = || vec![Monkey { items: vec![2], op: WorryOp::Square, test: (1, 0, 0), inspections: 0 }];
    assert_eq!(calc_monkey_business(grows(), 5, |w| w / 1), Some(5));
    assert_eq!(calc_monkey_business(grows(), 6, |w| w / 1), None);
    let three = vec![
        Monkey { items: vec![], op: WorryOp::Add(0), test: (1, 0, 0), inspections: 10 },
        Monkey { items: vec![], op: WorryOp::Add(0), test: (1, 0, 0), inspections: 3 },
        Monkey { items: vec![], op: WorryOp::Add(0), test: (1, 0, 0), inspections: 9 },
    ];
    assert_eq!(calc_monkey_business(three, 4, |w| w / 1), Some(90));
    let large = vec![
        Monkey { items: vec![], op: WorryOp::Add(0), test: (1, 0, 0), inspections: u64::MAX },
        Monkey { items: vec![], op: WorryOp::Add(0), test: (1, 0, 0), inspections: 2 },
    ];
    assert_eq!(calc_monkey_business(large, 4, |w| w / 1), None);
}
