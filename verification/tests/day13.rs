use aoc2022::day13::{parse_line, read_number, Order, PacketNode};

fn show(p: &PacketNode) -> String {
    match p {
        PacketNode::Int(n) => n.to_string(),
        PacketNode::List(v) => format!("[{}]", v.iter().map(show).collect::<Vec<_>>().join(",")),
    }
}

fn order(left: &str, right: &str) -> Order {
    parse_line(left).unwrap().compare(&parse_line(right).unwrap())
}

#[test]
fn pairs_of_the_example() {
    let pairs = [
        ("[1,1,3,1,1]", "[1,1,5,1,1]", Order::Less),
        ("[[1],[2,3,4]]", "[[1],4]", Order::Less),
        ("[9]", "[[8,7,6]]", Order::Greater),
        ("[[4,4],4,4]", "[[4,4],4,4,4]", Order::Less),
        ("[7,7,7,7]", "[7,7,7]", Order::Greater),
        ("[]", "[3]", Order::Less),
        ("[[[]]]", "[[]]", Order::Greater),
        ("[1,[2,[3,[4,[5,6,7]]]],8,9]", "[1,[2,[3,[4,[5,6,0]]]],8,9]", Order::Greater),
    ];
    let mut sum = 0;
    for (i, (left, right, expected)) in pairs.iter().enumerate() {
        assert_eq!(order(left, right), *expected);
        assert_eq!(order(right, left), match expected {
            Order::Less => Order::Greater,
            Order::Equal => Order::Equal,
            Order::Greater => Order::Less,
        });
        assert_eq!(order(left, left), Order::Equal);
        if *expected == Order::Less {
            sum += i + 1;
        }
    }
    assert_eq!(sum, 13);
}

#[test]
fn numbers_against_lists() {
    assert_eq!(order("[3]", "[[3]]"), Order::Equal);
    assert_eq!(order("[[3]]", "[3]"), Order::Equal);
    assert_eq!(order("[3]", "[[3,0]]"), Order::Less);
    assert_eq!(order("[[3,0]]", "[3]"), Order::Greater);
    assert_eq!(order("[3]", "[[]]"), Order::Greater);
    assert_eq!(order("[[]]", "[3]"), Order::Less);
    assert_eq!(order("[3]", "[[[[3]]]]"), Order::Equal);
    assert_eq!(order("[3]", "[[[[2]]],9]"), Order::Greater);
    assert_eq!(order("[[2,3]]", "[2]"), Order::Greater);
    assert_eq!(PacketNode::Int(4).compare(&PacketNode::Int(9)), Order::Less);
    assert_eq!(PacketNode::Int(4).compare(&PacketNode::List(vec![])), Order::Greater);
}

#[test]
fn packets_are_read() {
    let read = |line: &str| parse_line(line).map(|p| show(&p));
    assert_eq!(read("[1,[2,[3,[4,[5,6,7]]]],8,9]").unwrap(), "[1,[2,[3,[4,[5,6,7]]]],8,9]");
    assert_eq!(read("[]").unwrap(), "[]");
    assert_eq!(read("[[[]]]").unwrap(), "[[[]]]");
    assert_eq!(read("[1, 2 ,,3]").unwrap(), "[1,2,3]");
    assert_eq!(read("[10]").unwrap(), "[58]");
    assert_eq!(read("[19,1]").unwrap(), "[67,1]");
    assert_eq!(read("[20]").unwrap(), "[68]");
    assert_eq!(read("[99]").unwrap(), "[147]");
    assert_eq!(read("[100]"), None);
    assert_eq!(read("[1]]"), None);
    assert_eq!(read("]"), None);
    assert_eq!(read("[1]x"), None);
    assert_eq!(read("[1] "), None);
    assert_eq!(read("[a]"), None);
    assert_eq!(read("7"), None);
    assert_eq!(read(""), None);
    assert_eq!(read(" , "), None);
    assert_eq!(read("[").unwrap(), "[]");
    assert_eq!(read("[1").unwrap(), "[1]");
    assert_eq!(read("[12,[3").unwrap(), "[3]");
    assert_eq!(read("[[1]").unwrap(), "[[1]]");
    assert_eq!(read("[[1],2").unwrap(), "[[1],2]");
    assert_eq!(read_number(b"[12,3]", 1), Some((1 * 10 + b'2', 3)));
    assert_eq!(read_number(b"7", 0), Some((7, 1)));
    assert_eq!(read_number(b"26", 0), Some((74, 2)));
    assert_eq!(read_number(b"207", 0), None);
}

const PACKET_LINES: [&str; 16] = [
    "[1,1,3,1,1]",
    "[1,1,5,1,1]",
    "[[1],[2,3,4]]",
    "[[1],4]",
    "[9]",
    "[[8,7,6]]",
    "[[4,4],4,4]",
    "[[4,4],4,4,4]",
    "[7,7,7,7]",
    "[7,7,7]",
    "[]",
    "[3]",
    "[[[]]]",
    "[[]]",
    "[1,[2,[3,[4,[5,6,7]]]],8,9]",
    "[1,[2,[3,[4,[5,6,0]]]],8,9]",
];

fn packet_pairs() -> Vec<(PacketNode, PacketNode)> {
    PACKET_LINES
        .chunks(2)
        .map(|pair| (parse_line(pair[0]).unwrap(), parse_line(pair[1]).unwrap()))
        .collect()
}

fn all_packets() -> Vec<PacketNode> {
    PACKET_LINES.iter().map(|line| parse_line(line).unwrap()).collect()
}

#[test]
fn pairs_in_the_right_order_are_summed() {
    assert_eq!(aoc2022::day13::signal::sum_of_ordered_pairs(&packet_pairs()), 13);
    assert_eq!(aoc2022::day13::signal::sum_of_ordered_pairs(&vec![]), 0);
    let same = vec![(parse_line("[1]").unwrap(), parse_line("[1]").unwrap())];
    assert_eq!(aoc2022::day13::signal::sum_of_ordered_pairs(&same), 0);
}

#[test]
fn dividers_hold_one_number_in_two_lists() {
    let d = aoc2022::day13::signal::divider(2);
    assert_eq!(d.compare(&parse_line("[[2]]").unwrap()), Order::Equal);
    assert_eq!(d.compare(&aoc2022::day13::signal::divider(6)), Order::Less);
    assert_eq!(
        aoc2022::day13::signal::divider(6).compare(&parse_line("[[6]]").unwrap()),
        Order::Equal
    );
}

#[test]
fn packets_before_a_divider_are_counted() {
    let d2 = aoc2022::day13::signal::divider(2);
    let d6 = aoc2022::day13::signal::divider(6);
    assert_eq!(aoc2022::day13::signal::count_below(&all_packets(), &d2), 9);
    assert_eq!(aoc2022::day13::signal::count_below(&all_packets(), &d6), 12);
    assert_eq!(aoc2022::day13::signal::count_below(&vec![], &d6), 0);
}

#[test]
fn decoder_key_of_the_example() {
    assert_eq!(aoc2022::day13::signal::decoder_key(&all_packets()), Some(140));
    assert_eq!(aoc2022::day13::signal::decoder_key(&vec![]), Some(2));
    let one = vec![parse_line("[[4]]").unwrap()];
    assert_eq!(aoc2022::day13::signal::decoder_key(&one), Some(3));
    let low = vec![parse_line("[]").unwrap(), parse_line("[[1]]").unwrap()];
    assert_eq!(aoc2022::day13::signal::decoder_key(&low), Some(12));
}
