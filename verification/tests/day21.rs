use aoc2022::day21::{
    binary_search_for_humn_value, calculate, find, find_humn_dependents, get_root_operands,
    invert_root, invert_to_humn, parse, Node,
};
use aoc2022::text::{find_byte, text_between};

const EXAMPLE: &str = "root: pppw + sjmn
dbpl: 5
cczh: sllz + lgvd
zczc: 2
ptdq: humn - dvpt
dvpt: 3
lfqf: 4
humn: 5
ljgn: 2
sjmn: drzm * dbpl
sllz: 4
pppw: cczh / lfqf
lgvd: ljgn * ptdq
drzm: hmdt - zczc
hmdt: 32";

fn name(text: &str) -> String {
    text.to_string()
}

#[test]
fn the_monkeys_of_the_example() {
    let lookup = parse(EXAMPLE).unwrap();
    assert_eq!(lookup.len(), 15);
    assert_eq!(calculate(&name("root"), &lookup), Some(152));
    assert_eq!(calculate(&name("hmdt"), &lookup), Some(32));
    assert_eq!(calculate(&name("pppw"), &lookup), Some(2));
    assert_eq!(calculate(&name("ptdq"), &lookup), Some(2));
    assert_eq!(calculate(&name("nope"), &lookup), None);
    assert_eq!(get_root_operands(&lookup), Some((2, 150)));
    let dependents = find_humn_dependents(&lookup).unwrap();
    assert_eq!(dependents, vec![name("humn"), name("ptdq"), name("lgvd"), name("cczh"), name("pppw")]);
    assert_eq!(invert_root(&lookup, &dependents), Some(301));
    assert_eq!(invert_to_humn(150, &name("pppw"), &lookup, &dependents), Some(301));
    assert_eq!(invert_to_humn(2, &name("ptdq"), &lookup, &dependents), Some(5));
    assert_eq!(invert_to_humn(7, &name("humn"), &lookup, &dependents), Some(7));
    assert_eq!(invert_to_humn(7, &name("hmdt"), &lookup, &dependents), Some(32));
    assert_eq!(invert_to_humn(7, &name("drzm"), &lookup, &dependents), None);
    assert_eq!(binary_search_for_humn_value(lookup), None);
}

#[test]
fn a_number_found_by_halving() {
    let text = "root: aaaa + bbbb\naaaa: cccc - humn\ncccc: 100\nbbbb: 40\nhumn: 1";
    assert_eq!(binary_search_for_humn_value(parse(text).unwrap()), Some(60));
    let lookup = parse(text).unwrap();
    let dependents = find_humn_dependents(&lookup).unwrap();
    assert_eq!(dependents, vec![name("humn"), name("aaaa")]);
    assert_eq!(invert_root(&lookup, &dependents), Some(60));
    let odd = text.replace("bbbb: 40", "bbbb: 41");
    assert_eq!(binary_search_for_humn_value(parse(&odd).unwrap()), Some(59));
    let none = text.replace("aaaa: cccc - humn", "aaaa: cccc - dddd\ndddd: humn * cccc");
    assert_eq!(binary_search_for_humn_value(parse(&none).unwrap()), None);
    let negative = text.replace("humn: 1", "humn: -1").replace("bbbb: 40", "bbbb: 140");
    assert_eq!(binary_search_for_humn_value(parse(&negative).unwrap()), None);
}

#[test]
fn monkeys_are_read() {
    let lookup = parse("abcd: 12\nefgh: abcd * abcd\nabcd: -3\n").unwrap();
    assert_eq!(lookup.len(), 2);
    assert_eq!(find(&lookup, &name("abcd")), Some(0));
    assert_eq!(find(&lookup, &name("efgh")), Some(1));
    assert_eq!(find(&lookup, &name("ijkl")), None);
    assert!(matches!(lookup[0].1, Node::Number(-3)));
    assert!(matches!(&lookup[1].1, Node::Mul(l, r) if l == "abcd" && r == "abcd"));
    assert!(lookup[1].1.has_dependent(&name("abcd")));
    assert!(!lookup[1].1.has_dependent(&name("efgh")));
    assert!(!lookup[0].1.has_dependent(&name("abcd")));
    assert_eq!(calculate(&name("efgh"), &lookup), Some(9));
    assert!(parse("").unwrap().is_empty());
    assert!(parse("abcd: 1\n\nefgh: 2").is_none());
    assert!(parse("abcd: x").is_none());
    assert!(parse("abcd: efgh ^ ijkl").is_none());
    assert!(parse("abcd").is_none());
    assert!(parse("äbcd: 1").is_none());
    let long = parse("abcd: efgh - ijklmnop").unwrap();
    assert!(matches!(&long[0].1, Node::Sub(l, r) if l == "efgh" && r == "ijklmnop"));
    assert_eq!(find_byte(b"ab\ncd", b'\n', 0), 2);
    assert_eq!(find_byte(b"ab\ncd", b'\n', 3), 5);
    assert_eq!(text_between(b"ab\ncd", 3, 5), Some(name("cd")));
    assert_eq!(text_between(&[b'a', 200], 0, 2), None);
}

#[test]
fn numbers_that_cannot_be_worked_out() {
    let ring = parse("aaaa: bbbb + cccc\nbbbb: aaaa + cccc\ncccc: 1").unwrap();
    assert_eq!(calculate(&name("aaaa"), &ring), None);
    assert_eq!(calculate(&name("cccc"), &ring), Some(1));
    let nothing = parse("aaaa: bbbb / cccc\nbbbb: 7\ncccc: 0").unwrap();
    assert_eq!(calculate(&name("aaaa"), &nothing), None);
    let halves = parse("aaaa: bbbb / cccc\nbbbb: -7\ncccc: 2").unwrap();
    assert_eq!(calculate(&name("aaaa"), &halves), Some(-3));
    let big = format!("aaaa: bbbb * bbbb\nbbbb: {}", isize::MAX);
    assert_eq!(calculate(&name("aaaa"), &parse(&big).unwrap()), None);
    assert_eq!(get_root_operands(&ring), None);
    let plain = parse("root: 5\nhumn: 1").unwrap();
    assert_eq!(get_root_operands(&plain), None);
    assert_eq!(find_humn_dependents(&plain), None);
    assert_eq!(invert_root(&plain, &vec![name("humn")]), None);
    assert_eq!(binary_search_for_humn_value(plain), None);
    let twice = parse("root: aaaa + bbbb\naaaa: humn + humn\nbbbb: humn * humn\nhumn: 1").unwrap();
    assert_eq!(find_humn_dependents(&twice), None);
    let both = vec![name("humn"), name("aaaa"), name("bbbb")];
    assert_eq!(invert_root(&twice, &both), None);
    assert_eq!(invert_root(&twice, &Vec::new()), None);
}
