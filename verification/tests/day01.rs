use aoc2022::day01::{find_greatest, greatest, group_totals, read_entry, top_three, Entry};

fn entries(lines: &[&str]) -> Vec<Entry> {
    lines.iter().map(|line| read_entry(line.as_bytes()).unwrap()).collect()
}

const LIST: [&str; 14] = [
    "1000", "2000", "3000", "", "4000", "", "5000", "6000", "", "7000", "8000", "9000", "", "10000",
];

#[test]
fn entry_is_read_from_a_line() {
    assert_eq!(read_entry(b""), Some(Entry::Blank));
    assert_eq!(read_entry(b"0"), Some(Entry::Calories(0)));
    assert_eq!(read_entry(b"1234"), Some(Entry::Calories(1234)));
    assert_eq!(read_entry(b"4294967295"), Some(Entry::Calories(u32::MAX)));
    assert_eq!(read_entry(b"4294967296"), None);
    assert_eq!(read_entry(b"-1"), None);
    assert_eq!(read_entry(b"12a"), None);
    assert_eq!(read_entry(b" "), None);
}

#[test]
fn group_without_closing_line_is_left_out() {
    assert_eq!(group_totals(&entries(&LIST)), Some(vec![6000, 4000, 11000, 24000]));
}

#[test]
fn closed_groups_are_summed() {
    let mut lines = LIST.to_vec();
    lines.push("");
    assert_eq!(group_totals(&entries(&lines)), Some(vec![6000, 4000, 11000, 24000, 10000]));
    assert_eq!(group_totals(&entries(&["", ""])), Some(vec![0, 0]));
    assert_eq!(group_totals(&entries(&[])), Some(vec![]));
    assert_eq!(group_totals(&entries(&["5"])), Some(vec![]));
}

#[test]
fn group_that_does_not_fit_is_refused() {
    assert_eq!(group_totals(&entries(&["4294967295", "1", ""])), None);
    assert_eq!(group_totals(&entries(&["4294967295", "1"])), None);
    assert_eq!(group_totals(&entries(&["4294967295", "", "1", ""])), Some(vec![u32::MAX, 1]));
}

#[test]
fn greatest_total() {
    assert_eq!(greatest(&vec![6000, 4000, 11000, 24000, 10000]), 24000);
    assert_eq!(greatest(&vec![7]), 7);
    assert_eq!(greatest(&vec![]), 0);
    assert_eq!(find_greatest(&vec![6000, 4000, 11000, 24000, 10000]), 3);
    assert_eq!(find_greatest(&vec![5, 9, 9, 1]), 1);
}

#[test]
fn three_greatest_totals() {
    assert_eq!(top_three(vec![6000, 4000, 11000, 24000, 10000]), Some(45000));
    assert_eq!(top_three(vec![6000, 4000, 11000, 24000]), Some(41000));
    assert_eq!(top_three(vec![5, 5, 5, 5]), Some(15));
    assert_eq!(top_three(vec![3, 4]), Some(7));
    assert_eq!(top_three(vec![]), Some(0));
    assert_eq!(top_three(vec![u32::MAX, 1, 0]), None);
    assert_eq!(top_three(vec![u32::MAX, 0, 0, 0]), Some(u32::MAX));
}
