use aoc2022::day03::{
    badge_priority, holds_from, is_lettered, misplaced_priority, priority_of, rucksack_totals,
};

const RUCKSACKS: [&str; 6] = [
    "vJrwpWtwJgWrhcsFMMfFFhFp",
    "jqHRNqRjqzjGDLGLrsFMfFZSrLrFZsSL",
    "PmmdzqPrVvPwwTWBwg",
    "wMqvLMZHhHMvwLHjbvcjnnSBnvTQFn",
    "ttgJtRGJQctTZtZT",
    "CrZsJsPPZsGzwwsLwLmpwMDw",
];

fn lines(texts: &[&str]) -> Vec<Vec<u8>> {
    texts.iter().map(|text| text.as_bytes().to_vec()).collect()
}

#[test]
fn priorities_of_letters() {
    assert_eq!(priority_of(b'a'), 1);
    assert_eq!(priority_of(b'p'), 16);
    assert_eq!(priority_of(b'z'), 26);
    assert_eq!(priority_of(b'A'), 27);
    assert_eq!(priority_of(b'L'), 38);
    assert_eq!(priority_of(b'Z'), 52);
}

#[test]
fn letters_are_told_from_other_bytes() {
    assert!(is_lettered(b"azAZ"));
    assert!(is_lettered(b""));
    assert!(!is_lettered(b"ab c"));
    assert!(!is_lettered(b"ab["));
    assert!(!is_lettered(b"@b"));
    assert!(!is_lettered(b"`b"));
    assert!(!is_lettered(b"b{"));
    assert!(!is_lettered(b"b1"));
}

#[test]
fn item_is_sought_from_a_place_on() {
    assert!(holds_from(b"abcabc", 0, b'a'));
    assert!(holds_from(b"abcabc", 3, b'a'));
    assert!(!holds_from(b"abcabc", 4, b'a'));
    assert!(!holds_from(b"abcabc", 6, b'c'));
    assert!(!holds_from(b"abcabc", 0, b'd'));
}

#[test]
fn misplaced_items_of_the_example() {
    let expected = [16, 38, 42, 22, 20, 19];
    for (rucksack, priority) in RUCKSACKS.iter().zip(expected) {
        assert_eq!(misplaced_priority(rucksack.as_bytes()), priority);
    }
}

#[test]
fn rucksack_without_a_misplaced_item() {
    assert_eq!(misplaced_priority(b"abcd"), 0);
    assert_eq!(misplaced_priority(b""), 0);
    assert_eq!(misplaced_priority(b"a"), 0);
    assert_eq!(misplaced_priority(b"aa"), 1);
    assert_eq!(misplaced_priority(b"aba"), 1);
    assert_eq!(misplaced_priority(b"abb"), 0);
    assert_eq!(misplaced_priority(b"zbabz"), 26);
    assert_eq!(misplaced_priority(b"bzzb"), 2);
}

#[test]
fn badges_of_the_example() {
    let r = &RUCKSACKS;
    assert_eq!(badge_priority(r[0].as_bytes(), r[1].as_bytes(), r[2].as_bytes()), Some(18));
    assert_eq!(badge_priority(r[3].as_bytes(), r[4].as_bytes(), r[5].as_bytes()), Some(52));
    assert_eq!(badge_priority(b"ab", b"cd", b"ef"), None);
    assert_eq!(badge_priority(b"abZ", b"Zb", b"bZ"), Some(2));
    assert_eq!(badge_priority(b"", b"", b""), None);
}

#[test]
fn totals_of_the_example() {
    assert_eq!(rucksack_totals(&lines(&RUCKSACKS)), Some((157, 70)));
    assert_eq!(rucksack_totals(&lines(&RUCKSACKS[..3])), Some((96, 18)));
    assert_eq!(rucksack_totals(&vec![]), Some((0, 0)));
}

#[test]
fn rucksacks_left_over_are_not_looked_at() {
    assert_eq!(rucksack_totals(&lines(&RUCKSACKS[..5])), Some((96, 18)));
    assert_eq!(rucksack_totals(&lines(&RUCKSACKS[..2])), Some((0, 0)));
    assert_eq!(rucksack_totals(&lines(&["aa", "a1"])), Some((0, 0)));
}

#[test]
fn groups_that_cannot_be_sorted_out() {
    assert_eq!(rucksack_totals(&lines(&["ab", "cd", "ef"])), None);
    assert_eq!(rucksack_totals(&lines(&["a1", "a1", "a1"])), None);
    assert_eq!(rucksack_totals(&lines(&["aa", "aa", "a a"])), None);
    assert_eq!(rucksack_totals(&lines(&["aa", "ab", "ca"])), Some((1, 1)));
}
