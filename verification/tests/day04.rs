use aoc2022::day04::{count_contained, count_overlapping, read_assignment, read_pair, Assignment};

fn pairs() -> Vec<(Assignment, Assignment)> {
    ["2-4,6-8", "2-3,4-5", "5-7,7-9", "2-8,3-7", "6-6,4-6", "2-6,4-8"]
        .iter()
        .map(|line| read_pair(line.as_bytes()).unwrap())
        .collect()
}

#[test]
fn assignment_is_read_from_text() {
    assert_eq!(Assignment::parse("2-4"), Assignment { start: 2, end: 4 });
    assert_eq!(Assignment::parse("17-17"), Assignment { start: 17, end: 17 });
    assert_eq!(Assignment::parse("9-3"), Assignment { start: 9, end: 3 });
    assert_eq!(read_assignment(b"2-4"), Some(Assignment { start: 2, end: 4 }));
}

#[test]
fn text_that_is_no_assignment_is_refused() {
    assert_eq!(read_assignment(b""), None);
    assert_eq!(read_assignment(b"24"), None);
    assert_eq!(read_assignment(b"2-"), None);
    assert_eq!(read_assignment(b"-4"), None);
    assert_eq!(read_assignment(b"2-4-6"), None);
    assert_eq!(read_assignment(b"a-4"), None);
    assert_eq!(read_assignment(b"2-99999999999999999999999"), None);
}

#[test]
fn pair_is_read_from_a_line() {
    assert_eq!(
        read_pair(b"2-4,6-8"),
        Some((Assignment { start: 2, end: 4 }, Assignment { start: 6, end: 8 }))
    );
    assert_eq!(read_pair(b"2-4"), None);
    assert_eq!(read_pair(b"2-4,"), None);
    assert_eq!(read_pair(b",2-4"), None);
    assert_eq!(read_pair(b"2-4,6-8,1-1"), None);
}

#[test]
fn overlapping_assignments() {
    let a = Assignment { start: 5, end: 7 };
    assert!(a.overlaps(&Assignment { start: 7, end: 9 }));
    assert!(a.overlaps(&Assignment { start: 1, end: 5 }));
    assert!(a.overlaps(&Assignment { start: 6, end: 6 }));
    assert!(a.overlaps(&Assignment { start: 1, end: 9 }));
    assert!(!a.overlaps(&Assignment { start: 8, end: 9 }));
    assert!(!a.overlaps(&Assignment { start: 1, end: 4 }));
}

#[test]
fn assignment_within_another() {
    let a = Assignment { start: 2, end: 8 };
    assert!(a.contains_completely(&Assignment { start: 3, end: 7 }));
    assert!(a.contains_completely(&Assignment { start: 2, end: 8 }));
    assert!(!a.contains_completely(&Assignment { start: 1, end: 7 }));
    assert!(!a.contains_completely(&Assignment { start: 3, end: 9 }));
    assert!(!Assignment { start: 3, end: 7 }.contains_completely(&a));
}

#[test]
fn pairs_are_counted() {
    assert_eq!(count_contained(&pairs()), 2);
    assert_eq!(count_overlapping(&pairs()), 4);
    assert_eq!(count_contained(&vec![]), 0);
    assert_eq!(count_overlapping(&vec![]), 0);
}
