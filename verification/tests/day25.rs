use aoc2022::day25::{decimal_to_snafu, snafu_char_to_decimal, snafu_to_decimal};

#[test]
fn ints_to_snafu_and_back() {
    for i in 1..100 {
        let snafu = decimal_to_snafu(i);
        let decimal = snafu_to_decimal(&snafu);
        assert_eq!(i, decimal, "{} -> {} -> {}", i, snafu, decimal);
    }
}

#[test]
fn numerals_of_known_numbers() {
    let known: [(isize, &str); 15] = [
        (1, "1"),
        (2, "2"),
        (3, "1="),
        (4, "1-"),
        (5, "10"),
        (6, "11"),
        (7, "12"),
        (8, "2="),
        (9, "2-"),
        (10, "20"),
        (15, "1=0"),
        (20, "1-0"),
        (2022, "1=11-2"),
        (12345, "1-0---0"),
        (314159265, "1121-1110-1=0"),
    ];
    for (number, numeral) in known {
        assert_eq!(decimal_to_snafu(number), numeral);
        assert_eq!(snafu_to_decimal(numeral), number);
    }
    assert_eq!(snafu_to_decimal("2=-01"), 976);
    assert_eq!(snafu_to_decimal("1=-0-2"), 1747);
    assert_eq!(snafu_to_decimal("2=-1=0"), 4890);
    assert_eq!(decimal_to_snafu(4890), "2=-1=0");
}

#[test]
fn numerals_at_the_edges() {
    assert_eq!(decimal_to_snafu(0), "");
    assert_eq!(decimal_to_snafu(-7), "");
    assert_eq!(snafu_to_decimal(""), 0);
    assert_eq!(snafu_to_decimal("="), -2);
    assert_eq!(snafu_to_decimal("-="), -7);
    assert_eq!(snafu_to_decimal("000"), 0);
    assert_eq!(snafu_to_decimal("2222222222222"), 610351562);
    assert_eq!(decimal_to_snafu(610351562), "2222222222222");
    assert_eq!(decimal_to_snafu(610351563), "1=============");
}

#[test]
fn digits() {
    assert_eq!(snafu_char_to_decimal(&b'2'), 2);
    assert_eq!(snafu_char_to_decimal(&b'1'), 1);
    assert_eq!(snafu_char_to_decimal(&b'0'), 0);
    assert_eq!(snafu_char_to_decimal(&b'-'), -1);
    assert_eq!(snafu_char_to_decimal(&b'='), -2);
}

#[test]
fn numerals_are_no_longer_than_need_be() {
    for number in 1..3000isize {
        let numeral = decimal_to_snafu(number);
        assert!(numeral.is_ascii());
        assert!(5isize.pow(numeral.len() as u32) < 10 * number);
        assert!(!numeral.starts_with('0'));
    }
}
