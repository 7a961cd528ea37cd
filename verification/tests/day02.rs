use aoc2022::day02::{move_named, outcome_named, round_scores, total_scores, RoundResult, RPS};

fn lines(texts: &[&str]) -> Vec<Vec<u8>> {
    texts.iter().map(|text| text.as_bytes().to_vec()).collect()
}

#[test]
fn letters_name_moves_and_outcomes() {
    assert_eq!(move_named(b'A'), RPS::Rock);
    assert_eq!(move_named(b'B'), RPS::Paper);
    assert_eq!(move_named(b'C'), RPS::Scissors);
    assert_eq!(move_named(b'X'), RPS::Rock);
    assert_eq!(move_named(b'Y'), RPS::Paper);
    assert_eq!(move_named(b'Z'), RPS::Scissors);
    assert_eq!(outcome_named(b'X'), RoundResult::Loss);
    assert_eq!(outcome_named(b'Y'), RoundResult::Draw);
    assert_eq!(outcome_named(b'Z'), RoundResult::Win);
}

#[test]
fn scores_of_single_rounds() {
    assert_eq!(round_scores(b"A Y"), Some((8, 4)));
    assert_eq!(round_scores(b"B X"), Some((1, 1)));
    assert_eq!(round_scores(b"C Z"), Some((6, 7)));
    assert_eq!(round_scores(b"A X"), Some((4, 3)));
    assert_eq!(round_scores(b"A Z"), Some((3, 8)));
    assert_eq!(round_scores(b"B Y"), Some((5, 5)));
    assert_eq!(round_scores(b"B Z"), Some((9, 9)));
    assert_eq!(round_scores(b"C X"), Some((7, 2)));
    assert_eq!(round_scores(b"C Y"), Some((2, 6)));
    assert_eq!(round_scores(b"X Y"), Some((8, 4)));
}

#[test]
fn lines_that_tell_of_no_round() {
    assert_eq!(round_scores(b""), None);
    assert_eq!(round_scores(b"A"), None);
    assert_eq!(round_scores(b"AY"), None);
    assert_eq!(round_scores(b"A  Y"), None);
    assert_eq!(round_scores(b"A-Y"), None);
    assert_eq!(round_scores(b"A A"), None);
    assert_eq!(round_scores(b"D Y"), None);
    assert_eq!(round_scores(b"A W"), None);
    assert_eq!(round_scores(b"a y"), None);
    assert_eq!(round_scores(b"A Y "), None);
}

#[test]
fn scores_are_added_up() {
    assert_eq!(total_scores(&lines(&["A Y", "B X", "C Z"])), Some((15, 12)));
    assert_eq!(total_scores(&lines(&[])), Some((0, 0)));
    assert_eq!(total_scores(&lines(&["A Y", "B", "C Z"])), None);
}
