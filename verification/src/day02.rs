//! Rock, paper, scissors: moves, outcomes and scores.

use vstd::prelude::*;
use vstd::string::StringSliceAdditionalSpecFns;

verus! {

#[derive(Debug, Clone, Copy, PartialEq, Eq, Structural)]
pub enum RPS {
    Rock,
    Paper,
    Scissors,
}

#[derive(Debug, Clone, Copy, PartialEq, Eq, Structural)]
pub enum RoundResult {
    Win,
    Draw,
    Loss,
}

/// Whether the text is one letter that names a move: `A`, `B`, `C` for the
/// opponent, `X`, `Y`, `Z` for oneself.
pub open spec fn names_move(text: Seq<u8>) -> bool {
    text.len() == 1 && (65 <= text[0] <= 67 || 88 <= text[0] <= 90)
}

/// Whether the text is one letter that names an outcome: `X`, `Y` or `Z`.
pub open spec fn names_result(text: Seq<u8>) -> bool {
    text.len() == 1 && 88 <= text[0] <= 90
}

/// The move that a letter names.
pub open spec fn move_of(letter: u8) -> RPS {
    if letter == 65 || letter == 88 {
        RPS::Rock
    } else if letter == 66 || letter == 89 {
        RPS::Paper
    } else {
        RPS::Scissors
    }
}

/// The outcome that a letter names.
pub open spec fn result_of(letter: u8) -> RoundResult {
    if letter == 88 {
        RoundResult::Loss
    } else if letter == 89 {
        RoundResult::Draw
    } else {
        RoundResult::Win
    }
}

impl RPS {
    /// The points for playing the move.
    pub open spec fn spec_value(self) -> int {
        match self {
            RPS::Rock => 1,
            RPS::Paper => 2,
            RPS::Scissors => 3,
        }
    }

    /// The move that this move defeats.
    pub open spec fn beats(self) -> RPS {
        match self {
            RPS::Rock => RPS::Scissors,
            RPS::Paper => RPS::Rock,
            RPS::Scissors => RPS::Paper,
        }
    }

    /// The outcome for the player of this move against `opponent`.
    pub open spec fn spec_result(self, opponent: RPS) -> RoundResult {
        if self == opponent {
            RoundResult::Draw
        } else if self.beats() == opponent {
            RoundResult::Win
        } else {
            RoundResult::Loss
        }
    }

    pub fn parse(line: &str) -> (rps: RPS)
        requires
            names_move(line.spec_bytes()),
        ensures
            rps == move_of(line.spec_bytes()[0]),
    {
        let letter = line.as_bytes()[0];
        if letter == 65 || letter == 88 {
            RPS::Rock
        } else if letter == 66 || letter == 89 {
            RPS::Paper
        } else {
            RPS::Scissors
        }
    }

    pub fn value(&self) -> (v: u32)
        ensures
            v == self.spec_value(),
    {
        match self {
            RPS::Rock => 1,
            RPS::Paper => 2,
            RPS::Scissors => 3,
        }
    }

    pub fn result(&self, opponent: &RPS) -> (r: RoundResult)
        ensures
            r == self.spec_result(*opponent),
    {
        match self {
            RPS::Rock => match opponent {
                RPS::Rock => RoundResult::Draw,
                RPS::Paper => RoundResult::Loss,
                RPS::Scissors => RoundResult::Win,
            },
            RPS::Paper => match opponent {
                RPS::Rock => RoundResult::Win,
                RPS::Paper => RoundResult::Draw,
                RPS::Scissors => RoundResult::Loss,
            },
            RPS::Scissors => match opponent {
                RPS::Rock => RoundResult::Loss,
                RPS::Paper => RoundResult::Win,
                RPS::Scissors => RoundResult::Draw,
            },
        }
    }

    /// The points for the move and for the outcome against `opponent`.
    pub fn score(&self, opponent: &RPS) -> (s: u32)
        ensures
            s == self.spec_value() + self.spec_result(*opponent).spec_value(),
            1 <= s <= 9,
    {
        self.value() + self.result(opponent).value()
    }
}

impl RoundResult {
    /// The points for the outcome.
    pub open spec fn spec_value(self) -> int {
        match self {
            RoundResult::Win => 6,
            RoundResult::Draw => 3,
            RoundResult::Loss => 0,
        }
    }

    pub fn parse(s: &str) -> (r: RoundResult)
        requires
            names_result(s.spec_bytes()),
        ensures
            r == result_of(s.spec_bytes()[0]),
    {
        let letter = s.as_bytes()[0];
        if letter == 88 {
            RoundResult::Loss
        } else if letter == 89 {
            RoundResult::Draw
        } else {
            RoundResult::Win
        }
    }

    pub fn value(&self) -> (v: u32)
        ensures
            v == self.spec_value(),
    {
        match self {
            RoundResult::Win => 6,
            RoundResult::Draw => 3,
            RoundResult::Loss => 0,
        }
    }

    /// The move that gives this outcome against `opponent`.
    pub fn required_move(&self, opponent: &RPS) -> (m: RPS)
        ensures
            m.spec_result(*opponent) == *self,
            forall|other: RPS| other.spec_result(*opponent) == *self ==> other == m,
    {
        match opponent {
            RPS::Rock => match self {
                RoundResult::Win => RPS::Paper,
                RoundResult::Draw => RPS::Rock,
                RoundResult::Loss => RPS::Scissors,
            },
            RPS::Paper => match self {
                RoundResult::Win => RPS::Scissors,
                RoundResult::Draw => RPS::Paper,
                RoundResult::Loss => RPS::Rock,
            },
            RPS::Scissors => match self {
                RoundResult::Win => RPS::Rock,
                RoundResult::Draw => RPS::Scissors,
                RoundResult::Loss => RPS::Paper,
            },
        }
    }
}

/// Whether the line tells of a round: a letter that names a move, a space,
/// and one of the letters `X`, `Y`, `Z`.
pub open spec fn is_round(line: Seq<u8>) -> bool {
    &&& line.len() == 3
    &&& line[1] == 32
    &&& (65 <= line[0] <= 67 || 88 <= line[0] <= 90)
    &&& 88 <= line[2] <= 90
}

/// The move that gives the outcome against `opponent`.
pub open spec fn answer(outcome: RoundResult, opponent: RPS) -> RPS {
    choose|m: RPS| m.spec_result(opponent) == outcome
}

/// The points for the round when its second letter names one's own move.
pub open spec fn score_as_move(line: Seq<u8>) -> int {
    move_of(line[2]).spec_value() + move_of(line[2]).spec_result(move_of(line[0])).spec_value()
}

/// The points for the round when its second letter names the outcome, and
/// one makes the move that gives it.
pub open spec fn score_as_outcome(line: Seq<u8>) -> int {
    answer(result_of(line[2]), move_of(line[0])).spec_value() + result_of(line[2]).spec_value()
}

/// The points for the first `n` rounds, the second letter read as a move.
pub open spec fn total_as_moves(lines: Seq<Vec<u8>>, n: int) -> int
    decreases n,
{
    if n <= 0 {
        0
    } else {
        total_as_moves(lines, n - 1) + score_as_move(lines[n - 1]@)
    }
}

/// The points for the first `n` rounds, the second letter read as an
/// outcome.
pub open spec fn total_as_outcomes(lines: Seq<Vec<u8>>, n: int) -> int
    decreases n,
{
    if n <= 0 {
        0
    } else {
        total_as_outcomes(lines, n - 1) + score_as_outcome(lines[n - 1]@)
    }
}

/// The move that the letter names.
pub fn move_named(letter: u8) -> (rps: RPS)
    ensures
        rps == move_of(letter),
{
    if letter == 65 || letter == 88 {
        RPS::Rock
    } else if letter == 66 || letter == 89 {
        RPS::Paper
    } else {
        RPS::Scissors
    }
}

/// The outcome that the letter names.
pub fn outcome_named(letter: u8) -> (r: RoundResult)
    ensures
        r == result_of(letter),
{
    if letter == 88 {
        RoundResult::Loss
    } else if letter == 89 {
        RoundResult::Draw
    } else {
        RoundResult::Win
    }
}

/// The points for the round that the line tells of, its second letter read
/// as a move and as an outcome; `None` if the line tells of no round.
pub fn round_scores(line: &[u8]) -> (scores: Option<(u32, u32)>)
    ensures
        scores is Some == is_round(line@),
        scores matches Some((first, second)) ==> first == score_as_move(line@) && second
            == score_as_outcome(line@) && first <= 9 && second <= 9,
{
    if line.len() != 3 || line[1] != 32 {
        return None;
    }
    let (a, b) = (line[0], line[2]);
    if !((65 <= a && a <= 67) || (88 <= a && a <= 90)) || !(88 <= b && b <= 90) {
        return None;
    }
    let opp_move = move_named(a);
    let own_move_pt1 = move_named(b);
    let round_result = outcome_named(b);
    let own_move_pt2 = round_result.required_move(&opp_move);
    assert(own_move_pt2 == answer(round_result, opp_move));
    Some((own_move_pt1.score(&opp_move), own_move_pt2.score(&opp_move)))
}

/// The points for all the rounds, the second letter read as a move and as
/// an outcome; `None` if a line tells of no round.
pub fn total_scores(lines: &Vec<Vec<u8>>) -> (totals: Option<(u128, u128)>)
    ensures
        totals is Some == forall|i: int| 0 <= i < lines@.len() ==> is_round(#[trigger] lines@[i]@),
        totals matches Some((first, second)) ==> first == total_as_moves(
            lines@,
            lines@.len() as int,
        ) && second == total_as_outcomes(lines@, lines@.len() as int),
{
    let mut first: u128 = 0;
    let mut second: u128 = 0;
    let mut i: usize = 0;
    while i < lines.len()
        invariant
            i <= lines@.len(),
            forall|k: int| 0 <= k < i ==> is_round(#[trigger] lines@[k]@),
            first == total_as_moves(lines@, i as int),
            second == total_as_outcomes(lines@, i as int),
            first <= 9 * i,
            second <= 9 * i,
        decreases lines@.len() - i,
    {
        match round_scores(lines[i].as_slice()) {
            Some((a, b)) => {
                first = first + a as u128;
                second = second + b as u128;
            },
            None => {
                return None;
            },
        }
        i += 1;
    }
    Some((first, second))
}

} // verus!
