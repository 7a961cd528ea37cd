//! Pairs of work assignments, each a range of section numbers.

use vstd::prelude::*;
use vstd::pervasive::unreached;
use vstd::string::StringSliceAdditionalSpecFns;
use crate::text::{copy_part, find_byte, next_byte, parse_usize, unsigned_value};

verus! {

/// The sections from `start` to `end`, both included.
#[derive(Debug, Clone, Copy, PartialEq, Eq)]
pub struct Assignment {
    pub start: u64,
    pub end: u64,
}

/// The number that the text stands for, if it stands for one that fits.
pub open spec fn section_of(s: Seq<u8>) -> Option<u64> {
    match unsigned_value(s) {
        Some(v) => if v <= usize::MAX {
            Some(v as u64)
        } else {
            None
        },
        None => None,
    }
}

/// The assignment that a text of the form `start-end` stands for: what
/// comes before the first hyphen is the start, what follows it the end.
pub open spec fn assignment_of(s: Seq<u8>) -> Option<Assignment> {
    let hyphen = next_byte(s, 45, 0);
    if hyphen >= s.len() {
        None
    } else {
        match (section_of(s.subrange(0, hyphen)), section_of(s.subrange(hyphen + 1, s.len() as int))) {
            (Some(start), Some(end)) => Some(Assignment { start, end }),
            _ => None,
        }
    }
}

/// The two assignments that a line of the form `first,second` stands for.
pub open spec fn pair_of(s: Seq<u8>) -> Option<(Assignment, Assignment)> {
    let comma = next_byte(s, 44, 0);
    if comma >= s.len() {
        None
    } else {
        match (assignment_of(s.subrange(0, comma)), assignment_of(s.subrange(comma + 1, s.len() as int))) {
            (Some(first), Some(second)) => Some((first, second)),
            _ => None,
        }
    }
}

/// The number that the bytes from `from` up to `to` stand for.
fn read_section(bytes: &[u8], from: usize, to: usize) -> (section: Option<u64>)
    requires
        from <= to <= bytes@.len(),
    ensures
        section == section_of(bytes@.subrange(from as int, to as int)),
{
    match parse_usize(copy_part(bytes, from, to).as_slice()) {
        Some(v) => Some(v as u64),
        None => None,
    }
}

/// The assignment that the bytes stand for, if they stand for one.
pub fn read_assignment(bytes: &[u8]) -> (assignment: Option<Assignment>)
    ensures
        assignment == assignment_of(bytes@),
{
    let hyphen = find_byte(bytes, 45, 0);
    if hyphen >= bytes.len() {
        return None;
    }
    let start = read_section(bytes, 0, hyphen);
    let end = read_section(bytes, hyphen + 1, bytes.len());
    match (start, end) {
        (Some(start), Some(end)) => Some(Assignment { start, end }),
        _ => None,
    }
}

/// The two assignments that the bytes of a line stand for, if they stand
/// for two.
pub fn read_pair(bytes: &[u8]) -> (pair: Option<(Assignment, Assignment)>)
    ensures
        pair == pair_of(bytes@),
{
    let comma = find_byte(bytes, 44, 0);
    if comma >= bytes.len() {
        return None;
    }
    let first = read_assignment(copy_part(bytes, 0, comma).as_slice());
    let second = read_assignment(copy_part(bytes, comma + 1, bytes.len()).as_slice());
    match (first, second) {
        (Some(first), Some(second)) => Some((first, second)),
        _ => None,
    }
}

impl Assignment {
    /// Whether the section belongs to the assignment.
    pub open spec fn holds(&self, section: int) -> bool {
        self.start <= section <= self.end
    }

    /// The assignment that the text stands for.
    pub fn parse(s: &str) -> (assignment: Assignment)
        requires
            assignment_of(s.spec_bytes()) is Some,
        ensures
            Some(assignment) == assignment_of(s.spec_bytes()),
    {
        match read_assignment(s.as_bytes()) {
            Some(assignment) => assignment,
            None => unreached(),
        }
    }

    /// Whether the two ranges of section numbers meet: neither begins
    /// after the other's end. For two assignments that are not empty this
    /// is to share a section.
    pub fn overlaps(&self, other: &Assignment) -> (yes: bool)
        ensures
            yes == (other.start <= self.end && other.end >= self.start),
            self.start <= self.end && other.start <= other.end ==> yes == exists|section: int|
                self.holds(section) && other.holds(section),
    {
        proof {
            if self.start <= self.end && other.start <= other.end && other.start <= self.end
                && other.end >= self.start {
                let section: int = if self.start <= other.start {
                    other.start as int
                } else {
                    self.start as int
                };
                assert(self.holds(section) && other.holds(section));
            }
        }
        other.start <= self.end && other.end >= self.start
    }

    /// Whether this assignment holds both ends of the other one. Of an
    /// other one that is not empty it then holds every section.
    pub fn contains_completely(&self, other: &Assignment) -> (yes: bool)
        ensures
            yes == (self.holds(other.start as int) && self.holds(other.end as int)),
            other.start <= other.end ==> yes == forall|section: int|
                other.holds(section) ==> self.holds(section),
    {
        proof {
            if other.start <= other.end && (forall|section: int|
                other.holds(section) ==> self.holds(section)) {
                assert(other.holds(other.start as int));
                assert(other.holds(other.end as int));
            }
        }
        self.start <= other.start && other.start <= self.end && self.start <= other.end
            && other.end <= self.end
    }
}

/// Whether one of the two assignments holds both ends of the other.
pub open spec fn one_within(pair: (Assignment, Assignment)) -> bool {
    ||| pair.0.holds(pair.1.start as int) && pair.0.holds(pair.1.end as int)
    ||| pair.1.holds(pair.0.start as int) && pair.1.holds(pair.0.end as int)
}

/// Whether neither of the two assignments begins after the other's end.
pub open spec fn meet(pair: (Assignment, Assignment)) -> bool {
    pair.1.start <= pair.0.end && pair.1.end >= pair.0.start
}

/// How many of the pairs have one assignment within the other.
pub open spec fn within_count(pairs: Seq<(Assignment, Assignment)>) -> nat
    decreases pairs.len(),
{
    if pairs.len() == 0 {
        0
    } else {
        within_count(pairs.drop_last()) + if one_within(pairs.last()) {
            1nat
        } else {
            0nat
        }
    }
}

/// How many of the pairs meet.
pub open spec fn meeting_count(pairs: Seq<(Assignment, Assignment)>) -> nat
    decreases pairs.len(),
{
    if pairs.len() == 0 {
        0
    } else {
        meeting_count(pairs.drop_last()) + if meet(pairs.last()) {
            1nat
        } else {
            0nat
        }
    }
}

/// The number of pairs in which one assignment lies within the other.
pub fn count_contained(pairs: &Vec<(Assignment, Assignment)>) -> (count: usize)
    ensures
        count == within_count(pairs@),
{
    let mut count: usize = 0;
    let mut i: usize = 0;
    while i < pairs.len()
        invariant
            i <= pairs@.len(),
            count == within_count(pairs@.take(i as int)),
            count <= i,
        decreases pairs@.len() - i,
    {
        assert(pairs@.take(i + 1).drop_last() =~= pairs@.take(i as int));
        let (first, second) = pairs[i];
        if first.contains_completely(&second) || second.contains_completely(&first) {
            count += 1;
        }
        i += 1;
    }
    assert(pairs@.take(i as int) =~= pairs@);
    count
}

/// The number of pairs whose assignments meet.
pub fn count_overlapping(pairs: &Vec<(Assignment, Assignment)>) -> (count: usize)
    ensures
        count == meeting_count(pairs@),
{
    let mut count: usize = 0;
    let mut i: usize = 0;
    while i < pairs.len()
        invariant
            i <= pairs@.len(),
            count == meeting_count(pairs@.take(i as int)),
            count <= i,
        decreases pairs@.len() - i,
    {
        assert(pairs@.take(i + 1).drop_last() =~= pairs@.take(i as int));
        let (first, second) = pairs[i];
        if first.overlaps(&second) || second.overlaps(&first) {
            count += 1;
        }
        i += 1;
    }
    assert(pairs@.take(i as int) =~= pairs@);
    count
}

} // verus!
