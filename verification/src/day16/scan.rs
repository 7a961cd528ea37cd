//! The lines that tell of the valves: the name, the rate, and the names of
//! the valves that tunnels lead to.

use vstd::prelude::*;
use vstd::string::StringSliceAdditionalSpecFns;
use crate::text::copy_part;
use crate::day16::Valve;
use crate::text::{chars_of, find_byte, is_ascii_bytes, next_byte, parse_usize, text_between, unsigned_value};

verus! {

/// The byte that ends a line.
pub const NEWLINE: u8 = 10;

/// The first place at or after `from` where the byte `a` stands with the
/// byte `b` after it, or the length of the text if there is none.
pub open spec fn next_pair(s: Seq<u8>, a: u8, b: u8, from: int) -> int
    decreases s.len() - from,
{
    if from + 1 >= s.len() {
        s.len() as int
    } else if s[from] == a && s[from + 1] == b {
        from
    } else {
        next_pair(s, a, b, from + 1)
    }
}

/// Whether the byte is white space.
pub open spec fn is_space(b: u8) -> bool {
    b == 32 || (9 <= b <= 13)
}

/// Where what is left of the text from `from` up to `to` begins when the
/// white space at its start is taken off.
pub open spec fn trim_start(s: Seq<u8>, from: int, to: int) -> int
    decreases to - from,
{
    if from >= to {
        to
    } else if is_space(s[from]) {
        trim_start(s, from + 1, to)
    } else {
        from
    }
}

/// Where what is left of the text from `from` up to `to` ends when the
/// white space at its end is taken off.
pub open spec fn trim_end(s: Seq<u8>, from: int, to: int) -> int
    decreases to - from,
{
    if from >= to {
        from
    } else if is_space(s[to - 1]) {
        trim_end(s, from, to - 1)
    } else {
        to
    }
}

/// The text from `from` up to `to` without the white space at its start
/// and at its end.
pub open spec fn trimmed(s: Seq<u8>, from: int, to: int) -> Seq<u8> {
    let start = trim_start(s, from, to);
    s.subrange(start, trim_end(s, start, to))
}

/// The names that the text from `from` on lists, parted by a comma and a
/// space, each without white space round it; `None` where a name holds a
/// byte of 128 or above.
pub open spec fn listed(s: Seq<u8>, from: int) -> Option<Seq<Seq<char>>>
    decreases s.len() - from,
{
    if from > s.len() || from < 0 {
        None
    } else {
        let end = next_pair(s, 44, 32, from);
        let name = trimmed(s, from, if end < from {
            from
        } else {
            end
        });
        if !is_ascii_bytes(name) {
            None
        } else if end >= s.len() || end < from || end + 2 > s.len() {
            Some(seq![chars_of(name)])
        } else {
            match listed(s, end + 2) {
                Some(rest) => Some(seq![chars_of(name)] + rest),
                None => None,
            }
        }
    }
}

/// What a line tells of a valve: its name, its rate, and the names of the
/// valves that tunnels lead to.
pub struct Told {
    pub name: Seq<char>,
    pub rate: usize,
    pub neighbours: Seq<Seq<char>>,
}

/// What a line tells of: up to the first semicolon and space, the name in
/// its seventh and eighth byte and the rate from its twenty-fourth byte
/// on; after them, from the twenty-third byte on, the list of names.
pub open spec fn told_by(line: Seq<u8>) -> Option<Told> {
    let cut = next_pair(line, 59, 32, 0);
    if cut >= line.len() || cut < 23 || line.len() - (cut + 2) < 22 || !is_ascii_bytes(
        line.subrange(6, 8),
    ) {
        None
    } else {
        match (unsigned_value(line.subrange(23, cut)), listed(line, cut + 2 + 22)) {
            (Some(rate), Some(neighbours)) => if rate <= usize::MAX {
                Some(Told { name: chars_of(line.subrange(6, 8)), rate: rate as usize, neighbours })
            } else {
                None
            },
            _ => None,
        }
    }
}

/// The first place at or after `from` where `a` stands with `b` after it.
pub fn find_pair(bytes: &[u8], a: u8, b: u8, from: usize) -> (at: usize)
    requires
        from <= bytes@.len(),
    ensures
        at == next_pair(bytes@, a, b, from as int),
        from <= at <= bytes@.len(),
        at < bytes@.len() ==> at + 1 < bytes@.len(),
{
    let mut at = from;
    while at < bytes.len() && at + 1 < bytes.len() && !(bytes[at] == a && bytes[at + 1] == b)
        invariant
            from <= at <= bytes@.len(),
            next_pair(bytes@, a, b, from as int) == next_pair(bytes@, a, b, at as int),
        decreases bytes@.len() - at,
    {
        at += 1;
    }
    if bytes.len() - at < 2 {
        bytes.len()
    } else {
        at
    }
}

/// Whether the byte is white space.
pub fn space(b: u8) -> (yes: bool)
    ensures
        yes == is_space(b),
{
    b == 32 || (9 <= b && b <= 13)
}

/// The bounds of the text from `from` up to `to` without the white space
/// at its start and at its end.
pub fn trim(bytes: &[u8], from: usize, to: usize) -> (bounds: (usize, usize))
    requires
        from <= to <= bytes@.len(),
    ensures
        from <= bounds.0 <= bounds.1 <= to,
        bytes@.subrange(bounds.0 as int, bounds.1 as int) == trimmed(
            bytes@,
            from as int,
            to as int,
        ),
{
    let mut start = from;
    while start < to && space(bytes[start])
        invariant
            from <= start <= to <= bytes@.len(),
            trim_start(bytes@, from as int, to as int) == trim_start(
                bytes@,
                start as int,
                to as int,
            ),
        decreases to - start,
    {
        start += 1;
    }
    let mut end = to;
    while start < end && space(bytes[end - 1])
        invariant
            start <= end <= to <= bytes@.len(),
            trim_end(bytes@, start as int, to as int) == trim_end(
                bytes@,
                start as int,
                end as int,
            ),
        decreases end - start,
    {
        end -= 1;
    }
    (start, end)
}

/// The texts as sequences of characters.
pub open spec fn views(list: Seq<String>) -> Seq<Seq<char>> {
    Seq::new(list.len(), |i: int| list[i]@)
}

/// The names that the text from `from` on lists.
pub fn read_list(bytes: &[u8], from: usize) -> (names: Option<Vec<String>>)
    requires
        from <= bytes@.len(),
    ensures
        match names {
            Some(list) => listed(bytes@, from as int) == Some(views(list@)),
            None => listed(bytes@, from as int) is None,
        },
{
    let ghost s = bytes@;
    let mut names: Vec<String> = Vec::new();
    let mut at = from;
    assert(views(names@) =~= Seq::empty());
    loop
        invariant
            from <= at <= bytes@.len(),
            s == bytes@,
            match listed(s, at as int) {
                Some(rest) => listed(s, from as int) == Some(views(names@) + rest),
                None => listed(s, from as int) is None,
            },
        decreases bytes@.len() - at,
    {
        let end = find_pair(bytes, 44, 32, at);
        let (start, stop) = trim(bytes, at, end);
        let ghost before = views(names@);
        match text_between(bytes, start, stop) {
            None => {
                return None;
            },
            Some(name) => {
                let ghost view = name@;
                names.push(name);
                proof {
                    assert(views(names@) =~= before + seq![view]);
                    if end < s.len() && listed(s, end + 2) is Some {
                        let rest = listed(s, end + 2).unwrap();
                        assert(before + (seq![view] + rest) =~= views(names@) + rest);
                    }
                }
            },
        }
        if end >= bytes.len() {
            return Some(names);
        }
        at = end + 2;
    }
}

/// The valve and its name that the line from `from` up to `to` tells of.
pub fn read_valve(bytes: &[u8], from: usize, to: usize) -> (valve: Option<(String, Valve)>)
    requires
        from <= to <= bytes@.len(),
    ensures
        match valve {
            Some((name, v)) => told_by(bytes@.subrange(from as int, to as int)) == Some(
                Told { name: name@, rate: v.rate, neighbours: views(v.neighbours@) },
            ),
            None => told_by(bytes@.subrange(from as int, to as int)) is None,
        },
{
    let line = copy_part(bytes, from, to);
    let ghost s = line@;
    let cut = find_pair(line.as_slice(), 59, 32, 0);
    if cut >= line.len() || cut < 23 || line.len() - (cut + 2) < 22 {
        return None;
    }
    let name = match text_between(line.as_slice(), 6, 8) {
        Some(name) => name,
        None => {
            return None;
        },
    };
    let rate = parse_usize(copy_part(line.as_slice(), 23, cut).as_slice());
    let neighbours = read_list(line.as_slice(), cut + 2 + 22);
    match (rate, neighbours) {
        (Some(rate), Some(neighbours)) => Some((name, Valve { rate, neighbours })),
        _ => None,
    }
}

/// The valves that the lines of the text from `from` on tell of, with
/// their names; `None` if a line tells of none.
pub open spec fn valves_from(s: Seq<u8>, from: int) -> Option<Seq<Told>>
    decreases s.len() - from,
{
    if from >= s.len() || from < 0 {
        Some(Seq::empty())
    } else {
        let end = next_byte(s, NEWLINE, from);
        if end < from {
            None
        } else {
            match told_by(s.subrange(from, end)) {
                None => None,
                Some(told) => if end >= s.len() {
                    Some(seq![told])
                } else {
                    match valves_from(s, end + 1) {
                        Some(rest) => Some(seq![told] + rest),
                        None => None,
                    }
                },
            }
        }
    }
}

/// What the valves and their names tell, valve by valve.
pub open spec fn tellings(valves: Seq<Valve>, names: Seq<String>) -> Seq<Told> {
    Seq::new(
        valves.len(),
        |i: int|
            Told { name: names[i]@, rate: valves[i].rate, neighbours: views(valves[i].neighbours@) },
    )
}

/// The valves that the lines of the text tell of, and their names in the
/// same order; `None` if a line tells of none.
pub fn parse_valves(input: &str) -> (parsed: Option<(Vec<Valve>, Vec<String>)>)
    ensures
        match parsed {
            Some((valves, names)) => names@.len() == valves@.len() && valves_from(
                input.spec_bytes(),
                0,
            ) == Some(tellings(valves@, names@)),
            None => valves_from(input.spec_bytes(), 0) is None,
        },
{
    let bytes = input.as_bytes();
    let ghost s = bytes@;
    let mut valves: Vec<Valve> = Vec::new();
    let mut names: Vec<String> = Vec::new();
    let mut from: usize = 0;
    assert(tellings(valves@, names@) =~= Seq::empty());
    while from < bytes.len()
        invariant
            s == bytes@,
            s == input.spec_bytes(),
            names@.len() == valves@.len(),
            match valves_from(s, from as int) {
                Some(rest) => valves_from(s, 0) == Some(tellings(valves@, names@) + rest),
                None => valves_from(s, 0) is None,
            },
        decreases bytes@.len() - from,
    {
        let end = find_byte(bytes, NEWLINE, from);
        let ghost before = tellings(valves@, names@);
        match read_valve(bytes, from, end) {
            None => {
                return None;
            },
            Some((name, valve)) => {
                let ghost told = Told {
                    name: name@,
                    rate: valve.rate,
                    neighbours: views(valve.neighbours@),
                };
                names.push(name);
                valves.push(valve);
                proof {
                    assert(tellings(valves@, names@) =~= before + seq![told]);
                    if end < s.len() && valves_from(s, end + 1) is Some {
                        let rest = valves_from(s, end + 1).unwrap();
                        assert(before + (seq![told] + rest) =~= tellings(valves@, names@) + rest);
                    }
                }
            },
        }
        if end == bytes.len() {
            return Some((valves, names));
        }
        from = end + 1;
    }
    assert(tellings(valves@, names@) + Seq::<Told>::empty() =~= tellings(valves@, names@));
    Some((valves, names))
}

} // verus!
