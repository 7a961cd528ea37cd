//! The first place in a stream of characters at which the last few were
//! all different.

use std::collections::VecDeque;
use vstd::prelude::*;
use vstd::pervasive::unreached;

verus! {

/// Whether the `len` characters before position `n` of the text are all
/// different.
pub open spec fn marker_ends_at(text: Seq<char>, len: int, n: int) -> bool {
    len <= n <= text.len() && text.subrange(n - len, n).no_duplicates()
}

/// Whether the characters are all different.
pub fn is_marker(buffer: &VecDeque<char>) -> (distinct: bool)
    ensures
        distinct == buffer@.no_duplicates(),
{
    let n = buffer.len();
    let mut i: usize = 0;
    while i < n
        invariant
            i <= n,
            n == buffer@.len(),
            forall|a: int, b: int| 0 <= a < i && a < b < n ==> buffer@[a] != buffer@[b],
        decreases n - i,
    {
        let mut j: usize = i + 1;
        while j < n
            invariant
                i < j <= n,
                n == buffer@.len(),
                forall|b: int| i < b < j ==> buffer@[i as int] != buffer@[b],
            decreases n - j,
        {
            if buffer[i] == buffer[j] {
                return false;
            }
            j += 1;
        }
        i += 1;
    }
    true
}

/// The number of characters up to the end of the first run of `len`
/// characters that are all different; `None` if the text has no such run.
pub fn seek_marker(input: &str, len: usize) -> (position: Option<usize>)
    ensures
        match position {
            Some(p) => marker_ends_at(input@, len as int, p as int) && forall|m: int|
                m < p ==> !marker_ends_at(input@, len as int, m),
            None => forall|n: int| !marker_ends_at(input@, len as int, n),
        },
{
    let total = input.unicode_len();
    let ghost text = input@;
    if len > total {
        return None;
    }
    let mut buffer: VecDeque<char> = VecDeque::new();
    while buffer.len() < len
        invariant
            buffer@.len() <= len <= total,
            total == text.len(),
            text == input@,
            buffer@ == text.subrange(0, buffer@.len() as int),
        decreases len - buffer@.len(),
    {
        let next = input.get_char(buffer.len());
        let ghost before = buffer@;
        buffer.push_back(next);
        assert(buffer@ =~= text.subrange(0, before.len() as int + 1));
    }
    let mut marker_count = len;
    loop
        invariant
            len <= marker_count <= total,
            total == text.len(),
            text == input@,
            buffer@ == text.subrange(marker_count - len, marker_count as int),
            forall|m: int| m < marker_count ==> !marker_ends_at(text, len as int, m),
        decreases total - marker_count,
    {
        if is_marker(&buffer) {
            return Some(marker_count);
        }
        if marker_count == total {
            return None;
        }
        let ghost before = buffer@;
        buffer.pop_front();
        let next = input.get_char(marker_count);
        buffer.push_back(next);
        assert(buffer@ =~= text.subrange(marker_count + 1 - len, marker_count + 1)) by {
            if len == 0 {
                assert(before.len() == 0);
            }
        }
        marker_count += 1;
    }
}

/// The number of characters up to the end of the first run of `len`
/// characters that are all different, in a text that has such a run.
pub fn find_position_of_marker(input: &str, len: usize) -> (position: usize)
    requires
        exists|n: int| marker_ends_at(input@, len as int, n),
    ensures
        marker_ends_at(input@, len as int, position as int),
        forall|m: int| m < position ==> !marker_ends_at(input@, len as int, m),
{
    match seek_marker(input, len) {
        Some(position) => position,
        None => unreached(),
    }
}

} // verus!
