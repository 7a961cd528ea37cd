//! Lines of text taken apart by a regular expression.

use vstd::prelude::*;
use regex::Regex;

verus! {

/// Whether the text is a regular expression.
pub uninterp spec fn is_pattern(pattern: Seq<char>) -> bool;

/// What a regular expression finds in a text: for every group of the
/// expression, the whole match being the first, the part of the leftmost
/// match that the group took, or none if it took no part; `None` where the
/// expression has no match in the text.
pub uninterp spec fn match_groups(pattern: Seq<char>, text: Seq<char>) -> Option<
    Seq<Option<Seq<char>>>,
>;

/// What is found in the text with a pattern: the groups of the leftmost
/// match, if the pattern is a regular expression and has a match.
pub open spec fn found_in(pattern: Seq<char>, text: Seq<char>) -> Option<Seq<Option<Seq<char>>>> {
    if is_pattern(pattern) {
        match_groups(pattern, text)
    } else {
        None
    }
}

/// The texts as sequences of characters.
pub open spec fn texts_of(groups: Seq<String>) -> Seq<Seq<char>> {
    Seq::new(groups.len(), |i: int| groups[i]@)
}

/// The parts as sequences of characters.
pub open spec fn parts_of(groups: Seq<Option<String>>) -> Seq<Option<Seq<char>>> {
    Seq::new(
        groups.len(),
        |i: int|
            match groups[i] {
                Some(part) => Some(part@),
                None => None,
            },
    )
}

/// Searches the text for the expression. Calls `Regex::new`, which makes a
/// matcher from an expression or refuses it, and `Regex::captures`, which
/// gives the groups of the leftmost match if there is a match. Both are
/// functions of their arguments alone: whether the first takes the
/// expression is `is_pattern`, what the second gives is `match_groups`.
/// The result is `None` where the expression is refused.
#[verifier::external_body]
pub(crate) fn find_groups(pattern: &str, text: &str) -> (groups: Option<
    Option<Vec<Option<String>>>,
>)
    ensures
        match groups {
            Some(Some(found)) => is_pattern(pattern@) && match_groups(pattern@, text@) == Some(
                parts_of(found@),
            ),
            Some(None) => is_pattern(pattern@) && match_groups(pattern@, text@) is None,
            None => !is_pattern(pattern@),
        },
{
    let re = Regex::new(pattern).ok()?;
    let caps = re.captures(text);
    Some(caps.map(|caps| caps.iter().map(|m| m.map(|m| m.as_str().to_string())).collect()))
}

/// The text of a part; the empty text where there is none.
pub open spec fn text_of_part(part: Option<Seq<char>>) -> Seq<char> {
    match part {
        Some(text) => text,
        None => Seq::empty(),
    }
}

/// The texts that the groups after the whole match took, a group that took
/// no part giving the empty text.
pub open spec fn taken(found: Option<Seq<Option<Seq<char>>>>) -> Option<Seq<Seq<char>>> {
    match found {
        Some(parts) => if parts.len() == 0 {
            Some(Seq::empty())
        } else {
            Some(Seq::new((parts.len() - 1) as nat, |i: int| text_of_part(parts[i + 1])))
        },
        None => None,
    }
}

/// The texts that the groups after the whole match took.
pub fn taken_texts(parts: &Vec<Option<String>>) -> (texts: Vec<String>)
    ensures
        Some(texts_of(texts@)) == taken(Some(parts_of(parts@))),
{
    let mut texts: Vec<String> = Vec::new();
    let mut i: usize = 1;
    while i < parts.len()
        invariant
            1 <= i,
            i <= parts@.len() || (parts@.len() == 0 && i == 1),
            texts@.len() == i - 1,
            forall|k: int|
                0 <= k < i - 1 ==> (#[trigger] texts@[k])@ == text_of_part(parts_of(parts@)[k + 1]),
        decreases parts@.len() - i,
    {
        let text = match &parts[i] {
            Some(part) => part.as_str().to_owned(),
            None => String::new(),
        };
        texts.push(text);
        i += 1;
    }
    proof {
        if parts@.len() == 0 {
            assert(texts_of(texts@) =~= Seq::empty());
        } else {
            assert(texts_of(texts@) =~= Seq::new(
                (parts@.len() - 1) as nat,
                |k: int| text_of_part(parts_of(parts@)[k + 1]),
            ));
        }
    }
    texts
}

/// The texts that the groups of the expression take in the text, if the
/// expression is one and has a match there.
pub fn find_texts(pattern: &str, text: &str) -> (texts: Option<Vec<String>>)
    ensures
        match texts {
            Some(found) => taken(found_in(pattern@, text@)) == Some(texts_of(found@)),
            None => taken(found_in(pattern@, text@)) is None,
        },
{
    match find_groups(pattern, text) {
        Some(Some(parts)) => Some(taken_texts(&parts)),
        _ => None,
    }
}

} // verus!
