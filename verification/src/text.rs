//! Decimal numerals in text.

use vstd::prelude::*;
use vstd::string::StringSliceAdditionalSpecFns;
use vstd::utf8::is_ascii_chars;

verus! {

broadcast use vstd::string::group_string_axioms;

/// Whether the byte is a decimal digit.
pub open spec fn is_digit(b: u8) -> bool {
    48 <= b <= 57
}

/// Whether the text is made of decimal digits, at least one.
pub open spec fn is_numeral(s: Seq<u8>) -> bool {
    s.len() > 0 && forall|i: int| 0 <= i < s.len() ==> is_digit(#[trigger] s[i])
}

/// The number that the digits stand for.
pub open spec fn numeral_value(s: Seq<u8>) -> nat
    decreases s.len(),
{
    if s.len() == 0 {
        0
    } else {
        (numeral_value(s.drop_last()) * 10 + (s.last() - 48)) as nat
    }
}

/// The number that a numeral with an optional sign in front stands for;
/// `None` if the text is none.
pub open spec fn signed_value(s: Seq<u8>) -> Option<int> {
    if s.len() > 0 && s[0] == 45 {
        if is_numeral(s.subrange(1, s.len() as int)) {
            Some(-(numeral_value(s.subrange(1, s.len() as int)) as int))
        } else {
            None
        }
    } else if s.len() > 0 && s[0] == 43 {
        if is_numeral(s.subrange(1, s.len() as int)) {
            Some(numeral_value(s.subrange(1, s.len() as int)) as int)
        } else {
            None
        }
    } else if is_numeral(s) {
        Some(numeral_value(s) as int)
    } else {
        None
    }
}

/// The number that a numeral with an optional plus sign in front stands
/// for; `None` if the text is none.
pub open spec fn unsigned_value(s: Seq<u8>) -> Option<int> {
    if s.len() > 0 && s[0] == 45 {
        None
    } else {
        signed_value(s)
    }
}

/// A numeral stands for no less than any of its beginnings.
pub proof fn lemma_numeral_grows(s: Seq<u8>, n: int)
    requires
        0 <= n <= s.len(),
        forall|i: int| 0 <= i < s.len() ==> is_digit(#[trigger] s[i]),
    ensures
        numeral_value(s.subrange(0, n)) <= numeral_value(s),
    decreases s.len() - n,
{
    if n < s.len() {
        let front = s.drop_last();
        assert(front.subrange(0, n) =~= s.subrange(0, n));
        assert forall|i: int| 0 <= i < front.len() implies is_digit(#[trigger] front[i]) by {
            assert(front[i] == s[i]);
        }
        lemma_numeral_grows(front, n);
        assert(is_digit(s[s.len() - 1]));
    } else {
        assert(s.subrange(0, n) =~= s);
    }
}

/// The number that the digits from `from` on stand for; `None` if there is
/// none, if a byte is no digit, or if the number does not fit.
pub fn parse_digits(bytes: &[u8], from: usize) -> (value: Option<usize>)
    requires
        from <= bytes@.len(),
    ensures
        value == if is_numeral(bytes@.subrange(from as int, bytes@.len() as int)) && numeral_value(
            bytes@.subrange(from as int, bytes@.len() as int),
        ) <= usize::MAX {
            Some(numeral_value(bytes@.subrange(from as int, bytes@.len() as int)) as usize)
        } else {
            None
        },
{
    let ghost s = bytes@.subrange(from as int, bytes@.len() as int);
    if from == bytes.len() {
        return None;
    }
    let mut acc: usize = 0;
    let mut i: usize = from;
    assert(s.subrange(0, 0) =~= Seq::<u8>::empty());
    while i < bytes.len()
        invariant
            from <= i <= bytes@.len(),
            s == bytes@.subrange(from as int, bytes@.len() as int),
            forall|k: int| 0 <= k < i - from ==> is_digit(#[trigger] s[k]),
            acc == numeral_value(s.subrange(0, i - from)),
        decreases bytes@.len() - i,
    {
        let b = bytes[i];
        assert(s[i - from] == b);
        if b < 48 || b > 57 {
            return None;
        }
        let digit = (b - 48) as usize;
        proof {
            let shorter = s.subrange(0, i - from);
            let longer = s.subrange(0, i - from + 1);
            assert(longer.drop_last() =~= shorter);
            assert(longer.last() == b);
        }
        if acc > (usize::MAX - digit) / 10 {
            proof {
                let longer = s.subrange(0, i - from + 1);
                assert(numeral_value(longer) > usize::MAX);
                if is_numeral(s) {
                    lemma_numeral_grows(s, i - from + 1);
                }
            }
            return None;
        }
        acc = acc * 10 + digit;
        i += 1;
    }
    assert(s.subrange(0, i - from) =~= s);
    Some(acc)
}

/// The number that the text stands for, which may begin with a plus sign;
/// `None` if it stands for none or the number does not fit.
pub fn parse_usize(bytes: &[u8]) -> (value: Option<usize>)
    ensures
        value == match unsigned_value(bytes@) {
            Some(v) => if v <= usize::MAX {
                Some(v as usize)
            } else {
                None
            },
            None => None,
        },
{
    if bytes.len() > 0 && bytes[0] == 45 {
        None
    } else if bytes.len() > 0 && bytes[0] == 43 {
        parse_digits(bytes, 1)
    } else {
        assert(bytes@.subrange(0, bytes@.len() as int) =~= bytes@);
        parse_digits(bytes, 0)
    }
}

/// The number that the text stands for, which may begin with a sign;
/// `None` if it stands for none or the number does not fit.
pub fn parse_isize(bytes: &[u8]) -> (value: Option<isize>)
    ensures
        value == match signed_value(bytes@) {
            Some(v) => if isize::MIN <= v <= isize::MAX {
                Some(v as isize)
            } else {
                None
            },
            None => None,
        },
{
    if bytes.len() > 0 && bytes[0] == 45 {
        match parse_digits(bytes, 1) {
            Some(magnitude) => {
                if magnitude <= isize::MAX as usize {
                    Some(-(magnitude as isize))
                } else if magnitude == isize::MAX as usize + 1 {
                    Some(isize::MIN)
                } else {
                    None
                }
            },
            None => None,
        }
    } else {
        let from: usize = if bytes.len() > 0 && bytes[0] == 43 {
            1
        } else {
            0
        };
        assert(bytes@.subrange(0, bytes@.len() as int) =~= bytes@);
        match parse_digits(bytes, from) {
            Some(magnitude) => {
                if magnitude <= isize::MAX as usize {
                    Some(magnitude as isize)
                } else {
                    None
                }
            },
            None => None,
        }
    }
}

/// The characters as bytes.
pub open spec fn bytes_of(text: Seq<char>) -> Seq<u8> {
    Seq::new(text.len(), |i: int| text[i] as u8)
}

/// The whole number that the text stands for, if it stands for one that
/// fits the machine's integers.
pub open spec fn int_of_text(text: Seq<char>) -> Option<isize> {
    if is_ascii_chars(text) {
        match signed_value(bytes_of(text)) {
            Some(v) => if isize::MIN <= v <= isize::MAX {
                Some(v as isize)
            } else {
                None
            },
            None => None,
        }
    } else {
        None
    }
}

/// The natural number that the text stands for, if it stands for one that
/// fits the machine's integers.
pub open spec fn nat_of_text(text: Seq<char>) -> Option<usize> {
    if is_ascii_chars(text) {
        match unsigned_value(bytes_of(text)) {
            Some(v) => if v <= usize::MAX {
                Some(v as usize)
            } else {
                None
            },
            None => None,
        }
    } else {
        None
    }
}

/// The whole number that the text stands for.
pub fn parse_isize_text(text: &str) -> (value: Option<isize>)
    ensures
        value == int_of_text(text@),
{
    if !text.is_ascii() {
        return None;
    }
    assert(text.spec_bytes() =~= bytes_of(text@));
    parse_isize(text.as_bytes())
}

/// The natural number that the text stands for.
pub fn parse_usize_text(text: &str) -> (value: Option<usize>)
    ensures
        value == nat_of_text(text@),
{
    if !text.is_ascii() {
        return None;
    }
    assert(text.spec_bytes() =~= bytes_of(text@));
    parse_usize(text.as_bytes())
}

/// The text whose characters are the given bytes, none of them above 127.
///
/// Calls `String::from_utf8`, which gives back the bytes as a string where
/// they are valid UTF-8, as bytes below 128 always are.
#[verifier::external_body]
pub(crate) fn string_of_ascii(bytes: Vec<u8>) -> (text: String)
    requires
        forall|i: int| 0 <= i < bytes@.len() ==> bytes@[i] < 128,
    ensures
        text@.len() == bytes@.len(),
        forall|i: int| 0 <= i < bytes@.len() ==> text@[i] == bytes@[i] as char,
{
    match String::from_utf8(bytes) {
        Ok(text) => text,
        Err(_) => String::new(),
    }
}

/// The first place at or after `from` that holds the byte `b`, or the
/// length of the text if there is none.
pub open spec fn next_byte(s: Seq<u8>, b: u8, from: int) -> int
    decreases s.len() - from,
{
    if from >= s.len() {
        s.len() as int
    } else if s[from] == b {
        from
    } else {
        next_byte(s, b, from + 1)
    }
}

/// The first place at or after `from` that holds the byte `b`.
pub fn find_byte(bytes: &[u8], b: u8, from: usize) -> (at: usize)
    requires
        from <= bytes@.len(),
    ensures
        at == next_byte(bytes@, b, from as int),
        from <= at <= bytes@.len(),
{
    let mut at = from;
    while at < bytes.len() && bytes[at] != b
        invariant
            from <= at <= bytes@.len(),
            next_byte(bytes@, b, from as int) == next_byte(bytes@, b, at as int),
        decreases bytes@.len() - at,
    {
        at += 1;
    }
    at
}

/// A copy of the bytes from `from` up to `to`.
pub fn copy_part(bytes: &[u8], from: usize, to: usize) -> (part: Vec<u8>)
    requires
        from <= to <= bytes@.len(),
    ensures
        part@ == bytes@.subrange(from as int, to as int),
{
    let mut part: Vec<u8> = Vec::new();
    let mut i = from;
    while i < to
        invariant
            from <= i <= to <= bytes@.len(),
            part@ == bytes@.subrange(from as int, i as int),
        decreases to - i,
    {
        part.push(bytes[i]);
        assert(part@ =~= bytes@.subrange(from as int, i + 1));
        i += 1;
    }
    part
}

/// Whether every byte is below 128.
pub open spec fn is_ascii_bytes(s: Seq<u8>) -> bool {
    forall|i: int| 0 <= i < s.len() ==> #[trigger] s[i] < 128
}

/// The characters that the bytes stand for, each byte one character.
pub open spec fn chars_of(s: Seq<u8>) -> Seq<char> {
    Seq::new(s.len(), |i: int| s[i] as char)
}

/// The text of the bytes from `from` up to `to`, if none of them is 128
/// or above.
pub fn text_between(bytes: &[u8], from: usize, to: usize) -> (text: Option<String>)
    requires
        from <= to <= bytes@.len(),
    ensures
        match text {
            Some(t) => is_ascii_bytes(bytes@.subrange(from as int, to as int)) && t@ == chars_of(
                bytes@.subrange(from as int, to as int),
            ),
            None => !is_ascii_bytes(bytes@.subrange(from as int, to as int)),
        },
{
    let ghost part = bytes@.subrange(from as int, to as int);
    let mut copy: Vec<u8> = Vec::new();
    let mut i = from;
    while i < to
        invariant
            from <= i <= to <= bytes@.len(),
            part == bytes@.subrange(from as int, to as int),
            copy@ == bytes@.subrange(from as int, i as int),
            forall|k: int| 0 <= k < copy@.len() ==> copy@[k] < 128,
        decreases to - i,
    {
        if bytes[i] >= 128 {
            assert(part[i - from] >= 128);
            return None;
        }
        copy.push(bytes[i]);
        assert(copy@ =~= bytes@.subrange(from as int, i + 1));
        i += 1;
    }
    let text = string_of_ascii(copy);
    assert(text@ =~= chars_of(part));
    Some(text)
}

} // verus!
