//! Balanced base-five numerals: the digits `=`, `-`, `0`, `1`, `2` stand for
//! minus two to two.

use vstd::prelude::*;
use vstd::string::StringSliceAdditionalSpecFns;
use vstd::utf8::is_ascii_chars;
use crate::text::string_of_ascii;

verus! {

/// Whether the byte is a digit of a numeral.
pub open spec fn is_snafu_digit(c: u8) -> bool {
    c == 50 || c == 49 || c == 48 || c == 45 || c == 61
}

/// The value of one digit.
pub open spec fn digit_value(c: u8) -> int {
    if c == 50 {
        2
    } else if c == 49 {
        1
    } else if c == 48 {
        0
    } else if c == 45 {
        -1
    } else {
        -2
    }
}

/// Whether every byte is a digit.
pub open spec fn is_snafu(s: Seq<u8>) -> bool {
    forall|i: int| 0 <= i < s.len() ==> is_snafu_digit(#[trigger] s[i])
}

/// The value of a numeral, most significant digit first.
pub open spec fn snafu_value(s: Seq<u8>) -> int
    decreases s.len(),
{
    if s.len() == 0 {
        0
    } else {
        5 * snafu_value(s.drop_last()) + digit_value(s.last())
    }
}

/// Five to the power `n`.
pub open spec fn pow5(n: nat) -> nat
    decreases n,
{
    if n == 0 {
        1
    } else {
        5 * pow5((n - 1) as nat)
    }
}

/// The bytes of a text whose characters are all bytes.
pub open spec fn as_bytes(text: Seq<char>) -> Seq<u8> {
    Seq::new(text.len(), |i: int| text[i] as u8)
}

/// Powers of five grow.
pub proof fn lemma_pow5_grows(k: nat, n: nat)
    requires
        k <= n,
    ensures
        1 <= pow5(k) <= pow5(n),
    decreases n,
{
    if n > 0 {
        if k < n {
            lemma_pow5_grows(k, (n - 1) as nat);
        } else {
            lemma_pow5_grows((k - 1) as nat, (n - 1) as nat);
        }
    }
}

/// A numeral of `n` digits is, in absolute value, less than half of five to
/// the `n`.
pub proof fn lemma_value_bound(s: Seq<u8>)
    requires
        is_snafu(s),
    ensures
        -pow5(s.len()) < 2 * snafu_value(s) < pow5(s.len()),
    decreases s.len(),
{
    if s.len() > 0 {
        lemma_value_bound(s.drop_last());
        assert(is_snafu_digit(s.last()));
    }
}

/// A digit put in front of a numeral adds its value times the power of five
/// of its place.
pub proof fn lemma_leading_digit(d: u8, t: Seq<u8>)
    ensures
        snafu_value(seq![d] + t) == digit_value(d) * pow5(t.len()) + snafu_value(t),
    decreases t.len(),
{
    let s = seq![d] + t;
    if t.len() == 0 {
        assert(s.drop_last() =~= Seq::<u8>::empty());
        assert(s.last() == d);
        assert(snafu_value(s.drop_last()) == 0);
    } else {
        lemma_leading_digit(d, t.drop_last());
        assert(s.drop_last() =~= seq![d] + t.drop_last());
        assert(s.last() == t.last());
        let p = pow5(t.drop_last().len());
        assert(pow5(t.len()) == 5 * p);
        assert(5 * (digit_value(d) * p) == digit_value(d) * (5 * p)) by (nonlinear_arith);
    }
}

pub fn snafu_char_to_decimal(snafu: &u8) -> (value: isize)
    requires
        is_snafu_digit(*snafu),
    ensures
        value == digit_value(*snafu),
{
    let c = *snafu;
    if c == 50 {
        2
    } else if c == 49 {
        1
    } else if c == 48 {
        0
    } else if c == 45 {
        -1
    } else {
        -2
    }
}

/// The value of a numeral.
pub fn snafu_to_decimal(snafu: &str) -> (value: isize)
    requires
        is_snafu(snafu.spec_bytes()),
        pow5(snafu.spec_bytes().len()) <= isize::MAX,
    ensures
        value == snafu_value(snafu.spec_bytes()),
{
    let bytes = snafu.as_bytes();
    let ghost s = snafu.spec_bytes();
    let len = bytes.len();
    let mut result: isize = 0;
    let mut col_val: isize = 1;
    let mut i: usize = len;
    assert(s.subrange(len as int, len as int) =~= Seq::<u8>::empty());
    while i > 0
        invariant
            i <= len,
            len == s.len(),
            bytes@ == s,
            is_snafu(s),
            pow5(s.len()) <= isize::MAX,
            col_val == pow5((len - i) as nat),
            result == snafu_value(s.subrange(i as int, len as int)),
        decreases i,
    {
        i -= 1;
        let ghost tail = s.subrange(i + 1, len as int);
        let ghost whole = s.subrange(i as int, len as int);
        proof {
            assert(whole =~= seq![s[i as int]] + tail);
            lemma_leading_digit(s[i as int], tail);
            lemma_value_bound(tail);
            lemma_value_bound(whole);
            lemma_pow5_grows((len - i) as nat, len as nat);
            assert(is_snafu_digit(s[i as int]));
            assert(pow5((len - i) as nat) == 5 * pow5((len - i - 1) as nat));
        }
        let digit = snafu_char_to_decimal(&bytes[i]);
        assert(-2 * col_val <= col_val * digit <= 2 * col_val) by (nonlinear_arith)
            requires
                -2 <= digit <= 2,
                col_val >= 1,
        ;
        assert(col_val * digit == digit * col_val) by (nonlinear_arith);
        result += col_val * digit;
        col_val *= 5;
    }
    assert(s.subrange(0, len as int) =~= s);
    result
}

/// The value of digits written least significant first.
pub open spec fn value_from_low(digits: Seq<u8>) -> int
    decreases digits.len(),
{
    if digits.len() == 0 {
        0
    } else {
        digit_value(digits[0]) + 5 * value_from_low(digits.drop_first())
    }
}

/// A digit put after the most significant one adds its value times the
/// power of five of its place.
pub proof fn lemma_top_digit(digits: Seq<u8>, d: u8)
    ensures
        value_from_low(digits.push(d)) == value_from_low(digits) + digit_value(d) * pow5(
            digits.len(),
        ),
    decreases digits.len(),
{
    let longer = digits.push(d);
    if digits.len() == 0 {
        assert(longer.drop_first() =~= Seq::<u8>::empty());
        assert(value_from_low(longer.drop_first()) == 0);
    } else {
        lemma_top_digit(digits.drop_first(), d);
        assert(longer.drop_first() =~= digits.drop_first().push(d));
        let p = pow5(digits.drop_first().len());
        assert(pow5(digits.len()) == 5 * p);
        assert(5 * (digit_value(d) * p) == digit_value(d) * (5 * p)) by (nonlinear_arith);
    }
}

/// Digits read from the low end have the value of the same digits turned
/// round and read from the high end.
pub proof fn lemma_turned_round(digits: Seq<u8>)
    ensures
        snafu_value(digits.reverse()) == value_from_low(digits),
    decreases digits.len(),
{
    if digits.len() > 0 {
        let turned = digits.reverse();
        lemma_turned_round(digits.drop_first());
        assert(turned.drop_last() =~= digits.drop_first().reverse());
        assert(turned.last() == digits[0]);
    }
}

/// A numeral of a number above zero that does not begin with the digit 0
/// is no longer than the number asks: five to the power of its length is
/// less than ten times the number.
pub proof fn lemma_no_longer(s: Seq<u8>)
    requires
        is_snafu(s),
        s.len() > 0,
        s[0] != 48,
        snafu_value(s) > 0,
    ensures
        pow5(s.len()) < 10 * snafu_value(s),
{
    let t = s.subrange(1, s.len() as int);
    assert(s =~= seq![s[0]] + t);
    lemma_leading_digit(s[0], t);
    lemma_value_bound(t);
    assert(is_snafu_digit(s[0]));
    let p = pow5(t.len());
    let d = digit_value(s[0]);
    assert(pow5(s.len()) == 5 * p);
    if d < 0 {
        assert(d * p <= -p) by (nonlinear_arith)
            requires
                d <= -1,
                p >= 0,
        ;
    } else {
        assert(d * p >= p) by (nonlinear_arith)
            requires
                d >= 1,
                p >= 0,
        ;
    }
}

/// The numeral of a number above zero, without leading zeros; the empty
/// text for any other number. The text holds digits of numerals only, each
/// of them one byte.
pub fn decimal_to_snafu(decimal: isize) -> (snafu: String)
    ensures
        is_snafu(as_bytes(snafu@)),
        is_ascii_chars(snafu@),
        decimal > 0 ==> snafu_value(as_bytes(snafu@)) == decimal,
        decimal > 0 ==> as_bytes(snafu@).len() > 0 && as_bytes(snafu@)[0] != 48,
        decimal > 0 ==> pow5(snafu@.len()) < 10 * decimal,
        decimal <= 0 ==> snafu@.len() == 0,
{
    let mut snafu_digits: Vec<u8> = Vec::new();
    let mut num: usize = if decimal > 0 {
        decimal as usize
    } else {
        0
    };
    let mut carry: usize = 0;
    let ghost target: int = if decimal > 0 {
        decimal as int
    } else {
        0
    };
    assert((num + carry) * pow5(0) == num + carry) by (nonlinear_arith)
        requires
            pow5(0) == 1,
    ;
    while num > 0 || carry > 0
        invariant
            carry <= 1,
            decimal <= 0 ==> snafu_digits@.len() == 0 && num + carry == 0,
            num <= isize::MAX,
            is_snafu(snafu_digits@),
            target == value_from_low(snafu_digits@) + (num + carry) * pow5(snafu_digits@.len()),
            snafu_digits@.len() > 0 ==> snafu_digits@.last() != 48 || num + carry > 0,
        decreases num + carry,
    {
        let digit_plus_carry = num % 5 + carry;
        let ghost before = snafu_digits@;
        let ghost old_num = num;
        num = num / 5;
        let rest = digit_plus_carry % 5;
        let c: u8 = if rest == 0 {
            48
        } else if rest == 1 {
            49
        } else if rest == 2 {
            50
        } else if rest == 3 {
            61
        } else {
            45
        };
        snafu_digits.push(c);
        let ghost old_carry = carry;
        carry = if digit_plus_carry > 2 {
            1
        } else {
            0
        };
        proof {
            lemma_top_digit(before, c);
            let p = pow5(before.len());
            assert(old_num + old_carry == 5 * (num + carry) + digit_value(c));
            assert((old_num + old_carry) * p == digit_value(c) * p + (num + carry) * (5 * p))
                by (nonlinear_arith)
                requires
                    old_num + old_carry == 5 * (num + carry) + digit_value(c),
            ;
            assert(pow5(snafu_digits@.len()) == 5 * p);
        }
    }
    let ghost low_first = snafu_digits@;
    let mut turned: Vec<u8> = Vec::new();
    let mut i: usize = snafu_digits.len();
    while i > 0
        invariant
            i <= snafu_digits@.len(),
            snafu_digits@ == low_first,
            turned@.len() == low_first.len() - i,
            forall|k: int| 0 <= k < turned@.len() ==> turned@[k] == low_first[low_first.len() - 1 - k],
        decreases i,
    {
        i -= 1;
        turned.push(snafu_digits[i]);
    }
    proof {
        assert(turned@ =~= low_first.reverse());
        lemma_turned_round(low_first);
        assert(num + carry == 0);
        assert((num + carry) * pow5(low_first.len()) == 0) by (nonlinear_arith)
            requires
                num + carry == 0,
        ;
        assert forall|k: int| 0 <= k < turned@.len() implies turned@[k] < 128 by {
            assert(is_snafu_digit(low_first[low_first.len() - 1 - k]));
        }
        if decimal > 0 {
            assert(low_first.len() > 0);
        }
    }
    let snafu = string_of_ascii(turned);
    proof {
        assert(as_bytes(snafu@) =~= turned@);
        assert forall|k: int| 0 <= k < snafu@.len() implies '\0' <= #[trigger] snafu@[k]
            <= '\u{7f}' by {
            assert(snafu@[k] == turned@[k] as char);
        }
        if decimal > 0 {
            lemma_no_longer(turned@);
        }
    }
    snafu
}

} // verus!
