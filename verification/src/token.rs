//! Version tokens: telling numeric from alphabetic ones, and reading a number.

use vstd::prelude::*;
use vstd::string::is_ascii_spec_bytes;
use vstd::utf8::is_ascii_chars;

verus! {

/// A decimal digit, `0` to `9`.
pub open spec fn is_digit(c: char) -> bool {
    '0' <= c && c <= '9'
}

/// A token is numeric when every character of it is a decimal digit; any other
/// token is alphabetic.
pub open spec fn is_numeric(token: Seq<char>) -> bool {
    forall|i: int| 0 <= i < token.len() ==> is_digit(#[trigger] token[i])
}

/// The number that a decimal digit stands for.
pub open spec fn digit_value(c: char) -> nat {
    (c as u32 - '0' as u32) as nat
}

/// The number that a sequence of decimal digits denotes in base ten.
pub open spec fn digits_value(token: Seq<char>) -> nat
    decreases token.len(),
{
    if token.len() == 0 {
        0
    } else {
        10 * digits_value(token.drop_last()) + digit_value(token.last())
    }
}

/// The integer that a numeric token carries: it has one when it holds at least
/// one digit and the number fits in 32 bits, sign included.
pub open spec fn numeric_value(token: Seq<char>) -> Option<i32> {
    if token.len() > 0 && is_numeric(token) && digits_value(token) <= i32::MAX {
        Some(digits_value(token) as i32)
    } else {
        None
    }
}

/// The first `n` digits of a token denote no more than the whole token does.
pub proof fn lemma_prefix_value_bounded(token: Seq<char>, n: int)
    requires
        0 <= n <= token.len(),
        is_numeric(token),
    ensures
        digits_value(token.take(n)) <= digits_value(token),
    decreases token.len() - n,
{
    if n < token.len() {
        let longer = token.take(n + 1);
        assert(longer.drop_last() =~= token.take(n));
        assert(is_digit(token[n]));
        lemma_prefix_value_bounded(token, n + 1);
    } else {
        assert(token.take(n) =~= token);
    }
}

/// Whether every character of `token` is a decimal digit.
pub fn is_numeric_token(token: &str) -> (numeric: bool)
    ensures
        numeric == is_numeric(token@),
        numeric ==> is_ascii_chars(token@),
{
    if !token.is_ascii() {
        proof {
            let i = choose|i: int|
                0 <= i < token@.len() && !('\0' <= #[trigger] token@[i] <= '\u{7f}');
            assert(!is_digit(token@[i]));
        }
        return false;
    }
    let bytes = token.as_bytes();
    proof {
        is_ascii_spec_bytes(token);
    }
    let mut i: usize = 0;
    while i < bytes.len()
        invariant
            i <= bytes.len(),
            bytes@.len() == token@.len(),
            is_ascii_chars(token@),
            forall|j: int| 0 <= j < bytes@.len() ==> bytes@[j] == token@[j] as u8,
            forall|j: int| 0 <= j < i ==> is_digit(#[trigger] token@[j]),
        decreases bytes.len() - i,
    {
        let b: u8 = bytes[i];
        if b < 48 || b > 57 {
            assert(!is_digit(token@[i as int]));
            return false;
        }
        assert(is_digit(token@[i as int]));
        i = i + 1;
    }
    true
}

/// Reads a numeric token as a 32-bit integer.
pub fn parse_numeric(token: &str) -> (value: Option<i32>)
    ensures
        value == numeric_value(token@),
{
    if !is_numeric_token(token) {
        return None;
    }
    let bytes = token.as_bytes();
    proof {
        is_ascii_spec_bytes(token);
    }
    if bytes.len() == 0 {
        return None;
    }
    let mut acc: u32 = 0;
    let mut i: usize = 0;
    assert(token@.take(0) =~= Seq::<char>::empty());
    while i < bytes.len()
        invariant
            i <= bytes.len(),
            bytes@.len() == token@.len(),
            is_numeric(token@),
            forall|j: int| 0 <= j < bytes@.len() ==> bytes@[j] == token@[j] as u8,
            acc == digits_value(token@.take(i as int)),
            acc <= i32::MAX,
        decreases bytes.len() - i,
    {
        let b: u8 = bytes[i];
        assert(is_digit(token@[i as int]));
        let d: u32 = (b - 48) as u32;
        proof {
            let longer = token@.take(i + 1);
            assert(longer.drop_last() =~= token@.take(i as int));
            assert(longer.last() == token@[i as int]);
            assert(digits_value(longer) == 10 * acc + d);
            lemma_prefix_value_bounded(token@, i + 1);
        }
        if acc > (2147483647u32 - d) / 10 {
            return None;
        }
        acc = acc * 10 + d;
        i = i + 1;
    }
    assert(token@.take(i as int) =~= token@);
    Some(acc as i32)
}

} // verus!
