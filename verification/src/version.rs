//! The order of versions: numeric tokens are newer than alphabetic ones, numeric
//! tokens go by value, alphabetic ones by ordinary string order.

use crate::marker::{extract_group_version, extraction};
use crate::text::{
    compare_strings, lemma_str_total, lemma_str_transitive, str_less, str_order, three_way,
};
use crate::token::{digits_value, is_numeric, is_numeric_token, numeric_value, parse_numeric};
use regex::Regex;
use std::cmp::Ordering;
use vstd::prelude::*;

verus! {

/// A numeric token whose digits name no 32-bit integer met another numeric token.
#[derive(Debug, Clone, Copy, PartialEq, Eq)]
pub struct VersionParseOverflow;

/// Why two file names could not be compared.
#[derive(Debug, Clone, Copy, PartialEq, Eq)]
pub enum CompareError {
    /// One of the names carries no marker.
    ExtractionMismatch,
    /// Both names carry the same group key and numeric tokens, and one of the
    /// tokens names no 32-bit integer.
    VersionParseOverflow,
}

/// Whether token `a` is strictly older than token `b`.
pub open spec fn token_less(a: Seq<char>, b: Seq<char>) -> bool {
    if is_numeric(a) && is_numeric(b) {
        digits_value(a) < digits_value(b)
    } else if is_numeric(a) {
        false
    } else if is_numeric(b) {
        true
    } else {
        str_less(a, b)
    }
}

/// Two tokens can be compared unless both are numeric and one of them carries
/// no 32-bit integer.
pub open spec fn comparable(a: Seq<char>, b: Seq<char>) -> bool {
    is_numeric(a) && is_numeric(b) ==> numeric_value(a) is Some && numeric_value(b) is Some
}

/// Whether the file with group key `group_a` and token `token_a` is strictly older
/// than the one with `group_b` and `token_b`: the group keys decide in ordinary
/// string order, and the tokens where the keys are equal.
pub open spec fn version_less(
    group_a: Seq<char>,
    token_a: Seq<char>,
    group_b: Seq<char>,
    token_b: Seq<char>,
) -> bool {
    str_less(group_a, group_b) || (group_a == group_b && token_less(token_a, token_b))
}

/// How token `a` stands to token `b`.
pub open spec fn token_order(a: Seq<char>, b: Seq<char>) -> Ordering {
    three_way(token_less(a, b), token_less(b, a))
}

/// How one file's group key and token stand to another's.
pub open spec fn version_order(
    group_a: Seq<char>,
    token_a: Seq<char>,
    group_b: Seq<char>,
    token_b: Seq<char>,
) -> Ordering {
    three_way(
        version_less(group_a, token_a, group_b, token_b),
        version_less(group_b, token_b, group_a, token_a),
    )
}

/// No token is older than itself, and of two tokens at most one is older than
/// the other.
pub proof fn lemma_token_less_asymmetric(a: Seq<char>, b: Seq<char>)
    ensures
        !(token_less(a, b) && token_less(b, a)),
{
    lemma_str_total(a, b);
}

/// Being older is transitive over tokens.
pub proof fn lemma_token_less_transitive(a: Seq<char>, b: Seq<char>, c: Seq<char>)
    requires
        token_less(a, b),
        token_less(b, c),
    ensures
        token_less(a, c),
{
    if !is_numeric(a) && !is_numeric(b) && !is_numeric(c) {
        lemma_str_transitive(a, b, c);
    }
}

/// Being no newer is transitive over tokens: if `c` is not older than `b` and
/// `b` is not older than `a`, then `c` is not older than `a`.
pub proof fn lemma_token_not_less_transitive(a: Seq<char>, b: Seq<char>, c: Seq<char>)
    requires
        !token_less(b, a),
        !token_less(c, b),
    ensures
        !token_less(c, a),
{
    if !is_numeric(a) && !is_numeric(b) && !is_numeric(c) && str_less(c, a) {
        lemma_str_total(a, b);
        lemma_str_total(b, c);
        if a != b && b != c {
            lemma_str_transitive(a, b, c);
            lemma_str_total(a, c);
        }
    }
}

/// Comparing two tokens the other way round gives the opposite outcome.
pub proof fn lemma_token_order_reverses(a: Seq<char>, b: Seq<char>)
    ensures
        match token_order(a, b) {
            Ordering::Less => token_order(b, a) == Ordering::Greater,
            Ordering::Equal => token_order(b, a) == Ordering::Equal,
            Ordering::Greater => token_order(b, a) == Ordering::Less,
        },
{
    lemma_token_less_asymmetric(a, b);
}

/// A numeric token is newer than any alphabetic one, whatever the two hold.
pub proof fn lemma_numeric_is_newer(numeric: Seq<char>, alphabetic: Seq<char>)
    requires
        is_numeric(numeric),
        !is_numeric(alphabetic),
    ensures
        comparable(numeric, alphabetic),
        comparable(alphabetic, numeric),
        token_order(numeric, alphabetic) == Ordering::Greater,
        token_order(alphabetic, numeric) == Ordering::Less,
{
}

/// Numeric tokens are ordered by the numbers they denote, not by their text.
pub proof fn lemma_numeric_by_value(a: Seq<char>, b: Seq<char>)
    requires
        is_numeric(a),
        is_numeric(b),
    ensures
        token_order(a, b) == Ordering::Less <==> digits_value(a) < digits_value(b),
        token_order(a, b) == Ordering::Equal <==> digits_value(a) == digits_value(b),
        token_order(a, b) == Ordering::Greater <==> digits_value(a) > digits_value(b),
{
}

/// Alphabetic tokens are ordered as strings are.
pub proof fn lemma_alphabetic_by_text(a: Seq<char>, b: Seq<char>)
    requires
        !is_numeric(a),
        !is_numeric(b),
    ensures
        token_order(a, b) == str_order(a, b),
        token_order(a, b) == Ordering::Equal <==> a == b,
{
    lemma_str_total(a, b);
}

/// Compares two version tokens. Fails exactly when both are numeric and one of
/// them carries no 32-bit integer.
pub fn compare_tokens(a: &str, b: &str) -> (outcome: Result<Ordering, VersionParseOverflow>)
    ensures
        outcome is Ok <==> comparable(a@, b@),
        outcome matches Ok(order) ==> order == token_order(a@, b@),
{
    let a_numeric = is_numeric_token(a);
    let b_numeric = is_numeric_token(b);
    if a_numeric && b_numeric {
        match (parse_numeric(a), parse_numeric(b)) {
            (Some(x), Some(y)) => {
                if x < y {
                    Ok(Ordering::Less)
                } else if x > y {
                    Ok(Ordering::Greater)
                } else {
                    Ok(Ordering::Equal)
                }
            },
            _ => Err(VersionParseOverflow),
        }
    } else if a_numeric {
        Ok(Ordering::Greater)
    } else if b_numeric {
        Ok(Ordering::Less)
    } else {
        Ok(compare_strings(a, b))
    }
}

/// Compares two files by group key first and by version token where the keys
/// are equal. Fails exactly when the keys are equal and the tokens cannot be
/// compared.
pub fn compare_keys(group_a: &str, token_a: &str, group_b: &str, token_b: &str) -> (outcome: Result<
    Ordering,
    VersionParseOverflow,
>)
    ensures
        outcome is Ok <==> (group_a@ != group_b@ || comparable(token_a@, token_b@)),
        outcome matches Ok(order) ==> order == version_order(
            group_a@,
            token_a@,
            group_b@,
            token_b@,
        ),
{
    proof {
        lemma_str_total(group_a@, group_b@);
    }
    match compare_strings(group_a, group_b) {
        Ordering::Equal => compare_tokens(token_a, token_b),
        order => Ok(order),
    }
}

/// How the file named `a` stands to the file named `b` under `regex`: an error
/// where one of them carries no marker or their tokens cannot be compared, and
/// else the order of their group keys and tokens.
pub open spec fn name_order(regex: Regex, a: Seq<char>, b: Seq<char>) -> Result<
    Ordering,
    CompareError,
> {
    match (extraction(regex, a), extraction(regex, b)) {
        (Some((group_a, token_a)), Some((group_b, token_b))) => {
            if group_a == group_b && !comparable(token_a, token_b) {
                Err(CompareError::VersionParseOverflow)
            } else {
                Ok(version_order(group_a, token_a, group_b, token_b))
            }
        },
        _ => Err(CompareError::ExtractionMismatch),
    }
}

/// Whether the file named `a` is found to be at least as new as the one named `b`.
pub open spec fn at_least_as_new(regex: Regex, a: Seq<char>, b: Seq<char>) -> bool {
    name_order(regex, a, b) == Ok::<Ordering, CompareError>(Ordering::Greater) || name_order(
        regex,
        a,
        b,
    ) == Ok::<Ordering, CompareError>(Ordering::Equal)
}

/// Compares two file names by the group keys and version tokens that `regex`
/// finds in them. Both names must carry a marker, and where they share a group
/// key their tokens must be comparable: [`try_compare_versions`] tests this.
pub fn compare_versions(a: &str, b: &str, regex: &Regex) -> (order: Ordering)
    requires
        name_order(*regex, a@, b@) is Ok,
    ensures
        name_order(*regex, a@, b@) == Ok::<Ordering, CompareError>(order),
{
    let (group_a, token_a) = extract_group_version(a, regex).unwrap();
    let (group_b, token_b) = extract_group_version(b, regex).unwrap();
    compare_keys(group_a.as_str(), token_a.as_str(), group_b.as_str(), token_b.as_str()).unwrap()
}

/// Compares two file names as [`compare_versions`] does, after testing that
/// they can be compared: fails with `ExtractionMismatch` exactly when one of
/// the names carries no marker, and with `VersionParseOverflow` exactly when
/// both carry one, share a group key, and their tokens cannot be compared.
pub fn try_compare_versions(a: &str, b: &str, regex: &Regex) -> (outcome: Result<
    Ordering,
    CompareError,
>)
    ensures
        outcome == name_order(*regex, a@, b@),
{
    match (extract_group_version(a, regex), extract_group_version(b, regex)) {
        (Some((group_a, token_a)), Some((group_b, token_b))) => {
            if group_a == group_b && !compare_tokens(token_a.as_str(), token_b.as_str()).is_ok() {
                Err(CompareError::VersionParseOverflow)
            } else {
                Ok(compare_versions(a, b, regex))
            }
        },
        _ => Err(CompareError::ExtractionMismatch),
    }
}

} // verus!
