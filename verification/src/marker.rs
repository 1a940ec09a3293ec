//! Finding the version marker of a file name, and splitting the name at it into
//! the group key and the version token.

use regex::Regex;
use vstd::prelude::*;
use vstd::string::StringSliceAdditionalSpecFns;
use vstd::utf8::{
    decode_utf8, decode_utf8_split, encode_utf8, encode_utf8_decode_utf8, encode_utf8_valid_utf8,
    is_char_boundary, is_char_boundary_iff_not_is_continuation_byte,
    is_char_boundary_start_end_of_seq, valid_utf8, valid_utf8_split,
};

verus! {

/// A compiled regular expression of the `regex` crate. Nothing is known of what
/// it holds; it is handed on to the search.
#[verifier::external_type_specification]
#[verifier::external_body]
pub struct ExRegex(regex::Regex);

/// The marker that versioned file names carry: a token of one digit or capital
/// letter between underscores, which a qualifier word and a dot may precede.
/// Group 1 captures the token.
pub const VERSION_PATTERN: &'static str = r"_(?:[a-zA-Z]+\.)?([0-9A-Z])_";

/// Where a marker was found in a file name, in byte offsets.
#[derive(Debug, Clone, Copy, PartialEq, Eq)]
pub struct MarkerMatch {
    /// The offset at which the whole marker begins.
    pub start: usize,
    /// The offsets between which the captured token lies, if one was captured.
    pub token: Option<(usize, usize)>,
}

/// What `Regex::captures` finds when `regex` searches `haystack`: nothing, or
/// where the first match begins and where its capture group 1 lies.
pub uninterp spec fn regex_captures(regex: Regex, haystack: Seq<char>) -> Option<MarkerMatch>;

/// The pattern that `Regex::as_str` reports for `regex`: the string that the
/// expression was compiled from.
pub uninterp spec fn regex_pattern(regex: Regex) -> Seq<char>;

/// Calls `Regex::new`, and gives the compiled expression unless the crate
/// rejects the pattern. The contract claims two things of the crate. A compiled
/// expression keeps the pattern given here as its own, which `Regex::as_str`
/// reports. And [`VERSION_PATTERN`] is accepted: it is valid syntax and compiles
/// to a program far below the crate's default size limit. Of any other pattern
/// nothing is claimed.
#[verifier::external_body]
fn compile(pattern: &str) -> (compiled: Option<Regex>)
    ensures
        compiled matches Some(regex) ==> regex_pattern(regex) == pattern@,
        pattern@ == VERSION_PATTERN@ ==> compiled is Some,
{
    Regex::new(pattern).ok()
}

/// Calls `Regex::captures`, and reports where the overall match begins
/// (`Captures::get_match`, `Match::start`) and where capture group 1 lies
/// (`Captures::get`, `Match::start`, `Match::end`). The contract claims only that
/// the outcome depends on the expression and the haystack alone; it trusts no
/// offset.
#[verifier::external_body]
fn captures(regex: &Regex, haystack: &str) -> (found: Option<MarkerMatch>)
    ensures
        found == regex_captures(*regex, haystack@),
{
    let caps = regex.captures(haystack)?;
    let token = match caps.get(1) {
        Some(group) => Some((group.start(), group.end())),
        None => None,
    };
    Some(MarkerMatch { start: caps.get_match().start(), token })
}

/// The text that lies between two byte offsets of the UTF-8 encoding of `text`.
pub open spec fn byte_slice(text: Seq<char>, from: int, to: int) -> Seq<char> {
    decode_utf8(encode_utf8(text).subrange(from, to))
}

/// A marker that begins at byte `start` and holds its token between the bytes
/// `from` and `to` can be used on `name` when it leaves a group key before it,
/// the token is not empty and does not begin before the marker, and the
/// offsets fall between characters of `name`.
pub open spec fn usable(name: Seq<char>, start: usize, from: usize, to: usize) -> bool {
    let bytes = encode_utf8(name);
    &&& 0 < start <= from < to
    &&& is_char_boundary(bytes, start as int)
    &&& is_char_boundary(bytes, from as int)
    &&& is_char_boundary(bytes, to as int)
}

/// The group key and the version token that a match yields on `name`: the key is
/// all that stands before the marker, the token is what group 1 captured. A
/// match without a captured token, or one that cannot be used, yields nothing.
pub open spec fn marker_parts(name: Seq<char>, found: MarkerMatch) -> Option<
    (Seq<char>, Seq<char>),
> {
    match found.token {
        Some((from, to)) => if usable(name, found.start, from, to) {
            Some((byte_slice(name, 0, found.start as int), byte_slice(name, from as int, to as int)))
        } else {
            None
        },
        None => None,
    }
}

/// The group key and the version token of `name` under `regex`, if it has them.
pub open spec fn extraction(regex: Regex, name: Seq<char>) -> Option<(Seq<char>, Seq<char>)> {
    match regex_captures(regex, name) {
        Some(found) => marker_parts(name, found),
        None => None,
    }
}

/// A pair of strings as a pair of character sequences.
pub open spec fn parts_view(parts: Option<(String, String)>) -> Option<(Seq<char>, Seq<char>)> {
    match parts {
        Some((group, token)) => Some((group@, token@)),
        None => None,
    }
}

/// A character boundary of a text is one of each prefix that reaches it.
proof fn lemma_boundary_in_prefix(bytes: Seq<u8>, from: int, to: int)
    requires
        valid_utf8(bytes),
        is_char_boundary(bytes, from),
        is_char_boundary(bytes, to),
        0 <= from <= to,
    ensures
        to <= bytes.len(),
        valid_utf8(bytes.subrange(0, to)),
        is_char_boundary(bytes.subrange(0, to), from),
{
    valid_utf8_split(bytes, to);
    let head = bytes.subrange(0, to);
    if from == to {
        is_char_boundary_start_end_of_seq(head);
    } else {
        is_char_boundary_iff_not_is_continuation_byte(bytes, from);
        is_char_boundary_iff_not_is_continuation_byte(head, from);
    }
}

/// A group key and a version token are never empty, and the name reads: the
/// group key, what the marker holds before the token, the token, and the rest.
pub proof fn lemma_parts_of_name(name: Seq<char>, found: MarkerMatch)
    ensures
        marker_parts(name, found) matches Some((group, token)) ==> {
            &&& group.len() > 0
            &&& token.len() > 0
            &&& found.token matches Some((from, to)) && name == group + byte_slice(
                name,
                found.start as int,
                from as int,
            ) + token + byte_slice(name, to as int, encode_utf8(name).len() as int)
        },
{
    if let (Some((group, token)), Some((token_from, token_to))) = (
        marker_parts(name, found),
        found.token,
    ) {
        let bytes = encode_utf8(name);
        let start = found.start as int;
        let from = token_from as int;
        let to = token_to as int;
        encode_utf8_valid_utf8(name);
        encode_utf8_decode_utf8(name);
        lemma_boundary_in_prefix(bytes, from, to);
        lemma_boundary_in_prefix(bytes, start, from);
        let head = bytes.subrange(0, to);
        let key_and_lead = bytes.subrange(0, from);
        decode_utf8_split(bytes, to);
        decode_utf8_split(head, from);
        decode_utf8_split(key_and_lead, start);
        valid_utf8_split(head, from);
        valid_utf8_split(key_and_lead, start);
        assert(head.subrange(0, from) =~= key_and_lead);
        assert(head.subrange(from, head.len() as int) =~= bytes.subrange(from, to));
        assert(key_and_lead.subrange(0, start) =~= bytes.subrange(0, start));
        assert(key_and_lead.subrange(start, key_and_lead.len() as int) =~= bytes.subrange(
            start,
            from,
        ));
        assert(name =~= group + byte_slice(name, start, from) + token + byte_slice(
            name,
            to,
            bytes.len() as int,
        ));
    }
}

/// The compiled expression of [`VERSION_PATTERN`], by which versioned file
/// names are recognised.
pub fn version_regex() -> (regex: Regex)
    ensures
        regex_pattern(regex) == VERSION_PATTERN@,
{
    compile(VERSION_PATTERN).unwrap()
}

/// Splits `file_name` at a match: the group key is all that stands before the
/// marker, the version token is what was captured. Gives nothing when the
/// match cannot be used on this name. Neither part is ever empty.
pub fn split_at_marker(file_name: &str, found: &MarkerMatch) -> (parts: Option<(String, String)>)
    ensures
        parts_view(parts) == marker_parts(file_name@, *found),
        parts matches Some((group, token)) ==> group@.len() > 0 && token@.len() > 0,
{
    let ghost bytes = encode_utf8(file_name@);
    proof {
        encode_utf8_valid_utf8(file_name@);
        lemma_parts_of_name(file_name@, *found);
    }
    match found.token {
        None => None,
        Some((from, to)) => {
            if 0 < found.start && found.start <= from && from < to && file_name.is_char_boundary(
                found.start,
            ) && file_name.is_char_boundary(from) && file_name.is_char_boundary(to) {
                let (group, _) = file_name.split_at(found.start);
                let (head, _) = file_name.split_at(to);
                proof {
                    lemma_boundary_in_prefix(bytes, from as int, to as int);
                }
                let (_, token) = head.split_at(from);
                proof {
                    assert(token.spec_bytes() =~= bytes.subrange(from as int, to as int));
                    encode_utf8_decode_utf8(group@);
                    encode_utf8_decode_utf8(token@);
                }
                Some((group.to_owned(), token.to_owned()))
            } else {
                None
            }
        },
    }
}

/// The group key and the version token of `file_name`, or nothing where the
/// name carries no usable marker. The first match of `regex` decides. Neither
/// part is ever empty.
pub fn extract_group_version(file_name: &str, regex: &Regex) -> (parts: Option<(String, String)>)
    ensures
        parts_view(parts) == extraction(*regex, file_name@),
        parts matches Some((group, token)) ==> group@.len() > 0 && token@.len() > 0,
{
    match captures(regex, file_name) {
        Some(found) => split_at_marker(file_name, &found),
        None => None,
    }
}

} // verus!
