//! A file name together with the group key and the version token it yielded.

use crate::marker::{extract_group_version, extraction};
use crate::text::{lemma_str_total, lemma_str_transitive};
use crate::version::{
    comparable, compare_keys, compare_tokens, lemma_token_less_asymmetric,
    lemma_token_less_transitive, lemma_token_not_less_transitive, version_less,
};
use regex::Regex;
use std::cmp::Ordering;
use vstd::prelude::*;

verus! {

/// A file that takes part in grouping.
#[derive(Debug, PartialEq, Eq)]
pub struct Entry {
    /// The file's name, as it was listed.
    pub name: String,
    /// The group key that the name yielded.
    pub group: String,
    /// The version token that the name yielded.
    pub token: String,
}

/// An [`Entry`] as plain text.
pub struct EntryView {
    /// The file's name.
    pub name: Seq<char>,
    /// The group key.
    pub group: Seq<char>,
    /// The version token.
    pub token: Seq<char>,
}

impl View for Entry {
    type V = EntryView;

    open spec fn view(&self) -> EntryView {
        EntryView { name: self.name@, group: self.group@, token: self.token@ }
    }
}

/// The entries of a vector as plain text, in order.
pub open spec fn views(entries: Seq<Entry>) -> Seq<EntryView> {
    entries.map_values(|e: Entry| e@)
}

/// The entry that a file name gives under `regex`, if the name carries a marker.
pub open spec fn entry_of(regex: Regex, name: Seq<char>) -> Option<EntryView> {
    match extraction(regex, name) {
        Some((group, token)) => Some(EntryView { name, group, token }),
        None => None,
    }
}

/// Whether `a` is strictly older than `b`.
pub open spec fn older(a: EntryView, b: EntryView) -> bool {
    version_less(a.group, a.token, b.group, b.token)
}

/// Whether `a` may stand before `b` in ascending order: `b` is not strictly
/// older than `a`.
pub open spec fn precedes(a: EntryView, b: EntryView) -> bool {
    !older(b, a)
}

/// Neither of the two entries is older than the other.
pub open spec fn ties_with(a: EntryView, b: EntryView) -> bool {
    precedes(a, b) && precedes(b, a)
}

/// Two entries can be compared unless they share a group key and their tokens
/// cannot be compared.
pub open spec fn can_compare(a: EntryView, b: EntryView) -> bool {
    a.group != b.group || comparable(a.token, b.token)
}

/// Of two entries one may stand before the other.
pub proof fn lemma_precedes_total(a: EntryView, b: EntryView)
    ensures
        precedes(a, b) || precedes(b, a),
{
    lemma_str_total(a.group, b.group);
    lemma_token_less_asymmetric(a.token, b.token);
}

/// Standing before is transitive.
pub proof fn lemma_precedes_transitive(a: EntryView, b: EntryView, c: EntryView)
    requires
        precedes(a, b),
        precedes(b, c),
    ensures
        precedes(a, c),
{
    lemma_str_total(a.group, b.group);
    lemma_str_total(b.group, c.group);
    lemma_str_total(a.group, c.group);
    if a.group != b.group && b.group != c.group {
        lemma_str_transitive(a.group, b.group, c.group);
    }
    if a.group == b.group && b.group == c.group {
        lemma_token_not_less_transitive(a.token, b.token, c.token);
    }
}

/// Being strictly older is transitive, and nothing is older than itself.
pub proof fn lemma_older_strict(a: EntryView, b: EntryView, c: EntryView)
    ensures
        !older(a, a),
        older(a, b) && older(b, c) ==> older(a, c),
{
    lemma_str_total(a.group, a.group);
    lemma_token_less_asymmetric(a.token, a.token);
    if older(a, b) && older(b, c) {
        if a.group == b.group && b.group == c.group {
            lemma_token_less_transitive(a.token, b.token, c.token);
        } else if a.group != b.group && b.group != c.group {
            lemma_str_transitive(a.group, b.group, c.group);
        }
    }
}

/// Reads the entry of a file name, or nothing where the name carries no marker.
pub fn read_entry(file_name: &str, regex: &Regex) -> (entry: Option<Entry>)
    ensures
        match entry {
            Some(e) => entry_of(*regex, file_name@) == Some(e@),
            None => entry_of(*regex, file_name@) is None,
        },
{
    match extract_group_version(file_name, regex) {
        Some((group, token)) => Some(Entry { name: file_name.to_owned(), group, token }),
        None => None,
    }
}

/// Whether `a` and `b` can be compared.
pub fn compares_with(a: &Entry, b: &Entry) -> (can: bool)
    ensures
        can == can_compare(a@, b@),
{
    a.group != b.group || compare_tokens(a.token.as_str(), b.token.as_str()).is_ok()
}

/// Whether `a` may stand before `b` in ascending order.
pub fn may_precede(a: &Entry, b: &Entry) -> (before: bool)
    requires
        can_compare(a@, b@),
    ensures
        before == precedes(a@, b@),
{
    match compare_keys(b.group.as_str(), b.token.as_str(), a.group.as_str(), a.token.as_str()) {
        Ok(Ordering::Less) => false,
        _ => true,
    }
}

} // verus!
