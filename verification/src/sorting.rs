//! Sorting entries from oldest to newest. Entries of which neither is older than
//! the other keep the order in which they were given.

use crate::entry::{
    can_compare, compares_with, lemma_older_strict, lemma_precedes_total,
    lemma_precedes_transitive, may_precede, older, precedes, ties_with, views, Entry, EntryView,
};
use crate::version::VersionParseOverflow;
use vstd::prelude::*;
use vstd::seq_lib::{to_multiset_build, to_multiset_contains, to_multiset_insert};

verus! {

/// Every item may stand before each one that follows it.
pub open spec fn ascending(s: Seq<EntryView>) -> bool {
    forall|i: int, j: int| 0 <= i < j < s.len() ==> precedes(#[trigger] s[i], #[trigger] s[j])
}

/// Each two items at different places can be compared.
pub open spec fn all_comparable(s: Seq<EntryView>) -> bool {
    forall|i: int, j: int|
        0 <= i < s.len() && 0 <= j < s.len() && i != j ==> can_compare(
            #[trigger] s[i],
            #[trigger] s[j],
        )
}

/// `x` can be compared with every item of `s`.
pub open spec fn comparable_with_all(x: EntryView, s: Seq<EntryView>) -> bool {
    forall|i: int| 0 <= i < s.len() ==> can_compare(x, #[trigger] s[i])
}

/// Where `x` goes into the ascending sequence `s`: behind the leading items that
/// are strictly older than `x`, before the first one that is not.
pub open spec fn insert_position(x: EntryView, s: Seq<EntryView>) -> nat
    decreases s.len(),
{
    if s.len() == 0 || precedes(x, s.first()) {
        0
    } else {
        1 + insert_position(x, s.drop_first())
    }
}

/// The items of `s` from oldest to newest. Each item is put into the sorted rest
/// of the sequence, before the items that it is not newer than.
pub open spec fn sorted(s: Seq<EntryView>) -> Seq<EntryView>
    decreases s.len(),
{
    if s.len() == 0 {
        s
    } else {
        let rest = sorted(s.drop_first());
        rest.insert(insert_position(s.first(), rest) as int, s.first())
    }
}

/// No two items at different places tie: of each two, one is older.
pub open spec fn tie_free(s: Seq<EntryView>) -> bool {
    forall|i: int, j: int|
        0 <= i < s.len() && 0 <= j < s.len() && i != j ==> !ties_with(
            #[trigger] s[i],
            #[trigger] s[j],
        )
}

/// Every item is older than each one that follows it.
pub open spec fn strictly_ascending(s: Seq<EntryView>) -> bool {
    forall|i: int, j: int| 0 <= i < j < s.len() ==> older(#[trigger] s[i], #[trigger] s[j])
}

/// Whether an item ties with `e`: neither of the two is older than the other.
pub open spec fn ties(e: EntryView) -> spec_fn(EntryView) -> bool {
    |x: EntryView| ties_with(x, e)
}

/// The insert position lies within the sequence or at its end; what stands
/// before it is strictly older than `x`, and `x` may stand before what stands
/// at it.
pub proof fn lemma_insert_position(x: EntryView, s: Seq<EntryView>)
    ensures
        insert_position(x, s) <= s.len(),
        forall|i: int| 0 <= i < insert_position(x, s) ==> !precedes(x, #[trigger] s[i]),
        insert_position(x, s) < s.len() ==> precedes(x, s[insert_position(x, s) as int]),
    decreases s.len(),
{
    if !(s.len() == 0 || precedes(x, s.first())) {
        let tail = s.drop_first();
        lemma_insert_position(x, tail);
        assert forall|i: int| 0 <= i < insert_position(x, s) implies !precedes(
            x,
            #[trigger] s[i],
        ) by {
            if i > 0 {
                assert(s[i] == tail[i - 1]);
            }
        }
        if insert_position(x, s) < s.len() {
            assert(s[insert_position(x, s) as int] == tail[insert_position(x, tail) as int]);
        }
    }
}

/// Sorting keeps every item, as often as it was given.
pub proof fn lemma_sorted_permutes(s: Seq<EntryView>)
    ensures
        sorted(s).len() == s.len(),
        sorted(s).to_multiset() == s.to_multiset(),
    decreases s.len(),
{
    if s.len() > 0 {
        let rest = sorted(s.drop_first());
        lemma_sorted_permutes(s.drop_first());
        lemma_insert_position(s.first(), rest);
        let at = insert_position(s.first(), rest) as int;
        to_multiset_insert(rest, at, s.first());
        to_multiset_insert(s.drop_first(), 0, s.first());
        assert(s.drop_first().insert(0, s.first()) =~= s);
    }
}

/// Sorting yields an ascending sequence.
pub proof fn lemma_sorted_ascending(s: Seq<EntryView>)
    ensures
        ascending(sorted(s)),
    decreases s.len(),
{
    if s.len() > 0 {
        let x = s.first();
        let rest = sorted(s.drop_first());
        lemma_sorted_ascending(s.drop_first());
        lemma_insert_position(x, rest);
        let at = insert_position(x, rest) as int;
        let out = rest.insert(at, x);
        assert forall|i: int, j: int| 0 <= i < j < out.len() implies precedes(
            #[trigger] out[i],
            #[trigger] out[j],
        ) by {
            if j < at {
                assert(out[i] == rest[i] && out[j] == rest[j]);
            } else if j == at {
                assert(out[i] == rest[i]);
                lemma_precedes_total(x, rest[i]);
            } else if i < at {
                assert(out[i] == rest[i] && out[j] == rest[j - 1]);
            } else if i == at {
                assert(out[j] == rest[j - 1]);
                if j - 1 > at {
                    lemma_precedes_transitive(x, rest[at], rest[j - 1]);
                }
            } else {
                assert(out[i] == rest[i - 1] && out[j] == rest[j - 1]);
            }
        }
    }
}

/// An ascending sequence is its own sorting.
pub proof fn lemma_sorted_fixes_ascending(s: Seq<EntryView>)
    requires
        ascending(s),
    ensures
        sorted(s) == s,
    decreases s.len(),
{
    if s.len() > 0 {
        let tail = s.drop_first();
        assert forall|i: int, j: int| 0 <= i < j < tail.len() implies precedes(
            #[trigger] tail[i],
            #[trigger] tail[j],
        ) by {
            assert(tail[i] == s[i + 1] && tail[j] == s[j + 1]);
        }
        lemma_sorted_fixes_ascending(tail);
        if tail.len() > 0 {
            assert(tail.first() == s[1]);
        }
        assert(tail.insert(0, s.first()) =~= s);
    }
}

/// Sorting is stable: the items that tie with one another stand in the sorted
/// sequence in the order in which they were given.
pub proof fn lemma_sorted_is_stable(s: Seq<EntryView>, e: EntryView)
    ensures
        sorted(s).filter(ties(e)) == s.filter(ties(e)),
    decreases s.len(),
{
    if s.len() > 0 {
        let x = s.first();
        let tail = s.drop_first();
        let rest = sorted(tail);
        lemma_sorted_is_stable(tail, e);
        lemma_insert_position(x, rest);
        let at = insert_position(x, rest) as int;
        let before = rest.take(at);
        let after = rest.skip(at);
        assert(s =~= seq![x] + tail);
        assert(rest =~= before + after);
        assert(rest.insert(at, x) =~= before + (seq![x] + after));
        tail.lemma_filter_prepend(x, ties(e));
        after.lemma_filter_prepend(x, ties(e));
        Seq::filter_distributes_over_add(before, after, ties(e));
        Seq::filter_distributes_over_add(before, seq![x] + after, ties(e));
        if ties_with(x, e) {
            assert forall|i: int| 0 <= i < before.len() implies !ties_with(
                #[trigger] before[i],
                e,
            ) by {
                assert(before[i] == rest[i]);
                if ties_with(before[i], e) {
                    lemma_precedes_transitive(x, e, before[i]);
                }
            }
            before.lemma_all_neg_filter_empty(ties(e));
            assert(before.filter(ties(e)) =~= Seq::<EntryView>::empty());
            assert(before.filter(ties(e)) + (seq![x] + after.filter(ties(e))) =~= seq![x] + (
            before.filter(ties(e)) + after.filter(ties(e))));
        } else {
            assert(Seq::<EntryView>::empty() + after.filter(ties(e)) =~= after.filter(ties(e)));
            assert(Seq::<EntryView>::empty() + tail.filter(ties(e)) =~= tail.filter(ties(e)));
        }
    }
}

/// An item stands in a sorted sequence exactly if it was given.
pub proof fn lemma_sorted_contains(s: Seq<EntryView>, x: EntryView)
    ensures
        sorted(s).contains(x) <==> s.contains(x),
{
    lemma_sorted_permutes(s);
    to_multiset_contains(s, x);
    to_multiset_contains(sorted(s), x);
}

/// Where each two of the given items can be compared, so can each two of the
/// sorted ones.
pub proof fn lemma_sorted_all_comparable(s: Seq<EntryView>)
    requires
        all_comparable(s),
    ensures
        all_comparable(sorted(s)),
    decreases s.len(),
{
    if s.len() > 0 {
        let x = s.first();
        let tail = s.drop_first();
        let rest = sorted(tail);
        assert forall|i: int, j: int|
            0 <= i < tail.len() && 0 <= j < tail.len() && i != j implies can_compare(
            #[trigger] tail[i],
            #[trigger] tail[j],
        ) by {
            assert(tail[i] == s[i + 1] && tail[j] == s[j + 1]);
        }
        lemma_sorted_all_comparable(tail);
        lemma_insert_position(x, rest);
        let at = insert_position(x, rest) as int;
        let out = rest.insert(at, x);
        assert forall|i: int| 0 <= i < rest.len() implies can_compare(x, #[trigger] rest[i])
            && can_compare(rest[i], x) by {
            assert(rest.contains(rest[i]));
            lemma_sorted_contains(tail, rest[i]);
            let j = choose|j: int| 0 <= j < tail.len() && tail[j] == rest[i];
            assert(s[j + 1] == rest[i] && s[0] == x);
        }
        assert forall|i: int, j: int|
            0 <= i < out.len() && 0 <= j < out.len() && i != j implies can_compare(
            #[trigger] out[i],
            #[trigger] out[j],
        ) by {
            let a = if i < at { i } else { i - 1 };
            let b = if j < at { j } else { j - 1 };
            if i != at {
                assert(out[i] == rest[a]);
            }
            if j != at {
                assert(out[j] == rest[b]);
            }
        }
    }
}

/// A sequence with the same items as a tie-free one is tie-free.
proof fn lemma_tie_free_of_same_items(s: Seq<EntryView>, t: Seq<EntryView>)
    requires
        tie_free(s),
        s.to_multiset() == t.to_multiset(),
    ensures
        tie_free(t),
{
    assert forall|i: int, j: int| 0 <= i < s.len() && 0 <= j < s.len() && i != j implies s[i]
        != s[j] by {
        lemma_older_strict(s[i], s[i], s[i]);
        assert(!ties_with(s[i], s[j]));
    }
    s.lemma_multiset_has_no_duplicates();
    t.lemma_multiset_has_no_duplicates_conv();
    assert forall|i: int, j: int|
        0 <= i < t.len() && 0 <= j < t.len() && i != j implies !ties_with(
        #[trigger] t[i],
        #[trigger] t[j],
    ) by {
        assert(t.contains(t[i]) && t.contains(t[j]));
        to_multiset_contains(t, t[i]);
        to_multiset_contains(t, t[j]);
        to_multiset_contains(s, t[i]);
        to_multiset_contains(s, t[j]);
        let p = choose|p: int| 0 <= p < s.len() && s[p] == t[i];
        let q = choose|q: int| 0 <= q < s.len() && s[q] == t[j];
        assert(t[i] != t[j]);
        assert(!ties_with(s[p], s[q]));
    }
}

/// Sorting a tie-free sequence gives a strictly ascending one.
proof fn lemma_sorted_strictly(s: Seq<EntryView>)
    requires
        tie_free(s),
    ensures
        strictly_ascending(sorted(s)),
{
    let a = sorted(s);
    lemma_sorted_permutes(s);
    lemma_sorted_ascending(s);
    lemma_tie_free_of_same_items(s, a);
    assert forall|i: int, j: int| 0 <= i < j < a.len() implies older(
        #[trigger] a[i],
        #[trigger] a[j],
    ) by {
        assert(precedes(a[i], a[j]));
        assert(!ties_with(a[i], a[j]));
    }
}

/// Two strictly ascending sequences of the same items are the same sequence.
proof fn lemma_strictly_ascending_is_unique(a: Seq<EntryView>, b: Seq<EntryView>)
    requires
        strictly_ascending(a),
        strictly_ascending(b),
        a.to_multiset() == b.to_multiset(),
    ensures
        a == b,
    decreases a.len(),
{
    a.to_multiset_ensures();
    b.to_multiset_ensures();
    if a.len() == 0 {
        assert(a =~= b);
    } else {
        let n = a.len() as int;
        let x = a.last();
        let y = b.last();
        assert(a.contains(x) && b.contains(y));
        to_multiset_contains(a, x);
        to_multiset_contains(b, x);
        to_multiset_contains(a, y);
        to_multiset_contains(b, y);
        let k = choose|k: int| 0 <= k < b.len() && b[k] == x;
        let m = choose|m: int| 0 <= m < a.len() && a[m] == y;
        lemma_older_strict(x, y, x);
        if k < n - 1 {
            assert(older(b[k], b[n - 1]));
            if m < n - 1 {
                assert(older(a[m], a[n - 1]));
            }
        }
        assert(x == y);
        let front = a.drop_last();
        let other = b.drop_last();
        assert(front.push(x) =~= a);
        assert(other.push(x) =~= b);
        to_multiset_build(front, x);
        to_multiset_build(other, x);
        assert(front.to_multiset() =~= a.to_multiset().remove(x));
        assert(other.to_multiset() =~= b.to_multiset().remove(x));
        assert forall|i: int, j: int| 0 <= i < j < front.len() implies older(
            #[trigger] front[i],
            #[trigger] front[j],
        ) by {
            assert(front[i] == a[i] && front[j] == a[j]);
        }
        assert forall|i: int, j: int| 0 <= i < j < other.len() implies older(
            #[trigger] other[i],
            #[trigger] other[j],
        ) by {
            assert(other[i] == b[i] && other[j] == b[j]);
        }
        lemma_strictly_ascending_is_unique(front, other);
    }
}

/// Where no two of the items tie, the sorted sequence does not depend on the
/// order in which the items were given.
pub proof fn lemma_sorted_ignores_order(s: Seq<EntryView>, t: Seq<EntryView>)
    requires
        tie_free(s),
        s.to_multiset() == t.to_multiset(),
    ensures
        sorted(s) == sorted(t),
{
    lemma_tie_free_of_same_items(s, t);
    lemma_sorted_strictly(s);
    lemma_sorted_strictly(t);
    lemma_sorted_permutes(s);
    lemma_sorted_permutes(t);
    lemma_strictly_ascending_is_unique(sorted(s), sorted(t));
}

/// Whether `x` can be compared with every one of `others`.
pub fn compares_with_all(x: &Entry, others: &Vec<Entry>) -> (all: bool)
    ensures
        all == comparable_with_all(x@, views(others@)),
{
    let mut i: usize = 0;
    while i < others.len()
        invariant
            i <= others.len(),
            forall|j: int| 0 <= j < i ==> can_compare(x@, #[trigger] views(others@)[j]),
        decreases others.len() - i,
    {
        assert(views(others@)[i as int] == others@[i as int]@);
        if !compares_with(x, &others[i]) {
            return false;
        }
        i = i + 1;
    }
    true
}

/// The place at which `x` goes into the ascending `sorted_so_far`.
pub fn find_insert_position(x: &Entry, sorted_so_far: &Vec<Entry>) -> (at: usize)
    requires
        comparable_with_all(x@, views(sorted_so_far@)),
    ensures
        at == insert_position(x@, views(sorted_so_far@)),
        at <= sorted_so_far.len(),
{
    let ghost s = views(sorted_so_far@);
    let mut at: usize = 0;
    let mut found = false;
    assert(s.skip(0) =~= s);
    while at < sorted_so_far.len() && !found
        invariant
            at <= sorted_so_far.len(),
            s == views(sorted_so_far@),
            comparable_with_all(x@, s),
            insert_position(x@, s) == at + insert_position(x@, s.skip(at as int)),
            found ==> at < s.len() && precedes(x@, s[at as int]),
        decreases sorted_so_far.len() - at + (if found { 0int } else { 1int }),
    {
        assert(s.skip(at as int).first() == s[at as int]);
        if may_precede(x, &sorted_so_far[at]) {
            found = true;
        } else {
            assert(s.skip(at as int).drop_first() =~= s.skip(at + 1));
            at = at + 1;
        }
    }
    at
}

/// Sorts entries from oldest to newest, keeping the given order among entries
/// of which neither is older. Fails exactly when two of the entries cannot be
/// compared.
pub fn sort_entries(entries: Vec<Entry>) -> (outcome: Result<Vec<Entry>, VersionParseOverflow>)
    ensures
        outcome is Ok <==> all_comparable(views(entries@)),
        outcome matches Ok(sorted_entries) ==> {
            &&& views(sorted_entries@) == sorted(views(entries@))
            &&& ascending(views(sorted_entries@))
            &&& views(sorted_entries@).to_multiset() == views(entries@).to_multiset()
        },
{
    let ghost given = views(entries@);
    proof {
        lemma_sorted_ascending(given);
        lemma_sorted_permutes(given);
    }
    let mut rest = entries;
    let mut out: Vec<Entry> = Vec::new();
    assert(given.skip(given.len() as int) =~= Seq::<EntryView>::empty());
    assert(views(out@) =~= Seq::<EntryView>::empty());
    while rest.len() > 0
        invariant
            given == views(entries@),
            rest.len() <= given.len(),
            views(rest@) == given.take(rest.len() as int),
            views(out@) == sorted(given.skip(rest.len() as int)),
            all_comparable(given.skip(rest.len() as int)),
        decreases rest.len(),
    {
        let ghost k = rest.len() as int;
        let ghost done = given.skip(k);
        let ghost next = given.skip(k - 1);
        let ghost waiting = views(rest@);
        let x = rest.pop().unwrap();
        assert(x@ == given[k - 1]) by {
            assert(waiting[k - 1] == given.take(k)[k - 1]);
        }
        assert(next.first() == x@);
        assert(next.drop_first() =~= done);
        assert(views(rest@) =~= given.take(k - 1));
        if !compares_with_all(&x, &out) {
            proof {
                let i = choose|i: int|
                    0 <= i < views(out@).len() && !can_compare(x@, #[trigger] views(out@)[i]);
                let other = views(out@)[i];
                assert(sorted(done).contains(other));
                lemma_sorted_contains(done, other);
                let j = choose|j: int| 0 <= j < done.len() && done[j] == other;
                assert(given[k + j] == other);
                assert(!can_compare(given[k - 1], given[k + j]));
                assert(!all_comparable(given));
            }
            return Err(VersionParseOverflow);
        }
        let at = find_insert_position(&x, &out);
        let ghost before = views(out@);
        out.insert(at, x);
        proof {
            assert(views(out@) =~= before.insert(at as int, given[k - 1]));
            assert forall|i: int, j: int|
                0 <= i < next.len() && 0 <= j < next.len() && i != j implies can_compare(
                #[trigger] next[i],
                #[trigger] next[j],
            ) by {
                if i > 0 && j > 0 {
                    assert(next[i] == done[i - 1] && next[j] == done[j - 1]);
                } else {
                    let other = if i == 0 { j } else { i };
                    assert(next[other] == done[other - 1]);
                    lemma_sorted_contains(done, done[other - 1]);
                }
            }
        }
    }
    assert(given.skip(0) =~= given);
    Ok(out)
}

} // verus!
