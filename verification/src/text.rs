//! Ordinary string ordering: byte by byte over the UTF-8 encoding.

use std::cmp::Ordering;
use vstd::prelude::*;
use vstd::utf8::{encode_utf8, encode_utf8_decode_utf8};

verus! {

/// Strict lexicographic order of two byte sequences: the first differing byte
/// decides, and a proper prefix comes before the sequence it is a prefix of.
pub open spec fn lex_less(a: Seq<u8>, b: Seq<u8>) -> bool
    decreases a.len(),
{
    if b.len() == 0 {
        false
    } else if a.len() == 0 {
        true
    } else if a[0] != b[0] {
        a[0] < b[0]
    } else {
        lex_less(a.drop_first(), b.drop_first())
    }
}

/// Strict order of two strings: lexicographic over their UTF-8 bytes.
pub open spec fn str_less(a: Seq<char>, b: Seq<char>) -> bool {
    lex_less(encode_utf8(a), encode_utf8(b))
}

/// The three-way outcome of a comparison, from its two strict halves.
pub open spec fn three_way(less: bool, greater: bool) -> Ordering {
    if less {
        Ordering::Less
    } else if greater {
        Ordering::Greater
    } else {
        Ordering::Equal
    }
}

/// How string `a` stands to string `b` in ordinary string order.
pub open spec fn str_order(a: Seq<char>, b: Seq<char>) -> Ordering {
    three_way(str_less(a, b), str_less(b, a))
}

/// `n` is a length up to which `a` and `b` agree, and neither agrees further.
pub open spec fn first_difference_at(a: Seq<u8>, b: Seq<u8>, n: usize) -> bool {
    &&& n <= a.len()
    &&& n <= b.len()
    &&& forall|i: int| 0 <= i < n ==> a[i] == b[i]
    &&& n < a.len() && n < b.len() ==> a[n as int] != b[n as int]
}

/// `a`, which agrees with `b` up to `n`, runs out at `n` or holds the smaller byte there.
pub open spec fn less_at(a: Seq<u8>, b: Seq<u8>, n: usize) -> bool {
    n < b.len() && (n == a.len() || a[n as int] < b[n as int])
}

/// Of two different byte sequences exactly one comes before the other, and no
/// sequence comes before itself.
pub proof fn lemma_lex_trichotomy(a: Seq<u8>, b: Seq<u8>)
    ensures
        a != b ==> (lex_less(a, b) || lex_less(b, a)),
        !(lex_less(a, b) && lex_less(b, a)),
    decreases a.len(),
{
    if a.len() > 0 && b.len() > 0 && a[0] == b[0] {
        lemma_lex_trichotomy(a.drop_first(), b.drop_first());
        if a.drop_first() == b.drop_first() {
            assert(a =~= seq![a[0]] + a.drop_first());
            assert(b =~= seq![b[0]] + b.drop_first());
        }
    } else if a.len() == 0 && b.len() == 0 {
        assert(a =~= b);
    }
}

/// The lexicographic order is transitive.
pub proof fn lemma_lex_transitive(a: Seq<u8>, b: Seq<u8>, c: Seq<u8>)
    requires
        lex_less(a, b),
        lex_less(b, c),
    ensures
        lex_less(a, c),
    decreases a.len(),
{
    if a.len() > 0 && a[0] == b[0] && b[0] == c[0] {
        lemma_lex_transitive(a.drop_first(), b.drop_first(), c.drop_first());
    }
}

/// The order of two sequences is decided where they first differ.
pub proof fn lemma_lex_decided_at(a: Seq<u8>, b: Seq<u8>, n: usize)
    requires
        first_difference_at(a, b, n),
    ensures
        lex_less(a, b) == less_at(a, b, n),
        lex_less(b, a) == less_at(b, a, n),
    decreases n,
{
    if n > 0 {
        let m = (n - 1) as usize;
        assert(a[0] == b[0]);
        assert forall|i: int| 0 <= i < m implies a.drop_first()[i] == b.drop_first()[i] by {
            assert(a[i + 1] == b[i + 1]);
        }
        lemma_lex_decided_at(a.drop_first(), b.drop_first(), m);
    }
}

/// The length of the longest common prefix of two byte strings.
pub fn first_difference(x: &[u8], y: &[u8]) -> (n: usize)
    ensures
        first_difference_at(x@, y@, n),
{
    let mut n: usize = 0;
    while n < x.len() && n < y.len() && x[n] == y[n]
        invariant
            n <= x.len(),
            n <= y.len(),
            forall|i: int| 0 <= i < n ==> x@[i] == y@[i],
        decreases x.len() - n,
    {
        n = n + 1;
    }
    n
}

/// Different strings have different encodings.
pub proof fn lemma_encoding_injective(a: Seq<char>, b: Seq<char>)
    requires
        encode_utf8(a) == encode_utf8(b),
    ensures
        a == b,
{
    encode_utf8_decode_utf8(a);
    encode_utf8_decode_utf8(b);
}

/// Of two different strings exactly one comes before the other, and no string
/// comes before itself.
pub proof fn lemma_str_total(a: Seq<char>, b: Seq<char>)
    ensures
        a != b ==> (str_less(a, b) || str_less(b, a)),
        !(str_less(a, b) && str_less(b, a)),
{
    lemma_lex_trichotomy(encode_utf8(a), encode_utf8(b));
    if encode_utf8(a) == encode_utf8(b) {
        lemma_encoding_injective(a, b);
    }
}

/// The order of strings is transitive.
pub proof fn lemma_str_transitive(a: Seq<char>, b: Seq<char>, c: Seq<char>)
    requires
        str_less(a, b),
        str_less(b, c),
    ensures
        str_less(a, c),
{
    lemma_lex_transitive(encode_utf8(a), encode_utf8(b), encode_utf8(c));
}

/// Compares two strings as `str`'s own ordering does, byte by byte.
pub fn compare_strings(a: &str, b: &str) -> (order: Ordering)
    ensures
        order == str_order(a@, b@),
        order == Ordering::Equal <==> a@ == b@,
{
    let x = a.as_bytes();
    let y = b.as_bytes();
    let n = first_difference(x, y);
    proof {
        lemma_lex_decided_at(x@, y@, n);
        lemma_str_total(a@, b@);
    }
    if n == x.len() {
        if n == y.len() {
            Ordering::Equal
        } else {
            Ordering::Less
        }
    } else if n == y.len() {
        Ordering::Greater
    } else if x[n] < y[n] {
        Ordering::Less
    } else {
        Ordering::Greater
    }
}

} // verus!
