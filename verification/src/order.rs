//! Byte-lexicographic ordering of index keys.
//!
//! The pool keeps its indexes sorted by the natural text ordering of their
//! keys, which for UTF-8 encoded text coincides with the lexicographic order
//! of the encoded bytes. This module defines that order as a specification,
//! proves that it is a strict total order, and provides the executable
//! three-way comparison the store is built on.

use vstd::prelude::*;
use vstd::utf8::{decode_utf8, encode_utf8, encode_utf8_decode_utf8};

verus! {

/// Strict lexicographic order on byte sequences: `a` sorts before `b`.
pub open spec fn bytes_lt(a: Seq<u8>, b: Seq<u8>) -> bool
    decreases a.len(),
{
    if b.len() == 0 {
        false
    } else if a.len() == 0 {
        true
    } else if a[0] != b[0] {
        a[0] < b[0]
    } else {
        bytes_lt(a.skip(1), b.skip(1))
    }
}

/// Strict order on keys: the order of their UTF-8 encodings.
pub open spec fn key_lt(a: Seq<char>, b: Seq<char>) -> bool {
    bytes_lt(encode_utf8(a), encode_utf8(b))
}

pub proof fn lemma_bytes_lt_irreflexive(a: Seq<u8>)
    ensures
        !bytes_lt(a, a),
    decreases a.len(),
{
    if a.len() > 0 {
        lemma_bytes_lt_irreflexive(a.skip(1));
    }
}

pub proof fn lemma_bytes_lt_asymmetric(a: Seq<u8>, b: Seq<u8>)
    requires
        bytes_lt(a, b),
    ensures
        !bytes_lt(b, a),
    decreases a.len(),
{
    if a.len() > 0 && b.len() > 0 && a[0] == b[0] {
        lemma_bytes_lt_asymmetric(a.skip(1), b.skip(1));
    }
}

pub proof fn lemma_bytes_lt_transitive(a: Seq<u8>, b: Seq<u8>, c: Seq<u8>)
    requires
        bytes_lt(a, b),
        bytes_lt(b, c),
    ensures
        bytes_lt(a, c),
    decreases a.len(),
{
    if a.len() > 0 && b.len() > 0 && c.len() > 0 && a[0] == b[0] && b[0] == c[0] {
        lemma_bytes_lt_transitive(a.skip(1), b.skip(1), c.skip(1));
    }
}

/// Two keys with the same UTF-8 encoding are the same key.
pub proof fn lemma_same_bytes_same_key(a: Seq<char>, b: Seq<char>)
    requires
        encode_utf8(a) == encode_utf8(b),
    ensures
        a == b,
{
    encode_utf8_decode_utf8(a);
    encode_utf8_decode_utf8(b);
    assert(decode_utf8(encode_utf8(a)) == decode_utf8(encode_utf8(b)));
}

pub proof fn lemma_key_lt_irreflexive(a: Seq<char>)
    ensures
        !key_lt(a, a),
{
    lemma_bytes_lt_irreflexive(encode_utf8(a));
}

pub proof fn lemma_key_lt_transitive(a: Seq<char>, b: Seq<char>, c: Seq<char>)
    requires
        key_lt(a, b),
        key_lt(b, c),
    ensures
        key_lt(a, c),
{
    lemma_bytes_lt_transitive(encode_utf8(a), encode_utf8(b), encode_utf8(c));
}

/// A sequence that agrees with another on a prefix and then either ends or
/// holds the smaller byte sorts first.
proof fn lemma_bytes_lt_from_prefix(a: Seq<u8>, b: Seq<u8>, i: int)
    requires
        0 <= i <= a.len(),
        i <= b.len(),
        forall|j: int| 0 <= j < i ==> a[j] == b[j],
        i < b.len(),
        i == a.len() || a[i] < b[i],
    ensures
        bytes_lt(a, b),
    decreases i,
{
    if i == 0 {
    } else {
        lemma_bytes_lt_from_prefix(a.skip(1), b.skip(1), i - 1);
    }
}

/// Three-way comparison of byte slices in lexicographic order: `-1` when the
/// first sorts before the second, `0` when they are equal, `1` otherwise.
fn bytes_compare(a: &[u8], b: &[u8]) -> (o: i8)
    ensures
        o == -1 || o == 0 || o == 1,
        (o == -1) == bytes_lt(a@, b@),
        (o == 0) == (a@ == b@),
        (o == 1) == bytes_lt(b@, a@),
{
    let alen = a.len();
    let blen = b.len();
    let n = if alen < blen {
        alen
    } else {
        blen
    };
    let mut i: usize = 0;
    while i < n
        invariant
            0 <= i <= n,
            n <= a@.len(),
            n <= b@.len(),
            n == if a@.len() < b@.len() {
                a@.len()
            } else {
                b@.len()
            },
            forall|j: int| 0 <= j < i ==> a@[j] == b@[j],
        decreases n - i,
    {
        let x = a[i];
        let y = b[i];
        if x < y {
            proof {
                lemma_bytes_lt_from_prefix(a@, b@, i as int);
                lemma_bytes_lt_irreflexive(a@);
                lemma_bytes_lt_asymmetric(a@, b@);
            }
            return -1;
        }
        if y < x {
            proof {
                lemma_bytes_lt_from_prefix(b@, a@, i as int);
                lemma_bytes_lt_irreflexive(b@);
                lemma_bytes_lt_asymmetric(b@, a@);
            }
            return 1;
        }
        i = i + 1;
    }
    if alen < blen {
        proof {
            lemma_bytes_lt_from_prefix(a@, b@, n as int);
            lemma_bytes_lt_irreflexive(a@);
            lemma_bytes_lt_asymmetric(a@, b@);
        }
        -1
    } else if blen < alen {
        proof {
            lemma_bytes_lt_from_prefix(b@, a@, n as int);
            lemma_bytes_lt_irreflexive(b@);
            lemma_bytes_lt_asymmetric(b@, a@);
        }
        1
    } else {
        proof {
            assert(a@ =~= b@);
            lemma_bytes_lt_irreflexive(a@);
        }
        0
    }
}

/// Three-way comparison of two keys in byte-lexicographic order.
pub fn str_compare(a: &str, b: &str) -> (o: i8)
    ensures
        o == -1 || o == 0 || o == 1,
        (o == -1) == key_lt(a@, b@),
        (o == 0) == (a@ == b@),
        (o == 1) == key_lt(b@, a@),
{
    let o = bytes_compare(a.as_bytes(), b.as_bytes());
    proof {
        if o == 0 {
            lemma_same_bytes_same_key(a@, b@);
        }
        if a@ == b@ {
            assert(encode_utf8(a@) == encode_utf8(b@));
        }
    }
    o
}

} // verus!
