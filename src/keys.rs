//! Raw public keys, their canonical byte order, and the 64-bit hashes that a
//! membership filter is built over.
use std::hash::Hasher;
use crate::codec::{append_bytes, copy_bytes};
use twox_hash::XxHash64;
use vstd::prelude::*;

verus! {

/// The hash that `public_key_hash` computes of a byte string: xxHash64 with seed 0.
pub uninterp spec fn xxh64_of(data: Seq<u8>) -> u64;

/// Relies on `twox_hash::XxHash64` (seeded with 0 by `Default`): one `write`
/// of the bytes followed by `finish` gives the xxHash64 digest, which depends
/// on the bytes alone.
#[verifier::external_body]
fn xxhash64(data: &[u8]) -> (r: u64)
    ensures
        r == xxh64_of(data@),
{
    let mut hasher = XxHash64::default();
    hasher.write(data);
    hasher.finish()
}

/// Byte-wise lexicographic order from position `i` on: the order of `[u8]` in
/// Rust, where a proper prefix sorts first.
pub open spec fn lex_lt_from(a: Seq<u8>, b: Seq<u8>, i: int) -> bool
    decreases a.len() - i,
{
    if i < 0 || i >= a.len() {
        0 <= i < b.len()
    } else if i >= b.len() {
        false
    } else if a[i] != b[i] {
        a[i] < b[i]
    } else {
        lex_lt_from(a, b, i + 1)
    }
}

/// `a` sorts strictly before `b`.
pub open spec fn lex_lt(a: Seq<u8>, b: Seq<u8>) -> bool {
    lex_lt_from(a, b, 0)
}

/// The canonical order of an edge's two keys: the smaller one first.
pub open spec fn ordered_pair(a: Seq<u8>, b: Seq<u8>) -> (Seq<u8>, Seq<u8>) {
    if lex_lt(a, b) {
        (a, b)
    } else {
        (b, a)
    }
}

/// The hash of an edge: of its two keys in canonical order, one after the other.
pub open spec fn edge_hash_of(a: Seq<u8>, b: Seq<u8>) -> u64 {
    xxh64_of(ordered_pair(a, b).0 + ordered_pair(a, b).1)
}

proof fn lemma_lex_irreflexive_from(a: Seq<u8>, i: int)
    requires
        0 <= i,
    ensures
        !lex_lt_from(a, a, i),
    decreases a.len() - i,
{
    if i < a.len() {
        lemma_lex_irreflexive_from(a, i + 1);
    }
}

proof fn lemma_lex_total_from(a: Seq<u8>, b: Seq<u8>, i: int)
    requires
        0 <= i <= a.len(),
        i <= b.len(),
        !lex_lt_from(a, b, i),
        !lex_lt_from(b, a, i),
    ensures
        a.len() == b.len(),
        forall|j: int| i <= j < a.len() ==> a[j] == b[j],
    decreases a.len() - i,
{
    if i < a.len() && i < b.len() {
        lemma_lex_total_from(a, b, i + 1);
    }
}

proof fn lemma_lex_transitive_from(a: Seq<u8>, b: Seq<u8>, c: Seq<u8>, i: int)
    requires
        0 <= i,
        lex_lt_from(a, b, i),
        lex_lt_from(b, c, i),
    ensures
        lex_lt_from(a, c, i),
    decreases a.len() - i,
{
    if i < a.len() && i < b.len() && i < c.len() && a[i] == b[i] && b[i] == c[i] {
        lemma_lex_transitive_from(a, b, c, i + 1);
    }
}

/// No key sorts before itself.
pub proof fn lemma_lex_irreflexive(a: Seq<u8>)
    ensures
        !lex_lt(a, a),
{
    lemma_lex_irreflexive_from(a, 0);
}

/// Of two different keys, one sorts before the other.
pub proof fn lemma_lex_total(a: Seq<u8>, b: Seq<u8>)
    ensures
        a != b ==> lex_lt(a, b) || lex_lt(b, a),
{
    if !lex_lt(a, b) && !lex_lt(b, a) {
        lemma_lex_total_from(a, b, 0);
        assert(a =~= b);
    }
}

/// The order is transitive.
pub proof fn lemma_lex_transitive(a: Seq<u8>, b: Seq<u8>, c: Seq<u8>)
    requires
        lex_lt(a, b),
        lex_lt(b, c),
    ensures
        lex_lt(a, c),
{
    lemma_lex_transitive_from(a, b, c, 0);
}

/// No two keys sort before each other.
pub proof fn lemma_lex_asymmetric(a: Seq<u8>, b: Seq<u8>)
    ensures
        !(lex_lt(a, b) && lex_lt(b, a)),
{
    if lex_lt(a, b) && lex_lt(b, a) {
        lemma_lex_transitive(a, b, a);
        lemma_lex_irreflexive(a);
    }
}

/// Whether `a` sorts strictly before `b`.
pub fn key_lt(a: &[u8], b: &[u8]) -> (r: bool)
    ensures
        r == lex_lt(a@, b@),
{
    let mut i: usize = 0;
    while i < a.len() && i < b.len() && a[i] == b[i]
        invariant
            i <= a@.len(),
            i <= b@.len(),
            lex_lt_from(a@, b@, 0) == lex_lt_from(a@, b@, i as int),
        decreases a@.len() - i,
    {
        i = i + 1;
    }
    i < b.len() && (i == a.len() || a[i] < b[i])
}

/// Whether two keys hold the same bytes.
pub fn key_eq(a: &[u8], b: &[u8]) -> (r: bool)
    ensures
        r == (a@ == b@),
{
    if a.len() != b.len() {
        return false;
    }
    let mut i: usize = 0;
    while i < a.len()
        invariant
            a@.len() == b@.len(),
            i <= a@.len(),
            forall|j: int| 0 <= j < i ==> a@[j] == b@[j],
        decreases a@.len() - i,
    {
        if a[i] != b[i] {
            return false;
        }
        i = i + 1;
    }
    assert(a@ =~= b@);
    true
}

/// The 64-bit hash of a raw public key.
pub fn public_key_hash(public_key: &[u8]) -> (r: u64)
    ensures
        r == xxh64_of(public_key@),
{
    xxhash64(public_key)
}

/// The two keys of an edge, the smaller one first.
pub fn edge_order<'a>(a: &'a [u8], b: &'a [u8]) -> (r: (&'a [u8], &'a [u8]))
    ensures
        (r.0@, r.1@) == ordered_pair(a@, b@),
{
    if key_lt(a, b) {
        (a, b)
    } else {
        (b, a)
    }
}

/// The 64-bit hash of an edge, the same whichever way round its keys are given.
pub fn edge_hash(a: &[u8], b: &[u8]) -> (r: u64)
    ensures
        r == edge_hash_of(a@, b@),
        r == edge_hash_of(b@, a@),
{
    proof {
        lemma_ordered_pair_symmetric(a@, b@);
    }
    let (first, second) = edge_order(a, b);
    let mut data: Vec<u8> = copy_bytes(first);
    append_bytes(&mut data, second);
    xxhash64(data.as_slice())
}

/// The canonical order of two keys does not depend on the order they come in.
pub proof fn lemma_ordered_pair_symmetric(a: Seq<u8>, b: Seq<u8>)
    ensures
        ordered_pair(a, b) == ordered_pair(b, a),
{
    lemma_lex_asymmetric(a, b);
    lemma_lex_total(a, b);
}

/// An edge hashes the same whichever way round its keys are given.
pub proof fn lemma_edge_hash_symmetric(a: Seq<u8>, b: Seq<u8>)
    ensures
        edge_hash_of(a, b) == edge_hash_of(b, a),
{
    lemma_ordered_pair_symmetric(a, b);
}

} // verus!
