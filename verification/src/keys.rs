//! Namespace derivation: every logical collection owns a disjoint key range
//! of the one physical keyspace. A key is the collection's prefix — service
//! id, collection index, suffix length, suffix — followed by a tail whose
//! length is fixed per collection kind, which makes distinct collections
//! provably collision-free.

use vstd::prelude::*;
use crate::codec::{be16, be32, be64, push_be16, push_be32, push_be64, extend_bytes, lemma_be32_injective};

verus! {

/// Identifier of the timestamping service within the shared store.
pub const SERVICE_ID: u16 = 130;

/// Collection index of the user registry (authenticated map).
pub const IDX_USERS: u16 = 0;

/// Collection index of the per-user timestamp logs (authenticated lists).
pub const IDX_TIMESTAMPS: u16 = 1;

/// Collection index of the per-user payment logs (authenticated lists).
pub const IDX_PAYMENTS: u16 = 2;

/// Collection index of the known-key registry (plain map).
pub const IDX_KNOWN_KEYS: u16 = 3;

/// The namespace prefix of the collection with the given index and
/// disambiguating suffix: 8 header bytes, then the suffix.
pub open spec fn ns_prefix(idx: u16, suffix: Seq<u8>) -> Seq<u8> {
    be16(SERVICE_ID) + be16(idx) + be32(suffix.len() as u32) + suffix
}

/// Builds a namespace prefix.
pub fn gen_prefix(idx: u16, suffix: &Vec<u8>) -> (r: Vec<u8>)
    requires
        suffix@.len() <= u32::MAX,
    ensures
        r@ == ns_prefix(idx, suffix@),
{
    let mut out: Vec<u8> = Vec::new();
    push_be16(&mut out, SERVICE_ID);
    push_be16(&mut out, idx);
    push_be32(&mut out, suffix.len() as u32);
    extend_bytes(&mut out, suffix);
    proof {
        assert(out@ =~= ns_prefix(idx, suffix@));
    }
    out
}

/// Shape of every namespaced key: prefix plus a tail.
pub proof fn lemma_ns_key_shape(idx: u16, s: Seq<u8>, t: Seq<u8>)
    ensures
        (ns_prefix(idx, s) + t).len() == 8 + s.len() + t.len(),
        (ns_prefix(idx, s) + t)[2] == (idx >> 8) as u8,
        (ns_prefix(idx, s) + t)[3] == idx as u8,
        forall|j: int| 0 <= j < 4 ==> (ns_prefix(idx, s) + t)[4 + j] == #[trigger] be32(s.len() as u32)[j],
        forall|j: int| 0 <= j < s.len() ==> (ns_prefix(idx, s) + t)[8 + j] == s[j],
        forall|j: int| 0 <= j < t.len() ==> (ns_prefix(idx, s) + t)[8 + s.len() + j] == t[j],
{
    let w = ns_prefix(idx, s) + t;
    assert(be16(SERVICE_ID).len() == 2 && be16(idx).len() == 2 && be32(s.len() as u32).len() == 4);
    assert(w[2] == be16(idx)[0]);
    assert(w[3] == be16(idx)[1]);
    assert(forall|j: int| 0 <= j < 4 ==> w[4 + j] == #[trigger] be32(s.len() as u32)[j]);
}

/// Two namespaced keys with different collection indices never collide.
pub proof fn lemma_ns_idx_disjoint(i1: u16, s1: Seq<u8>, t1: Seq<u8>, i2: u16, s2: Seq<u8>, t2: Seq<u8>)
    requires
        i1 != i2,
    ensures
        ns_prefix(i1, s1) + t1 != ns_prefix(i2, s2) + t2,
{
    lemma_ns_key_shape(i1, s1, t1);
    lemma_ns_key_shape(i2, s2, t2);
    if ns_prefix(i1, s1) + t1 == ns_prefix(i2, s2) + t2 {
        assert((i1 >> 8) as u8 == (i2 >> 8) as u8 && i1 as u8 == i2 as u8);
        assert(((i1 >> 8) as u8 == (i2 >> 8) as u8 && i1 as u8 == i2 as u8) ==> i1 == i2)
            by (bit_vector);
    }
}

/// Two equal namespaced keys with the same index and the same tail length
/// have the same suffix and the same tail.
pub proof fn lemma_ns_key_parts(idx: u16, s1: Seq<u8>, t1: Seq<u8>, s2: Seq<u8>, t2: Seq<u8>)
    requires
        ns_prefix(idx, s1) + t1 == ns_prefix(idx, s2) + t2,
        t1.len() == t2.len(),
    ensures
        s1 == s2,
        t1 == t2,
{
    lemma_ns_key_shape(idx, s1, t1);
    lemma_ns_key_shape(idx, s2, t2);
    let w = ns_prefix(idx, s1) + t1;
    assert(8 + s1.len() + t1.len() == 8 + s2.len() + t2.len());
    assert(s1.len() == s2.len());
    assert(s1 =~= s2) by {
        assert(forall|j: int| 0 <= j < s1.len() ==> s1[j] == #[trigger] w[8 + j] && s2[j] == w[8
            + j]);
    }
    assert(t1 =~= t2) by {
        assert(forall|j: int| 0 <= j < t1.len() ==> t1[j] == #[trigger] w[8 + s1.len() + j]
            && t2[j] == w[8 + s2.len() + j]);
    }
}

/// Prefix of the user registry.
pub open spec fn users_prefix() -> Seq<u8> {
    ns_prefix(IDX_USERS, Seq::empty())
}

/// Key of a user record: the registry prefix plus the hash of the user's
/// logical id.
pub open spec fn user_key(id_hash: Seq<u8>) -> Seq<u8> {
    users_prefix() + id_hash
}

/// Prefix of one user's timestamp log.
pub open spec fn ts_prefix(user_id: Seq<u8>) -> Seq<u8> {
    ns_prefix(IDX_TIMESTAMPS, user_id)
}

/// Prefix of one user's payment log.
pub open spec fn pay_prefix(user_id: Seq<u8>) -> Seq<u8> {
    ns_prefix(IDX_PAYMENTS, user_id)
}

/// Prefix of the known-key registry.
pub open spec fn known_keys_prefix() -> Seq<u8> {
    ns_prefix(IDX_KNOWN_KEYS, Seq::empty())
}

/// Key of a known-key registry entry.
pub open spec fn known_key(pub_key: Seq<u8>) -> Seq<u8> {
    known_keys_prefix() + pub_key
}

/// Tail of a list's length cell; padded to the entry tail's length so that
/// equal-length tails separate cleanly.
pub open spec fn len_tail() -> Seq<u8> {
    seq![0u8] + be64(0)
}

/// Tail of a list's entry cell at position `i`.
pub open spec fn entry_tail(i: u64) -> Seq<u8> {
    seq![1u8] + be64(i)
}

/// Key of a list's length cell.
pub open spec fn list_len_key(prefix: Seq<u8>) -> Seq<u8> {
    prefix + len_tail()
}

/// Key of a list's entry cell at position `i`.
pub open spec fn list_entry_key(prefix: Seq<u8>, i: u64) -> Seq<u8> {
    prefix + entry_tail(i)
}

/// A length cell and an entry cell never share a key, whatever the suffixes.
pub proof fn lemma_len_entry_disjoint(idx: u16, u1: Seq<u8>, u2: Seq<u8>, i: u64)
    ensures
        list_len_key(ns_prefix(idx, u1)) != list_entry_key(ns_prefix(idx, u2), i),
{
    if list_len_key(ns_prefix(idx, u1)) == list_entry_key(ns_prefix(idx, u2), i) {
        lemma_ns_key_parts(idx, u1, len_tail(), u2, entry_tail(i));
        assert(len_tail()[0] == 0u8 && entry_tail(i)[0] == 1u8);
    }
}

/// Equal length-cell keys of one collection index belong to one suffix.
pub proof fn lemma_len_key_injective(idx: u16, u1: Seq<u8>, u2: Seq<u8>)
    requires
        list_len_key(ns_prefix(idx, u1)) == list_len_key(ns_prefix(idx, u2)),
    ensures
        u1 == u2,
{
    lemma_ns_key_parts(idx, u1, len_tail(), u2, len_tail());
}

/// Equal entry-cell keys of one collection index belong to one suffix and
/// one position.
pub proof fn lemma_entry_key_injective(idx: u16, u1: Seq<u8>, i1: u64, u2: Seq<u8>, i2: u64)
    requires
        list_entry_key(ns_prefix(idx, u1), i1) == list_entry_key(ns_prefix(idx, u2), i2),
    ensures
        u1 == u2,
        i1 == i2,
{
    lemma_ns_key_parts(idx, u1, entry_tail(i1), u2, entry_tail(i2));
    assert(entry_tail(i1) == entry_tail(i2));
    assert forall|j: int| 0 <= j < 8 implies be64(i1)[j] == be64(i2)[j] by {
        assert(entry_tail(i1)[1 + j] == be64(i1)[j]);
        assert(entry_tail(i2)[1 + j] == be64(i2)[j]);
    }
    assert(be64(i1) =~= be64(i2));
    crate::codec::lemma_be64_injective(i1, i2);
}

/// A collection's prefix is a prefix only of that collection's own keys:
/// same index, and (under the length bound a built prefix meets) the same
/// suffix.
#[verifier::rlimit(100)]
pub proof fn lemma_prefix_of_key(i1: u16, a: Seq<u8>, i2: u16, b: Seq<u8>, t: Seq<u8>)
    requires
        crate::codec::is_prefix(ns_prefix(i1, a), ns_prefix(i2, b) + t),
        a.len() <= u32::MAX,
        b.len() <= u32::MAX,
    ensures
        i1 == i2,
        a == b,
{
    let p = ns_prefix(i1, a);
    let w = ns_prefix(i2, b) + t;
    lemma_ns_key_shape(i1, a, Seq::empty());
    assert(ns_prefix(i1, a) + Seq::<u8>::empty() =~= p);
    lemma_ns_key_shape(i2, b, t);
    assert(p.len() == 8 + a.len());
    assert(w.subrange(0, p.len() as int) == p);
    assert(forall|j: int| 0 <= j < p.len() ==> p[j] == #[trigger] w[j]) by {
        assert(forall|j: int| 0 <= j < p.len() ==> w.subrange(0, p.len() as int)[j] == #[trigger] w[j]);
    }
    assert(p[2] == (i1 >> 8) as u8 && p[3] == i1 as u8);
    assert(w[2] == (i2 >> 8) as u8 && w[3] == i2 as u8);
    assert(((i1 >> 8) as u8 == (i2 >> 8) as u8 && i1 as u8 == i2 as u8) ==> i1 == i2)
        by (bit_vector);
    assert(be32(a.len() as u32) =~= be32(b.len() as u32)) by {
        assert(forall|j: int| 0 <= j < 4 ==> p[4 + j] == be32(a.len() as u32)[j] && #[trigger] w[4
            + j] == be32(b.len() as u32)[j]);
    }
    lemma_be32_injective(a.len() as u32, b.len() as u32);
    assert(a.len() == b.len());
    assert(a =~= b) by {
        assert(forall|j: int| 0 <= j < a.len() ==> p[8 + j] == a[j] && #[trigger] w[8 + j] == b[j]);
    }
}

} // verus!
