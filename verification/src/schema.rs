//! The schema composition layer: the user registry, the per-user logs, the
//! known-key registry, and the cascading update protocol that keeps every
//! stored user record's child digests equal to the true root hashes of that
//! user's logs.

use vstd::prelude::*;
use crate::codec::{CodecError, StorageValue, be64, bytes_eq, is_prefix, subvec};
use crate::digest::{Digest, sha256_of, chain_root, zero_digest};
use crate::index::{
    ProofListIndex, ProofMapIndex, MapIndex, list_entries, list_len_spec, list_entry_at,
    lemma_list_cells_distinct,
};
use crate::keys::{
    gen_prefix, ns_prefix, users_prefix, user_key, ts_prefix, pay_prefix, known_keys_prefix,
    known_key, list_len_key, list_entry_key, len_tail, entry_tail, IDX_USERS, IDX_TIMESTAMPS,
    IDX_PAYMENTS, IDX_KNOWN_KEYS, lemma_ns_key_shape, lemma_ns_idx_disjoint,
    lemma_len_entry_disjoint, lemma_len_key_injective, lemma_entry_key_injective,
    lemma_prefix_of_key,
};
use crate::model::{
    UserInfo, UserInfoV, UserRecord, UserRecordV, Timestamp, TimestampV, PaymentInfo, PaymentInfoV,
    info_wf, rec_wf, rec_enc, rec_parse, ts_wf, ts_enc, pay_wf, pay_enc, decode_record,
    lemma_rec_print_parse, lemma_rec_parse_print,
};
use crate::store::{StoreView, Fork, distinct_keys, map_of};

verus! {

/// Quota granted to a freshly registered user.
pub const INITIAL_TIMESTAMPS: u64 = 10;

/// The registry key of the user with logical id `uid`: the registry prefix
/// plus the hash of the id.
pub open spec fn user_key_of(uid: Seq<u8>) -> Seq<u8> {
    user_key(sha256_of(uid))
}

/// The record registered for `uid`, where its slot holds a record carrying
/// `uid` itself.
pub open spec fn reg_rec(m: Map<Seq<u8>, Seq<u8>>, uid: Seq<u8>) -> Option<UserRecordV> {
    let k = user_key_of(uid);
    if m.contains_key(k) {
        match rec_parse(m[k]) {
            Some(r) => if r.info.id == uid {
                Some(r)
            } else {
                None
            },
            None => None,
        }
    } else {
        None
    }
}

/// Whether `uid` is a registered user.
pub open spec fn registered(m: Map<Seq<u8>, Seq<u8>>, uid: Seq<u8>) -> bool {
    reg_rec(m, uid) is Some
}

/// The digest-cascade invariant. Every value in the user registry's
/// namespace decodes to a record, sits at the slot its own id hashes to, and
/// carries exactly the current root hashes of that user's timestamp and
/// payment logs; and a log is non-empty only where its owner's slot exists.
pub open spec fn wf(m: Map<Seq<u8>, Seq<u8>>) -> bool {
    &&& (forall|k: Seq<u8>|
        #[trigger] m.contains_key(k) && is_prefix(users_prefix(), k) ==> {
            let r = rec_parse(m[k]);
            &&& r is Some
            &&& k == user_key_of(r->Some_0.info.id)
            &&& r->Some_0.ts_hash == chain_root(list_entries(m, ts_prefix(r->Some_0.info.id)))
            &&& r->Some_0.pay_hash == chain_root(list_entries(m, pay_prefix(r->Some_0.info.id)))
        })
    &&& (forall|uid: Seq<u8>|
        #[trigger] list_len_spec(m, ts_prefix(uid)) != 0 ==> m.contains_key(user_key_of(uid)))
    &&& (forall|uid: Seq<u8>|
        #[trigger] list_len_spec(m, pay_prefix(uid)) != 0 ==> m.contains_key(user_key_of(uid)))
}

/// The empty keyspace satisfies the cascade invariant.
pub proof fn lemma_empty_wf()
    ensures
        wf(Map::<Seq<u8>, Seq<u8>>::empty()),
{
}

/// The keyspace after registering or refreshing identity `u`: a fresh id
/// gets a record with the initial quota and empty-log digests; a registered
/// id keeps its quota and digests, refreshes its identity fields, and has
/// its public key upserted into the known-key registry.
pub open spec fn spec_add_user(m: Map<Seq<u8>, Seq<u8>>, u: UserInfoV) -> Map<Seq<u8>, Seq<u8>> {
    let k = user_key_of(u.id);
    if m.contains_key(k) {
        match rec_parse(m[k]) {
            Some(r) => if r.info.id == u.id {
                m.insert(known_key(u.pub_key), u.sec).insert(
                    k,
                    rec_enc(
                        UserRecordV {
                            info: u,
                            quota: r.quota,
                            ts_hash: r.ts_hash,
                            pay_hash: r.pay_hash,
                        },
                    ),
                )
            } else {
                m
            },
            None => m,
        }
    } else {
        m.insert(
            k,
            rec_enc(
                UserRecordV {
                    info: u,
                    quota: INITIAL_TIMESTAMPS,
                    ts_hash: zero_digest(),
                    pay_hash: zero_digest(),
                },
            ),
        )
    }
}

/// The keyspace after appending timestamp `t`: a no-op for an unregistered
/// id; otherwise the log gains the encoded message, the length cell is
/// bumped, and the user's record is rewritten with the log's new root hash,
/// its payment digest untouched.
pub open spec fn spec_add_timestamp(m: Map<Seq<u8>, Seq<u8>>, t: TimestampV) -> Map<
    Seq<u8>,
    Seq<u8>,
> {
    match reg_rec(m, t.user_id) {
        Some(r) => {
            let p = ts_prefix(t.user_id);
            let n = list_len_spec(m, p);
            if n < u64::MAX {
                let m1 = m.insert(list_entry_key(p, n), ts_enc(t)).insert(
                    list_len_key(p),
                    be64((n + 1) as u64),
                );
                let r2 = UserRecordV {
                    info: r.info,
                    quota: r.quota,
                    ts_hash: chain_root(list_entries(m, p).push(ts_enc(t))),
                    pay_hash: r.pay_hash,
                };
                m1.insert(user_key_of(t.user_id), rec_enc(r2))
            } else {
                m
            }
        },
        None => m,
    }
}

/// The keyspace after appending payment `pe`: symmetric to the timestamp
/// case, with the payment digest updated and the timestamp digest untouched.
pub open spec fn spec_add_payment(m: Map<Seq<u8>, Seq<u8>>, pe: PaymentInfoV) -> Map<
    Seq<u8>,
    Seq<u8>,
> {
    match reg_rec(m, pe.user_id) {
        Some(r) => {
            let p = pay_prefix(pe.user_id);
            let n = list_len_spec(m, p);
            if n < u64::MAX {
                let m1 = m.insert(list_entry_key(p, n), pay_enc(pe)).insert(
                    list_len_key(p),
                    be64((n + 1) as u64),
                );
                let r2 = UserRecordV {
                    info: r.info,
                    quota: r.quota,
                    ts_hash: r.ts_hash,
                    pay_hash: chain_root(list_entries(m, p).push(pay_enc(pe))),
                };
                m1.insert(user_key_of(pe.user_id), rec_enc(r2))
            } else {
                m
            }
        },
        None => m,
    }
}

/// Timestamping information schema over a store view.
#[derive(Debug)]
pub struct Schema<T> {
    view: T,
}

impl<T> Schema<T> {
    /// The wrapped view.
    pub closed spec fn view_spec(&self) -> T {
        self.view
    }

    /// Wraps a view.
    pub fn new(snapshot: T) -> (r: Schema<T>)
        ensures
            r.view_spec() == snapshot,
    {
        Schema { view: snapshot }
    }

    /// Hands the wrapped view back.
    pub fn into_view(self) -> (r: T)
        ensures
            r == self.view_spec(),
    {
        self.view
    }
}

/// Builds the registry key of `user_id` in executable code.
fn make_user_key(user_id: &Vec<u8>) -> (r: Vec<u8>)
    ensures
        r@ == user_key_of(user_id@),
{
    let empty: Vec<u8> = Vec::new();
    let mut k = gen_prefix(IDX_USERS, &empty);
    proof {
        assert(k@ =~= users_prefix());
    }
    let h = Digest::hash_bytes(user_id);
    crate::codec::extend_bytes(&mut k, h.bytes());
    proof {
        assert(k@ =~= user_key_of(user_id@));
    }
    k
}

impl<T: StoreView> Schema<T> {
    /// Handle on the user registry.
    pub fn users(&self) -> (r: ProofMapIndex)
        ensures
            r.prefix_spec() == users_prefix(),
    {
        let empty: Vec<u8> = Vec::new();
        let p = gen_prefix(IDX_USERS, &empty);
        proof {
            assert(p@ =~= users_prefix());
        }
        ProofMapIndex::new(p)
    }

    /// Handle on one user's timestamp log.
    pub fn timestamps(&self, user_id: &Vec<u8>) -> (r: ProofListIndex)
        requires
            user_id@.len() <= u32::MAX,
        ensures
            r.prefix_spec() == ts_prefix(user_id@),
    {
        ProofListIndex::new(gen_prefix(IDX_TIMESTAMPS, user_id))
    }

    /// Handle on one user's payment log.
    pub fn payments(&self, user_id: &Vec<u8>) -> (r: ProofListIndex)
        requires
            user_id@.len() <= u32::MAX,
        ensures
            r.prefix_spec() == pay_prefix(user_id@),
    {
        ProofListIndex::new(gen_prefix(IDX_PAYMENTS, user_id))
    }

    /// Handle on the known-key registry.
    pub fn known_keys(&self) -> (r: MapIndex)
        ensures
            r.prefix_spec() == known_keys_prefix(),
    {
        let empty: Vec<u8> = Vec::new();
        let p = gen_prefix(IDX_KNOWN_KEYS, &empty);
        proof {
            assert(p@ =~= known_keys_prefix());
        }
        MapIndex::new(p)
    }

    /// A borrow of the wrapped view, for reading through handles.
    pub fn view_ref(&self) -> (r: &T)
        ensures
            r == self.view_spec(),
    {
        &self.view
    }

    /// Reads and decodes the record stored at `user_id`'s registry slot.
    pub fn get_user(&self, user_id: &Vec<u8>) -> (r: Result<Option<UserRecord>, CodecError>)
        requires
            distinct_keys(self.view_spec().kv()),
        ensures
            ({
                let m = map_of(self.view_spec().kv());
                let k = user_key_of(user_id@);
                match r {
                    Ok(Some(x)) => m.contains_key(k) && rec_parse(m[k]) == Some(x.deep_view()),
                    Ok(None) => !m.contains_key(k),
                    Err(e) => e == CodecError::MalformedValue && m.contains_key(k) && rec_parse(
                        m[k],
                    ) is None,
                }
            }),
    {
        let k = make_user_key(user_id);
        match self.view.raw_get(&k) {
            Some(bytes) => match decode_record(bytes) {
                Ok(x) => Ok(Some(x)),
                Err(e) => Err(e),
            },
            None => Ok(None),
        }
    }
}


/// A log keeps its length and entries where a map update leaves all its
/// cells untouched.
proof fn lemma_list_same(m: Map<Seq<u8>, Seq<u8>>, m2: Map<Seq<u8>, Seq<u8>>, p: Seq<u8>)
    requires
        m2.contains_key(list_len_key(p)) == m.contains_key(list_len_key(p)),
        m.contains_key(list_len_key(p)) ==> m2[list_len_key(p)] == m[list_len_key(p)],
        forall|i: u64|
            m2.contains_key(#[trigger] list_entry_key(p, i)) == m.contains_key(list_entry_key(p, i))
                && (m.contains_key(list_entry_key(p, i)) ==> m2[list_entry_key(p, i)]
                == m[list_entry_key(p, i)]),
    ensures
        list_len_spec(m2, p) == list_len_spec(m, p),
        list_entries(m2, p) == list_entries(m, p),
{
    assert forall|i: int| 0 <= i < list_len_spec(m, p) implies list_entry_at(m2, p, i)
        == list_entry_at(m, p, i) by {
        assert(m2.contains_key(list_entry_key(p, i as u64)) == m.contains_key(
            list_entry_key(p, i as u64),
        ));
    }
    assert(list_entries(m2, p) =~= list_entries(m, p));
}

/// A key in the user registry's namespace never equals a key of another
/// collection index.
proof fn lemma_users_slot_disjoint(k: Seq<u8>, idx: u16, u: Seq<u8>, t: Seq<u8>)
    requires
        is_prefix(users_prefix(), k),
        idx != IDX_USERS,
    ensures
        k != ns_prefix(idx, u) + t,
{
    lemma_ns_key_shape(IDX_USERS, Seq::empty(), Seq::empty());
    assert(ns_prefix(IDX_USERS, Seq::empty()) + Seq::<u8>::empty() =~= users_prefix());
    assert(users_prefix().len() == 8);
    assert(users_prefix()[2] == (IDX_USERS >> 8) as u8);
    assert(users_prefix()[3] == IDX_USERS as u8);
    if k == ns_prefix(idx, u) + t {
        lemma_ns_key_shape(idx, u, t);
        assert(k.subrange(0, 8) == users_prefix());
        assert(k.subrange(0, 8)[2] == k[2] && k.subrange(0, 8)[3] == k[3]);
        assert((idx >> 8) as u8 == (IDX_USERS >> 8) as u8 && idx as u8 == IDX_USERS as u8);
        assert(((idx >> 8) as u8 == (IDX_USERS >> 8) as u8 && idx as u8 == IDX_USERS as u8)
            ==> idx == IDX_USERS) by (bit_vector);
    }
}

/// Every user-registry key is in the registry's namespace.
proof fn lemma_user_key_in_namespace(h: Seq<u8>)
    ensures
        is_prefix(users_prefix(), user_key(h)),
        user_key(h) == ns_prefix(IDX_USERS, Seq::empty()) + h,
{
    lemma_ns_key_shape(IDX_USERS, Seq::empty(), Seq::empty());
    assert(ns_prefix(IDX_USERS, Seq::empty()) + Seq::<u8>::empty() =~= users_prefix());
    assert(users_prefix().len() == 8);
    assert((users_prefix() + h).subrange(0, 8) =~= users_prefix());
}

/// No cell of the log at (`idx`, `id2`) lies in the write set of a log
/// append to (`aidx`, `uid`) plus a registry-slot rewrite, unless it is that
/// very log.
proof fn lemma_log_cells_clear(
    idx: u16,
    id2: Seq<u8>,
    aidx: u16,
    uid: Seq<u8>,
    n: u64,
    h: Seq<u8>,
)
    requires
        idx != IDX_USERS,
        aidx != IDX_USERS,
        idx == aidx ==> id2 != uid,
    ensures
        forall|i: u64| #[trigger] list_entry_key(ns_prefix(idx, id2), i) != list_entry_key(
            ns_prefix(aidx, uid),
            n,
        ),
        forall|i: u64| #[trigger] list_entry_key(ns_prefix(idx, id2), i) != list_len_key(
            ns_prefix(aidx, uid),
        ),
        forall|i: u64| #[trigger] list_entry_key(ns_prefix(idx, id2), i) != user_key(h),
        list_len_key(ns_prefix(idx, id2)) != list_entry_key(ns_prefix(aidx, uid), n),
        list_len_key(ns_prefix(idx, id2)) != list_len_key(ns_prefix(aidx, uid)),
        list_len_key(ns_prefix(idx, id2)) != user_key(h),
{
    lemma_user_key_in_namespace(h);
    assert forall|i: u64| #[trigger] list_entry_key(ns_prefix(idx, id2), i) != list_entry_key(
        ns_prefix(aidx, uid),
        n,
    ) by {
        if idx == aidx {
            if list_entry_key(ns_prefix(idx, id2), i) == list_entry_key(ns_prefix(aidx, uid), n) {
                lemma_entry_key_injective(idx, id2, i, uid, n);
            }
        } else {
            lemma_ns_idx_disjoint(idx, id2, entry_tail(i), aidx, uid, entry_tail(n));
        }
    }
    assert forall|i: u64| #[trigger] list_entry_key(ns_prefix(idx, id2), i) != list_len_key(
        ns_prefix(aidx, uid),
    ) by {
        if idx == aidx {
            lemma_len_entry_disjoint(idx, uid, id2, i);
        } else {
            lemma_ns_idx_disjoint(idx, id2, entry_tail(i), aidx, uid, len_tail());
        }
    }
    assert forall|i: u64| #[trigger] list_entry_key(ns_prefix(idx, id2), i) != user_key(h) by {
        lemma_ns_idx_disjoint(idx, id2, entry_tail(i), IDX_USERS, Seq::empty(), h);
    }
    if idx == aidx {
        lemma_len_entry_disjoint(idx, id2, uid, n);
        if list_len_key(ns_prefix(idx, id2)) == list_len_key(ns_prefix(aidx, uid)) {
            lemma_len_key_injective(idx, id2, uid);
        }
    } else {
        lemma_ns_idx_disjoint(idx, id2, len_tail(), aidx, uid, entry_tail(n));
        lemma_ns_idx_disjoint(idx, id2, len_tail(), aidx, uid, len_tail());
    }
    lemma_ns_idx_disjoint(idx, id2, len_tail(), IDX_USERS, Seq::empty(), h);
}

/// After a timestamp append, the appended-to log holds the old entries plus
/// the new message.
proof fn lemma_ts_entries_updated(m: Map<Seq<u8>, Seq<u8>>, t: TimestampV)
    requires
        registered(m, t.user_id),
        list_len_spec(m, ts_prefix(t.user_id)) < u64::MAX,
    ensures
        list_len_spec(spec_add_timestamp(m, t), ts_prefix(t.user_id)) == list_len_spec(
            m,
            ts_prefix(t.user_id),
        ) + 1,
        list_entries(spec_add_timestamp(m, t), ts_prefix(t.user_id)) == list_entries(
            m,
            ts_prefix(t.user_id),
        ).push(ts_enc(t)),
{
    let uid = t.user_id;
    let p = ts_prefix(uid);
    let n = list_len_spec(m, p);
    let k0 = user_key_of(uid);
    let m2 = spec_add_timestamp(m, t);
    lemma_user_key_in_namespace(sha256_of(uid));
    lemma_users_slot_disjoint(k0, IDX_TIMESTAMPS, uid, entry_tail(n));
    lemma_users_slot_disjoint(k0, IDX_TIMESTAMPS, uid, len_tail());
    lemma_list_cells_distinct(p, n, n);
    crate::codec::lemma_be64_round_trip((n + 1) as u64);
    assert(list_len_spec(m2, p) == n + 1);
    assert forall|i: int| 0 <= i < n + 1 implies list_entries(m2, p)[i] == list_entries(
        m,
        p,
    ).push(ts_enc(t))[i] by {
        lemma_list_cells_distinct(p, i as u64, n);
        lemma_users_slot_disjoint(k0, IDX_TIMESTAMPS, uid, entry_tail(i as u64));
        if i < n {
            assert(list_entry_at(m2, p, i) == list_entry_at(m, p, i));
        } else {
            assert(list_entry_at(m2, p, i) == ts_enc(t));
        }
    }
    assert(list_entries(m2, p) =~= list_entries(m, p).push(ts_enc(t)));
}

/// After a timestamp append, every registry slot still meets the record
/// clause of the cascade invariant.
#[verifier::rlimit(100)]
proof fn lemma_ts_slot_ok(m: Map<Seq<u8>, Seq<u8>>, t: TimestampV, k: Seq<u8>)
    requires
        wf(m),
        registered(m, t.user_id),
        list_len_spec(m, ts_prefix(t.user_id)) < u64::MAX,
        chain_root(list_entries(m, ts_prefix(t.user_id)).push(ts_enc(t))).len() == 32,
        spec_add_timestamp(m, t).contains_key(k),
        is_prefix(users_prefix(), k),
    ensures
        ({
            let m2 = spec_add_timestamp(m, t);
            let rr = rec_parse(m2[k]);
            &&& rr is Some
            &&& k == user_key_of(rr->Some_0.info.id)
            &&& rr->Some_0.ts_hash == chain_root(list_entries(m2, ts_prefix(rr->Some_0.info.id)))
            &&& rr->Some_0.pay_hash == chain_root(list_entries(m2, pay_prefix(rr->Some_0.info.id)))
        }),
{
    let uid = t.user_id;
    let r = reg_rec(m, uid)->Some_0;
    let p = ts_prefix(uid);
    let n = list_len_spec(m, p);
    let ek = list_entry_key(p, n);
    let lk = list_len_key(p);
    let k0 = user_key_of(uid);
    let root2 = chain_root(list_entries(m, p).push(ts_enc(t)));
    let r2 = UserRecordV { info: r.info, quota: r.quota, ts_hash: root2, pay_hash: r.pay_hash };
    let m2 = spec_add_timestamp(m, t);
    lemma_user_key_in_namespace(sha256_of(uid));
    assert(m.contains_key(k0) && is_prefix(users_prefix(), k0));
    lemma_rec_parse_print(m[k0]);
    lemma_ts_entries_updated(m, t);
    if k == k0 {
        assert(rec_wf(r2));
        lemma_rec_print_parse(r2);
        assert(rec_parse(m2[k0]) == Some(r2));
        assert(r2.info.id == uid);
        lemma_log_cells_clear(IDX_PAYMENTS, uid, IDX_TIMESTAMPS, uid, n, sha256_of(uid));
        lemma_list_same(m, m2, pay_prefix(uid));
    } else {
        lemma_users_slot_disjoint(k, IDX_TIMESTAMPS, uid, entry_tail(n));
        lemma_users_slot_disjoint(k, IDX_TIMESTAMPS, uid, len_tail());
        assert(m.contains_key(k) && m2[k] == m[k]);
        let rr = rec_parse(m[k])->Some_0;
        let id2 = rr.info.id;
        assert(k == user_key_of(id2));
        assert(id2 != uid);
        lemma_log_cells_clear(IDX_TIMESTAMPS, id2, IDX_TIMESTAMPS, uid, n, sha256_of(uid));
        lemma_list_same(m, m2, ts_prefix(id2));
        lemma_log_cells_clear(IDX_PAYMENTS, id2, IDX_TIMESTAMPS, uid, n, sha256_of(uid));
        lemma_list_same(m, m2, pay_prefix(id2));
    }
}

/// Appending to a registered user's timestamp log preserves the cascade
/// invariant. The width of the new root digest is the hash primitive's and
/// comes in as a hypothesis; the executable operation has it from the hash
/// call's contract.
#[verifier::rlimit(100)]
proof fn lemma_wf_add_timestamp(m: Map<Seq<u8>, Seq<u8>>, t: TimestampV)
    requires
        wf(m),
        ts_wf(t),
        registered(m, t.user_id) ==> chain_root(
            list_entries(m, ts_prefix(t.user_id)).push(ts_enc(t)),
        ).len() == 32,
    ensures
        wf(spec_add_timestamp(m, t)),
{
    if !registered(m, t.user_id) {
        return;
    }
    let uid = t.user_id;
    let p = ts_prefix(uid);
    let n = list_len_spec(m, p);
    if n == u64::MAX {
        return;
    }
    let m2 = spec_add_timestamp(m, t);
    assert forall|k: Seq<u8>| #[trigger] m2.contains_key(k) && is_prefix(users_prefix(), k)
        implies {
        let rr = rec_parse(m2[k]);
        &&& rr is Some
        &&& k == user_key_of(rr->Some_0.info.id)
        &&& rr->Some_0.ts_hash == chain_root(list_entries(m2, ts_prefix(rr->Some_0.info.id)))
        &&& rr->Some_0.pay_hash == chain_root(list_entries(m2, pay_prefix(rr->Some_0.info.id)))
    } by {
        lemma_ts_slot_ok(m, t, k);
    }
    assert forall|uid2: Seq<u8>| #[trigger] list_len_spec(m2, ts_prefix(uid2)) != 0 implies
        m2.contains_key(user_key_of(uid2)) by {
        lemma_user_key_in_namespace(sha256_of(uid2));
        lemma_user_key_in_namespace(sha256_of(uid));
        lemma_users_slot_disjoint(user_key_of(uid), IDX_TIMESTAMPS, uid, entry_tail(n));
        lemma_users_slot_disjoint(user_key_of(uid), IDX_TIMESTAMPS, uid, len_tail());
        if uid2 == uid {
            assert(m2.contains_key(user_key_of(uid2)));
        } else {
            lemma_log_cells_clear(IDX_TIMESTAMPS, uid2, IDX_TIMESTAMPS, uid, n, sha256_of(uid));
            lemma_list_same(m, m2, ts_prefix(uid2));
        }
    }
    assert forall|uid2: Seq<u8>| #[trigger] list_len_spec(m2, pay_prefix(uid2)) != 0 implies
        m2.contains_key(user_key_of(uid2)) by {
        lemma_user_key_in_namespace(sha256_of(uid2));
        lemma_user_key_in_namespace(sha256_of(uid));
        lemma_log_cells_clear(IDX_PAYMENTS, uid2, IDX_TIMESTAMPS, uid, n, sha256_of(uid));
        lemma_users_slot_disjoint(user_key_of(uid), IDX_TIMESTAMPS, uid, entry_tail(n));
        lemma_users_slot_disjoint(user_key_of(uid), IDX_TIMESTAMPS, uid, len_tail());
        lemma_list_same(m, m2, pay_prefix(uid2));
    }
}

/// After a payment append, the appended-to log holds the old entries plus
/// the new message.
proof fn lemma_pay_entries_updated(m: Map<Seq<u8>, Seq<u8>>, t: PaymentInfoV)
    requires
        registered(m, t.user_id),
        list_len_spec(m, pay_prefix(t.user_id)) < u64::MAX,
    ensures
        list_len_spec(spec_add_payment(m, t), pay_prefix(t.user_id)) == list_len_spec(
            m,
            pay_prefix(t.user_id),
        ) + 1,
        list_entries(spec_add_payment(m, t), pay_prefix(t.user_id)) == list_entries(
            m,
            pay_prefix(t.user_id),
        ).push(pay_enc(t)),
{
    let uid = t.user_id;
    let p = pay_prefix(uid);
    let n = list_len_spec(m, p);
    let k0 = user_key_of(uid);
    let m2 = spec_add_payment(m, t);
    lemma_user_key_in_namespace(sha256_of(uid));
    lemma_users_slot_disjoint(k0, IDX_PAYMENTS, uid, entry_tail(n));
    lemma_users_slot_disjoint(k0, IDX_PAYMENTS, uid, len_tail());
    lemma_list_cells_distinct(p, n, n);
    crate::codec::lemma_be64_round_trip((n + 1) as u64);
    assert(list_len_spec(m2, p) == n + 1);
    assert forall|i: int| 0 <= i < n + 1 implies list_entries(m2, p)[i] == list_entries(
        m,
        p,
    ).push(pay_enc(t))[i] by {
        lemma_list_cells_distinct(p, i as u64, n);
        lemma_users_slot_disjoint(k0, IDX_PAYMENTS, uid, entry_tail(i as u64));
        if i < n {
            assert(list_entry_at(m2, p, i) == list_entry_at(m, p, i));
        } else {
            assert(list_entry_at(m2, p, i) == pay_enc(t));
        }
    }
    assert(list_entries(m2, p) =~= list_entries(m, p).push(pay_enc(t)));
}

/// After a payment append, every registry slot still meets the record
/// clause of the cascade invariant.
#[verifier::rlimit(100)]
proof fn lemma_pay_slot_ok(m: Map<Seq<u8>, Seq<u8>>, t: PaymentInfoV, k: Seq<u8>)
    requires
        wf(m),
        registered(m, t.user_id),
        list_len_spec(m, pay_prefix(t.user_id)) < u64::MAX,
        chain_root(list_entries(m, pay_prefix(t.user_id)).push(pay_enc(t))).len() == 32,
        spec_add_payment(m, t).contains_key(k),
        is_prefix(users_prefix(), k),
    ensures
        ({
            let m2 = spec_add_payment(m, t);
            let rr = rec_parse(m2[k]);
            &&& rr is Some
            &&& k == user_key_of(rr->Some_0.info.id)
            &&& rr->Some_0.pay_hash == chain_root(list_entries(m2, pay_prefix(rr->Some_0.info.id)))
            &&& rr->Some_0.ts_hash == chain_root(list_entries(m2, ts_prefix(rr->Some_0.info.id)))
        }),
{
    let uid = t.user_id;
    let r = reg_rec(m, uid)->Some_0;
    let p = pay_prefix(uid);
    let n = list_len_spec(m, p);
    let ek = list_entry_key(p, n);
    let lk = list_len_key(p);
    let k0 = user_key_of(uid);
    let root2 = chain_root(list_entries(m, p).push(pay_enc(t)));
    let r2 = UserRecordV { info: r.info, quota: r.quota, pay_hash: root2, ts_hash: r.ts_hash };
    let m2 = spec_add_payment(m, t);
    lemma_user_key_in_namespace(sha256_of(uid));
    assert(m.contains_key(k0) && is_prefix(users_prefix(), k0));
    lemma_rec_parse_print(m[k0]);
    lemma_pay_entries_updated(m, t);
    if k == k0 {
        assert(rec_wf(r2));
        lemma_rec_print_parse(r2);
        assert(rec_parse(m2[k0]) == Some(r2));
        assert(r2.info.id == uid);
        lemma_log_cells_clear(IDX_TIMESTAMPS, uid, IDX_PAYMENTS, uid, n, sha256_of(uid));
        lemma_list_same(m, m2, ts_prefix(uid));
    } else {
        lemma_users_slot_disjoint(k, IDX_PAYMENTS, uid, entry_tail(n));
        lemma_users_slot_disjoint(k, IDX_PAYMENTS, uid, len_tail());
        assert(m.contains_key(k) && m2[k] == m[k]);
        let rr = rec_parse(m[k])->Some_0;
        let id2 = rr.info.id;
        assert(k == user_key_of(id2));
        assert(id2 != uid);
        lemma_log_cells_clear(IDX_PAYMENTS, id2, IDX_PAYMENTS, uid, n, sha256_of(uid));
        lemma_list_same(m, m2, pay_prefix(id2));
        lemma_log_cells_clear(IDX_TIMESTAMPS, id2, IDX_PAYMENTS, uid, n, sha256_of(uid));
        lemma_list_same(m, m2, ts_prefix(id2));
    }
}

/// Appending to a registered user's payment log preserves the cascade
/// invariant. The width of the new root digest is the hash primitive's and
/// comes in as a hypothesis; the executable operation has it from the hash
/// call's contract.
#[verifier::rlimit(100)]
proof fn lemma_wf_add_payment(m: Map<Seq<u8>, Seq<u8>>, t: PaymentInfoV)
    requires
        wf(m),
        pay_wf(t),
        registered(m, t.user_id) ==> chain_root(
            list_entries(m, pay_prefix(t.user_id)).push(pay_enc(t)),
        ).len() == 32,
    ensures
        wf(spec_add_payment(m, t)),
{
    if !registered(m, t.user_id) {
        return;
    }
    let uid = t.user_id;
    let p = pay_prefix(uid);
    let n = list_len_spec(m, p);
    if n == u64::MAX {
        return;
    }
    let m2 = spec_add_payment(m, t);
    assert forall|k: Seq<u8>| #[trigger] m2.contains_key(k) && is_prefix(users_prefix(), k)
        implies {
        let rr = rec_parse(m2[k]);
        &&& rr is Some
        &&& k == user_key_of(rr->Some_0.info.id)
        &&& rr->Some_0.pay_hash == chain_root(list_entries(m2, pay_prefix(rr->Some_0.info.id)))
        &&& rr->Some_0.ts_hash == chain_root(list_entries(m2, ts_prefix(rr->Some_0.info.id)))
    } by {
        lemma_pay_slot_ok(m, t, k);
    }
    assert forall|uid2: Seq<u8>| #[trigger] list_len_spec(m2, pay_prefix(uid2)) != 0 implies
        m2.contains_key(user_key_of(uid2)) by {
        lemma_user_key_in_namespace(sha256_of(uid2));
        lemma_user_key_in_namespace(sha256_of(uid));
        lemma_users_slot_disjoint(user_key_of(uid), IDX_PAYMENTS, uid, entry_tail(n));
        lemma_users_slot_disjoint(user_key_of(uid), IDX_PAYMENTS, uid, len_tail());
        if uid2 == uid {
            assert(m2.contains_key(user_key_of(uid2)));
        } else {
            lemma_log_cells_clear(IDX_PAYMENTS, uid2, IDX_PAYMENTS, uid, n, sha256_of(uid));
            lemma_list_same(m, m2, pay_prefix(uid2));
        }
    }
    assert forall|uid2: Seq<u8>| #[trigger] list_len_spec(m2, ts_prefix(uid2)) != 0 implies
        m2.contains_key(user_key_of(uid2)) by {
        lemma_user_key_in_namespace(sha256_of(uid2));
        lemma_user_key_in_namespace(sha256_of(uid));
        lemma_log_cells_clear(IDX_TIMESTAMPS, uid2, IDX_PAYMENTS, uid, n, sha256_of(uid));
        lemma_users_slot_disjoint(user_key_of(uid), IDX_PAYMENTS, uid, entry_tail(n));
        lemma_users_slot_disjoint(user_key_of(uid), IDX_PAYMENTS, uid, len_tail());
        lemma_list_same(m, m2, ts_prefix(uid2));
    }
}

/// No log cell equals a user-registry key.
proof fn lemma_log_vs_user_key(idx: u16, id2: Seq<u8>, h: Seq<u8>)
    requires
        idx != IDX_USERS,
    ensures
        forall|i: u64| #[trigger] list_entry_key(ns_prefix(idx, id2), i) != user_key(h),
        list_len_key(ns_prefix(idx, id2)) != user_key(h),
{
    lemma_user_key_in_namespace(h);
    assert forall|i: u64| #[trigger] list_entry_key(ns_prefix(idx, id2), i) != user_key(h) by {
        lemma_ns_idx_disjoint(idx, id2, entry_tail(i), IDX_USERS, Seq::empty(), h);
    }
    lemma_ns_idx_disjoint(idx, id2, len_tail(), IDX_USERS, Seq::empty(), h);
}

/// No log cell equals a known-key registry key.
proof fn lemma_log_vs_known_key(idx: u16, id2: Seq<u8>, pk: Seq<u8>)
    requires
        idx != IDX_KNOWN_KEYS,
    ensures
        forall|i: u64| #[trigger] list_entry_key(ns_prefix(idx, id2), i) != known_key(pk),
        list_len_key(ns_prefix(idx, id2)) != known_key(pk),
{
    assert(known_key(pk) == ns_prefix(IDX_KNOWN_KEYS, Seq::empty()) + pk);
    assert forall|i: u64| #[trigger] list_entry_key(ns_prefix(idx, id2), i) != known_key(pk) by {
        lemma_ns_idx_disjoint(idx, id2, entry_tail(i), IDX_KNOWN_KEYS, Seq::empty(), pk);
    }
    lemma_ns_idx_disjoint(idx, id2, len_tail(), IDX_KNOWN_KEYS, Seq::empty(), pk);
}

/// Registration writes no log cell: every log keeps its contents.
proof fn lemma_add_user_logs_same(m: Map<Seq<u8>, Seq<u8>>, u: UserInfoV, idx: u16, id2: Seq<u8>)
    requires
        idx == IDX_TIMESTAMPS || idx == IDX_PAYMENTS,
    ensures
        list_len_spec(spec_add_user(m, u), ns_prefix(idx, id2)) == list_len_spec(
            m,
            ns_prefix(idx, id2),
        ),
        list_entries(spec_add_user(m, u), ns_prefix(idx, id2)) == list_entries(
            m,
            ns_prefix(idx, id2),
        ),
{
    let m2 = spec_add_user(m, u);
    lemma_log_vs_user_key(idx, id2, sha256_of(u.id));
    lemma_log_vs_known_key(idx, id2, u.pub_key);
    lemma_list_same(m, m2, ns_prefix(idx, id2));
}

/// Every registry slot meets the record clause after a registration.
#[verifier::rlimit(100)]
proof fn lemma_user_slot_ok(m: Map<Seq<u8>, Seq<u8>>, u: UserInfoV, k: Seq<u8>)
    requires
        wf(m),
        info_wf(u),
        spec_add_user(m, u).contains_key(k),
        is_prefix(users_prefix(), k),
    ensures
        ({
            let m2 = spec_add_user(m, u);
            let rr = rec_parse(m2[k]);
            &&& rr is Some
            &&& k == user_key_of(rr->Some_0.info.id)
            &&& rr->Some_0.ts_hash == chain_root(list_entries(m2, ts_prefix(rr->Some_0.info.id)))
            &&& rr->Some_0.pay_hash == chain_root(list_entries(m2, pay_prefix(rr->Some_0.info.id)))
        }),
{
    let m2 = spec_add_user(m, u);
    let k0 = user_key_of(u.id);
    let kk = known_key(u.pub_key);
    lemma_user_key_in_namespace(sha256_of(u.id));
    lemma_users_slot_disjoint(k, IDX_KNOWN_KEYS, Seq::empty(), u.pub_key);
    lemma_add_user_logs_same(m, u, IDX_TIMESTAMPS, u.id);
    lemma_add_user_logs_same(m, u, IDX_PAYMENTS, u.id);
    if k == k0 {
        if m.contains_key(k0) {
            // Refresh path: quota and digests preserved, identity refreshed.
            let r = rec_parse(m[k0])->Some_0;
            lemma_rec_parse_print(m[k0]);
            let r2 = UserRecordV { info: u, quota: r.quota, ts_hash: r.ts_hash, pay_hash: r.pay_hash };
            if rec_parse(m[k0]) is Some && r.info.id == u.id {
                assert(m2[k0] == rec_enc(r2));
                assert(rec_wf(r2));
                lemma_rec_print_parse(r2);
                assert(rec_parse(m2[k0]) == Some(r2));
            } else {
                assert(m2 == m);
            }
        } else {
            // Fresh path: a record with the initial quota and empty-log digests.
            let r2 = UserRecordV {
                info: u,
                quota: INITIAL_TIMESTAMPS,
                ts_hash: zero_digest(),
                pay_hash: zero_digest(),
            };
            assert(m2[k0] == rec_enc(r2));
            assert(rec_wf(r2));
            lemma_rec_print_parse(r2);
            assert(rec_parse(m2[k0]) == Some(r2));
            // Both logs are empty: a non-empty log would imply a registered slot.
            assert(list_len_spec(m, ts_prefix(u.id)) == 0);
            assert(list_len_spec(m, pay_prefix(u.id)) == 0);
            assert(list_entries(m2, ts_prefix(u.id)) =~= Seq::<Seq<u8>>::empty());
            assert(list_entries(m2, pay_prefix(u.id)) =~= Seq::<Seq<u8>>::empty());
        }
    } else {
        assert(m.contains_key(k) && m2[k] == m[k]);
        let rr = rec_parse(m[k])->Some_0;
        let id2 = rr.info.id;
        assert(k == user_key_of(id2));
        lemma_add_user_logs_same(m, u, IDX_TIMESTAMPS, id2);
        lemma_add_user_logs_same(m, u, IDX_PAYMENTS, id2);
    }
}

/// Registering or refreshing a user preserves the cascade invariant.
#[verifier::rlimit(100)]
proof fn lemma_wf_add_user(m: Map<Seq<u8>, Seq<u8>>, u: UserInfoV)
    requires
        wf(m),
        info_wf(u),
    ensures
        wf(spec_add_user(m, u)),
{
    let m2 = spec_add_user(m, u);
    assert forall|k: Seq<u8>| #[trigger] m2.contains_key(k) && is_prefix(users_prefix(), k)
        implies {
        let rr = rec_parse(m2[k]);
        &&& rr is Some
        &&& k == user_key_of(rr->Some_0.info.id)
        &&& rr->Some_0.ts_hash == chain_root(list_entries(m2, ts_prefix(rr->Some_0.info.id)))
        &&& rr->Some_0.pay_hash == chain_root(list_entries(m2, pay_prefix(rr->Some_0.info.id)))
    } by {
        lemma_user_slot_ok(m, u, k);
    }
    assert forall|uid2: Seq<u8>| #[trigger] list_len_spec(m2, ts_prefix(uid2)) != 0 implies
        m2.contains_key(user_key_of(uid2)) by {
        lemma_user_key_in_namespace(sha256_of(uid2));
        lemma_user_key_in_namespace(sha256_of(u.id));
        lemma_users_slot_disjoint(user_key_of(uid2), IDX_KNOWN_KEYS, Seq::empty(), u.pub_key);
        lemma_add_user_logs_same(m, u, IDX_TIMESTAMPS, uid2);
    }
    assert forall|uid2: Seq<u8>| #[trigger] list_len_spec(m2, pay_prefix(uid2)) != 0 implies
        m2.contains_key(user_key_of(uid2)) by {
        lemma_user_key_in_namespace(sha256_of(uid2));
        lemma_user_key_in_namespace(sha256_of(u.id));
        lemma_users_slot_disjoint(user_key_of(uid2), IDX_KNOWN_KEYS, Seq::empty(), u.pub_key);
        lemma_add_user_logs_same(m, u, IDX_PAYMENTS, uid2);
    }
}

/// Unknown-user drop: appending a timestamp or a payment for an id with no
/// registration leaves the keyspace — and with it the user registry's root
/// hash — entirely unchanged.
pub proof fn lemma_unknown_user_drop(m: Map<Seq<u8>, Seq<u8>>, t: TimestampV, pe: PaymentInfoV)
    requires
        !registered(m, t.user_id),
        !registered(m, pe.user_id),
    ensures
        spec_add_timestamp(m, t) == m,
        spec_add_payment(m, pe) == m,
{
}

/// Idempotent re-registration: registering the same identity twice with no
/// appends in between leaves the registered record — its quota and both its
/// digests — exactly as after the first registration; the second call
/// touches at most the known-key cell.
#[verifier::rlimit(100)]
pub proof fn lemma_idempotent_reregistration(m: Map<Seq<u8>, Seq<u8>>, u: UserInfoV)
    requires
        info_wf(u),
    ensures
        ({
            let m1 = spec_add_user(m, u);
            let m2 = spec_add_user(m1, u);
            &&& reg_rec(m2, u.id) == reg_rec(m1, u.id)
            &&& (registered(m1, u.id) ==> m2 == m1.insert(known_key(u.pub_key), u.sec))
            &&& (!registered(m1, u.id) ==> m2 == m1)
        }),
{
    let k0 = user_key_of(u.id);
    let kk = known_key(u.pub_key);
    let m1 = spec_add_user(m, u);
    let m2 = spec_add_user(m1, u);
    lemma_user_key_in_namespace(sha256_of(u.id));
    lemma_users_slot_disjoint(k0, IDX_KNOWN_KEYS, Seq::empty(), u.pub_key);
    if m.contains_key(k0) {
        if rec_parse(m[k0]) is Some && rec_parse(m[k0])->Some_0.info.id == u.id {
            let r = rec_parse(m[k0])->Some_0;
            lemma_rec_parse_print(m[k0]);
            let r2 = UserRecordV { info: u, quota: r.quota, ts_hash: r.ts_hash, pay_hash: r.pay_hash };
            lemma_rec_print_parse(r2);
            assert(m1[k0] == rec_enc(r2));
            assert(rec_parse(m1[k0]) == Some(r2));
            let r3 = UserRecordV { info: u, quota: r2.quota, ts_hash: r2.ts_hash, pay_hash: r2.pay_hash };
            assert(r3 =~= r2);
            assert(m2 == m1.insert(kk, u.sec).insert(k0, rec_enc(r2)));
            assert(m2 =~= m1.insert(kk, u.sec));
        } else {
            assert(m1 == m && m2 == m);
        }
    } else {
        let r2 = UserRecordV {
            info: u,
            quota: INITIAL_TIMESTAMPS,
            ts_hash: zero_digest(),
            pay_hash: zero_digest(),
        };
        lemma_rec_print_parse(r2);
        assert(m1 == m.insert(k0, rec_enc(r2)));
        assert(rec_parse(m1[k0]) == Some(r2));
        let r3 = UserRecordV { info: u, quota: r2.quota, ts_hash: r2.ts_hash, pay_hash: r2.pay_hash };
        assert(r3 =~= r2);
        assert(m2 == m1.insert(kk, u.sec).insert(k0, rec_enc(r2)));
        assert(m2 =~= m1.insert(kk, u.sec));
    }
}

/// Namespace isolation: appending a timestamp for one user never creates,
/// removes or alters any key visible under another user's log prefixes or
/// under the known-key registry's prefix.
#[verifier::rlimit(100)]
pub proof fn lemma_namespace_isolation(
    m: Map<Seq<u8>, Seq<u8>>,
    t: TimestampV,
    other: Seq<u8>,
    k: Seq<u8>,
)
    requires
        ts_wf(t),
        other != t.user_id,
        other.len() <= u32::MAX,
        is_prefix(ts_prefix(other), k) || is_prefix(pay_prefix(other), k) || is_prefix(
            known_keys_prefix(),
            k,
        ),
    ensures
        spec_add_timestamp(m, t).contains_key(k) == m.contains_key(k),
        m.contains_key(k) ==> spec_add_timestamp(m, t)[k] == m[k],
{
    if !registered(m, t.user_id) {
        return;
    }
    let uid = t.user_id;
    let p = ts_prefix(uid);
    let n = list_len_spec(m, p);
    if n == u64::MAX {
        return;
    }
    let ek = list_entry_key(p, n);
    let lk = list_len_key(p);
    let k0 = user_key_of(uid);
    assert(ek == ns_prefix(IDX_TIMESTAMPS, uid) + entry_tail(n));
    assert(lk == ns_prefix(IDX_TIMESTAMPS, uid) + len_tail());
    assert(k0 == ns_prefix(IDX_USERS, Seq::empty()) + sha256_of(uid)) by {
        lemma_user_key_in_namespace(sha256_of(uid));
    }
    if is_prefix(ts_prefix(other), k) {
        if k == ek {
            lemma_prefix_of_key(IDX_TIMESTAMPS, other, IDX_TIMESTAMPS, uid, entry_tail(n));
        }
        if k == lk {
            lemma_prefix_of_key(IDX_TIMESTAMPS, other, IDX_TIMESTAMPS, uid, len_tail());
        }
        if k == k0 {
            lemma_prefix_of_key(IDX_TIMESTAMPS, other, IDX_USERS, Seq::empty(), sha256_of(uid));
        }
    } else if is_prefix(pay_prefix(other), k) {
        if k == ek {
            lemma_prefix_of_key(IDX_PAYMENTS, other, IDX_TIMESTAMPS, uid, entry_tail(n));
        }
        if k == lk {
            lemma_prefix_of_key(IDX_PAYMENTS, other, IDX_TIMESTAMPS, uid, len_tail());
        }
        if k == k0 {
            lemma_prefix_of_key(IDX_PAYMENTS, other, IDX_USERS, Seq::empty(), sha256_of(uid));
        }
    } else {
        if k == ek {
            lemma_prefix_of_key(IDX_KNOWN_KEYS, Seq::empty(), IDX_TIMESTAMPS, uid, entry_tail(n));
        }
        if k == lk {
            lemma_prefix_of_key(IDX_KNOWN_KEYS, Seq::empty(), IDX_TIMESTAMPS, uid, len_tail());
        }
        if k == k0 {
            lemma_prefix_of_key(IDX_KNOWN_KEYS, Seq::empty(), IDX_USERS, Seq::empty(), sha256_of(uid));
        }
    }
    assert(k != ek && k != lk && k != k0);
}

/// Shape of the transition on the refresh path.
proof fn lemma_add_user_refresh_shape(m: Map<Seq<u8>, Seq<u8>>, u: UserInfoV, r: UserRecordV)
    requires
        m.contains_key(user_key_of(u.id)),
        rec_parse(m[user_key_of(u.id)]) == Some(r),
        r.info.id == u.id,
    ensures
        spec_add_user(m, u) == m.insert(known_key(u.pub_key), u.sec).insert(
            user_key_of(u.id),
            rec_enc(UserRecordV { info: u, quota: r.quota, ts_hash: r.ts_hash, pay_hash: r.pay_hash }),
        ),
{
}

/// Shape of the transition on the fresh path.
proof fn lemma_add_user_fresh_shape(m: Map<Seq<u8>, Seq<u8>>, u: UserInfoV)
    requires
        !m.contains_key(user_key_of(u.id)),
    ensures
        spec_add_user(m, u) == m.insert(
            user_key_of(u.id),
            rec_enc(
                UserRecordV {
                    info: u,
                    quota: INITIAL_TIMESTAMPS,
                    ts_hash: zero_digest(),
                    pay_hash: zero_digest(),
                },
            ),
        ),
{
}

/// Shape of the transition on the no-op paths.
proof fn lemma_add_user_noop_shape(m: Map<Seq<u8>, Seq<u8>>, u: UserInfoV)
    requires
        m.contains_key(user_key_of(u.id)),
        rec_parse(m[user_key_of(u.id)]) is Some ==> rec_parse(
            m[user_key_of(u.id)],
        )->Some_0.info.id != u.id,
    ensures
        spec_add_user(m, u) == m,
{
}

/// Writes a fresh record with the initial quota and empty-log digests.
fn put_fresh_record(view: &mut Fork, k: Vec<u8>, user: UserInfo)
    requires
        distinct_keys(old(view).kv()),
        info_wf(user.deep_view()),
    ensures
        distinct_keys(final(view).kv()),
        map_of(final(view).kv()) == map_of(old(view).kv()).insert(
            k@,
            rec_enc(
                UserRecordV {
                    info: user.deep_view(),
                    quota: INITIAL_TIMESTAMPS,
                    ts_hash: zero_digest(),
                    pay_hash: zero_digest(),
                },
            ),
        ),
{
    let ghost uv = user.deep_view();
    let entry = UserRecord {
        info: user,
        available_timestamps: INITIAL_TIMESTAMPS,
        timestamps_hash: Digest::zero(),
        payments_hash: Digest::zero(),
    };
    proof {
        assert(entry.deep_view() =~= (UserRecordV {
            info: uv,
            quota: INITIAL_TIMESTAMPS,
            ts_hash: zero_digest(),
            pay_hash: zero_digest(),
        }));
    }
    let rec_bytes = entry.serialize();
    view.raw_put(k, rec_bytes);
}

/// Upserts the public key and rewrites the record with refreshed identity
/// fields, the old quota and the old digests.
fn put_refreshed_record(view: &mut Fork, k: Vec<u8>, user: UserInfo, rec: UserRecord)
    requires
        distinct_keys(old(view).kv()),
        info_wf(user.deep_view()),
        rec_wf(rec.deep_view()),
    ensures
        distinct_keys(final(view).kv()),
        map_of(final(view).kv()) == map_of(old(view).kv()).insert(
            known_key(user.deep_view().pub_key),
            user.deep_view().sec,
        ).insert(
            k@,
            rec_enc(
                UserRecordV {
                    info: user.deep_view(),
                    quota: rec.deep_view().quota,
                    ts_hash: rec.deep_view().ts_hash,
                    pay_hash: rec.deep_view().pay_hash,
                },
            ),
        ),
{
    let ghost uv = user.deep_view();
    let empty: Vec<u8> = Vec::new();
    let kk = MapIndex::new(gen_prefix(IDX_KNOWN_KEYS, &empty));
    proof {
        assert(kk.prefix_spec() =~= known_keys_prefix());
    }
    let sec = subvec(&user.encrypted_secret_key, 0, user.encrypted_secret_key.len());
    proof {
        assert(sec@ =~= user.encrypted_secret_key@);
    }
    kk.put(view, &user.pub_key, sec);
    let entry = UserRecord {
        info: user,
        available_timestamps: rec.available_timestamps,
        timestamps_hash: rec.timestamps_hash,
        payments_hash: rec.payments_hash,
    };
    proof {
        assert(entry.deep_view() =~= (UserRecordV {
            info: uv,
            quota: rec.deep_view().quota,
            ts_hash: rec.deep_view().ts_hash,
            pay_hash: rec.deep_view().pay_hash,
        }));
    }
    let rec_bytes = entry.serialize();
    view.raw_put(k, rec_bytes);
}

impl Schema<Fork> {
    /// Handle on the user registry, for writing through a fork.
    pub fn users_mut(&mut self) -> (r: ProofMapIndex)
        ensures
            r.prefix_spec() == users_prefix(),
            *final(self) == *old(self),
    {
        let empty: Vec<u8> = Vec::new();
        let p = gen_prefix(IDX_USERS, &empty);
        proof {
            assert(p@ =~= users_prefix());
        }
        ProofMapIndex::new(p)
    }

    /// Handle on one user's timestamp log, for writing through a fork.
    pub fn timestamps_mut(&mut self, user_id: &Vec<u8>) -> (r: ProofListIndex)
        requires
            user_id@.len() <= u32::MAX,
        ensures
            r.prefix_spec() == ts_prefix(user_id@),
            *final(self) == *old(self),
    {
        ProofListIndex::new(gen_prefix(IDX_TIMESTAMPS, user_id))
    }

    /// Handle on one user's payment log, for writing through a fork.
    pub fn payments_mut(&mut self, user_id: &Vec<u8>) -> (r: ProofListIndex)
        requires
            user_id@.len() <= u32::MAX,
        ensures
            r.prefix_spec() == pay_prefix(user_id@),
            *final(self) == *old(self),
    {
        ProofListIndex::new(gen_prefix(IDX_PAYMENTS, user_id))
    }

    /// Handle on the known-key registry, for writing through a fork.
    pub fn known_keys_mut(&mut self) -> (r: MapIndex)
        ensures
            r.prefix_spec() == known_keys_prefix(),
            *final(self) == *old(self),
    {
        let empty: Vec<u8> = Vec::new();
        let p = gen_prefix(IDX_KNOWN_KEYS, &empty);
        proof {
            assert(p@ =~= known_keys_prefix());
        }
        MapIndex::new(p)
    }

    /// Registers `user`, or refreshes a registered user's identity while
    /// preserving their quota and both log digests; a pre-existing user also
    /// has their public key upserted into the known-key registry.
    pub fn add_user(&mut self, user: UserInfo)
        requires
            distinct_keys(old(self).view_spec().kv()),
            info_wf(user.deep_view()),
        ensures
            distinct_keys(final(self).view_spec().kv()),
            map_of(final(self).view_spec().kv()) == spec_add_user(
                map_of(old(self).view_spec().kv()),
                user.deep_view(),
            ),
            wf(map_of(old(self).view_spec().kv())) ==> wf(map_of(final(self).view_spec().kv())),
    {
        let ghost m = map_of(self.view.kv());
        let ghost uv = user.deep_view();
        let k = make_user_key(&user.id);
        let looked: Option<Result<UserRecord, CodecError>> = match self.view.raw_get(&k) {
            Some(bytes) => Some(decode_record(bytes)),
            None => None,
        };
        match looked {
            Some(Err(_)) => {
                // A malformed slot is left untouched.
                proof {
                    lemma_add_user_noop_shape(m, uv);
                }
            },
            Some(Ok(rec)) => {
                if bytes_eq(&rec.info.id, &user.id) {
                    proof {
                        lemma_rec_parse_print(m[k@]);
                        lemma_add_user_refresh_shape(m, uv, rec.deep_view());
                    }
                    put_refreshed_record(&mut self.view, k, user, rec);
                } else {
                    proof {
                        lemma_add_user_noop_shape(m, uv);
                    }
                }
            },
            None => {
                proof {
                    lemma_add_user_fresh_shape(m, uv);
                }
                put_fresh_record(&mut self.view, k, user);
            },
        }
        proof {
            if wf(m) {
                lemma_wf_add_user(m, uv);
            }
        }
    }

    /// Appends `timestamp` to its user's log, then rewrites the user's
    /// record so its timestamp digest is the log's new root hash; the
    /// payment digest is untouched. Silently dropped for an unknown user.
    pub fn add_timestamp(&mut self, timestamp: Timestamp)
        requires
            distinct_keys(old(self).view_spec().kv()),
            ts_wf(timestamp.deep_view()),
        ensures
            distinct_keys(final(self).view_spec().kv()),
            map_of(final(self).view_spec().kv()) == spec_add_timestamp(
                map_of(old(self).view_spec().kv()),
                timestamp.deep_view(),
            ),
            wf(map_of(old(self).view_spec().kv())) ==> wf(map_of(final(self).view_spec().kv())),
            !registered(map_of(old(self).view_spec().kv()), timestamp.deep_view().user_id)
                ==> final(self).view_spec().kv() == old(self).view_spec().kv(),
    {
        let ghost m = map_of(self.view.kv());
        let ghost tv = timestamp.deep_view();
        let k = make_user_key(&timestamp.user_id);
        let found: Option<UserRecord> = match self.view.raw_get(&k) {
            Some(bytes) => match decode_record(bytes) {
                Ok(x) => Some(x),
                Err(_) => None,
            },
            None => None,
        };
        let rec = match found {
            Some(rec) => rec,
            None => {
                return;
            },
        };
        if !bytes_eq(&rec.info.id, &timestamp.user_id) {
            return;
        }
        proof {
            assert(reg_rec(m, tv.user_id) == Some(rec.deep_view()));
        }
        let ts_list = ProofListIndex::new(gen_prefix(IDX_TIMESTAMPS, &timestamp.user_id));
        let n = ts_list.len(&self.view);
        if n == u64::MAX {
            return;
        }
        let entry_bytes = timestamp.serialize();
        ts_list.push(&mut self.view, entry_bytes);
        let root = ts_list.root_hash(&self.view);
        proof {
            assert(root@ == chain_root(list_entries(m, ts_prefix(tv.user_id)).push(ts_enc(tv))));
            lemma_rec_parse_print(m[k@]);
        }
        let entry = UserRecord {
            info: rec.info,
            available_timestamps: rec.available_timestamps,
            timestamps_hash: root,
            payments_hash: rec.payments_hash,
        };
        let rec_bytes = entry.serialize();
        self.view.raw_put(k, rec_bytes);
        proof {
            let m2 = map_of(self.view.kv());
            assert(m2 =~= spec_add_timestamp(m, tv));
            if wf(m) {
                lemma_wf_add_timestamp(m, tv);
            }
        }
    }

    /// Appends `payment` to its user's log, then rewrites the user's
    /// record so its payment digest is the log's new root hash; the
    /// timestamp digest is untouched. Silently dropped for an unknown user.
    pub fn add_payment(&mut self, payment: PaymentInfo)
        requires
            distinct_keys(old(self).view_spec().kv()),
            pay_wf(payment.deep_view()),
        ensures
            distinct_keys(final(self).view_spec().kv()),
            map_of(final(self).view_spec().kv()) == spec_add_payment(
                map_of(old(self).view_spec().kv()),
                payment.deep_view(),
            ),
            wf(map_of(old(self).view_spec().kv())) ==> wf(map_of(final(self).view_spec().kv())),
            !registered(map_of(old(self).view_spec().kv()), payment.deep_view().user_id)
                ==> final(self).view_spec().kv() == old(self).view_spec().kv(),
    {
        let ghost m = map_of(self.view.kv());
        let ghost tv = payment.deep_view();
        let k = make_user_key(&payment.user_id);
        let found: Option<UserRecord> = match self.view.raw_get(&k) {
            Some(bytes) => match decode_record(bytes) {
                Ok(x) => Some(x),
                Err(_) => None,
            },
            None => None,
        };
        let rec = match found {
            Some(rec) => rec,
            None => {
                return;
            },
        };
        if !bytes_eq(&rec.info.id, &payment.user_id) {
            return;
        }
        proof {
            assert(reg_rec(m, tv.user_id) == Some(rec.deep_view()));
        }
        let pay_list = ProofListIndex::new(gen_prefix(IDX_PAYMENTS, &payment.user_id));
        let n = pay_list.len(&self.view);
        if n == u64::MAX {
            return;
        }
        let entry_bytes = payment.serialize();
        pay_list.push(&mut self.view, entry_bytes);
        let root = pay_list.root_hash(&self.view);
        proof {
            assert(root@ == chain_root(list_entries(m, pay_prefix(tv.user_id)).push(pay_enc(tv))));
            lemma_rec_parse_print(m[k@]);
        }
        let entry = UserRecord {
            info: rec.info,
            available_timestamps: rec.available_timestamps,
            timestamps_hash: rec.timestamps_hash,
            payments_hash: root,
        };
        let rec_bytes = entry.serialize();
        self.view.raw_put(k, rec_bytes);
        proof {
            let m2 = map_of(self.view.kv());
            assert(m2 =~= spec_add_payment(m, tv));
            if wf(m) {
                lemma_wf_add_payment(m, tv);
            }
        }
    }
}

} // verus!
