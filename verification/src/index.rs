//! Typed collection handles: an authenticated map, an authenticated
//! append-only list, and a plain map, each bound to one namespace prefix of
//! the shared keyspace. A handle works on any view; mutation needs a fork.

use vstd::prelude::*;
use crate::codec::{be64, be64_val, encode_u64, decode_u64, subvec, extend_bytes, starts_with,
    is_prefix, push_be64};
use crate::digest::{Digest, chain_root, chain_step};
use crate::keys::{list_len_key, list_entry_key};
use crate::store::{StoreView, Fork, distinct_keys, map_of};

verus! {

/// The recorded length of the list at prefix `p` (zero where the length cell
/// is absent or malformed).
pub open spec fn list_len_spec(m: Map<Seq<u8>, Seq<u8>>, p: Seq<u8>) -> u64 {
    if m.contains_key(list_len_key(p)) && m[list_len_key(p)].len() == 8 {
        be64_val(m[list_len_key(p)])
    } else {
        0u64
    }
}

/// The bytes of the list entry at position `i` (empty where the cell is
/// absent).
pub open spec fn list_entry_at(m: Map<Seq<u8>, Seq<u8>>, p: Seq<u8>, i: int) -> Seq<u8> {
    if m.contains_key(list_entry_key(p, i as u64)) {
        m[list_entry_key(p, i as u64)]
    } else {
        Seq::empty()
    }
}

/// The entries of the list at prefix `p`, in insertion order.
pub open spec fn list_entries(m: Map<Seq<u8>, Seq<u8>>, p: Seq<u8>) -> Seq<Seq<u8>> {
    Seq::new(list_len_spec(m, p) as nat, |i: int| list_entry_at(m, p, i))
}

/// Cells of one list never collide: the length cell differs from every entry
/// cell, and entry cells of distinct positions differ.
pub proof fn lemma_list_cells_distinct(p: Seq<u8>, i: u64, j: u64)
    ensures
        list_len_key(p) != list_entry_key(p, i),
        i != j ==> list_entry_key(p, i) != list_entry_key(p, j),
{
    assert(list_len_key(p)[p.len() as int] == 0u8);
    assert(list_entry_key(p, i)[p.len() as int] == 1u8);
    if i != j && list_entry_key(p, i) == list_entry_key(p, j) {
        assert forall|k: int| 0 <= k < 8 implies be64(i)[k] == be64(j)[k] by {
            assert(list_entry_key(p, i)[p.len() + 1 + k] == be64(i)[k]);
            assert(list_entry_key(p, j)[p.len() + 1 + k] == be64(j)[k]);
        }
        assert(be64(i) =~= be64(j));
        crate::codec::lemma_be64_injective(i, j);
    }
}

/// The key/value cells, in store order, that sit under prefix `p`, each
/// flattened to key-plus-value bytes.
pub open spec fn map_entries_in(kv: Seq<(Seq<u8>, Seq<u8>)>, p: Seq<u8>) -> Seq<Seq<u8>>
    decreases kv.len(),
{
    if kv.len() == 0 {
        Seq::empty()
    } else {
        let rest = map_entries_in(kv.drop_last(), p);
        if is_prefix(p, kv.last().0) {
            rest.push(kv.last().0 + kv.last().1)
        } else {
            rest
        }
    }
}

/// The root hash of the authenticated map at prefix `p`: the digest chain
/// over its cells in store order.
pub open spec fn map_root(kv: Seq<(Seq<u8>, Seq<u8>)>, p: Seq<u8>) -> Seq<u8> {
    chain_root(map_entries_in(kv, p))
}

/// A handle on an authenticated append-only list.
#[derive(Debug, Clone)]
pub struct ProofListIndex {
    prefix: Vec<u8>,
}

impl ProofListIndex {
    /// The namespace prefix the handle is bound to.
    pub closed spec fn prefix_spec(&self) -> Seq<u8> {
        self.prefix@
    }

    /// Binds a handle to a namespace prefix.
    pub fn new(prefix: Vec<u8>) -> (r: ProofListIndex)
        ensures
            r.prefix_spec() == prefix@,
    {
        ProofListIndex { prefix }
    }

    fn len_key(&self) -> (r: Vec<u8>)
        ensures
            r@ == list_len_key(self.prefix_spec()),
    {
        let mut k = subvec(&self.prefix, 0, self.prefix.len());
        k.push(0u8);
        push_be64(&mut k, 0);
        proof {
            assert(k@ =~= list_len_key(self.prefix@));
        }
        k
    }

    fn entry_key(&self, i: u64) -> (r: Vec<u8>)
        ensures
            r@ == list_entry_key(self.prefix_spec(), i),
    {
        let mut k = subvec(&self.prefix, 0, self.prefix.len());
        k.push(1u8);
        push_be64(&mut k, i);
        proof {
            assert(k@ =~= list_entry_key(self.prefix@, i));
        }
        k
    }

    /// The number of entries appended so far.
    pub fn len<V: StoreView>(&self, view: &V) -> (n: u64)
        requires
            distinct_keys(view.kv()),
        ensures
            n == list_len_spec(map_of(view.kv()), self.prefix_spec()),
    {
        let k = self.len_key();
        match view.raw_get(&k) {
            Some(v) => match decode_u64(v) {
                Ok(n) => n,
                Err(_) => 0,
            },
            None => 0,
        }
    }

    /// Reads the entry at position `i`; positions below the length always
    /// answer.
    pub fn get<V: StoreView>(&self, view: &V, i: u64) -> (r: Option<Vec<u8>>)
        requires
            distinct_keys(view.kv()),
        ensures
            ({
                let m = map_of(view.kv());
                if i < list_len_spec(m, self.prefix_spec()) {
                    r is Some && r->Some_0@ == list_entry_at(m, self.prefix_spec(), i as int)
                } else {
                    r is None
                }
            }),
    {
        let n = self.len(view);
        if i >= n {
            return None;
        }
        let k = self.entry_key(i);
        match view.raw_get(&k) {
            Some(v) => {
                let c = subvec(v, 0, v.len());
                proof {
                    assert(c@ =~= v@);
                }
                Some(c)
            },
            None => Some(Vec::new()),
        }
    }

    /// The root hash of the list: the digest chain over its entries.
    pub fn root_hash<V: StoreView>(&self, view: &V) -> (r: Digest)
        requires
            distinct_keys(view.kv()),
        ensures
            r@ == chain_root(list_entries(map_of(view.kv()), self.prefix_spec())),
            r.wf(),
    {
        let ghost m = map_of(view.kv());
        let ghost es = list_entries(m, self.prefix_spec());
        let n = self.len(view);
        let zero = Digest::zero();
        let mut h = zero.to_vec();
        let mut i: u64 = 0;
        proof {
            assert(es.take(0) =~= Seq::<Seq<u8>>::empty());
        }
        while i < n
            invariant
                i <= n,
                distinct_keys(view.kv()),
                m == map_of(view.kv()),
                es == list_entries(m, self.prefix_spec()),
                n == list_len_spec(m, self.prefix_spec()),
                h@ == chain_root(es.take(i as int)),
                h@.len() == 32,
            decreases n - i,
        {
            let k = self.entry_key(i);
            let entry: Vec<u8> = match view.raw_get(&k) {
                Some(v) => {
                    let c = subvec(v, 0, v.len());
                    proof {
                        assert(c@ =~= v@);
                    }
                    c
                },
                None => Vec::new(),
            };
            proof {
                assert(entry@ == list_entry_at(m, self.prefix_spec(), i as int));
                assert(es[i as int] == list_entry_at(m, self.prefix_spec(), i as int));
            }
            let h2 = chain_step(&h, &entry);
            h = h2;
            proof {
                assert(es.take(i + 1).drop_last() =~= es.take(i as int));
                assert(es.take(i + 1).last() == es[i as int]);
            }
            i = i + 1;
        }
        proof {
            assert(es.take(n as int) =~= es);
        }
        match Digest::from_bytes(h) {
            Ok(d) => d,
            Err(_) => {
                proof {
                    assert(false);
                }
                Digest::zero()
            },
        }
    }

    /// Appends `value`: writes the next entry cell and the new length. A list
    /// whose length counter is exhausted is left unchanged.
    pub fn push(&self, fork: &mut Fork, value: Vec<u8>)
        requires
            distinct_keys(old(fork).kv()),
        ensures
            distinct_keys(final(fork).kv()),
            ({
                let m = map_of(old(fork).kv());
                let p = self.prefix_spec();
                let n = list_len_spec(m, p);
                &&& n < u64::MAX ==> {
                    &&& map_of(final(fork).kv()) == m.insert(list_entry_key(p, n), value@).insert(
                        list_len_key(p),
                        be64((n + 1) as u64),
                    )
                    &&& list_entries(map_of(final(fork).kv()), p) == list_entries(m, p).push(value@)
                    &&& list_len_spec(map_of(final(fork).kv()), p) == n + 1
                }
                &&& n == u64::MAX ==> final(fork).kv() == old(fork).kv()
            }),
    {
        let ghost m = map_of(old(fork).kv());
        let ghost p = self.prefix_spec();
        let n = self.len(fork);
        if n == u64::MAX {
            return;
        }
        let ek = self.entry_key(n);
        fork.raw_put(ek, value);
        let lk = self.len_key();
        fork.raw_put(lk, encode_u64(n + 1));
        proof {
            let m2 = map_of(fork.kv());
            lemma_list_cells_distinct(p, n, n);
            assert(m2 == m.insert(list_entry_key(p, n), value@).insert(list_len_key(p), be64(
                (n + 1) as u64,
            )));
            crate::codec::lemma_be64_round_trip((n + 1) as u64);
            assert(list_len_spec(m2, p) == n + 1);
            assert forall|i: int| 0 <= i < n + 1 implies list_entries(m2, p)[i] == list_entries(
                m,
                p,
            ).push(value@)[i] by {
                lemma_list_cells_distinct(p, i as u64, n);
                if i < n {
                    assert(list_entry_at(m2, p, i) == list_entry_at(m, p, i));
                } else {
                    assert(list_entry_at(m2, p, i) == value@);
                }
            }
            assert(list_entries(m2, p) =~= list_entries(m, p).push(value@));
        }
    }
}

/// A handle on an authenticated map.
#[derive(Debug, Clone)]
pub struct ProofMapIndex {
    prefix: Vec<u8>,
}

impl ProofMapIndex {
    /// The namespace prefix the handle is bound to.
    pub closed spec fn prefix_spec(&self) -> Seq<u8> {
        self.prefix@
    }

    /// Binds a handle to a namespace prefix.
    pub fn new(prefix: Vec<u8>) -> (r: ProofMapIndex)
        ensures
            r.prefix_spec() == prefix@,
    {
        ProofMapIndex { prefix }
    }

    /// Looks up the value stored under `key` within this map's namespace.
    pub fn get<V: StoreView>(&self, view: &V, key: &Vec<u8>) -> (r: Option<Vec<u8>>)
        requires
            distinct_keys(view.kv()),
        ensures
            ({
                let m = map_of(view.kv());
                let fk = self.prefix_spec() + key@;
                match r {
                    Some(v) => m.contains_key(fk) && v@ == m[fk],
                    None => !m.contains_key(fk),
                }
            }),
    {
        let mut fk = subvec(&self.prefix, 0, self.prefix.len());
        extend_bytes(&mut fk, key);
        proof {
            assert(fk@ =~= self.prefix_spec() + key@);
        }
        match view.raw_get(&fk) {
            Some(v) => {
                let c = subvec(v, 0, v.len());
                proof {
                    assert(c@ =~= v@);
                }
                Some(c)
            },
            None => None,
        }
    }

    /// Stores `value` under `key` within this map's namespace.
    pub fn put(&self, fork: &mut Fork, key: &Vec<u8>, value: Vec<u8>)
        requires
            distinct_keys(old(fork).kv()),
        ensures
            distinct_keys(final(fork).kv()),
            map_of(final(fork).kv()) == map_of(old(fork).kv()).insert(
                self.prefix_spec() + key@,
                value@,
            ),
    {
        let mut fk = subvec(&self.prefix, 0, self.prefix.len());
        extend_bytes(&mut fk, key);
        proof {
            assert(fk@ =~= self.prefix_spec() + key@);
        }
        fork.raw_put(fk, value);
    }

    /// The root hash of the map: the digest chain over its cells.
    pub fn root_hash<V: StoreView>(&self, view: &V) -> (r: Digest)
        requires
            distinct_keys(view.kv()),
        ensures
            r@ == map_root(view.kv(), self.prefix_spec()),
            r.wf(),
    {
        let ghost kv = view.kv();
        let ghost p = self.prefix_spec();
        let total = view.entry_count();
        let zero = Digest::zero();
        let mut h = zero.to_vec();
        let mut i: usize = 0;
        proof {
            assert(kv.take(0) =~= Seq::<(Seq<u8>, Seq<u8>)>::empty());
        }
        while i < total
            invariant
                i <= total,
                total == kv.len(),
                kv == view.kv(),
                distinct_keys(view.kv()),
                p == self.prefix_spec(),
                h@ == chain_root(map_entries_in(kv.take(i as int), p)),
                h@.len() == 32,
            decreases total - i,
        {
            let key = view.key_at(i);
            proof {
                assert(kv.take(i + 1).drop_last() =~= kv.take(i as int));
                assert(kv.take(i + 1).last() == kv[i as int]);
            }
            if starts_with(key, &self.prefix) {
                let value = view.val_at(i);
                let mut cell = subvec(key, 0, key.len());
                extend_bytes(&mut cell, value);
                proof {
                    assert(cell@ =~= kv[i as int].0 + kv[i as int].1);
                }
                let h2 = chain_step(&h, &cell);
                h = h2;
                proof {
                    let rest = map_entries_in(kv.take(i as int), p);
                    let x = kv[i as int].0 + kv[i as int].1;
                    assert(map_entries_in(kv.take(i + 1), p) == rest.push(x));
                    assert(rest.push(x).drop_last() =~= rest);
                    assert(rest.push(x).last() == x);
                }
            } else {
                proof {
                    assert(map_entries_in(kv.take(i + 1), p) == map_entries_in(
                        kv.take(i as int),
                        p,
                    ));
                }
            }
            i = i + 1;
        }
        proof {
            assert(kv.take(total as int) =~= kv);
        }
        match Digest::from_bytes(h) {
            Ok(d) => d,
            Err(_) => {
                proof {
                    assert(false);
                }
                Digest::zero()
            },
        }
    }
}

/// A handle on a plain, unauthenticated map.
#[derive(Debug, Clone)]
pub struct MapIndex {
    prefix: Vec<u8>,
}

impl MapIndex {
    /// The namespace prefix the handle is bound to.
    pub closed spec fn prefix_spec(&self) -> Seq<u8> {
        self.prefix@
    }

    /// Binds a handle to a namespace prefix.
    pub fn new(prefix: Vec<u8>) -> (r: MapIndex)
        ensures
            r.prefix_spec() == prefix@,
    {
        MapIndex { prefix }
    }

    /// Looks up the value stored under `key` within this map's namespace.
    pub fn get<V: StoreView>(&self, view: &V, key: &Vec<u8>) -> (r: Option<Vec<u8>>)
        requires
            distinct_keys(view.kv()),
        ensures
            ({
                let m = map_of(view.kv());
                let fk = self.prefix_spec() + key@;
                match r {
                    Some(v) => m.contains_key(fk) && v@ == m[fk],
                    None => !m.contains_key(fk),
                }
            }),
    {
        let mut fk = subvec(&self.prefix, 0, self.prefix.len());
        extend_bytes(&mut fk, key);
        proof {
            assert(fk@ =~= self.prefix_spec() + key@);
        }
        match view.raw_get(&fk) {
            Some(v) => {
                let c = subvec(v, 0, v.len());
                proof {
                    assert(c@ =~= v@);
                }
                Some(c)
            },
            None => None,
        }
    }

    /// Stores `value` under `key` within this map's namespace.
    pub fn put(&self, fork: &mut Fork, key: &Vec<u8>, value: Vec<u8>)
        requires
            distinct_keys(old(fork).kv()),
        ensures
            distinct_keys(final(fork).kv()),
            map_of(final(fork).kv()) == map_of(old(fork).kv()).insert(
                self.prefix_spec() + key@,
                value@,
            ),
    {
        let mut fk = subvec(&self.prefix, 0, self.prefix.len());
        extend_bytes(&mut fk, key);
        proof {
            assert(fk@ =~= self.prefix_spec() + key@);
        }
        fork.raw_put(fk, value);
    }
}

} // verus!
