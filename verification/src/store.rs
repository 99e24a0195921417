//! The shared physical keyspace: an in-memory byte-keyed store with a
//! read-only snapshot view and a mutable transactional fork, both abstracted
//! as a map from byte keys to byte values.

use vstd::prelude::*;
use crate::codec::bytes_eq;
use vstd::pervasive::VecAdditionalExecFns;

verus! {

/// The keyspace a sequence of (key, value) entries denotes: later entries
/// win, though a well-formed store never repeats a key.
pub open spec fn map_of(s: Seq<(Seq<u8>, Seq<u8>)>) -> Map<Seq<u8>, Seq<u8>>
    decreases s.len(),
{
    if s.len() == 0 {
        Map::empty()
    } else {
        map_of(s.drop_last()).insert(s.last().0, s.last().1)
    }
}

/// No key occurs twice.
pub open spec fn distinct_keys(s: Seq<(Seq<u8>, Seq<u8>)>) -> bool {
    forall|i: int, j: int| 0 <= i < j < s.len() ==> s[i].0 != s[j].0
}

/// Every entry of a distinct-keyed sequence is in its map, with its value.
pub proof fn lemma_map_of_entry(s: Seq<(Seq<u8>, Seq<u8>)>, i: int)
    requires
        distinct_keys(s),
        0 <= i < s.len(),
    ensures
        map_of(s).contains_key(s[i].0),
        map_of(s)[s[i].0] == s[i].1,
    decreases s.len(),
{
    if i == s.len() - 1 {
        assert(s.last() == s[i]);
    } else {
        assert(distinct_keys(s.drop_last())) by {
            assert(forall|a: int, b: int|
                0 <= a < b < s.drop_last().len() ==> s.drop_last()[a].0 != s.drop_last()[b].0);
        }
        lemma_map_of_entry(s.drop_last(), i);
        assert(s.drop_last()[i] == s[i]);
        assert(s[i].0 != s.last().0);
    }
}

/// Replacing the value at an existing key updates the map at that key only.
pub proof fn lemma_map_of_update(s: Seq<(Seq<u8>, Seq<u8>)>, i: int, v: Seq<u8>)
    requires
        distinct_keys(s),
        0 <= i < s.len(),
    ensures
        map_of(s.update(i, (s[i].0, v))) == map_of(s).insert(s[i].0, v),
        distinct_keys(s.update(i, (s[i].0, v))),
    decreases s.len(),
{
    let t = s.update(i, (s[i].0, v));
    assert(forall|a: int| 0 <= a < s.len() ==> t[a].0 == s[a].0);
    if i == s.len() - 1 {
        assert(t.drop_last() =~= s.drop_last());
        assert(t.last() == (s[i].0, v));
        assert(map_of(t) == map_of(s.drop_last()).insert(s[i].0, v));
        assert(map_of(s) == map_of(s.drop_last()).insert(s[i].0, s[i].1));
        assert(map_of(t) =~= map_of(s).insert(s[i].0, v));
    } else {
        assert(distinct_keys(s.drop_last())) by {
            assert(forall|a: int, b: int|
                0 <= a < b < s.drop_last().len() ==> s.drop_last()[a].0 != s.drop_last()[b].0);
        }
        assert(t.drop_last() =~= s.drop_last().update(i, (s[i].0, v)));
        assert(s.drop_last()[i] == s[i]);
        lemma_map_of_update(s.drop_last(), i, v);
        assert(t.last() == s.last());
        assert(map_of(t) == map_of(s.drop_last()).insert(s[i].0, v).insert(s.last().0, s.last().1));
        assert(s[i].0 != s.last().0);
        assert(map_of(t) =~= map_of(s).insert(s[i].0, v));
    }
}

/// Appending a fresh key extends the map by that key.
pub proof fn lemma_map_of_push(s: Seq<(Seq<u8>, Seq<u8>)>, k: Seq<u8>, v: Seq<u8>)
    ensures
        map_of(s.push((k, v))) == map_of(s).insert(k, v),
{
    assert(s.push((k, v)).drop_last() =~= s);
    assert(s.push((k, v)).last() == (k, v));
}

/// A key that no entry carries is not in the map.
pub proof fn lemma_map_of_absent(s: Seq<(Seq<u8>, Seq<u8>)>, k: Seq<u8>)
    requires
        forall|i: int| 0 <= i < s.len() ==> #[trigger] s[i].0 != k,
    ensures
        !map_of(s).contains_key(k),
    decreases s.len(),
{
    if s.len() > 0 {
        assert(forall|i: int|
            0 <= i < s.drop_last().len() ==> #[trigger] s.drop_last()[i].0 != k);
        lemma_map_of_absent(s.drop_last(), k);
        assert(s[s.len() - 1].0 != k);
    }
}

/// A consistent view of the keyspace: the capability set shared by snapshots
/// and forks.
pub trait StoreView: Sized {
    /// The (key, value) entries, oldest first.
    spec fn kv(&self) -> Seq<(Seq<u8>, Seq<u8>)>;

    /// Looks a key up in the keyspace.
    fn raw_get(&self, key: &Vec<u8>) -> (r: Option<&Vec<u8>>)
        requires
            distinct_keys(self.kv()),
        ensures
            match r {
                Some(v) => map_of(self.kv()).contains_key(key@) && v@ == map_of(self.kv())[key@],
                None => !map_of(self.kv()).contains_key(key@),
            },
    ;

    /// The number of entries.
    fn entry_count(&self) -> (n: usize)
        ensures
            n == self.kv().len(),
    ;

    /// The key of the entry at position `i`.
    fn key_at(&self, i: usize) -> (k: &Vec<u8>)
        requires
            i < self.kv().len(),
        ensures
            k@ == self.kv()[i as int].0,
    ;

    /// The value of the entry at position `i`.
    fn val_at(&self, i: usize) -> (v: &Vec<u8>)
        requires
            i < self.kv().len(),
        ensures
            v@ == self.kv()[i as int].1,
    ;
}

/// Scans for the position of `key` among the entries.
fn seek(entries: &Vec<(Vec<u8>, Vec<u8>)>, key: &Vec<u8>) -> (r: Option<usize>)
    ensures
        match r {
            Some(i) => i < entries@.len() && entries@[i as int].0@ == key@,
            None => forall|i: int| 0 <= i < entries@.len() ==> #[trigger] entries@[i].0@ != key@,
        },
{
    let mut i: usize = 0;
    while i < entries.len()
        invariant
            i <= entries@.len(),
            forall|j: int| 0 <= j < i ==> #[trigger] entries@[j].0@ != key@,
        decreases entries@.len() - i,
    {
        if bytes_eq(&entries[i].0, key) {
            return Some(i);
        }
        i = i + 1;
    }
    None
}

/// The view sequence the entry vector denotes.
pub open spec fn kv_of(entries: Seq<(Vec<u8>, Vec<u8>)>) -> Seq<(Seq<u8>, Seq<u8>)> {
    entries.map(|i: int, e: (Vec<u8>, Vec<u8>)| (e.0@, e.1@))
}

/// A read-only, point-in-time view of the whole keyspace.
#[derive(Debug)]
pub struct Snapshot {
    entries: Vec<(Vec<u8>, Vec<u8>)>,
}

/// A mutable, uncommitted transactional view of the keyspace.
#[derive(Debug)]
pub struct Fork {
    entries: Vec<(Vec<u8>, Vec<u8>)>,
}

impl StoreView for Snapshot {
    closed spec fn kv(&self) -> Seq<(Seq<u8>, Seq<u8>)> {
        kv_of(self.entries@)
    }

    fn raw_get(&self, key: &Vec<u8>) -> (r: Option<&Vec<u8>>) {
        get_in(&self.entries, key)
    }

    fn entry_count(&self) -> (n: usize) {
        self.entries.len()
    }

    fn key_at(&self, i: usize) -> (k: &Vec<u8>) {
        &self.entries[i].0
    }

    fn val_at(&self, i: usize) -> (v: &Vec<u8>) {
        &self.entries[i].1
    }
}

impl StoreView for Fork {
    closed spec fn kv(&self) -> Seq<(Seq<u8>, Seq<u8>)> {
        kv_of(self.entries@)
    }

    fn raw_get(&self, key: &Vec<u8>) -> (r: Option<&Vec<u8>>) {
        get_in(&self.entries, key)
    }

    fn entry_count(&self) -> (n: usize) {
        self.entries.len()
    }

    fn key_at(&self, i: usize) -> (k: &Vec<u8>) {
        &self.entries[i].0
    }

    fn val_at(&self, i: usize) -> (v: &Vec<u8>) {
        &self.entries[i].1
    }
}

/// Shared lookup over an entry vector.
fn get_in<'a>(entries: &'a Vec<(Vec<u8>, Vec<u8>)>, key: &Vec<u8>) -> (r: Option<&'a Vec<u8>>)
    requires
        distinct_keys(kv_of(entries@)),
    ensures
        match r {
            Some(v) => map_of(kv_of(entries@)).contains_key(key@) && v@ == map_of(kv_of(entries@))[key@],
            None => !map_of(kv_of(entries@)).contains_key(key@),
        },
{
    match seek(entries, key) {
        Some(i) => {
            proof {
                lemma_map_of_entry(kv_of(entries@), i as int);
            }
            Some(&entries[i].1)
        },
        None => {
            proof {
                lemma_map_of_absent(kv_of(entries@), key@);
            }
            None
        },
    }
}

impl Fork {
    /// An empty keyspace: the state before any operation ran.
    pub fn new() -> (r: Fork)
        ensures
            r.kv() == Seq::<(Seq<u8>, Seq<u8>)>::empty(),
            distinct_keys(r.kv()),
            map_of(r.kv()) == Map::<Seq<u8>, Seq<u8>>::empty(),
    {
        let r = Fork { entries: Vec::new() };
        proof {
            assert(r.kv() =~= Seq::<(Seq<u8>, Seq<u8>)>::empty());
        }
        r
    }

    /// Freezes the fork into a read-only snapshot of the same keyspace.
    pub fn into_snapshot(self) -> (r: Snapshot)
        ensures
            r.kv() == self.kv(),
    {
        Snapshot { entries: self.entries }
    }

    /// Writes `value` under `key`: replaces the existing entry or appends a
    /// fresh one.
    pub fn raw_put(&mut self, key: Vec<u8>, value: Vec<u8>)
        requires
            distinct_keys(old(self).kv()),
        ensures
            distinct_keys(final(self).kv()),
            map_of(final(self).kv()) == map_of(old(self).kv()).insert(key@, value@),
            map_of(old(self).kv()).contains_key(key@) ==> final(self).kv().len() == old(
                self).kv().len(),
            !map_of(old(self).kv()).contains_key(key@) ==> final(self).kv() == old(
                self).kv().push((key@, value@)),
    {
        let ghost okv = self.kv();
        match seek(&self.entries, &key) {
            Some(i) => {
                proof {
                    lemma_map_of_entry(okv, i as int);
                    lemma_map_of_update(okv, i as int, value@);
                }
                let new_key = crate::codec::subvec(&key, 0, key.len());
                proof {
                    assert(new_key@ =~= key@);
                }
                self.entries.set(i, (new_key, value));
                proof {
                    assert(self.kv() =~= okv.update(i as int, (okv[i as int].0, value@)));
                }
            },
            None => {
                proof {
                    lemma_map_of_absent(okv, key@);
                    lemma_map_of_push(okv, key@, value@);
                }
                self.entries.push((key, value));
                proof {
                    assert(self.kv() =~= okv.push((self.entries@.last().0@,
                        self.entries@.last().1@)));
                }
            },
        }
    }
}

} // verus!
