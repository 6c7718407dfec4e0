//! The key-value store: a map of UTF-8 keys to UTF-8 values held as an
//! association list with pairwise distinct keys, viewed as a `Map`.

use crate::codec::{dec_snapshot, decode_entries, encode_entries, snapshot_bytes};
use vstd::prelude::*;

verus! {

/// The views of a sequence of owned key-value pairs.
pub open spec fn pair_views(s: Seq<(String, String)>) -> Seq<(Seq<char>, Seq<char>)> {
    s.map_values(|p: (String, String)| (p.0@, p.1@))
}

/// The map an association list denotes; a later entry for the same key wins.
pub open spec fn assoc_map(v: Seq<(Seq<char>, Seq<char>)>) -> Map<Seq<char>, Seq<char>>
    decreases v.len(),
{
    if v.len() == 0 {
        Map::empty()
    } else {
        assoc_map(v.drop_last()).insert(v.last().0, v.last().1)
    }
}

/// Pairwise distinct keys.
pub open spec fn distinct_keys(v: Seq<(Seq<char>, Seq<char>)>) -> bool {
    forall|i: int, j: int| 0 <= i < j < v.len() ==> (#[trigger] v[i]).0 != (#[trigger] v[j]).0
}

/// No pair carries an empty key.
pub open spec fn keys_nonempty(v: Seq<(Seq<char>, Seq<char>)>) -> bool {
    forall|i: int| 0 <= i < v.len() ==> (#[trigger] v[i]).0.len() > 0
}

/// The value a map holds for a key, or the empty string for an absent key.
pub open spec fn lookup(m: Map<Seq<char>, Seq<char>>, k: Seq<char>) -> Seq<char> {
    if m.contains_key(k) {
        m[k]
    } else {
        Seq::empty()
    }
}

pub proof fn lemma_assoc_contains(v: Seq<(Seq<char>, Seq<char>)>, k: Seq<char>)
    ensures
        assoc_map(v).contains_key(k) <==> exists|i: int|
            0 <= i < v.len() && (#[trigger] v[i]).0 == k,
    decreases v.len(),
{
    if v.len() > 0 {
        lemma_assoc_contains(v.drop_last(), k);
        if v.last().0 == k {
            assert(v[v.len() - 1].0 == k);
        } else if assoc_map(v).contains_key(k) {
            let i = choose|i: int| 0 <= i < v.drop_last().len() && (#[trigger] v.drop_last()[i]).0
                == k;
            assert(v[i].0 == k);
        } else {
            if exists|i: int| 0 <= i < v.len() && (#[trigger] v[i]).0 == k {
                let i = choose|i: int| 0 <= i < v.len() && (#[trigger] v[i]).0 == k;
                assert(v.drop_last()[i].0 == k);
            }
        }
    }
}

pub proof fn lemma_assoc_get(v: Seq<(Seq<char>, Seq<char>)>, i: int)
    requires
        distinct_keys(v),
        0 <= i < v.len(),
    ensures
        assoc_map(v).contains_key(v[i].0),
        assoc_map(v)[v[i].0] == v[i].1,
    decreases v.len(),
{
    if i == v.len() - 1 {
    } else {
        assert(distinct_keys(v.drop_last())) by {
            assert(forall|a: int, b: int|
                0 <= a < b < v.drop_last().len() ==> (#[trigger] v.drop_last()[a]).0 != (
                #[trigger] v.drop_last()[b]).0);
        }
        lemma_assoc_get(v.drop_last(), i);
        assert(v.drop_last()[i] == v[i]);
        assert(v[i].0 != v.last().0);
    }
}

pub proof fn lemma_assoc_len(v: Seq<(Seq<char>, Seq<char>)>)
    requires
        distinct_keys(v),
    ensures
        assoc_map(v).dom().finite(),
        assoc_map(v).dom().len() == v.len(),
    decreases v.len(),
{
    if v.len() == 0 {
        assert(assoc_map(v).dom() =~= Set::<Seq<char>>::empty());
    } else {
        let w = v.drop_last();
        assert(distinct_keys(w)) by {
            assert(forall|a: int, b: int|
                0 <= a < b < w.len() ==> (#[trigger] w[a]).0 != (#[trigger] w[b]).0);
        }
        lemma_assoc_len(w);
        lemma_assoc_contains(w, v.last().0);
        assert(forall|i: int| 0 <= i < w.len() ==> (#[trigger] w[i]).0 != v.last().0) by {
            assert(forall|i: int|
                0 <= i < w.len() ==> (#[trigger] v[i]).0 != v[v.len() - 1].0 && w[i] == v[i]);
        }
        assert(!assoc_map(w).contains_key(v.last().0));
        assert(assoc_map(v).dom() =~= assoc_map(w).dom().insert(v.last().0));
    }
}

pub proof fn lemma_assoc_remove_at(v: Seq<(Seq<char>, Seq<char>)>, i: int)
    requires
        distinct_keys(v),
        0 <= i < v.len(),
    ensures
        distinct_keys(v.remove(i)),
        assoc_map(v.remove(i)) == assoc_map(v).remove(v[i].0),
        forall|j: int|
            0 <= j < v.remove(i).len() ==> (#[trigger] v.remove(i)[j]).0 != v[i].0,
    decreases v.len(),
{
    let r = v.remove(i);
    assert forall|a: int, b: int| 0 <= a < b < r.len() implies (#[trigger] r[a]).0 != (
    #[trigger] r[b]).0 by {
        let a0 = if a < i {
            a
        } else {
            a + 1
        };
        let b0 = if b < i {
            b
        } else {
            b + 1
        };
        assert(r[a] == v[a0] && r[b] == v[b0]);
    }
    assert forall|j: int| 0 <= j < r.len() implies (#[trigger] r[j]).0 != v[i].0 by {
        let j0 = if j < i {
            j
        } else {
            j + 1
        };
        assert(r[j] == v[j0]);
    }
    if i == v.len() - 1 {
        assert(r =~= v.drop_last());
        let w = v.drop_last();
        assert(distinct_keys(w));
        lemma_assoc_contains(w, v.last().0);
        assert(!assoc_map(w).contains_key(v.last().0));
        assert(assoc_map(w).remove(v.last().0) =~= assoc_map(w));
        assert(assoc_map(v).remove(v[i].0) =~= assoc_map(w));
    } else {
        let w = v.drop_last();
        assert(distinct_keys(w)) by {
            assert(forall|a: int, b: int|
                0 <= a < b < w.len() ==> (#[trigger] w[a]).0 != (#[trigger] w[b]).0);
        }
        lemma_assoc_remove_at(w, i);
        assert(w[i] == v[i]);
        assert(r.drop_last() =~= w.remove(i));
        assert(r.last() == v.last());
        assert(assoc_map(r) == assoc_map(w.remove(i)).insert(v.last().0, v.last().1));
        assert(v[i].0 != v.last().0);
        assert(assoc_map(w).remove(v[i].0).insert(v.last().0, v.last().1) =~= assoc_map(
            w,
        ).insert(v.last().0, v.last().1).remove(v[i].0));
    }
}

/// The shared map of record keys to values, with the filesystem path its
/// snapshot belongs at.
pub struct Database {
    path: String,
    data: Vec<(String, String)>,
}

impl View for Database {
    type V = Map<Seq<char>, Seq<char>>;

    closed spec fn view(&self) -> Map<Seq<char>, Seq<char>> {
        assoc_map(pair_views(self.data@))
    }
}

impl Database {
    /// The store never holds two entries with the same key, nor an entry
    /// with an empty key.
    pub closed spec fn wf(&self) -> bool {
        distinct_keys(pair_views(self.data@)) && keys_nonempty(pair_views(self.data@))
    }

    /// The snapshot path the store was configured with.
    pub closed spec fn spec_path(&self) -> Seq<char> {
        self.path@
    }

    /// The entries as the store holds them, in order.
    pub closed spec fn entries(&self) -> Seq<(Seq<char>, Seq<char>)> {
        pair_views(self.data@)
    }

    /// An empty store configured with a snapshot path.
    pub fn new(path: &str) -> (r: Database)
        ensures
            r.wf(),
            r@ == Map::<Seq<char>, Seq<char>>::empty(),
            r.spec_path() == path@,
    {
        let r = Database { path: String::from_str(path), data: Vec::new() };
        proof {
            assert(pair_views(r.data@) =~= Seq::<(Seq<char>, Seq<char>)>::empty());
        }
        r
    }

    /// Updates the snapshot path; the records are untouched.
    pub fn set_path(&mut self, path: &str)
        ensures
            final(self)@ == old(self)@,
            final(self).wf() == old(self).wf(),
            final(self).entries() == old(self).entries(),
            final(self).spec_path() == path@,
    {
        self.path = String::from_str(path);
    }

    /// The snapshot path.
    pub fn get_path(&self) -> (r: String)
        ensures
            r@ == self.spec_path(),
    {
        self.path.clone()
    }

    /// Position of the entry holding a key, if the store has one.
    fn find_index(&self, key: &str) -> (r: Option<usize>)
        ensures
            match r {
                Option::Some(i) => i < self.entries().len() && self.entries()[i as int].0 == key@,
                Option::None => forall|j: int|
                    0 <= j < self.entries().len() ==> (#[trigger] self.entries()[j]).0 != key@,
            },
    {
        let n = self.data.len();
        let mut i: usize = 0;
        while i < n
            invariant
                0 <= i <= n,
                n == self.data@.len(),
                forall|j: int| 0 <= j < i ==> (#[trigger] pair_views(self.data@)[j]).0 != key@,
            decreases n - i,
        {
            if str_eq(self.data[i].0.as_str(), key) {
                proof {
                    assert(pair_views(self.data@)[i as int].0 == key@);
                }
                return Option::Some(i);
            }
            proof {
                assert(pair_views(self.data@)[i as int].0 == self.data@[i as int].0@);
            }
            i = i + 1;
        }
        Option::None
    }

    /// The number of records the store holds.
    pub fn count(&self) -> (r: usize)
        requires
            self.wf(),
        ensures
            r == self@.dom().len(),
    {
        proof {
            lemma_assoc_len(pair_views(self.data@));
        }
        self.data.len()
    }

    /// The value stored for a key, or the empty string when the key is
    /// absent. Absence and an empty stored value read the same here.
    pub fn get(&self, key: &str) -> (r: String)
        requires
            self.wf(),
        ensures
            r@ == lookup(self@, key@),
    {
        let ghost v0 = pair_views(self.data@);
        match self.find_index(key) {
            Option::Some(i) => {
                proof {
                    assert(v0[i as int] == self.entries()[i as int]);
                    lemma_assoc_get(v0, i as int);
                    assert(v0[i as int] == (self.data@[i as int].0@, self.data@[i as int].1@));
                }
                self.data[i].1.clone()
            },
            Option::None => {
                proof {
                    lemma_assoc_contains(v0, key@);
                    assert forall|j: int| 0 <= j < v0.len() implies (#[trigger] v0[j]).0 != key@ by {
                        assert(self.entries()[j].0 != key@);
                    }
                }
                String::new()
            },
        }
    }

    /// Inserts or overwrites a key, and reports the record count after the
    /// mutation. The key must be non-empty; the grammar enforces that for
    /// every caller on the protocol path, and it is not re-validated here.
    pub fn set(&mut self, key: &str, value: &str) -> (r: usize)
        requires
            old(self).wf(),
            key@.len() > 0,
        ensures
            final(self).wf(),
            final(self)@ == old(self)@.insert(key@, value@),
            final(self).spec_path() == old(self).spec_path(),
            r == final(self)@.dom().len(),
    {
        let ghost v0 = pair_views(self.data@);
        match self.find_index(key) {
            Option::Some(i) => {
                self.data.remove(i);
                proof {
                    assert(pair_views(self.data@) =~= v0.remove(i as int));
                    lemma_assoc_remove_at(v0, i as int);
                    assert forall|j: int| 0 <= j < v0.remove(i as int).len() implies (
                    #[trigger] v0.remove(i as int)[j]).0.len() > 0 by {
                        let j0 = if j < i as int {
                            j
                        } else {
                            j + 1
                        };
                        assert(v0.remove(i as int)[j] == v0[j0]);
                    }
                }
            },
            Option::None => {
                proof {
                    lemma_assoc_contains(v0, key@);
                    assert forall|j: int| 0 <= j < v0.len() implies (#[trigger] v0[j]).0 != key@ by {
                        assert(self.entries()[j].0 != key@);
                    }
                    assert(!assoc_map(v0).contains_key(key@));
                    assert(assoc_map(v0).remove(key@) =~= assoc_map(v0));
                }
            },
        }
        let ghost v1 = pair_views(self.data@);
        self.data.push((String::from_str(key), String::from_str(value)));
        proof {
            let v2 = pair_views(self.data@);
            assert(v2.drop_last() =~= v1);
            assert(v2.last() == (key@, value@));
            assert(assoc_map(v2) == assoc_map(v1).insert(key@, value@));
            assert(assoc_map(v1) == assoc_map(v0).remove(key@));
            assert(assoc_map(v0).remove(key@).insert(key@, value@) =~= assoc_map(v0).insert(
                key@,
                value@,
            ));
            assert forall|a: int, b: int| 0 <= a < b < v2.len() implies (#[trigger] v2[a]).0 != (
            #[trigger] v2[b]).0 by {
                if b < v2.len() - 1 {
                    assert(v2[a] == v1[a] && v2[b] == v1[b]);
                } else {
                    assert(v2[a] == v1[a]);
                }
            }
            assert forall|j: int| 0 <= j < v2.len() implies (#[trigger] v2[j]).0.len() > 0 by {
                if j < v2.len() - 1 {
                    assert(v2[j] == v1[j]);
                }
            }
            lemma_assoc_len(v2);
        }
        self.data.len()
    }

    /// Deletes a key if the store holds it; deleting an absent key is a
    /// no-op, not an error. Reports the record count after the mutation.
    pub fn remove(&mut self, key: &str) -> (r: usize)
        requires
            old(self).wf(),
        ensures
            final(self).wf(),
            final(self)@ == old(self)@.remove(key@),
            final(self).spec_path() == old(self).spec_path(),
            r == final(self)@.dom().len(),
    {
        let ghost v0 = pair_views(self.data@);
        match self.find_index(key) {
            Option::Some(i) => {
                self.data.remove(i);
                proof {
                    assert(pair_views(self.data@) =~= v0.remove(i as int));
                    lemma_assoc_remove_at(v0, i as int);
                    lemma_assoc_len(pair_views(self.data@));
                }
            },
            Option::None => {
                proof {
                    lemma_assoc_contains(v0, key@);
                    assert forall|j: int| 0 <= j < v0.len() implies (#[trigger] v0[j]).0 != key@ by {
                        assert(self.entries()[j].0 != key@);
                    }
                    assert(!assoc_map(v0).contains_key(key@));
                    assert(assoc_map(v0).remove(key@) =~= assoc_map(v0));
                    lemma_assoc_len(v0);
                }
            },
        }
        self.data.len()
    }

    /// Serializes every record into one snapshot byte string; decoding those
    /// bytes yields the records back.
    pub fn snapshot(&self) -> (r: Vec<u8>)
        ensures
            r@ == snapshot_bytes(self.entries()),
            dec_snapshot(r@) == Option::Some(self.entries()),
    {
        encode_entries(&self.data)
    }

    /// Rebuilds a store from snapshot bytes; `None` unless the bytes are a
    /// well-formed snapshot whose keys are all non-empty. When pairs repeat
    /// a key, the later pair wins, so the records always denote the
    /// snapshot's map.
    pub fn restore(path: &str, bytes: &[u8]) -> (r: Option<Database>)
        ensures
            match r {
                Option::Some(db) => {
                    &&& dec_snapshot(bytes@) matches Option::Some(ps) && db@ == assoc_map(ps)
                        && keys_nonempty(ps)
                    &&& db.wf()
                    &&& db.spec_path() == path@
                },
                Option::None => dec_snapshot(bytes@) is None || !keys_nonempty(
                    dec_snapshot(bytes@)->Some_0,
                ),
            },
    {
        match decode_entries(bytes) {
            Option::None => Option::None,
            Option::Some(pairs) => {
                let mut db = Database::new(path);
                let n = pairs.len();
                let mut i: usize = 0;
                while i < n
                    invariant
                        0 <= i <= n,
                        n == pairs@.len(),
                        dec_snapshot(bytes@) == Option::Some(pair_views(pairs@)),
                        db.wf(),
                        db.spec_path() == path@,
                        db@ == assoc_map(pair_views(pairs@).take(i as int)),
                        keys_nonempty(pair_views(pairs@).take(i as int)),
                    decreases n - i,
                {
                    if pairs[i].0.as_str().is_empty() {
                        proof {
                            assert(pair_views(pairs@)[i as int].0.len() == 0);
                        }
                        return Option::None;
                    }
                    db.set(pairs[i].0.as_str(), pairs[i].1.as_str());
                    proof {
                        let pv = pair_views(pairs@);
                        assert(pv.take(i + 1).drop_last() =~= pv.take(i as int));
                        assert(pv.take(i + 1).last() == pv[i as int]);
                        assert(pv[i as int] == (pairs@[i as int].0@, pairs@[i as int].1@));
                        assert(db@ == assoc_map(pv.take(i + 1)));
                    }
                    i = i + 1;
                }
                proof {
                    assert(pair_views(pairs@).take(n as int) =~= pair_views(pairs@));
                    assert(keys_nonempty(pair_views(pairs@)));
                }
                Option::Some(db)
            },
        }
    }
}

/// The map a store's records denote is the store's own map; together with
/// `snapshot`, `restore` and `lemma_snapshot_roundtrip`, a snapshot read
/// back rebuilds a map equal to the map at the time it was written.
pub proof fn lemma_entries_map(db: Database)
    ensures
        assoc_map(db.entries()) == db@,
{
}

/// The store's map never holds an entry with an empty key: the grammar
/// keeps empty keys off every mutation path.
pub proof fn lemma_no_empty_key(db: Database)
    requires
        db.wf(),
    ensures
        !db@.contains_key(Seq::<char>::empty()),
{
    lemma_assoc_contains(db.entries(), Seq::empty());
    if db@.contains_key(Seq::<char>::empty()) {
        let i = choose|i: int|
            0 <= i < db.entries().len() && (#[trigger] db.entries()[i]).0 == Seq::<char>::empty();
        assert(db.entries()[i].0.len() > 0);
    }
}

/// A value just set is the value read back: after `k` is set to `v`, the
/// lookup of `k` yields `v`, in whichever session the lookup runs.
pub proof fn lemma_set_then_get(m: Map<Seq<char>, Seq<char>>, k: Seq<char>, v: Seq<char>)
    ensures
        lookup(m.insert(k, v), k) == v,
{
}

/// A key never set reads as the empty marker.
pub proof fn lemma_absent_reads_empty(m: Map<Seq<char>, Seq<char>>, k: Seq<char>)
    requires
        !m.contains_key(k),
    ensures
        lookup(m, k) == Seq::<char>::empty(),
{
}

/// A key just removed reads as the empty marker.
pub proof fn lemma_removed_reads_empty(m: Map<Seq<char>, Seq<char>>, k: Seq<char>)
    ensures
        lookup(m.remove(k), k) == Seq::<char>::empty(),
{
}

/// Deleting an absent key leaves the map, and with it the record count,
/// unchanged.
pub proof fn lemma_delete_absent(m: Map<Seq<char>, Seq<char>>, k: Seq<char>)
    requires
        !m.contains_key(k),
    ensures
        m.remove(k) == m,
{
    assert(m.remove(k) =~= m);
}

/// Two sessions setting the same key serialize under the store's guard: in
/// whichever order the two sets land, the map is the one the later set
/// built, the key holds that set's value, and the key occupies exactly one
/// slot of the domain either way.
pub proof fn lemma_concurrent_set_same_key(
    m: Map<Seq<char>, Seq<char>>,
    k: Seq<char>,
    v1: Seq<char>,
    v2: Seq<char>,
)
    ensures
        m.insert(k, v1).insert(k, v2) == m.insert(k, v2),
        m.insert(k, v2).insert(k, v1) == m.insert(k, v1),
        lookup(m.insert(k, v1).insert(k, v2), k) == v2,
        lookup(m.insert(k, v2).insert(k, v1), k) == v1,
        m.insert(k, v1).insert(k, v2).dom() == m.dom().insert(k),
        m.insert(k, v2).insert(k, v1).dom() == m.dom().insert(k),
{
    assert(m.insert(k, v1).insert(k, v2) =~= m.insert(k, v2));
    assert(m.insert(k, v2).insert(k, v1) =~= m.insert(k, v1));
    assert(m.insert(k, v2).dom() =~= m.dom().insert(k));
    assert(m.insert(k, v1).dom() =~= m.dom().insert(k));
}

/// Character-for-character string equality.
fn str_eq(a: &str, b: &str) -> (r: bool)
    ensures
        r == (a@ == b@),
{
    let an = a.unicode_len();
    let bn = b.unicode_len();
    if an != bn {
        return false;
    }
    let mut i: usize = 0;
    while i < an
        invariant
            0 <= i <= an,
            an == a@.len(),
            an == b@.len(),
            forall|k: int| 0 <= k < i ==> a@[k] == b@[k],
        decreases an - i,
    {
        if a.get_char(i) != b.get_char(i) {
            return false;
        }
        i = i + 1;
    }
    proof {
        assert(a@ =~= b@);
    }
    true
}

} // verus!
