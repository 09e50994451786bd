//! Read-only association maps for the rank table.
//!
//! The tokenizer keys its tables by byte sequences and by ranks. Both tables
//! are held as plain entry vectors with pairwise-distinct keys, so every
//! lookup is fully specified against a mathematical `Map` view.

use vstd::prelude::*;

verus! {

/// The map denoted by a sequence of key/value pairs; later entries win.
pub open spec fn map_of_pairs<K, V>(s: Seq<(K, V)>) -> Map<K, V>
    decreases s.len(),
{
    if s.len() == 0 {
        Map::empty()
    } else {
        map_of_pairs(s.drop_last()).insert(s.last().0, s.last().1)
    }
}

/// No two entries of `s` share a key.
pub open spec fn keys_unique<K, V>(s: Seq<(K, V)>) -> bool {
    forall|i: int, j: int| 0 <= i < j < s.len() ==> s[i].0 != s[j].0
}

/// With pairwise-distinct keys, `map_of_pairs` contains exactly the entries
/// of `s`, and its domain is as large as `s`.
pub proof fn lemma_map_of_pairs<K, V>(s: Seq<(K, V)>)
    requires
        keys_unique(s),
    ensures
        forall|k: K| map_of_pairs(s).contains_key(k) <==> exists|i: int|
            0 <= i < s.len() && s[i].0 == k,
        forall|i: int| 0 <= i < s.len() ==> map_of_pairs(s).contains_key(#[trigger] s[i].0)
            && map_of_pairs(s)[s[i].0] == s[i].1,
        map_of_pairs(s).dom().finite(),
        map_of_pairs(s).dom().len() == s.len(),
    decreases s.len(),
{
    if s.len() == 0 {
    } else {
        let pre = s.drop_last();
        lemma_map_of_pairs(pre);
        assert(forall|i: int| 0 <= i < pre.len() ==> pre[i] == s[i]);
        let last = s.last();
        assert(!map_of_pairs(pre).contains_key(last.0)) by {
            if map_of_pairs(pre).contains_key(last.0) {
                let i = choose|i: int| 0 <= i < pre.len() && pre[i].0 == last.0;
                assert(s[i].0 == s[s.len() - 1].0);
            }
        }
        assert(forall|i: int| 0 <= i < s.len() - 1 ==> map_of_pairs(s).contains_key(
            #[trigger] s[i].0,
        ) && map_of_pairs(s)[s[i].0] == s[i].1) by {
            assert forall|i: int| 0 <= i < s.len() - 1 implies map_of_pairs(s).contains_key(
                #[trigger] s[i].0,
            ) && map_of_pairs(s)[s[i].0] == s[i].1 by {
                assert(pre[i] == s[i]);
                assert(s[i].0 != last.0);
            }
        }
    }
}

/// Equality of two byte slices, decided element by element.
pub fn bytes_eq(a: &[u8], b: &[u8]) -> (r: bool)
    ensures
        r == (a@ == b@),
{
    if a.len() != b.len() {
        assert(a@ != b@) by {
            assert(a@.len() != b@.len());
        }
        return false;
    }
    let n = a.len();
    let mut i: usize = 0;
    while i < n
        invariant
            n == a@.len() == b@.len(),
            0 <= i <= n,
            forall|j: int| 0 <= j < i ==> a@[j] == b@[j],
        decreases n - i,
    {
        if a[i] != b[i] {
            return false;
        }
        i += 1;
    }
    assert(a@ =~= b@);
    true
}

/// The encoder side of the rank table: byte sequence to rank. Entries keep
/// pairwise-distinct keys, so the table denotes the `Map` given by its view.
pub struct RankMap {
    entries: Vec<(Vec<u8>, u32)>,
}

impl View for RankMap {
    type V = Map<Seq<u8>, u32>;

    closed spec fn view(&self) -> Map<Seq<u8>, u32> {
        map_of_pairs(self.entries_seq())
    }
}

impl RankMap {
    /// The entry list, with each key read as a byte sequence.
    pub closed spec fn entries_seq(&self) -> Seq<(Seq<u8>, u32)> {
        self.entries@.map_values(|e: (Vec<u8>, u32)| (e.0@, e.1))
    }

    /// The entry keys are pairwise distinct.
    pub open spec fn wf(&self) -> bool {
        keys_unique(self.entries_seq())
    }

    /// The stated facts of `lemma_map_of_pairs`, for this map's own entries.
    pub proof fn lemma_entries(&self)
        requires
            self.wf(),
        ensures
            forall|k: Seq<u8>| self@.contains_key(k) <==> exists|i: int|
                0 <= i < self.entries_seq().len() && self.entries_seq()[i].0 == k,
            forall|i: int| 0 <= i < self.entries_seq().len() ==> self@.contains_key(
                #[trigger] self.entries_seq()[i].0,
            ) && self@[self.entries_seq()[i].0] == self.entries_seq()[i].1,
            self@.dom().finite(),
            self@.dom().len() == self.entries_seq().len(),
    {
        lemma_map_of_pairs(self.entries_seq());
    }

    /// An empty table.
    pub fn new() -> (r: RankMap)
        ensures
            r.wf(),
            r@ == Map::<Seq<u8>, u32>::empty(),
            r.entries_seq() == Seq::<(Seq<u8>, u32)>::empty(),
    {
        RankMap { entries: Vec::new() }
    }

    /// How many entries the table holds.
    pub fn len(&self) -> (r: usize)
        requires
            self.wf(),
        ensures
            r == self.entries_seq().len(),
            r == self@.dom().len(),
    {
        proof {
            self.lemma_entries();
        }
        self.entries.len()
    }

    /// Bind `key` to `rank`, replacing any earlier binding of the same key.
    pub fn insert(&mut self, key: Vec<u8>, rank: u32)
        requires
            old(self).wf(),
        ensures
            final(self).wf(),
            final(self)@ == old(self)@.insert(key@, rank),
    {
        let n = self.entries.len();
        let mut i: usize = 0;
        while i < n
            invariant
                self == old(self),
                old(self).wf(),
                n == self.entries@.len(),
                0 <= i <= n,
                forall|j: int| 0 <= j < i ==> self.entries_seq()[j].0 != key@,
            decreases n - i,
        {
            if bytes_eq(self.entries[i].0.as_slice(), key.as_slice()) {
                self.entries[i] = (key, rank);
                proof {
                    lemma_replace_entry(old(self).entries_seq(), i as int, key@, rank);
                    assert(self.entries_seq() =~= old(self).entries_seq().update(
                        i as int,
                        (key@, rank),
                    ));
                }
                return ;
            }
            i += 1;
        }
        self.entries.push((key, rank));
        proof {
            assert(self.entries_seq() =~= old(self).entries_seq().push((key@, rank)));
            lemma_push_entry(old(self).entries_seq(), key@, rank);
        }
    }

    /// The rank bound to `key`, if the table holds one.
    pub fn get(&self, key: &[u8]) -> (r: Option<u32>)
        requires
            self.wf(),
        ensures
            r == if self@.contains_key(key@) {
                Some(self@[key@])
            } else {
                None::<u32>
            },
    {
        proof {
            self.lemma_entries();
        }
        let n = self.entries.len();
        let mut i: usize = 0;
        while i < n
            invariant
                self.wf(),
                n == self.entries_seq().len(),
                0 <= i <= n,
                forall|j: int| 0 <= j < i ==> self.entries_seq()[j].0 != key@,
            decreases n - i,
        {
            if bytes_eq(self.entries[i].0.as_slice(), key) {
                proof {
                    self.lemma_entries();
                    assert(self.entries_seq()[i as int].0 == key@);
                    assert(self@[self.entries_seq()[i as int].0] == self.entries_seq()[
                        i as int
                    ].1);
                }
                return Some(self.entries[i].1);
            }
            i += 1;
        }
        proof {
            if self@.contains_key(key@) {
                let i = choose|i: int|
                    0 <= i < self.entries_seq().len() && self.entries_seq()[i].0 == key@;
            }
        }
        None
    }

    /// The key of entry `i`.
    pub fn key_at(&self, i: usize) -> (r: &Vec<u8>)
        requires
            i < self.entries_seq().len(),
        ensures
            r@ == self.entries_seq()[i as int].0,
    {
        &self.entries[i].0
    }

    /// The rank of entry `i`.
    pub fn rank_at(&self, i: usize) -> (r: u32)
        requires
            i < self.entries_seq().len(),
        ensures
            r == self.entries_seq()[i as int].1,
    {
        self.entries[i].1
    }
}

/// Replacing the entry whose key is `key` keeps the map denotation equal to
/// inserting `key` anew, and keeps the keys distinct, provided no other entry
/// holds `key`.
proof fn lemma_replace_entry<K, V>(s: Seq<(K, V)>, i: int, key: K, v: V)
    requires
        keys_unique(s),
        0 <= i < s.len(),
        s[i].0 == key,
        forall|j: int| 0 <= j < i ==> s[j].0 != key,
    ensures
        keys_unique(s.update(i, (key, v))),
        map_of_pairs(s.update(i, (key, v))) == map_of_pairs(s).insert(key, v),
{
    let t = s.update(i, (key, v));
    assert(keys_unique(t)) by {
        assert forall|p: int, q: int| 0 <= p < q < t.len() implies t[p].0 != t[q].0 by {
            assert(s[p].0 != s[q].0);
        }
    }
    lemma_map_of_pairs(s);
    lemma_map_of_pairs(t);
    assert(map_of_pairs(t) =~= map_of_pairs(s).insert(key, v)) by {
        assert forall|k: K| #![all_triggers] true implies (map_of_pairs(t).contains_key(k)
            <==> map_of_pairs(s).insert(key, v).contains_key(k)) && (map_of_pairs(
            t,
        ).contains_key(k) ==> map_of_pairs(t)[k] == map_of_pairs(s).insert(key, v)[k]) by {
            if map_of_pairs(t).contains_key(k) {
                let p = choose|p: int| 0 <= p < t.len() && t[p].0 == k;
                if p == i {
                    assert(map_of_pairs(t)[k] == v);
                } else {
                    assert(s[p] == t[p]);
                    assert(k != key) by {
                        if k == key {
                            assert(t[p].0 == t[i].0);
                        }
                    }
                }
            }
            if map_of_pairs(s).insert(key, v).contains_key(k) {
                if k == key {
                    assert(t[i].0 == k);
                } else {
                    let p = choose|p: int| 0 <= p < s.len() && s[p].0 == k;
                    assert(t[p].0 == k);
                }
            }
        }
    }
}

/// Appending an entry with a fresh key keeps the keys distinct.
proof fn lemma_push_entry<K, V>(s: Seq<(K, V)>, key: K, v: V)
    requires
        keys_unique(s),
        forall|j: int| 0 <= j < s.len() ==> s[j].0 != key,
    ensures
        keys_unique(s.push((key, v))),
        map_of_pairs(s.push((key, v))) == map_of_pairs(s).insert(key, v),
{
    let t = s.push((key, v));
    assert(keys_unique(t)) by {
        assert forall|p: int, q: int| 0 <= p < q < t.len() implies t[p].0 != t[q].0 by {
            if q < t.len() - 1 {
                assert(s[p].0 != s[q].0);
            } else {
                assert(t[p].0 == s[p].0);
            }
        }
    }
    assert(t.drop_last() =~= s);
}

/// The decoder side of the rank table: rank to byte sequence. Entries keep
/// pairwise-distinct ranks, so the table denotes the `Map` given by its view.
pub struct RankToBytesMap {
    entries: Vec<(u32, Vec<u8>)>,
}

impl View for RankToBytesMap {
    type V = Map<u32, Seq<u8>>;

    closed spec fn view(&self) -> Map<u32, Seq<u8>> {
        map_of_pairs(self.entries_seq())
    }
}

impl RankToBytesMap {
    /// The entry list, with each value read as a byte sequence.
    pub closed spec fn entries_seq(&self) -> Seq<(u32, Seq<u8>)> {
        self.entries@.map_values(|e: (u32, Vec<u8>)| (e.0, e.1@))
    }

    /// The entry ranks are pairwise distinct.
    pub open spec fn wf(&self) -> bool {
        keys_unique(self.entries_seq())
    }

    /// The stated facts of `lemma_map_of_pairs`, for this map's own entries.
    pub proof fn lemma_entries(&self)
        requires
            self.wf(),
        ensures
            forall|k: u32| self@.contains_key(k) <==> exists|i: int|
                0 <= i < self.entries_seq().len() && self.entries_seq()[i].0 == k,
            forall|i: int| 0 <= i < self.entries_seq().len() ==> self@.contains_key(
                #[trigger] self.entries_seq()[i].0,
            ) && self@[self.entries_seq()[i].0] == self.entries_seq()[i].1,
            self@.dom().finite(),
            self@.dom().len() == self.entries_seq().len(),
    {
        lemma_map_of_pairs(self.entries_seq());
    }

    /// An empty table.
    pub fn new() -> (r: RankToBytesMap)
        ensures
            r.wf(),
            r@ == Map::<u32, Seq<u8>>::empty(),
    {
        RankToBytesMap { entries: Vec::new() }
    }

    /// How many entries the table holds.
    pub fn len(&self) -> (r: usize)
        requires
            self.wf(),
        ensures
            r == self.entries_seq().len(),
            r == self@.dom().len(),
    {
        proof {
            self.lemma_entries();
        }
        self.entries.len()
    }

    /// Whether some entry carries `rank`.
    pub fn contains(&self, rank: u32) -> (r: bool)
        requires
            self.wf(),
        ensures
            r == self@.contains_key(rank),
    {
        proof {
            self.lemma_entries();
        }
        let n = self.entries.len();
        let mut i: usize = 0;
        while i < n
            invariant
                self.wf(),
                n == self.entries_seq().len(),
                0 <= i <= n,
                forall|j: int| 0 <= j < i ==> self.entries_seq()[j].0 != rank,
            decreases n - i,
        {
            if self.entries[i].0 == rank {
                proof {
                    self.lemma_entries();
                    assert(self.entries_seq()[i as int].0 == rank);
                    assert(self@.contains_key(self.entries_seq()[i as int].0));
                }
                return true;
            }
            i += 1;
        }
        proof {
            if self@.contains_key(rank) {
                let i = choose|i: int|
                    0 <= i < self.entries_seq().len() && self.entries_seq()[i].0 == rank;
            }
        }
        false
    }

    /// Bind `rank` to `bytes`, replacing any earlier binding of the same rank.
    pub fn insert(&mut self, rank: u32, bytes: Vec<u8>)
        requires
            old(self).wf(),
        ensures
            final(self).wf(),
            final(self)@ == old(self)@.insert(rank, bytes@),
    {
        let n = self.entries.len();
        let mut i: usize = 0;
        while i < n
            invariant
                self == old(self),
                old(self).wf(),
                n == self.entries@.len(),
                0 <= i <= n,
                forall|j: int| 0 <= j < i ==> self.entries_seq()[j].0 != rank,
            decreases n - i,
        {
            if self.entries[i].0 == rank {
                self.entries[i] = (rank, bytes);
                proof {
                    lemma_replace_entry(old(self).entries_seq(), i as int, rank, bytes@);
                    assert(self.entries_seq() =~= old(self).entries_seq().update(
                        i as int,
                        (rank, bytes@),
                    ));
                }
                return ;
            }
            i += 1;
        }
        self.entries.push((rank, bytes));
        proof {
            assert(self.entries_seq() =~= old(self).entries_seq().push((rank, bytes@)));
            lemma_push_entry(old(self).entries_seq(), rank, bytes@);
        }
    }

    /// The byte sequence bound to `rank`, if the table holds one.
    pub fn get(&self, rank: u32) -> (r: Option<&Vec<u8>>)
        requires
            self.wf(),
        ensures
            match r {
                Some(v) => self@.contains_key(rank) && v@ == self@[rank],
                None => !self@.contains_key(rank),
            },
    {
        proof {
            self.lemma_entries();
        }
        let n = self.entries.len();
        let mut i: usize = 0;
        while i < n
            invariant
                self.wf(),
                n == self.entries_seq().len(),
                0 <= i <= n,
                forall|j: int| 0 <= j < i ==> self.entries_seq()[j].0 != rank,
            decreases n - i,
        {
            if self.entries[i].0 == rank {
                proof {
                    self.lemma_entries();
                    assert(self@[self.entries_seq()[i as int].0] == self.entries_seq()[
                        i as int
                    ].1);
                }
                return Some(&self.entries[i].1);
            }
            i += 1;
        }
        proof {
            if self@.contains_key(rank) {
                let i = choose|i: int|
                    0 <= i < self.entries_seq().len() && self.entries_seq()[i].0 == rank;
            }
        }
        None
    }
}

} // verus!
