//! The two-level fingerprint index: bucket key, then fingerprint hash, then
//! the set of clade ids the fingerprint was seen under.
use std::collections::HashMap;
use std::collections::HashSet;
use vstd::prelude::*;
use vstd::std_specs::iter::IteratorSpec;
use crate::codec::bucket_of;
use crate::codec::chars_of;
use crate::codec::fingerprints_view;
use crate::codec::hash_kmer;
use crate::codec::kmer_hash;
use crate::codec::slice_chars;
use crate::codec::string_from_chars;

verus! {

broadcast use vstd::std_specs::hash::group_hash_axioms;

/// `set` with the ids of `other` added.
pub fn extend_set(set: &mut HashSet<u64>, other: &HashSet<u64>)
    ensures
        final(set)@ == old(set)@.union(other@),
{
    let ghost start = set@;
    assert(other.iter().remaining().unref().to_set() == other@);
    for x in it: other.iter()
        invariant
            it.seq().unref().to_set() == other@,
            set@ == start.union(it.seq().unref().take(it.index() as int).to_set()),
            it.index() == it.seq().len() ==> set@ == start.union(other@),
    {
        let ghost before = it.seq().unref().take(it.index() as int);
        set.insert(*x);
        assert(it.seq().unref().take(it.index() + 1) =~= before.push(*x));
        assert(before.push(*x).to_set() =~= before.to_set().insert(*x)) by {
            assert forall|y: u64| #[trigger] before.push(*x).contains(y) implies before.contains(y) || y == *x by {
                let j = choose|j: int| 0 <= j < before.len() + 1 && before.push(*x)[j] == y;
                if j < before.len() {
                    assert(before[j] == y);
                }
            }
            assert forall|y: u64| before.contains(y) implies #[trigger] before.push(*x).contains(y) by {
                let j = choose|j: int| 0 <= j < before.len() && before[j] == y;
                assert(before.push(*x)[j] == y);
            }
            assert(before.push(*x)[before.len() as int] == *x);
        }
        assert(set@ =~= start.union(before.push(*x).to_set()));
        assert(it.seq().unref().take(it.seq().len() as int) == it.seq().unref());
    }
}


/// The ids of `a` that are not in `b`.
pub fn difference(a: &HashSet<u64>, b: &HashSet<u64>) -> (r: HashSet<u64>)
    ensures
        r@ == a@.difference(b@),
{
    let mut out: HashSet<u64> = HashSet::new();
    assert(a.iter().remaining().unref().to_set() == a@);
    for x in it: a.iter()
        invariant
            it.seq().unref().to_set() == a@,
            forall|y: u64|
                #[trigger] out@.contains(y) <==> !b@.contains(y) && it.seq().unref().take(
                    it.index() as int,
                ).contains(y),
            it.index() == it.seq().len() ==> out@ == a@.difference(b@),
    {
        let ghost before = it.seq().unref().take(it.index() as int);
        if !b.contains(x) {
            out.insert(*x);
        }
        assert(it.seq().unref().take(it.index() + 1) =~= before.push(*x));
        assert forall|y: u64| #[trigger] before.push(*x).contains(y) <==> before.contains(y) || y == *x by {
            if before.push(*x).contains(y) {
                let j = choose|j: int| 0 <= j < before.len() + 1 && before.push(*x)[j] == y;
                if j < before.len() {
                    assert(before[j] == y);
                }
            }
            if before.contains(y) {
                let j = choose|j: int| 0 <= j < before.len() && before[j] == y;
                assert(before.push(*x)[j] == y);
            }
            assert(before.push(*x)[before.len() as int] == *x);
        }
        assert(it.seq().unref().take(it.seq().len() as int) == it.seq().unref());
        assert(it.index() + 1 == it.seq().len() ==> out@ =~= a@.difference(b@));
    }
    out
}

/// The view of an index: bucket key, then fingerprint hash, then clade ids.
pub type IndexMap = Map<u64, Map<u64, Set<u64>>>;

/// A bucket after `nodes` is merged under fingerprint `h`: the union with the
/// ids already there, or a new entry.
pub open spec fn merge_entry(m: Map<u64, Set<u64>>, h: u64, nodes: Set<u64>) -> Map<u64, Set<u64>> {
    if m.contains_key(h) {
        m.insert(h, m[h].union(nodes))
    } else {
        m.insert(h, nodes)
    }
}

/// An index after `nodes` is merged under fingerprint `h` of bucket `b`; the
/// bucket is created when missing.
pub open spec fn insert_fingerprint(idx: IndexMap, b: u64, h: u64, nodes: Set<u64>) -> IndexMap {
    let bucket = if idx.contains_key(b) {
        idx[b]
    } else {
        Map::empty()
    };
    idx.insert(b, merge_entry(bucket, h, nodes))
}

/// The fingerprints of one bucket tagged with `node`.
pub open spec fn bucket_hashes_with_node(m: Map<u64, Set<u64>>, node: u64) -> Set<u64> {
    Set::new(|h: u64| m.contains_key(h) && m[h].contains(node))
}

/// The fingerprints of an index tagged with `node`, in any bucket.
pub open spec fn hashes_with_node(idx: IndexMap, node: u64) -> Set<u64> {
    Set::new(
        |h: u64|
            exists|b: u64|
                idx.contains_key(b) && #[trigger] idx[b].contains_key(h) && idx[b][h].contains(node),
    )
}

/// Every fingerprint of an index, in any bucket.
pub open spec fn all_hashes(idx: IndexMap) -> Set<u64> {
    Set::new(|h: u64| exists|b: u64| idx.contains_key(b) && #[trigger] idx[b].contains_key(h))
}

/// Whether bucket `b` holds a fingerprint of `hs`.
pub open spec fn bucket_meets(idx: IndexMap, b: u64, hs: Set<u64>) -> bool {
    exists|h: u64| #[trigger] idx[b].contains_key(h) && hs.contains(h)
}

/// The index cut down to the buckets whose key is in `keys`, each unchanged.
pub open spec fn restrict_buckets(idx: IndexMap, keys: Set<u64>) -> IndexMap {
    idx.restrict(keys)
}

/// The index cut down to the fingerprints of `hs`; buckets left empty are
/// dropped.
pub open spec fn restrict_hashes(idx: IndexMap, hs: Set<u64>) -> IndexMap {
    Map::new(
        |b: u64| idx.contains_key(b) && bucket_meets(idx, b, hs),
        |b: u64| idx[b].restrict(hs),
    )
}

/// For each bucket, the fingerprints that `sel` names for it; buckets left
/// empty, or that `sel` does not name, are dropped.
pub open spec fn restrict_by_bucket(idx: IndexMap, sel: Map<u64, Set<u64>>) -> IndexMap {
    Map::new(
        |b: u64| idx.contains_key(b) && sel.contains_key(b) && bucket_meets(idx, b, sel[b]),
        |b: u64| idx[b].restrict(sel[b]),
    )
}

/// For each bucket holding a fingerprint tagged with `node`, those
/// fingerprints.
pub open spec fn node_hashes_by_bucket(idx: IndexMap, node: u64) -> Map<u64, Set<u64>> {
    Map::new(
        |b: u64| idx.contains_key(b) && bucket_hashes_with_node(idx[b], node) != Set::<u64>::empty(),
        |b: u64| bucket_hashes_with_node(idx[b], node),
    )
}

/// The view of a map from fingerprint to set of ids.
pub open spec fn entries_view(m: Map<u64, HashSet<u64>>) -> Map<u64, Set<u64>> {
    m.map_values(|s: HashSet<u64>| s@)
}

/// A copy of a set of ids.
pub fn copy_set(s: &HashSet<u64>) -> (r: HashSet<u64>)
    ensures
        r@ == s@,
{
    let mut r: HashSet<u64> = HashSet::new();
    extend_set(&mut r, s);
    assert(r@ =~= s@);
    r
}

/// One bucket: fingerprint hash to the set of clade ids it was seen under.
#[derive(Debug)]
pub struct MinimizerValue(pub HashMap<u64, HashSet<u64>>);

impl View for MinimizerValue {
    type V = Map<u64, Set<u64>>;

    open spec fn view(&self) -> Map<u64, Set<u64>> {
        entries_view(self.0@)
    }
}

impl MinimizerValue {
    /// An empty bucket.
    pub fn new() -> (r: Self)
        ensures
            r@ == Map::<u64, Set<u64>>::empty(),
    {
        let r = MinimizerValue(HashMap::new());
        assert(r@ =~= Map::<u64, Set<u64>>::empty());
        r
    }

    /// Merges `nodes` under `kmer`; true when `kmer` was not there before.
    pub fn insert_or_append(&mut self, kmer: u64, nodes: HashSet<u64>) -> (r: bool)
        ensures
            r == !old(self)@.contains_key(kmer),
            final(self)@ == merge_entry(old(self)@, kmer, nodes@),
    {
        match self.0.remove(&kmer) {
            Some(mut set) => {
                extend_set(&mut set, &nodes);
                self.0.insert(kmer, set);
                assert(self@ =~= merge_entry(old(self)@, kmer, nodes@));
                false
            },
            None => {
                self.0.insert(kmer, nodes);
                assert(self@ =~= merge_entry(old(self)@, kmer, nodes@));
                true
            },
        }
    }

    /// The fingerprints of this bucket tagged with `node`, or `None` when
    /// there is none.
    pub fn get_hashed_kmers_with_node(&self, node: u64) -> (r: Option<HashSet<u64>>)
        ensures
            match r {
                Some(s) => s@ == bucket_hashes_with_node(self@, node) && s@ != Set::<u64>::empty(),
                None => bucket_hashes_with_node(self@, node) == Set::<u64>::empty(),
            },
    {
        let mut out: HashSet<u64> = HashSet::new();
        let ghost m = self.0@;
        for entry in it: self.0.iter()
            invariant
                m == self.0@,
                forall|j: int|
                    0 <= j < it.seq().len() ==> #[trigger] m.contains_key(*it.seq()[j].0) && m[*it.seq()[j].0]
                        == *it.seq()[j].1,
                forall|k: u64| #[trigger]
                    m.contains_key(k) ==> exists|j: int| 0 <= j < it.seq().len() && *it.seq()[j].0 == k,
                forall|h: u64|
                    out@.contains(h) <==> exists|j: int|
                        0 <= j < it.index() && *it.seq()[j].0 == h && (*it.seq()[j].1)@.contains(node),
                it.index() == it.seq().len() ==> out@ == bucket_hashes_with_node(self@, node),
        {
            let (h, nodes) = entry;
            if nodes.contains(&node) {
                out.insert(*h);
            }
            assert forall|x: u64| out@.contains(x) <==> exists|j: int|
                0 <= j < it.index() + 1 && *it.seq()[j].0 == x && (*it.seq()[j].1)@.contains(node) by {
                if exists|j: int|
                    0 <= j < it.index() + 1 && *it.seq()[j].0 == x && (*it.seq()[j].1)@.contains(node) {
                    let j = choose|j: int|
                        0 <= j < it.index() + 1 && *it.seq()[j].0 == x && (*it.seq()[j].1)@.contains(node);
                    if j < it.index() {
                    }
                }
            }
            assert forall|x: u64|
                it.index() + 1 == it.seq().len() && #[trigger] m.contains_key(x) implies (out@.contains(x)
                <==> m[x]@.contains(node)) by {
                let j = choose|j: int| 0 <= j < it.seq().len() && *it.seq()[j].0 == x;
                assert(m[*it.seq()[j].0] == *it.seq()[j].1);
            }
            assert(it.index() + 1 == it.seq().len() ==> out@ =~= bucket_hashes_with_node(self@, node));
        }
        if out.is_empty() {
            None
        } else {
            Some(out)
        }
    }
}

/// Whether `s` lists exactly the entries of `m`.
pub open spec fn lists<V>(m: Map<u64, V>, s: Seq<(u64, V)>) -> bool {
    &&& forall|j: int| 0 <= j < s.len() ==> #[trigger] m.contains_key(s[j].0) && m[s[j].0] == s[j].1
    &&& forall|k: u64| #[trigger] m.contains_key(k) ==> exists|j: int| 0 <= j < s.len() && s[j].0 == k
}

/// The iterator of a hash map lists its entries.
pub proof fn lemma_iter_lists<V>(m: &HashMap<u64, V>)
    ensures
        lists(m@, vstd::std_specs::hash::spec_hash_map_iter(m).remaining().unref()),
{
    let v = vstd::std_specs::hash::spec_hash_map_iter(m).remaining();
    assert(v.len() == m@.dom().len());
    assert forall|j: int| 0 <= j < v.unref().len() implies #[trigger] m@.contains_key(v.unref()[j].0)
        && m@[v.unref()[j].0] == v.unref()[j].1 by {
        assert(m@.contains_key(*v[j].0));
    }
    assert forall|k: u64| #[trigger] m@.contains_key(k) implies exists|j: int|
        0 <= j < v.unref().len() && v.unref()[j].0 == k by {
        assert(v.contains((&k, &m@[k])));
        let j = choose|j: int| 0 <= j < v.len() && v[j] == (&k, &m@[k]);
        assert(v.unref()[j].0 == k);
    }
}

impl MinimizerValue {
    /// The bucket cut down to the fingerprints of `kmers`.
    pub fn get_overlapping_hashed_kmers(&self, kmers: &HashSet<u64>) -> (r: Self)
        ensures
            r@ == self@.restrict(kmers@),
    {
        let mut out: HashMap<u64, HashSet<u64>> = HashMap::new();
        let ghost m = self.0@;
        let entries = self.0.iter();
        proof {
            lemma_iter_lists(&self.0);
        }
        for entry in it: entries
            invariant
                m == self.0@,
                lists(m, it.seq().unref()),
                forall|h: u64|
                    #[trigger] out@.contains_key(h) <==> kmers@.contains(h) && exists|j: int|
                        0 <= j < it.index() && it.seq().unref()[j].0 == h,
                forall|h: u64| #[trigger] out@.contains_key(h) ==> out@[h]@ == m[h]@,
                it.index() == it.seq().len() ==> entries_view(out@) == self@.restrict(kmers@),
        {
            let (h, nodes) = entry;
            assert(it.seq().unref()[it.index()] == (*h, *nodes));
            assert(m.contains_key(it.seq().unref()[it.index()].0));
            assert(m.contains_key(*h) && m[*h] == *nodes);
            if kmers.contains(h) {
                let copy = copy_set(nodes);
                out.insert(*h, copy);
            }
            assert forall|x: u64|
                #[trigger] out@.contains_key(x) <==> kmers@.contains(x) && exists|j: int|
                    0 <= j < it.index() + 1 && it.seq().unref()[j].0 == x by {
                if kmers@.contains(x) && exists|j: int| 0 <= j < it.index() + 1 && it.seq().unref()[j].0 == x {
                    let j = choose|j: int| 0 <= j < it.index() + 1 && it.seq().unref()[j].0 == x;
                    if j < it.index() {
                    }
                }
            }
            assert(it.index() + 1 == it.seq().len() ==> entries_view(out@) =~= self@.restrict(kmers@));
        }
        MinimizerValue(out)
    }

    /// The ids stored under `kmer`.
    pub fn get(&self, kmer: u64) -> (r: Option<&HashSet<u64>>)
        ensures
            match r {
                Some(s) => self@.contains_key(kmer) && s@ == self@[kmer],
                None => !self@.contains_key(kmer),
            },
    {
        self.0.get(&kmer)
    }
}

impl MinimizerValue {
    /// A copy of the bucket.
    pub fn duplicate(&self) -> (r: Self)
        ensures
            r@ == self@,
    {
        let mut out: HashMap<u64, HashSet<u64>> = HashMap::new();
        let ghost m = self.0@;
        let entries = self.0.iter();
        proof {
            lemma_iter_lists(&self.0);
        }
        for entry in it: entries
            invariant
                m == self.0@,
                lists(m, it.seq().unref()),
                forall|h: u64|
                    #[trigger] out@.contains_key(h) <==> exists|j: int|
                        0 <= j < it.index() && it.seq().unref()[j].0 == h,
                forall|h: u64| #[trigger] out@.contains_key(h) ==> out@[h]@ == m[h]@,
                it.index() == it.seq().len() ==> entries_view(out@) == self@,
        {
            let (h, nodes) = entry;
            assert(it.seq().unref()[it.index()] == (*h, *nodes));
            assert(m.contains_key(it.seq().unref()[it.index()].0));
            let copy = copy_set(nodes);
            out.insert(*h, copy);
            assert forall|x: u64|
                #[trigger] out@.contains_key(x) <==> exists|j: int|
                    0 <= j < it.index() + 1 && it.seq().unref()[j].0 == x by {
                if exists|j: int| 0 <= j < it.index() + 1 && it.seq().unref()[j].0 == x {
                    let j = choose|j: int| 0 <= j < it.index() + 1 && it.seq().unref()[j].0 == x;
                    if j < it.index() {
                    }
                }
            }
            assert(it.index() + 1 == it.seq().len() ==> entries_view(out@) =~= self@);
        }
        MinimizerValue(out)
    }

    /// The fingerprints of the bucket.
    pub fn hashes(&self) -> (r: HashSet<u64>)
        ensures
            r@ == self@.dom(),
    {
        let mut out: HashSet<u64> = HashSet::new();
        let ghost m = self.0@;
        let entries = self.0.iter();
        proof {
            lemma_iter_lists(&self.0);
        }
        for entry in it: entries
            invariant
                m == self.0@,
                lists(m, it.seq().unref()),
                forall|h: u64|
                    #[trigger] out@.contains(h) <==> exists|j: int|
                        0 <= j < it.index() && it.seq().unref()[j].0 == h,
                it.index() == it.seq().len() ==> out@ == self@.dom(),
        {
            let (h, nodes) = entry;
            assert(it.seq().unref()[it.index()] == (*h, *nodes));
            assert(m.contains_key(it.seq().unref()[it.index()].0));
            out.insert(*h);
            assert forall|x: u64|
                #[trigger] out@.contains(x) <==> exists|j: int|
                    0 <= j < it.index() + 1 && it.seq().unref()[j].0 == x by {
                if exists|j: int| 0 <= j < it.index() + 1 && it.seq().unref()[j].0 == x {
                    let j = choose|j: int| 0 <= j < it.index() + 1 && it.seq().unref()[j].0 == x;
                    if j < it.index() {
                    }
                }
            }
            assert(it.index() + 1 == it.seq().len() ==> out@ =~= self@.dom());
        }
        out
    }
}

/// The key of a bucket of the index.
#[derive(Clone, Copy, Debug, PartialEq, Eq, Structural, Hash)]
pub struct MinimizerKey(pub u64);

impl MinimizerKey {
    /// The key of the bucket of a window: the hash of its first `size`
    /// characters (all of them when it is shorter).
    pub fn build_minimizer_from_string(kmer: &str, size: u64) -> (r: Self)
        ensures
            r.0 == (if size as int <= kmer@.len() {
                kmer_hash(kmer@.take(size as int))
            } else {
                kmer_hash(kmer@)
            }),
    {
        let chars = chars_of(kmer);
        let end: usize = if (chars.len() as u64) < size {
            chars.len()
        } else {
            size as usize
        };
        let prefix = slice_chars(&chars, 0, end);
        let text = string_from_chars(&prefix);
        assert(chars@.take(chars.len() as int) == chars@);
        MinimizerKey(hash_kmer(text.as_str()))
    }
}

/// The index of fingerprints: bucket key, then fingerprint hash, then the set
/// of clade ids the fingerprint was seen under; with the window size of the
/// fingerprints and of their buckets.
#[derive(Debug)]
pub struct KmersMap {
    k_size: u64,
    m_size: u64,
    map: HashMap<u64, MinimizerValue>,
}

impl View for KmersMap {
    type V = IndexMap;

    closed spec fn view(&self) -> IndexMap {
        self.map@.map_values(|v: MinimizerValue| v@)
    }
}

impl KmersMap {
    /// The window size of the fingerprints.
    pub closed spec fn kmer_size(&self) -> u64 {
        self.k_size
    }

    /// The window size of the bucket keys.
    pub closed spec fn minimizer_size(&self) -> u64 {
        self.m_size
    }

    /// An empty index.
    pub fn new(k_size: u64, m_size: u64) -> (r: Self)
        ensures
            r@ == IndexMap::empty(),
            r.kmer_size() == k_size,
            r.minimizer_size() == m_size,
    {
        let r = KmersMap { k_size, m_size, map: HashMap::new() };
        assert(r@ =~= IndexMap::empty());
        r
    }

    /// An index of the given buckets.
    pub fn from_buckets(k_size: u64, m_size: u64, map: HashMap<u64, MinimizerValue>) -> (r: Self)
        ensures
            r@ == map@.map_values(|v: MinimizerValue| v@),
            r.kmer_size() == k_size,
            r.minimizer_size() == m_size,
    {
        KmersMap { k_size, m_size, map }
    }

    /// The buckets of the index.
    pub fn get_map(&self) -> (r: &HashMap<u64, MinimizerValue>)
        ensures
            r@.map_values(|v: MinimizerValue| v@) == self@,
    {
        &self.map
    }

    /// The window size of the fingerprints.
    pub fn get_kmer_size(&self) -> (r: u64)
        ensures
            r == self.kmer_size(),
    {
        self.k_size
    }

    /// The window size of the bucket keys.
    pub fn get_minimizer_size(&self) -> (r: u64)
        ensures
            r == self.minimizer_size(),
    {
        self.m_size
    }

    /// The bucket key of a window.
    pub fn bucket_key(&self, kmer: &str) -> (r: u64)
        ensures
            r == bucket_of(kmer@, self.minimizer_size() as nat),
    {
        if self.m_size == 0 {
            0
        } else {
            MinimizerKey::build_minimizer_from_string(kmer, self.m_size).0
        }
    }

    /// Merges `nodes` under the fingerprint `hash` of window `kmer`, in the
    /// bucket of the window, which is created when missing. True when the
    /// fingerprint was not in that bucket before.
    pub fn insert_or_append_kmer_hash(&mut self, kmer: String, hash: u64, nodes: HashSet<u64>) -> (r: bool)
        ensures
            final(self)@ == insert_fingerprint(
                old(self)@,
                bucket_of(kmer@, old(self).minimizer_size() as nat),
                hash,
                nodes@,
            ),
            r == !(old(self)@.contains_key(bucket_of(kmer@, old(self).minimizer_size() as nat))
                && old(self)@[bucket_of(kmer@, old(self).minimizer_size() as nat)].contains_key(hash)),
            final(self).kmer_size() == old(self).kmer_size(),
            final(self).minimizer_size() == old(self).minimizer_size(),
    {
        let key = self.bucket_key(kmer.as_str());
        match self.map.remove(&key) {
            Some(mut value) => {
                let r = value.insert_or_append(hash, nodes);
                self.map.insert(key, value);
                assert(self@ =~= insert_fingerprint(old(self)@, key, hash, nodes@));
                r
            },
            None => {
                let mut value = MinimizerValue::new();
                value.insert_or_append(hash, nodes);
                self.map.insert(key, value);
                assert(self@ =~= insert_fingerprint(old(self)@, key, hash, nodes@));
                true
            },
        }
    }
}

/// The buckets of a list of fingerprints, for bucket window `m`.
pub open spec fn fingerprint_buckets(fps: Seq<(Seq<char>, u64)>, m: nat) -> Set<u64> {
    Set::new(|b: u64| exists|j: int| 0 <= j < fps.len() && bucket_of(#[trigger] fps[j].0, m) == b)
}

/// The hashes of a list of fingerprints.
pub open spec fn fingerprint_hashes(fps: Seq<(Seq<char>, u64)>) -> Set<u64> {
    Set::new(|h: u64| exists|j: int| 0 <= j < fps.len() && #[trigger] fps[j].1 == h)
}

impl KmersMap {
    /// The fingerprints tagged with `node`, in any bucket; `None` when there
    /// is none.
    pub fn get_hashed_kmers_with_node(&self, node: u64) -> (r: Option<HashSet<u64>>)
        ensures
            match r {
                Some(s) => s@ == hashes_with_node(self@, node) && s@ != Set::<u64>::empty(),
                None => hashes_with_node(self@, node) == Set::<u64>::empty(),
            },
    {
        let mut out: HashSet<u64> = HashSet::new();
        let ghost m = self.map@;
        let entries = self.map.iter();
        proof {
            lemma_iter_lists(&self.map);
        }
        for entry in it: entries
            invariant
                m == self.map@,
                lists(m, it.seq().unref()),
                forall|h: u64|
                    #[trigger] out@.contains(h) <==> exists|j: int|
                        0 <= j < it.index() && bucket_hashes_with_node(it.seq().unref()[j].1@, node).contains(h),
                it.index() == it.seq().len() ==> out@ == hashes_with_node(self@, node),
        {
            let (b, value) = entry;
            assert(it.seq().unref()[it.index()] == (*b, *value));
            assert(m.contains_key(it.seq().unref()[it.index()].0));
            let ghost before = out@;
            match value.get_hashed_kmers_with_node(node) {
                Some(set) => extend_set(&mut out, &set),
                None => {},
            }
            assert(out@ == before.union(bucket_hashes_with_node(value@, node)));
            assert forall|x: u64|
                #[trigger] out@.contains(x) <==> exists|j: int|
                    0 <= j < it.index() + 1 && bucket_hashes_with_node(it.seq().unref()[j].1@, node).contains(x) by {
                if exists|j: int|
                    0 <= j < it.index() + 1 && bucket_hashes_with_node(it.seq().unref()[j].1@, node).contains(x) {
                    let j = choose|j: int|
                        0 <= j < it.index() + 1 && bucket_hashes_with_node(it.seq().unref()[j].1@, node).contains(x);
                    if j < it.index() {
                    }
                }
            }
            assert forall|x: u64| it.index() + 1 == it.seq().len() implies (#[trigger] out@.contains(x)
                <==> hashes_with_node(self@, node).contains(x)) by {
                if hashes_with_node(self@, node).contains(x) {
                    let bb = choose|bb: u64|
                        self@.contains_key(bb) && #[trigger] self@[bb].contains_key(x) && self@[bb][x].contains(node);
                    assert(m.contains_key(bb));
                    let j = choose|j: int| 0 <= j < it.seq().unref().len() && it.seq().unref()[j].0 == bb;
                    assert(m.contains_key(it.seq().unref()[j].0));
                    assert(bucket_hashes_with_node(it.seq().unref()[j].1@, node).contains(x));
                }
                if out@.contains(x) {
                    let j = choose|j: int|
                        0 <= j < it.index() + 1 && bucket_hashes_with_node(it.seq().unref()[j].1@, node).contains(x);
                    let bb = it.seq().unref()[j].0;
                    assert(m.contains_key(it.seq().unref()[j].0));
                    assert(self@[bb].contains_key(x));
                }
            }
            assert(it.index() + 1 == it.seq().len() ==> out@ =~= hashes_with_node(self@, node));
        }
        if out.is_empty() {
            None
        } else {
            Some(out)
        }
    }
}

impl KmersMap {
    /// For each bucket holding fingerprints tagged with `node`, those
    /// fingerprints; `None` when there is none.
    pub fn get_minimized_hashes_with_node(&self, node: u64) -> (r: Option<HashMap<u64, HashSet<u64>>>)
        ensures
            match r {
                Some(sel) => entries_view(sel@) == node_hashes_by_bucket(self@, node) && !sel@.is_empty(),
                None => node_hashes_by_bucket(self@, node) == Map::<u64, Set<u64>>::empty(),
            },
    {
        let mut out: HashMap<u64, HashSet<u64>> = HashMap::new();
        let ghost m = self.map@;
        let entries = self.map.iter();
        proof {
            lemma_iter_lists(&self.map);
        }
        for entry in it: entries
            invariant
                m == self.map@,
                lists(m, it.seq().unref()),
                forall|b: u64|
                    #[trigger] out@.contains_key(b) <==> (self@.contains_key(b) && bucket_hashes_with_node(self@[b], node) != Set::<u64>::empty()) && exists|j: int|
                        0 <= j < it.index() && it.seq().unref()[j].0 == b,
                forall|b: u64| #[trigger] out@.contains_key(b) ==> out@[b]@ == bucket_hashes_with_node(self@[b], node),
                it.index() == it.seq().len() ==> entries_view(out@) == node_hashes_by_bucket(self@, node),
        {
            let (b, value) = entry;
            assert(it.seq().unref()[it.index()] == (*b, *value));
            assert(m.contains_key(it.seq().unref()[it.index()].0));
            assert(self@[*b] == value@);
            match value.get_hashed_kmers_with_node(node) {
                Some(set) => {
                    out.insert(*b, set);
                },
                None => {},
            }
            assert forall|x: u64|
                #[trigger] out@.contains_key(x) <==> (self@.contains_key(x) && bucket_hashes_with_node(self@[x], node) != Set::<u64>::empty()) && exists|j: int|
                    0 <= j < it.index() + 1 && it.seq().unref()[j].0 == x by {
                if (self@.contains_key(x) && bucket_hashes_with_node(self@[x], node) != Set::<u64>::empty()) && exists|j: int| 0 <= j < it.index() + 1 && it.seq().unref()[j].0 == x {
                    let j = choose|j: int| 0 <= j < it.index() + 1 && it.seq().unref()[j].0 == x;
                    if j < it.index() {
                    }
                }
            }
            assert(it.index() + 1 == it.seq().len() ==> entries_view(out@) =~= node_hashes_by_bucket(self@, node));
        }
        if out.is_empty() {
            assert(entries_view(out@) =~= Map::<u64, Set<u64>>::empty());
            None
        } else {
            Some(out)
        }
    }

    /// The index cut down, bucket by bucket, to the fingerprints that
    /// `hashed_kmers` names for that bucket; buckets left empty are dropped.
    pub fn get_overlapping_minimized_hashes(&self, hashed_kmers: &HashMap<u64, HashSet<u64>>) -> (r: KmersMap)
        ensures
            r@ == restrict_by_bucket(self@, entries_view(hashed_kmers@)),
            r.kmer_size() == self.kmer_size(),
            r.minimizer_size() == self.minimizer_size(),
    {
        let mut out: HashMap<u64, MinimizerValue> = HashMap::new();
        let ghost m = self.map@;
        let entries = self.map.iter();
        proof {
            lemma_iter_lists(&self.map);
        }
        for entry in it: entries
            invariant
                m == self.map@,
                lists(m, it.seq().unref()),
                forall|b: u64|
                    #[trigger] out@.contains_key(b) <==> (self@.contains_key(b) && hashed_kmers@.contains_key(b) && bucket_meets(self@, b, hashed_kmers@[b]@)) && exists|j: int|
                        0 <= j < it.index() && it.seq().unref()[j].0 == b,
                forall|b: u64| #[trigger] out@.contains_key(b) ==> out@[b]@ == self@[b].restrict(hashed_kmers@[b]@),
                it.index() == it.seq().len() ==> (|o: Map<u64, MinimizerValue>| o.map_values(|v: MinimizerValue| v@))(out@) == restrict_by_bucket(self@, entries_view(hashed_kmers@)),
        {
            let (b, value) = entry;
            assert(it.seq().unref()[it.index()] == (*b, *value));
            assert(m.contains_key(it.seq().unref()[it.index()].0));
            assert(self@[*b] == value@);
            match hashed_kmers.get(b) {
                Some(hs) => {
                    let kept = value.get_overlapping_hashed_kmers(hs);
                    assert(kept.0@.is_empty() <==> !bucket_meets(self@, *b, hs@)) by {
                        if bucket_meets(self@, *b, hs@) {
                            let h = choose|h: u64| #[trigger] self@[*b].contains_key(h) && hs@.contains(h);
                            assert(kept@.contains_key(h));
                        }
                        if !kept.0@.is_empty() {
                            let h = choose|h: u64| kept.0@.contains_key(h);
                            assert(kept@.contains_key(h));
                        }
                    }
                    if !kept.0.is_empty() {
                        out.insert(*b, kept);
                    }
                },
                None => {},
            }
            assert forall|x: u64|
                #[trigger] out@.contains_key(x) <==> (self@.contains_key(x) && hashed_kmers@.contains_key(x) && bucket_meets(self@, x, hashed_kmers@[x]@)) && exists|j: int|
                    0 <= j < it.index() + 1 && it.seq().unref()[j].0 == x by {
                if (self@.contains_key(x) && hashed_kmers@.contains_key(x) && bucket_meets(self@, x, hashed_kmers@[x]@)) && exists|j: int| 0 <= j < it.index() + 1 && it.seq().unref()[j].0 == x {
                    let j = choose|j: int| 0 <= j < it.index() + 1 && it.seq().unref()[j].0 == x;
                    if j < it.index() {
                    }
                }
            }
            assert(it.index() + 1 == it.seq().len() ==> (|o: Map<u64, MinimizerValue>| o.map_values(|v: MinimizerValue| v@))(out@) =~= restrict_by_bucket(self@, entries_view(hashed_kmers@)));
        }
        let r = KmersMap { k_size: self.k_size, m_size: self.m_size, map: out };
        r
    }

    /// The index cut down to the fingerprints of `hashes`; buckets left empty
    /// are dropped.
    pub fn get_overlapping_hashes(&self, hashes: &HashSet<u64>) -> (r: KmersMap)
        ensures
            r@ == restrict_hashes(self@, hashes@),
            r.kmer_size() == self.kmer_size(),
            r.minimizer_size() == self.minimizer_size(),
    {
        let mut out: HashMap<u64, MinimizerValue> = HashMap::new();
        let ghost m = self.map@;
        let entries = self.map.iter();
        proof {
            lemma_iter_lists(&self.map);
        }
        for entry in it: entries
            invariant
                m == self.map@,
                lists(m, it.seq().unref()),
                forall|b: u64|
                    #[trigger] out@.contains_key(b) <==> (self@.contains_key(b) && bucket_meets(self@, b, hashes@)) && exists|j: int|
                        0 <= j < it.index() && it.seq().unref()[j].0 == b,
                forall|b: u64| #[trigger] out@.contains_key(b) ==> out@[b]@ == self@[b].restrict(hashes@),
                it.index() == it.seq().len() ==> (|o: Map<u64, MinimizerValue>| o.map_values(|v: MinimizerValue| v@))(out@) == restrict_hashes(self@, hashes@),
        {
            let (b, value) = entry;
            assert(it.seq().unref()[it.index()] == (*b, *value));
            assert(m.contains_key(it.seq().unref()[it.index()].0));
            assert(self@[*b] == value@);
            let kept = value.get_overlapping_hashed_kmers(hashes);
            assert(kept.0@.is_empty() <==> !bucket_meets(self@, *b, hashes@)) by {
                if bucket_meets(self@, *b, hashes@) {
                    let h = choose|h: u64| #[trigger] self@[*b].contains_key(h) && hashes@.contains(h);
                    assert(kept@.contains_key(h));
                }
                if !kept.0@.is_empty() {
                    let h = choose|h: u64| kept.0@.contains_key(h);
                    assert(kept@.contains_key(h));
                }
            }
            if !kept.0.is_empty() {
                out.insert(*b, kept);
            }
            assert forall|x: u64|
                #[trigger] out@.contains_key(x) <==> (self@.contains_key(x) && bucket_meets(self@, x, hashes@)) && exists|j: int|
                    0 <= j < it.index() + 1 && it.seq().unref()[j].0 == x by {
                if (self@.contains_key(x) && bucket_meets(self@, x, hashes@)) && exists|j: int| 0 <= j < it.index() + 1 && it.seq().unref()[j].0 == x {
                    let j = choose|j: int| 0 <= j < it.index() + 1 && it.seq().unref()[j].0 == x;
                    if j < it.index() {
                    }
                }
            }
            assert(it.index() + 1 == it.seq().len() ==> (|o: Map<u64, MinimizerValue>| o.map_values(|v: MinimizerValue| v@))(out@) =~= restrict_hashes(self@, hashes@));
        }
        let r = KmersMap { k_size: self.k_size, m_size: self.m_size, map: out };
        r
    }

    /// The index cut down to the buckets whose key is in `buckets`, each
    /// bucket kept whole.
    pub fn get_overlapping_buckets(&self, buckets: &HashSet<u64>) -> (r: KmersMap)
        ensures
            r@ == restrict_buckets(self@, buckets@),
            r.kmer_size() == self.kmer_size(),
            r.minimizer_size() == self.minimizer_size(),
    {
        let mut out: HashMap<u64, MinimizerValue> = HashMap::new();
        let ghost m = self.map@;
        let entries = self.map.iter();
        proof {
            lemma_iter_lists(&self.map);
        }
        for entry in it: entries
            invariant
                m == self.map@,
                lists(m, it.seq().unref()),
                forall|b: u64|
                    #[trigger] out@.contains_key(b) <==> (self@.contains_key(b) && buckets@.contains(b)) && exists|j: int|
                        0 <= j < it.index() && it.seq().unref()[j].0 == b,
                forall|b: u64| #[trigger] out@.contains_key(b) ==> out@[b]@ == self@[b],
                it.index() == it.seq().len() ==> (|o: Map<u64, MinimizerValue>| o.map_values(|v: MinimizerValue| v@))(out@) == restrict_buckets(self@, buckets@),
        {
            let (b, value) = entry;
            assert(it.seq().unref()[it.index()] == (*b, *value));
            assert(m.contains_key(it.seq().unref()[it.index()].0));
            assert(self@[*b] == value@);
            if buckets.contains(b) {
                out.insert(*b, value.duplicate());
            }
            assert forall|x: u64|
                #[trigger] out@.contains_key(x) <==> (self@.contains_key(x) && buckets@.contains(x)) && exists|j: int|
                    0 <= j < it.index() + 1 && it.seq().unref()[j].0 == x by {
                if (self@.contains_key(x) && buckets@.contains(x)) && exists|j: int| 0 <= j < it.index() + 1 && it.seq().unref()[j].0 == x {
                    let j = choose|j: int| 0 <= j < it.index() + 1 && it.seq().unref()[j].0 == x;
                    if j < it.index() {
                    }
                }
            }
            assert(it.index() + 1 == it.seq().len() ==> (|o: Map<u64, MinimizerValue>| o.map_values(|v: MinimizerValue| v@))(out@) =~= restrict_buckets(self@, buckets@));
        }
        let r = KmersMap { k_size: self.k_size, m_size: self.m_size, map: out };
        r
    }
}

impl KmersMap {
    /// The index cut down to the buckets of the given fingerprints, then to
    /// their hashes; buckets left empty are dropped.
    pub fn get_overlapping_hashed_kmers(&self, hashed_kmers: &Vec<(String, u64)>) -> (r: KmersMap)
        ensures
            r@ == restrict_hashes(
                restrict_buckets(
                    self@,
                    fingerprint_buckets(fingerprints_view(hashed_kmers@), self.minimizer_size() as nat),
                ),
                fingerprint_hashes(fingerprints_view(hashed_kmers@)),
            ),
            r.kmer_size() == self.kmer_size(),
            r.minimizer_size() == self.minimizer_size(),
    {
        let ghost fps = fingerprints_view(hashed_kmers@);
        let mut minimizers: HashSet<u64> = HashSet::new();
        let mut hashes: HashSet<u64> = HashSet::new();
        let mut i: usize = 0;
        while i < hashed_kmers.len()
            invariant
                i <= hashed_kmers.len(),
                fps == fingerprints_view(hashed_kmers@),
                forall|b: u64|
                    #[trigger] minimizers@.contains(b) <==> exists|j: int|
                        0 <= j < i && bucket_of(fps[j].0, self.minimizer_size() as nat) == b,
                forall|h: u64| #[trigger] hashes@.contains(h) <==> exists|j: int| 0 <= j < i && fps[j].1 == h,
            decreases hashed_kmers.len() - i,
        {
            let key = self.bucket_key(hashed_kmers[i].0.as_str());
            minimizers.insert(key);
            hashes.insert(hashed_kmers[i].1);
            assert(fps[i as int] == (hashed_kmers@[i as int].0@, hashed_kmers@[i as int].1));
            assert forall|b: u64| #[trigger] minimizers@.contains(b) <==> exists|j: int|
                0 <= j < i + 1 && bucket_of(fps[j].0, self.minimizer_size() as nat) == b by {
                if exists|j: int| 0 <= j < i + 1 && bucket_of(fps[j].0, self.minimizer_size() as nat) == b {
                    let j = choose|j: int| 0 <= j < i + 1 && bucket_of(fps[j].0, self.minimizer_size() as nat) == b;
                    if j < i {
                    }
                }
            }
            assert forall|h: u64| #[trigger] hashes@.contains(h) <==> exists|j: int|
                0 <= j < i + 1 && fps[j].1 == h by {
                if exists|j: int| 0 <= j < i + 1 && fps[j].1 == h {
                    let j = choose|j: int| 0 <= j < i + 1 && fps[j].1 == h;
                    if j < i {
                    }
                }
            }
            i = i + 1;
        }
        assert(minimizers@ =~= fingerprint_buckets(fps, self.minimizer_size() as nat));
        assert(hashes@ =~= fingerprint_hashes(fps));
        let buckets = self.get_overlapping_buckets(&minimizers);
        buckets.get_overlapping_hashes(&hashes)
    }

    /// The number of distinct fingerprints in the index.
    pub fn count_fingerprints(&self) -> (r: usize)
        ensures
            r == all_hashes(self@).len(),
    {
        let mut out: HashSet<u64> = HashSet::new();
        let ghost m = self.map@;
        let entries = self.map.iter();
        proof {
            lemma_iter_lists(&self.map);
        }
        for entry in it: entries
            invariant
                m == self.map@,
                lists(m, it.seq().unref()),
                forall|h: u64|
                    #[trigger] out@.contains(h) <==> exists|j: int|
                        0 <= j < it.index() && it.seq().unref()[j].1@.contains_key(h),
                it.index() == it.seq().len() ==> out@ == all_hashes(self@),
        {
            let (b, value) = entry;
            assert(it.seq().unref()[it.index()] == (*b, *value));
            assert(m.contains_key(it.seq().unref()[it.index()].0));
            let keys = value.hashes();
            extend_set(&mut out, &keys);
            assert forall|x: u64|
                #[trigger] out@.contains(x) <==> exists|j: int|
                    0 <= j < it.index() + 1 && it.seq().unref()[j].1@.contains_key(x) by {
                if exists|j: int| 0 <= j < it.index() + 1 && it.seq().unref()[j].1@.contains_key(x) {
                    let j = choose|j: int| 0 <= j < it.index() + 1 && it.seq().unref()[j].1@.contains_key(x);
                    if j < it.index() {
                    }
                }
            }
            assert forall|x: u64| it.index() + 1 == it.seq().len() implies (#[trigger] out@.contains(x)
                <==> all_hashes(self@).contains(x)) by {
                if all_hashes(self@).contains(x) {
                    let bb = choose|bb: u64| self@.contains_key(bb) && #[trigger] self@[bb].contains_key(x);
                    assert(m.contains_key(bb));
                    let j = choose|j: int| 0 <= j < it.seq().unref().len() && it.seq().unref()[j].0 == bb;
                    assert(m.contains_key(it.seq().unref()[j].0));
                }
                if out@.contains(x) {
                    let j = choose|j: int| 0 <= j < it.index() + 1 && it.seq().unref()[j].1@.contains_key(x);
                    assert(m.contains_key(it.seq().unref()[j].0));
                    assert(self@[it.seq().unref()[j].0].contains_key(x));
                }
            }
            assert(it.index() + 1 == it.seq().len() ==> out@ =~= all_hashes(self@));
        }
        out.len()
    }
}

/// Merging the same ids under the same fingerprint twice leaves the index as
/// merging them once: the union of id sets is idempotent.
pub proof fn lemma_insert_idempotent(idx: IndexMap, b: u64, h: u64, nodes: Set<u64>)
    ensures
        insert_fingerprint(insert_fingerprint(idx, b, h, nodes), b, h, nodes) == insert_fingerprint(idx, b, h, nodes),
{
    let once = insert_fingerprint(idx, b, h, nodes);
    let bucket = if idx.contains_key(b) {
        idx[b]
    } else {
        Map::empty()
    };
    assert(once[b] == merge_entry(bucket, h, nodes));
    assert(once[b][h] =~= once[b][h].union(nodes));
    assert(merge_entry(once[b], h, nodes) =~= once[b]);
    assert(insert_fingerprint(once, b, h, nodes) =~= once);
}

/// Whether the index holds fingerprint `h` in bucket `b`.
pub open spec fn has_entry(idx: IndexMap, b: u64, h: u64) -> bool {
    idx.contains_key(b) && idx[b].contains_key(h)
}

/// Restricting an index to more buckets never removes an entry kept when
/// restricting it to fewer, nor changes its ids.
pub proof fn lemma_restrict_buckets_monotonic(idx: IndexMap, fewer: Set<u64>, more: Set<u64>)
    requires
        fewer.subset_of(more),
    ensures
        forall|b: u64, h: u64|
            #[trigger] has_entry(restrict_buckets(idx, fewer), b, h) ==> has_entry(restrict_buckets(idx, more), b, h)
                && restrict_buckets(idx, more)[b][h] == restrict_buckets(idx, fewer)[b][h],
{
}

/// Restricting an index to more fingerprints never removes an entry kept
/// when restricting it to fewer, nor changes its ids.
pub proof fn lemma_restrict_hashes_monotonic(idx: IndexMap, fewer: Set<u64>, more: Set<u64>)
    requires
        fewer.subset_of(more),
    ensures
        forall|b: u64, h: u64|
            #[trigger] has_entry(restrict_hashes(idx, fewer), b, h) ==> has_entry(restrict_hashes(idx, more), b, h)
                && restrict_hashes(idx, more)[b][h] == restrict_hashes(idx, fewer)[b][h],
{
    assert forall|b: u64, h: u64| #[trigger] has_entry(restrict_hashes(idx, fewer), b, h) implies has_entry(
        restrict_hashes(idx, more),
        b,
        h,
    ) && restrict_hashes(idx, more)[b][h] == restrict_hashes(idx, fewer)[b][h] by {
        assert(idx[b].contains_key(h) && more.contains(h));
        assert(bucket_meets(idx, b, more));
    }
}
} // verus!
