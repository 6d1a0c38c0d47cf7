//! Building the fingerprint index of a tree from the sequences of its
//! leaves: each fingerprint of a leaf is tagged with every clade from that
//! leaf up to the root.
use vstd::prelude::*;
use crate::codec::bucket_of;
use crate::codec::fingerprints_of;
use crate::codec::fingerprints_view;
use crate::index::copy_set;
use crate::index::insert_fingerprint;
use crate::index::IndexMap;
use crate::index::KmersMap;
use crate::tree::find_leaf;
use crate::tree::path_to_root;
use crate::tree::Tree;

verus! {

broadcast use vstd::std_specs::hash::group_hash_axioms;

/// Why an index build failed.
#[derive(Debug, PartialEq, Eq)]
pub enum BuildError {
    /// A sequence names no leaf of the tree.
    UnknownLeaf(String),
}

/// An index after each fingerprint of `fps`, in order, is merged with ids
/// `nodes`.
pub open spec fn insert_all(idx: IndexMap, fps: Seq<(Seq<char>, u64)>, m: nat, nodes: Set<u64>) -> IndexMap
    decreases fps.len(),
{
    if fps.len() == 0 {
        idx
    } else {
        insert_fingerprint(insert_all(idx, fps.drop_last(), m, nodes), bucket_of(fps.last().0, m), fps.last().1, nodes)
    }
}

/// The view of a list of (leaf name, sequence) pairs.
pub open spec fn pairs_view(v: Seq<(String, String)>) -> Seq<(Seq<char>, Seq<char>)> {
    v.map_values(|p: (String, String)| (p.0@, p.1@))
}

/// Whether every name of the list names a leaf.
pub open spec fn all_known(cl: Seq<crate::tree::Clade>, seqs: Seq<(Seq<char>, Seq<char>)>) -> bool {
    forall|j: int| 0 <= j < seqs.len() ==> #[trigger] find_leaf(cl, seqs[j].0, 0) is Some
}

/// The index built from the list: for each pair in order, each fingerprint
/// of the sequence tagged with the ids from the first leaf of that name up
/// to the root.
pub open spec fn built_index(cl: Seq<crate::tree::Clade>, seqs: Seq<(Seq<char>, Seq<char>)>, k: nat, m: nat) -> IndexMap
    decreases seqs.len(),
{
    if seqs.len() == 0 {
        Map::empty()
    } else {
        let prev = built_index(cl, seqs.drop_last(), k, m);
        match find_leaf(cl, seqs.last().0, 0) {
            Some(leaf) => insert_all(prev, fingerprints_of(seqs.last().1, k), m, path_to_root(cl, leaf)),
            None => prev,
        }
    }
}

/// Builds the fingerprint index of `tree` from (leaf name, sequence) pairs,
/// with windows of `k_size` characters and bucket keys of `m_size`. Fails on
/// the first pair that names no leaf.
pub fn map_kmers_to_tree(tree: &Tree, sequences: &Vec<(String, String)>, k_size: u64, m_size: u64) -> (r: Result<
    KmersMap,
    BuildError,
>)
    requires
        tree.wf(),
    ensures
        match r {
            Ok(map) => {
                &&& all_known(tree.clades(), pairs_view(sequences@))
                &&& map@ == built_index(tree.clades(), pairs_view(sequences@), k_size as nat, m_size as nat)
                &&& map.kmer_size() == k_size
                &&& map.minimizer_size() == m_size
            },
            Err(BuildError::UnknownLeaf(name)) => exists|j: int|
                0 <= j < sequences.len() && find_leaf(tree.clades(), #[trigger] pairs_view(sequences@)[j].0, 0) is None
                    && name@ == pairs_view(sequences@)[j].0 && all_known(
                    tree.clades(),
                    pairs_view(sequences@).take(j),
                ),
        },
{
    let ghost cl = tree.clades();
    let ghost seqs = pairs_view(sequences@);
    let mut map = KmersMap::new(k_size, m_size);
    let mut i: usize = 0;
    while i < sequences.len()
        invariant
            tree.wf(),
            cl == tree.clades(),
            seqs == pairs_view(sequences@),
            i <= sequences.len(),
            all_known(cl, seqs.take(i as int)),
            map@ == built_index(cl, seqs.take(i as int), k_size as nat, m_size as nat),
            map.kmer_size() == k_size,
            map.minimizer_size() == m_size,
        decreases sequences.len() - i,
    {
        let name = &sequences[i].0;
        let body = &sequences[i].1;
        assert(seqs[i as int] == (name@, body@));
        assert(seqs.take(i + 1).drop_last() =~= seqs.take(i as int));
        let leaf = match tree.get_leaf_by_name(name.as_str()) {
            Some(leaf) => leaf,
            None => {
                assert(find_leaf(cl, pairs_view(sequences@)[i as int].0, 0) is None);
                let missing = name.clone();
                assert(missing@ == pairs_view(sequences@)[i as int].0);
                return Err(BuildError::UnknownLeaf(missing));
            },
        };
        proof {
            crate::tree::lemma_find_leaf_range(cl, name@, 0);
        }
        let path = tree.get_path_to_root(leaf);
        let fps = map.build_kmer_from_string(body.as_str(), None);
        let ghost prev = map@;
        let ghost fv = fingerprints_view(fps@);
        let mut t: usize = 0;
        while t < fps.len()
            invariant
                t <= fps.len(),
                fv == fingerprints_view(fps@),
                map@ == insert_all(prev, fv.take(t as int), m_size as nat, path@),
                map.kmer_size() == k_size,
                map.minimizer_size() == m_size,
            decreases fps.len() - t,
        {
            let kmer = fps[t].0.clone();
            let hash = fps[t].1;
            assert(fv[t as int] == (kmer@, hash));
            assert(fv.take(t + 1).drop_last() =~= fv.take(t as int));
            map.insert_or_append_kmer_hash(kmer, hash, copy_set(&path));
            t = t + 1;
        }
        assert(fv.take(fps.len() as int) =~= fv);
        assert(all_known(cl, seqs.take(i + 1))) by {
            assert forall|j: int| 0 <= j < i + 1 implies #[trigger] find_leaf(cl, seqs.take(i + 1)[j].0, 0) is Some by {
                if j < i {
                    assert(seqs.take(i + 1)[j] == seqs.take(i as int)[j]);
                }
            }
        }
        i = i + 1;
    }
    assert(seqs.take(sequences.len() as int) =~= seqs);
    Ok(map)
}

} // verus!
