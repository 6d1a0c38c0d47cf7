//! Placement of a query sequence: the query's fingerprints are matched
//! against the index, then the tree is walked down level by level, each
//! child scored against its siblings (one versus rest).
use std::collections::HashSet;
use vstd::prelude::*;
use crate::codec::fingerprints_of;
use crate::index::all_hashes;
use crate::index::difference;
use crate::index::extend_set;
use crate::index::fingerprint_buckets;
use crate::index::fingerprint_hashes;
use crate::index::hashes_with_node;
use crate::index::node_hashes_by_bucket;
use crate::index::restrict_buckets;
use crate::index::restrict_by_bucket;
use crate::index::restrict_hashes;
use crate::index::IndexMap;
use crate::index::KmersMap;
use crate::tree::Clade;
use crate::tree::NodeType;
use crate::tree::Tree;

verus! {

broadcast use vstd::std_specs::hash::group_hash_axioms;

/// The score of a candidate clade: the query's fingerprints found under it
/// (`one`) and under its siblings together (`rest`).
#[derive(Clone, Copy, Debug, PartialEq, Eq, Structural)]
pub struct AdherenceTest {
    /// The id of the clade.
    pub clade: u64,
    /// The number of fingerprints attributed to the clade.
    pub one: u64,
    /// The number of fingerprints attributed to its siblings.
    pub rest: u64,
}

/// The outcome of a placement.
#[derive(Debug)]
pub enum PlacementStatus {
    /// The query cannot be placed on the tree.
    Unclassifiable(String),
    /// The query was placed on a clade with no internal children.
    IdentityFound(AdherenceTest),
    /// The query was placed on an internal clade, no child of which could be
    /// told apart.
    MaxResolutionReached(u64, String),
    /// Several clades scored best at once.
    Inconclusive(Vec<AdherenceTest>, String),
}

/// A placement outcome, without its messages.
pub enum Verdict {
    /// The query cannot be placed.
    Unclassifiable,
    /// Placed on the clade of this score.
    IdentityFound(AdherenceTest),
    /// Placed on this clade, short of an identity.
    MaxResolutionReached(u64),
    /// These scores could not be told apart.
    Inconclusive(Seq<AdherenceTest>),
}

impl PlacementStatus {
    /// The outcome without its message.
    pub open spec fn verdict(&self) -> Verdict {
        match self {
            PlacementStatus::Unclassifiable(_) => Verdict::Unclassifiable,
            PlacementStatus::IdentityFound(a) => Verdict::IdentityFound(*a),
            PlacementStatus::MaxResolutionReached(id, _) => Verdict::MaxResolutionReached(*id),
            PlacementStatus::Inconclusive(v, _) => Verdict::Inconclusive(v@),
        }
    }
}

/// Why a placement failed.
#[derive(Clone, Copy, Debug, PartialEq, Eq, Structural)]
pub enum PlacementError {
    /// The query gives fewer than two fingerprints.
    InsufficientFingerprints,
    /// The walk down the tree took more levels than allowed.
    IterationLimitExceeded,
}

/// One step of the walk: stop with an outcome, or go down to a clade.
pub enum Step {
    /// The walk ends with this outcome.
    Stop(Verdict),
    /// The walk goes down to the clade of this score.
    Descend(AdherenceTest),
}

/// The children of clade `p` that are not leaves and hold at least one
/// fingerprint of `intro`, in order.
pub open spec fn candidate_ids(cl: Seq<Clade>, intro: IndexMap, p: int) -> Seq<u64> {
    cl[p].children@.filter(
        |c: u64| cl[c as int].kind != NodeType::Leaf && hashes_with_node(intro, c) != Set::<u64>::empty(),
    )
}

/// The fingerprints of every candidate but the `j`-th.
pub open spec fn rest_of(sets: Seq<Set<u64>>, j: int) -> Set<u64> {
    Set::new(|h: u64| exists|i: int| 0 <= i < sets.len() && i != j && #[trigger] sets[i].contains(h))
}

/// The score of the `j`-th candidate against the others; with
/// `remove_intersection`, fingerprints found on both sides count on neither.
pub open spec fn adherence_of(ids: Seq<u64>, sets: Seq<Set<u64>>, j: int, remove_intersection: bool) -> AdherenceTest {
    let one = sets[j];
    let rest = rest_of(sets, j);
    if remove_intersection {
        AdherenceTest {
            clade: ids[j],
            one: one.difference(rest).len() as u64,
            rest: rest.difference(one).len() as u64,
        }
    } else {
        AdherenceTest { clade: ids[j], one: one.len() as u64, rest: rest.len() as u64 }
    }
}

/// Whether a score favours the clade over its siblings.
pub open spec fn admitted(a: AdherenceTest) -> bool {
    a.one > a.rest
}

/// The scores of all candidates.
pub open spec fn scores(ids: Seq<u64>, sets: Seq<Set<u64>>, remove_intersection: bool) -> Seq<AdherenceTest> {
    Seq::new(ids.len(), |j: int| adherence_of(ids, sets, j, remove_intersection))
}

/// The fingerprint sets of the candidates.
pub open spec fn candidate_sets(intro: IndexMap, ids: Seq<u64>) -> Seq<Set<u64>> {
    ids.map_values(|c: u64| hashes_with_node(intro, c))
}

/// The admitted scores of the children of clade `p`, in order.
pub open spec fn proposals(cl: Seq<Clade>, intro: IndexMap, p: int, remove_intersection: bool) -> Seq<AdherenceTest> {
    let ids = candidate_ids(cl, intro, p);
    scores(ids, candidate_sets(intro, ids), remove_intersection).filter(|a: AdherenceTest| admitted(a))
}

/// The margin of a score.
pub open spec fn margin(a: AdherenceTest) -> int {
    a.one - a.rest
}

/// The largest margin of a list of scores (0 when empty).
pub open spec fn max_margin(ps: Seq<AdherenceTest>) -> int
    decreases ps.len(),
{
    if ps.len() == 0 {
        0
    } else {
        let m = max_margin(ps.drop_last());
        if margin(ps.last()) > m {
            margin(ps.last())
        } else {
            m
        }
    }
}

/// The scores with the largest margin.
pub open spec fn best(ps: Seq<AdherenceTest>) -> Seq<AdherenceTest> {
    ps.filter(|a: AdherenceTest| margin(a) == max_margin(ps))
}

/// The decision on the proposals of clade `p`.
pub open spec fn decide(ps: Seq<AdherenceTest>, first: bool, p: u64) -> Step {
    if ps.len() == 0 {
        if first {
            Step::Stop(Verdict::Unclassifiable)
        } else {
            Step::Stop(Verdict::MaxResolutionReached(p))
        }
    } else if ps.len() == 1 {
        Step::Descend(ps[0])
    } else if best(ps).len() == 1 {
        Step::Descend(best(ps)[0])
    } else {
        Step::Stop(Verdict::Inconclusive(ps))
    }
}

/// Whether clade `c` has a child that is not a leaf.
pub open spec fn has_inner_children(cl: Seq<Clade>, c: int) -> bool {
    exists|j: int| 0 <= j < cl[c].children@.len() && cl[#[trigger] cl[c].children@[j] as int].kind != NodeType::Leaf
}

/// The walk down from clade `p`, with `fuel` levels left.
pub open spec fn introspect(
    cl: Seq<Clade>,
    intro: IndexMap,
    remove_intersection: bool,
    p: u64,
    first: bool,
    fuel: nat,
) -> Result<Verdict, PlacementError>
    decreases fuel,
{
    if fuel == 0 {
        Err(PlacementError::IterationLimitExceeded)
    } else {
        match decide(proposals(cl, intro, p as int, remove_intersection), first, p) {
            Step::Stop(v) => Ok(v),
            Step::Descend(a) => if !has_inner_children(cl, a.clade as int) {
                Ok(Verdict::IdentityFound(a))
            } else {
                introspect(cl, intro, remove_intersection, a.clade, false, (fuel - 1) as nat)
            },
        }
    }
}

/// The fraction, in parts per million, of matched fingerprints that the root
/// must hold: `round(total × fraction)`.
pub open spec fn expected_coverage(total: nat, ppm: nat) -> nat {
    (total * ppm + 500_000) / 1_000_000
}

/// The index restricted to the query's fingerprints: first to their buckets,
/// then to their hashes.
pub open spec fn query_index(idx: IndexMap, fps: Seq<(Seq<char>, u64)>, m: nat) -> IndexMap {
    restrict_hashes(restrict_buckets(idx, fingerprint_buckets(fps, m)), fingerprint_hashes(fps))
}

/// The query index restricted to the fingerprints tagged with the root.
pub open spec fn root_index(q: IndexMap) -> IndexMap {
    restrict_by_bucket(q, node_hashes_by_bucket(q, 0))
}

/// The fuel of the walk for a bound on its levels.
pub open spec fn fuel_of(max_iterations: int) -> nat {
    if max_iterations > 0 {
        max_iterations as nat
    } else {
        0
    }
}

/// The outcome of placing `query` on a tree with index `idx`.
pub open spec fn placement(
    cl: Seq<Clade>,
    idx: IndexMap,
    k: nat,
    m: nat,
    query: Seq<char>,
    max_iterations: int,
    ppm: nat,
    remove_intersection: bool,
) -> Result<Verdict, PlacementError> {
    let fps = fingerprints_of(query, k);
    let q = query_index(idx, fps, m);
    let intro = root_index(q);
    if fps.len() < 2 {
        Err(PlacementError::InsufficientFingerprints)
    } else if all_hashes(q).len() == 0 {
        Ok(Verdict::Unclassifiable)
    } else if node_hashes_by_bucket(q, 0) == Map::<u64, Set<u64>>::empty() {
        Ok(Verdict::Unclassifiable)
    } else if all_hashes(intro).len() < expected_coverage(all_hashes(q).len(), ppm) {
        Ok(Verdict::Unclassifiable)
    } else {
        introspect(cl, intro, remove_intersection, 0, true, fuel_of(max_iterations))
    }
}

/// The coverage fraction in parts per million: clamped to one million, 700
/// thousand when not given.
pub open spec fn coverage_ppm(min_match_coverage: Option<u32>) -> nat {
    match min_match_coverage {
        Some(v) => if v > 1_000_000 {
            1_000_000
        } else {
            v as nat
        },
        None => 700_000,
    }
}


/// The clade ids of a list of candidates.
pub open spec fn ids_of(v: Seq<(u64, HashSet<u64>)>) -> Seq<u64> {
    v.map_values(|e: (u64, HashSet<u64>)| e.0)
}

/// The fingerprint sets of a list of candidates.
pub open spec fn sets_of(v: Seq<(u64, HashSet<u64>)>) -> Seq<Set<u64>> {
    v.map_values(|e: (u64, HashSet<u64>)| e.1@)
}

/// The children of clade `parent` that are not leaves and hold fingerprints
/// of `intro`, each with those fingerprints.
fn candidates(tree: &Tree, intro: &KmersMap, parent: u64) -> (r: Vec<(u64, HashSet<u64>)>)
    requires
        tree.wf(),
        parent < tree.clades().len(),
    ensures
        ids_of(r@) == candidate_ids(tree.clades(), intro@, parent as int),
        sets_of(r@) == candidate_sets(intro@, ids_of(r@)),
        forall|j: int| 0 <= j < r.len() ==> #[trigger] r@[j].0 < tree.clades().len(),
{
    let ghost cl = tree.clades();
    let ghost pred = |c: u64| cl[c as int].kind != NodeType::Leaf && hashes_with_node(intro@, c) != Set::<u64>::empty();
    let n = tree.clades.len();
    let p = parent as usize;
    assert(p as int == parent as int);
    let kids = &tree.clades[p].children;
    let mut out: Vec<(u64, HashSet<u64>)> = Vec::new();
    let mut i: usize = 0;
    while i < kids.len()
        invariant
            tree.wf(),
            cl == tree.clades(),
            n == cl.len(),
            parent < cl.len(),
            kids@ == cl[parent as int].children@,
            i <= kids.len(),
            pred == (|c: u64| cl[c as int].kind != NodeType::Leaf && hashes_with_node(intro@, c) != Set::<u64>::empty()),
            ids_of(out@) == kids@.take(i as int).filter(pred),
            sets_of(out@) == candidate_sets(intro@, ids_of(out@)),
            forall|j: int| 0 <= j < out.len() ==> #[trigger] out@[j].0 < n,
        decreases kids.len() - i,
    {
        let c = kids[i];
        assert(kids@[i as int] == c);
        assert(parent < c < cl.len());
        let ci = c as usize;
        assert(ci as int == c as int);
        let ghost before = out@;
        assert(kids@.take(i + 1).drop_last() =~= kids@.take(i as int));
        assert(kids@.take(i + 1).last() == c);
        reveal(Seq::filter);
        if !tree.clades[ci].is_leaf() {
            match intro.get_hashed_kmers_with_node(c) {
                Some(set) => {
                    let ghost sv = set@;
                    assert(pred(c));
                    out.push((c, set));
                    assert(ids_of(out@) =~= ids_of(before).push(c));
                    assert(sets_of(out@) =~= sets_of(before).push(sv));
                    assert(sets_of(out@) =~= candidate_sets(intro@, ids_of(out@)));
                },
                None => {
                    assert(!pred(c));
                    assert(ids_of(out@) =~= ids_of(before));
                },
            }
        } else {
            assert(!pred(c));
            assert(ids_of(out@) =~= ids_of(before));
        }
        assert(ids_of(out@) == kids@.take(i + 1).filter(pred));
        i = i + 1;
    }
    assert(kids@.take(kids.len() as int) =~= kids@);
    out
}

/// The score of the `j`-th candidate against the others: its fingerprints
/// (`one`) and those of all the others together (`rest`); with
/// `remove_intersection`, fingerprints on both sides count on neither.
pub fn score_candidate(cands: &Vec<(u64, HashSet<u64>)>, j: usize, remove_intersection: bool) -> (r: AdherenceTest)
    requires
        j < cands.len(),
    ensures
        r == adherence_of(ids_of(cands@), sets_of(cands@), j as int, remove_intersection),
{
    let ghost sets = sets_of(cands@);
    let mut rest: HashSet<u64> = HashSet::new();
    let mut i: usize = 0;
    while i < cands.len()
        invariant
            j < cands.len(),
            i <= cands.len(),
            sets == sets_of(cands@),
            rest@ == Set::new(|h: u64| exists|k: int| 0 <= k < i && k != j && #[trigger] sets[k].contains(h)),
        decreases cands.len() - i,
    {
        let ghost before = rest@;
        if i != j {
            extend_set(&mut rest, &cands[i].1);
        }
        assert(sets[i as int] == cands@[i as int].1@);
        assert(rest@ =~= Set::new(|h: u64| exists|k: int| 0 <= k < i + 1 && k != j && #[trigger] sets[k].contains(h))) by {
            assert forall|h: u64| (exists|k: int| 0 <= k < i + 1 && k != j && #[trigger] sets[k].contains(h)) implies rest@.contains(h) by {
                let k = choose|k: int| 0 <= k < i + 1 && k != j && #[trigger] sets[k].contains(h);
                if k < i {
                    assert(before.contains(h));
                }
            }
        }
        i = i + 1;
    }
    assert(rest@ =~= rest_of(sets, j as int));
    let one = &cands[j].1;
    assert(one@ == sets[j as int]);
    let clade = cands[j].0;
    if remove_intersection {
        let a = difference(one, &rest);
        let b = difference(&rest, one);
        AdherenceTest { clade, one: a.len() as u64, rest: b.len() as u64 }
    } else {
        AdherenceTest { clade, one: one.len() as u64, rest: rest.len() as u64 }
    }
}

/// The scores of the candidates that favour their clade over its siblings,
/// in order.
pub fn clade_proposals(cands: &Vec<(u64, HashSet<u64>)>, remove_intersection: bool) -> (r: Vec<AdherenceTest>)
    ensures
        r@ == scores(ids_of(cands@), sets_of(cands@), remove_intersection).filter(|a: AdherenceTest| admitted(a)),
        forall|k: int| 0 <= k < r.len() ==> ids_of(cands@).contains(#[trigger] r@[k].clade),
        forall|k: int| 0 <= k < r.len() ==> admitted(#[trigger] r@[k]),
{
    let ghost all = scores(ids_of(cands@), sets_of(cands@), remove_intersection);
    let mut out: Vec<AdherenceTest> = Vec::new();
    let mut i: usize = 0;
    while i < cands.len()
        invariant
            i <= cands.len(),
            all == scores(ids_of(cands@), sets_of(cands@), remove_intersection),
            all.len() == cands.len(),
            out@ == all.take(i as int).filter(|a: AdherenceTest| admitted(a)),
            forall|k: int| 0 <= k < out.len() ==> ids_of(cands@).contains(#[trigger] out@[k].clade),
            forall|k: int| 0 <= k < out.len() ==> admitted(#[trigger] out@[k]),
        decreases cands.len() - i,
    {
        let a = score_candidate(cands, i, remove_intersection);
        assert(a.clade == ids_of(cands@)[i as int]);
        assert(all[i as int] == a);
        assert(all.take(i + 1).drop_last() =~= all.take(i as int));
        reveal(Seq::filter);
        if a.one > a.rest {
            out.push(a);
        }
        i = i + 1;
    }
    assert(all.take(cands.len() as int) =~= all);
    out
}

/// The proposals with the largest margin `one - rest`.
pub fn best_proposals(ps: &Vec<AdherenceTest>) -> (r: Vec<AdherenceTest>)
    requires
        forall|i: int| 0 <= i < ps.len() ==> admitted(#[trigger] ps@[i]),
    ensures
        r@ == best(ps@),
        forall|k: int| 0 <= k < r.len() ==> ps@.contains(#[trigger] r@[k]),
{
    let mut top: u64 = 0;
    let mut i: usize = 0;
    while i < ps.len()
        invariant
            i <= ps.len(),
            forall|i: int| 0 <= i < ps.len() ==> admitted(#[trigger] ps@[i]),
            top == max_margin(ps@.take(i as int)),
        decreases ps.len() - i,
    {
        assert(ps@.take(i + 1).drop_last() =~= ps@.take(i as int));
        assert(ps@.take(i + 1).last() == ps@[i as int]);
        let d = ps[i].one - ps[i].rest;
        if d > top {
            top = d;
        }
        i = i + 1;
    }
    assert(ps@.take(ps.len() as int) =~= ps@);
    let mut out: Vec<AdherenceTest> = Vec::new();
    let mut i: usize = 0;
    while i < ps.len()
        invariant
            i <= ps.len(),
            forall|i: int| 0 <= i < ps.len() ==> admitted(#[trigger] ps@[i]),
            top == max_margin(ps@),
            out@ == ps@.take(i as int).filter(|a: AdherenceTest| margin(a) == max_margin(ps@)),
            forall|k: int| 0 <= k < out.len() ==> ps@.contains(#[trigger] out@[k]),
        decreases ps.len() - i,
    {
        assert(ps@.take(i + 1).drop_last() =~= ps@.take(i as int));
        assert(ps@.take(i + 1).last() == ps@[i as int]);
        reveal(Seq::filter);
        if ps[i].one - ps[i].rest == top {
            out.push(ps[i]);
        }
        i = i + 1;
    }
    assert(ps@.take(ps.len() as int) =~= ps@);
    out
}

/// What follows the choice of a clade: go on from it, or stop there.
pub enum IntrospectionUpdateResponse {
    /// Go on from this clade.
    Continue(u64),
    /// Stop with this outcome.
    Return(PlacementStatus),
}

/// Whether clade `c` has a child that is not a leaf.
fn has_non_leaf_children(tree: &Tree, c: u64) -> (r: bool)
    requires
        tree.wf(),
        c < tree.clades().len(),
    ensures
        r == has_inner_children(tree.clades(), c as int),
{
    let ghost cl = tree.clades();
    let n = tree.clades.len();
    let ci = c as usize;
    assert(ci as int == c as int);
    let kids = &tree.clades[ci].children;
    let mut i: usize = 0;
    while i < kids.len()
        invariant
            tree.wf(),
            cl == tree.clades(),
            n == cl.len(),
            c < n,
            kids@ == cl[c as int].children@,
            i <= kids.len(),
            forall|j: int| 0 <= j < i ==> cl[#[trigger] kids@[j] as int].kind == NodeType::Leaf,
        decreases kids.len() - i,
    {
        let k = kids[i];
        assert(kids@[i as int] == k);
        assert(c < k < n);
        let ki = k as usize;
        assert(ki as int == k as int);
        if !tree.clades[ki].is_leaf() {
            return true;
        }
        i = i + 1;
    }
    false
}

/// The step after clade `adherence.clade` was chosen: the walk ends there
/// with `IdentityFound` when it has no child but leaves, and goes on from it
/// otherwise.
pub fn update_introspection_node(tree: &Tree, adherence: &AdherenceTest) -> (r: IntrospectionUpdateResponse)
    requires
        tree.wf(),
        adherence.clade < tree.clades().len(),
    ensures
        match r {
            IntrospectionUpdateResponse::Continue(c) => c == adherence.clade && has_inner_children(
                tree.clades(),
                c as int,
            ),
            IntrospectionUpdateResponse::Return(s) => !has_inner_children(tree.clades(), adherence.clade as int)
                && s.verdict() == Verdict::IdentityFound(*adherence),
        },
{
    if has_non_leaf_children(tree, adherence.clade) {
        IntrospectionUpdateResponse::Continue(adherence.clade)
    } else {
        IntrospectionUpdateResponse::Return(PlacementStatus::IdentityFound(*adherence))
    }
}

/// The bound on levels for an optional one: 1000 when not given.
pub open spec fn iterations_of(max_iterations: Option<i32>) -> int {
    match max_iterations {
        Some(v) => v as int,
        None => 1000,
    }
}

/// Whether to remove the intersection for an optional flag: not when not
/// given.
pub open spec fn flag_of(remove_intersection: Option<bool>) -> bool {
    match remove_intersection {
        Some(b) => b,
        None => false,
    }
}

/// Places `sequence` on `tree` with the tree's fingerprint index.
/// `min_match_coverage` is a fraction in parts per million (clamped to one
/// million, 700 thousand when not given), `max_iterations` bounds the levels
/// walked (1000 when not given), and `remove_intersection` (false when not
/// given) scores only the fingerprints on one side. See [`placement`].
pub fn place_sequence(
    sequence: &str,
    tree: &Tree,
    max_iterations: Option<i32>,
    min_match_coverage: Option<u32>,
    remove_intersection: Option<bool>,
) -> (r: Result<PlacementStatus, PlacementError>)
    requires
        tree.wf(),
        tree.kmers_map is Some,
    ensures
        ({
            let idx = tree.kmers_map->0;
            let expected = placement(
                tree.clades(),
                idx@,
                idx.kmer_size() as nat,
                idx.minimizer_size() as nat,
                sequence@,
                iterations_of(max_iterations),
                coverage_ppm(min_match_coverage),
                flag_of(remove_intersection),
            );
            match r {
                Ok(s) => expected == Ok::<Verdict, PlacementError>(s.verdict()),
                Err(e) => expected == Err::<Verdict, PlacementError>(e),
            }
        }),
{
    let index = match &tree.kmers_map {
        Some(m) => m,
        None => {
            return Err(PlacementError::InsufficientFingerprints);
        },
    };
    let rm = match remove_intersection {
        Some(b) => b,
        None => false,
    };
    let max_it: i32 = match max_iterations {
        Some(v) => v,
        None => 1000,
    };
    let ppm: u32 = match min_match_coverage {
        Some(v) => if v > 1_000_000 {
            1_000_000
        } else {
            v
        },
        None => 700_000,
    };
    let ghost cl = tree.clades();
    let ghost fps = fingerprints_of(sequence@, index.kmer_size() as nat);
    let query_kmers = index.build_kmer_from_string(sequence, None);
    assert(query_kmers@.len() == fps.len());
    if query_kmers.len() < 2 {
        return Err(PlacementError::InsufficientFingerprints);
    }
    let q = index.get_overlapping_hashed_kmers(&query_kmers);
    let total = q.count_fingerprints();
    if total == 0 {
        return Ok(PlacementStatus::Unclassifiable("query may not be related to the phylogeny".to_string()));
    }
    let sel = match q.get_minimized_hashes_with_node(0) {
        Some(sel) => sel,
        None => {
            return Ok(
                PlacementStatus::Unclassifiable("query has no fingerprint in common with the tree".to_string()),
            );
        },
    };
    let intro = q.get_overlapping_minimized_hashes(&sel);
    let covered = intro.count_fingerprints();
    let t = total as u128;
    let p = ppm as u128;
    assert(t * p <= 0xFFFF_FFFF_FFFF_FFFFu128 * 1_000_000) by (nonlinear_arith)
        requires
            t <= 0xFFFF_FFFF_FFFF_FFFFu128,
            p <= 1_000_000,
    ;
    let expected: u128 = (t * p + 500_000) / 1_000_000;
    if (covered as u128) < expected {
        return Ok(PlacementStatus::Unclassifiable("insufficient fingerprint coverage".to_string()));
    }
    let fuel: u64 = if max_it > 0 {
        max_it as u64
    } else {
        0
    };
    introspect_tree(tree, &intro, rm, fuel)
}

/// What one level of the walk decides.
pub enum LevelOutcome {
    /// The walk ends with this outcome.
    Stop(PlacementStatus),
    /// The walk goes down to the clade of this score.
    Descend(AdherenceTest),
}

/// The decision on the admitted scores of the children of clade `parent`:
/// none ends the walk (`Unclassifiable` at the first level,
/// `MaxResolutionReached` at `parent` below it); one, or one alone with the
/// largest margin, is descended into; several sharing the largest margin make
/// the walk `Inconclusive`, listing them all.
pub fn decide_proposals(ps: Vec<AdherenceTest>, first: bool, parent: u64) -> (r: LevelOutcome)
    requires
        forall|i: int| 0 <= i < ps.len() ==> admitted(#[trigger] ps@[i]),
    ensures
        match r {
            LevelOutcome::Stop(s) => decide(ps@, first, parent) == Step::Stop(s.verdict()),
            LevelOutcome::Descend(a) => decide(ps@, first, parent) == Step::Descend(a) && ps@.contains(a),
        },
{
    if ps.len() == 0 {
        if first {
            return LevelOutcome::Stop(PlacementStatus::Unclassifiable("no clade favoured at the first level".to_string()));
        } else {
            return LevelOutcome::Stop(PlacementStatus::MaxResolutionReached(parent, "LCA accepted".to_string()));
        }
    }
    if ps.len() == 1 {
        let a = ps[0];
        assert(ps@[0] == a);
        return LevelOutcome::Descend(a);
    }
    let top = best_proposals(&ps);
    if top.len() == 1 {
        let a = top[0];
        assert(ps@.contains(top@[0]));
        LevelOutcome::Descend(a)
    } else {
        LevelOutcome::Stop(PlacementStatus::Inconclusive(ps, "multiple proposals".to_string()))
    }
}

/// One level of the walk from clade `parent`: see [`decide`].
fn introspect_level(tree: &Tree, intro: &KmersMap, rm: bool, parent: u64, first: bool) -> (r: LevelOutcome)
    requires
        tree.wf(),
        parent < tree.clades().len(),
    ensures
        match r {
            LevelOutcome::Stop(s) => decide(proposals(tree.clades(), intro@, parent as int, rm), first, parent)
                == Step::Stop(s.verdict()),
            LevelOutcome::Descend(a) => decide(proposals(tree.clades(), intro@, parent as int, rm), first, parent)
                == Step::Descend(a) && a.clade < tree.clades().len(),
        },
{
    let cands = candidates(tree, intro, parent);
    let ps = clade_proposals(&cands, rm);
    assert(ps@ == proposals(tree.clades(), intro@, parent as int, rm));
    let ghost pv = ps@;
    let r = decide_proposals(ps, first, parent);
    proof {
        if let LevelOutcome::Descend(a) = r {
            let k = choose|k: int| 0 <= k < pv.len() && pv[k] == a;
            assert(ids_of(cands@).contains(pv[k].clade));
        }
    }
    r
}

/// The walk down the tree from the root, with `fuel` levels allowed: see
/// [`introspect`].
fn introspect_tree(tree: &Tree, intro: &KmersMap, rm: bool, fuel: u64) -> (r: Result<PlacementStatus, PlacementError>)
    requires
        tree.wf(),
    ensures
        match r {
            Ok(s) => introspect(tree.clades(), intro@, rm, 0, true, fuel as nat) == Ok::<Verdict, PlacementError>(
                s.verdict(),
            ),
            Err(e) => introspect(tree.clades(), intro@, rm, 0, true, fuel as nat) == Err::<Verdict, PlacementError>(
                e,
            ),
        },
{
    let ghost cl = tree.clades();
    let ghost target = introspect(cl, intro@, rm, 0, true, fuel as nat);
    let mut parent: u64 = 0;
    let mut first = true;
    let mut left = fuel;
    loop
        invariant
            tree.wf(),
            cl == tree.clades(),
            parent < cl.len(),
            target == introspect(cl, intro@, rm, 0, true, fuel as nat),
            target == introspect(cl, intro@, rm, parent, first, left as nat),
        decreases left,
    {
        if left == 0 {
            return Err(PlacementError::IterationLimitExceeded);
        }
        match introspect_level(tree, intro, rm, parent, first) {
            LevelOutcome::Stop(status) => {
                return Ok(status);
            },
            LevelOutcome::Descend(chosen) => {
                match update_introspection_node(tree, &chosen) {
                    IntrospectionUpdateResponse::Return(status) => {
                        return Ok(status);
                    },
                    IntrospectionUpdateResponse::Continue(c) => {
                        parent = c;
                        first = false;
                        left = left - 1;
                    },
                }
            },
        }
    }
}


/// A query with at least two fingerprints, none of which the index holds,
/// is unclassifiable.
pub proof fn lemma_unrelated_query(
    cl: Seq<Clade>,
    idx: IndexMap,
    k: nat,
    m: nat,
    query: Seq<char>,
    max_iterations: int,
    ppm: nat,
    remove_intersection: bool,
)
    requires
        fingerprints_of(query, k).len() >= 2,
        forall|j: int|
            0 <= j < fingerprints_of(query, k).len() ==> !all_hashes(idx).contains(
                #[trigger] fingerprints_of(query, k)[j].1,
            ),
    ensures
        placement(cl, idx, k, m, query, max_iterations, ppm, remove_intersection) == Ok::<Verdict, PlacementError>(
            Verdict::Unclassifiable,
        ),
{
    let fps = fingerprints_of(query, k);
    let q = query_index(idx, fps, m);
    assert(all_hashes(q) =~= Set::<u64>::empty()) by {
        assert forall|h: u64| !#[trigger] all_hashes(q).contains(h) by {
            if all_hashes(q).contains(h) {
                let b = choose|b: u64| q.contains_key(b) && #[trigger] q[b].contains_key(h);
                assert(fingerprint_hashes(fps).contains(h));
                let j = choose|j: int| 0 <= j < fps.len() && #[trigger] fps[j].1 == h;
                assert(idx[b].contains_key(h));
                assert(all_hashes(idx).contains(h));
            }
        }
    }
}

/// A placement that reaches a clade short of an identity passed the coverage
/// threshold at the root; a query with enough fingerprints whose root coverage
/// falls below the threshold is unclassifiable.
pub proof fn lemma_coverage_threshold(
    cl: Seq<Clade>,
    idx: IndexMap,
    k: nat,
    m: nat,
    query: Seq<char>,
    max_iterations: int,
    ppm: nat,
    remove_intersection: bool,
)
    ensures
        ({
            let fps = fingerprints_of(query, k);
            let q = query_index(idx, fps, m);
            let r = placement(cl, idx, k, m, query, max_iterations, ppm, remove_intersection);
            &&& r matches Ok(Verdict::MaxResolutionReached(_)) ==> fps.len() >= 2 && all_hashes(root_index(q)).len()
                >= expected_coverage(all_hashes(q).len(), ppm)
            &&& (fps.len() >= 2 && all_hashes(root_index(q)).len() < expected_coverage(all_hashes(q).len(), ppm))
                ==> r == Ok::<Verdict, PlacementError>(Verdict::Unclassifiable)
        }),
{
}

/// With no level allowed, a placement never gives a verdict other than
/// `Unclassifiable`; once the query passes the checks before the walk, it
/// fails with `IterationLimitExceeded`.
pub proof fn lemma_no_iterations(
    cl: Seq<Clade>,
    idx: IndexMap,
    k: nat,
    m: nat,
    query: Seq<char>,
    max_iterations: int,
    ppm: nat,
    remove_intersection: bool,
)
    requires
        max_iterations <= 0,
    ensures
        ({
            let fps = fingerprints_of(query, k);
            let q = query_index(idx, fps, m);
            let r = placement(cl, idx, k, m, query, max_iterations, ppm, remove_intersection);
            &&& r matches Ok(v) ==> v == Verdict::Unclassifiable
            &&& (fps.len() >= 2 && all_hashes(q).len() > 0 && node_hashes_by_bucket(q, 0) != Map::<
                u64,
                Set<u64>,
            >::empty() && all_hashes(root_index(q)).len() >= expected_coverage(all_hashes(q).len(), ppm)) ==> r
                == Err::<Verdict, PlacementError>(PlacementError::IterationLimitExceeded)
        }),
{
}

/// Two different candidates are never both admitted: the fingerprints that
/// count for one count in the rest of the other.
pub proof fn lemma_two_not_admitted(ids: Seq<u64>, sets: Seq<Set<u64>>, remove_intersection: bool, i: int, j: int)
    requires
        0 <= i < sets.len(),
        0 <= j < sets.len(),
        i != j,
        rest_of(sets, i).finite(),
        rest_of(sets, j).finite(),
        rest_of(sets, i).len() <= u64::MAX,
        rest_of(sets, j).len() <= u64::MAX,
    ensures
        !(admitted(adherence_of(ids, sets, i, remove_intersection)) && admitted(
            adherence_of(ids, sets, j, remove_intersection),
        )),
{
    let si = sets[i];
    let sj = sets[j];
    let ri = rest_of(sets, i);
    let rj = rest_of(sets, j);
    assert(sj.subset_of(ri)) by {
        assert forall|x: u64| sj.contains(x) implies ri.contains(x) by {
            assert(sets[j].contains(x));
        }
    }
    assert(si.subset_of(rj)) by {
        assert forall|x: u64| si.contains(x) implies rj.contains(x) by {
            assert(sets[i].contains(x));
        }
    }
    vstd::set_lib::lemma_len_subset(sj, ri);
    vstd::set_lib::lemma_len_subset(si, rj);
    if remove_intersection {
        let a = si.difference(ri);
        let b = ri.difference(si);
        let c = sj.difference(rj);
        let d = rj.difference(sj);
        assert(c.subset_of(b)) by {
            assert forall|x: u64| c.contains(x) implies b.contains(x) by {
                if si.contains(x) {
                    assert(sets[i].contains(x));
                    assert(rj.contains(x));
                }
            }
        }
        assert(a.subset_of(d)) by {
            assert forall|x: u64| a.contains(x) implies d.contains(x) by {
                if sj.contains(x) {
                    assert(sets[j].contains(x));
                    assert(ri.contains(x));
                }
            }
        }
        vstd::set_lib::lemma_len_difference(ri, si);
        vstd::set_lib::lemma_len_difference(rj, sj);
        vstd::set_lib::lemma_len_difference(si, ri);
        vstd::set_lib::lemma_len_difference(sj, rj);
        vstd::set_lib::lemma_len_subset(b, ri);
        vstd::set_lib::lemma_len_subset(d, rj);
        vstd::set_lib::lemma_len_subset(c, b);
        vstd::set_lib::lemma_len_subset(a, d);
    }
}

/// A score kept by the admission filter comes from some candidate.
proof fn lemma_kept_one(s: Seq<AdherenceTest>)
    requires
        s.filter(|a: AdherenceTest| admitted(a)).len() >= 1,
    ensures
        exists|i: int| 0 <= i < s.len() && admitted(#[trigger] s[i]),
    decreases s.len(),
{
    reveal(Seq::filter);
    if !admitted(s.last()) {
        lemma_kept_one(s.drop_last());
        let i = choose|i: int| 0 <= i < s.drop_last().len() && admitted(#[trigger] s.drop_last()[i]);
        assert(s[i] == s.drop_last()[i]);
    } else {
        assert(admitted(s[s.len() - 1]));
    }
}

/// Two scores kept by the admission filter come from two candidates.
proof fn lemma_kept_two(s: Seq<AdherenceTest>)
    requires
        s.filter(|a: AdherenceTest| admitted(a)).len() >= 2,
    ensures
        exists|i: int, j: int| 0 <= i < j < s.len() && admitted(#[trigger] s[i]) && admitted(#[trigger] s[j]),
    decreases s.len(),
{
    reveal(Seq::filter);
    let t = s.drop_last();
    if admitted(s.last()) {
        lemma_kept_one(t);
        let i = choose|i: int| 0 <= i < t.len() && admitted(#[trigger] t[i]);
        assert(s[i] == t[i]);
        assert(admitted(s[s.len() - 1]));
    } else {
        lemma_kept_two(t);
        let (i, j) = choose|i: int, j: int| 0 <= i < j < t.len() && admitted(#[trigger] t[i]) && admitted(#[trigger] t[j]);
        assert(s[i] == t[i] && s[j] == t[j]);
    }
}

/// At most one candidate of a level is admitted, whenever the rests are
/// finite and their sizes fit in 64 bits; so a level never holds several
/// proposals to choose from.
pub proof fn lemma_at_most_one_proposal(ids: Seq<u64>, sets: Seq<Set<u64>>, remove_intersection: bool)
    requires
        ids.len() == sets.len(),
        forall|k: int| 0 <= k < sets.len() ==> #[trigger] rest_of(sets, k).finite() && rest_of(sets, k).len() <= u64::MAX,
    ensures
        scores(ids, sets, remove_intersection).filter(|a: AdherenceTest| admitted(a)).len() <= 1,
{
    let s = scores(ids, sets, remove_intersection);
    if s.filter(|a: AdherenceTest| admitted(a)).len() >= 2 {
        lemma_kept_two(s);
        let (i, j) = choose|i: int, j: int| 0 <= i < j < s.len() && admitted(#[trigger] s[i]) && admitted(#[trigger] s[j]);
        assert(rest_of(sets, i).finite() && rest_of(sets, j).finite());
        lemma_two_not_admitted(ids, sets, remove_intersection, i, j);
    }
}
} // verus!
