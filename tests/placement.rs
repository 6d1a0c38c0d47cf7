use classeq::builder::map_kmers_to_tree;
use classeq::builder::BuildError;
use classeq::index::KmersMap;
use classeq::placement::decide_proposals;
use classeq::placement::best_proposals;
use classeq::placement::clade_proposals;
use classeq::placement::place_sequence;
use classeq::placement::score_candidate;
use classeq::placement::update_introspection_node;
use classeq::placement::AdherenceTest;
use classeq::placement::IntrospectionUpdateResponse;
use classeq::placement::LevelOutcome;
use classeq::placement::PlacementError;
use classeq::placement::PlacementStatus;
use classeq::response::clade_from_placement_status;
use classeq::tree::Tree;
use std::collections::HashSet;

const A1: &str = "AAAAAAAAAC";
const B1: &str = "CCCCCCCCCA";

fn ids(v: &[u64]) -> HashSet<u64> {
    v.iter().cloned().collect()
}

/// Root(0) -> A(1) -> a1(3), Root -> B(2) -> b1(4).
fn two_clades() -> Tree {
    let mut tree = Tree::new(uuid::Uuid::nil(), "two".to_string());
    let a = tree.new_internal(0, Some("A".to_string())).unwrap();
    let b = tree.new_internal(0, Some("B".to_string())).unwrap();
    tree.new_leaf(a, "a1".to_string()).unwrap();
    tree.new_leaf(b, "b1".to_string()).unwrap();
    let seqs = vec![("a1".to_string(), A1.to_string()), ("b1".to_string(), B1.to_string())];
    let map = map_kmers_to_tree(&tree, &seqs, 5, 2).unwrap();
    tree.kmers_map = Some(map);
    tree
}

/// Root(0) -> A(1) -> {A1(2) -> a1(3), A2(4) -> a2(5)}.
fn nested_clades() -> Tree {
    let mut tree = Tree::new(uuid::Uuid::nil(), "nested".to_string());
    let a = tree.new_internal(0, None).unwrap();
    let x = tree.new_internal(a, None).unwrap();
    tree.new_leaf(x, "a1".to_string()).unwrap();
    let y = tree.new_internal(a, None).unwrap();
    tree.new_leaf(y, "a2".to_string()).unwrap();
    let seqs = vec![("a1".to_string(), A1.to_string()), ("a2".to_string(), B1.to_string())];
    let map = map_kmers_to_tree(&tree, &seqs, 5, 2).unwrap();
    tree.kmers_map = Some(map);
    tree
}

#[test]
fn query_matching_one_clade_finds_identity() {
    let tree = two_clades();
    let r = place_sequence(A1, &tree, None, None, None).unwrap();
    match r {
        PlacementStatus::IdentityFound(test) => {
            assert_eq!(test, AdherenceTest { clade: 1, one: 4, rest: 0 });
        },
        other => panic!("unexpected {:?}", other),
    }
    let r = place_sequence(B1, &tree, None, None, Some(true)).unwrap();
    assert!(matches!(r, PlacementStatus::IdentityFound(AdherenceTest { clade: 2, one: 4, rest: 0 })));
}

#[test]
fn score_of_a_lone_candidate() {
    // fingerprints {11,12,13} under A, none under B: B is no candidate
    let cands = vec![(1u64, ids(&[11, 12, 13]))];
    assert_eq!(score_candidate(&cands, 0, false), AdherenceTest { clade: 1, one: 3, rest: 0 });
    let ps = clade_proposals(&cands, false);
    assert_eq!(ps, vec![AdherenceTest { clade: 1, one: 3, rest: 0 }]);
    match decide_proposals(ps, true, 0) {
        LevelOutcome::Descend(a) => assert_eq!(a.clade, 1),
        LevelOutcome::Stop(s) => panic!("unexpected {:?}", s),
    }
}

#[test]
fn scores_against_all_siblings() {
    let cands = vec![(1u64, ids(&[1, 2, 3, 4])), (2u64, ids(&[4, 5])), (3u64, ids(&[6]))];
    assert_eq!(score_candidate(&cands, 0, false), AdherenceTest { clade: 1, one: 4, rest: 3 });
    assert_eq!(score_candidate(&cands, 1, false), AdherenceTest { clade: 2, one: 2, rest: 5 });
    assert_eq!(score_candidate(&cands, 0, true), AdherenceTest { clade: 1, one: 3, rest: 2 });
    assert_eq!(score_candidate(&cands, 1, true), AdherenceTest { clade: 2, one: 1, rest: 4 });
    assert_eq!(clade_proposals(&cands, false), vec![AdherenceTest { clade: 1, one: 4, rest: 3 }]);
}

#[test]
fn unrelated_query_is_unclassifiable() {
    let tree = two_clades();
    let r = place_sequence("ACACACACAC", &tree, None, None, None).unwrap();
    assert!(matches!(r, PlacementStatus::Unclassifiable(_)));
}

#[test]
fn tied_best_margin_is_inconclusive() {
    let a = AdherenceTest { clade: 1, one: 5, rest: 2 };
    let b = AdherenceTest { clade: 2, one: 5, rest: 2 };
    let c = AdherenceTest { clade: 3, one: 4, rest: 2 };
    assert_eq!(best_proposals(&vec![a, b, c]), vec![a, b]);
    match decide_proposals(vec![a, b, c], false, 7) {
        LevelOutcome::Stop(PlacementStatus::Inconclusive(list, _)) => assert_eq!(list, vec![a, b, c]),
        LevelOutcome::Stop(s) => panic!("unexpected {:?}", s),
        LevelOutcome::Descend(x) => panic!("unexpected {:?}", x),
    }
}

#[test]
fn single_best_margin_is_descended_into() {
    let a = AdherenceTest { clade: 1, one: 6, rest: 2 };
    let b = AdherenceTest { clade: 2, one: 5, rest: 2 };
    match decide_proposals(vec![a, b], false, 7) {
        LevelOutcome::Descend(x) => assert_eq!(x, a),
        LevelOutcome::Stop(s) => panic!("unexpected {:?}", s),
    }
}

#[test]
fn no_proposal_below_the_root_reaches_max_resolution() {
    match decide_proposals(vec![], false, 7) {
        LevelOutcome::Stop(PlacementStatus::MaxResolutionReached(id, _)) => assert_eq!(id, 7),
        LevelOutcome::Stop(s) => panic!("unexpected {:?}", s),
        LevelOutcome::Descend(x) => panic!("unexpected {:?}", x),
    }
    match decide_proposals(vec![], true, 0) {
        LevelOutcome::Stop(PlacementStatus::Unclassifiable(_)) => {},
        LevelOutcome::Stop(s) => panic!("unexpected {:?}", s),
        LevelOutcome::Descend(x) => panic!("unexpected {:?}", x),
    }
}

#[test]
fn balanced_query_stops_at_common_ancestor() {
    let tree = nested_clades();
    let query = format!("{}{}", A1, B1);
    let r = place_sequence(&query, &tree, None, None, None).unwrap();
    match &r {
        PlacementStatus::MaxResolutionReached(id, _) => assert_eq!(*id, 1),
        other => panic!("unexpected {:?}", other),
    }
    assert_eq!(clade_from_placement_status(Some(&r)), Some(1));
    let r = place_sequence(&query, &tree, None, None, Some(true)).unwrap();
    assert!(matches!(r, PlacementStatus::MaxResolutionReached(1, _)));
}

#[test]
fn root_only_evidence_is_unclassifiable() {
    // the query's fingerprints are tagged with the root alone
    let mut tree = Tree::new(uuid::Uuid::nil(), "flat".to_string());
    let a = tree.new_internal(0, None).unwrap();
    tree.new_leaf(a, "a1".to_string()).unwrap();
    let mut map = KmersMap::new(5, 2);
    for (k, h) in map.build_kmer_from_string(A1, None) {
        map.insert_or_append_kmer_hash(k, h, ids(&[0]));
    }
    tree.kmers_map = Some(map);
    let r = place_sequence(A1, &tree, None, None, None).unwrap();
    assert!(matches!(r, PlacementStatus::Unclassifiable(_)));
}

#[test]
fn low_root_coverage_is_unclassifiable() {
    // half of the query's fingerprints lack the root tag
    let mut tree = Tree::new(uuid::Uuid::nil(), "cov".to_string());
    let a = tree.new_internal(0, None).unwrap();
    tree.new_leaf(a, "a1".to_string()).unwrap();
    let mut map = KmersMap::new(5, 2);
    let kmers = map.build_kmer_from_string(A1, None);
    for (i, (k, h)) in kmers.into_iter().enumerate() {
        let tags = if i % 2 == 0 { ids(&[0, 1, 2]) } else { ids(&[1, 2]) };
        map.insert_or_append_kmer_hash(k, h, tags);
    }
    tree.kmers_map = Some(map);
    let strict = place_sequence(A1, &tree, None, Some(1_000_000), None).unwrap();
    assert!(matches!(strict, PlacementStatus::Unclassifiable(_)));
    let lax = place_sequence(A1, &tree, None, Some(400_000), None).unwrap();
    assert!(matches!(lax, PlacementStatus::IdentityFound(AdherenceTest { clade: 1, .. })));
    let clamped = place_sequence(A1, &tree, None, Some(5_000_000), None).unwrap();
    assert!(matches!(clamped, PlacementStatus::Unclassifiable(_)));
}

#[test]
fn no_iterations_allowed_fails() {
    let tree = two_clades();
    assert_eq!(place_sequence(A1, &tree, Some(0), None, None).unwrap_err(), PlacementError::IterationLimitExceeded);
    assert_eq!(place_sequence(A1, &tree, Some(-3), None, None).unwrap_err(), PlacementError::IterationLimitExceeded);
    let nested = nested_clades();
    let query = format!("{}{}", A1, B1);
    assert_eq!(
        place_sequence(&query, &nested, Some(1), None, None).unwrap_err(),
        PlacementError::IterationLimitExceeded
    );
    assert!(matches!(place_sequence(&query, &nested, Some(2), None, None), Ok(PlacementStatus::MaxResolutionReached(1, _))));
}

#[test]
fn short_query_has_too_few_fingerprints() {
    let tree = two_clades();
    assert_eq!(place_sequence("ACG", &tree, None, None, None).unwrap_err(), PlacementError::InsufficientFingerprints);
    assert_eq!(place_sequence("NNNNNNNNNN", &tree, None, None, None).unwrap_err(), PlacementError::InsufficientFingerprints);
}

#[test]
fn leaves_alone_give_no_candidate() {
    // root -> {a, b} leaves: leaves are never scored
    let mut tree = Tree::new(uuid::Uuid::nil(), "leaves".to_string());
    tree.new_leaf(0, "a".to_string()).unwrap();
    tree.new_leaf(0, "b".to_string()).unwrap();
    let seqs = vec![("a".to_string(), A1.to_string()), ("b".to_string(), B1.to_string())];
    tree.kmers_map = Some(map_kmers_to_tree(&tree, &seqs, 5, 2).unwrap());
    let r = place_sequence(A1, &tree, None, None, None).unwrap();
    assert!(matches!(r, PlacementStatus::Unclassifiable(_)));
}

#[test]
fn descent_step() {
    let tree = nested_clades();
    match update_introspection_node(&tree, &AdherenceTest { clade: 1, one: 2, rest: 1 }) {
        IntrospectionUpdateResponse::Continue(c) => assert_eq!(c, 1),
        IntrospectionUpdateResponse::Return(s) => panic!("unexpected {:?}", s),
    }
    match update_introspection_node(&tree, &AdherenceTest { clade: 2, one: 2, rest: 1 }) {
        IntrospectionUpdateResponse::Return(PlacementStatus::IdentityFound(a)) => assert_eq!(a.clade, 2),
        IntrospectionUpdateResponse::Return(s) => panic!("unexpected {:?}", s),
        IntrospectionUpdateResponse::Continue(c) => panic!("unexpected {}", c),
    }
}

#[test]
fn unknown_leaf_fails_the_build() {
    let mut tree = Tree::new(uuid::Uuid::nil(), "t".to_string());
    tree.new_leaf(0, "a1".to_string()).unwrap();
    let seqs = vec![("a1".to_string(), A1.to_string()), ("zz".to_string(), B1.to_string())];
    match map_kmers_to_tree(&tree, &seqs, 5, 2) {
        Err(BuildError::UnknownLeaf(name)) => assert_eq!(name, "zz"),
        Ok(_) => panic!("build should fail"),
    }
}

#[test]
fn build_tags_every_ancestor() {
    let tree = nested_clades();
    let map = tree.kmers_map.as_ref().unwrap();
    let under_a1 = map.get_hashed_kmers_with_node(3).unwrap();
    assert_eq!(under_a1.len(), 4);
    assert_eq!(map.get_hashed_kmers_with_node(2).unwrap(), under_a1);
    assert_eq!(map.get_hashed_kmers_with_node(1).unwrap().len(), 8);
    assert_eq!(map.get_hashed_kmers_with_node(0).unwrap().len(), 8);
    assert_eq!(map.count_fingerprints(), 8);
    assert_eq!(map.get_kmer_size(), 5);
    assert_eq!(map.get_minimizer_size(), 2);
}
