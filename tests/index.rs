use classeq::index::KmersMap;
use classeq::index::MinimizerKey;
use classeq::index::MinimizerValue;
use std::collections::HashMap;
use std::collections::HashSet;

fn ids(v: &[u64]) -> HashSet<u64> {
    v.iter().cloned().collect()
}

fn mur(text: &str) -> u64 {
    mur3::murmurhash3_x64_128(text.as_bytes(), 0).0
}

#[test]
fn insert_then_merge() {
    let mut map = KmersMap::new(4, 2);
    assert!(map.insert_or_append_kmer_hash("ACGT".to_string(), 7, ids(&[0, 1])));
    assert!(!map.insert_or_append_kmer_hash("ACGT".to_string(), 7, ids(&[2])));
    assert_eq!(map.get_hashed_kmers_with_node(2), Some(ids(&[7])));
    assert_eq!(map.get_hashed_kmers_with_node(0), Some(ids(&[7])));
    let bucket = map.get_map().get(&mur("AC")).unwrap();
    assert_eq!(bucket.get(7), Some(&ids(&[0, 1, 2])));
}

#[test]
fn inserting_twice_equals_inserting_once() {
    let mut once = KmersMap::new(4, 2);
    once.insert_or_append_kmer_hash("ACGT".to_string(), 7, ids(&[0, 3]));
    let mut twice = KmersMap::new(4, 2);
    twice.insert_or_append_kmer_hash("ACGT".to_string(), 7, ids(&[0, 3]));
    twice.insert_or_append_kmer_hash("ACGT".to_string(), 7, ids(&[0, 3]));
    let a = once.get_map().get(&mur("AC")).unwrap().get(7).cloned();
    let b = twice.get_map().get(&mur("AC")).unwrap().get(7).cloned();
    assert_eq!(a, b);
    assert_eq!(a, Some(ids(&[0, 3])));
    assert_eq!(once.count_fingerprints(), twice.count_fingerprints());
}

#[test]
fn node_queries_scan_every_bucket() {
    let mut map = KmersMap::new(4, 1);
    map.insert_or_append_kmer_hash("ACGT".to_string(), 1, ids(&[0, 5]));
    map.insert_or_append_kmer_hash("CCGT".to_string(), 2, ids(&[0, 5]));
    map.insert_or_append_kmer_hash("GCGT".to_string(), 3, ids(&[0, 6]));
    assert_eq!(map.get_hashed_kmers_with_node(5), Some(ids(&[1, 2])));
    assert_eq!(map.get_hashed_kmers_with_node(0), Some(ids(&[1, 2, 3])));
    assert_eq!(map.get_hashed_kmers_with_node(9), None);
    let by_bucket = map.get_minimized_hashes_with_node(6).unwrap();
    assert_eq!(by_bucket.len(), 1);
    assert_eq!(by_bucket.get(&mur("G")), Some(&ids(&[3])));
    assert!(map.get_minimized_hashes_with_node(9).is_none());
    assert_eq!(map.count_fingerprints(), 3);
}

#[test]
fn restrict_to_fingerprints_drops_empty_buckets() {
    let mut map = KmersMap::new(4, 1);
    map.insert_or_append_kmer_hash("ACGT".to_string(), 1, ids(&[0]));
    map.insert_or_append_kmer_hash("AAGT".to_string(), 2, ids(&[0]));
    map.insert_or_append_kmer_hash("CCGT".to_string(), 3, ids(&[0]));
    let kept = map.get_overlapping_hashes(&ids(&[2, 3, 99]));
    assert_eq!(kept.get_map().len(), 2);
    assert_eq!(kept.count_fingerprints(), 2);
    assert!(kept.get_map().get(&mur("A")).unwrap().get(1).is_none());
    assert_eq!(kept.get_kmer_size(), 4);
    assert_eq!(kept.get_minimizer_size(), 1);
    let none = map.get_overlapping_hashes(&ids(&[42]));
    assert_eq!(none.get_map().len(), 0);
    assert_eq!(none.count_fingerprints(), 0);
}

#[test]
fn restrict_to_buckets_keeps_buckets_whole() {
    let mut map = KmersMap::new(4, 1);
    map.insert_or_append_kmer_hash("ACGT".to_string(), 1, ids(&[0]));
    map.insert_or_append_kmer_hash("AAGT".to_string(), 2, ids(&[0]));
    map.insert_or_append_kmer_hash("CCGT".to_string(), 3, ids(&[0]));
    let kept = map.get_overlapping_buckets(&ids(&[mur("A")]));
    assert_eq!(kept.get_map().len(), 1);
    assert_eq!(kept.count_fingerprints(), 2);
}

#[test]
fn larger_restrictions_keep_every_entry() {
    let mut map = KmersMap::new(4, 1);
    map.insert_or_append_kmer_hash("ACGT".to_string(), 1, ids(&[0, 1]));
    map.insert_or_append_kmer_hash("AAGT".to_string(), 2, ids(&[0, 2]));
    map.insert_or_append_kmer_hash("CCGT".to_string(), 3, ids(&[0, 3]));
    let small = map.get_overlapping_hashes(&ids(&[1]));
    let large = map.get_overlapping_hashes(&ids(&[1, 3]));
    for (b, value) in small.get_map() {
        for (h, nodes) in &value.0 {
            assert_eq!(large.get_map().get(b).unwrap().get(*h), Some(nodes));
        }
    }
    let small = map.get_overlapping_buckets(&ids(&[mur("C")]));
    let large = map.get_overlapping_buckets(&ids(&[mur("C"), mur("A")]));
    for (b, value) in small.get_map() {
        for (h, nodes) in &value.0 {
            assert_eq!(large.get_map().get(b).unwrap().get(*h), Some(nodes));
        }
    }
}

#[test]
fn restrict_by_bucket_selection() {
    let mut map = KmersMap::new(4, 1);
    map.insert_or_append_kmer_hash("ACGT".to_string(), 1, ids(&[0]));
    map.insert_or_append_kmer_hash("AAGT".to_string(), 2, ids(&[0]));
    map.insert_or_append_kmer_hash("CCGT".to_string(), 3, ids(&[0]));
    let mut sel: HashMap<u64, HashSet<u64>> = HashMap::new();
    sel.insert(mur("A"), ids(&[2]));
    sel.insert(mur("C"), ids(&[1]));
    let kept = map.get_overlapping_minimized_hashes(&sel);
    assert_eq!(kept.get_map().len(), 1);
    assert_eq!(kept.get_hashed_kmers_with_node(0), Some(ids(&[2])));
}

#[test]
fn query_restriction_uses_buckets_and_hashes() {
    let mut map = KmersMap::new(4, 1);
    map.insert_or_append_kmer_hash("ACGT".to_string(), mur("ACGT"), ids(&[0]));
    map.insert_or_append_kmer_hash("CCGT".to_string(), mur("CCGT"), ids(&[0]));
    let query = vec![("ACGT".to_string(), mur("ACGT")), ("TTTT".to_string(), mur("TTTT"))];
    let kept = map.get_overlapping_hashed_kmers(&query);
    assert_eq!(kept.count_fingerprints(), 1);
    assert_eq!(kept.get_hashed_kmers_with_node(0), Some(ids(&[mur("ACGT")])));
}

#[test]
fn bucket_level_operations() {
    let mut value = MinimizerValue::new();
    assert!(value.insert_or_append(5, ids(&[1])));
    assert!(!value.insert_or_append(5, ids(&[2])));
    assert!(value.insert_or_append(6, ids(&[2])));
    assert_eq!(value.get(5), Some(&ids(&[1, 2])));
    assert_eq!(value.get_hashed_kmers_with_node(2), Some(ids(&[5, 6])));
    assert_eq!(value.get_hashed_kmers_with_node(1), Some(ids(&[5])));
    assert_eq!(value.get_hashed_kmers_with_node(3), None);
    let kept = value.get_overlapping_hashed_kmers(&ids(&[6, 7]));
    assert_eq!(kept.0.len(), 1);
    assert_eq!(value.hashes(), ids(&[5, 6]));
    assert_eq!(value.duplicate().0, value.0);
}

#[test]
fn minimizer_key_of_prefix() {
    assert_eq!(MinimizerKey::build_minimizer_from_string("ACGTA", 3).0, mur("ACG"));
    assert_eq!(MinimizerKey::build_minimizer_from_string("AC", 3).0, mur("AC"));
    assert_ne!(MinimizerKey::build_minimizer_from_string("ACGTA", 3).0, mur("ACGTA"));
}
