use classeq::index::KmersMap;
use classeq::sequence::SequenceBody;

fn mur(text: &str) -> u64 {
    mur3::murmurhash3_x64_128(text.as_bytes(), 0).0
}

#[test]
fn test_build_kmers_from_sequence() {
    let sequence = "ATCG".to_string();
    let kmers = KmersMap::build_kmers_from_sequence(&sequence, 2);

    println!("{:?}", kmers);

    let texts: Vec<&str> = kmers.iter().map(|(k, _)| k.as_str()).collect();
    assert_eq!(texts, vec!["AT", "TC", "CG"]);
    for (k, h) in &kmers {
        assert_eq!(*h, mur(k));
    }
}

#[test]
fn windows_of_every_size() {
    let cases: Vec<(u64, Vec<&str>)> = vec![
        (1, vec!["A", "T", "C", "G"]),
        (2, vec!["AT", "TC", "CG"]),
        (3, vec!["ATC", "TCG"]),
        (4, vec!["ATCG"]),
        (5, vec![]),
    ];
    for (size, expected) in cases {
        let kmers = KmersMap::build_kmers_from_sequence("ATCG", size);
        let texts: Vec<&str> = kmers.iter().map(|(k, _)| k.as_str()).collect();
        assert_eq!(texts, expected);
    }
}

#[test]
fn fingerprints_cover_both_strands() {
    let map = KmersMap::new(2, 1);
    let kmers = map.build_kmer_from_string("ATCG", None);
    let texts: Vec<&str> = kmers.iter().map(|(k, _)| k.as_str()).collect();
    // forward ATCG, then its reverse complement CGAT
    assert_eq!(texts, vec!["AT", "TC", "CG", "CG", "GA", "AT"]);
    for (k, h) in &kmers {
        assert_eq!(*h, mur(k));
    }
}

#[test]
fn fingerprints_strip_and_uppercase_first() {
    let map = KmersMap::new(3, 1);
    let kmers = map.build_kmer_from_string("a-cNgt", None);
    let texts: Vec<&str> = kmers.iter().map(|(k, _)| k.as_str()).collect();
    // filtered: ACGT; reverse complement: ACGT
    assert_eq!(texts, vec!["ACG", "CGT", "ACG", "CGT"]);
}

#[test]
fn fingerprints_of_short_sequence_are_empty() {
    let map = KmersMap::new(5, 2);
    assert!(map.build_kmer_from_string("ACGT", None).is_empty());
    assert!(map.build_kmer_from_string("ACGTNNNN", None).is_empty());
    assert!(map.build_kmer_from_string("", None).is_empty());
}

#[test]
fn explicit_window_size_overrides_the_index() {
    let map = KmersMap::new(10, 2);
    let kmers = map.build_kmer_from_string("ACGTA", Some(4));
    let texts: Vec<&str> = kmers.iter().map(|(k, _)| k.as_str()).collect();
    assert_eq!(texts, vec!["ACGT", "CGTA", "TACG", "ACGT"]);
}

#[test]
fn reverse_complement_of_strand() {
    assert_eq!(KmersMap::reverse_complement("ATCG"), "CGAT");
    assert_eq!(KmersMap::reverse_complement("aacG"), "CGTT");
    assert_eq!(KmersMap::reverse_complement(""), "");
}

#[test]
fn reverse_complement_twice_gives_same_fingerprints() {
    let map = KmersMap::new(4, 2);
    let s = "ACCGTTAGCAtgca";
    let twice = KmersMap::reverse_complement(&KmersMap::reverse_complement(s));
    let a: std::collections::HashSet<(String, u64)> = map.build_kmer_from_string(s, None).into_iter().collect();
    let b: std::collections::HashSet<(String, u64)> = map.build_kmer_from_string(&twice, None).into_iter().collect();
    assert_eq!(a, b);
    assert!(!a.is_empty());
}

#[test]
fn iupac_filter_keeps_nucleotides_only() {
    assert_eq!(SequenceBody::remove_non_iupac_from_sequence("acgtNNx-T"), "ACGTT");
    assert_eq!(SequenceBody::remove_non_iupac_from_sequence("RYKM"), "");
    assert_eq!(SequenceBody::remove_non_iupac_from_sequence(""), "");
}

#[test]
fn bucket_keys_hash_the_prefix() {
    let map = KmersMap::new(5, 2);
    assert_eq!(map.bucket_key("ACGTA"), mur("AC"));
    let whole = KmersMap::new(5, 9);
    assert_eq!(whole.bucket_key("ACGTA"), mur("ACGTA"));
    let none = KmersMap::new(5, 0);
    assert_eq!(none.bucket_key("ACGTA"), 0);
}

#[test]
fn iupac_filter_follows_unicode_upper_case() {
    // the ligature "st" upper-cases to "ST"
    assert_eq!(SequenceBody::remove_non_iupac_from_sequence("\u{FB06}"), "T");
    // "a" with a right half ring upper-cases to "A" and a modifier letter
    assert_eq!(SequenceBody::remove_non_iupac_from_sequence("\u{1E9A}"), "A");
    // sharp s upper-cases to "SS", which holds no base
    assert_eq!(SequenceBody::remove_non_iupac_from_sequence("\u{DF}c"), "C");
    let map = KmersMap::new(2, 1);
    let kmers = map.build_kmer_from_string("\u{FB06}acg", None);
    let texts: Vec<&str> = kmers.iter().map(|(k, _)| k.as_str()).collect();
    // filtered: TACG; reverse complement: CGTA
    assert_eq!(texts, vec!["TA", "AC", "CG", "CG", "GT", "TA"]);
}
