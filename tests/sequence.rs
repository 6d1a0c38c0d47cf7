use classeq::placement::AdherenceTest;
use classeq::placement::PlacementStatus;
use classeq::response::annotations_on_path;
use classeq::response::PlacementResponse;
use classeq::sequence::FileOrStdin;
use classeq::sequence::Msa;
use classeq::sequence::Sequence;
use classeq::sequence::SequenceBody;
use classeq::sequence::SequenceHeader;
use classeq::sequence::Source;
use classeq::sequence::StdinError;
use classeq::tree::Annotation;
use classeq::tree::CladeKmers;
use classeq::tree::Tag;
use classeq::tree::Tree;

fn lines(text: &str) -> Vec<String> {
    text.lines().map(|l| l.to_string()).collect()
}

#[test]
fn fasta_records_are_read() {
    let v = FileOrStdin::sequence_content(&lines(">s1\nacgt\nNNAC\n\n>s>2\nTTTT\n")).unwrap();
    assert_eq!(v.len(), 2);
    assert_eq!(v[0].header_content(), "s1");
    assert_eq!(v[0].sequence_content(), "ACGTAC");
    assert_eq!(v[1].header_content(), "s2");
    assert_eq!(v[1].sequence_content(), "TTTT");
}

#[test]
fn fasta_last_record_needs_residues() {
    let v = FileOrStdin::sequence_content(&lines(">s1\nACGT\n>s2\n")).unwrap();
    assert_eq!(v.len(), 1);
    let v = FileOrStdin::sequence_content(&lines(">s1\n>s2\nAC\n")).unwrap();
    assert_eq!(v.len(), 2);
    assert_eq!(v[0].sequence_content(), "");
    assert!(FileOrStdin::sequence_content(&vec![]).unwrap().is_empty());
}

#[test]
fn residues_before_header_fail() {
    let r = FileOrStdin::sequence_content(&lines("ACGT\n>s1\nAC\n"));
    assert!(matches!(r, Err(StdinError::FromStr(_))));
}

#[test]
fn fasta_of_sequence() {
    let s = Sequence::new("Col_orchidophilum".to_string(), "CCTTCA".to_string());
    assert_eq!(s.to_fasta(), ">Col_orchidophilum\nCCTTCA\n");
    assert_eq!(s.header().header(), "Col_orchidophilum");
    assert_eq!(s.sequence().seq(), "CCTTCA");
    assert_eq!(SequenceHeader::new("h".to_string()).header(), "h");
    assert_eq!(SequenceBody::new("AC".to_string()).seq(), "AC");
    let _ = Msa::new();
}

#[test]
fn source_of_file() {
    let f = FileOrStdin::from_file("/data/in.fasta");
    assert_eq!(f.source, Source::Arg("/data/in.fasta".to_string()));
}

#[test]
fn response_keeps_what_it_is_given() {
    let r = PlacementResponse::new("q".to_string(), "IdentityFound".to_string(), Some(3u64));
    assert_eq!(r.placement(), Some(&3));
    let annotation = Annotation { clade: 1, meta: Some(vec![Tag::Taxid(9606), Tag::Note("any other tag".to_string())]) };
    let r = r.with_annotation(Some(vec![annotation]));
    assert_eq!(r.placement(), Some(&3));
    let none: PlacementResponse<u64> = PlacementResponse::new("q".to_string(), "c".to_string(), None);
    assert_eq!(none.placement(), None);
}

#[test]
fn tree_building_and_paths() {
    let mut tree = Tree::new(uuid::Uuid::nil(), "t".to_string());
    assert_eq!(tree.len(), 1);
    let a = tree.new_internal(0, Some("A".to_string())).unwrap();
    let l = tree.new_leaf(a, "x".to_string()).unwrap();
    let m = tree.new_leaf(0, "y".to_string()).unwrap();
    assert_eq!((a, l, m), (1, 2, 3));
    assert_eq!(tree.new_leaf(l, "z".to_string()), None);
    assert_eq!(tree.new_internal(99, None), None);
    assert_eq!(tree.len(), 4);
    let path: Vec<u64> = {
        let mut p: Vec<u64> = tree.get_path_to_root(l).into_iter().collect();
        p.sort();
        p
    };
    assert_eq!(path, vec![0, 1, 2]);
    assert!(tree.get_path_to_root(42).is_empty());
    assert_eq!(tree.get_leaf_by_name("y"), Some(3));
    assert_eq!(tree.get_leaf_by_name("A"), None);
    let leaves: Vec<u64> = tree.get_leaves_with_paths().into_iter().map(|(id, _)| id).collect();
    assert_eq!(leaves, vec![2, 3]);
    assert!(tree.root().is_root());
    assert!(tree.get_node_by_id(2).unwrap().is_leaf());
    assert!(tree.get_node_by_id(1).unwrap().is_internal());
    assert!(tree.get_node_by_id(9).is_none());
}

#[test]
fn clade_kmers_split_new_and_known() {
    let mut set = CladeKmers::new(uuid::Uuid::nil());
    assert!(set.insert(4));
    assert!(!set.insert(4));
    let (inserted, ignored) = set.insert_many(vec![1, 4, 2, 1]);
    assert_eq!(inserted, vec![1, 2]);
    assert_eq!(ignored, vec![4, 1]);
    assert!(set.contains(2));
    assert!(!set.contains(3));
    assert_eq!(set.len(), 3);
}

fn annotation(clade: u32, note: &str) -> Annotation {
    Annotation { clade, meta: Some(vec![Tag::Note(note.to_string())]) }
}

#[test]
fn annotations_on_the_placed_path() {
    // root(0) -> A(1) -> x(2), root -> y(3)
    let mut tree = Tree::new(uuid::Uuid::nil(), "t".to_string());
    let a = tree.new_internal(0, None).unwrap();
    tree.new_leaf(a, "x".to_string()).unwrap();
    tree.new_leaf(0, "y".to_string()).unwrap();
    let anns = vec![annotation(2, "leaf"), annotation(3, "other"), annotation(0, "root"), annotation(1, "A"), annotation(0, "root again")];
    let placed = PlacementStatus::IdentityFound(AdherenceTest { clade: 2, one: 3, rest: 0 });
    let got = annotations_on_path(&tree, anns.clone(), Some(&placed)).unwrap();
    let notes: Vec<(u32, String)> = got
        .iter()
        .map(|a| match &a.meta.as_ref().unwrap()[0] {
            Tag::Note(n) => (a.clade, n.clone()),
            _ => panic!("unexpected tag"),
        })
        .collect();
    assert_eq!(
        notes,
        vec![(0, "root".to_string()), (0, "root again".to_string()), (1, "A".to_string()), (2, "leaf".to_string())]
    );
    let stop = PlacementStatus::MaxResolutionReached(1, "LCA accepted".to_string());
    assert_eq!(annotations_on_path(&tree, anns.clone(), Some(&stop)).unwrap().len(), 3);
    let none = PlacementStatus::Unclassifiable("no".to_string());
    assert!(annotations_on_path(&tree, anns.clone(), Some(&none)).is_none());
    assert!(annotations_on_path(&tree, anns.clone(), None).is_none());
    assert!(annotations_on_path(&tree, vec![annotation(3, "other")], Some(&placed)).is_none());
}
