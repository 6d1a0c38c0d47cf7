//! The reference tree: an arena of clades addressed by id, each with its
//! parent and its children.
use std::collections::HashSet;
use vstd::prelude::*;
use crate::index::KmersMap;

verus! {

broadcast use vstd::std_specs::hash::group_hash_axioms;

/// Declares uuid::Uuid, the id of a tree; it is only carried, never read.
#[verifier::external_type_specification]
#[verifier::external_body]
pub struct ExUuid(uuid::Uuid);

/// The kind of a clade.
#[derive(Clone, Copy, Debug, PartialEq, Eq, Structural)]
pub enum NodeType {
    /// The root of the tree
    Root,
    /// An internal node
    Node,
    /// A terminal node
    Leaf,
}

/// A tag of an annotation.
#[derive(Clone, Debug, PartialEq, Eq)]
pub enum Tag {
    /// Taxid tag.
    Taxid(u32),
    /// The scientific name of the organism.
    SciName(String),
    /// A rank.
    Rank(String),
    /// A gene.
    Gene(String),
    /// The method used to infer the phylogeny.
    InferenceMethod(String),
    /// A free note.
    Note(String),
}

/// Tags attached to a clade.
#[derive(Clone, Debug, PartialEq, Eq)]
pub struct Annotation {
    /// The clade the annotation belongs to.
    pub clade: u32,
    /// The tags of the annotation.
    pub meta: Option<Vec<Tag>>,
}

/// A node of the tree.
#[derive(Debug)]
pub struct Clade {
    /// The id of the clade, its place in the tree's arena.
    pub id: u64,
    /// The id of the parent; `None` for the root.
    pub parent: Option<u64>,
    /// Root, internal node or leaf.
    pub kind: NodeType,
    /// The name, for leaves and named internal nodes.
    pub name: Option<String>,
    /// The ids of the children, in order; empty for a leaf.
    pub children: Vec<u64>,
}

impl Clade {
    /// Whether the clade is the root.
    pub fn is_root(&self) -> (r: bool)
        ensures
            r == (self.kind == NodeType::Root),
    {
        self.kind == NodeType::Root
    }

    /// Whether the clade is a leaf.
    pub fn is_leaf(&self) -> (r: bool)
        ensures
            r == (self.kind == NodeType::Leaf),
    {
        self.kind == NodeType::Leaf
    }

    /// Whether the clade is an internal node.
    pub fn is_internal(&self) -> (r: bool)
        ensures
            r == (self.kind == NodeType::Node),
    {
        self.kind == NodeType::Node
    }
}

/// Whether a list of clades forms a tree rooted at id 0: ids are positions,
/// every other clade has a parent of smaller id that lists it among its
/// children, children lists hold no repeats, and leaves have no children.
pub open spec fn well_formed(cl: Seq<Clade>) -> bool {
    &&& 1 <= cl.len() <= u64::MAX
    &&& forall|i: int| 0 <= i < cl.len() ==> #[trigger] cl[i].id == i
    &&& cl[0].kind == NodeType::Root
    &&& cl[0].parent is None
    &&& forall|i: int|
        0 < i < cl.len() ==> {
            &&& #[trigger] cl[i].kind != NodeType::Root
            &&& cl[i].parent matches Some(p) && p < i && cl[p as int].kind != NodeType::Leaf
                && cl[p as int].children@.contains(i as u64)
        }
    &&& forall|i: int, j: int|
        0 <= i < cl.len() && 0 <= j < cl[i].children@.len() ==> {
            let c = #[trigger] cl[i].children@[j];
            &&& i < c < cl.len()
            &&& cl[c as int].parent == Some(i as u64)
        }
    &&& forall|i: int| 0 <= i < cl.len() ==> (#[trigger] cl[i].children@).no_duplicates()
    &&& forall|i: int|
        0 <= i < cl.len() && #[trigger] cl[i].kind == NodeType::Leaf ==> cl[i].children@.len() == 0
}

/// The ids on the way from clade `id` up to the root, both included.
pub open spec fn path_to_root(cl: Seq<Clade>, id: int) -> Set<u64>
    decreases id,
{
    if 0 <= id < cl.len() {
        match cl[id].parent {
            Some(p) => if p < id {
                path_to_root(cl, p as int).insert(id as u64)
            } else {
                set![id as u64]
            },
            None => set![id as u64],
        }
    } else {
        Set::empty()
    }
}

/// Whether clade `i` is a leaf named `name`.
pub open spec fn is_leaf_named(cl: Seq<Clade>, i: int, name: Seq<char>) -> bool {
    &&& cl[i].kind == NodeType::Leaf
    &&& cl[i].name matches Some(n) && n@ == name
}

/// The first leaf, from id `from` on, named `name`.
pub open spec fn find_leaf(cl: Seq<Clade>, name: Seq<char>, from: int) -> Option<int>
    decreases cl.len() - from,
{
    if from < 0 || from >= cl.len() {
        None
    } else if is_leaf_named(cl, from, name) {
        Some(from)
    } else {
        find_leaf(cl, name, from + 1)
    }
}

/// Whether two texts are equal.
pub fn same_text(a: &str, b: &str) -> (r: bool)
    ensures
        r == (a@ == b@),
{
    let x = crate::codec::chars_of(a);
    let y = crate::codec::chars_of(b);
    if x.len() != y.len() {
        return false;
    }
    let mut i: usize = 0;
    while i < x.len()
        invariant
            x@ == a@,
            y@ == b@,
            x.len() == y.len(),
            i <= x.len(),
            forall|j: int| 0 <= j < i ==> x@[j] == y@[j],
        decreases x.len() - i,
    {
        if x[i] != y[i] {
            return false;
        }
        i = i + 1;
    }
    assert(x@ =~= y@);
    true
}

/// The ids of the leaves among the first `n` clades, in order.
pub open spec fn leaf_ids(cl: Seq<Clade>, n: int) -> Seq<u64>
    decreases n,
{
    if n <= 0 {
        Seq::empty()
    } else if cl[n - 1].kind == NodeType::Leaf {
        leaf_ids(cl, n - 1).push((n - 1) as u64)
    } else {
        leaf_ids(cl, n - 1)
    }
}

/// A leaf found from `from` on lies between `from` and the end.
pub proof fn lemma_find_leaf_range(cl: Seq<Clade>, name: Seq<char>, from: int)
    ensures
        find_leaf(cl, name, from) matches Some(i) ==> from <= i < cl.len() && is_leaf_named(cl, i, name),
    decreases cl.len() - from,
{
    if 0 <= from < cl.len() && !is_leaf_named(cl, from, name) {
        lemma_find_leaf_range(cl, name, from + 1);
    }
}

/// A reference tree: its id, its name, its clades, and what is attached to
/// it (annotations, and the fingerprint index built from its leaves).
pub struct Tree {
    /// The id of the tree.
    pub id: uuid::Uuid,
    /// The name of the tree.
    pub name: String,
    /// The clades, by id; see [`well_formed`].
    pub clades: Vec<Clade>,
    /// Annotations of clades.
    pub annotations: Option<Vec<Annotation>>,
    /// The fingerprint index of the leaves.
    pub kmers_map: Option<KmersMap>,
}

/// Appending a clade under a parent that is not a leaf keeps a tree well
/// formed.
#[verifier::rlimit(100)]
proof fn lemma_push_child(before: Seq<Clade>, after: Seq<Clade>, parent: int)
    requires
        well_formed(before),
        0 <= parent < before.len() < u64::MAX,
        before[parent].kind != NodeType::Leaf,
        after.len() == before.len() + 1,
        after[parent].children@ == before[parent].children@.push(before.len() as u64),
        after[parent].kind == before[parent].kind,
        after[parent].parent == before[parent].parent,
        after[parent].id == before[parent].id,
        forall|i: int| 0 <= i < before.len() && i != parent ==> after[i] == before[i],
        after[before.len() as int].id == before.len(),
        after[before.len() as int].parent == Some(parent as u64),
        after[before.len() as int].kind != NodeType::Root,
        after[before.len() as int].children@.len() == 0,
    ensures
        well_formed(after),
{
    let n = before.len() as int;
    assert forall|i: int| 0 <= i < after.len() implies #[trigger] after[i].id == i by {
        if i < n && i != parent {
            assert(after[i] == before[i]);
        }
    }
    assert forall|i: int| 0 <= i < after.len() implies (#[trigger] after[i].children@).no_duplicates() by {
        if i == parent {
            assert forall|a: int, b: int|
                0 <= a < b < after[i].children@.len() implies after[i].children@[a] != after[i].children@[b] by {
                if b == after[i].children@.len() - 1 {
                    let c = before[i].children@[a];
                    assert(c == before[i].children@[a]);
                    assert(c < n);
                } else {
                    assert(before[i].children@.no_duplicates());
                }
            }
        } else if i < n {
            assert(after[i] == before[i]);
        }
    }
    assert forall|i: int, j: int| 0 <= i < after.len() && 0 <= j < after[i].children@.len() implies {
        let c = #[trigger] after[i].children@[j];
        &&& i < c < after.len()
        &&& after[c as int].parent == Some(i as u64)
    } by {
        if i == parent && j == after[i].children@.len() - 1 {
        } else if i < n {
            if i != parent {
                assert(after[i] == before[i]);
            }
            let c = before[i].children@[j];
            assert(after[i].children@[j] == c);
            assert(i < c < n);
            if c != parent {
                assert(after[c as int] == before[c as int]);
            }
        }
    }
    assert forall|i: int| 0 < i < after.len() implies {
        &&& #[trigger] after[i].kind != NodeType::Root
        &&& after[i].parent matches Some(p) && p < i && after[p as int].kind != NodeType::Leaf
            && after[p as int].children@.contains(i as u64)
    } by {
        if i < n {
            if i != parent {
                assert(after[i] == before[i]);
            }
            assert(before[i].kind != NodeType::Root);
            let p = before[i].parent->0;
            assert(before[p as int].children@.contains(i as u64));
            let k = choose|k: int| 0 <= k < before[p as int].children@.len()
                && before[p as int].children@[k] == i as u64;
            if p != parent {
                assert(after[p as int] == before[p as int]);
            }
            assert(after[p as int].children@[k] == i as u64);
        } else {
            assert(after[parent].children@[after[parent].children@.len() - 1] == n as u64);
        }
    }
    assert forall|i: int| 0 <= i < after.len() && #[trigger] after[i].kind == NodeType::Leaf implies
        after[i].children@.len() == 0 by {
        if i < n && i != parent {
            assert(after[i] == before[i]);
        }
    }
    if parent != 0 {
        assert(after[0] == before[0]);
    }
}

impl Tree {
    /// The clades, by id.
    pub open spec fn clades(&self) -> Seq<Clade> {
        self.clades@
    }

    /// Whether the clades form a tree rooted at id 0.
    pub open spec fn wf(&self) -> bool {
        well_formed(self.clades())
    }

    /// A tree with a root alone, id 0.
    pub fn new(id: uuid::Uuid, name: String) -> (r: Tree)
        ensures
            r.wf(),
            r.clades().len() == 1,
            r.clades()[0].name is None,
            r.id == id,
            r.name == name,
            r.annotations is None,
            r.kmers_map is None,
    {
        let root = Clade { id: 0, parent: None, kind: NodeType::Root, name: None, children: Vec::new() };
        let mut clades: Vec<Clade> = Vec::new();
        clades.push(root);
        Tree { id, name, clades, annotations: None, kmers_map: None }
    }

    fn add_child(&mut self, parent_id: u64, kind: NodeType, name: Option<String>) -> (r: Option<u64>)
        requires
            old(self).wf(),
            kind != NodeType::Root,
        ensures
            final(self).wf(),
            final(self).name == old(self).name,
            final(self).annotations == old(self).annotations,
            final(self).kmers_map == old(self).kmers_map,
            match r {
                Some(id) => {
                    &&& parent_id < old(self).clades().len()
                    &&& old(self).clades()[parent_id as int].kind != NodeType::Leaf
                    &&& old(self).clades().len() < u64::MAX
                    &&& id == old(self).clades().len()
                    &&& final(self).clades().len() == id + 1
                    &&& final(self).clades()[id as int].kind == kind
                    &&& final(self).clades()[id as int].name == name
                    &&& final(self).clades()[id as int].parent == Some(parent_id)
                },
                None => {
                    &&& final(self).clades() == old(self).clades()
                    &&& (parent_id >= old(self).clades().len() || old(self).clades()[parent_id as int].kind
                        == NodeType::Leaf || old(self).clades().len() == u64::MAX)
                },
            },
    {
        let n = self.clades.len();
        if parent_id as usize >= n || n as u64 == u64::MAX || parent_id >= n as u64 {
            return None;
        }
        if self.clades[parent_id as usize].kind == NodeType::Leaf {
            return None;
        }
        let id = n as u64;
        let ghost before = self.clades@;
        self.clades[parent_id as usize].children.push(id);
        self.clades.push(Clade { id, parent: Some(parent_id), kind, name, children: Vec::new() });
        proof {
            lemma_push_child(before, self.clades@, parent_id as int);
        }
        Some(id)
    }

    /// Adds a leaf named `name` under clade `parent_id`; its id is the
    /// number of clades before. `None`, and the tree unchanged, when the
    /// parent does not exist or is a leaf, or the tree is full.
    pub fn new_leaf(&mut self, parent_id: u64, name: String) -> (r: Option<u64>)
        requires
            old(self).wf(),
        ensures
            final(self).wf(),
            match r {
                Some(id) => {
                    &&& parent_id < old(self).clades().len()
                    &&& old(self).clades()[parent_id as int].kind != NodeType::Leaf
                    &&& id == old(self).clades().len()
                    &&& final(self).clades().len() == id + 1
                    &&& final(self).clades()[id as int].kind == NodeType::Leaf
                    &&& final(self).clades()[id as int].name == Some(name)
                    &&& final(self).clades()[id as int].parent == Some(parent_id)
                },
                None => {
                    &&& final(self).clades() == old(self).clades()
                    &&& (parent_id >= old(self).clades().len() || old(self).clades()[parent_id as int].kind
                        == NodeType::Leaf || old(self).clades().len() == u64::MAX)
                },
            },
    {
        self.add_child(parent_id, NodeType::Leaf, Some(name))
    }

    /// Adds an internal node under clade `parent_id`; its id is the number
    /// of clades before. `None`, and the tree unchanged, when the parent does
    /// not exist or is a leaf, or the tree is full.
    pub fn new_internal(&mut self, parent_id: u64, name: Option<String>) -> (r: Option<u64>)
        requires
            old(self).wf(),
        ensures
            final(self).wf(),
            match r {
                Some(id) => {
                    &&& parent_id < old(self).clades().len()
                    &&& old(self).clades()[parent_id as int].kind != NodeType::Leaf
                    &&& id == old(self).clades().len()
                    &&& final(self).clades().len() == id + 1
                    &&& final(self).clades()[id as int].kind == NodeType::Node
                    &&& final(self).clades()[id as int].name == name
                    &&& final(self).clades()[id as int].parent == Some(parent_id)
                },
                None => {
                    &&& final(self).clades() == old(self).clades()
                    &&& (parent_id >= old(self).clades().len() || old(self).clades()[parent_id as int].kind
                        == NodeType::Leaf || old(self).clades().len() == u64::MAX)
                },
            },
    {
        self.add_child(parent_id, NodeType::Node, name)
    }

    /// The number of clades.
    pub fn len(&self) -> (r: usize)
        ensures
            r == self.clades().len(),
    {
        self.clades.len()
    }

    /// The clade of id `id`, if there is one.
    pub fn get_node_by_id(&self, id: u64) -> (r: Option<&Clade>)
        ensures
            match r {
                Some(c) => id < self.clades().len() && *c == self.clades()[id as int],
                None => id >= self.clades().len(),
            },
    {
        if id >= self.clades.len() as u64 {
            None
        } else {
            Some(&self.clades[id as usize])
        }
    }

    /// The root clade.
    pub fn root(&self) -> (r: &Clade)
        requires
            self.wf(),
        ensures
            *r == self.clades()[0],
    {
        &self.clades[0]
    }

    /// The ids from clade `id` up to the root, both included; empty when
    /// there is no such clade.
    pub fn get_path_to_root(&self, id: u64) -> (r: HashSet<u64>)
        requires
            self.wf(),
        ensures
            r@ == path_to_root(self.clades(), id as int),
    {
        let mut path: HashSet<u64> = HashSet::new();
        if id >= self.clades.len() as u64 {
            assert(path@ =~= path_to_root(self.clades(), id as int));
            return path;
        }
        let mut current: u64 = id;
        let n = self.clades.len();
        loop
            invariant
                self.wf(),
                n == self.clades().len(),
                current < self.clades().len(),
                path_to_root(self.clades(), id as int) == path@.union(path_to_root(self.clades(), current as int)),
            decreases current,
        {
            path.insert(current);
            let ci = current as usize;
            assert(ci as int == current as int);
            match self.clades[ci].parent {
                Some(p) => {
                    assert(self.clades()[current as int].parent == Some(p));
                    assert(current > 0);
                    assert(self.clades()[current as int].kind != NodeType::Root);
                    assert(path_to_root(self.clades(), current as int) =~= path_to_root(self.clades(), p as int).insert(current));
                    assert(path_to_root(self.clades(), id as int) =~= path@.union(path_to_root(self.clades(), p as int)));
                    current = p;
                },
                None => {
                    assert(self.clades()[current as int].parent is None);
                    assert(path_to_root(self.clades(), current as int) == set![current]);
                    assert(path_to_root(self.clades(), id as int) =~= path@);
                    return path;
                },
            }
        }
    }

    /// Each leaf, in id order, with the ids from it up to the root.
    pub fn get_leaves_with_paths(&self) -> (r: Vec<(u64, HashSet<u64>)>)
        requires
            self.wf(),
        ensures
            r@.map_values(|e: (u64, HashSet<u64>)| e.0) == leaf_ids(self.clades(), self.clades().len() as int),
            forall|k: int|
                0 <= k < r.len() ==> (#[trigger] r@[k]).1@ == path_to_root(self.clades(), r@[k].0 as int),
    {
        let n = self.clades.len();
        let mut out: Vec<(u64, HashSet<u64>)> = Vec::new();
        let mut i: usize = 0;
        while i < n
            invariant
                self.wf(),
                n == self.clades().len(),
                i <= n,
                out@.map_values(|e: (u64, HashSet<u64>)| e.0) == leaf_ids(self.clades(), i as int),
                forall|k: int|
                    0 <= k < out.len() ==> (#[trigger] out@[k]).1@ == path_to_root(self.clades(), out@[k].0 as int),
            decreases n - i,
        {
            let ghost before = out@;
            if self.clades[i].is_leaf() {
                let path = self.get_path_to_root(i as u64);
                out.push((i as u64, path));
                assert(out@.map_values(|e: (u64, HashSet<u64>)| e.0) =~= before.map_values(
                    |e: (u64, HashSet<u64>)| e.0,
                ).push(i as u64));
            }
            i = i + 1;
        }
        out
    }

    /// The first leaf named `name`.
    pub fn get_leaf_by_name(&self, name: &str) -> (r: Option<u64>)
        ensures
            r == (match find_leaf(self.clades(), name@, 0) {
                Some(i) => Some(i as u64),
                None => None::<u64>,
            }),
    {
        let n = self.clades.len();
        let mut i: usize = 0;
        while i < n
            invariant
                n == self.clades().len(),
                i <= n,
                find_leaf(self.clades(), name@, 0) == find_leaf(self.clades(), name@, i as int),
            decreases n - i,
        {
            let c = &self.clades[i];
            if c.kind == NodeType::Leaf {
                match &c.name {
                    Some(s) => {
                        if same_text(s.as_str(), name) {
                            return Some(i as u64);
                        }
                    },
                    None => {},
                }
            }
            i = i + 1;
        }
        None
    }
}


/// The k-mers of `ks` split, in order, into those not seen before (neither
/// in `seen` nor earlier in `ks`) and the others.
pub open spec fn split_new(seen: Set<i32>, ks: Seq<i32>) -> (Seq<i32>, Seq<i32>)
    decreases ks.len(),
{
    if ks.len() == 0 {
        (Seq::empty(), Seq::empty())
    } else {
        let (a, b) = split_new(seen, ks.drop_last());
        if seen.union(ks.drop_last().to_set()).contains(ks.last()) {
            (a, b.push(ks.last()))
        } else {
            (a.push(ks.last()), b)
        }
    }
}

/// A set of k-mers attached to a clade.
#[derive(Debug)]
pub struct CladeKmers {
    /// The clade the k-mers belong to.
    pub clade: uuid::Uuid,
    kmers: HashSet<i32>,
}

impl CladeKmers {
    /// The k-mers held.
    pub closed spec fn kmers(&self) -> Set<i32> {
        self.kmers@
    }

    /// The clade.
    pub closed spec fn owner(&self) -> uuid::Uuid {
        self.clade
    }

    /// An empty set for `clade`.
    pub fn new(clade: uuid::Uuid) -> (r: Self)
        ensures
            r.owner() == clade,
            r.kmers() == Set::<i32>::empty(),
    {
        CladeKmers { clade, kmers: HashSet::new() }
    }

    /// Adds `kmer`; true when it was not there.
    pub fn insert(&mut self, kmer: i32) -> (r: bool)
        ensures
            final(self).kmers() == old(self).kmers().insert(kmer),
            final(self).owner() == old(self).owner(),
            r == !old(self).kmers().contains(kmer),
    {
        self.kmers.insert(kmer)
    }

    /// Adds each k-mer in order; returns those that were new and those that
    /// were already there, in order.
    pub fn insert_many(&mut self, kmers: Vec<i32>) -> (r: (Vec<i32>, Vec<i32>))
        ensures
            final(self).kmers() == old(self).kmers().union(kmers@.to_set()),
            final(self).owner() == old(self).owner(),
            (r.0@, r.1@) == split_new(old(self).kmers(), kmers@),
    {
        let mut inserted: Vec<i32> = Vec::new();
        let mut ignored: Vec<i32> = Vec::new();
        let ghost start = self.kmers@;
        let mut i: usize = 0;
        while i < kmers.len()
            invariant
                i <= kmers.len(),
                self.kmers@ == start.union(kmers@.take(i as int).to_set()),
                self.clade == old(self).clade,
                start == old(self).kmers@,
                (inserted@, ignored@) == split_new(start, kmers@.take(i as int)),
            decreases kmers.len() - i,
        {
            let k = kmers[i];
            let ghost before = kmers@.take(i as int);
            assert(kmers@.take(i + 1) =~= before.push(k));
            assert(before.push(k).to_set() =~= before.to_set().insert(k)) by {
                assert forall|y: i32| #[trigger] before.push(k).contains(y) implies before.contains(y) || y == k by {
                    let j = choose|j: int| 0 <= j < before.len() + 1 && before.push(k)[j] == y;
                    if j < before.len() {
                        assert(before[j] == y);
                    }
                }
                assert forall|y: i32| before.contains(y) implies #[trigger] before.push(k).contains(y) by {
                    let j = choose|j: int| 0 <= j < before.len() && before[j] == y;
                    assert(before.push(k)[j] == y);
                }
                assert(before.push(k)[before.len() as int] == k);
            }
            assert(kmers@.take(i + 1).drop_last() =~= before);
            if self.insert(k) {
                inserted.push(k);
            } else {
                ignored.push(k);
            }
            i = i + 1;
        }
        assert(kmers@.take(kmers.len() as int) =~= kmers@);
        (inserted, ignored)
    }

    /// Whether `kmer` is held.
    pub fn contains(&self, kmer: i32) -> (r: bool)
        ensures
            r == self.kmers().contains(kmer),
    {
        self.kmers.contains(&kmer)
    }

    /// The number of k-mers held.
    pub fn len(&self) -> (r: usize)
        ensures
            r == self.kmers().len(),
    {
        self.kmers.len()
    }
}
} // verus!
