//! What a placement run reports for each query.
use std::time::Duration;
use vstd::prelude::*;
use crate::placement::PlacementStatus;
use crate::tree::path_to_root;
use crate::tree::Annotation;
use crate::tree::Tree;

verus! {

/// The encoding of placement results.
#[derive(Clone, Copy, Debug, PartialEq, Eq, Structural)]
pub enum OutputFormat {
    /// One JSON document per line.
    Jsonl,
    /// YAML.
    Yaml,
}

/// How sibling evidence is summarised.
#[derive(Clone, Copy, Debug, PartialEq, Eq, Structural)]
pub enum RestComparisonStrategy {
    /// The average of the siblings' matches.
    Avg,
    /// The largest of the siblings' matches.
    Max,
}

/// The time taken to place one sequence.
#[derive(Debug)]
pub struct PlacementTime {
    /// The header of the sequence.
    pub sequence: String,
    /// The time taken.
    pub milliseconds_time: Duration,
}

/// The result reported for one query.
#[derive(Clone, Debug)]
pub struct PlacementResponse<T> {
    query: String,
    code: String,
    annotations: Option<Vec<Annotation>>,
    placement: Option<T>,
}

impl<T> PlacementResponse<T> {
    /// The query's header.
    pub closed spec fn spec_query(&self) -> Seq<char> {
        self.query@
    }

    /// The outcome code.
    pub closed spec fn spec_code(&self) -> Seq<char> {
        self.code@
    }

    /// The annotations attached.
    pub closed spec fn spec_annotations(&self) -> Option<Vec<Annotation>> {
        self.annotations
    }

    /// The placement.
    pub closed spec fn spec_placement(&self) -> Option<T> {
        self.placement
    }

    /// A response without annotations.
    pub fn new(query: String, code: String, placement: Option<T>) -> (r: Self)
        ensures
            r.spec_query() == query@,
            r.spec_code() == code@,
            r.spec_annotations() is None,
            r.spec_placement() == placement,
    {
        PlacementResponse { query, code, annotations: None, placement }
    }

    /// The response with `metadata` as its annotations.
    pub fn with_annotation(self, metadata: Option<Vec<Annotation>>) -> (r: Self)
        ensures
            r.spec_query() == self.spec_query(),
            r.spec_code() == self.spec_code(),
            r.spec_annotations() == metadata,
            r.spec_placement() == self.spec_placement(),
    {
        let mut out = self;
        out.annotations = metadata;
        out
    }

    /// The query's header.
    pub fn query(&self) -> (r: &str)
        ensures
            r@ == self.spec_query(),
    {
        self.query.as_str()
    }

    /// The outcome code.
    pub fn code(&self) -> (r: &str)
        ensures
            r@ == self.spec_code(),
    {
        self.code.as_str()
    }

    /// The annotations attached, if any.
    pub fn annotations(&self) -> (r: Option<&Vec<Annotation>>)
        ensures
            match r {
                Some(v) => self.spec_annotations() == Some(*v),
                None => self.spec_annotations() is None,
            },
    {
        match &self.annotations {
            Some(v) => Some(v),
            None => None,
        }
    }

    /// The placement, if any.
    pub fn placement(&self) -> (r: Option<&T>)
        ensures
            match r {
                Some(p) => self.spec_placement() == Some(*p),
                None => self.spec_placement() is None,
            },
    {
        match &self.placement {
            Some(p) => Some(p),
            None => None,
        }
    }
}

/// The clade a placement ended on: the clade of an identity, or the clade
/// where resolution stopped; `None` for the other outcomes.
pub open spec fn placed_clade(placement: Option<&PlacementStatus>) -> Option<u64> {
    match placement {
        Some(PlacementStatus::MaxResolutionReached(id, _)) => Some(*id),
        Some(PlacementStatus::IdentityFound(test)) => Some(test.clade),
        _ => None,
    }
}

/// The clade a placement ended on: see [`placed_clade`].
pub fn clade_from_placement_status(placement: Option<&PlacementStatus>) -> (r: Option<u64>)
    ensures
        r == placed_clade(placement),
{
    match placement {
        Some(PlacementStatus::MaxResolutionReached(id, _)) => Some(*id),
        Some(PlacementStatus::IdentityFound(test)) => Some(test.clade),
        _ => None,
    }
}

/// `s` with `x` placed after the last element whose clade is not larger
/// than its own: one step of a stable sort by clade.
pub open spec fn insert_by_clade(s: Seq<Annotation>, x: Annotation) -> Seq<Annotation>
    decreases s.len(),
{
    if s.len() == 0 {
        seq![x]
    } else if s.last().clade <= x.clade {
        s.push(x)
    } else {
        insert_by_clade(s.drop_last(), x).push(s.last())
    }
}

/// The annotations whose clade is in `path`, sorted by clade, those of one
/// clade in their order.
pub open spec fn select_on_path(anns: Seq<Annotation>, path: Set<u64>) -> Seq<Annotation>
    decreases anns.len(),
{
    if anns.len() == 0 {
        Seq::empty()
    } else if path.contains(anns.last().clade as u64) {
        insert_by_clade(select_on_path(anns.drop_last(), path), anns.last())
    } else {
        select_on_path(anns.drop_last(), path)
    }
}

/// `out` with `x` inserted after the last annotation whose clade is not
/// larger than its own.
fn insert_sorted(out: &mut Vec<Annotation>, x: Annotation)
    ensures
        final(out)@ == insert_by_clade(old(out)@, x),
{
    let ghost start = out@;
    let mut p: usize = out.len();
    assert(start.take(p as int) =~= start);
    assert(start.take(p as int) + start.skip(p as int) =~= start.take(p as int));
    assert(insert_by_clade(start.take(p as int), x) + start.skip(p as int) =~= insert_by_clade(start, x));
    while p > 0 && out[p - 1].clade > x.clade
        invariant
            p <= out.len(),
            out@ == start,
            insert_by_clade(start, x) == insert_by_clade(start.take(p as int), x) + start.skip(p as int),
        decreases p,
    {
        let ghost t = start.take(p as int);
        assert(t.drop_last() =~= start.take(p - 1));
        assert(t.last() == start[p - 1]);
        assert(insert_by_clade(t, x) == insert_by_clade(start.take(p - 1), x).push(start[p - 1]));
        assert(start.skip(p - 1) =~= seq![start[p - 1]] + start.skip(p as int));
        assert(insert_by_clade(start.take(p - 1), x).push(start[p - 1]) + start.skip(p as int)
            =~= insert_by_clade(start.take(p - 1), x) + start.skip(p - 1));
        p = p - 1;
    }
    if p > 0 {
        assert(start.take(p as int).last() == start[p - 1]);
    }
    assert(insert_by_clade(start.take(p as int), x) =~= start.take(p as int).push(x));
    out.insert(p, x);
    assert(out@ =~= start.take(p as int).push(x) + start.skip(p as int));
}

/// The annotations whose clade lies on the way from the placed clade up to
/// the root, sorted by clade (those of one clade in their order); `None`
/// when the placement names no clade or no annotation lies on that way.
pub fn annotations_on_path(
    tree: &Tree,
    annotations: Vec<Annotation>,
    placement: Option<&PlacementStatus>,
) -> (r: Option<Vec<Annotation>>)
    requires
        tree.wf(),
    ensures
        match placed_clade(placement) {
            None => r is None,
            Some(c) => {
                let selected = select_on_path(annotations@, path_to_root(tree.clades(), c as int));
                if selected.len() == 0 {
                    r is None
                } else {
                    r matches Some(v) && v@ == selected
                }
            },
        },
{
    let clade = match clade_from_placement_status(placement) {
        Some(c) => c,
        None => {
            return None;
        },
    };
    let path = tree.get_path_to_root(clade);
    let ghost all = annotations@;
    let mut rest = annotations;
    let n = rest.len();
    let mut out: Vec<Annotation> = Vec::new();
    let mut i: usize = 0;
    while rest.len() > 0
        invariant
            n == all.len(),
            i + rest.len() == n,
            rest@ == all.skip(i as int),
            out@ == select_on_path(all.take(i as int), path@),
        decreases rest.len(),
    {
        let a = rest.remove(0);
        assert(a == all[i as int]);
        assert(all.take(i + 1).drop_last() =~= all.take(i as int));
        assert(all.take(i + 1).last() == a);
        assert(rest@ =~= all.skip(i + 1));
        if path.contains(&(a.clade as u64)) {
            insert_sorted(&mut out, a);
        }
        i = i + 1;
    }
    assert(all.take(i as int) =~= all);
    if out.len() == 0 {
        None
    } else {
        Some(out)
    }
}

} // verus!
