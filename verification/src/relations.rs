//! Relation resolver: given the stored relation edges and a plant, lists
//! every other plant the queried plant has a recorded relationship with.
//!
//! An edge is conceptually undirected but stored as an ordered pair, in
//! either orientation. The resolver scans both orientations and, like the
//! union of the two scans, never returns the same tuple twice within one
//! query's result.

use vstd::prelude::*;

verus! {

/// Classification of how two plant species interact when planted near each
/// other.
#[derive(Clone, Copy, Debug, PartialEq, Eq, Structural)]
pub enum RelationKind {
    /// Beneficial to each other.
    Companion,
    /// Harmful to each other.
    Antagonist,
    /// No recorded effect.
    Neutral,
}

/// One stored relation edge: an ordered pair of plant identifiers and the
/// kind of their relationship. The relationship itself is undirected; the
/// store may hold it in either orientation.
#[derive(Clone, Copy, Debug, PartialEq, Eq, Structural)]
pub struct RelationEdge {
    /// First stored endpoint.
    pub plant1: i32,
    /// Second stored endpoint.
    pub plant2: i32,
    /// Kind of the relationship.
    pub relation: RelationKind,
}

/// One relation of the queried plant: the other endpoint and the kind.
#[derive(Clone, Copy, Debug, PartialEq, Eq, Structural)]
pub struct RelationDto {
    /// The other endpoint of the edge.
    pub id: i32,
    /// Kind of the relationship.
    pub relation: RelationKind,
}

/// All relations of one plant, wrapped with the queried plant's id for the
/// caller's convenience.
#[derive(Clone, Debug)]
pub struct RelationsDto {
    /// The queried plant.
    pub id: i32,
    /// Every relation the queried plant participates in, each exactly once.
    pub relations: Vec<RelationDto>,
}

/// Tuples emitted by the first scan direction: for every edge whose first
/// endpoint is the queried plant, the second endpoint and the kind, in
/// storage order.
pub open spec fn forward_hits(edges: Seq<RelationEdge>, plant_id: i32) -> Seq<RelationDto>
    decreases edges.len(),
{
    if edges.len() == 0 {
        Seq::empty()
    } else {
        let rest = forward_hits(edges.drop_last(), plant_id);
        if edges.last().plant1 == plant_id {
            rest.push(RelationDto { id: edges.last().plant2, relation: edges.last().relation })
        } else {
            rest
        }
    }
}

/// Tuples emitted by the second scan direction: for every edge whose second
/// endpoint is the queried plant, the first endpoint and the kind, in
/// storage order.
pub open spec fn backward_hits(edges: Seq<RelationEdge>, plant_id: i32) -> Seq<RelationDto>
    decreases edges.len(),
{
    if edges.len() == 0 {
        Seq::empty()
    } else {
        let rest = backward_hits(edges.drop_last(), plant_id);
        if edges.last().plant2 == plant_id {
            rest.push(RelationDto { id: edges.last().plant1, relation: edges.last().relation })
        } else {
            rest
        }
    }
}

/// Union semantics over a sequence of candidate tuples: keep each tuple's
/// first occurrence, drop later repetitions.
pub open spec fn distinct_union(s: Seq<RelationDto>) -> Seq<RelationDto>
    decreases s.len(),
{
    if s.len() == 0 {
        Seq::empty()
    } else {
        let rest = distinct_union(s.drop_last());
        if rest.contains(s.last()) {
            rest
        } else {
            rest.push(s.last())
        }
    }
}

/// The resolver's result for `plant_id`: the union of both scan directions,
/// first occurrence of each tuple kept.
pub open spec fn relations_of(edges: Seq<RelationEdge>, plant_id: i32) -> Seq<RelationDto> {
    distinct_union(forward_hits(edges, plant_id) + backward_hits(edges, plant_id))
}

/// Pushing a tuple adds exactly that tuple to the members of a sequence.
proof fn lemma_push_contains(s: Seq<RelationDto>, x: RelationDto, d: RelationDto)
    ensures
        s.push(x).contains(d) <==> s.contains(d) || d == x,
{
    if s.contains(d) {
        let k = choose|k: int| 0 <= k < s.len() && s[k] == d;
        assert(s.push(x)[k] == d);
    }
    if d == x {
        assert(s.push(x)[s.len() as int] == d);
    }
    if s.push(x).contains(d) && d != x {
        let k = choose|k: int| 0 <= k < s.push(x).len() && s.push(x)[k] == d;
        assert(s[k] == d);
    }
}

/// A concatenation's members are the members of its two parts.
proof fn lemma_concat_contains(a: Seq<RelationDto>, b: Seq<RelationDto>, d: RelationDto)
    ensures
        (a + b).contains(d) <==> a.contains(d) || b.contains(d),
{
    if a.contains(d) {
        let k = choose|k: int| 0 <= k < a.len() && a[k] == d;
        assert((a + b)[k] == d);
    }
    if b.contains(d) {
        let k = choose|k: int| 0 <= k < b.len() && b[k] == d;
        assert((a + b)[a.len() + k] == d);
    }
    if (a + b).contains(d) {
        let k = choose|k: int| 0 <= k < (a + b).len() && (a + b)[k] == d;
        if k < a.len() {
            assert(a[k] == d);
        } else {
            assert(b[k - a.len()] == d);
        }
    }
}

/// Dropping repetitions keeps exactly the members of the input.
proof fn lemma_distinct_union_contains(s: Seq<RelationDto>, d: RelationDto)
    ensures
        distinct_union(s).contains(d) <==> s.contains(d),
    decreases s.len(),
{
    if s.len() == 0 {
        assert(!s.contains(d));
        assert(!distinct_union(s).contains(d));
    } else {
        lemma_distinct_union_contains(s.drop_last(), d);
        assert(s.contains(d) <==> s.drop_last().contains(d) || s.last() == d) by {
            if s.contains(d) && s.last() != d {
                let k = choose|k: int| 0 <= k < s.len() && s[k] == d;
                assert(s.drop_last()[k] == d);
            }
            if s.drop_last().contains(d) {
                let k = choose|k: int| 0 <= k < s.drop_last().len() && s.drop_last()[k] == d;
                assert(s[k] == d);
            }
            if s.last() == d {
                assert(s[s.len() - 1] == d);
            }
        }
        let rest = distinct_union(s.drop_last());
        if rest.contains(s.last()) {
            lemma_distinct_union_contains(s.drop_last(), s.last());
        } else {
            lemma_push_contains(rest, s.last(), d);
        }
    }
}

/// Dropping repetitions leaves no two equal tuples behind.
proof fn lemma_distinct_union_no_duplicates(s: Seq<RelationDto>)
    ensures
        distinct_union(s).no_duplicates(),
    decreases s.len(),
{
    if s.len() > 0 {
        lemma_distinct_union_no_duplicates(s.drop_last());
        let rest = distinct_union(s.drop_last());
        if !rest.contains(s.last()) {
            assert(forall|k: int| 0 <= k < rest.len() ==> rest[k] != s.last());
            assert(forall|k: int| 0 <= k < rest.len()
                ==> #[trigger] rest.push(s.last())[k] == rest[k]);
        }
    }
}

/// An edge whose first endpoint is the queried plant is emitted by the first
/// scan direction.
proof fn lemma_forward_hit(edges: Seq<RelationEdge>, plant_id: i32, k: int)
    requires
        0 <= k < edges.len(),
        edges[k].plant1 == plant_id,
    ensures
        forward_hits(edges, plant_id).contains(
            RelationDto { id: edges[k].plant2, relation: edges[k].relation },
        ),
    decreases edges.len(),
{
    let d = RelationDto { id: edges[k].plant2, relation: edges[k].relation };
    let rest = forward_hits(edges.drop_last(), plant_id);
    if k == edges.len() - 1 {
        lemma_push_contains(rest, d, d);
    } else {
        assert(edges.drop_last()[k] == edges[k]);
        lemma_forward_hit(edges.drop_last(), plant_id, k);
        if edges.last().plant1 == plant_id {
            lemma_push_contains(
                rest,
                RelationDto { id: edges.last().plant2, relation: edges.last().relation },
                d,
            );
        }
    }
}

/// An edge whose second endpoint is the queried plant is emitted by the
/// second scan direction.
proof fn lemma_backward_hit(edges: Seq<RelationEdge>, plant_id: i32, k: int)
    requires
        0 <= k < edges.len(),
        edges[k].plant2 == plant_id,
    ensures
        backward_hits(edges, plant_id).contains(
            RelationDto { id: edges[k].plant1, relation: edges[k].relation },
        ),
    decreases edges.len(),
{
    let d = RelationDto { id: edges[k].plant1, relation: edges[k].relation };
    let rest = backward_hits(edges.drop_last(), plant_id);
    if k == edges.len() - 1 {
        lemma_push_contains(rest, d, d);
    } else {
        assert(edges.drop_last()[k] == edges[k]);
        lemma_backward_hit(edges.drop_last(), plant_id, k);
        if edges.last().plant2 == plant_id {
            lemma_push_contains(
                rest,
                RelationDto { id: edges.last().plant1, relation: edges.last().relation },
                d,
            );
        }
    }
}

/// A stored edge appears when querying either of its endpoints: the other
/// endpoint is returned, with the same kind, from both sides.
pub proof fn lemma_relation_symmetry(edges: Seq<RelationEdge>, k: int)
    requires
        0 <= k < edges.len(),
    ensures
        relations_of(edges, edges[k].plant1).contains(
            RelationDto { id: edges[k].plant2, relation: edges[k].relation },
        ),
        relations_of(edges, edges[k].plant2).contains(
            RelationDto { id: edges[k].plant1, relation: edges[k].relation },
        ),
{
    let d1 = RelationDto { id: edges[k].plant2, relation: edges[k].relation };
    let d2 = RelationDto { id: edges[k].plant1, relation: edges[k].relation };
    lemma_forward_hit(edges, edges[k].plant1, k);
    lemma_concat_contains(
        forward_hits(edges, edges[k].plant1),
        backward_hits(edges, edges[k].plant1),
        d1,
    );
    lemma_distinct_union_contains(
        forward_hits(edges, edges[k].plant1) + backward_hits(edges, edges[k].plant1),
        d1,
    );
    lemma_backward_hit(edges, edges[k].plant2, k);
    lemma_concat_contains(
        forward_hits(edges, edges[k].plant2),
        backward_hits(edges, edges[k].plant2),
        d2,
    );
    lemma_distinct_union_contains(
        forward_hits(edges, edges[k].plant2) + backward_hits(edges, edges[k].plant2),
        d2,
    );
}

/// No tuple appears twice within one query's result.
pub proof fn lemma_relations_distinct(edges: Seq<RelationEdge>, plant_id: i32)
    ensures
        relations_of(edges, plant_id).no_duplicates(),
{
    lemma_distinct_union_no_duplicates(
        forward_hits(edges, plant_id) + backward_hits(edges, plant_id),
    );
}

/// Two independently stored rows with opposite orientations and different
/// kinds stay two separate relation tuples toward the same other plant: the
/// resolver does not collapse distinct stored rows merely because the
/// endpoints match.
pub proof fn lemma_distinct_rows_kept(edges: Seq<RelationEdge>, k1: int, k2: int)
    requires
        0 <= k1 < edges.len(),
        0 <= k2 < edges.len(),
        edges[k2].plant1 == edges[k1].plant2,
        edges[k2].plant2 == edges[k1].plant1,
        edges[k2].relation != edges[k1].relation,
    ensures
        relations_of(edges, edges[k1].plant1).contains(
            RelationDto { id: edges[k1].plant2, relation: edges[k1].relation },
        ),
        relations_of(edges, edges[k1].plant1).contains(
            RelationDto { id: edges[k1].plant2, relation: edges[k2].relation },
        ),
{
    lemma_relation_symmetry(edges, k1);
    lemma_relation_symmetry(edges, k2);
}

/// Whether `v` already holds the tuple `d`.
fn contains_dto(v: &Vec<RelationDto>, d: RelationDto) -> (r: bool)
    ensures
        r == v@.contains(d),
{
    let mut i: usize = 0;
    while i < v.len()
        invariant
            i <= v.len(),
            forall|j: int| 0 <= j < i ==> v@[j] != d,
        decreases v.len() - i,
    {
        if v[i].id == d.id && v[i].relation == d.relation {
            proof {
                assert(v@[i as int] == d);
            }
            return true;
        }
        i = i + 1;
    }
    proof {
        assert(forall|j: int| 0 <= j < v@.len() ==> v@[j] != d);
    }
    false
}

/// Get all relations of the plant `plant_id`, given the stored relation
/// edges in storage order.
///
/// Both orientations of the store are scanned: first every edge where the
/// plant stands as `plant1`, then every edge where it stands as `plant2`.
/// A tuple equal to one already emitted is not emitted again.
pub fn find_relations(edges: &Vec<RelationEdge>, plant_id: i32) -> (r: RelationsDto)
    ensures
        r.id == plant_id,
        r.relations@ == relations_of(edges@, plant_id),
{
    let mut out: Vec<RelationDto> = Vec::new();

    proof {
        assert(edges@.take(0) =~= Seq::<RelationEdge>::empty());
    }
    let mut i: usize = 0;
    while i < edges.len()
        invariant
            i <= edges.len(),
            out@ == distinct_union(forward_hits(edges@.take(i as int), plant_id)),
        decreases edges.len() - i,
    {
        let e = edges[i];
        proof {
            assert(edges@.take(i as int + 1).drop_last() =~= edges@.take(i as int));
            assert(edges@.take(i as int + 1).last() == edges@[i as int]);
        }
        if e.plant1 == plant_id {
            let d = RelationDto { id: e.plant2, relation: e.relation };
            proof {
                let prev = forward_hits(edges@.take(i as int), plant_id);
                assert(forward_hits(edges@.take(i as int + 1), plant_id) == prev.push(d));
                assert(prev.push(d).drop_last() =~= prev);
                assert(prev.push(d).last() == d);
            }
            if !contains_dto(&out, d) {
                out.push(d);
            }
        }
        i = i + 1;
    }

    proof {
        assert(edges@.take(edges@.len() as int) =~= edges@);
        assert(forward_hits(edges@, plant_id) + Seq::<RelationDto>::empty()
            =~= forward_hits(edges@, plant_id));
        assert(backward_hits(edges@.take(0), plant_id) == Seq::<RelationDto>::empty());
    }
    let mut j: usize = 0;
    while j < edges.len()
        invariant
            j <= edges.len(),
            out@ == distinct_union(
                forward_hits(edges@, plant_id) + backward_hits(edges@.take(j as int), plant_id),
            ),
        decreases edges.len() - j,
    {
        let e = edges[j];
        proof {
            assert(edges@.take(j as int + 1).drop_last() =~= edges@.take(j as int));
            assert(edges@.take(j as int + 1).last() == edges@[j as int]);
        }
        if e.plant2 == plant_id {
            let d = RelationDto { id: e.plant1, relation: e.relation };
            proof {
                let fwd = forward_hits(edges@, plant_id);
                let prev = backward_hits(edges@.take(j as int), plant_id);
                assert(backward_hits(edges@.take(j as int + 1), plant_id) == prev.push(d));
                assert((fwd + prev.push(d)).drop_last() =~= fwd + prev);
                assert((fwd + prev.push(d)).last() == d);
            }
            if !contains_dto(&out, d) {
                out.push(d);
            }
        }
        j = j + 1;
    }

    proof {
        assert(edges@.take(edges@.len() as int) =~= edges@);
    }
    RelationsDto { id: plant_id, relations: out }
}

} // verus!
