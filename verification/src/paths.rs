//! Reachability along directed edges, as a specification, with the lemmas the
//! dominance engine needs.

use vstd::prelude::*;

verus! {

/// `p` is a walk through `edges`: nonempty, and each consecutive pair of its
/// entries is an edge.
pub open spec fn is_path(edges: Seq<(int, int)>, p: Seq<int>) -> bool {
    &&& p.len() >= 1
    &&& forall|i: int| 0 <= i < p.len() - 1 ==> edges.contains((#[trigger] p[i], p[i + 1]))
}

/// `b` can be reached from `a` by following zero or more edges.
pub open spec fn reaches(edges: Seq<(int, int)>, a: int, b: int) -> bool {
    exists|p: Seq<int>| is_path(edges, p) && p.first() == a && p.last() == b
}

/// `b` can be reached from `a` by following one or more edges: this is
/// dominance, under which a node does not dominate itself unless it lies on a
/// cycle.
pub open spec fn strictly_reaches(edges: Seq<(int, int)>, a: int, b: int) -> bool {
    exists|p: Seq<int>|
        is_path(edges, p) && p.len() >= 2 && p.first() == a && p.last() == b
}

/// Some edge of `edges` ends in `id`.
pub open spec fn has_parent(edges: Seq<(int, int)>, id: int) -> bool {
    exists|j: int| 0 <= j < edges.len() && (#[trigger] edges[j]).1 == id
}

/// Reaching through at least one edge is reaching.
pub proof fn lemma_strictly_reaches_implies_reaches(edges: Seq<(int, int)>, a: int, b: int)
    requires
        strictly_reaches(edges, a, b),
    ensures
        reaches(edges, a, b),
{
    let p = choose|p: Seq<int>|
        is_path(edges, p) && p.len() >= 2 && p.first() == a && p.last() == b;
    assert(is_path(edges, p) && p.first() == a && p.last() == b);
}

/// Between distinct nodes, reaching needs at least one edge.
pub proof fn lemma_reaches_distinct_is_strict(edges: Seq<(int, int)>, a: int, b: int)
    requires
        reaches(edges, a, b),
        a != b,
    ensures
        strictly_reaches(edges, a, b),
{
    let p = choose|p: Seq<int>| is_path(edges, p) && p.first() == a && p.last() == b;
    assert(is_path(edges, p));
    if p.len() < 2 {
        assert(p.first() == p.last());
    }
}

/// When every edge goes from a smaller to a larger node, walks ascend: the
/// end of a walk is never below its start, and strictly above it as soon as
/// one edge is taken.
pub proof fn lemma_path_ascends(edges: Seq<(int, int)>, p: Seq<int>)
    requires
        forall|j: int| 0 <= j < edges.len() ==> (#[trigger] edges[j]).0 < edges[j].1,
        is_path(edges, p),
    ensures
        p.first() <= p.last(),
        p.len() >= 2 ==> p.first() < p.last(),
    decreases p.len(),
{
    if p.len() >= 2 {
        assert(edges.contains((p[0], p[1])));
        let j = choose|j: int| 0 <= j < edges.len() && edges[j] == (p[0], p[1]);
        assert(p[0] < p[1]);
        let q = p.drop_first();
        assert(is_path(edges, q)) by {
            assert forall|i: int| 0 <= i < q.len() - 1 implies #[trigger] edges.contains(
                (q[i], q[i + 1]),
            ) by {
                assert(q[i] == p[i + 1] && q[i + 1] == p[i + 2]);
                assert(edges.contains((p[i + 1], p[i + 2])));
            }
        }
        lemma_path_ascends(edges, q);
        assert(q.first() == p[1] && q.last() == p.last());
    }
}

/// When every edge goes from a smaller to a larger node, no node strictly
/// reaches itself.
pub proof fn lemma_no_strict_self_reach(edges: Seq<(int, int)>, a: int)
    requires
        forall|j: int| 0 <= j < edges.len() ==> (#[trigger] edges[j]).0 < edges[j].1,
    ensures
        !strictly_reaches(edges, a, a),
{
    if strictly_reaches(edges, a, a) {
        let p = choose|p: Seq<int>|
            is_path(edges, p) && p.len() >= 2 && p.first() == a && p.last() == a;
        assert(is_path(edges, p) && p.len() >= 2);
        lemma_path_ascends(edges, p);
    }
}

} // verus!
