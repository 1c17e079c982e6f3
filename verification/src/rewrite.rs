//! How the collapse of an isolated edge rewrites the graph: the edge leaves,
//! every other edge stays, with the merged point renamed, and stays isolated
//! or not as it was.

use crate::graph;
use crate::model::FactsView;
use crate::seqs;
use vstd::prelude::*;

verus! {

/// The place of edge `m` once edge `e` has been taken out.
pub open spec fn shifted(e: int, m: int) -> int {
    if m < e {
        m
    } else {
        m - 1
    }
}

/// The place that edge `m` had before edge `e` was taken out.
pub open spec fn unshifted(e: int, m: int) -> int {
    if m < e {
        m
    } else {
        m + 1
    }
}

/// Edge `e` of the store is an isolated edge from `p` to `q`, two points.
pub open spec fn is_collapse_site<R, L, P>(facts: FactsView<R, L, P>, p: P, q: P, e: int) -> bool {
    &&& graph::is_isolated_at(facts.cfg_edge, e)
    &&& facts.cfg_edge[e] == (p, q)
    &&& p != q
}

/// The edge `edge` with both its ends as they stand once the edge from `p`
/// to `q` has been collapsed.
pub open spec fn image<R, L, P>(facts: FactsView<R, L, P>, p: P, q: P, edge: (P, P)) -> (P, P) {
    (facts.merged(p, q, edge.0), facts.merged(p, q, edge.1))
}

/// The collapse of an isolated edge that merges its ends takes this one
/// edge out and renames the merged point in the others. One that merges
/// nothing leaves the edges as they are.
pub proof fn lemma_collapse_shape<R, L, P>(facts: FactsView<R, L, P>, p: P, q: P, e: int)
    requires
        is_collapse_site(facts, p, q, e),
    ensures
        !facts.merges(p, q) ==> facts.collapse_edge(p, q) == facts,
        facts.merges(p, q) ==> facts.collapse_edge(p, q).cfg_edge.len() == facts.cfg_edge.len() - 1,
        facts.merges(p, q) ==> forall|m: int|
            0 <= m < facts.cfg_edge.len() && m != e ==> facts.collapse_edge(p, q).cfg_edge[shifted(
                e,
                m,
            )] == image(facts, p, q, #[trigger] facts.cfg_edge[m]),
{
    let edges = facts.cfg_edge;
    if !facts.is_endpoint(q) {
        let keep = |x: (P, P)| x.1 != q;
        assert forall|i: int| 0 <= i < edges.len() implies (keep(#[trigger] edges[i]) <==> i
            != e) by {}
        seqs::lemma_filter_one(edges, keep, e);
    } else if !facts.is_startpoint(p) {
        let keep = |x: (P, P)| x.0 != p;
        assert forall|i: int| 0 <= i < edges.len() implies (keep(#[trigger] edges[i]) <==> i
            != e) by {}
        seqs::lemma_filter_one(edges, keep, e);
    }
}

/// An edge other than the collapsed one is isolated after the collapse
/// exactly when it was isolated before.
pub proof fn lemma_collapse_isolation<R, L, P>(
    facts: FactsView<R, L, P>,
    p: P,
    q: P,
    e: int,
    m: int,
)
    requires
        is_collapse_site(facts, p, q, e),
        facts.merges(p, q),
        0 <= m < facts.cfg_edge.len(),
        m != e,
    ensures
        graph::is_isolated_at(facts.collapse_edge(p, q).cfg_edge, shifted(e, m))
            <==> graph::is_isolated_at(facts.cfg_edge, m),
{
    let edges = facts.cfg_edge;
    let after = facts.collapse_edge(p, q).cfg_edge;
    let m1 = shifted(e, m);
    lemma_collapse_shape(facts, p, q, e);
    assert(after[m1] == image(facts, p, q, edges[m]));
    assert forall|j: int| 0 <= j < edges.len() && j != e implies #[trigger] after[shifted(e, j)]
        == image(facts, p, q, edges[j]) by {
        assert(after[shifted(e, j)] == image(facts, p, q, edges[j]));
    }
    assert(edges[m].0 != p);
    assert(edges[m].1 != q);
    if graph::is_isolated_at(edges, m) {
        assert forall|j1: int| 0 <= j1 < after.len() && (#[trigger] after[j1]).0
            == after[m1].0 implies j1 == m1 by {
            let j = unshifted(e, j1);
            assert(shifted(e, j) == j1);
            assert(after[j1] == image(facts, p, q, edges[j]));
            assert(edges[j].0 != p);
            assert(edges[j].0 == edges[m].0);
        }
        assert forall|j1: int| 0 <= j1 < after.len() && (#[trigger] after[j1]).1
            == after[m1].1 implies j1 == m1 by {
            let j = unshifted(e, j1);
            assert(shifted(e, j) == j1);
            assert(after[j1] == image(facts, p, q, edges[j]));
            assert(edges[j].1 != q);
            assert(edges[j].1 == edges[m].1);
        }
    }
    if graph::is_isolated_at(after, m1) {
        assert forall|j: int| 0 <= j < edges.len() && (#[trigger] edges[j]).0
            == edges[m].0 implies j == m by {
            if j != e {
                assert(after[shifted(e, j)] == image(facts, p, q, edges[j]));
                assert(after[shifted(e, j)].0 == after[m1].0);
            }
        }
        assert forall|j: int| 0 <= j < edges.len() && (#[trigger] edges[j]).1
            == edges[m].1 implies j == m by {
            if j != e {
                assert(after[shifted(e, j)] == image(facts, p, q, edges[j]));
                assert(after[shifted(e, j)].1 == after[m1].1);
            }
        }
    }
}

} // verus!
