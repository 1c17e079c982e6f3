//! What holds while the chains are walked: the paths still to be walked stay
//! paths of isolated edges, the facts at their points stay as they were, and
//! every other isolated edge has been dealt with for good.

use crate::atom::Atom;
use crate::graph;
use crate::model::FactsView;
use crate::rewrite;
use crate::seqs;
use vstd::prelude::*;

verus! {

/// The point `x` lies on one of `chains`.
pub open spec fn is_on<P>(chains: Seq<Seq<P>>, x: P) -> bool {
    exists|a: int, s: int|
        0 <= a < chains.len() && 0 <= s < chains[a].len() && #[trigger] chains[a][s] == x
}

/// One of `paths` steps from `x` to `y`.
pub open spec fn is_pending<P>(paths: Seq<Seq<P>>, x: P, y: P) -> bool {
    exists|b: int, t: int|
        0 <= b < paths.len() && 0 <= t < paths[b].len() - 1 && #[trigger] paths[b][t] == x
            && paths[b][t + 1] == y
}

/// The facts that decide whether an edge at `x` is collapsible are in
/// `facts` what they are in `origin`.
pub open spec fn same_facts_at<R, L, P>(
    origin: FactsView<R, L, P>,
    facts: FactsView<R, L, P>,
    x: P,
) -> bool {
    &&& facts.live_regions_at(x) == origin.live_regions_at(x)
    &&& facts.killed_loans_at(x) == origin.killed_loans_at(x)
    &&& facts.outlives_at(x) == origin.outlives_at(x)
    &&& facts.invalidates_at(x) == origin.invalidates_at(x)
}

/// A walk that came to the edge from `x` to `y` would leave the store as it
/// is: the edge is not collapsible, or its collapse would merge nothing.
pub open spec fn is_settled<R, L, P>(facts: FactsView<R, L, P>, x: P, y: P) -> bool {
    !(facts.is_edge_collapsible(x, y) && facts.merges(x, y))
}

/// Every point off the chains that an isolated edge leaves is entered by an
/// isolated edge from a point off the chains.
pub open spec fn is_loose_closed<P>(edges: Seq<(P, P)>, chains: Seq<Seq<P>>) -> bool {
    forall|x: P|
        !is_on(chains, x) && #[trigger] graph::has_isolated_successor(edges, x) ==> exists|w: P|
            !is_on(chains, w) && #[trigger] graph::is_isolated_edge(edges, w, x)
}

/// Every isolated edge is a step of one of `paths`, or settled, or leaves a
/// point off the chains.
pub open spec fn is_accounted<R, L, P>(
    facts: FactsView<R, L, P>,
    chains: Seq<Seq<P>>,
    paths: Seq<Seq<P>>,
) -> bool {
    forall|m: int| #[trigger]
        graph::is_isolated_at(facts.cfg_edge, m) ==> is_pending(
            paths,
            facts.cfg_edge[m].0,
            facts.cfg_edge[m].1,
        ) || is_settled(facts, facts.cfg_edge[m].0, facts.cfg_edge[m].1) || !is_on(
            chains,
            facts.cfg_edge[m].0,
        )
}

/// The paths that are not empty follow isolated edges as far as these go.
pub open spec fn are_runs<P>(edges: Seq<(P, P)>, paths: Seq<Seq<P>>) -> bool {
    forall|b: int|
        0 <= b < paths.len() && (#[trigger] paths[b]).len() > 0 ==> graph::is_isolated_path(
            edges,
            paths[b],
        ) && !graph::has_isolated_successor(edges, paths[b].last())
}

/// The points of the paths lie on the chains, with their facts as in `origin`.
pub open spec fn are_untouched<R, L, P>(
    origin: FactsView<R, L, P>,
    chains: Seq<Seq<P>>,
    facts: FactsView<R, L, P>,
    paths: Seq<Seq<P>>,
) -> bool {
    forall|b: int, t: int|
        0 <= b < paths.len() && 0 <= t < paths[b].len() ==> is_on(chains, #[trigger] paths[b][t])
            && same_facts_at(origin, facts, paths[b][t])
}

/// What holds of the store `facts` while `paths` are still to be walked,
/// where `origin` is the store at the start and `chains` are its chains.
pub open spec fn walk_inv<R, L, P>(
    origin: FactsView<R, L, P>,
    chains: Seq<Seq<P>>,
    facts: FactsView<R, L, P>,
    paths: Seq<Seq<P>>,
) -> bool {
    &&& graph::are_disjoint(paths)
    &&& are_runs(facts.cfg_edge, paths)
    &&& are_untouched(origin, chains, facts, paths)
    &&& is_accounted(facts, chains, paths)
    &&& is_loose_closed(facts.cfg_edge, chains)
}

/// Dropping the facts at one point leaves the facts at every other point.
pub proof fn lemma_facts_kept<R, L, P>(facts: FactsView<R, L, P>, gone: P, x: P)
    requires
        x != gone,
    ensures
        same_facts_at(facts, facts.without_facts_at(gone), x),
{
    seqs::lemma_filter_filter(
        facts.region_live_at,
        |t: (R, P)| t.1 != gone,
        |t: (R, P)| t.1 == x,
    );
    seqs::lemma_filter_filter(facts.killed, |t: (L, P)| t.1 != gone, |t: (L, P)| t.1 == x);
    seqs::lemma_filter_filter(
        facts.outlives,
        |t: (R, R, P)| t.2 != gone,
        |t: (R, R, P)| t.2 == x,
    );
    seqs::lemma_filter_filter(facts.invalidates, |t: (P, L)| t.0 != gone, |t: (P, L)| t.0 == x);
}

/// A collapse leaves the facts at every point but the one that it merges
/// into the other.
pub proof fn lemma_collapse_keeps_facts<R, L, P>(facts: FactsView<R, L, P>, p: P, q: P, x: P)
    requires
        facts.merged(p, q, x) == x,
        p != q,
    ensures
        same_facts_at(facts, facts.collapse_edge(p, q), x),
{
    if !facts.is_endpoint(q) {
        lemma_facts_kept(facts, q, x);
    } else if !facts.is_startpoint(p) {
        lemma_facts_kept(facts, p, x);
    }
}

/// The walk is done with a path that has come down to one point.
pub proof fn lemma_step_finish<R, L, P>(
    origin: FactsView<R, L, P>,
    chains: Seq<Seq<P>>,
    facts: FactsView<R, L, P>,
    paths: Seq<Seq<P>>,
    i: int,
)
    requires
        walk_inv(origin, chains, facts, paths),
        0 <= i < paths.len(),
        paths[i].len() <= 1,
    ensures
        walk_inv(origin, chains, facts, paths.update(i, Seq::empty())),
{
    let after = paths.update(i, Seq::<P>::empty());
    assert forall|m: int| #[trigger] graph::is_isolated_at(facts.cfg_edge, m) implies is_pending(
        after,
        facts.cfg_edge[m].0,
        facts.cfg_edge[m].1,
    ) || is_settled(facts, facts.cfg_edge[m].0, facts.cfg_edge[m].1) || !is_on(
        chains,
        facts.cfg_edge[m].0,
    ) by {
        let x = facts.cfg_edge[m].0;
        let y = facts.cfg_edge[m].1;
        if is_pending(paths, x, y) {
            let (b, t) = choose|b: int, t: int|
                0 <= b < paths.len() && 0 <= t < paths[b].len() - 1 && #[trigger] paths[b][t] == x
                    && paths[b][t + 1] == y;
            assert(after[b][t] == x && after[b][t + 1] == y);
        }
    }
    assert(are_untouched(origin, chains, facts, after)) by {
        assert forall|b: int, t: int|
            0 <= b < after.len() && 0 <= t < after[b].len() implies is_on(
            chains,
            #[trigger] after[b][t],
        ) && same_facts_at(origin, facts, after[b][t]) by {
            assert(after[b][t] == paths[b][t]);
        }
    }
    assert(graph::are_disjoint(after)) by {
        assert forall|a: int, s: int, b: int, t: int|
            0 <= a < after.len() && 0 <= s < after[a].len() && 0 <= b < after.len() && 0 <= t
                < after[b].len() && #[trigger] after[a][s] == #[trigger] after[b][t] implies a == b
            && s == t by {
            assert(paths[a][s] == paths[b][t]);
        }
    }
    assert(are_runs(facts.cfg_edge, after)) by {
        assert forall|b: int| 0 <= b < after.len() && (#[trigger] after[b]).len()
            > 0 implies graph::is_isolated_path(facts.cfg_edge, after[b])
            && !graph::has_isolated_successor(facts.cfg_edge, after[b].last()) by {
            assert(after[b] == paths[b]);
        }
    }
}

/// The walk moves its anchor over an edge that is not collapsible.
pub proof fn lemma_step_advance<R, L, P>(
    origin: FactsView<R, L, P>,
    chains: Seq<Seq<P>>,
    facts: FactsView<R, L, P>,
    paths: Seq<Seq<P>>,
    i: int,
)
    requires
        walk_inv(origin, chains, facts, paths),
        0 <= i < paths.len(),
        paths[i].len() >= 2,
        !facts.is_edge_collapsible(paths[i][0], paths[i][1]),
    ensures
        walk_inv(origin, chains, facts, paths.update(i, paths[i].drop_first())),
{
    let path = paths[i];
    let tail = path.drop_first();
    let after = paths.update(i, tail);
    assert forall|m: int| #[trigger] graph::is_isolated_at(facts.cfg_edge, m) implies is_pending(
        after,
        facts.cfg_edge[m].0,
        facts.cfg_edge[m].1,
    ) || is_settled(facts, facts.cfg_edge[m].0, facts.cfg_edge[m].1) || !is_on(
        chains,
        facts.cfg_edge[m].0,
    ) by {
        let x = facts.cfg_edge[m].0;
        let y = facts.cfg_edge[m].1;
        if is_pending(paths, x, y) {
            let (b, t) = choose|b: int, t: int|
                0 <= b < paths.len() && 0 <= t < paths[b].len() - 1 && #[trigger] paths[b][t] == x
                    && paths[b][t + 1] == y;
            if b != i {
                assert(after[b][t] == x && after[b][t + 1] == y);
            } else if t > 0 {
                assert(after[i][t - 1] == x && after[i][t - 1 + 1] == y);
            }
        }
    }
    assert(are_untouched(origin, chains, facts, after)) by {
        assert forall|b: int, t: int|
            0 <= b < after.len() && 0 <= t < after[b].len() implies is_on(
            chains,
            #[trigger] after[b][t],
        ) && same_facts_at(origin, facts, after[b][t]) by {
            if b == i {
                assert(after[b][t] == paths[b][t + 1]);
            } else {
                assert(after[b][t] == paths[b][t]);
            }
        }
    }
    assert(graph::are_disjoint(after)) by {
        assert forall|a: int, s: int, b: int, t: int|
            0 <= a < after.len() && 0 <= s < after[a].len() && 0 <= b < after.len() && 0 <= t
                < after[b].len() && #[trigger] after[a][s] == #[trigger] after[b][t] implies a == b
            && s == t by {
            let s0 = if a == i { s + 1 } else { s };
            let t0 = if b == i { t + 1 } else { t };
            assert(paths[a][s0] == paths[b][t0]);
        }
    }
    assert(are_runs(facts.cfg_edge, after)) by {
        assert forall|b: int| 0 <= b < after.len() && (#[trigger] after[b]).len()
            > 0 implies graph::is_isolated_path(facts.cfg_edge, after[b])
            && !graph::has_isolated_successor(facts.cfg_edge, after[b].last()) by {
            if b == i {
                assert(graph::is_isolated_path(facts.cfg_edge, path));
                assert forall|k: int| 0 <= k < tail.len() - 1 implies #[trigger] graph::is_link(
                    facts.cfg_edge,
                    tail,
                    k,
                ) by {
                    assert(graph::is_link(facts.cfg_edge, path, k + 1));
                }
                assert(tail.last() == path.last());
            } else {
                assert(after[b] == paths[b]);
            }
        }
    }
}

/// The walk stands before a collapsible edge: the first step of path `i`.
pub open spec fn is_before_collapse<R, L, P>(
    origin: FactsView<R, L, P>,
    chains: Seq<Seq<P>>,
    facts: FactsView<R, L, P>,
    paths: Seq<Seq<P>>,
    i: int,
) -> bool {
    &&& walk_inv(origin, chains, facts, paths)
    &&& 0 <= i < paths.len()
    &&& paths[i].len() >= 2
    &&& facts.is_edge_collapsible(paths[i][0], paths[i][1])
}

/// The paths still to be walked once the first step of path `i` has been
/// collapsed: where the second point was merged into the first, the path
/// without its second point; otherwise the walk along this path is over.
pub open spec fn paths_after<R, L, P>(
    facts: FactsView<R, L, P>,
    paths: Seq<Seq<P>>,
    i: int,
) -> Seq<Seq<P>> {
    if !facts.is_endpoint(paths[i][1]) {
        paths.update(i, paths[i].remove(1))
    } else {
        paths.update(i, Seq::empty())
    }
}

/// The first step of a path is an isolated edge between two points, and where
/// no edge leaves its second point the path ends there.
pub proof fn lemma_site<R, L, P>(
    origin: FactsView<R, L, P>,
    chains: Seq<Seq<P>>,
    facts: FactsView<R, L, P>,
    paths: Seq<Seq<P>>,
    i: int,
) -> (e: int)
    requires
        walk_inv(origin, chains, facts, paths),
        0 <= i < paths.len(),
        paths[i].len() >= 2,
    ensures
        rewrite::is_collapse_site(facts, paths[i][0], paths[i][1], e),
        facts.is_endpoint(paths[i][1]) ==> paths[i].len() == 2,
{
    let edges = facts.cfg_edge;
    let path = paths[i];
    assert(graph::is_isolated_path(edges, path));
    assert(graph::is_link(edges, path, 0));
    let e = choose|e: int| #[trigger] graph::is_isolated_at(edges, e) && edges[e] == (path[0], path[1]);
    assert(paths[i][0] != paths[i][1]);
    if path.len() > 2 {
        assert(graph::is_link(edges, path, 1));
        let m = choose|m: int| #[trigger]
            graph::is_isolated_at(edges, m) && edges[m] == (path[1], path[2]);
        assert(edges[m].0 == path[1]);
    }
    e
}

/// After a collapse the paths still to be walked share no point, and the
/// facts at their points are as they were.
pub proof fn lemma_collapse_untouched<R, L, P>(
    origin: FactsView<R, L, P>,
    chains: Seq<Seq<P>>,
    facts: FactsView<R, L, P>,
    paths: Seq<Seq<P>>,
    i: int,
)
    requires
        is_before_collapse(origin, chains, facts, paths, i),
    ensures
        graph::are_disjoint(paths_after(facts, paths, i)),
        are_untouched(
            origin,
            chains,
            facts.collapse_edge(paths[i][0], paths[i][1]),
            paths_after(facts, paths, i),
        ),
{
    let path = paths[i];
    let p = path[0];
    let q = path[1];
    let after = paths_after(facts, paths, i);
    let next = facts.collapse_edge(p, q);
    let e = lemma_site(origin, chains, facts, paths, i);
    assert forall|b: int, t: int| 0 <= b < after.len() && 0 <= t < after[b].len() implies is_on(
        chains,
        #[trigger] after[b][t],
    ) && same_facts_at(origin, next, after[b][t]) by {
        let t0 = if b == i && t >= 1 { t + 1 } else { t };
        assert(after[b][t] == paths[b][t0]);
        assert(paths[b][t0] != paths[i][1] || (b == i && t0 == 1));
        assert(paths[b][t0] != paths[i][0] || (b == i && t0 == 0));
        lemma_collapse_keeps_facts(facts, p, q, after[b][t]);
    }
    assert forall|a: int, s: int, b: int, t: int|
        0 <= a < after.len() && 0 <= s < after[a].len() && 0 <= b < after.len() && 0 <= t
            < after[b].len() && #[trigger] after[a][s] == #[trigger] after[b][t] implies a == b && s
        == t by {
        let s0 = if a == i && s >= 1 { s + 1 } else { s };
        let t0 = if b == i && t >= 1 { t + 1 } else { t };
        assert(paths[a][s0] == paths[b][t0]);
    }
}

/// An isolated edge other than the collapsed one stays isolated, with the
/// merged point renamed at its ends.
pub proof fn lemma_edge_survives<R, L, P>(
    facts: FactsView<R, L, P>,
    p: P,
    q: P,
    e: int,
    x: P,
    y: P,
)
    requires
        rewrite::is_collapse_site(facts, p, q, e),
        graph::is_isolated_edge(facts.cfg_edge, x, y),
        x != p,
    ensures
        graph::is_isolated_edge(
            facts.collapse_edge(p, q).cfg_edge,
            facts.merged(p, q, x),
            facts.merged(p, q, y),
        ),
{
    let edges = facts.cfg_edge;
    let m = choose|m: int| #[trigger] graph::is_isolated_at(edges, m) && edges[m] == (x, y);
    rewrite::lemma_collapse_shape(facts, p, q, e);
    if facts.merges(p, q) {
        rewrite::lemma_collapse_isolation(facts, p, q, e, m);
        let after = facts.collapse_edge(p, q).cfg_edge;
        assert(after[rewrite::shifted(e, m)] == rewrite::image(facts, p, q, edges[m]));
        assert(graph::is_isolated_at(after, rewrite::shifted(e, m)));
    } else {
        assert(graph::is_isolated_at(edges, m));
    }
}

/// An isolated edge after a collapse was an isolated edge before it, other
/// than the collapsed one, between points that stand for its ends.
pub proof fn lemma_edge_survived<R, L, P>(
    facts: FactsView<R, L, P>,
    p: P,
    q: P,
    e: int,
    m1: int,
) -> (m: int)
    requires
        rewrite::is_collapse_site(facts, p, q, e),
        graph::is_isolated_at(facts.collapse_edge(p, q).cfg_edge, m1),
    ensures
        graph::is_isolated_at(facts.cfg_edge, m),
        facts.merges(p, q) ==> m != e,
        facts.cfg_edge[m].0 != p || m == e,
        facts.cfg_edge[m].1 != q || m == e,
        facts.collapse_edge(p, q).cfg_edge[m1] == rewrite::image(facts, p, q, facts.cfg_edge[m]),
{
    rewrite::lemma_collapse_shape(facts, p, q, e);
    if facts.merges(p, q) {
        let m = rewrite::unshifted(e, m1);
        assert(rewrite::shifted(e, m) == m1);
        rewrite::lemma_collapse_isolation(facts, p, q, e, m);
        let edge = facts.cfg_edge[m];
        assert(facts.collapse_edge(p, q).cfg_edge[rewrite::shifted(e, m)] == rewrite::image(
            facts,
            p,
            q,
            edge,
        ));
        m
    } else {
        let edge = facts.cfg_edge[m1];
        assert(facts.cfg_edge[e] == (p, q));
        assert(edge.0 == p ==> m1 == e);
        assert(edge.1 == q ==> m1 == e);
        m1
    }
}

/// After a collapse the paths still to be walked follow isolated edges as
/// far as these go.
pub proof fn lemma_collapse_runs<R, L, P>(
    origin: FactsView<R, L, P>,
    chains: Seq<Seq<P>>,
    facts: FactsView<R, L, P>,
    paths: Seq<Seq<P>>,
    i: int,
)
    requires
        is_before_collapse(origin, chains, facts, paths, i),
    ensures
        are_runs(
            facts.collapse_edge(paths[i][0], paths[i][1]).cfg_edge,
            paths_after(facts, paths, i),
        ),
{
    let edges = facts.cfg_edge;
    let path = paths[i];
    let p = path[0];
    let q = path[1];
    let after = paths_after(facts, paths, i);
    let next = facts.collapse_edge(p, q);
    let e = lemma_site(origin, chains, facts, paths, i);
    assert forall|b: int| 0 <= b < after.len() && (#[trigger] after[b]).len()
        > 0 implies graph::is_isolated_path(next.cfg_edge, after[b])
        && !graph::has_isolated_successor(next.cfg_edge, after[b].last()) by {
        let old_path = paths[b];
        let new_path = after[b];
        assert(graph::is_isolated_path(edges, old_path));
        assert forall|k: int| 0 <= k < new_path.len() - 1 implies #[trigger] graph::is_link(
            next.cfg_edge,
            new_path,
            k,
        ) by {
            let k0 = if b == i { k + 1 } else { k };
            assert(graph::is_link(edges, old_path, k0));
            let x = old_path[k0];
            let y = old_path[k0 + 1];
            assert(paths[b][k0] != paths[i][0]);
            assert(paths[b][k0 + 1] != paths[i][1]);
            assert(paths[b][k0 + 1] != paths[i][0]);
            assert(paths[b][k0] != paths[i][1] || (b == i && k0 == 1));
            lemma_edge_survives(facts, p, q, e, x, y);
            assert(facts.merged(p, q, y) == y);
            assert(new_path[k + 1] == y);
            assert(new_path[k] == facts.merged(p, q, x));
        }
        let z = new_path.last();
        if graph::has_isolated_successor(next.cfg_edge, z) {
            let m1 = choose|m1: int| #[trigger]
                graph::is_isolated_at(next.cfg_edge, m1) && next.cfg_edge[m1].0 == z;
            let m = lemma_edge_survived(facts, p, q, e, m1);
            let x = edges[m].0;
            assert(facts.merged(p, q, x) == z);
            assert(graph::is_isolated_at(edges, m) && edges[m].0 == x);
            assert(graph::has_isolated_successor(edges, x));
            if b == i {
                if path.len() == 2 {
                    assert(z == p);
                    assert(x == q);
                    assert(path.last() == q);
                } else {
                    assert(z == path.last());
                    assert(paths[i][path.len() - 1] != paths[i][0]);
                    assert(paths[i][path.len() - 1] != paths[i][1]);
                    assert(x == z);
                }
            } else {
                assert(z == old_path.last());
                assert(paths[b][old_path.len() - 1] != paths[i][0]);
                assert(paths[b][old_path.len() - 1] != paths[i][1]);
                assert(x == z);
            }
        }
    }
}

/// After a collapse every point off the chains that an isolated edge leaves
/// is still entered by an isolated edge from a point off the chains.
pub proof fn lemma_collapse_loose<R, L, P>(
    origin: FactsView<R, L, P>,
    chains: Seq<Seq<P>>,
    facts: FactsView<R, L, P>,
    paths: Seq<Seq<P>>,
    i: int,
)
    requires
        is_before_collapse(origin, chains, facts, paths, i),
    ensures
        is_loose_closed(facts.collapse_edge(paths[i][0], paths[i][1]).cfg_edge, chains),
{
    let edges = facts.cfg_edge;
    let p = paths[i][0];
    let q = paths[i][1];
    let next = facts.collapse_edge(p, q);
    let e = lemma_site(origin, chains, facts, paths, i);
    assert(is_on(chains, paths[i][0]));
    assert(is_on(chains, paths[i][1]));
    assert forall|x: P|
        !is_on(chains, x) && #[trigger] graph::has_isolated_successor(
            next.cfg_edge,
            x,
        ) implies exists|w: P|
        !is_on(chains, w) && #[trigger] graph::is_isolated_edge(next.cfg_edge, w, x) by {
        let m1 = choose|m1: int| #[trigger]
            graph::is_isolated_at(next.cfg_edge, m1) && next.cfg_edge[m1].0 == x;
        let m = lemma_edge_survived(facts, p, q, e, m1);
        assert(edges[m].0 == x);
        assert(graph::has_isolated_successor(edges, x));
        let w = choose|w: P| !is_on(chains, w) && #[trigger] graph::is_isolated_edge(edges, w, x);
        lemma_edge_survives(facts, p, q, e, w, x);
        assert(graph::is_isolated_edge(next.cfg_edge, w, x));
    }
}

/// Two points at which the same regions are live and nothing else is
/// recorded are told apart from a third by the same facts.
pub proof fn lemma_collapsible_through<R, L, P>(facts: FactsView<R, L, P>, x: P, p: P, q: P)
    requires
        facts.is_edge_collapsible(p, q),
    ensures
        facts.is_edge_collapsible(x, p) == facts.is_edge_collapsible(x, q),
        facts.is_edge_collapsible(p, x) == facts.is_edge_collapsible(q, x),
{
}

/// Whether an edge is collapsible depends on the facts at its two ends only.
pub proof fn lemma_collapsible_by_facts<R, L, P>(
    before: FactsView<R, L, P>,
    after: FactsView<R, L, P>,
    x: P,
    y: P,
)
    requires
        same_facts_at(before, after, x),
        same_facts_at(before, after, y),
    ensures
        after.is_edge_collapsible(x, y) == before.is_edge_collapsible(x, y),
{
}

/// An isolated edge that was settled before a collapse, and is no step of a
/// path, is settled after it.
pub proof fn lemma_settled_survives<R, L, P>(
    facts: FactsView<R, L, P>,
    p: P,
    q: P,
    e: int,
    m: int,
)
    requires
        rewrite::is_collapse_site(facts, p, q, e),
        facts.is_edge_collapsible(p, q),
        facts.merges(p, q),
        graph::is_isolated_at(facts.cfg_edge, m),
        m != e,
        is_settled(facts, facts.cfg_edge[m].0, facts.cfg_edge[m].1),
        facts.cfg_edge[m].0 != q,
    ensures
        is_settled(
            facts.collapse_edge(p, q),
            facts.merged(p, q, facts.cfg_edge[m].0),
            facts.merged(p, q, facts.cfg_edge[m].1),
        ),
{
    let edges = facts.cfg_edge;
    let next = facts.collapse_edge(p, q);
    let x = edges[m].0;
    let y = edges[m].1;
    let y1 = facts.merged(p, q, y);
    assert(x != p);
    assert(y != q);
    assert(facts.merged(p, q, x) == x);
    rewrite::lemma_collapse_shape(facts, p, q, e);
    lemma_collapse_keeps_facts(facts, p, q, x);
    if next.is_edge_collapsible(x, y1) && next.merges(x, y1) {
        if !next.is_endpoint(y1) {
            let j1 = choose|j1: int| 0 <= j1 < next.cfg_edge.len() && (#[trigger] next.cfg_edge[j1]).0 == y1;
            let j = rewrite::unshifted(e, j1);
            assert(rewrite::shifted(e, j) == j1);
            assert(next.cfg_edge[j1] == rewrite::image(facts, p, q, edges[j]));
            assert(facts.merged(p, q, edges[j].0) == y1);
            assert(edges[e].0 == p);
            if !facts.is_endpoint(q) {
                assert(y1 == y);
                assert(edges[j].0 == y || y == p);
                assert(!facts.is_endpoint(y));
            } else {
                assert(edges[j].0 != p);
                assert(edges[j].0 == y1);
                assert(y1 != q);
                assert(y1 == y);
                assert(!facts.is_endpoint(y));
            }
        } else {
            assert(!next.is_startpoint(x));
            let j1 = choose|j1: int| 0 <= j1 < next.cfg_edge.len() && (#[trigger] next.cfg_edge[j1]).1 == x;
            let j = rewrite::unshifted(e, j1);
            assert(rewrite::shifted(e, j) == j1);
            assert(next.cfg_edge[j1] == rewrite::image(facts, p, q, edges[j]));
            assert(facts.merged(p, q, edges[j].1) == x);
            assert(edges[j].1 != q);
            if facts.is_endpoint(q) {
                assert(edges[m].0 == x);
                assert(x != q);
            }
            assert(edges[j].1 == x);
            assert(!facts.is_startpoint(x));
        }
        assert(facts.merges(x, y));
        if y1 == y {
            lemma_collapse_keeps_facts(facts, p, q, y);
            lemma_collapsible_by_facts(facts, next, x, y);
        } else {
            assert(y == p && y1 == q);
            lemma_collapse_keeps_facts(facts, p, q, q);
            lemma_collapsible_by_facts(facts, next, x, q);
            lemma_collapsible_through(facts, x, p, q);
        }
        assert(facts.is_edge_collapsible(x, y));
    }
}

/// After a collapse every isolated edge is a step of a path still to be
/// walked, or settled, or leaves a point off the chains.
pub proof fn lemma_collapse_accounted<R, L, P>(
    origin: FactsView<R, L, P>,
    chains: Seq<Seq<P>>,
    facts: FactsView<R, L, P>,
    paths: Seq<Seq<P>>,
    i: int,
)
    requires
        is_before_collapse(origin, chains, facts, paths, i),
    ensures
        is_accounted(
            facts.collapse_edge(paths[i][0], paths[i][1]),
            chains,
            paths_after(facts, paths, i),
        ),
{
    let edges = facts.cfg_edge;
    let path = paths[i];
    let p = path[0];
    let q = path[1];
    let after = paths_after(facts, paths, i);
    let next = facts.collapse_edge(p, q);
    let e = lemma_site(origin, chains, facts, paths, i);
    assert(is_on(chains, paths[i][0]));
    assert(is_on(chains, paths[i][1]));
    assert forall|m1: int| #[trigger] graph::is_isolated_at(next.cfg_edge, m1) implies is_pending(
        after,
        next.cfg_edge[m1].0,
        next.cfg_edge[m1].1,
    ) || is_settled(next, next.cfg_edge[m1].0, next.cfg_edge[m1].1) || !is_on(
        chains,
        next.cfg_edge[m1].0,
    ) by {
        let m = lemma_edge_survived(facts, p, q, e, m1);
        let x = edges[m].0;
        let y = edges[m].1;
        let x1 = next.cfg_edge[m1].0;
        let y1 = next.cfg_edge[m1].1;
        assert(x1 == facts.merged(p, q, x) && y1 == facts.merged(p, q, y));
        if m == e {
            assert(!facts.merges(p, q));
            assert(next == facts);
            assert(is_settled(next, x1, y1));
        } else if x == q {
            assert(!facts.is_endpoint(q));
            assert(graph::has_isolated_successor(edges, q));
            assert(graph::is_isolated_path(edges, path));
            if path.len() == 2 {
                assert(path.last() == q);
            } else {
                assert(graph::is_link(edges, path, 1));
                let k = choose|k: int| #[trigger]
                    graph::is_isolated_at(edges, k) && edges[k] == (path[1], path[2]);
                assert(k == m);
                assert(after[i][0] == x1 && after[i][1] == y1);
                assert(is_pending(after, x1, y1));
            }
        } else if is_pending(paths, x, y) {
            let (b, t) = choose|b: int, t: int|
                0 <= b < paths.len() && 0 <= t < paths[b].len() - 1 && #[trigger] paths[b][t] == x
                    && paths[b][t + 1] == y;
            assert(paths[b][t] != paths[i][0]);
            assert(paths[b][t] != paths[i][1]);
            assert(paths[b][t + 1] != paths[i][1]);
            assert(paths[b][t + 1] != paths[i][0]);
            assert(x1 == x && y1 == y);
            if b == i {
                assert(t >= 2);
                assert(!facts.is_endpoint(q));
                assert(after[i][t - 1] == x && after[i][t - 1 + 1] == y);
            } else {
                assert(after[b][t] == x && after[b][t + 1] == y);
            }
            assert(is_pending(after, x1, y1));
        } else if is_settled(facts, x, y) {
            if facts.merges(p, q) {
                lemma_settled_survives(facts, p, q, e, m);
            }
        } else {
            assert(!is_on(chains, x));
            assert(x1 == x);
        }
    }
}

/// The walk collapses the first step of a path.
pub proof fn lemma_step_collapse<R, L, P>(
    origin: FactsView<R, L, P>,
    chains: Seq<Seq<P>>,
    facts: FactsView<R, L, P>,
    paths: Seq<Seq<P>>,
    i: int,
)
    requires
        is_before_collapse(origin, chains, facts, paths, i),
    ensures
        walk_inv(
            origin,
            chains,
            facts.collapse_edge(paths[i][0], paths[i][1]),
            paths_after(facts, paths, i),
        ),
        facts.is_endpoint(paths[i][1]) ==> paths[i].len() == 2,
{
    lemma_site(origin, chains, facts, paths, i);
    lemma_collapse_untouched(origin, chains, facts, paths, i);
    lemma_collapse_runs(origin, chains, facts, paths, i);
    lemma_collapse_loose(origin, chains, facts, paths, i);
    lemma_collapse_accounted(origin, chains, facts, paths, i);
}

/// The paths with those from place `from` on emptied.
pub open spec fn cleared<P>(paths: Seq<Seq<P>>, from: int) -> Seq<Seq<P>> {
    Seq::new(
        paths.len(),
        |b: int|
            if b >= from {
                Seq::empty()
            } else {
                paths[b]
            },
    )
}

/// What holds before a path is walked holds after it, of the paths left.
pub proof fn lemma_walk_keeps_inv<R, L, P>(
    origin: FactsView<R, L, P>,
    chains: Seq<Seq<P>>,
    facts: FactsView<R, L, P>,
    paths: Seq<Seq<P>>,
    i: int,
)
    requires
        walk_inv(origin, chains, facts, paths),
        0 <= i < paths.len(),
        paths[i].len() >= 1,
    ensures
        walk_inv(origin, chains, facts.simplify_chain(paths[i]), paths.update(i, Seq::empty())),
    decreases paths[i].len(),
{
    let path = paths[i];
    let anchor = path[0];
    let rest = path.drop_first();
    assert(facts.simplify_chain(path) == facts.simplify_from(anchor, rest));
    if rest.len() == 0 {
        lemma_step_finish(origin, chains, facts, paths, i);
    } else if facts.is_edge_collapsible(anchor, rest[0]) {
        lemma_step_collapse(origin, chains, facts, paths, i);
        let next = facts.collapse_edge(anchor, rest[0]);
        let left = paths_after(facts, paths, i);
        assert(facts.simplify_from(anchor, rest) == next.simplify_from(anchor, rest.drop_first()));
        if !facts.is_endpoint(path[1]) {
            assert(left[i] == path.remove(1));
            assert(left[i][0] == anchor);
            assert(left[i].drop_first() =~= rest.drop_first());
            assert(next.simplify_chain(left[i]) == next.simplify_from(anchor, rest.drop_first()));
            lemma_walk_keeps_inv(origin, chains, next, left, i);
            assert(left.update(i, Seq::empty()) =~= paths.update(i, Seq::empty()));
        } else {
            assert(rest.drop_first().len() == 0);
            assert(next.simplify_from(anchor, rest.drop_first()) == next);
        }
    } else {
        lemma_step_advance(origin, chains, facts, paths, i);
        let left = paths.update(i, rest);
        assert(facts.simplify_from(anchor, rest) == facts.simplify_from(rest[0], rest.drop_first()));
        assert(left[i] == rest);
        assert(facts.simplify_chain(left[i]) == facts.simplify_from(rest[0], rest.drop_first()));
        lemma_walk_keeps_inv(origin, chains, facts, left, i);
        assert(left.update(i, Seq::empty()) =~= paths.update(i, Seq::empty()));
    }
}

/// What holds before the paths from place `i` on are walked holds after
/// them, with no path left.
pub proof fn lemma_walks_keep_inv<R, L, P>(
    origin: FactsView<R, L, P>,
    chains: Seq<Seq<P>>,
    facts: FactsView<R, L, P>,
    paths: Seq<Seq<P>>,
    i: int,
)
    requires
        walk_inv(origin, chains, facts, paths),
        0 <= i <= paths.len(),
        forall|b: int| i <= b < paths.len() ==> (#[trigger] paths[b]).len() >= 1,
    ensures
        walk_inv(origin, chains, facts.simplify_chains(paths.skip(i)), cleared(paths, i)),
    decreases paths.len() - i,
{
    if i == paths.len() {
        assert(cleared(paths, i) =~= paths);
    } else {
        lemma_walk_keeps_inv(origin, chains, facts, paths, i);
        let left = paths.update(i, Seq::empty());
        lemma_walks_keep_inv(origin, chains, facts.simplify_chain(paths[i]), left, i + 1);
        assert(left.skip(i + 1) =~= paths.skip(i).drop_first());
        assert(cleared(left, i + 1) =~= cleared(paths, i));
        assert(paths.skip(i)[0] == paths[i]);
    }
}

/// An isolated edge that leaves a point of a chain is a step of that chain.
pub proof fn lemma_step_of_chain<P: Atom>(edges: Seq<(P, P)>, chains: Seq<Seq<P>>, m: int)
    requires
        graph::is_chain_cover(edges, chains),
        graph::is_isolated_at(edges, m),
        is_on(chains, edges[m].0),
    ensures
        is_pending(chains, edges[m].0, edges[m].1),
{
    let x = edges[m].0;
    let (a, s) = choose|a: int, s: int|
        0 <= a < chains.len() && 0 <= s < chains[a].len() && #[trigger] chains[a][s] == x;
    let chain = chains[a];
    assert(graph::is_chain(edges, chain));
    if s == chain.len() - 1 {
        assert(graph::has_isolated_successor(edges, chain.last()));
    } else {
        assert(graph::is_link(edges, chain, s));
        let k = choose|k: int| #[trigger]
            graph::is_isolated_at(edges, k) && edges[k] == (chain[s], chain[s + 1]);
        assert(k == m);
        assert(chains[a][s] == x && chains[a][s + 1] == edges[m].1);
    }
}

/// At the start every isolated edge is a step of a chain or leaves a point
/// off the chains, and the chains are the paths to be walked.
pub proof fn lemma_walk_starts<R, L, P: Atom>(facts: FactsView<R, L, P>)
    ensures
        walk_inv(
            facts,
            graph::isolated_chains(facts.cfg_edge),
            facts,
            graph::isolated_chains(facts.cfg_edge),
        ),
        forall|b: int|
            0 <= b < graph::isolated_chains(facts.cfg_edge).len() ==> (
            #[trigger] graph::isolated_chains(facts.cfg_edge)[b]).len() >= 2,
{
    let edges = facts.cfg_edge;
    let chains = graph::isolated_chains(edges);
    graph::lemma_cover_exists(edges);
    graph::lemma_cover_is_disjoint(edges, chains);
    assert forall|b: int| 0 <= b < chains.len() implies (#[trigger] chains[b]).len() >= 2 by {
        assert(graph::is_chain(edges, chains[b]));
    }
    assert(are_runs(edges, chains)) by {
        assert forall|b: int| 0 <= b < chains.len() && (#[trigger] chains[b]).len()
            > 0 implies graph::is_isolated_path(edges, chains[b])
            && !graph::has_isolated_successor(edges, chains[b].last()) by {
            assert(graph::is_chain(edges, chains[b]));
        }
    }
    assert forall|m: int| #[trigger] graph::is_isolated_at(edges, m) implies is_pending(
        chains,
        edges[m].0,
        edges[m].1,
    ) || is_settled(facts, edges[m].0, edges[m].1) || !is_on(chains, edges[m].0) by {
        if is_on(chains, edges[m].0) {
            lemma_step_of_chain(edges, chains, m);
        }
    }
    assert forall|x: P|
        !is_on(chains, x) && #[trigger] graph::has_isolated_successor(edges, x) implies exists|
        w: P,
    |
        !is_on(chains, w) && #[trigger] graph::is_isolated_edge(edges, w, x) by {
        if !graph::has_isolated_predecessor(edges, x) {
            assert(graph::is_chain_head(edges, x));
            let a = choose|a: int| 0 <= a < chains.len() && (#[trigger] chains[a])[0] == x;
            assert(graph::is_chain(edges, chains[a]));
            assert(chains[a][0] == x);
        }
        let j = choose|j: int| #[trigger] graph::is_isolated_at(edges, j) && edges[j].1 == x;
        let w = edges[j].0;
        if is_on(chains, w) {
            lemma_step_of_chain(edges, chains, j);
            let (b, t) = choose|b: int, t: int|
                0 <= b < chains.len() && 0 <= t < chains[b].len() - 1 && #[trigger] chains[b][t]
                    == w && chains[b][t + 1] == x;
            assert(chains[b][t + 1] == x);
            assert(is_on(chains, x));
        }
        assert(graph::is_isolated_at(edges, j) && edges[j] == (w, x));
        assert(graph::is_isolated_edge(edges, w, x));
    }
    assert(are_untouched(facts, chains, facts, chains));
}

/// A walk along a path whose steps are all settled leaves the store as it is.
pub proof fn lemma_settled_walk<R, L, P>(facts: FactsView<R, L, P>, path: Seq<P>)
    requires
        graph::is_isolated_path(facts.cfg_edge, path),
        forall|k: int| 0 <= k < path.len() - 1 ==> is_settled(facts, #[trigger] path[k], path[k + 1]),
    ensures
        facts.simplify_chain(path) == facts,
    decreases path.len(),
{
    let anchor = path[0];
    let rest = path.drop_first();
    assert(facts.simplify_chain(path) == facts.simplify_from(anchor, rest));
    if rest.len() > 0 {
        assert(rest[0] == path[1]);
        assert(is_settled(facts, path[0], path[1]));
        if facts.is_edge_collapsible(anchor, rest[0]) {
            assert(facts.collapse_edge(anchor, rest[0]) == facts);
            if rest.len() > 1 {
                assert(graph::is_link(facts.cfg_edge, path, 1));
                let m = choose|m: int| #[trigger]
                    graph::is_isolated_at(facts.cfg_edge, m) && facts.cfg_edge[m] == (
                        path[1],
                        path[2],
                    );
                assert(facts.cfg_edge[m].0 == path[1]);
            }
            assert(rest.drop_first().len() == 0);
            assert(facts.simplify_from(anchor, rest) == facts.simplify_from(
                anchor,
                rest.drop_first(),
            ));
            assert(facts.simplify_from(anchor, rest.drop_first()) == facts);
        } else {
            assert forall|k: int| 0 <= k < rest.len() - 1 implies #[trigger] graph::is_link(
                facts.cfg_edge,
                rest,
                k,
            ) by {
                assert(graph::is_link(facts.cfg_edge, path, k + 1));
            }
            assert forall|k: int| 0 <= k < rest.len() - 1 implies is_settled(
                facts,
                #[trigger] rest[k],
                rest[k + 1],
            ) by {
                assert(is_settled(facts, path[k + 1], path[k + 1 + 1]));
            }
            lemma_settled_walk(facts, rest);
            assert(facts.simplify_from(anchor, rest) == facts.simplify_from(
                rest[0],
                rest.drop_first(),
            ));
            assert(facts.simplify_chain(rest) == facts.simplify_from(rest[0], rest.drop_first()));
        }
    }
}

/// Walks along chains whose steps are all settled leave the store as it is.
pub proof fn lemma_settled_walks<R, L, P>(facts: FactsView<R, L, P>, chains: Seq<Seq<P>>)
    requires
        forall|a: int|
            0 <= a < chains.len() ==> graph::is_isolated_path(facts.cfg_edge, #[trigger] chains[a]),
        forall|a: int, k: int|
            0 <= a < chains.len() && 0 <= k < chains[a].len() - 1 ==> is_settled(
                facts,
                #[trigger] chains[a][k],
                chains[a][k + 1],
            ),
    ensures
        facts.simplify_chains(chains) == facts,
    decreases chains.len(),
{
    if chains.len() > 0 {
        let first = chains[0];
        assert forall|k: int| 0 <= k < first.len() - 1 implies is_settled(
            facts,
            #[trigger] first[k],
            first[k + 1],
        ) by {
            assert(is_settled(facts, chains[0][k], chains[0][k + 1]));
        }
        lemma_settled_walk(facts, first);
        let others = chains.drop_first();
        assert forall|a: int| 0 <= a < others.len() implies graph::is_isolated_path(
            facts.cfg_edge,
            #[trigger] others[a],
        ) by {
            assert(others[a] == chains[a + 1]);
        }
        assert forall|a: int, k: int|
            0 <= a < others.len() && 0 <= k < others[a].len() - 1 implies is_settled(
            facts,
            #[trigger] others[a][k],
            others[a][k + 1],
        ) by {
            assert(is_settled(facts, chains[a + 1][k], chains[a + 1][k + 1]));
        }
        lemma_settled_walks(facts, others);
    }
}

/// Where the points off `chains` are closed under isolated edges backward,
/// a chain of the graph leaves none of them.
pub proof fn lemma_chain_is_on<P>(edges: Seq<(P, P)>, chains: Seq<Seq<P>>, chain: Seq<P>, t: int)
    requires
        is_loose_closed(edges, chains),
        graph::is_chain(edges, chain),
        0 <= t < chain.len() - 1,
    ensures
        is_on(chains, chain[t]),
    decreases t,
{
    if !is_on(chains, chain[t]) {
        assert(graph::is_link(edges, chain, t));
        let m = choose|m: int| #[trigger]
            graph::is_isolated_at(edges, m) && edges[m] == (chain[t], chain[t + 1]);
        assert(graph::is_isolated_at(edges, m) && edges[m].0 == chain[t]);
        assert(graph::has_isolated_successor(edges, chain[t]));
        let w = choose|w: P| !is_on(chains, w) && #[trigger] graph::is_isolated_edge(edges, w, chain[t]);
        let j = choose|j: int| #[trigger] graph::is_isolated_at(edges, j) && edges[j] == (w, chain[t]);
        assert(graph::is_isolated_at(edges, j) && edges[j].1 == chain[t]);
        if t > 0 {
            lemma_chain_is_on(edges, chains, chain, t - 1);
            assert(graph::is_link(edges, chain, t - 1));
            let k = choose|k: int| #[trigger]
                graph::is_isolated_at(edges, k) && edges[k] == (chain[t - 1], chain[t]);
            assert(k == j);
        }
    }
}

/// `x` and `y` are one point, or an edge leads from `x` to `y`.
pub open spec fn joins<P>(edges: Seq<(P, P)>, x: P, y: P) -> bool {
    x == y || edges.contains((x, y))
}

/// Two points that an edge joins are, after the collapse of an isolated
/// edge, stood for by points that an edge joins.
pub proof fn lemma_collapse_joins<R, L, P>(
    facts: FactsView<R, L, P>,
    p: P,
    q: P,
    e: int,
    x: P,
    y: P,
)
    requires
        rewrite::is_collapse_site(facts, p, q, e),
        joins(facts.cfg_edge, x, y),
    ensures
        joins(facts.collapse_edge(p, q).cfg_edge, facts.merged(p, q, x), facts.merged(p, q, y)),
{
    let edges = facts.cfg_edge;
    let after = facts.collapse_edge(p, q).cfg_edge;
    rewrite::lemma_collapse_shape(facts, p, q, e);
    if x != y && facts.merges(p, q) {
        let j = choose|j: int| 0 <= j < edges.len() && edges[j] == (x, y);
        if j != e {
            assert(after[rewrite::shifted(e, j)] == rewrite::image(facts, p, q, edges[j]));
        }
    }
}

/// Two points that an edge joins are, after the walk along a path, stood
/// for by points that an edge joins.
pub proof fn lemma_walk_joins<R, L, P>(
    origin: FactsView<R, L, P>,
    chains: Seq<Seq<P>>,
    facts: FactsView<R, L, P>,
    paths: Seq<Seq<P>>,
    i: int,
    x: P,
    y: P,
)
    requires
        walk_inv(origin, chains, facts, paths),
        0 <= i < paths.len(),
        paths[i].len() >= 1,
        joins(facts.cfg_edge, x, y),
    ensures
        joins(
            facts.simplify_chain(paths[i]).cfg_edge,
            facts.survivor_in_chain(paths[i], x),
            facts.survivor_in_chain(paths[i], y),
        ),
    decreases paths[i].len(),
{
    let path = paths[i];
    let anchor = path[0];
    let rest = path.drop_first();
    assert(facts.simplify_chain(path) == facts.simplify_from(anchor, rest));
    assert(facts.survivor_in_chain(path, x) == facts.survivor_from(anchor, rest, x));
    assert(facts.survivor_in_chain(path, y) == facts.survivor_from(anchor, rest, y));
    if rest.len() == 0 {
    } else if facts.is_edge_collapsible(anchor, rest[0]) {
        let e = lemma_site(origin, chains, facts, paths, i);
        lemma_step_collapse(origin, chains, facts, paths, i);
        lemma_collapse_joins(facts, anchor, rest[0], e, x, y);
        let next = facts.collapse_edge(anchor, rest[0]);
        let left = paths_after(facts, paths, i);
        let x1 = facts.merged(anchor, rest[0], x);
        let y1 = facts.merged(anchor, rest[0], y);
        assert(facts.simplify_from(anchor, rest) == next.simplify_from(anchor, rest.drop_first()));
        assert(facts.survivor_from(anchor, rest, x) == next.survivor_from(
            anchor,
            rest.drop_first(),
            x1,
        ));
        assert(facts.survivor_from(anchor, rest, y) == next.survivor_from(
            anchor,
            rest.drop_first(),
            y1,
        ));
        if !facts.is_endpoint(path[1]) {
            assert(left[i] == path.remove(1));
            assert(left[i][0] == anchor);
            assert(left[i].drop_first() =~= rest.drop_first());
            assert(next.simplify_chain(left[i]) == next.simplify_from(anchor, rest.drop_first()));
            lemma_walk_joins(origin, chains, next, left, i, x1, y1);
        } else {
            assert(rest.drop_first().len() == 0);
            assert(next.simplify_from(anchor, rest.drop_first()) == next);
            assert(next.survivor_from(anchor, rest.drop_first(), x1) == x1);
            assert(next.survivor_from(anchor, rest.drop_first(), y1) == y1);
        }
    } else {
        lemma_step_advance(origin, chains, facts, paths, i);
        let left = paths.update(i, rest);
        assert(facts.simplify_from(anchor, rest) == facts.simplify_from(rest[0], rest.drop_first()));
        assert(left[i] == rest);
        assert(facts.simplify_chain(left[i]) == facts.simplify_from(rest[0], rest.drop_first()));
        lemma_walk_joins(origin, chains, facts, left, i, x, y);
    }
}

/// Two points that an edge joins are, after the walks along the paths from
/// place `i` on, stood for by points that an edge joins.
pub proof fn lemma_walks_join<R, L, P>(
    origin: FactsView<R, L, P>,
    chains: Seq<Seq<P>>,
    facts: FactsView<R, L, P>,
    paths: Seq<Seq<P>>,
    i: int,
    x: P,
    y: P,
)
    requires
        walk_inv(origin, chains, facts, paths),
        0 <= i <= paths.len(),
        forall|b: int| i <= b < paths.len() ==> (#[trigger] paths[b]).len() >= 1,
        joins(facts.cfg_edge, x, y),
    ensures
        joins(
            facts.simplify_chains(paths.skip(i)).cfg_edge,
            facts.survivor_in_chains(paths.skip(i), x),
            facts.survivor_in_chains(paths.skip(i), y),
        ),
    decreases paths.len() - i,
{
    if i < paths.len() {
        lemma_walk_keeps_inv(origin, chains, facts, paths, i);
        lemma_walk_joins(origin, chains, facts, paths, i, x, y);
        let left = paths.update(i, Seq::empty());
        let next = facts.simplify_chain(paths[i]);
        lemma_walks_join(
            origin,
            chains,
            next,
            left,
            i + 1,
            facts.survivor_in_chain(paths[i], x),
            facts.survivor_in_chain(paths[i], y),
        );
        assert(left.skip(i + 1) =~= paths.skip(i).drop_first());
        assert(paths.skip(i)[0] == paths[i]);
    }
}

/// Every edge whose ends the walk along a path merges was collapsible in
/// the store as it was at the start.
pub proof fn lemma_walk_is_sound<R, L, P>(
    origin: FactsView<R, L, P>,
    chains: Seq<Seq<P>>,
    facts: FactsView<R, L, P>,
    paths: Seq<Seq<P>>,
    i: int,
    k: int,
)
    requires
        walk_inv(origin, chains, facts, paths),
        0 <= i < paths.len(),
        paths[i].len() >= 1,
        0 <= k < facts.collapsed_in_chain(paths[i]).len(),
    ensures
        origin.is_edge_collapsible(
            facts.collapsed_in_chain(paths[i])[k].0,
            facts.collapsed_in_chain(paths[i])[k].1,
        ),
    decreases paths[i].len(),
{
    let path = paths[i];
    let anchor = path[0];
    let rest = path.drop_first();
    assert(facts.collapsed_in_chain(path) == facts.collapsed_from(anchor, rest));
    if rest.len() == 0 {
    } else if facts.is_edge_collapsible(anchor, rest[0]) {
        lemma_step_collapse(origin, chains, facts, paths, i);
        let next = facts.collapse_edge(anchor, rest[0]);
        let left = paths_after(facts, paths, i);
        let later = next.collapsed_from(anchor, rest.drop_first());
        assert(paths[i][0] == anchor && paths[i][1] == rest[0]);
        assert(same_facts_at(origin, facts, paths[i][0]));
        assert(same_facts_at(origin, facts, paths[i][1]));
        lemma_collapsible_by_facts(origin, facts, anchor, rest[0]);
        if facts.merges(anchor, rest[0]) && k == 0 {
        } else {
            let k1 = if facts.merges(anchor, rest[0]) {
                k - 1
            } else {
                k
            };
            assert(facts.collapsed_from(anchor, rest)[k] == later[k1]);
            if !facts.is_endpoint(path[1]) {
                assert(left[i] == path.remove(1));
                assert(left[i][0] == anchor);
                assert(left[i].drop_first() =~= rest.drop_first());
                assert(next.collapsed_in_chain(left[i]) == later);
                lemma_walk_is_sound(origin, chains, next, left, i, k1);
            } else {
                assert(rest.drop_first().len() == 0);
                assert(later.len() == 0);
            }
        }
    } else {
        lemma_step_advance(origin, chains, facts, paths, i);
        let left = paths.update(i, rest);
        assert(left[i] == rest);
        assert(facts.collapsed_in_chain(left[i]) == facts.collapsed_from(rest[0], rest.drop_first()));
        lemma_walk_is_sound(origin, chains, facts, left, i, k);
    }
}

/// Every edge whose ends the walks along the paths from place `i` on merge
/// was collapsible in the store as it was at the start.
pub proof fn lemma_walks_are_sound<R, L, P>(
    origin: FactsView<R, L, P>,
    chains: Seq<Seq<P>>,
    facts: FactsView<R, L, P>,
    paths: Seq<Seq<P>>,
    i: int,
    k: int,
)
    requires
        walk_inv(origin, chains, facts, paths),
        0 <= i <= paths.len(),
        forall|b: int| i <= b < paths.len() ==> (#[trigger] paths[b]).len() >= 1,
        0 <= k < facts.collapsed_in_chains(paths.skip(i)).len(),
    ensures
        origin.is_edge_collapsible(
            facts.collapsed_in_chains(paths.skip(i))[k].0,
            facts.collapsed_in_chains(paths.skip(i))[k].1,
        ),
    decreases paths.len() - i,
{
    if i < paths.len() {
        let first = facts.collapsed_in_chain(paths[i]);
        let left = paths.update(i, Seq::empty());
        let next = facts.simplify_chain(paths[i]);
        assert(left.skip(i + 1) =~= paths.skip(i).drop_first());
        assert(paths.skip(i)[0] == paths[i]);
        if k < first.len() {
            lemma_walk_is_sound(origin, chains, facts, paths, i, k);
        } else {
            lemma_walk_keeps_inv(origin, chains, facts, paths, i);
            lemma_walks_are_sound(origin, chains, next, left, i + 1, k - first.len());
        }
    }
}

} // verus!
