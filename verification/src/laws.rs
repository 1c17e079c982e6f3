//! What holds of every simplification, whatever the store.
//!
//! - nothing is added: `lemma_simplify_reduces`, `lemma_no_repeat_is_added`;
//! - a second run changes nothing: `lemma_simplify_is_idempotent`;
//! - only points that no fact tells apart are merged:
//!   `lemma_collapsed_were_collapsible`, `lemma_merged_points_were_alike`,
//!   `lemma_points_merged_together_were_alike`;
//! - the facts dropped are those at the merged points: `lemma_facts_are_kept`;
//! - the graph keeps its connections and gains none: `lemma_edges_are_kept`,
//!   `lemma_reachability_is_kept`, `lemma_paths_are_kept`,
//!   `lemma_edges_come_from_edges`;
//! - a run that collapses nothing changes nothing: `lemma_nothing_collapsed`.

use crate::atom::Atom;
use crate::graph;
use crate::model::FactsView;
use crate::rewrite;
use crate::seqs;
use crate::walk;
use vstd::prelude::*;

verus! {

/// `after` holds no tuple that `before` lacks: the universal regions, kills,
/// outlives constraints and invalidations are those of `before`, and the
/// other relations hold tuples of `before` only, and no more of them.
pub open spec fn is_reduction<R, L, P>(before: FactsView<R, L, P>, after: FactsView<R, L, P>) -> bool {
    &&& after.universal_region == before.universal_region
    &&& after.killed == before.killed
    &&& after.outlives == before.outlives
    &&& after.invalidates == before.invalidates
    &&& after.cfg_edge.len() <= before.cfg_edge.len()
    &&& after.region_live_at.len() <= before.region_live_at.len()
    &&& after.borrow_region.len() <= before.borrow_region.len()
    &&& forall|t: (R, P)| after.region_live_at.contains(t) ==> before.region_live_at.contains(t)
    &&& forall|t: (R, L, P)| after.borrow_region.contains(t) ==> before.borrow_region.contains(t)
}

/// Dropping the facts at a quiet point drops no kill, no outlives constraint
/// and no invalidation.
pub proof fn lemma_forget_quiet_point<R, L, P>(facts: FactsView<R, L, P>, point: P)
    requires
        facts.is_quiet_at(point),
    ensures
        is_reduction(facts, facts.without_facts_at(point)),
{
    let after = facts.without_facts_at(point);
    seqs::lemma_filter_none(facts.killed, |t: (L, P)| t.1 == point);
    seqs::lemma_filter_all(facts.killed, |t: (L, P)| t.1 != point);
    seqs::lemma_filter_none(facts.outlives, |t: (R, R, P)| t.2 == point);
    seqs::lemma_filter_all(facts.outlives, |t: (R, R, P)| t.2 != point);
    seqs::lemma_filter_none(facts.invalidates, |t: (P, L)| t.0 == point);
    seqs::lemma_filter_all(facts.invalidates, |t: (P, L)| t.0 != point);
    seqs::lemma_filter_within(facts.region_live_at, |t: (R, P)| t.1 != point);
    seqs::lemma_filter_within(facts.borrow_region, |t: (R, L, P)| t.2 != point);
}

/// Collapsing a collapsible edge reduces the store.
pub proof fn lemma_collapse_reduces<R, L, P>(facts: FactsView<R, L, P>, first: P, second: P)
    requires
        facts.is_edge_collapsible(first, second),
    ensures
        is_reduction(facts, facts.collapse_edge(first, second)),
{
    lemma_forget_quiet_point(facts, first);
    lemma_forget_quiet_point(facts, second);
    facts.cfg_edge.lemma_filter_len(|e: (P, P)| e.1 != second);
    facts.cfg_edge.lemma_filter_len(|e: (P, P)| e.0 != first);
}

/// The walk along a chain reduces the store.
pub proof fn lemma_walk_reduces<R, L, P>(facts: FactsView<R, L, P>, anchor: P, rest: Seq<P>)
    ensures
        is_reduction(facts, facts.simplify_from(anchor, rest)),
    decreases rest.len(),
{
    if rest.len() == 0 {
    } else if facts.is_edge_collapsible(anchor, rest[0]) {
        lemma_collapse_reduces(facts, anchor, rest[0]);
        lemma_walk_reduces(facts.collapse_edge(anchor, rest[0]), anchor, rest.drop_first());
    } else {
        lemma_walk_reduces(facts, rest[0], rest.drop_first());
    }
}

/// The walks along any chains reduce the store.
pub proof fn lemma_walks_reduce<R, L, P>(facts: FactsView<R, L, P>, chains: Seq<Seq<P>>)
    ensures
        is_reduction(facts, facts.simplify_chains(chains)),
    decreases chains.len(),
{
    if chains.len() > 0 {
        if chains[0].len() > 0 {
            lemma_walk_reduces(facts, chains[0][0], chains[0].drop_first());
        }
        lemma_walks_reduce(facts.simplify_chain(chains[0]), chains.drop_first());
    }
}

/// Simplification never adds an edge or a fact, and never drops a universal
/// region, a kill, an outlives constraint or an invalidation.
pub proof fn lemma_simplify_reduces<R, L, P: Atom>(facts: FactsView<R, L, P>)
    ensures
        is_reduction(facts, facts.simplify_cfg()),
        facts.simplify_cfg().cfg_edge.len() <= facts.cfg_edge.len(),
{
    lemma_walks_reduce(facts, crate::graph::isolated_chains(facts.cfg_edge));
}

/// Simplifying a simplified store changes nothing: every chain that is left
/// has only steps that are not collapsible or whose collapse would merge
/// nothing.
pub proof fn lemma_simplify_is_idempotent<R, L, P: Atom>(facts: FactsView<R, L, P>)
    ensures
        facts.simplify_cfg().simplify_cfg() == facts.simplify_cfg(),
{
    let chains = graph::isolated_chains(facts.cfg_edge);
    let simplified = facts.simplify_cfg();
    walk::lemma_walk_starts(facts);
    walk::lemma_walks_keep_inv(facts, chains, facts, chains, 0);
    assert(chains.skip(0) =~= chains);
    let none = walk::cleared(chains, 0);
    assert(walk::walk_inv(facts, chains, simplified, none));
    let edges = simplified.cfg_edge;
    let left = graph::isolated_chains(edges);
    graph::lemma_cover_exists(edges);
    assert forall|a: int| 0 <= a < left.len() implies graph::is_isolated_path(
        edges,
        #[trigger] left[a],
    ) by {
        assert(graph::is_chain(edges, left[a]));
    }
    assert forall|a: int, k: int|
        0 <= a < left.len() && 0 <= k < left[a].len() - 1 implies walk::is_settled(
        simplified,
        #[trigger] left[a][k],
        left[a][k + 1],
    ) by {
        let chain = left[a];
        assert(graph::is_chain(edges, chain));
        walk::lemma_chain_is_on(edges, chains, chain, k);
        assert(graph::is_link(edges, chain, k));
        let m = choose|m: int| #[trigger]
            graph::is_isolated_at(edges, m) && edges[m] == (chain[k], chain[k + 1]);
        assert(graph::is_isolated_at(edges, m));
        if walk::is_pending(none, edges[m].0, edges[m].1) {
            let (b, t) = choose|b: int, t: int|
                0 <= b < none.len() && 0 <= t < none[b].len() - 1 && #[trigger] none[b][t]
                    == edges[m].0 && none[b][t + 1] == edges[m].1;
            assert(none[b].len() == 0);
        }
    }
    walk::lemma_settled_walks(simplified, left);
}

/// Every edge whose two ends the simplification merges was collapsible in
/// the store as it was: the same regions were live at both ends, and no
/// kill, outlives constraint or invalidation was recorded at either.
pub proof fn lemma_collapsed_were_collapsible<R, L, P: Atom>(facts: FactsView<R, L, P>, k: int)
    requires
        0 <= k < facts.collapsed().len(),
    ensures
        facts.is_edge_collapsible(facts.collapsed()[k].0, facts.collapsed()[k].1),
        facts.live_regions_at(facts.collapsed()[k].0).to_set() == facts.live_regions_at(
            facts.collapsed()[k].1,
        ).to_set(),
        facts.is_quiet_at(facts.collapsed()[k].0),
        facts.is_quiet_at(facts.collapsed()[k].1),
{
    let chains = graph::isolated_chains(facts.cfg_edge);
    walk::lemma_walk_starts(facts);
    assert(chains.skip(0) =~= chains);
    walk::lemma_walks_are_sound(facts, chains, facts, chains, 0, k);
}

/// A walk collapses at most one edge for each of its steps.
pub proof fn lemma_collapses_are_few<R, L, P>(facts: FactsView<R, L, P>, anchor: P, rest: Seq<P>)
    ensures
        facts.collapsed_from(anchor, rest).len() <= rest.len(),
    decreases rest.len(),
{
    if rest.len() == 0 {
    } else if facts.is_edge_collapsible(anchor, rest[0]) {
        lemma_collapses_are_few(facts.collapse_edge(anchor, rest[0]), anchor, rest.drop_first());
    } else {
        lemma_collapses_are_few(facts, rest[0], rest.drop_first());
    }
}

/// A walk that merges the ends of no edge leaves the store as it is.
pub proof fn lemma_walk_without_collapse<R, L, P>(facts: FactsView<R, L, P>, anchor: P, rest: Seq<P>)
    requires
        facts.collapsed_from(anchor, rest).len() == 0,
    ensures
        facts.simplify_from(anchor, rest) == facts,
    decreases rest.len(),
{
    if rest.len() == 0 {
    } else if facts.is_edge_collapsible(anchor, rest[0]) {
        assert(!facts.merges(anchor, rest[0]));
        assert(facts.collapse_edge(anchor, rest[0]) == facts);
        lemma_walk_without_collapse(facts, anchor, rest.drop_first());
    } else {
        lemma_walk_without_collapse(facts, rest[0], rest.drop_first());
    }
}

/// Walks that merge the ends of no edge leave the store as it is.
pub proof fn lemma_walks_without_collapse<R, L, P>(facts: FactsView<R, L, P>, chains: Seq<Seq<P>>)
    requires
        facts.collapsed_in_chains(chains).len() == 0,
    ensures
        facts.simplify_chains(chains) == facts,
    decreases chains.len(),
{
    if chains.len() > 0 {
        if chains[0].len() > 0 {
            lemma_walk_without_collapse(facts, chains[0][0], chains[0].drop_first());
        }
        lemma_walks_without_collapse(facts, chains.drop_first());
    }
}

/// A simplification that merges the ends of no edge leaves the store as it is.
pub proof fn lemma_nothing_collapsed<R, L, P: Atom>(facts: FactsView<R, L, P>)
    requires
        facts.collapsed().len() == 0,
    ensures
        facts.simplify_cfg() == facts,
{
    lemma_walks_without_collapse(facts, graph::isolated_chains(facts.cfg_edge));
}

/// `x` is an end of one of `edges`.
pub open spec fn is_end_of<P>(edges: Seq<(P, P)>, x: P) -> bool {
    exists|k: int| 0 <= k < edges.len() && ((#[trigger] edges[k]).0 == x || edges[k].1 == x)
}

/// A point that a walk merges into another is an end of an edge that the
/// walk collapsed.
pub proof fn lemma_walk_merges_ends<R, L, P>(
    facts: FactsView<R, L, P>,
    anchor: P,
    rest: Seq<P>,
    x: P,
)
    requires
        facts.survivor_from(anchor, rest, x) != x,
    ensures
        is_end_of(facts.collapsed_from(anchor, rest), x),
    decreases rest.len(),
{
    let trace = facts.collapsed_from(anchor, rest);
    if rest.len() == 0 {
    } else if facts.is_edge_collapsible(anchor, rest[0]) {
        let next = facts.collapse_edge(anchor, rest[0]);
        let later = next.collapsed_from(anchor, rest.drop_first());
        if facts.merged(anchor, rest[0], x) != x {
            assert(facts.merges(anchor, rest[0]));
            assert(trace[0] == (anchor, rest[0]));
        } else {
            lemma_walk_merges_ends(next, anchor, rest.drop_first(), x);
            let k = choose|k: int| 0 <= k < later.len() && ((#[trigger] later[k]).0 == x || later[k].1 == x);
            if facts.merges(anchor, rest[0]) {
                assert(trace[k + 1] == later[k]);
            } else {
                assert(trace[k] == later[k]);
            }
        }
    } else {
        lemma_walk_merges_ends(facts, rest[0], rest.drop_first(), x);
    }
}

/// A point that one of the walks merges into another is an end of an edge
/// that the walks collapsed.
pub proof fn lemma_walks_merge_ends<R, L, P>(
    facts: FactsView<R, L, P>,
    chains: Seq<Seq<P>>,
    x: P,
)
    requires
        facts.survivor_in_chains(chains, x) != x,
    ensures
        is_end_of(facts.collapsed_in_chains(chains), x),
    decreases chains.len(),
{
    if chains.len() > 0 {
        let first = facts.collapsed_in_chain(chains[0]);
        let next = facts.simplify_chain(chains[0]);
        let later = next.collapsed_in_chains(chains.drop_first());
        let trace = facts.collapsed_in_chains(chains);
        assert(trace == first + later);
        if facts.survivor_in_chain(chains[0], x) != x {
            lemma_walk_merges_ends(facts, chains[0][0], chains[0].drop_first(), x);
            let k = choose|k: int| 0 <= k < first.len() && ((#[trigger] first[k]).0 == x || first[k].1 == x);
            assert(trace[k] == first[k]);
        } else {
            lemma_walks_merge_ends(next, chains.drop_first(), x);
            let k = choose|k: int| 0 <= k < later.len() && ((#[trigger] later[k]).0 == x || later[k].1 == x);
            assert(trace[first.len() + k] == later[k]);
        }
    }
}

/// A point that the simplification merges into another is an end of an edge
/// that it collapsed.
pub proof fn lemma_merged_points_were_collapsed<R, L, P: Atom>(facts: FactsView<R, L, P>, x: P)
    requires
        facts.survivor(x) != x,
    ensures
        is_end_of(facts.collapsed(), x),
{
    lemma_walks_merge_ends(facts, graph::isolated_chains(facts.cfg_edge), x);
}

/// `after` holds, of the five relations that name a point, the tuples of
/// `before` whose point is kept, in their order, and the universal regions
/// of `before`.
pub open spec fn keeps_facts<R, L, P>(
    before: FactsView<R, L, P>,
    after: FactsView<R, L, P>,
    is_kept: spec_fn(P) -> bool,
) -> bool {
    &&& after.universal_region == before.universal_region
    &&& after.borrow_region == before.borrow_region.filter(|t: (R, L, P)| is_kept(t.2))
    &&& after.killed == before.killed.filter(|t: (L, P)| is_kept(t.1))
    &&& after.outlives == before.outlives.filter(|t: (R, R, P)| is_kept(t.2))
    &&& after.region_live_at == before.region_live_at.filter(|t: (R, P)| is_kept(t.1))
    &&& after.invalidates == before.invalidates.filter(|t: (P, L)| is_kept(t.0))
}

/// Keeping the facts at some points and then at others keeps the facts at
/// the points that are kept both times.
pub proof fn lemma_keeps_facts_twice<R, L, P>(
    before: FactsView<R, L, P>,
    between: FactsView<R, L, P>,
    after: FactsView<R, L, P>,
    first: spec_fn(P) -> bool,
    second: spec_fn(P) -> bool,
    both: spec_fn(P) -> bool,
)
    requires
        keeps_facts(before, between, first),
        keeps_facts(between, after, second),
        forall|x: P| #[trigger] both(x) <==> first(x) && second(x),
    ensures
        keeps_facts(before, after, both),
{
    seqs::lemma_filter_twice(
        before.borrow_region,
        |t: (R, L, P)| first(t.2),
        |t: (R, L, P)| second(t.2),
        |t: (R, L, P)| both(t.2),
    );
    seqs::lemma_filter_twice(
        before.killed,
        |t: (L, P)| first(t.1),
        |t: (L, P)| second(t.1),
        |t: (L, P)| both(t.1),
    );
    seqs::lemma_filter_twice(
        before.outlives,
        |t: (R, R, P)| first(t.2),
        |t: (R, R, P)| second(t.2),
        |t: (R, R, P)| both(t.2),
    );
    seqs::lemma_filter_twice(
        before.region_live_at,
        |t: (R, P)| first(t.1),
        |t: (R, P)| second(t.1),
        |t: (R, P)| both(t.1),
    );
    seqs::lemma_filter_twice(
        before.invalidates,
        |t: (P, L)| first(t.0),
        |t: (P, L)| second(t.0),
        |t: (P, L)| both(t.0),
    );
}

/// A store keeps its own facts at every point.
pub proof fn lemma_keeps_own_facts<R, L, P>(facts: FactsView<R, L, P>, all: spec_fn(P) -> bool)
    requires
        forall|x: P| #[trigger] all(x),
    ensures
        keeps_facts(facts, facts, all),
{
    seqs::lemma_filter_all(facts.borrow_region, |t: (R, L, P)| all(t.2));
    seqs::lemma_filter_all(facts.killed, |t: (L, P)| all(t.1));
    seqs::lemma_filter_all(facts.outlives, |t: (R, R, P)| all(t.2));
    seqs::lemma_filter_all(facts.region_live_at, |t: (R, P)| all(t.1));
    seqs::lemma_filter_all(facts.invalidates, |t: (P, L)| all(t.0));
}

/// A collapse keeps the facts at every point but the one that it merges
/// into the other.
pub proof fn lemma_collapse_keeps_facts_at<R, L, P>(
    facts: FactsView<R, L, P>,
    p: P,
    q: P,
    is_kept: spec_fn(P) -> bool,
)
    requires
        p != q,
        forall|x: P| #[trigger] is_kept(x) <==> facts.merged(p, q, x) == x,
    ensures
        keeps_facts(facts, facts.collapse_edge(p, q), is_kept),
{
    if !facts.is_endpoint(q) {
        assert((|t: (R, L, P)| is_kept(t.2)) =~= (|t: (R, L, P)| t.2 != q));
        assert((|t: (L, P)| is_kept(t.1)) =~= (|t: (L, P)| t.1 != q));
        assert((|t: (R, R, P)| is_kept(t.2)) =~= (|t: (R, R, P)| t.2 != q));
        assert((|t: (R, P)| is_kept(t.1)) =~= (|t: (R, P)| t.1 != q));
        assert((|t: (P, L)| is_kept(t.0)) =~= (|t: (P, L)| t.0 != q));
    } else if !facts.is_startpoint(p) {
        assert((|t: (R, L, P)| is_kept(t.2)) =~= (|t: (R, L, P)| t.2 != p));
        assert((|t: (L, P)| is_kept(t.1)) =~= (|t: (L, P)| t.1 != p));
        assert((|t: (R, R, P)| is_kept(t.2)) =~= (|t: (R, R, P)| t.2 != p));
        assert((|t: (R, P)| is_kept(t.1)) =~= (|t: (R, P)| t.1 != p));
        assert((|t: (P, L)| is_kept(t.0)) =~= (|t: (P, L)| t.0 != p));
    } else {
        lemma_keeps_own_facts(facts, is_kept);
    }
}

/// The point that stands for `x` after a walk is `x` or a point of the walk,
/// and where it is not `x`, `x` is a point of the walk too.
pub proof fn lemma_survivor_is_near<R, L, P>(
    facts: FactsView<R, L, P>,
    anchor: P,
    rest: Seq<P>,
    x: P,
)
    ensures
        facts.survivor_from(anchor, rest, x) != x ==> (x == anchor || rest.contains(x)) && (
        facts.survivor_from(anchor, rest, x) == anchor || rest.contains(
            facts.survivor_from(anchor, rest, x),
        )),
    decreases rest.len(),
{
    if rest.len() == 0 {
    } else {
        let tail = rest.drop_first();
        assert forall|y: P| tail.contains(y) implies rest.contains(y) by {
            let k = choose|k: int| 0 <= k < tail.len() && tail[k] == y;
            assert(rest[k + 1] == y);
        }
        assert(rest.contains(rest[0]));
        if facts.is_edge_collapsible(anchor, rest[0]) {
            lemma_survivor_is_near(
                facts.collapse_edge(anchor, rest[0]),
                anchor,
                tail,
                facts.merged(anchor, rest[0], x),
            );
        } else {
            lemma_survivor_is_near(facts, rest[0], tail, x);
        }
    }
}

/// The point that stands for `x` after walks along chains is `x` or a point
/// of the chains.
pub proof fn lemma_survivor_is_on<R, L, P>(facts: FactsView<R, L, P>, chains: Seq<Seq<P>>, x: P)
    ensures
        facts.survivor_in_chains(chains, x) == x || walk::is_on(
            chains,
            facts.survivor_in_chains(chains, x),
        ),
    decreases chains.len(),
{
    if chains.len() > 0 {
        let chain = chains[0];
        let others = chains.drop_first();
        let y = facts.survivor_in_chain(chain, x);
        let z = facts.simplify_chain(chain).survivor_in_chains(others, y);
        lemma_survivor_is_on(facts.simplify_chain(chain), others, y);
        if z != x {
            if z == y {
                lemma_survivor_is_near(facts, chain[0], chain.drop_first(), x);
                if y != chain[0] {
                    let k = choose|k: int| 0 <= k < chain.drop_first().len() && chain.drop_first()[k] == y;
                    assert(chains[0][k + 1] == y);
                } else {
                    assert(chains[0][0] == y);
                }
            } else {
                let (a, s) = choose|a: int, s: int|
                    0 <= a < others.len() && 0 <= s < others[a].len() && #[trigger] others[a][s]
                        == z;
                assert(chains[a + 1][s] == z);
            }
        }
    }
}

/// The walk along a path keeps the facts at the points that stand for
/// themselves after it, and drops the facts at the others.
pub proof fn lemma_walk_keeps_facts<R, L, P>(
    origin: FactsView<R, L, P>,
    chains: Seq<Seq<P>>,
    facts: FactsView<R, L, P>,
    paths: Seq<Seq<P>>,
    i: int,
)
    requires
        walk::walk_inv(origin, chains, facts, paths),
        0 <= i < paths.len(),
        paths[i].len() >= 1,
    ensures
        keeps_facts(
            facts,
            facts.simplify_chain(paths[i]),
            |x: P| facts.survivor_in_chain(paths[i], x) == x,
        ),
    decreases paths[i].len(),
{
    let path = paths[i];
    let anchor = path[0];
    let rest = path.drop_first();
    let is_kept = |x: P| facts.survivor_in_chain(paths[i], x) == x;
    assert(facts.simplify_chain(path) == facts.simplify_from(anchor, rest));
    if rest.len() == 0 {
        lemma_keeps_own_facts(facts, is_kept);
    } else if facts.is_edge_collapsible(anchor, rest[0]) {
        let e = walk::lemma_site(origin, chains, facts, paths, i);
        walk::lemma_step_collapse(origin, chains, facts, paths, i);
        let next = facts.collapse_edge(anchor, rest[0]);
        let left = walk::paths_after(facts, paths, i);
        let first = |x: P| facts.merged(anchor, rest[0], x) == x;
        lemma_collapse_keeps_facts_at(facts, anchor, rest[0], first);
        assert(facts.simplify_from(anchor, rest) == next.simplify_from(anchor, rest.drop_first()));
        if !facts.is_endpoint(path[1]) {
            assert(left[i] == path.remove(1));
            assert(left[i][0] == anchor);
            assert(left[i].drop_first() =~= rest.drop_first());
            assert(next.simplify_chain(left[i]) == next.simplify_from(anchor, rest.drop_first()));
            lemma_walk_keeps_facts(origin, chains, next, left, i);
            let second = |x: P| next.survivor_in_chain(left[i], x) == x;
            assert forall|x: P| #[trigger] is_kept(x) <==> first(x) && second(x) by {
                let x1 = facts.merged(anchor, rest[0], x);
                assert(facts.survivor_from(anchor, rest, x) == next.survivor_from(
                    anchor,
                    rest.drop_first(),
                    x1,
                ));
                if x1 != x {
                    assert(x == paths[i][1]);
                    lemma_survivor_is_near(next, anchor, rest.drop_first(), x1);
                    let s = next.survivor_from(anchor, rest.drop_first(), x1);
                    if s == x {
                        assert(paths[i][0] != paths[i][1]);
                        let k = choose|k: int|
                            0 <= k < rest.drop_first().len() && rest.drop_first()[k] == s;
                        assert(paths[i][k + 2] == paths[i][1]);
                    }
                }
            }
            lemma_keeps_facts_twice(
                facts,
                next,
                next.simplify_chain(left[i]),
                first,
                second,
                is_kept,
            );
        } else {
            assert(rest.drop_first().len() == 0);
            assert(next.simplify_from(anchor, rest.drop_first()) == next);
            assert forall|x: P| #[trigger] is_kept(x) <==> first(x) by {
                let x1 = facts.merged(anchor, rest[0], x);
                assert(facts.survivor_from(anchor, rest, x) == next.survivor_from(
                    anchor,
                    rest.drop_first(),
                    x1,
                ));
                assert(next.survivor_from(anchor, rest.drop_first(), x1) == x1);
            }
            assert(is_kept =~= first);
        }
    } else {
        walk::lemma_step_advance(origin, chains, facts, paths, i);
        let left = paths.update(i, rest);
        assert(facts.simplify_from(anchor, rest) == facts.simplify_from(rest[0], rest.drop_first()));
        assert(left[i] == rest);
        assert(facts.simplify_chain(left[i]) == facts.simplify_from(rest[0], rest.drop_first()));
        lemma_walk_keeps_facts(origin, chains, facts, left, i);
        let second = |x: P| facts.survivor_in_chain(left[i], x) == x;
        assert forall|x: P| #[trigger] is_kept(x) <==> second(x) by {
            assert(facts.survivor_from(anchor, rest, x) == facts.survivor_from(
                rest[0],
                rest.drop_first(),
                x,
            ));
        }
        assert(is_kept =~= second);
    }
}

/// The walks along the paths from place `i` on keep the facts at the points
/// that stand for themselves after them, and drop the facts at the others.
pub proof fn lemma_walks_keep_facts<R, L, P>(
    origin: FactsView<R, L, P>,
    chains: Seq<Seq<P>>,
    facts: FactsView<R, L, P>,
    paths: Seq<Seq<P>>,
    i: int,
)
    requires
        walk::walk_inv(origin, chains, facts, paths),
        0 <= i <= paths.len(),
        forall|b: int| i <= b < paths.len() ==> (#[trigger] paths[b]).len() >= 1,
    ensures
        keeps_facts(
            facts,
            facts.simplify_chains(paths.skip(i)),
            |x: P| facts.survivor_in_chains(paths.skip(i), x) == x,
        ),
    decreases paths.len() - i,
{
    let is_kept = |x: P| facts.survivor_in_chains(paths.skip(i), x) == x;
    if i == paths.len() {
        lemma_keeps_own_facts(facts, is_kept);
    } else {
        let path = paths[i];
        let next = facts.simplify_chain(path);
        let left = paths.update(i, Seq::empty());
        let later = paths.skip(i).drop_first();
        assert(left.skip(i + 1) =~= later);
        assert(paths.skip(i)[0] == path);
        walk::lemma_walk_keeps_inv(origin, chains, facts, paths, i);
        lemma_walk_keeps_facts(origin, chains, facts, paths, i);
        lemma_walks_keep_facts(origin, chains, next, left, i + 1);
        let first = |x: P| facts.survivor_in_chain(path, x) == x;
        let second = |x: P| next.survivor_in_chains(later, x) == x;
        assert forall|x: P| #[trigger] is_kept(x) <==> first(x) && second(x) by {
            let y = facts.survivor_in_chain(path, x);
            let z = next.survivor_in_chains(later, y);
            assert(facts.survivor_in_chains(paths.skip(i), x) == z);
            if y != x && z == x {
                lemma_survivor_is_near(facts, path[0], path.drop_first(), x);
                lemma_survivor_is_on(next, later, y);
                let (a, s) = choose|a: int, s: int|
                    0 <= a < later.len() && 0 <= s < later[a].len() && #[trigger] later[a][s] == z;
                assert(paths[i + 1 + a][s] == x);
                if x == path[0] {
                    assert(paths[i][0] == x);
                } else {
                    let k = choose|k: int| 0 <= k < path.drop_first().len() && path.drop_first()[k] == x;
                    assert(paths[i][k + 1] == x);
                }
            }
        }
        lemma_keeps_facts_twice(
            facts,
            next,
            next.simplify_chains(later),
            first,
            second,
            is_kept,
        );
    }
}

/// The simplified store holds the facts at the points that were not merged
/// into another, each relation in its order, and no others: no fact is
/// dropped but at a merged point, and none is added.
pub proof fn lemma_facts_are_kept<R, L, P: Atom>(facts: FactsView<R, L, P>)
    ensures
        keeps_facts(facts, facts.simplify_cfg(), |x: P| facts.survivor(x) == x),
{
    let chains = graph::isolated_chains(facts.cfg_edge);
    walk::lemma_walk_starts(facts);
    assert(chains.skip(0) =~= chains);
    lemma_walks_keep_facts(facts, chains, facts, chains, 0);
    assert((|x: P| facts.survivor(x) == x) =~= (|x: P|
        facts.survivor_in_chains(chains.skip(0), x) == x));
}

/// The collapse of an isolated edge gives no two edges the same ends that
/// had other ends before.
pub proof fn lemma_collapse_keeps_distinct<R, L, P>(facts: FactsView<R, L, P>, p: P, q: P, e: int)
    requires
        rewrite::is_collapse_site(facts, p, q, e),
        facts.cfg_edge.no_duplicates(),
    ensures
        facts.collapse_edge(p, q).cfg_edge.no_duplicates(),
{
    let edges = facts.cfg_edge;
    let after = facts.collapse_edge(p, q).cfg_edge;
    rewrite::lemma_collapse_shape(facts, p, q, e);
    if facts.merges(p, q) {
        assert forall|j1: int, m1: int|
            0 <= j1 < after.len() && 0 <= m1 < after.len() && j1 != m1 implies after[j1]
            != after[m1] by {
            let j = rewrite::unshifted(e, j1);
            let m = rewrite::unshifted(e, m1);
            assert(rewrite::shifted(e, j) == j1 && rewrite::shifted(e, m) == m1);
            assert(after[j1] == rewrite::image(facts, p, q, edges[j]));
            assert(after[m1] == rewrite::image(facts, p, q, edges[m]));
            assert(edges[j] != edges[m]);
            assert(edges[j].0 != p && edges[m].0 != p);
            assert(edges[j].1 != q && edges[m].1 != q);
        }
    }
}

/// The walk along a path gives no two edges the same ends that had other
/// ends before.
pub proof fn lemma_walk_keeps_distinct<R, L, P>(
    origin: FactsView<R, L, P>,
    chains: Seq<Seq<P>>,
    facts: FactsView<R, L, P>,
    paths: Seq<Seq<P>>,
    i: int,
)
    requires
        walk::walk_inv(origin, chains, facts, paths),
        0 <= i < paths.len(),
        paths[i].len() >= 1,
        facts.cfg_edge.no_duplicates(),
    ensures
        facts.simplify_chain(paths[i]).cfg_edge.no_duplicates(),
    decreases paths[i].len(),
{
    let path = paths[i];
    let anchor = path[0];
    let rest = path.drop_first();
    assert(facts.simplify_chain(path) == facts.simplify_from(anchor, rest));
    if rest.len() == 0 {
    } else if facts.is_edge_collapsible(anchor, rest[0]) {
        let e = walk::lemma_site(origin, chains, facts, paths, i);
        walk::lemma_step_collapse(origin, chains, facts, paths, i);
        lemma_collapse_keeps_distinct(facts, anchor, rest[0], e);
        let next = facts.collapse_edge(anchor, rest[0]);
        let left = walk::paths_after(facts, paths, i);
        assert(facts.simplify_from(anchor, rest) == next.simplify_from(anchor, rest.drop_first()));
        if !facts.is_endpoint(path[1]) {
            assert(left[i] == path.remove(1));
            assert(left[i][0] == anchor);
            assert(left[i].drop_first() =~= rest.drop_first());
            assert(next.simplify_chain(left[i]) == next.simplify_from(anchor, rest.drop_first()));
            lemma_walk_keeps_distinct(origin, chains, next, left, i);
        } else {
            assert(rest.drop_first().len() == 0);
            assert(next.simplify_from(anchor, rest.drop_first()) == next);
        }
    } else {
        walk::lemma_step_advance(origin, chains, facts, paths, i);
        let left = paths.update(i, rest);
        assert(facts.simplify_from(anchor, rest) == facts.simplify_from(rest[0], rest.drop_first()));
        assert(left[i] == rest);
        assert(facts.simplify_chain(left[i]) == facts.simplify_from(rest[0], rest.drop_first()));
        lemma_walk_keeps_distinct(origin, chains, facts, left, i);
    }
}

/// The walks along the paths from place `i` on give no two edges the same
/// ends that had other ends before.
pub proof fn lemma_walks_keep_distinct<R, L, P>(
    origin: FactsView<R, L, P>,
    chains: Seq<Seq<P>>,
    facts: FactsView<R, L, P>,
    paths: Seq<Seq<P>>,
    i: int,
)
    requires
        walk::walk_inv(origin, chains, facts, paths),
        0 <= i <= paths.len(),
        forall|b: int| i <= b < paths.len() ==> (#[trigger] paths[b]).len() >= 1,
        facts.cfg_edge.no_duplicates(),
    ensures
        facts.simplify_chains(paths.skip(i)).cfg_edge.no_duplicates(),
    decreases paths.len() - i,
{
    if i < paths.len() {
        let left = paths.update(i, Seq::empty());
        assert(left.skip(i + 1) =~= paths.skip(i).drop_first());
        assert(paths.skip(i)[0] == paths[i]);
        walk::lemma_walk_keeps_inv(origin, chains, facts, paths, i);
        lemma_walk_keeps_distinct(origin, chains, facts, paths, i);
        lemma_walks_keep_distinct(origin, chains, facts.simplify_chain(paths[i]), left, i + 1);
    }
}

/// Simplification adds no repeated tuple: a relation in which no tuple
/// occurs twice is one in which none occurs twice afterwards.
pub proof fn lemma_no_repeat_is_added<R, L, P: Atom>(facts: FactsView<R, L, P>)
    ensures
        facts.cfg_edge.no_duplicates() ==> facts.simplify_cfg().cfg_edge.no_duplicates(),
        facts.borrow_region.no_duplicates() ==> facts.simplify_cfg().borrow_region.no_duplicates(),
        facts.killed.no_duplicates() ==> facts.simplify_cfg().killed.no_duplicates(),
        facts.outlives.no_duplicates() ==> facts.simplify_cfg().outlives.no_duplicates(),
        facts.region_live_at.no_duplicates() ==> facts.simplify_cfg().region_live_at.no_duplicates(),
        facts.invalidates.no_duplicates() ==> facts.simplify_cfg().invalidates.no_duplicates(),
        facts.simplify_cfg().universal_region == facts.universal_region,
{
    let chains = graph::isolated_chains(facts.cfg_edge);
    let is_kept = |x: P| facts.survivor(x) == x;
    walk::lemma_walk_starts(facts);
    assert(chains.skip(0) =~= chains);
    if facts.cfg_edge.no_duplicates() {
        lemma_walks_keep_distinct(facts, chains, facts, chains, 0);
    }
    lemma_facts_are_kept(facts);
    if facts.borrow_region.no_duplicates() {
        seqs::lemma_filter_distinct(facts.borrow_region, |t: (R, L, P)| is_kept(t.2));
    }
    if facts.killed.no_duplicates() {
        seqs::lemma_filter_distinct(facts.killed, |t: (L, P)| is_kept(t.1));
    }
    if facts.outlives.no_duplicates() {
        seqs::lemma_filter_distinct(facts.outlives, |t: (R, R, P)| is_kept(t.2));
    }
    if facts.region_live_at.no_duplicates() {
        seqs::lemma_filter_distinct(facts.region_live_at, |t: (R, P)| is_kept(t.1));
    }
    if facts.invalidates.no_duplicates() {
        seqs::lemma_filter_distinct(facts.invalidates, |t: (P, L)| is_kept(t.0));
    }
}

/// A point that the walk along a path merges into another was, in the
/// store as it was at the start, told apart from its survivor by no fact.
pub proof fn lemma_walk_merges_alike<R, L, P>(
    origin: FactsView<R, L, P>,
    chains: Seq<Seq<P>>,
    facts: FactsView<R, L, P>,
    paths: Seq<Seq<P>>,
    i: int,
    x: P,
)
    requires
        walk::walk_inv(origin, chains, facts, paths),
        0 <= i < paths.len(),
        paths[i].len() >= 1,
    ensures
        facts.survivor_in_chain(paths[i], x) == x || origin.is_edge_collapsible(
            x,
            facts.survivor_in_chain(paths[i], x),
        ),
    decreases paths[i].len(),
{
    let path = paths[i];
    let anchor = path[0];
    let rest = path.drop_first();
    assert(facts.survivor_in_chain(path, x) == facts.survivor_from(anchor, rest, x));
    if rest.len() == 0 {
    } else if facts.is_edge_collapsible(anchor, rest[0]) {
        walk::lemma_step_collapse(origin, chains, facts, paths, i);
        let next = facts.collapse_edge(anchor, rest[0]);
        let left = walk::paths_after(facts, paths, i);
        let x1 = facts.merged(anchor, rest[0], x);
        assert(paths[i][0] == anchor && paths[i][1] == rest[0]);
        assert(walk::same_facts_at(origin, facts, paths[i][0]));
        assert(walk::same_facts_at(origin, facts, paths[i][1]));
        walk::lemma_collapsible_by_facts(origin, facts, anchor, rest[0]);
        assert(x1 == x || origin.is_edge_collapsible(x, x1));
        assert(facts.survivor_from(anchor, rest, x) == next.survivor_from(
            anchor,
            rest.drop_first(),
            x1,
        ));
        if !facts.is_endpoint(path[1]) {
            assert(left[i] == path.remove(1));
            assert(left[i][0] == anchor);
            assert(left[i].drop_first() =~= rest.drop_first());
            assert(next.survivor_in_chain(left[i], x1) == next.survivor_from(
                anchor,
                rest.drop_first(),
                x1,
            ));
            lemma_walk_merges_alike(origin, chains, next, left, i, x1);
        } else {
            assert(rest.drop_first().len() == 0);
            assert(next.survivor_from(anchor, rest.drop_first(), x1) == x1);
        }
    } else {
        walk::lemma_step_advance(origin, chains, facts, paths, i);
        let left = paths.update(i, rest);
        assert(left[i] == rest);
        assert(facts.survivor_from(anchor, rest, x) == facts.survivor_from(
            rest[0],
            rest.drop_first(),
            x,
        ));
        assert(facts.survivor_in_chain(left[i], x) == facts.survivor_from(
            rest[0],
            rest.drop_first(),
            x,
        ));
        lemma_walk_merges_alike(origin, chains, facts, left, i, x);
    }
}

/// A point that the walks along the paths from place `i` on merge into
/// another was, in the store as it was at the start, told apart from its
/// survivor by no fact.
pub proof fn lemma_walks_merge_alike<R, L, P>(
    origin: FactsView<R, L, P>,
    chains: Seq<Seq<P>>,
    facts: FactsView<R, L, P>,
    paths: Seq<Seq<P>>,
    i: int,
    x: P,
)
    requires
        walk::walk_inv(origin, chains, facts, paths),
        0 <= i <= paths.len(),
        forall|b: int| i <= b < paths.len() ==> (#[trigger] paths[b]).len() >= 1,
    ensures
        facts.survivor_in_chains(paths.skip(i), x) == x || origin.is_edge_collapsible(
            x,
            facts.survivor_in_chains(paths.skip(i), x),
        ),
    decreases paths.len() - i,
{
    if i < paths.len() {
        let left = paths.update(i, Seq::empty());
        let next = facts.simplify_chain(paths[i]);
        let y = facts.survivor_in_chain(paths[i], x);
        assert(left.skip(i + 1) =~= paths.skip(i).drop_first());
        assert(paths.skip(i)[0] == paths[i]);
        walk::lemma_walk_keeps_inv(origin, chains, facts, paths, i);
        lemma_walk_merges_alike(origin, chains, facts, paths, i, x);
        lemma_walks_merge_alike(origin, chains, next, left, i + 1, y);
    }
}

/// Two points are merged only where no fact told them apart: a point with
/// another survivor had, in the store as it was, the live regions of its
/// survivor, and neither had a kill, an outlives constraint or an
/// invalidation.
pub proof fn lemma_merged_points_were_alike<R, L, P: Atom>(facts: FactsView<R, L, P>, x: P)
    ensures
        facts.survivor(x) == x || facts.is_edge_collapsible(x, facts.survivor(x)),
{
    let chains = graph::isolated_chains(facts.cfg_edge);
    walk::lemma_walk_starts(facts);
    assert(chains.skip(0) =~= chains);
    lemma_walks_merge_alike(facts, chains, facts, chains, 0, x);
}

/// Two points with one survivor were, in the store as it was, told apart by
/// no fact.
pub proof fn lemma_points_merged_together_were_alike<R, L, P: Atom>(
    facts: FactsView<R, L, P>,
    x: P,
    y: P,
)
    requires
        facts.survivor(x) == facts.survivor(y),
        x != y,
    ensures
        facts.is_edge_collapsible(x, y),
{
    lemma_merged_points_were_alike(facts, x);
    lemma_merged_points_were_alike(facts, y);
}

/// Every edge of the store joins two points whose survivors are one point
/// or are joined by an edge of the simplified store.
pub proof fn lemma_edges_are_kept<R, L, P: Atom>(facts: FactsView<R, L, P>, i: int)
    requires
        0 <= i < facts.cfg_edge.len(),
    ensures
        walk::joins(
            facts.simplify_cfg().cfg_edge,
            facts.survivor(facts.cfg_edge[i].0),
            facts.survivor(facts.cfg_edge[i].1),
        ),
{
    let chains = graph::isolated_chains(facts.cfg_edge);
    walk::lemma_walk_starts(facts);
    assert(chains.skip(0) =~= chains);
    assert(facts.cfg_edge.contains(facts.cfg_edge[i]));
    walk::lemma_walks_join(
        facts,
        chains,
        facts,
        chains,
        0,
        facts.cfg_edge[i].0,
        facts.cfg_edge[i].1,
    );
}

/// Every edge after the walk along a path joins the survivors of the two
/// ends of an edge before it.
pub proof fn lemma_walk_makes_no_edge<R, L, P>(
    origin: FactsView<R, L, P>,
    chains: Seq<Seq<P>>,
    facts: FactsView<R, L, P>,
    paths: Seq<Seq<P>>,
    i: int,
    after: int,
) -> (before: int)
    requires
        walk::walk_inv(origin, chains, facts, paths),
        0 <= i < paths.len(),
        paths[i].len() >= 1,
        0 <= after < facts.simplify_chain(paths[i]).cfg_edge.len(),
    ensures
        0 <= before < facts.cfg_edge.len(),
        facts.simplify_chain(paths[i]).cfg_edge[after] == (
            facts.survivor_in_chain(paths[i], facts.cfg_edge[before].0),
            facts.survivor_in_chain(paths[i], facts.cfg_edge[before].1),
        ),
    decreases paths[i].len(),
{
    let path = paths[i];
    let anchor = path[0];
    let rest = path.drop_first();
    assert(facts.simplify_chain(path) == facts.simplify_from(anchor, rest));
    if rest.len() == 0 {
        assert(facts.survivor_from(anchor, rest, facts.cfg_edge[after].0)
            == facts.cfg_edge[after].0);
        assert(facts.survivor_from(anchor, rest, facts.cfg_edge[after].1)
            == facts.cfg_edge[after].1);
        after
    } else if facts.is_edge_collapsible(anchor, rest[0]) {
        let e = walk::lemma_site(origin, chains, facts, paths, i);
        walk::lemma_step_collapse(origin, chains, facts, paths, i);
        rewrite::lemma_collapse_shape(facts, anchor, rest[0], e);
        let next = facts.collapse_edge(anchor, rest[0]);
        let left = walk::paths_after(facts, paths, i);
        assert(facts.simplify_from(anchor, rest) == next.simplify_from(anchor, rest.drop_first()));
        let between = if !facts.is_endpoint(path[1]) {
            assert(left[i] == path.remove(1));
            assert(left[i][0] == anchor);
            assert(left[i].drop_first() =~= rest.drop_first());
            assert(next.simplify_chain(left[i]) == next.simplify_from(anchor, rest.drop_first()));
            let between = lemma_walk_makes_no_edge(origin, chains, next, left, i, after);
            assert(next.survivor_in_chain(left[i], next.cfg_edge[between].0) == next.survivor_from(
                anchor,
                rest.drop_first(),
                next.cfg_edge[between].0,
            ));
            assert(next.survivor_in_chain(left[i], next.cfg_edge[between].1) == next.survivor_from(
                anchor,
                rest.drop_first(),
                next.cfg_edge[between].1,
            ));
            between
        } else {
            assert(rest.drop_first().len() == 0);
            assert(next.simplify_from(anchor, rest.drop_first()) == next);
            assert(next.survivor_from(anchor, rest.drop_first(), next.cfg_edge[after].0)
                == next.cfg_edge[after].0);
            assert(next.survivor_from(anchor, rest.drop_first(), next.cfg_edge[after].1)
                == next.cfg_edge[after].1);
            after
        };
        let before = if facts.merges(anchor, rest[0]) {
            rewrite::unshifted(e, between)
        } else {
            between
        };
        if facts.merges(anchor, rest[0]) {
            assert(rewrite::shifted(e, before) == between);
            assert(next.cfg_edge[between] == rewrite::image(
                facts,
                anchor,
                rest[0],
                facts.cfg_edge[before],
            ));
        } else {
            assert(facts.merged(anchor, rest[0], facts.cfg_edge[before].0)
                == facts.cfg_edge[before].0);
            assert(facts.merged(anchor, rest[0], facts.cfg_edge[before].1)
                == facts.cfg_edge[before].1);
        }
        assert(facts.survivor_from(anchor, rest, facts.cfg_edge[before].0) == next.survivor_from(
            anchor,
            rest.drop_first(),
            facts.merged(anchor, rest[0], facts.cfg_edge[before].0),
        ));
        assert(facts.survivor_from(anchor, rest, facts.cfg_edge[before].1) == next.survivor_from(
            anchor,
            rest.drop_first(),
            facts.merged(anchor, rest[0], facts.cfg_edge[before].1),
        ));
        before
    } else {
        walk::lemma_step_advance(origin, chains, facts, paths, i);
        let left = paths.update(i, rest);
        assert(left[i] == rest);
        assert(facts.simplify_from(anchor, rest) == facts.simplify_from(rest[0], rest.drop_first()));
        assert(facts.simplify_chain(left[i]) == facts.simplify_from(rest[0], rest.drop_first()));
        let before = lemma_walk_makes_no_edge(origin, chains, facts, left, i, after);
        assert(facts.survivor_from(anchor, rest, facts.cfg_edge[before].0) == facts.survivor_from(
            rest[0],
            rest.drop_first(),
            facts.cfg_edge[before].0,
        ));
        assert(facts.survivor_from(anchor, rest, facts.cfg_edge[before].1) == facts.survivor_from(
            rest[0],
            rest.drop_first(),
            facts.cfg_edge[before].1,
        ));
        before
    }
}

/// Every edge after the walks along the paths from place `i` on joins the
/// survivors of the two ends of an edge before them.
pub proof fn lemma_walks_make_no_edge<R, L, P>(
    origin: FactsView<R, L, P>,
    chains: Seq<Seq<P>>,
    facts: FactsView<R, L, P>,
    paths: Seq<Seq<P>>,
    i: int,
    after: int,
) -> (before: int)
    requires
        walk::walk_inv(origin, chains, facts, paths),
        0 <= i <= paths.len(),
        forall|b: int| i <= b < paths.len() ==> (#[trigger] paths[b]).len() >= 1,
        0 <= after < facts.simplify_chains(paths.skip(i)).cfg_edge.len(),
    ensures
        0 <= before < facts.cfg_edge.len(),
        facts.simplify_chains(paths.skip(i)).cfg_edge[after] == (
            facts.survivor_in_chains(paths.skip(i), facts.cfg_edge[before].0),
            facts.survivor_in_chains(paths.skip(i), facts.cfg_edge[before].1),
        ),
    decreases paths.len() - i,
{
    if i < paths.len() {
        let left = paths.update(i, Seq::empty());
        let next = facts.simplify_chain(paths[i]);
        assert(left.skip(i + 1) =~= paths.skip(i).drop_first());
        assert(paths.skip(i)[0] == paths[i]);
        walk::lemma_walk_keeps_inv(origin, chains, facts, paths, i);
        let between = lemma_walks_make_no_edge(origin, chains, next, left, i + 1, after);
        lemma_walk_makes_no_edge(origin, chains, facts, paths, i, between)
    } else {
        after
    }
}

/// Simplification makes no edge of its own: every edge of the simplified
/// store joins the survivors of the two ends of an edge of the store.
pub proof fn lemma_edges_come_from_edges<R, L, P: Atom>(
    facts: FactsView<R, L, P>,
    after: int,
) -> (before: int)
    requires
        0 <= after < facts.simplify_cfg().cfg_edge.len(),
    ensures
        0 <= before < facts.cfg_edge.len(),
        facts.simplify_cfg().cfg_edge[after] == (
            facts.survivor(facts.cfg_edge[before].0),
            facts.survivor(facts.cfg_edge[before].1),
        ),
{
    let chains = graph::isolated_chains(facts.cfg_edge);
    walk::lemma_walk_starts(facts);
    assert(chains.skip(0) =~= chains);
    lemma_walks_make_no_edge(facts, chains, facts, chains, 0, after)
}

/// Each point of `path` is joined to the next by an edge.
pub open spec fn is_path<P>(edges: Seq<(P, P)>, path: Seq<P>) -> bool {
    &&& path.len() >= 1
    &&& forall|k: int| 0 <= k < path.len() - 1 ==> edges.contains((#[trigger] path[k], path[k + 1]))
}

/// Reachability is kept: along a path of the store, the survivor of each
/// point is the survivor of the next, or an edge of the simplified store
/// leads from the one to the other.
pub proof fn lemma_reachability_is_kept<R, L, P: Atom>(facts: FactsView<R, L, P>, path: Seq<P>)
    requires
        is_path(facts.cfg_edge, path),
    ensures
        forall|k: int|
            0 <= k < path.len() - 1 ==> walk::joins(
                facts.simplify_cfg().cfg_edge,
                facts.survivor(#[trigger] path[k]),
                facts.survivor(path[k + 1]),
            ),
{
    assert forall|k: int| 0 <= k < path.len() - 1 implies walk::joins(
        facts.simplify_cfg().cfg_edge,
        facts.survivor(#[trigger] path[k]),
        facts.survivor(path[k + 1]),
    ) by {
        assert(facts.cfg_edge.contains((path[k], path[k + 1])));
        let i = choose|i: int|
            0 <= i < facts.cfg_edge.len() && facts.cfg_edge[i] == (path[k], path[k + 1]);
        lemma_edges_are_kept(facts, i);
    }
}

/// The survivor of every point of `path` is the survivor of its first or of
/// its last point: the points between them were merged into the two ends.
pub open spec fn is_collapsed_between<R, L, P: Atom>(
    facts: FactsView<R, L, P>,
    path: Seq<P>,
) -> bool {
    forall|k: int|
        0 <= k < path.len() ==> facts.survivor(#[trigger] path[k]) == facts.survivor(path[0])
            || facts.survivor(path[k]) == facts.survivor(path.last())
}

proof fn lemma_path_reaches<R, L, P: Atom>(facts: FactsView<R, L, P>, path: Seq<P>, k: int)
    requires
        is_path(facts.cfg_edge, path),
        is_collapsed_between(facts, path),
        0 <= k < path.len(),
    ensures
        facts.survivor(path[k]) == facts.survivor(path[0]) || walk::joins(
            facts.simplify_cfg().cfg_edge,
            facts.survivor(path[0]),
            facts.survivor(path.last()),
        ),
    decreases k,
{
    if k > 0 {
        lemma_path_reaches(facts, path, k - 1);
        assert(facts.cfg_edge.contains((path[k - 1], path[k - 1 + 1])));
        let i = choose|i: int| 0 <= i < facts.cfg_edge.len() && facts.cfg_edge[i] == (path[k - 1], path[k]);
        lemma_edges_are_kept(facts, i);
    }
}

/// Two points joined by a path whose inner points were all merged into its
/// two ends are joined in the simplified store: their survivors are one
/// point, or an edge leads from the one to the other.
pub proof fn lemma_paths_are_kept<R, L, P: Atom>(facts: FactsView<R, L, P>, path: Seq<P>)
    requires
        is_path(facts.cfg_edge, path),
        is_collapsed_between(facts, path),
    ensures
        walk::joins(
            facts.simplify_cfg().cfg_edge,
            facts.survivor(path[0]),
            facts.survivor(path.last()),
        ),
{
    lemma_path_reaches(facts, path, path.len() - 1);
}

} // verus!
