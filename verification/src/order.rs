//! The order in which the chains are walked does not matter: collapses of
//! edges that share no point commute, and so do the walks along two paths.

use crate::atom::Atom;
use crate::graph;
use crate::model;
use crate::model::FactsView;
use crate::rewrite;
use crate::seqs;
use crate::walk;
use vstd::prelude::*;

verus! {

/// Dropping the facts at two points gives the same whichever is dropped first.
pub proof fn lemma_forgets_commute<R, L, P>(facts: FactsView<R, L, P>, x: P, y: P)
    ensures
        facts.without_facts_at(x).without_facts_at(y) == facts.without_facts_at(
            y,
        ).without_facts_at(x),
{
    seqs::lemma_filters_commute(
        facts.borrow_region,
        |t: (R, L, P)| t.2 != x,
        |t: (R, L, P)| t.2 != y,
    );
    seqs::lemma_filters_commute(facts.killed, |t: (L, P)| t.1 != x, |t: (L, P)| t.1 != y);
    seqs::lemma_filters_commute(facts.outlives, |t: (R, R, P)| t.2 != x, |t: (R, R, P)| t.2 != y);
    seqs::lemma_filters_commute(facts.region_live_at, |t: (R, P)| t.1 != x, |t: (R, P)| t.1 != y);
    seqs::lemma_filters_commute(facts.invalidates, |t: (P, L)| t.0 != x, |t: (P, L)| t.0 != y);
}

/// The four points are four.
pub open spec fn are_apart<P>(p: P, q: P, x: P, y: P) -> bool {
    p != q && p != x && p != y && q != x && q != y && x != y
}

/// Two merges into the first point of an edge commute.
pub proof fn lemma_first_first_commute<R, L, P>(facts: FactsView<R, L, P>, p: P, q: P, x: P, y: P)
    requires
        are_apart(p, q, x, y),
    ensures
        facts.collapse_keeping_first(p, q).collapse_keeping_first(x, y)
            == facts.collapse_keeping_first(x, y).collapse_keeping_first(p, q),
{
    lemma_forgets_commute(facts, q, y);
    seqs::lemma_rewrites_commute(
        facts.cfg_edge,
        |e: (P, P)| e.1 != q,
        |e: (P, P)| model::rename_source(e, q, p),
        |e: (P, P)| e.1 != y,
        |e: (P, P)| model::rename_source(e, y, x),
    );
}

/// A merge into the first point of an edge and one into the second point
/// of another commute.
pub proof fn lemma_first_second_commute<R, L, P>(
    facts: FactsView<R, L, P>,
    p: P,
    q: P,
    x: P,
    y: P,
)
    requires
        are_apart(p, q, x, y),
    ensures
        facts.collapse_keeping_first(p, q).collapse_keeping_second(x, y)
            == facts.collapse_keeping_second(x, y).collapse_keeping_first(p, q),
{
    lemma_forgets_commute(facts, q, x);
    seqs::lemma_rewrites_commute(
        facts.cfg_edge,
        |e: (P, P)| e.1 != q,
        |e: (P, P)| model::rename_source(e, q, p),
        |e: (P, P)| e.0 != x,
        |e: (P, P)| model::rename_target(e, x, y),
    );
}

/// Two merges into the second point of an edge commute.
pub proof fn lemma_second_second_commute<R, L, P>(
    facts: FactsView<R, L, P>,
    p: P,
    q: P,
    x: P,
    y: P,
)
    requires
        are_apart(p, q, x, y),
    ensures
        facts.collapse_keeping_second(p, q).collapse_keeping_second(x, y)
            == facts.collapse_keeping_second(x, y).collapse_keeping_second(p, q),
{
    lemma_forgets_commute(facts, p, x);
    seqs::lemma_rewrites_commute(
        facts.cfg_edge,
        |e: (P, P)| e.0 != p,
        |e: (P, P)| model::rename_target(e, p, q),
        |e: (P, P)| e.0 != x,
        |e: (P, P)| model::rename_target(e, x, y),
    );
}

/// The collapse of an isolated edge changes nothing that the collapse of
/// another isolated edge, at other points, asks of the store: whether an
/// edge leaves its second point, whether one enters its first point, and
/// whether it is collapsible. The other edge stays an isolated edge.
pub proof fn lemma_decisions_are_kept<R, L, P>(
    facts: FactsView<R, L, P>,
    p: P,
    q: P,
    e: int,
    x: P,
    y: P,
    at: int,
) -> (after: int)
    requires
        rewrite::is_collapse_site(facts, p, q, e),
        rewrite::is_collapse_site(facts, x, y, at),
        are_apart(p, q, x, y),
    ensures
        facts.collapse_edge(p, q).is_endpoint(y) == facts.is_endpoint(y),
        facts.collapse_edge(p, q).is_startpoint(x) == facts.is_startpoint(x),
        facts.collapse_edge(p, q).is_edge_collapsible(x, y) == facts.is_edge_collapsible(x, y),
        rewrite::is_collapse_site(facts.collapse_edge(p, q), x, y, after),
{
    let edges = facts.cfg_edge;
    let next = facts.collapse_edge(p, q);
    rewrite::lemma_collapse_shape(facts, p, q, e);
    walk::lemma_collapse_keeps_facts(facts, p, q, x);
    walk::lemma_collapse_keeps_facts(facts, p, q, y);
    walk::lemma_collapsible_by_facts(facts, next, x, y);
    walk::lemma_edge_survives(facts, p, q, e, x, y);
    let after = choose|m: int| #[trigger]
        graph::is_isolated_at(next.cfg_edge, m) && next.cfg_edge[m] == (x, y);
    if facts.merges(p, q) {
        if !facts.is_endpoint(y) {
            let j = choose|j: int| 0 <= j < edges.len() && (#[trigger] edges[j]).0 == y;
            assert(next.cfg_edge[rewrite::shifted(e, j)] == rewrite::image(facts, p, q, edges[j]));
            assert(next.cfg_edge[rewrite::shifted(e, j)].0 == y);
        }
        if !next.is_endpoint(y) {
            let j1 = choose|j1: int|
                0 <= j1 < next.cfg_edge.len() && (#[trigger] next.cfg_edge[j1]).0 == y;
            let j = rewrite::unshifted(e, j1);
            assert(rewrite::shifted(e, j) == j1);
            assert(next.cfg_edge[j1] == rewrite::image(facts, p, q, edges[j]));
            assert(edges[j].0 == y);
        }
        if !facts.is_startpoint(x) {
            let j = choose|j: int| 0 <= j < edges.len() && (#[trigger] edges[j]).1 == x;
            assert(next.cfg_edge[rewrite::shifted(e, j)] == rewrite::image(facts, p, q, edges[j]));
            assert(next.cfg_edge[rewrite::shifted(e, j)].1 == x);
        }
        if !next.is_startpoint(x) {
            let j1 = choose|j1: int|
                0 <= j1 < next.cfg_edge.len() && (#[trigger] next.cfg_edge[j1]).1 == x;
            let j = rewrite::unshifted(e, j1);
            assert(rewrite::shifted(e, j) == j1);
            assert(next.cfg_edge[j1] == rewrite::image(facts, p, q, edges[j]));
            assert(edges[j].1 == x);
        }
    }
    after
}

/// The collapses of two isolated edges that share no point commute.
pub proof fn lemma_collapses_commute<R, L, P>(
    facts: FactsView<R, L, P>,
    p: P,
    q: P,
    e: int,
    x: P,
    y: P,
    at: int,
)
    requires
        rewrite::is_collapse_site(facts, p, q, e),
        rewrite::is_collapse_site(facts, x, y, at),
        are_apart(p, q, x, y),
    ensures
        facts.collapse_edge(p, q).collapse_edge(x, y) == facts.collapse_edge(x, y).collapse_edge(
            p,
            q,
        ),
{
    lemma_decisions_are_kept(facts, p, q, e, x, y, at);
    lemma_decisions_are_kept(facts, x, y, at, p, q, e);
    if !facts.is_endpoint(q) {
        if !facts.is_endpoint(y) {
            lemma_first_first_commute(facts, p, q, x, y);
        } else if !facts.is_startpoint(x) {
            lemma_first_second_commute(facts, p, q, x, y);
        }
    } else if !facts.is_startpoint(p) {
        if !facts.is_endpoint(y) {
            lemma_first_second_commute(facts, x, y, p, q);
        } else if !facts.is_startpoint(x) {
            lemma_second_second_commute(facts, p, q, x, y);
        }
    }
}

/// The walk along one path and the collapse of the first step of another
/// give the same whichever comes first.
pub proof fn lemma_walk_passes_collapse<R, L, P>(
    origin: FactsView<R, L, P>,
    chains: Seq<Seq<P>>,
    facts: FactsView<R, L, P>,
    paths: Seq<Seq<P>>,
    i: int,
    j: int,
)
    requires
        walk::walk_inv(origin, chains, facts, paths),
        0 <= i < paths.len(),
        0 <= j < paths.len(),
        i != j,
        paths[i].len() >= 2,
        paths[j].len() >= 1,
    ensures
        facts.collapse_edge(paths[i][0], paths[i][1]).simplify_chain(paths[j])
            == facts.simplify_chain(paths[j]).collapse_edge(paths[i][0], paths[i][1]),
    decreases paths[j].len(),
{
    let a0 = paths[i][0];
    let a1 = paths[i][1];
    let path = paths[j];
    let b0 = path[0];
    let rest = path.drop_first();
    let moved = facts.collapse_edge(a0, a1);
    assert(facts.simplify_chain(path) == facts.simplify_from(b0, rest));
    assert(moved.simplify_chain(path) == moved.simplify_from(b0, rest));
    if rest.len() > 0 {
        let b1 = rest[0];
        let ea = walk::lemma_site(origin, chains, facts, paths, i);
        let eb = walk::lemma_site(origin, chains, facts, paths, j);
        assert(paths[j][0] == b0 && paths[j][1] == b1);
        assert(paths[i][0] != paths[j][0] && paths[i][0] != paths[j][1]);
        assert(paths[i][1] != paths[j][0] && paths[i][1] != paths[j][1]);
        assert(are_apart(a0, a1, b0, b1));
        lemma_decisions_are_kept(facts, a0, a1, ea, b0, b1, eb);
        if facts.is_edge_collapsible(b0, b1) {
            let next = facts.collapse_edge(b0, b1);
            lemma_collapses_commute(facts, a0, a1, ea, b0, b1, eb);
            assert(moved.collapse_edge(b0, b1) == next.collapse_edge(a0, a1));
            assert(facts.simplify_from(b0, rest) == next.simplify_from(b0, rest.drop_first()));
            assert(moved.simplify_from(b0, rest) == moved.collapse_edge(b0, b1).simplify_from(
                b0,
                rest.drop_first(),
            ));
            walk::lemma_step_collapse(origin, chains, facts, paths, j);
            let left = walk::paths_after(facts, paths, j);
            if !facts.is_endpoint(b1) {
                assert(left[j] == path.remove(1));
                assert(left[j][0] == b0);
                assert(left[j].drop_first() =~= rest.drop_first());
                assert(left[i] == paths[i]);
                lemma_walk_passes_collapse(origin, chains, next, left, i, j);
                assert(next.simplify_chain(left[j]) == next.simplify_from(b0, rest.drop_first()));
                assert(next.collapse_edge(a0, a1).simplify_chain(left[j]) == next.collapse_edge(
                    a0,
                    a1,
                ).simplify_from(b0, rest.drop_first()));
            } else {
                assert(rest.drop_first().len() == 0);
                assert(next.simplify_from(b0, rest.drop_first()) == next);
                assert(next.collapse_edge(a0, a1).simplify_from(b0, rest.drop_first())
                    == next.collapse_edge(a0, a1));
            }
        } else {
            walk::lemma_step_advance(origin, chains, facts, paths, j);
            let left = paths.update(j, rest);
            assert(left[j] == rest);
            assert(left[i] == paths[i]);
            lemma_walk_passes_collapse(origin, chains, facts, left, i, j);
            assert(facts.simplify_from(b0, rest) == facts.simplify_from(b1, rest.drop_first()));
            assert(moved.simplify_from(b0, rest) == moved.simplify_from(b1, rest.drop_first()));
            assert(facts.simplify_chain(rest) == facts.simplify_from(b1, rest.drop_first()));
            assert(moved.simplify_chain(rest) == moved.simplify_from(b1, rest.drop_first()));
        }
    } else {
        assert(facts.simplify_from(b0, rest) == facts);
        assert(moved.simplify_from(b0, rest) == moved);
    }
}

/// The walks along two paths give the same whichever comes first.
pub proof fn lemma_walks_commute<R, L, P>(
    origin: FactsView<R, L, P>,
    chains: Seq<Seq<P>>,
    facts: FactsView<R, L, P>,
    paths: Seq<Seq<P>>,
    i: int,
    j: int,
)
    requires
        walk::walk_inv(origin, chains, facts, paths),
        0 <= i < paths.len(),
        0 <= j < paths.len(),
        i != j,
        paths[i].len() >= 1,
        paths[j].len() >= 1,
    ensures
        facts.simplify_chain(paths[i]).simplify_chain(paths[j]) == facts.simplify_chain(
            paths[j],
        ).simplify_chain(paths[i]),
    decreases paths[i].len(),
{
    let path = paths[i];
    let other = paths[j];
    let a0 = path[0];
    let rest = path.drop_first();
    let walked = facts.simplify_chain(other);
    assert(facts.simplify_chain(path) == facts.simplify_from(a0, rest));
    assert(walked.simplify_chain(path) == walked.simplify_from(a0, rest));
    if rest.len() > 0 {
        let a1 = rest[0];
        assert(paths[i][0] == a0 && paths[i][1] == a1);
        walk::lemma_walk_keeps_inv(origin, chains, facts, paths, j);
        let emptied = paths.update(j, Seq::empty());
        assert(emptied[i][0] == a0 && emptied[i][1] == a1);
        assert(walk::same_facts_at(origin, facts, paths[i][0]));
        assert(walk::same_facts_at(origin, facts, paths[i][1]));
        assert(walk::same_facts_at(origin, walked, emptied[i][0]));
        assert(walk::same_facts_at(origin, walked, emptied[i][1]));
        walk::lemma_collapsible_by_facts(origin, facts, a0, a1);
        walk::lemma_collapsible_by_facts(origin, walked, a0, a1);
        if facts.is_edge_collapsible(a0, a1) {
            let next = facts.collapse_edge(a0, a1);
            lemma_walk_passes_collapse(origin, chains, facts, paths, i, j);
            assert(walked.collapse_edge(a0, a1) == next.simplify_chain(other));
            assert(facts.simplify_from(a0, rest) == next.simplify_from(a0, rest.drop_first()));
            assert(walked.simplify_from(a0, rest) == walked.collapse_edge(a0, a1).simplify_from(
                a0,
                rest.drop_first(),
            ));
            walk::lemma_step_collapse(origin, chains, facts, paths, i);
            let left = walk::paths_after(facts, paths, i);
            if !facts.is_endpoint(a1) {
                assert(left[i] == path.remove(1));
                assert(left[i][0] == a0);
                assert(left[i].drop_first() =~= rest.drop_first());
                assert(left[j] == other);
                lemma_walks_commute(origin, chains, next, left, i, j);
                assert(next.simplify_chain(left[i]) == next.simplify_from(a0, rest.drop_first()));
                assert(next.simplify_chain(other).simplify_chain(left[i]) == next.simplify_chain(
                    other,
                ).simplify_from(a0, rest.drop_first()));
            } else {
                assert(rest.drop_first().len() == 0);
                assert(next.simplify_from(a0, rest.drop_first()) == next);
                assert(next.simplify_chain(other).simplify_from(a0, rest.drop_first())
                    == next.simplify_chain(other));
            }
        } else {
            walk::lemma_step_advance(origin, chains, facts, paths, i);
            let left = paths.update(i, rest);
            assert(left[i] == rest);
            assert(left[j] == other);
            lemma_walks_commute(origin, chains, facts, left, i, j);
            assert(facts.simplify_from(a0, rest) == facts.simplify_from(a1, rest.drop_first()));
            assert(walked.simplify_from(a0, rest) == walked.simplify_from(a1, rest.drop_first()));
            assert(facts.simplify_chain(rest) == facts.simplify_from(a1, rest.drop_first()));
            assert(walked.simplify_chain(rest) == walked.simplify_from(a1, rest.drop_first()));
        }
    } else {
        assert(facts.simplify_from(a0, rest) == facts);
        assert(walked.simplify_from(a0, rest) == walked);
    }
}

/// The paths at the places `picks`, in the order of `picks`.
pub open spec fn picked<P>(paths: Seq<Seq<P>>, picks: Seq<int>) -> Seq<Seq<P>> {
    Seq::new(picks.len(), |k: int| paths[picks[k]])
}

/// `picks` names places of paths that are not empty, no place twice.
pub open spec fn are_picks<P>(paths: Seq<Seq<P>>, picks: Seq<int>) -> bool {
    &&& picks.no_duplicates()
    &&& forall|k: int|
        0 <= k < picks.len() ==> 0 <= #[trigger] picks[k] < paths.len() && paths[picks[k]].len()
            >= 1
}

/// The walks along picked paths start with the walk along the first, which
/// leaves the other picked paths as they are.
pub proof fn lemma_first_pick<R, L, P>(facts: FactsView<R, L, P>, paths: Seq<Seq<P>>, picks: Seq<int>)
    requires
        are_picks(paths, picks),
        picks.len() >= 1,
    ensures
        are_picks(paths.update(picks[0], Seq::empty()), picks.drop_first()),
        facts.simplify_chains(picked(paths, picks)) == facts.simplify_chain(
            paths[picks[0]],
        ).simplify_chains(picked(paths.update(picks[0], Seq::empty()), picks.drop_first())),
{
    let left = paths.update(picks[0], Seq::empty());
    let later = picks.drop_first();
    assert forall|k: int| 0 <= k < later.len() implies 0 <= #[trigger] later[k] < left.len()
        && left[later[k]].len() >= 1 by {
        assert(later[k] == picks[k + 1]);
        assert(picks[k + 1] != picks[0]);
    }
    assert forall|k: int, m: int| 0 <= k < later.len() && 0 <= m < later.len() && k != m implies later[k]
        != later[m] by {
        assert(picks[k + 1] != picks[m + 1]);
    }
    assert(picked(left, later) =~= picked(paths, picks).drop_first()) by {
        assert forall|k: int| 0 <= k < later.len() implies picked(left, later)[k] == picked(
            paths,
            picks,
        ).drop_first()[k] by {
            assert(later[k] == picks[k + 1]);
            assert(picks[k + 1] != picks[0]);
        }
    }
    assert(picked(paths, picks)[0] == paths[picks[0]]);
}

/// The walks along picked paths give the same when the first two picks
/// change places.
pub proof fn lemma_swap_picks<R, L, P>(
    origin: FactsView<R, L, P>,
    chains: Seq<Seq<P>>,
    facts: FactsView<R, L, P>,
    paths: Seq<Seq<P>>,
    picks: Seq<int>,
)
    requires
        walk::walk_inv(origin, chains, facts, paths),
        are_picks(paths, picks),
        picks.len() >= 2,
    ensures
        are_picks(paths, seq![picks[1], picks[0]] + picks.skip(2)),
        facts.simplify_chains(picked(paths, picks)) == facts.simplify_chains(
            picked(paths, seq![picks[1], picks[0]] + picks.skip(2)),
        ),
{
    let swapped = seq![picks[1], picks[0]] + picks.skip(2);
    let a = picks[0];
    let b = picks[1];
    assert(a != b);
    assert forall|k: int| 0 <= k < swapped.len() implies 0 <= #[trigger] swapped[k] < paths.len()
        && paths[swapped[k]].len() >= 1 by {
        if k >= 2 {
            assert(swapped[k] == picks[k]);
        }
    }
    assert forall|k: int, m: int|
        0 <= k < swapped.len() && 0 <= m < swapped.len() && k != m implies swapped[k]
        != swapped[m] by {
        let k0 = if k == 0 { 1 } else if k == 1 { 0 } else { k };
        let m0 = if m == 0 { 1 } else if m == 1 { 0 } else { m };
        assert(swapped[k] == picks[k0] && swapped[m] == picks[m0]);
    }
    lemma_first_pick(facts, paths, picks);
    lemma_first_pick(facts, paths, swapped);
    let without_a = paths.update(a, Seq::empty());
    let without_b = paths.update(b, Seq::empty());
    let after_a = facts.simplify_chain(paths[a]);
    let after_b = facts.simplify_chain(paths[b]);
    lemma_first_pick(after_a, without_a, picks.drop_first());
    lemma_first_pick(after_b, without_b, swapped.drop_first());
    assert(picks.drop_first()[0] == b);
    assert(swapped.drop_first()[0] == a);
    assert(without_a[b] == paths[b]);
    assert(without_b[a] == paths[a]);
    lemma_walks_commute(origin, chains, facts, paths, a, b);
    assert(picks.drop_first().drop_first() =~= swapped.drop_first().drop_first());
    assert(without_a.update(b, Seq::empty()) =~= without_b.update(a, Seq::empty()));
}

/// The walks along picked paths give the same when the pick at place `k`
/// is moved to the front.
pub proof fn lemma_pick_first<R, L, P>(
    origin: FactsView<R, L, P>,
    chains: Seq<Seq<P>>,
    facts: FactsView<R, L, P>,
    paths: Seq<Seq<P>>,
    picks: Seq<int>,
    k: int,
)
    requires
        walk::walk_inv(origin, chains, facts, paths),
        are_picks(paths, picks),
        0 <= k < picks.len(),
    ensures
        are_picks(paths, seq![picks[k]] + picks.remove(k)),
        facts.simplify_chains(picked(paths, picks)) == facts.simplify_chains(
            picked(paths, seq![picks[k]] + picks.remove(k)),
        ),
    decreases k,
{
    let moved = seq![picks[k]] + picks.remove(k);
    if k == 0 {
        assert(moved =~= picks);
    } else {
        let c = picks[0];
        let a = picks[k];
        let tail = picks.drop_first();
        let left = paths.update(c, Seq::empty());
        let next = facts.simplify_chain(paths[c]);
        lemma_first_pick(facts, paths, picks);
        walk::lemma_walk_keeps_inv(origin, chains, facts, paths, c);
        lemma_pick_first(origin, chains, next, left, tail, k - 1);
        let tail_moved = seq![tail[k - 1]] + tail.remove(k - 1);
        let between = seq![c] + tail_moved;
        assert(tail[k - 1] == a);
        assert(are_picks(paths, between)) by {
            assert forall|m: int| 0 <= m < between.len() implies 0 <= #[trigger] between[m]
                < paths.len() && paths[between[m]].len() >= 1 by {
                if m >= 1 {
                    assert(between[m] == tail_moved[m - 1]);
                    assert(left[tail_moved[m - 1]].len() >= 1);
                }
            }
            assert forall|m: int, n: int|
                0 <= m < between.len() && 0 <= n < between.len() && m != n implies between[m]
                != between[n] by {
                if m >= 1 && n >= 1 {
                    assert(tail_moved[m - 1] != tail_moved[n - 1]);
                } else if m >= 1 {
                    assert(between[m] == tail_moved[m - 1]);
                    assert(left[tail_moved[m - 1]].len() >= 1);
                } else {
                    assert(between[n] == tail_moved[n - 1]);
                    assert(left[tail_moved[n - 1]].len() >= 1);
                }
            }
        }
        lemma_first_pick(facts, paths, between);
        assert(between.drop_first() =~= tail_moved);
        lemma_swap_picks(origin, chains, facts, paths, between);
        assert(seq![between[1], between[0]] + between.skip(2) =~= moved);
    }
}

/// The walks along the same picked paths give the same in any order.
pub proof fn lemma_picks_in_any_order<R, L, P>(
    origin: FactsView<R, L, P>,
    chains: Seq<Seq<P>>,
    facts: FactsView<R, L, P>,
    paths: Seq<Seq<P>>,
    xs: Seq<int>,
    ys: Seq<int>,
)
    requires
        walk::walk_inv(origin, chains, facts, paths),
        are_picks(paths, xs),
        are_picks(paths, ys),
        xs.to_set() == ys.to_set(),
    ensures
        facts.simplify_chains(picked(paths, xs)) == facts.simplify_chains(picked(paths, ys)),
    decreases xs.len(),
{
    if xs.len() == 0 {
        if ys.len() > 0 {
            assert(ys.to_set().contains(ys[0]));
            assert(xs.to_set().contains(ys[0]));
        }
        assert(picked(paths, xs) =~= picked(paths, ys));
    } else {
        let a = xs[0];
        assert(xs.to_set().contains(a));
        assert(ys.to_set().contains(a));
        let k = choose|k: int| 0 <= k < ys.len() && ys[k] == a;
        lemma_pick_first(origin, chains, facts, paths, ys, k);
        let moved = seq![ys[k]] + ys.remove(k);
        lemma_first_pick(facts, paths, xs);
        lemma_first_pick(facts, paths, moved);
        walk::lemma_walk_keeps_inv(origin, chains, facts, paths, a);
        let xs_left = xs.drop_first();
        let ys_left = ys.remove(k);
        assert(moved.drop_first() =~= ys_left);
        assert(xs_left.to_set() =~= ys_left.to_set()) by {
            assert forall|v: int| xs_left.to_set().contains(v) implies ys_left.to_set().contains(
                v,
            ) by {
                let m = choose|m: int| 0 <= m < xs_left.len() && xs_left[m] == v;
                assert(xs[m + 1] == v);
                assert(xs[m + 1] != xs[0]);
                assert(xs.to_set().contains(v));
                assert(ys.to_set().contains(v));
                let n = choose|n: int| 0 <= n < ys.len() && ys[n] == v;
                if n < k {
                    assert(ys_left[n] == v);
                } else {
                    assert(ys_left[n - 1] == v);
                }
            }
            assert forall|v: int| ys_left.to_set().contains(v) implies xs_left.to_set().contains(
                v,
            ) by {
                let n = choose|n: int| 0 <= n < ys_left.len() && ys_left[n] == v;
                let n0 = if n < k { n } else { n + 1 };
                assert(ys[n0] == v);
                assert(ys[n0] != ys[k]);
                assert(ys.to_set().contains(v));
                assert(xs.to_set().contains(v));
                let m = choose|m: int| 0 <= m < xs.len() && xs[m] == v;
                assert(xs_left[m - 1] == v);
            }
        }
        lemma_picks_in_any_order(
            origin,
            chains,
            facts.simplify_chain(paths[a]),
            paths.update(a, Seq::empty()),
            xs_left,
            ys_left,
        );
    }
}

/// `order` holds the chains of `chains`, each once: the chain at place `k`
/// of `order` is the chain at place `picks[k]` of `chains`.
pub open spec fn is_rearranged<P>(chains: Seq<Seq<P>>, order: Seq<Seq<P>>, picks: Seq<int>) -> bool {
    &&& order.len() == chains.len()
    &&& picks.len() == chains.len()
    &&& picks.no_duplicates()
    &&& forall|k: int|
        0 <= k < picks.len() ==> 0 <= #[trigger] picks[k] < chains.len() && order[k]
            == chains[picks[k]]
}

/// The order in which the chains are walked is immaterial: walked in any
/// order, they give the simplified store.
pub proof fn lemma_order_is_immaterial<R, L, P: Atom>(
    facts: FactsView<R, L, P>,
    order: Seq<Seq<P>>,
    picks: Seq<int>,
)
    requires
        is_rearranged(graph::isolated_chains(facts.cfg_edge), order, picks),
    ensures
        facts.simplify_chains(order) == facts.simplify_cfg(),
{
    let chains = graph::isolated_chains(facts.cfg_edge);
    let n = chains.len() as int;
    walk::lemma_walk_starts(facts);
    let all = Seq::new(chains.len(), |k: int| k);
    assert(picked(chains, all) =~= chains);
    assert(picked(chains, picks) =~= order);
    picks.unique_seq_to_set();
    all.unique_seq_to_set();
    vstd::set_lib::lemma_int_range(0, n);
    let range = vstd::set_lib::set_int_range(0, n);
    assert(all.to_set() =~= range) by {
        assert forall|v: int| range.contains(v) implies all.to_set().contains(v) by {
            assert(all[v] == v);
        }
    }
    assert(picks.to_set().subset_of(range)) by {
        assert forall|v: int| picks.to_set().contains(v) implies range.contains(v) by {
            let k = choose|k: int| 0 <= k < picks.len() && picks[k] == v;
            assert(0 <= picks[k] < chains.len());
        }
    }
    vstd::set_lib::lemma_subset_equality(picks.to_set(), range);
    lemma_picks_in_any_order(facts, chains, facts, chains, picks, all);
}

} // verus!
