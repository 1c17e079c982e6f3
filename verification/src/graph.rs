//! Isolated edges and the chains that they form, as statements about a
//! sequence of edges.

use crate::atom::Atom;
use vstd::prelude::*;

verus! {

/// Edge `i` is the only edge that leaves its source.
pub open spec fn sole_out<P>(edges: Seq<(P, P)>, i: int) -> bool {
    forall|j: int| 0 <= j < edges.len() && (#[trigger] edges[j]).0 == edges[i].0 ==> j == i
}

/// Edge `i` is the only edge that enters its target.
pub open spec fn sole_in<P>(edges: Seq<(P, P)>, i: int) -> bool {
    forall|j: int| 0 <= j < edges.len() && (#[trigger] edges[j]).1 == edges[i].1 ==> j == i
}

/// Edge `i` is isolated: its source has exactly one edge out of it and its
/// target exactly one edge into it, counted over all the edges, repeated
/// ones included.
pub open spec fn is_isolated_at<P>(edges: Seq<(P, P)>, i: int) -> bool {
    0 <= i < edges.len() && sole_out(edges, i) && sole_in(edges, i)
}

/// There is an isolated edge from `p` to `q`.
pub open spec fn is_isolated_edge<P>(edges: Seq<(P, P)>, p: P, q: P) -> bool {
    exists|i: int| #[trigger] is_isolated_at(edges, i) && edges[i] == (p, q)
}

/// An isolated edge leaves `p`.
pub open spec fn has_isolated_successor<P>(edges: Seq<(P, P)>, p: P) -> bool {
    exists|i: int| #[trigger] is_isolated_at(edges, i) && edges[i].0 == p
}

/// An isolated edge enters `q`.
pub open spec fn has_isolated_predecessor<P>(edges: Seq<(P, P)>, q: P) -> bool {
    exists|i: int| #[trigger] is_isolated_at(edges, i) && edges[i].1 == q
}

/// Edge `i` is isolated and leaves the point whose index is `key`.
pub open spec fn leaves_isolated<P: Atom>(edges: Seq<(P, P)>, key: usize, i: int) -> bool {
    is_isolated_at(edges, i) && edges[i].0.index_spec() == key
}

/// The isolated edges as a map: from the index of each point that an
/// isolated edge leaves to the point that this edge enters.
pub open spec fn isolated_successors<P: Atom>(edges: Seq<(P, P)>) -> Map<usize, P> {
    Map::new(
        |key: usize| exists|i: int| leaves_isolated(edges, key, i),
        |key: usize| edges[choose|i: int| leaves_isolated(edges, key, i)].1,
    )
}

/// A chain starts at `p`: an isolated edge leaves it and none enters it.
pub open spec fn is_chain_head<P>(edges: Seq<(P, P)>, p: P) -> bool {
    has_isolated_successor(edges, p) && !has_isolated_predecessor(edges, p)
}

/// An isolated edge joins the points `k` and `k + 1` of `path`.
pub open spec fn is_link<P>(edges: Seq<(P, P)>, path: Seq<P>, k: int) -> bool {
    is_isolated_edge(edges, path[k], path[k + 1])
}

/// Each point of `path` is joined to the next by an isolated edge.
pub open spec fn is_isolated_path<P>(edges: Seq<(P, P)>, path: Seq<P>) -> bool {
    &&& path.len() >= 1
    &&& forall|k: int| 0 <= k < path.len() - 1 ==> #[trigger] is_link(edges, path, k)
}

/// `chain` is a maximal run of isolated edges: it starts at a chain head,
/// follows isolated edges, and no isolated edge leaves its last point.
pub open spec fn is_chain<P>(edges: Seq<(P, P)>, chain: Seq<P>) -> bool {
    &&& chain.len() >= 2
    &&& is_chain_head(edges, chain[0])
    &&& is_isolated_path(edges, chain)
    &&& !has_isolated_successor(edges, chain.last())
}

/// `chains` holds the chain of every chain head once, the heads in
/// ascending order of their indices.
pub open spec fn is_chain_cover<P: Atom>(edges: Seq<(P, P)>, chains: Seq<Seq<P>>) -> bool {
    &&& forall|a: int| 0 <= a < chains.len() ==> is_chain(edges, #[trigger] chains[a])
    &&& forall|a: int, b: int|
        0 <= a < b < chains.len() ==> (#[trigger] chains[a])[0].index_spec() < (
        #[trigger] chains[b])[0].index_spec()
    &&& forall|p: P|
        is_chain_head(edges, p) ==> exists|a: int|
            0 <= a < chains.len() && (#[trigger] chains[a])[0] == p
}

/// The chains of `edges`, by ascending index of their heads.
pub open spec fn isolated_chains<P: Atom>(edges: Seq<(P, P)>) -> Seq<Seq<P>> {
    choose|chains: Seq<Seq<P>>| is_chain_cover(edges, chains)
}

/// The point `p` occurs in an edge, as its source or as its target.
pub open spec fn is_touched<P>(edges: Seq<(P, P)>, p: P) -> bool {
    exists|i: int| 0 <= i < edges.len() && ((#[trigger] edges[i]).0 == p || edges[i].1 == p)
}

/// No point occurs at two places of `chains`, be it in one chain or in two.
pub open spec fn are_disjoint<P>(chains: Seq<Seq<P>>) -> bool {
    forall|a: int, s: int, b: int, t: int|
        0 <= a < chains.len() && 0 <= s < chains[a].len() && 0 <= b < chains.len() && 0 <= t
            < chains[b].len() && #[trigger] chains[a][s] == #[trigger] chains[b][t] ==> a == b
            && s == t
}

/// The map of isolated successors holds the index of an edge's source
/// exactly when that edge is isolated, and then sends it to the edge's target.
pub proof fn lemma_isolated_successor<P: Atom>(edges: Seq<(P, P)>, i: int)
    requires
        0 <= i < edges.len(),
    ensures
        isolated_successors(edges).contains_key(edges[i].0.index_spec()) <==> is_isolated_at(
            edges,
            i,
        ),
        is_isolated_at(edges, i) ==> isolated_successors(edges)[edges[i].0.index_spec()]
            == edges[i].1,
{
    let key = edges[i].0.index_spec();
    if is_isolated_at(edges, i) {
        assert(leaves_isolated(edges, key, i));
    }
    if isolated_successors(edges).contains_key(key) {
        let j = choose|j: int| leaves_isolated(edges, key, j);
        P::index_is_injective(edges[j].0, edges[i].0);
        assert(j == i);
    }
}

/// Every key of the map of isolated successors is the index of a point that
/// an isolated edge leaves, and the map sends it to where that edge goes.
pub proof fn lemma_successor_is_edge<P: Atom>(edges: Seq<(P, P)>, p: P)
    requires
        isolated_successors(edges).contains_key(p.index_spec()),
    ensures
        is_isolated_edge(edges, p, isolated_successors(edges)[p.index_spec()]),
        has_isolated_successor(edges, p),
{
    let key = p.index_spec();
    let j = choose|j: int| leaves_isolated(edges, key, j);
    P::index_is_injective(edges[j].0, p);
    assert(is_isolated_at(edges, j) && edges[j] == (p, edges[j].1));
}

/// A point that an isolated edge leaves is a key of the map of isolated
/// successors.
pub proof fn lemma_successor_has_key<P: Atom>(edges: Seq<(P, P)>, p: P)
    requires
        has_isolated_successor(edges, p),
    ensures
        isolated_successors(edges).contains_key(p.index_spec()),
{
    let j = choose|j: int| #[trigger] is_isolated_at(edges, j) && edges[j].0 == p;
    assert(leaves_isolated(edges, p.index_spec(), j));
}

/// Two paths of isolated edges that start at the same point agree as far as
/// both reach.
pub proof fn lemma_paths_agree<P>(edges: Seq<(P, P)>, x: Seq<P>, y: Seq<P>, t: int)
    requires
        is_isolated_path(edges, x),
        is_isolated_path(edges, y),
        x[0] == y[0],
        0 <= t < x.len(),
        t < y.len(),
    ensures
        x[t] == y[t],
    decreases t,
{
    if t > 0 {
        lemma_paths_agree(edges, x, y, t - 1);
        assert(is_link(edges, x, t - 1));
        assert(is_link(edges, y, t - 1));
        let i = choose|i: int| #[trigger] is_isolated_at(edges, i) && edges[i] == (x[t - 1], x[t]);
        let j = choose|j: int| #[trigger] is_isolated_at(edges, j) && edges[j] == (y[t - 1], y[t]);
        assert(edges[j].0 == edges[i].0);
        assert(j == i);
    }
}

/// A point lies on only one path of isolated edges that starts where no
/// isolated edge enters, and at only one place of it.
pub proof fn lemma_paths_disjoint<P>(edges: Seq<(P, P)>, x: Seq<P>, s: int, y: Seq<P>, t: int)
    requires
        is_isolated_path(edges, x),
        is_isolated_path(edges, y),
        !has_isolated_predecessor(edges, x[0]),
        !has_isolated_predecessor(edges, y[0]),
        0 <= s < x.len(),
        0 <= t < y.len(),
        x[s] == y[t],
    ensures
        s == t,
        x[0] == y[0],
    decreases s,
{
    if s == 0 {
        if t > 0 {
            assert(is_link(edges, y, t - 1));
            let j = choose|j: int| #[trigger]
                is_isolated_at(edges, j) && edges[j] == (y[t - 1], y[t]);
            assert(is_isolated_at(edges, j) && edges[j].1 == x[0]);
        }
    } else if t == 0 {
        assert(is_link(edges, x, s - 1));
        let i = choose|i: int| #[trigger] is_isolated_at(edges, i) && edges[i] == (x[s - 1], x[s]);
        assert(is_isolated_at(edges, i) && edges[i].1 == y[0]);
    } else {
        assert(is_link(edges, x, s - 1));
        assert(is_link(edges, y, t - 1));
        let i = choose|i: int| #[trigger] is_isolated_at(edges, i) && edges[i] == (x[s - 1], x[s]);
        let j = choose|j: int| #[trigger] is_isolated_at(edges, j) && edges[j] == (y[t - 1], y[t]);
        assert(edges[j].1 == edges[i].1);
        assert(j == i);
        lemma_paths_disjoint(edges, x, s - 1, y, t - 1);
    }
}

/// Two chains with the same head are the same chain.
pub proof fn lemma_chain_unique<P>(edges: Seq<(P, P)>, x: Seq<P>, y: Seq<P>)
    requires
        is_chain(edges, x),
        is_chain(edges, y),
        x[0] == y[0],
    ensures
        x == y,
{
    if x.len() < y.len() {
        lemma_paths_agree(edges, x, y, x.len() - 1);
        assert(is_link(edges, y, x.len() - 1));
        let j = choose|j: int| #[trigger]
            is_isolated_at(edges, j) && edges[j] == (y[x.len() - 1], y[x.len() as int]);
        assert(is_isolated_at(edges, j) && edges[j].0 == x.last());
    } else if y.len() < x.len() {
        lemma_paths_agree(edges, x, y, y.len() - 1);
        assert(is_link(edges, x, y.len() - 1));
        let i = choose|i: int| #[trigger]
            is_isolated_at(edges, i) && edges[i] == (x[y.len() - 1], x[y.len() as int]);
        assert(is_isolated_at(edges, i) && edges[i].0 == y.last());
    } else {
        assert forall|t: int| 0 <= t < x.len() implies x[t] == y[t] by {
            lemma_paths_agree(edges, x, y, t);
        }
        assert(x =~= y);
    }
}

/// Two covers hold the same heads at the same places, as far as both reach.
proof fn lemma_covers_agree<P: Atom>(edges: Seq<(P, P)>, x: Seq<Seq<P>>, y: Seq<Seq<P>>, a: int)
    requires
        is_chain_cover(edges, x),
        is_chain_cover(edges, y),
        0 <= a < x.len(),
        a < y.len(),
    ensures
        x[a][0] == y[a][0],
    decreases a,
{
    assert forall|c: int| 0 <= c < a implies (#[trigger] x[c])[0] == y[c][0] by {
        lemma_covers_agree(edges, x, y, c);
    }
    assert(is_chain(edges, x[a]));
    assert(is_chain(edges, y[a]));
    let b = choose|b: int| 0 <= b < y.len() && (#[trigger] y[b])[0] == x[a][0];
    if b < a {
        assert(x[b][0] == y[b][0]);
        assert(x[b][0].index_spec() < x[a][0].index_spec());
    }
    let c = choose|c: int| 0 <= c < x.len() && (#[trigger] x[c])[0] == y[a][0];
    if c < a {
        assert(x[c][0] == y[c][0]);
        assert(y[c][0].index_spec() < y[a][0].index_spec());
    }
    if b > a {
        assert(y[a][0].index_spec() < y[b][0].index_spec());
    }
    if c > a {
        assert(x[a][0].index_spec() < x[c][0].index_spec());
    }
    P::index_is_injective(x[a][0], y[a][0]);
}

/// The edges have one cover only.
pub proof fn lemma_cover_unique<P: Atom>(edges: Seq<(P, P)>, x: Seq<Seq<P>>, y: Seq<Seq<P>>)
    requires
        is_chain_cover(edges, x),
        is_chain_cover(edges, y),
    ensures
        x == y,
{
    if x.len() < y.len() {
        let n = x.len() as int;
        assert(is_chain(edges, y[n]));
        let c = choose|c: int| 0 <= c < x.len() && (#[trigger] x[c])[0] == y[n][0];
        lemma_covers_agree(edges, x, y, c);
        assert(y[c][0].index_spec() < y[n][0].index_spec());
    } else if y.len() < x.len() {
        let n = y.len() as int;
        assert(is_chain(edges, x[n]));
        let c = choose|c: int| 0 <= c < y.len() && (#[trigger] y[c])[0] == x[n][0];
        lemma_covers_agree(edges, x, y, c);
        assert(x[c][0].index_spec() < x[n][0].index_spec());
    } else {
        assert forall|a: int| 0 <= a < x.len() implies x[a] == y[a] by {
            lemma_covers_agree(edges, x, y, a);
            lemma_chain_unique(edges, x[a], y[a]);
        }
        assert(x =~= y);
    }
}

/// The chains of a cover share no point, and every point of a chain occurs
/// in an edge.
pub proof fn lemma_cover_is_disjoint<P: Atom>(edges: Seq<(P, P)>, chains: Seq<Seq<P>>)
    requires
        is_chain_cover(edges, chains),
    ensures
        are_disjoint(chains),
        forall|a: int, s: int|
            0 <= a < chains.len() && 0 <= s < chains[a].len() ==> is_touched(
                edges,
                #[trigger] chains[a][s],
            ),
{
    assert forall|a: int, s: int, b: int, t: int|
        0 <= a < chains.len() && 0 <= s < chains[a].len() && 0 <= b < chains.len() && 0 <= t
            < chains[b].len() && #[trigger] chains[a][s] == #[trigger] chains[b][t] implies a == b
        && s == t by {
        assert(is_chain(edges, chains[a]));
        assert(is_chain(edges, chains[b]));
        lemma_paths_disjoint(edges, chains[a], s, chains[b], t);
        if a < b {
            assert(chains[a][0].index_spec() < chains[b][0].index_spec());
        }
        if b < a {
            assert(chains[b][0].index_spec() < chains[a][0].index_spec());
        }
    }
    assert forall|a: int, s: int| 0 <= a < chains.len() && 0 <= s < chains[a].len() implies is_touched(
        edges,
        #[trigger] chains[a][s],
    ) by {
        let c = chains[a];
        assert(is_chain(edges, c));
        if s < c.len() - 1 {
            assert(is_link(edges, c, s));
            let i = choose|i: int| #[trigger] is_isolated_at(edges, i) && edges[i] == (c[s], c[s + 1]);
            assert(edges[i].0 == c[s]);
        } else {
            assert(is_link(edges, c, s - 1));
            let i = choose|i: int| #[trigger] is_isolated_at(edges, i) && edges[i] == (c[s - 1], c[s]);
            assert(edges[i].1 == c[s]);
        }
    }
}

/// A path of isolated edges that starts where no isolated edge enters has
/// no more steps than there are edges.
pub proof fn lemma_path_is_short<P>(edges: Seq<(P, P)>, path: Seq<P>)
    requires
        is_isolated_path(edges, path),
        !has_isolated_predecessor(edges, path[0]),
    ensures
        path.len() <= edges.len() + 1,
{
    let steps = Seq::new(
        (path.len() - 1) as nat,
        |k: int| choose|m: int| #[trigger] is_isolated_at(edges, m) && edges[m] == (path[k], path[k + 1]),
    );
    assert forall|k: int| 0 <= k < steps.len() implies is_isolated_at(edges, #[trigger] steps[k])
        && edges[steps[k]] == (path[k], path[k + 1]) by {
        assert(is_link(edges, path, k));
    }
    assert forall|j: int, k: int| 0 <= j < steps.len() && 0 <= k < steps.len() && j != k implies steps[j]
        != steps[k] by {
        if steps[j] == steps[k] {
            assert(is_isolated_at(edges, steps[j]));
            assert(is_isolated_at(edges, steps[k]));
            lemma_paths_disjoint(edges, path, j + 1, path, k + 1);
        }
    }
    steps.unique_seq_to_set();
    vstd::set_lib::lemma_int_range(0, edges.len() as int);
    assert forall|m: int| steps.to_set().contains(m) implies vstd::set_lib::set_int_range(
        0,
        edges.len() as int,
    ).contains(m) by {
        let k = choose|k: int| 0 <= k < steps.len() && steps[k] == m;
        assert(is_isolated_at(edges, steps[k]));
    }
    vstd::set_lib::lemma_len_subset(
        steps.to_set(),
        vstd::set_lib::set_int_range(0, edges.len() as int),
    );
}

/// From a point that no isolated edge enters, a path of isolated edges
/// leads on for `n` steps, or ends earlier where no isolated edge leaves.
proof fn lemma_run_exists<P>(edges: Seq<(P, P)>, head: P, n: nat) -> (path: Seq<P>)
    ensures
        is_isolated_path(edges, path),
        path[0] == head,
        path.len() == n + 1 || !has_isolated_successor(edges, path.last()),
        path.len() <= n + 1,
    decreases n,
{
    if n == 0 {
        seq![head]
    } else {
        let so_far = lemma_run_exists(edges, head, (n - 1) as nat);
        if has_isolated_successor(edges, so_far.last()) {
            let m = choose|m: int| #[trigger] is_isolated_at(edges, m) && edges[m].0 == so_far.last();
            let path = so_far.push(edges[m].1);
            assert forall|k: int| 0 <= k < path.len() - 1 implies #[trigger] is_link(
                edges,
                path,
                k,
            ) by {
                if k < so_far.len() - 1 {
                    assert(is_link(edges, so_far, k));
                } else {
                    assert(is_isolated_at(edges, m) && edges[m] == (path[k], path[k + 1]));
                }
            }
            path
        } else {
            so_far
        }
    }
}

/// Every chain head has its chain.
pub proof fn lemma_chain_exists<P>(edges: Seq<(P, P)>, head: P) -> (chain: Seq<P>)
    requires
        is_chain_head(edges, head),
    ensures
        is_chain(edges, chain),
        chain[0] == head,
{
    let chain = lemma_run_exists(edges, head, edges.len() + 1);
    lemma_path_is_short(edges, chain);
    chain
}

/// The chain heads whose index is below `bound`, in ascending order.
proof fn lemma_heads_exist<P: Atom>(edges: Seq<(P, P)>, bound: nat) -> (heads: Seq<P>)
    ensures
        forall|a: int, b: int|
            0 <= a < b < heads.len() ==> (#[trigger] heads[a]).index_spec() < (
            #[trigger] heads[b]).index_spec(),
        forall|p: P| heads.contains(p) <==> is_chain_head(edges, p) && p.index_spec() < bound,
    decreases bound,
{
    if bound == 0 {
        Seq::empty()
    } else {
        let below = lemma_heads_exist(edges, (bound - 1) as nat);
        if exists|p: P| is_chain_head(edges, p) && p.index_spec() == bound - 1 {
            let head = choose|p: P| is_chain_head(edges, p) && p.index_spec() == bound - 1;
            let heads = below.push(head);
            assert forall|a: int, b: int| 0 <= a < b < heads.len() implies (
            #[trigger] heads[a]).index_spec() < (#[trigger] heads[b]).index_spec() by {
                assert(below.contains(heads[a]));
            }
            assert forall|p: P| heads.contains(p) <==> is_chain_head(edges, p) && p.index_spec()
                < bound by {
                if heads.contains(p) {
                    let a = choose|a: int| 0 <= a < heads.len() && heads[a] == p;
                    if a < below.len() {
                        assert(below.contains(p));
                    }
                }
                if is_chain_head(edges, p) && p.index_spec() < bound {
                    if p.index_spec() == bound - 1 {
                        P::index_is_injective(p, head);
                        assert(heads[below.len() as int] == p);
                    } else {
                        assert(below.contains(p));
                        let a = choose|a: int| 0 <= a < below.len() && below[a] == p;
                        assert(heads[a] == p);
                    }
                }
            }
            heads
        } else {
            below
        }
    }
}

/// Every sequence of edges has its cover: the chains, by ascending index of
/// their heads.
pub proof fn lemma_cover_exists<P: Atom>(edges: Seq<(P, P)>)
    ensures
        is_chain_cover(edges, isolated_chains(edges)),
{
    let heads = lemma_heads_exist(edges, usize::MAX as nat + 1);
    let chains = Seq::new(
        heads.len(),
        |a: int| choose|chain: Seq<P>| is_chain(edges, chain) && chain[0] == heads[a],
    );
    assert forall|a: int| 0 <= a < chains.len() implies is_chain(edges, #[trigger] chains[a])
        && chains[a][0] == heads[a] by {
        assert(heads.contains(heads[a]));
        let chain = lemma_chain_exists(edges, heads[a]);
    }
    assert forall|p: P| is_chain_head(edges, p) implies exists|a: int|
        0 <= a < chains.len() && (#[trigger] chains[a])[0] == p by {
        assert(heads.contains(p));
        let a = choose|a: int| 0 <= a < heads.len() && heads[a] == p;
        assert(chains[a][0] == p);
    }
    assert(is_chain_cover(edges, chains));
}

} // verus!
