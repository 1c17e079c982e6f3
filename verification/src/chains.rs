//! Detection of the isolated edges of the control-flow graph and of the
//! chains that they form.

use crate::atom::Atom;
use crate::facts::AllFacts;
use crate::graph;
use std::collections::{HashMap, HashSet};
use vstd::prelude::*;

verus! {

broadcast use vstd::std_specs::hash::group_hash_axioms;

/// The index of the source of each edge.
pub open spec fn source_keys<P: Atom>(edges: Seq<(P, P)>) -> Seq<usize> {
    Seq::new(edges.len(), |j: int| edges[j].0.index_spec())
}

/// The index of the target of each edge.
pub open spec fn target_keys<P: Atom>(edges: Seq<(P, P)>) -> Seq<usize> {
    Seq::new(edges.len(), |j: int| edges[j].1.index_spec())
}

/// The source of each edge.
pub open spec fn sources<P>(edges: Seq<(P, P)>) -> Seq<P> {
    Seq::new(edges.len(), |j: int| edges[j].0)
}

/// The target of each edge.
pub open spec fn targets<P>(edges: Seq<(P, P)>) -> Seq<P> {
    Seq::new(edges.len(), |j: int| edges[j].1)
}

/// Among the first `n` keys, only place `j` holds its key.
pub open spec fn sole_key(keys: Seq<usize>, n: int, j: int) -> bool {
    forall|other: int| 0 <= other < n && #[trigger] keys[other] == keys[j] ==> other == j
}

/// `slots` records the first `n` keys: each has a slot, which holds the
/// neighbour that came with the key while the key has been seen once, and
/// nothing once it has been seen again.
pub open spec fn slots_track<P>(
    slots: Map<usize, Option<P>>,
    keys: Seq<usize>,
    neighbours: Seq<P>,
    n: int,
) -> bool {
    &&& forall|j: int| 0 <= j < n ==> slots.contains_key(#[trigger] keys[j])
    &&& forall|j: int| 0 <= j < n ==> (slots[#[trigger] keys[j]] is Some <==> sole_key(keys, n, j))
    &&& forall|j: int|
        0 <= j < n && slots[#[trigger] keys[j]] is Some ==> slots[keys[j]] == Some(neighbours[j])
    &&& forall|key: usize|
        slots.contains_key(key) ==> exists|j: int| 0 <= j < n && #[trigger] keys[j] == key
}

/// The slot of `key` after `key` has been seen with `neighbour`.
pub open spec fn noted<P>(slots: Map<usize, Option<P>>, key: usize, neighbour: P) -> Map<
    usize,
    Option<P>,
> {
    slots.insert(
        key,
        if slots.contains_key(key) {
            None
        } else {
            Some(neighbour)
        },
    )
}

proof fn lemma_slots_step<P>(
    slots: Map<usize, Option<P>>,
    keys: Seq<usize>,
    neighbours: Seq<P>,
    n: int,
)
    requires
        slots_track(slots, keys, neighbours, n),
        0 <= n < keys.len(),
    ensures
        slots_track(noted(slots, keys[n], neighbours[n]), keys, neighbours, n + 1),
{
    let after = noted(slots, keys[n], neighbours[n]);
    assert forall|j: int| 0 <= j < n + 1 implies (after[#[trigger] keys[j]] is Some <==> sole_key(
        keys,
        n + 1,
        j,
    )) by {
        if j < n {
            if keys[j] == keys[n] {
                assert(!sole_key(keys, n + 1, j));
            } else if sole_key(keys, n, j) {
                assert(sole_key(keys, n + 1, j));
            } else {
                assert(!sole_key(keys, n + 1, j));
            }
        } else if slots.contains_key(keys[n]) {
            let first = choose|first: int| 0 <= first < n && #[trigger] keys[first] == keys[n];
            assert(!sole_key(keys, n + 1, n));
        } else {
            assert(sole_key(keys, n + 1, n));
        }
    }
    assert forall|key: usize| after.contains_key(key) implies exists|j: int|
        0 <= j < n + 1 && #[trigger] keys[j] == key by {
        if key == keys[n] {
            assert(keys[n] == key);
        } else {
            let j = choose|j: int| 0 <= j < n && #[trigger] keys[j] == key;
            assert(0 <= j < n + 1 && keys[j] == key);
        }
    }
}

/// An edge is the only one out of its source exactly when the index of its
/// source occurs once among the indices of the sources.
proof fn lemma_sole_source<P: Atom>(edges: Seq<(P, P)>, i: int)
    requires
        0 <= i < edges.len(),
    ensures
        sole_key(source_keys(edges), edges.len() as int, i) <==> graph::sole_out(edges, i),
{
    let keys = source_keys(edges);
    if sole_key(keys, edges.len() as int, i) {
        assert forall|j: int| 0 <= j < edges.len() && (#[trigger] edges[j]).0
            == edges[i].0 implies j == i by {
            assert(keys[j] == keys[i]);
        }
    }
    if graph::sole_out(edges, i) {
        assert forall|j: int| 0 <= j < edges.len() && #[trigger] keys[j] == keys[i] implies j
            == i by {
            P::index_is_injective(edges[j].0, edges[i].0);
        }
    }
}

/// An edge is the only one into its target exactly when the index of its
/// target occurs once among the indices of the targets.
proof fn lemma_sole_target<P: Atom>(edges: Seq<(P, P)>, i: int)
    requires
        0 <= i < edges.len(),
    ensures
        sole_key(target_keys(edges), edges.len() as int, i) <==> graph::sole_in(edges, i),
{
    let keys = target_keys(edges);
    if sole_key(keys, edges.len() as int, i) {
        assert forall|j: int| 0 <= j < edges.len() && (#[trigger] edges[j]).1
            == edges[i].1 implies j == i by {
            assert(keys[j] == keys[i]);
        }
    }
    if graph::sole_in(edges, i) {
        assert forall|j: int| 0 <= j < edges.len() && #[trigger] keys[j] == keys[i] implies j
            == i by {
            P::index_is_injective(edges[j].1, edges[i].1);
        }
    }
}

/// Records that `key` has been seen with `neighbour`: the slot of a key seen
/// for the first time holds its neighbour, that of a key seen before nothing.
fn note_neighbour<P: Atom>(slots: &mut HashMap<usize, Option<P>>, key: usize, neighbour: P)
    ensures
        final(slots)@ == noted(old(slots)@, key, neighbour),
{
    if slots.contains_key(&key) {
        slots.insert(key, None);
    } else {
        slots.insert(key, Some(neighbour));
    }
}

/// Whether `slots` holds a neighbour for `key`.
fn has_unique_neighbour<P: Atom>(slots: &HashMap<usize, Option<P>>, key: usize) -> (unique: bool)
    ensures
        unique == (slots@.contains_key(key) && slots@[key] is Some),
{
    match slots.get(&key) {
        Some(slot) => slot.is_some(),
        None => false,
    }
}

/// The points stand in ascending order of their indices, none twice.
pub open spec fn ascending<P: Atom>(points: Seq<P>) -> bool {
    forall|a: int, b: int|
        0 <= a < b < points.len() ==> (#[trigger] points[a]).index_spec() < (
        #[trigger] points[b]).index_spec()
}

/// Puts `point` at its place in the ascending `points`, unless it is there.
fn insert_ascending<P: Atom>(points: &mut Vec<P>, point: P)
    requires
        ascending(old(points)@),
    ensures
        ascending(final(points)@),
        forall|p: P| final(points)@.contains(p) <==> old(points)@.contains(p) || p == point,
{
    let key: usize = point.index();
    let mut at: usize = 0;
    while at < points.len() && points[at].index() < key
        invariant
            0 <= at <= points.len(),
            *points == *old(points),
            forall|a: int| 0 <= a < at ==> (#[trigger] points@[a]).index_spec() < key,
        decreases points.len() - at,
    {
        at += 1;
    }
    if at < points.len() && points[at].index() == key {
        proof {
            P::index_is_injective(points@[at as int], point);
        }
        return ;
    }
    points.insert(at, point);
    proof {
        let before = old(points)@;
        let after = points@;
        assert forall|p: P| after.contains(p) <==> before.contains(p) || p == point by {
            if after.contains(p) {
                let a = choose|a: int| 0 <= a < after.len() && after[a] == p;
                if a < at {
                    assert(before[a] == p);
                } else if a > at {
                    assert(before[a - 1] == p);
                }
            }
            if before.contains(p) {
                let a = choose|a: int| 0 <= a < before.len() && before[a] == p;
                if a < at {
                    assert(after[a] == p);
                } else {
                    assert(after[a + 1] == p);
                }
            }
            if p == point {
                assert(after[at as int] == p);
            }
        }
        assert forall|a: int, b: int| 0 <= a < b < after.len() implies (
        #[trigger] after[a]).index_spec() < (#[trigger] after[b]).index_spec() by {
            if b < at {
                assert(after[a] == before[a] && after[b] == before[b]);
            } else if b == at {
                assert(after[a] == before[a]);
            } else if a < at {
                assert(after[a] == before[a] && after[b] == before[b - 1]);
                if at < b - 1 {
                    assert(before[at as int].index_spec() < before[b - 1].index_spec());
                }
            } else if a == at {
                assert(after[b] == before[b - 1]);
                if at < b - 1 {
                    assert(before[at as int].index_spec() < before[b - 1].index_spec());
                }
            } else {
                assert(after[a] == before[a - 1] && after[b] == before[b - 1]);
            }
        }
    }
}

/// Edge `j` is isolated and enters the point whose index is `key`.
pub open spec fn enters_isolated<P: Atom>(edges: Seq<(P, P)>, key: usize, j: int) -> bool {
    graph::is_isolated_at(edges, j) && edges[j].1.index_spec() == key
}

/// Edge `j` is isolated and leaves the chain head `p`.
pub open spec fn leaves_head<P>(edges: Seq<(P, P)>, p: P, j: int) -> bool {
    graph::is_isolated_at(edges, j) && edges[j].0 == p && !graph::has_isolated_predecessor(edges, p)
}

/// The sequences that the vectors of `chains` hold.
pub open spec fn chains_view<P>(chains: Seq<Vec<P>>) -> Seq<Seq<P>> {
    Seq::new(chains.len(), |a: int| chains[a]@)
}

/// An edge along one of `paths` leaves the point whose index is `key`.
pub open spec fn is_consumed<P: Atom>(paths: Seq<Seq<P>>, key: usize) -> bool {
    exists|b: int, t: int|
        0 <= b < paths.len() && 0 <= t < paths[b].len() - 1 && (#[trigger] paths[b][t]).index_spec()
            == key
}

/// `left` is what remains of the isolated successors of `edges` once the
/// edges along `paths` have been taken out.
pub open spec fn is_remainder<P: Atom>(
    edges: Seq<(P, P)>,
    left: Map<usize, P>,
    paths: Seq<Seq<P>>,
) -> bool {
    &&& forall|key: usize| #[trigger]
        left.contains_key(key) ==> graph::isolated_successors(edges).contains_key(key) && left[key]
            == graph::isolated_successors(edges)[key]
    &&& forall|key: usize|
        graph::isolated_successors(edges).contains_key(key) && !(#[trigger] left.contains_key(key))
            ==> is_consumed(paths, key)
}

/// Each of `paths` follows isolated edges from the chain head of its place
/// in `heads`.
pub open spec fn are_paths_from<P>(edges: Seq<(P, P)>, heads: Seq<P>, paths: Seq<Seq<P>>) -> bool {
    &&& paths.len() <= heads.len()
    &&& forall|b: int|
        0 <= b < paths.len() ==> graph::is_isolated_path(edges, #[trigger] paths[b]) && paths[b][0]
            == heads[b]
    &&& forall|b: int| 0 <= b < heads.len() ==> graph::is_chain_head(edges, #[trigger] heads[b])
}

/// No edge along `paths` leaves the last point of the last path.
proof fn lemma_last_not_consumed<P: Atom>(edges: Seq<(P, P)>, heads: Seq<P>, paths: Seq<Seq<P>>)
    requires
        ascending(heads),
        are_paths_from(edges, heads, paths),
        paths.len() >= 1,
    ensures
        !is_consumed(paths, paths.last().last().index_spec()),
{
    let last = paths.last();
    let n = paths.len() - 1;
    if is_consumed(paths, last.last().index_spec()) {
        let (b, t) = choose|b: int, t: int|
            0 <= b < paths.len() && 0 <= t < paths[b].len() - 1 && (
            #[trigger] paths[b][t]).index_spec() == last.last().index_spec();
        P::index_is_injective(paths[b][t], last.last());
        assert(graph::is_isolated_path(edges, paths[b]));
        assert(graph::is_isolated_path(edges, paths[n]));
        assert(graph::is_chain_head(edges, heads[b]));
        assert(graph::is_chain_head(edges, heads[n]));
        graph::lemma_paths_disjoint(edges, paths[b], t, last, last.len() - 1);
        if b < n {
            assert(heads[b].index_spec() < heads[n].index_spec());
        }
    }
}

impl<R: Atom, L: Atom, P: Atom> AllFacts<R, L, P> {
    /// The chain heads in ascending order of their indices: the points that
    /// an isolated edge leaves and none enters.
    fn chain_heads(&self, isolated: &HashMap<usize, P>) -> (heads: Vec<P>)
        requires
            isolated@ == graph::isolated_successors(self.cfg_edge@),
        ensures
            ascending(heads@),
            forall|p: P| heads@.contains(p) <==> graph::is_chain_head(self.cfg_edge@, p),
    {
        let ghost edges = self.cfg_edge@;
        let mut entered: HashSet<usize> = HashSet::new();
        let mut i: usize = 0;
        while i < self.cfg_edge.len()
            invariant
                0 <= i <= self.cfg_edge.len(),
                edges == self.cfg_edge@,
                isolated@ == graph::isolated_successors(edges),
                forall|key: usize|
                    entered@.contains(key) <==> exists|j: int|
                        0 <= j < i && enters_isolated(edges, key, j),
            decreases self.cfg_edge.len() - i,
        {
            let p: P = self.cfg_edge[i].0;
            let q: P = self.cfg_edge[i].1;
            proof {
                graph::lemma_isolated_successor(edges, i as int);
            }
            let ghost before = entered@;
            if isolated.contains_key(&p.index()) {
                entered.insert(q.index());
            }
            proof {
                assert forall|key: usize| entered@.contains(key) <==> exists|j: int|
                    0 <= j < i + 1 && enters_isolated(edges, key, j) by {
                    if entered@.contains(key) {
                        if before.contains(key) {
                            let j = choose|j: int| 0 <= j < i && enters_isolated(edges, key, j);
                            assert(0 <= j < i + 1 && enters_isolated(edges, key, j));
                        } else {
                            assert(enters_isolated(edges, key, i as int));
                        }
                    }
                    if exists|j: int| 0 <= j < i + 1 && enters_isolated(edges, key, j) {
                        let j = choose|j: int| 0 <= j < i + 1 && enters_isolated(edges, key, j);
                        if j < i {
                            assert(before.contains(key));
                        }
                    }
                }
            }
            i += 1;
        }
        let mut heads: Vec<P> = Vec::new();
        let mut i: usize = 0;
        while i < self.cfg_edge.len()
            invariant
                0 <= i <= self.cfg_edge.len(),
                edges == self.cfg_edge@,
                isolated@ == graph::isolated_successors(edges),
                forall|key: usize|
                    entered@.contains(key) <==> exists|j: int|
                        0 <= j < edges.len() && enters_isolated(edges, key, j),
                ascending(heads@),
                forall|p: P|
                    heads@.contains(p) <==> exists|j: int| 0 <= j < i && leaves_head(edges, p, j),
            decreases self.cfg_edge.len() - i,
        {
            let p: P = self.cfg_edge[i].0;
            let ghost before = heads@;
            proof {
                graph::lemma_isolated_successor(edges, i as int);
                if graph::has_isolated_predecessor(edges, p) {
                    let j = choose|j: int| #[trigger]
                        graph::is_isolated_at(edges, j) && edges[j].1 == p;
                    assert(enters_isolated(edges, p.index_spec(), j));
                }
                if entered@.contains(p.index_spec()) {
                    let j = choose|j: int|
                        0 <= j < edges.len() && enters_isolated(edges, p.index_spec(), j);
                    P::index_is_injective(edges[j].1, p);
                    assert(graph::is_isolated_at(edges, j) && edges[j].1 == p);
                }
            }
            if isolated.contains_key(&p.index()) && !entered.contains(&p.index()) {
                insert_ascending(&mut heads, p);
                proof {
                    assert(leaves_head(edges, p, i as int));
                }
            }
            proof {
                assert forall|x: P| heads@.contains(x) <==> exists|j: int|
                    0 <= j < i + 1 && leaves_head(edges, x, j) by {
                    if heads@.contains(x) {
                        if before.contains(x) {
                            let j = choose|j: int| 0 <= j < i && leaves_head(edges, x, j);
                            assert(0 <= j < i + 1 && leaves_head(edges, x, j));
                        } else {
                            assert(leaves_head(edges, x, i as int));
                        }
                    }
                    if exists|j: int| 0 <= j < i + 1 && leaves_head(edges, x, j) {
                        let j = choose|j: int| 0 <= j < i + 1 && leaves_head(edges, x, j);
                        if j < i {
                            assert(before.contains(x));
                        }
                    }
                }
            }
            i += 1;
        }
        proof {
            assert forall|p: P| heads@.contains(p) <==> graph::is_chain_head(edges, p) by {
                if heads@.contains(p) {
                    let j = choose|j: int| 0 <= j < i && leaves_head(edges, p, j);
                    assert(graph::is_isolated_at(edges, j) && edges[j].0 == p);
                }
                if graph::is_chain_head(edges, p) {
                    let j = choose|j: int| #[trigger]
                        graph::is_isolated_at(edges, j) && edges[j].0 == p;
                    assert(leaves_head(edges, p, j));
                }
            }
        }
        heads
    }

    /// The chains of the graph: from each chain head, by ascending index, the
    /// points reached by following isolated edges for as long as there is one,
    /// each edge being taken out of the map as it is followed.
    pub fn isolated_chains(&self) -> (chains: Vec<Vec<P>>)
        ensures
            chains_view(chains@) == graph::isolated_chains(self.cfg_edge@),
            graph::is_chain_cover(self.cfg_edge@, chains_view(chains@)),
            graph::are_disjoint(chains_view(chains@)),
            forall|a: int, s: int|
                0 <= a < chains@.len() && 0 <= s < chains@[a]@.len() ==> graph::is_touched(
                    self.cfg_edge@,
                    #[trigger] chains@[a]@[s],
                ),
    {
        let ghost edges = self.cfg_edge@;
        let mut isolated_edges = self.isolated_edges();
        let heads = self.chain_heads(&isolated_edges);
        let mut chains: Vec<Vec<P>> = Vec::new();
        let mut h: usize = 0;
        proof {
            assert forall|b: int| 0 <= b < heads@.len() implies graph::is_chain_head(
                edges,
                #[trigger] heads@[b],
            ) by {
                assert(heads@.contains(heads@[b]));
            }
        }
        while h < heads.len()
            invariant
                0 <= h <= heads.len(),
                chains@.len() == h,
                ascending(heads@),
                forall|p: P| heads@.contains(p) <==> graph::is_chain_head(edges, p),
                are_paths_from(edges, heads@, chains_view(chains@)),
                is_remainder(edges, isolated_edges@, chains_view(chains@)),
                forall|a: int| 0 <= a < h ==> graph::is_chain(edges, #[trigger] chains@[a]@),
            decreases heads.len() - h,
        {
            let head: P = heads[h];
            let mut current: P = head;
            let mut chain: Vec<P> = Vec::with_capacity(2);
            chain.push(current);
            let ghost done = chains_view(chains@);
            proof {
                assert(heads@.contains(head));
                assert forall|b: int| 0 <= b < heads@.len() implies graph::is_chain_head(
                    edges,
                    #[trigger] heads@[b],
                ) by {
                    assert(heads@.contains(heads@[b]));
                }
                let paths = done.push(chain@);
                assert forall|key: usize| is_consumed(done, key) implies is_consumed(
                    paths,
                    key,
                ) by {
                    let (b, t) = choose|b: int, t: int|
                        0 <= b < done.len() && 0 <= t < done[b].len() - 1 && (
                        #[trigger] done[b][t]).index_spec() == key;
                    assert(paths[b][t].index_spec() == key);
                }
            }
            let mut more: bool = true;
            while more
                invariant
                    h < heads.len(),
                    chains@.len() == h,
                    done == chains_view(chains@),
                    ascending(heads@),
                    chain@.len() >= 1,
                    chain@[0] == head,
                    head == heads@[h as int],
                    current == chain@.last(),
                    are_paths_from(edges, heads@, done.push(chain@)),
                    is_remainder(edges, isolated_edges@, done.push(chain@)),
                    graph::is_chain_head(edges, head),
                    !more ==> chain@.len() >= 2 && !graph::has_isolated_successor(edges, current),
                decreases isolated_edges@.len() + (if more { 1nat } else { 0nat }),
            {
                let ghost left = isolated_edges@;
                let ghost paths = done.push(chain@);
                let ghost walked = chain@;
                proof {
                    lemma_last_not_consumed(edges, heads@, paths);
                    assert(paths.last().last() == current);
                    if graph::has_isolated_successor(edges, current) {
                        graph::lemma_successor_has_key(edges, current);
                        assert(left.contains_key(current.index_spec()));
                    }
                }
                match isolated_edges.remove(&current.index()) {
                    Some(next) => {
                        chain.push(next);
                        proof {
                            let key = current.index_spec();
                            assert(left.contains_key(key));
                            graph::lemma_successor_is_edge(edges, current);
                            let after = done.push(chain@);
                            assert(graph::is_isolated_path(edges, chain@)) by {
                                assert(graph::is_isolated_path(edges, paths[h as int]));
                                assert forall|k: int| 0 <= k < chain@.len() - 1 implies #[trigger]
                                    graph::is_link(edges, chain@, k) by {
                                    if k < walked.len() - 1 {
                                        assert(graph::is_link(edges, walked, k));
                                    }
                                }
                            }
                            assert forall|b: int| 0 <= b < after.len() implies graph::is_isolated_path(
                                edges,
                                #[trigger] after[b],
                            ) && after[b][0] == heads@[b] by {
                                if b < h {
                                    assert(after[b] == paths[b]);
                                }
                            }
                            assert forall|k: usize|
                                graph::isolated_successors(edges).contains_key(k) && !(
                                #[trigger] isolated_edges@.contains_key(k)) implies is_consumed(
                                after,
                                k,
                            ) by {
                                if k == key {
                                    assert(after[h as int][walked.len() - 1].index_spec() == key);
                                } else {
                                    assert(!left.contains_key(k));
                                    let (b, t) = choose|b: int, t: int|
                                        0 <= b < paths.len() && 0 <= t < paths[b].len() - 1 && (
                                        #[trigger] paths[b][t]).index_spec() == k;
                                    assert(after[b][t].index_spec() == k);
                                }
                            }
                            left.lemma_remove_key_len(key);
                        }
                        current = next;
                    },
                    None => {
                        proof {
                            if chain@.len() < 2 {
                                let j = choose|j: int| #[trigger]
                                    graph::is_isolated_at(edges, j) && edges[j].0 == head;
                                assert(graph::has_isolated_successor(edges, current));
                            }
                        }
                        more = false;
                    },
                }
            }
            proof {
                assert(chains_view(chains@.push(chain)) =~= done.push(chain@));
                assert(done.push(chain@)[h as int] == chain@);
                assert(graph::is_isolated_path(edges, chain@));
                assert(graph::is_chain(edges, chain@));
            }
            chains.push(chain);
            h += 1;
        }
        proof {
            let view = chains_view(chains@);
            assert forall|a: int| 0 <= a < view.len() implies graph::is_chain(
                edges,
                #[trigger] view[a],
            ) by {
                assert(graph::is_chain(edges, chains@[a]@));
            }
            assert forall|a: int, b: int| 0 <= a < b < view.len() implies (
            #[trigger] view[a])[0].index_spec() < (#[trigger] view[b])[0].index_spec() by {
                assert(view[a][0] == heads@[a] && view[b][0] == heads@[b]);
            }
            assert forall|p: P| graph::is_chain_head(edges, p) implies exists|a: int|
                0 <= a < view.len() && (#[trigger] view[a])[0] == p by {
                assert(heads@.contains(p));
                let a = choose|a: int| 0 <= a < heads@.len() && heads@[a] == p;
                assert(view[a][0] == p);
            }
            assert(graph::is_chain_cover(edges, view));
            graph::lemma_cover_unique(edges, view, graph::isolated_chains(edges));
            graph::lemma_cover_is_disjoint(edges, view);
            assert forall|a: int, s: int|
                0 <= a < chains@.len() && 0 <= s < chains@[a]@.len() implies graph::is_touched(
                edges,
                #[trigger] chains@[a]@[s],
            ) by {
                assert(graph::is_touched(edges, view[a][s]));
            }
        }
        chains
    }

    /// The isolated edges: those whose source has exactly one edge out of it
    /// and whose target has exactly one edge into it. The result maps the
    /// index of each such source to the target of its edge.
    pub fn isolated_edges(&self) -> (isolated: HashMap<usize, P>)
        ensures
            isolated@ == graph::isolated_successors(self.cfg_edge@),
    {
        let ghost edges = self.cfg_edge@;
        let mut successors: HashMap<usize, Option<P>> = HashMap::new();
        let mut predecessors: HashMap<usize, Option<P>> = HashMap::new();
        let mut i: usize = 0;
        while i < self.cfg_edge.len()
            invariant
                0 <= i <= self.cfg_edge.len(),
                edges == self.cfg_edge@,
                slots_track(successors@, source_keys(edges), targets(edges), i as int),
                slots_track(predecessors@, target_keys(edges), sources(edges), i as int),
            decreases self.cfg_edge.len() - i,
        {
            let p: P = self.cfg_edge[i].0;
            let q: P = self.cfg_edge[i].1;
            proof {
                lemma_slots_step(successors@, source_keys(edges), targets(edges), i as int);
                lemma_slots_step(predecessors@, target_keys(edges), sources(edges), i as int);
            }
            note_neighbour(&mut successors, p.index(), q);
            note_neighbour(&mut predecessors, q.index(), p);
            i += 1;
        }
        let mut isolated: HashMap<usize, P> = HashMap::new();
        let mut i: usize = 0;
        while i < self.cfg_edge.len()
            invariant
                0 <= i <= self.cfg_edge.len(),
                edges == self.cfg_edge@,
                slots_track(successors@, source_keys(edges), targets(edges), edges.len() as int),
                slots_track(predecessors@, target_keys(edges), sources(edges), edges.len() as int),
                forall|key: usize|
                    isolated@.contains_key(key) ==> exists|j: int|
                        0 <= j < i && graph::leaves_isolated(edges, key, j),
                forall|j: int|
                    0 <= j < i && #[trigger] graph::is_isolated_at(edges, j)
                        ==> isolated@.contains_key(edges[j].0.index_spec())
                        && isolated@[edges[j].0.index_spec()] == edges[j].1,
            decreases self.cfg_edge.len() - i,
        {
            let p: P = self.cfg_edge[i].0;
            let q: P = self.cfg_edge[i].1;
            let key: usize = p.index();
            proof {
                lemma_sole_source(edges, i as int);
                lemma_sole_target(edges, i as int);
                assert(source_keys(edges)[i as int] == key);
                assert(target_keys(edges)[i as int] == q.index_spec());
            }
            if has_unique_neighbour(&successors, key) && has_unique_neighbour(
                &predecessors,
                q.index(),
            ) {
                let ghost before = isolated@;
                isolated.insert(key, q);
                proof {
                    assert(graph::is_isolated_at(edges, i as int));
                    assert forall|k: usize| isolated@.contains_key(k) implies exists|j: int|
                        0 <= j < i + 1 && graph::leaves_isolated(edges, k, j) by {
                        if k == key {
                            assert(graph::leaves_isolated(edges, k, i as int));
                        } else {
                            assert(before.contains_key(k));
                            let j = choose|j: int| 0 <= j < i && graph::leaves_isolated(edges, k, j);
                            assert(0 <= j < i + 1 && graph::leaves_isolated(edges, k, j));
                        }
                    }
                    assert forall|j: int|
                        0 <= j < i + 1 && #[trigger] graph::is_isolated_at(
                            edges,
                            j,
                        ) implies isolated@.contains_key(edges[j].0.index_spec())
                        && isolated@[edges[j].0.index_spec()] == edges[j].1 by {
                        if j < i && edges[j].0.index_spec() == key {
                            P::index_is_injective(edges[j].0, edges[i as int].0);
                        }
                    }
                }
            } else {
                proof {
                    assert(!graph::is_isolated_at(edges, i as int));
                    assert forall|k: usize| isolated@.contains_key(k) implies exists|j: int|
                        0 <= j < i + 1 && graph::leaves_isolated(edges, k, j) by {
                        let j = choose|j: int| 0 <= j < i && graph::leaves_isolated(edges, k, j);
                        assert(0 <= j < i + 1 && graph::leaves_isolated(edges, k, j));
                    }
                }
            }
            i += 1;
        }
        proof {
            let all = graph::isolated_successors(edges);
            assert forall|key: usize| all.contains_key(key) implies isolated@.contains_key(
                key,
            ) && isolated@[key] == all[key] by {
                let j = choose|j: int| graph::leaves_isolated(edges, key, j);
                assert(graph::is_isolated_at(edges, j));
                graph::lemma_isolated_successor(edges, j);
            }
            assert forall|key: usize| isolated@.contains_key(key) implies all.contains_key(key) by {
                let j = choose|j: int| 0 <= j < i && graph::leaves_isolated(edges, key, j);
                assert(graph::leaves_isolated(edges, key, j));
            }
            assert(isolated@ =~= all);
        }
        isolated
    }
}

} // verus!
