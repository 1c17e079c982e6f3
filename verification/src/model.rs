//! The mathematical model of a fact store: every relation as a sequence of
//! tuples, and the rewriting of a store as functions on such sequences.

use crate::atom::Atom;
use crate::graph;
use vstd::prelude::*;

verus! {

/// The seven relations of a fact store, each as the sequence of its tuples.
pub struct FactsView<R, L, P> {
    pub borrow_region: Seq<(R, L, P)>,
    pub universal_region: Seq<R>,
    pub cfg_edge: Seq<(P, P)>,
    pub killed: Seq<(L, P)>,
    pub outlives: Seq<(R, R, P)>,
    pub region_live_at: Seq<(R, P)>,
    pub invalidates: Seq<(P, L)>,
}

/// The edge `e` after every source `from` has been renamed to `to`.
pub open spec fn rename_source<P>(e: (P, P), from: P, to: P) -> (P, P) {
    if e.0 == from {
        (to, e.1)
    } else {
        e
    }
}

/// The edge `e` after every target `from` has been renamed to `to`.
pub open spec fn rename_target<P>(e: (P, P), from: P, to: P) -> (P, P) {
    if e.1 == from {
        (e.0, to)
    } else {
        e
    }
}

impl<R, L, P> FactsView<R, L, P> {
    /// The regions live at `point`, in the order of their tuples.
    pub open spec fn live_regions_at(self, point: P) -> Seq<R> {
        self.region_live_at.filter(|t: (R, P)| t.1 == point).map_values(|t: (R, P)| t.0)
    }

    /// The loans killed at `point`, in the order of their tuples.
    pub open spec fn killed_loans_at(self, point: P) -> Seq<L> {
        self.killed.filter(|t: (L, P)| t.1 == point).map_values(|t: (L, P)| t.0)
    }

    /// The outlives constraints recorded at `point`, in the order of their tuples.
    pub open spec fn outlives_at(self, point: P) -> Seq<(R, R)> {
        self.outlives.filter(|t: (R, R, P)| t.2 == point).map_values(|t: (R, R, P)| (t.0, t.1))
    }

    /// The loans invalidated at `point`, in the order of their tuples.
    pub open spec fn invalidates_at(self, point: P) -> Seq<L> {
        self.invalidates.filter(|t: (P, L)| t.0 == point).map_values(|t: (P, L)| t.1)
    }

    /// No kill, outlives constraint or invalidation is recorded at `point`.
    pub open spec fn is_quiet_at(self, point: P) -> bool {
        &&& self.killed_loans_at(point).len() == 0
        &&& self.outlives_at(point).len() == 0
        &&& self.invalidates_at(point).len() == 0
    }

    /// Nothing distinguishes being at `first` from being at `second`: the same
    /// regions are live at both, and both are quiet.
    pub open spec fn is_edge_collapsible(self, first: P, second: P) -> bool {
        &&& self.live_regions_at(first).to_set() == self.live_regions_at(second).to_set()
        &&& self.is_quiet_at(first)
        &&& self.is_quiet_at(second)
    }

    /// No edge leaves `point`.
    pub open spec fn is_endpoint(self, point: P) -> bool {
        forall|i: int| 0 <= i < self.cfg_edge.len() ==> (#[trigger] self.cfg_edge[i]).0 != point
    }

    /// No edge enters `point`.
    pub open spec fn is_startpoint(self, point: P) -> bool {
        forall|i: int| 0 <= i < self.cfg_edge.len() ==> (#[trigger] self.cfg_edge[i]).1 != point
    }

    /// The store without the tuples of the five point-indexed relations whose
    /// point is `point`. The edges are left as they are.
    pub open spec fn without_facts_at(self, point: P) -> Self {
        FactsView {
            borrow_region: self.borrow_region.filter(|t: (R, L, P)| t.2 != point),
            universal_region: self.universal_region,
            cfg_edge: self.cfg_edge,
            killed: self.killed.filter(|t: (L, P)| t.1 != point),
            outlives: self.outlives.filter(|t: (R, R, P)| t.2 != point),
            region_live_at: self.region_live_at.filter(|t: (R, P)| t.1 != point),
            invalidates: self.invalidates.filter(|t: (P, L)| t.0 != point),
        }
    }

    /// `second` merged into `first`: the facts at `second` and the edges into
    /// it are dropped, and the edges that left `second` now leave `first`.
    pub open spec fn collapse_keeping_first(self, first: P, second: P) -> Self {
        FactsView {
            cfg_edge: self.cfg_edge.filter(|e: (P, P)| e.1 != second).map_values(
                |e: (P, P)| rename_source(e, second, first),
            ),
            ..self.without_facts_at(second)
        }
    }

    /// `first` merged into `second`: the facts at `first` and the edges out of
    /// it are dropped, and the edges that entered `first` now enter `second`.
    pub open spec fn collapse_keeping_second(self, first: P, second: P) -> Self {
        FactsView {
            cfg_edge: self.cfg_edge.filter(|e: (P, P)| e.0 != first).map_values(
                |e: (P, P)| rename_target(e, first, second),
            ),
            ..self.without_facts_at(first)
        }
    }

    /// The merge of the two ends of the edge from `first` to `second`, keeping
    /// the end that the graph still reaches through: `first` when an edge
    /// leaves `second`, else `second` when an edge enters `first`, else
    /// nothing changes.
    pub open spec fn collapse_edge(self, first: P, second: P) -> Self {
        if !self.is_endpoint(second) {
            self.collapse_keeping_first(first, second)
        } else if !self.is_startpoint(first) {
            self.collapse_keeping_second(first, second)
        } else {
            self
        }
    }

    /// Collapsing the edge from `first` to `second` merges the two points:
    /// an edge leaves `second` or an edge enters `first`.
    pub open spec fn merges(self, first: P, second: P) -> bool {
        !self.is_endpoint(second) || !self.is_startpoint(first)
    }

    /// The point that stands for `x` once the edge from `first` to `second`
    /// has been collapsed: the point kept, where `x` is the point merged into
    /// it, and `x` itself otherwise.
    pub open spec fn merged(self, first: P, second: P, x: P) -> P {
        if !self.is_endpoint(second) {
            if x == second {
                first
            } else {
                x
            }
        } else if !self.is_startpoint(first) {
            if x == first {
                second
            } else {
                x
            }
        } else {
            x
        }
    }

    /// The walk along `rest` with `anchor` as the point that the next point is
    /// held against: a collapsible edge is collapsed and the anchor stays; at
    /// any other edge the anchor moves on to the next point.
    pub open spec fn simplify_from(self, anchor: P, rest: Seq<P>) -> Self
        decreases rest.len(),
    {
        if rest.len() == 0 {
            self
        } else if self.is_edge_collapsible(anchor, rest[0]) {
            self.collapse_edge(anchor, rest[0]).simplify_from(anchor, rest.drop_first())
        } else {
            self.simplify_from(rest[0], rest.drop_first())
        }
    }

    /// The point that stands for `x` after the walk along `rest` from
    /// `anchor`: `x` itself, unless the walk merged it into another point.
    pub open spec fn survivor_from(self, anchor: P, rest: Seq<P>, x: P) -> P
        decreases rest.len(),
    {
        if rest.len() == 0 {
            x
        } else if self.is_edge_collapsible(anchor, rest[0]) {
            self.collapse_edge(anchor, rest[0]).survivor_from(
                anchor,
                rest.drop_first(),
                self.merged(anchor, rest[0], x),
            )
        } else {
            self.survivor_from(rest[0], rest.drop_first(), x)
        }
    }

    /// The point that stands for `x` after the walk along `chain`.
    pub open spec fn survivor_in_chain(self, chain: Seq<P>, x: P) -> P {
        if chain.len() == 0 {
            x
        } else {
            self.survivor_from(chain[0], chain.drop_first(), x)
        }
    }

    /// The point that stands for `x` after the walks along each of `chains`.
    pub open spec fn survivor_in_chains(self, chains: Seq<Seq<P>>, x: P) -> P
        decreases chains.len(),
    {
        if chains.len() == 0 {
            x
        } else {
            self.simplify_chain(chains[0]).survivor_in_chains(
                chains.drop_first(),
                self.survivor_in_chain(chains[0], x),
            )
        }
    }

    /// The edges whose two ends the walk along `rest` from `anchor` merges,
    /// in the order in which it comes to them.
    pub open spec fn collapsed_from(self, anchor: P, rest: Seq<P>) -> Seq<(P, P)>
        decreases rest.len(),
    {
        if rest.len() == 0 {
            Seq::empty()
        } else if self.is_edge_collapsible(anchor, rest[0]) {
            let later = self.collapse_edge(anchor, rest[0]).collapsed_from(
                anchor,
                rest.drop_first(),
            );
            if self.merges(anchor, rest[0]) {
                seq![(anchor, rest[0])] + later
            } else {
                later
            }
        } else {
            self.collapsed_from(rest[0], rest.drop_first())
        }
    }

    /// The edges whose two ends the walk along `chain` merges.
    pub open spec fn collapsed_in_chain(self, chain: Seq<P>) -> Seq<(P, P)> {
        if chain.len() == 0 {
            Seq::empty()
        } else {
            self.collapsed_from(chain[0], chain.drop_first())
        }
    }

    /// The edges whose two ends the walks along each of `chains` merge.
    pub open spec fn collapsed_in_chains(self, chains: Seq<Seq<P>>) -> Seq<(P, P)>
        decreases chains.len(),
    {
        if chains.len() == 0 {
            Seq::empty()
        } else {
            self.collapsed_in_chain(chains[0]) + self.simplify_chain(
                chains[0],
            ).collapsed_in_chains(chains.drop_first())
        }
    }

    /// The store after the walk along `chain`, which starts at its first point.
    pub open spec fn simplify_chain(self, chain: Seq<P>) -> Self {
        if chain.len() == 0 {
            self
        } else {
            self.simplify_from(chain[0], chain.drop_first())
        }
    }

    /// The store after the walks along each of `chains`, in their order.
    pub open spec fn simplify_chains(self, chains: Seq<Seq<P>>) -> Self
        decreases chains.len(),
    {
        if chains.len() == 0 {
            self
        } else {
            self.simplify_chain(chains[0]).simplify_chains(chains.drop_first())
        }
    }
}

impl<R, L, P: Atom> FactsView<R, L, P> {
    /// The simplified store: the walk along every chain of the graph, the
    /// chains taken by ascending index of their heads.
    pub open spec fn simplify_cfg(self) -> Self {
        self.simplify_chains(graph::isolated_chains(self.cfg_edge))
    }

    /// The point that stands for `x` in the simplified store.
    pub open spec fn survivor(self, x: P) -> P {
        self.survivor_in_chains(graph::isolated_chains(self.cfg_edge), x)
    }

    /// The edges whose two ends the simplification merges.
    pub open spec fn collapsed(self) -> Seq<(P, P)> {
        self.collapsed_in_chains(graph::isolated_chains(self.cfg_edge))
    }
}

} // verus!
