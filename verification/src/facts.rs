//! The fact store and the queries that the simplification asks of it.

use crate::atom::{same_atom, same_atoms, Atom};
use crate::model::FactsView;
use vstd::prelude::*;

verus! {

/// The facts that the borrow analysis starts from.
#[derive(Clone)]
pub struct AllFacts<R: Atom, L: Atom, P: Atom> {
    /// `borrow_region(R, L, P)`: the region R may refer to data from the loan
    /// L starting at the point P.
    pub borrow_region: Vec<(R, L, P)>,
    /// `universal_region(R)`: R is a free region of the function body.
    pub universal_region: Vec<R>,
    /// `cfg_edge(P, Q)`: the control flow has an edge from P to Q.
    pub cfg_edge: Vec<(P, P)>,
    /// `killed(L, P)`: a prefix of the path borrowed by L is assigned at P.
    pub killed: Vec<(L, P)>,
    /// `outlives(R1, R2, P)`: R1 must outlive R2 at the point P.
    pub outlives: Vec<(R, R, P)>,
    /// `region_live_at(R, P)`: R appears in a variable that is live at P.
    pub region_live_at: Vec<(R, P)>,
    /// `invalidates(P, L)`: the loan L is invalidated at the point P.
    pub invalidates: Vec<(P, L)>,
}

impl<R: Atom, L: Atom, P: Atom> View for AllFacts<R, L, P> {
    type V = FactsView<R, L, P>;

    open spec fn view(&self) -> FactsView<R, L, P> {
        FactsView {
            borrow_region: self.borrow_region@,
            universal_region: self.universal_region@,
            cfg_edge: self.cfg_edge@,
            killed: self.killed@,
            outlives: self.outlives@,
            region_live_at: self.region_live_at@,
            invalidates: self.invalidates@,
        }
    }
}

impl<R: Atom, L: Atom, P: Atom> Default for AllFacts<R, L, P> {
    fn default() -> (facts: Self)
        ensures
            facts.borrow_region@.len() == 0,
            facts.universal_region@.len() == 0,
            facts.cfg_edge@.len() == 0,
            facts.killed@.len() == 0,
            facts.outlives@.len() == 0,
            facts.region_live_at@.len() == 0,
            facts.invalidates@.len() == 0,
    {
        AllFacts {
            borrow_region: Vec::new(),
            universal_region: Vec::new(),
            cfg_edge: Vec::new(),
            killed: Vec::new(),
            outlives: Vec::new(),
            region_live_at: Vec::new(),
            invalidates: Vec::new(),
        }
    }
}

/// The items of `items` that `pick` keeps, each as `pick` hands it on, in
/// their order.
fn select<T: Copy, U, F: Fn(T) -> Option<U>>(
    items: &Vec<T>,
    pick: F,
    Ghost(keep): Ghost<spec_fn(T) -> bool>,
    Ghost(proj): Ghost<spec_fn(T) -> U>,
) -> (picked: Vec<U>)
    requires
        forall|t: T| call_requires(pick, (t,)),
        forall|t: T, u: Option<U>| #[trigger]
            call_ensures(pick, (t,), u) ==> u == (if keep(t) {
                Some(proj(t))
            } else {
                None
            }),
    ensures
        picked@ == items@.filter(keep).map_values(proj),
{
    let mut picked: Vec<U> = Vec::new();
    let mut i: usize = 0;
    proof {
        assert(items@.take(0).filter(keep) =~= Seq::<T>::empty()) by {
            reveal(Seq::filter);
        }
    }
    while i < items.len()
        invariant
            0 <= i <= items.len(),
            forall|t: T| call_requires(pick, (t,)),
            forall|t: T, u: Option<U>| #[trigger]
                call_ensures(pick, (t,), u) ==> u == (if keep(t) {
                    Some(proj(t))
                } else {
                    None
                }),
            picked@ =~= items@.take(i as int).filter(keep).map_values(proj),
        decreases items.len() - i,
    {
        let item: T = items[i];
        proof {
            assert(items@.take(i + 1) =~= items@.take(i as int).push(item));
            items@.take(i as int).lemma_filter_push(item, keep);
        }
        match pick(item) {
            Some(u) => {
                picked.push(u);
            },
            None => {},
        }
        i += 1;
    }
    proof {
        assert(items@.take(i as int) =~= items@);
    }
    picked
}

/// Replaces `items` by those of its items that `keep` accepts, in their order.
fn retain<T: Copy, F: Fn(T) -> bool>(
    items: &mut Vec<T>,
    keep: F,
    Ghost(kept): Ghost<spec_fn(T) -> bool>,
)
    requires
        forall|t: T| call_requires(keep, (t,)),
        forall|t: T, b: bool| #[trigger] call_ensures(keep, (t,), b) ==> b == kept(t),
    ensures
        final(items)@ == old(items)@.filter(kept),
{
    let mut out: Vec<T> = Vec::new();
    let mut i: usize = 0;
    proof {
        assert(items@.take(0).filter(kept) =~= Seq::<T>::empty()) by {
            reveal(Seq::filter);
        }
    }
    while i < items.len()
        invariant
            0 <= i <= items.len(),
            *items == *old(items),
            forall|t: T| call_requires(keep, (t,)),
            forall|t: T, b: bool| #[trigger] call_ensures(keep, (t,), b) ==> b == kept(t),
            out@ =~= items@.take(i as int).filter(kept),
        decreases items.len() - i,
    {
        let item: T = items[i];
        proof {
            assert(items@.take(i + 1) =~= items@.take(i as int).push(item));
            items@.take(i as int).lemma_filter_push(item, kept);
        }
        if keep(item) {
            out.push(item);
        }
        i += 1;
    }
    proof {
        assert(items@.take(i as int) =~= items@);
    }
    *items = out;
}

impl<R: Atom, L: Atom, P: Atom> AllFacts<R, L, P> {
    /// The regions live at `desired_point`, in the order of their tuples.
    pub fn live_regions_at(&self, desired_point: P) -> (regions: Vec<R>)
        ensures
            regions@ == self@.live_regions_at(desired_point),
    {
        let pick = |t: (R, P)| -> (u: Option<R>)
            ensures
                u == if t.1 == desired_point { Some(t.0) } else { None },
            {
                if same_atom(t.1, desired_point) {
                    Some(t.0)
                } else {
                    None
                }
            };
        select(
            &self.region_live_at,
            pick,
            Ghost(|t: (R, P)| t.1 == desired_point),
            Ghost(|t: (R, P)| t.0),
        )
    }

    /// The loans killed at `desired_point`, in the order of their tuples.
    pub fn killed_loans_at(&self, desired_point: P) -> (loans: Vec<L>)
        ensures
            loans@ == self@.killed_loans_at(desired_point),
    {
        let pick = |t: (L, P)| -> (u: Option<L>)
            ensures
                u == if t.1 == desired_point { Some(t.0) } else { None },
            {
                if same_atom(t.1, desired_point) {
                    Some(t.0)
                } else {
                    None
                }
            };
        select(
            &self.killed,
            pick,
            Ghost(|t: (L, P)| t.1 == desired_point),
            Ghost(|t: (L, P)| t.0),
        )
    }

    /// The outlives constraints recorded at `desired_point`, in the order of
    /// their tuples.
    pub fn outlives_at(&self, desired_point: P) -> (constraints: Vec<(R, R)>)
        ensures
            constraints@ == self@.outlives_at(desired_point),
    {
        let pick = |t: (R, R, P)| -> (u: Option<(R, R)>)
            ensures
                u == if t.2 == desired_point { Some((t.0, t.1)) } else { None },
            {
                if same_atom(t.2, desired_point) {
                    Some((t.0, t.1))
                } else {
                    None
                }
            };
        select(
            &self.outlives,
            pick,
            Ghost(|t: (R, R, P)| t.2 == desired_point),
            Ghost(|t: (R, R, P)| (t.0, t.1)),
        )
    }

    /// The loans invalidated at `desired_point`, in the order of their tuples.
    pub fn invalidates_at(&self, desired_point: P) -> (loans: Vec<L>)
        ensures
            loans@ == self@.invalidates_at(desired_point),
    {
        let pick = |t: (P, L)| -> (u: Option<L>)
            ensures
                u == if t.0 == desired_point { Some(t.1) } else { None },
            {
                if same_atom(t.0, desired_point) {
                    Some(t.1)
                } else {
                    None
                }
            };
        select(
            &self.invalidates,
            pick,
            Ghost(|t: (P, L)| t.0 == desired_point),
            Ghost(|t: (P, L)| t.1),
        )
    }

    /// Whether the edge from `first` to `second` can be collapsed: the same
    /// regions are live at both points, whatever their order, and neither
    /// point has a kill, an outlives constraint or an invalidation.
    pub fn is_edge_collapsible(&self, first: P, second: P) -> (collapsible: bool)
        ensures
            collapsible == self@.is_edge_collapsible(first, second),
    {
        same_atoms(&self.live_regions_at(first), &self.live_regions_at(second))
            && self.killed_loans_at(first).is_empty()
            && self.killed_loans_at(second).is_empty()
            && self.outlives_at(first).is_empty()
            && self.outlives_at(second).is_empty()
            && self.invalidates_at(first).is_empty()
            && self.invalidates_at(second).is_empty()
    }

    /// Whether no edge leaves `queried_point`.
    pub fn is_endpoint(&self, queried_point: P) -> (endpoint: bool)
        ensures
            endpoint == self@.is_endpoint(queried_point),
    {
        let mut i: usize = 0;
        while i < self.cfg_edge.len()
            invariant
                0 <= i <= self.cfg_edge.len(),
                forall|j: int| 0 <= j < i ==> (#[trigger] self.cfg_edge@[j]).0 != queried_point,
            decreases self.cfg_edge.len() - i,
        {
            if same_atom(self.cfg_edge[i].0, queried_point) {
                assert(self@.cfg_edge[i as int].0 == queried_point);
                return false;
            }
            i += 1;
        }
        true
    }

    /// Whether no edge enters `queried_point`.
    pub fn is_startpoint(&self, queried_point: P) -> (startpoint: bool)
        ensures
            startpoint == self@.is_startpoint(queried_point),
    {
        let mut i: usize = 0;
        while i < self.cfg_edge.len()
            invariant
                0 <= i <= self.cfg_edge.len(),
                forall|j: int| 0 <= j < i ==> (#[trigger] self.cfg_edge@[j]).1 != queried_point,
            decreases self.cfg_edge.len() - i,
        {
            if same_atom(self.cfg_edge[i].1, queried_point) {
                assert(self@.cfg_edge[i as int].1 == queried_point);
                return false;
            }
            i += 1;
        }
        true
    }

    /// Drops the tuples of the five point-indexed relations whose point is
    /// `point`.
    fn forget_point(&mut self, point: P)
        ensures
            final(self)@ == old(self)@.without_facts_at(point),
    {
        let keep_borrow = |t: (R, L, P)| -> (b: bool)
            ensures
                b == (t.2 != point),
            { !same_atom(t.2, point) };
        retain(&mut self.borrow_region, keep_borrow, Ghost(|t: (R, L, P)| t.2 != point));
        let keep_killed = |t: (L, P)| -> (b: bool)
            ensures
                b == (t.1 != point),
            { !same_atom(t.1, point) };
        retain(&mut self.killed, keep_killed, Ghost(|t: (L, P)| t.1 != point));
        let keep_outlives = |t: (R, R, P)| -> (b: bool)
            ensures
                b == (t.2 != point),
            { !same_atom(t.2, point) };
        retain(&mut self.outlives, keep_outlives, Ghost(|t: (R, R, P)| t.2 != point));
        let keep_live = |t: (R, P)| -> (b: bool)
            ensures
                b == (t.1 != point),
            { !same_atom(t.1, point) };
        retain(&mut self.region_live_at, keep_live, Ghost(|t: (R, P)| t.1 != point));
        let keep_invalidates = |t: (P, L)| -> (b: bool)
            ensures
                b == (t.0 != point),
            { !same_atom(t.0, point) };
        retain(&mut self.invalidates, keep_invalidates, Ghost(|t: (P, L)| t.0 != point));
    }

    /// Merges `second` into `first`: drops the facts at `second` and the
    /// edges into it, and lets the edges that left `second` leave `first`.
    pub fn collapse_edge_keeping_first_point(&mut self, first: P, second: P)
        ensures
            final(self)@ == old(self)@.collapse_keeping_first(first, second),
    {
        self.forget_point(second);
        let pick = |e: (P, P)| -> (u: Option<(P, P)>)
            ensures
                u == if e.1 != second {
                    Some(crate::model::rename_source(e, second, first))
                } else {
                    None
                },
            {
                if same_atom(e.1, second) {
                    None
                } else if same_atom(e.0, second) {
                    Some((first, e.1))
                } else {
                    Some(e)
                }
            };
        self.cfg_edge = select(
            &self.cfg_edge,
            pick,
            Ghost(|e: (P, P)| e.1 != second),
            Ghost(|e: (P, P)| crate::model::rename_source(e, second, first)),
        );
    }

    /// Merges `first` into `second`: drops the facts at `first` and the
    /// edges out of it, and lets the edges that entered `first` enter `second`.
    pub fn collapse_edge_keeping_second_point(&mut self, first: P, second: P)
        ensures
            final(self)@ == old(self)@.collapse_keeping_second(first, second),
    {
        self.forget_point(first);
        let pick = |e: (P, P)| -> (u: Option<(P, P)>)
            ensures
                u == if e.0 != first {
                    Some(crate::model::rename_target(e, first, second))
                } else {
                    None
                },
            {
                if same_atom(e.0, first) {
                    None
                } else if same_atom(e.1, first) {
                    Some((e.0, second))
                } else {
                    Some(e)
                }
            };
        self.cfg_edge = select(
            &self.cfg_edge,
            pick,
            Ghost(|e: (P, P)| e.0 != first),
            Ghost(|e: (P, P)| crate::model::rename_target(e, first, second)),
        );
    }

    /// Collapses the edge from `first` to `second`, keeping the end that the
    /// graph still reaches through. Where `first` has no edge into it and
    /// `second` none out of it, nothing changes.
    pub fn collapse_edge(&mut self, first: P, second: P)
        ensures
            final(self)@ == old(self)@.collapse_edge(first, second),
    {
        if !self.is_endpoint(second) {
            self.collapse_edge_keeping_first_point(first, second);
        } else if !self.is_startpoint(first) {
            self.collapse_edge_keeping_second_point(first, second);
        }
    }

    /// Simplifies the control-flow graph: finds the chains of isolated edges
    /// and walks each of them, by ascending index of its head, collapsing
    /// every edge whose two ends no fact tells apart.
    ///
    /// No edge and no fact is added, no universal region, kill, outlives
    /// constraint or invalidation is dropped, the facts that are dropped are
    /// those at the points merged into another, and a second run changes
    /// nothing.
    pub fn simplify_cfg(&mut self)
        ensures
            final(self)@ == old(self)@.simplify_cfg(),
            final(self).cfg_edge@.len() <= old(self).cfg_edge@.len(),
            crate::laws::is_reduction(old(self)@, final(self)@),
            crate::laws::keeps_facts(
                old(self)@,
                final(self)@,
                |x: P| old(self)@.survivor(x) == x,
            ),
            final(self)@.simplify_cfg() == final(self)@,
    {
        proof {
            crate::laws::lemma_simplify_reduces(self@);
            crate::laws::lemma_facts_are_kept(self@);
            crate::laws::lemma_simplify_is_idempotent(self@);
        }
        let chains = self.isolated_chains();
        let ghost all = crate::chains::chains_view(chains@);
        proof {
            assert(all.skip(0) =~= all);
        }
        for chain in it: chains
            invariant
                all.len() == it.seq().len(),
                forall|a: int| 0 <= a < all.len() ==> #[trigger] all[a] == it.seq()[a]@,
                forall|a: int| 0 <= a < all.len() ==> (#[trigger] all[a]).len() >= 2,
                self@.simplify_chains(all.skip(it.index() as int)) == old(self)@.simplify_cfg(),
        {
            proof {
                let rest = all.skip(it.index() as int);
                assert(rest[0] == chain@);
                assert(rest.drop_first() =~= all.skip(it.index() + 1));
            }
            self.simplify_chain(chain);
        }
    }

    /// Walks `chain` from its first point and collapses every collapsible
    /// edge between the current anchor and the next point.
    pub fn simplify_chain(&mut self, chain: Vec<P>)
        requires
            chain@.len() > 0,
        ensures
            final(self)@ == old(self)@.simplify_chain(chain@),
    {
        let mut current: P = chain[0];
        let mut i: usize = 1;
        while i < chain.len()
            invariant
                1 <= i <= chain.len(),
                self@.simplify_from(current, chain@.skip(i as int)) == old(self)@.simplify_chain(
                    chain@,
                ),
            decreases chain.len() - i,
        {
            let successor: P = chain[i];
            proof {
                assert(chain@.skip(i as int)[0] == successor);
                assert(chain@.skip(i as int).drop_first() =~= chain@.skip(i + 1));
            }
            if self.is_edge_collapsible(current, successor) {
                self.collapse_edge(current, successor);
            } else {
                current = successor;
            }
            i += 1;
        }
    }
}

} // verus!
