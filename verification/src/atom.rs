//! Atoms: the densely numbered identifiers (regions, loans, points) that the
//! fact relations range over.

use std::hash::Hash;
use vstd::prelude::*;

verus! {

/// A lightweight identifier backed by an integer index.
///
/// Two atoms of one kind are the same atom exactly when their indices agree;
/// every comparison that the analysis makes goes through `index`. What is
/// proved of the analysis holds for an implementation whose `index` returns
/// `index_spec` and whose indices tell its atoms apart, as those of this
/// crate are proved to do.
pub trait Atom: From<usize> + Into<usize> + Copy + Clone + Eq + Ord + Hash + 'static {
    /// The index that identifies this atom.
    spec fn index_spec(self) -> usize;

    /// Distinct atoms have distinct indices.
    proof fn index_is_injective(a: Self, b: Self)
        requires
            a.index_spec() == b.index_spec(),
        ensures
            a == b,
    ;

    /// The index of this atom.
    fn index(self) -> (i: usize)
        ensures
            i == self.index_spec(),
    ;
}

impl Atom for usize {
    open spec fn index_spec(self) -> usize {
        self
    }

    proof fn index_is_injective(a: Self, b: Self) {
    }

    fn index(self) -> (i: usize) {
        self
    }
}

/// A region: a lifetime of the analysed function, by its index.
#[derive(Clone, Copy, PartialEq, Eq, PartialOrd, Ord, Hash, Debug)]
pub struct Region {
    index: usize,
}

impl From<usize> for Region {
    fn from(index: usize) -> (region: Region)
        ensures
            region.index_spec() == index,
    {
        Region { index }
    }
}

impl vstd::std_specs::convert::FromSpecImpl<usize> for Region {
    open spec fn obeys_from_spec() -> bool {
        true
    }

    closed spec fn from_spec(index: usize) -> Region {
        Region { index }
    }
}

impl From<Region> for usize {
    fn from(region: Region) -> (index: usize)
        ensures
            index == region.index_spec(),
    {
        region.index
    }
}

impl vstd::std_specs::convert::FromSpecImpl<Region> for usize {
    open spec fn obeys_from_spec() -> bool {
        true
    }

    closed spec fn from_spec(region: Region) -> usize {
        region.index
    }
}

impl Atom for Region {
    closed spec fn index_spec(self) -> usize {
        self.index
    }

    proof fn index_is_injective(a: Self, b: Self) {
    }

    fn index(self) -> (i: usize) {
        self.index
    }
}

/// A loan: one borrow of the analysed function, by its index.
#[derive(Clone, Copy, PartialEq, Eq, PartialOrd, Ord, Hash, Debug)]
pub struct Loan {
    index: usize,
}

impl From<usize> for Loan {
    fn from(index: usize) -> (loan: Loan)
        ensures
            loan.index_spec() == index,
    {
        Loan { index }
    }
}

impl vstd::std_specs::convert::FromSpecImpl<usize> for Loan {
    open spec fn obeys_from_spec() -> bool {
        true
    }

    closed spec fn from_spec(index: usize) -> Loan {
        Loan { index }
    }
}

impl From<Loan> for usize {
    fn from(loan: Loan) -> (index: usize)
        ensures
            index == loan.index_spec(),
    {
        loan.index
    }
}

impl vstd::std_specs::convert::FromSpecImpl<Loan> for usize {
    open spec fn obeys_from_spec() -> bool {
        true
    }

    closed spec fn from_spec(loan: Loan) -> usize {
        loan.index
    }
}

impl Atom for Loan {
    closed spec fn index_spec(self) -> usize {
        self.index
    }

    proof fn index_is_injective(a: Self, b: Self) {
    }

    fn index(self) -> (i: usize) {
        self.index
    }
}

/// A point of the control-flow graph, by its index.
#[derive(Clone, Copy, PartialEq, Eq, PartialOrd, Ord, Hash, Debug)]
pub struct Point {
    index: usize,
}

impl From<usize> for Point {
    fn from(index: usize) -> (point: Point)
        ensures
            point.index_spec() == index,
    {
        Point { index }
    }
}

impl vstd::std_specs::convert::FromSpecImpl<usize> for Point {
    open spec fn obeys_from_spec() -> bool {
        true
    }

    closed spec fn from_spec(index: usize) -> Point {
        Point { index }
    }
}

impl From<Point> for usize {
    fn from(point: Point) -> (index: usize)
        ensures
            index == point.index_spec(),
    {
        point.index
    }
}

impl vstd::std_specs::convert::FromSpecImpl<Point> for usize {
    open spec fn obeys_from_spec() -> bool {
        true
    }

    closed spec fn from_spec(point: Point) -> usize {
        point.index
    }
}

impl Atom for Point {
    closed spec fn index_spec(self) -> usize {
        self.index
    }

    proof fn index_is_injective(a: Self, b: Self) {
    }

    fn index(self) -> (i: usize) {
        self.index
    }
}

/// Whether `a` and `b` are the same atom.
pub fn same_atom<A: Atom>(a: A, b: A) -> (same: bool)
    ensures
        same == (a == b),
{
    let ia: usize = a.index();
    let ib: usize = b.index();
    proof {
        if ia == ib {
            A::index_is_injective(a, b);
        }
    }
    ia == ib
}

/// Whether `atom` occurs in `atoms`.
pub fn has_atom<A: Atom>(atoms: &Vec<A>, atom: A) -> (found: bool)
    ensures
        found == atoms@.contains(atom),
{
    let mut i: usize = 0;
    while i < atoms.len()
        invariant
            0 <= i <= atoms.len(),
            forall|j: int| 0 <= j < i ==> atoms@[j] != atom,
        decreases atoms.len() - i,
    {
        if same_atom(atoms[i], atom) {
            return true;
        }
        i += 1;
    }
    false
}

/// Whether every atom of `inner` occurs in `outer`.
pub fn covers_atoms<A: Atom>(outer: &Vec<A>, inner: &Vec<A>) -> (all: bool)
    ensures
        all == inner@.to_set().subset_of(outer@.to_set()),
{
    let mut i: usize = 0;
    while i < inner.len()
        invariant
            0 <= i <= inner.len(),
            forall|j: int| 0 <= j < i ==> outer@.contains(#[trigger] inner@[j]),
        decreases inner.len() - i,
    {
        if !has_atom(outer, inner[i]) {
            proof {
                assert(inner@.to_set().contains(inner@[i as int]));
            }
            return false;
        }
        i += 1;
    }
    true
}

/// Whether the same atoms occur in `a` and in `b`, whatever their order and
/// however often each occurs.
pub fn same_atoms<A: Atom>(a: &Vec<A>, b: &Vec<A>) -> (same: bool)
    ensures
        same == (a@.to_set() == b@.to_set()),
{
    let same: bool = covers_atoms(a, b) && covers_atoms(b, a);
    proof {
        if same {
            assert(a@.to_set() =~= b@.to_set());
        }
    }
    same
}

} // verus!
