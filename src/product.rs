//! Timestamps of a nested scope: the outer time paired with an inner counter.

use vstd::prelude::*;

use crate::nested::Refines;
use crate::timestamp::{PartialOrder, PathSummary, Timestamp};

verus! {

/// A pair of an outer and an inner value, ordered component-wise.
#[derive(Clone, Copy, Debug, PartialEq, Eq)]
pub struct Product<A, B> {
    pub outer: A,
    pub inner: B,
}

impl<A, B> Product<A, B> {
    pub fn new(outer: A, inner: B) -> (r: Self)
        ensures
            r == (Product { outer, inner }),
    {
        Product { outer, inner }
    }
}

impl<TOuter: Timestamp, TInner: Timestamp> Product<TOuter, TInner> {
    /// A nested scope is entered at the least inner time that stands for the
    /// outer time.
    pub proof fn lemma_entry_least(outer: TOuter, x: Self)
        requires
            x.outer == outer,
        ensures
            <Self as Refines<TOuter>>::inner_of(outer).le(x),
    {
        TOuter::lemma_reflexive(outer);
        TInner::lemma_minimum(x.inner);
    }
}

impl<A: PartialOrder, B: PartialOrder> PartialOrder for Product<A, B> {
    open spec fn le(self, other: Self) -> bool {
        self.outer.le(other.outer) && self.inner.le(other.inner)
    }

    proof fn lemma_reflexive(x: Self) {
        A::lemma_reflexive(x.outer);
        B::lemma_reflexive(x.inner);
    }

    proof fn lemma_transitive(x: Self, y: Self, z: Self) {
        A::lemma_transitive(x.outer, y.outer, z.outer);
        B::lemma_transitive(x.inner, y.inner, z.inner);
    }

    proof fn lemma_antisymmetric(x: Self, y: Self) {
        A::lemma_antisymmetric(x.outer, y.outer);
        B::lemma_antisymmetric(x.inner, y.inner);
    }

    fn less_equal(&self, other: &Self) -> (r: bool) {
        self.outer.less_equal(&other.outer) && self.inner.less_equal(&other.inner)
    }

    fn same(&self, other: &Self) -> (r: bool) {
        self.outer.same(&other.outer) && self.inner.same(&other.inner)
    }
}

impl<TOuter: Timestamp, TInner: Timestamp> Timestamp for Product<TOuter, TInner> {
    type Summary = Product<TOuter::Summary, TInner::Summary>;

    open spec fn min_spec() -> Self {
        Product { outer: TOuter::min_spec(), inner: TInner::min_spec() }
    }

    proof fn lemma_minimum(x: Self) {
        TOuter::lemma_minimum(x.outer);
        TInner::lemma_minimum(x.inner);
    }

    fn minimum() -> (r: Self) {
        Product { outer: TOuter::minimum(), inner: TInner::minimum() }
    }
}

/// A path advances each component by its own summary, and carries a pair
/// only where it carries both components.
impl<
    TOuter: Timestamp,
    TInner: Timestamp,
> PathSummary<Product<TOuter, TInner>> for Product<TOuter::Summary, TInner::Summary> {
    open spec fn apply(self, t: Product<TOuter, TInner>) -> Option<Product<TOuter, TInner>> {
        match (self.outer.apply(t.outer), self.inner.apply(t.inner)) {
            (Some(o), Some(i)) => Some(Product { outer: o, inner: i }),
            _ => None,
        }
    }

    open spec fn compose(self, other: Self) -> Option<Self> {
        match (self.outer.compose(other.outer), self.inner.compose(other.inner)) {
            (Some(o), Some(i)) => Some(Product { outer: o, inner: i }),
            _ => None,
        }
    }

    open spec fn identity_spec() -> Self {
        Product { outer: TOuter::Summary::identity_spec(), inner: TInner::Summary::identity_spec() }
    }

    proof fn lemma_advances(self, t: Product<TOuter, TInner>) {
        self.outer.lemma_advances(t.outer);
        self.inner.lemma_advances(t.inner);
    }

    proof fn lemma_identity(t: Product<TOuter, TInner>) {
        TOuter::Summary::lemma_identity(t.outer);
        TInner::Summary::lemma_identity(t.inner);
    }

    proof fn lemma_identity_neutral(self) {
        self.outer.lemma_identity_neutral();
        self.inner.lemma_identity_neutral();
    }

    proof fn lemma_then(self, other: Self, t: Product<TOuter, TInner>) {
        self.outer.lemma_then(other.outer, t.outer);
        self.inner.lemma_then(other.inner, t.inner);
    }

    proof fn lemma_compose_monotone(self, larger: Self, other: Self) {
        self.outer.lemma_compose_monotone(larger.outer, other.outer);
        self.inner.lemma_compose_monotone(larger.inner, other.inner);
    }

    fn identity() -> (r: Self) {
        Product { outer: TOuter::Summary::identity(), inner: TInner::Summary::identity() }
    }

    fn results_in(&self, t: &Product<TOuter, TInner>) -> (r: Option<Product<TOuter, TInner>>) {
        match (self.outer.results_in(&t.outer), self.inner.results_in(&t.inner)) {
            (Some(o), Some(i)) => Some(Product { outer: o, inner: i }),
            _ => None,
        }
    }

    fn followed_by(&self, other: &Self) -> (r: Option<Self>) {
        match (self.outer.followed_by(&other.outer), self.inner.followed_by(&other.inner)) {
            (Some(o), Some(i)) => Some(Product { outer: o, inner: i }),
            _ => None,
        }
    }
}

/// A nested scope's clock refines the outer clock: the scope is entered at
/// the least inner value, and leaving it forgets the inner value.
impl<TOuter: Timestamp, TInner: Timestamp> Refines<TOuter> for Product<TOuter, TInner> {
    open spec fn inner_of(outer: TOuter) -> Self {
        Product { outer, inner: TInner::min_spec() }
    }

    open spec fn outer_of(self) -> TOuter {
        self.outer
    }

    open spec fn lift(path: Product<TOuter::Summary, TInner::Summary>) -> TOuter::Summary {
        path.outer
    }

    proof fn lemma_round_trip(outer: TOuter) {
    }

    proof fn lemma_conservative(path: Product<TOuter::Summary, TInner::Summary>, t: Self) {
        if let Some(a) = path.outer.apply(t.outer) {
            TOuter::lemma_reflexive(a);
        }
    }

    fn to_inner(other: TOuter) -> (r: Self) {
        Product { outer: other, inner: TInner::minimum() }
    }

    fn to_outer(self) -> (r: TOuter) {
        self.outer
    }

    fn summarize(path: Product<TOuter::Summary, TInner::Summary>) -> (r: TOuter::Summary) {
        path.outer
    }
}

} // verus!
