//! A clock of elapsed time, with its refinement into the outermost clock.

use vstd::prelude::*;

use crate::nested::Refines;
use crate::timestamp::{PartialOrder, PathSummary, RootSummary, RootTimestamp, Timestamp};

verus! {

/// The number of nanoseconds in a second.
pub const NANOS_PER_SEC: u128 = 1_000_000_000;

/// A span of time, held as a whole number of nanoseconds.
#[derive(Clone, Copy, Debug, PartialEq, Eq, Structural, PartialOrd, Ord, Hash)]
pub struct Duration {
    pub nanos: u128,
}

impl Duration {
    /// The span of `secs` seconds and `nanos` nanoseconds.
    pub fn new(secs: u64, nanos: u32) -> (r: Duration)
        ensures
            r.nanos == secs * NANOS_PER_SEC + nanos,
    {
        assert(secs * NANOS_PER_SEC <= 0xffff_ffff_ffff_ffff * NANOS_PER_SEC) by (nonlinear_arith)
            requires
                secs <= 0xffff_ffff_ffff_ffffu64,
        ;
        Duration { nanos: secs as u128 * NANOS_PER_SEC + nanos as u128 }
    }

    /// The empty span.
    pub fn zero() -> (r: Duration)
        ensures
            r.nanos == 0,
    {
        Duration { nanos: 0 }
    }

    /// The whole seconds of the span.
    pub fn as_secs(&self) -> (r: u128)
        ensures
            r == self.nanos / NANOS_PER_SEC,
    {
        self.nanos / NANOS_PER_SEC
    }

    /// The nanoseconds past the whole seconds.
    pub fn subsec_nanos(&self) -> (r: u128)
        ensures
            r == self.nanos % NANOS_PER_SEC,
            r < NANOS_PER_SEC,
    {
        self.nanos % NANOS_PER_SEC
    }
}

impl PartialOrder for Duration {
    open spec fn le(self, other: Self) -> bool {
        self.nanos <= other.nanos
    }

    proof fn lemma_reflexive(x: Self) {
    }

    proof fn lemma_transitive(x: Self, y: Self, z: Self) {
    }

    proof fn lemma_antisymmetric(x: Self, y: Self) {
    }

    fn less_equal(&self, other: &Self) -> (r: bool) {
        self.nanos <= other.nanos
    }

    fn same(&self, other: &Self) -> (r: bool) {
        self.nanos == other.nanos
    }
}

impl Timestamp for Duration {
    type Summary = Duration;

    open spec fn min_spec() -> Self {
        Duration { nanos: 0 }
    }

    proof fn lemma_minimum(x: Self) {
    }

    fn minimum() -> (r: Self) {
        Duration { nanos: 0 }
    }
}

/// A path delays a time by a fixed span; past the largest span it cannot go.
impl PathSummary<Duration> for Duration {
    open spec fn apply(self, t: Duration) -> Option<Duration> {
        if t.nanos + self.nanos <= u128::MAX {
            Some(Duration { nanos: (t.nanos + self.nanos) as u128 })
        } else {
            None
        }
    }

    open spec fn compose(self, other: Self) -> Option<Self> {
        if self.nanos + other.nanos <= u128::MAX {
            Some(Duration { nanos: (self.nanos + other.nanos) as u128 })
        } else {
            None
        }
    }

    open spec fn identity_spec() -> Self {
        Duration { nanos: 0 }
    }

    proof fn lemma_advances(self, t: Duration) {
    }

    proof fn lemma_identity(t: Duration) {
    }

    proof fn lemma_identity_neutral(self) {
    }

    proof fn lemma_then(self, other: Self, t: Duration) {
    }

    proof fn lemma_compose_monotone(self, larger: Self, other: Self) {
    }

    fn identity() -> (r: Self) {
        Duration { nanos: 0 }
    }

    fn results_in(&self, t: &Duration) -> (r: Option<Duration>) {
        match t.nanos.checked_add(self.nanos) {
            Some(n) => Some(Duration { nanos: n }),
            None => None,
        }
    }

    fn followed_by(&self, other: &Self) -> (r: Option<Self>) {
        match self.nanos.checked_add(other.nanos) {
            Some(n) => Some(Duration { nanos: n }),
            None => None,
        }
    }
}

/// The outermost clock keeps nothing of a duration clock; the scope is
/// entered at the empty span.
impl Refines<RootTimestamp> for Duration {
    open spec fn inner_of(outer: RootTimestamp) -> Self {
        Duration { nanos: 0 }
    }

    open spec fn outer_of(self) -> RootTimestamp {
        RootTimestamp
    }

    open spec fn lift(path: Duration) -> RootSummary {
        RootSummary
    }

    proof fn lemma_round_trip(outer: RootTimestamp) {
    }

    proof fn lemma_conservative(path: Duration, t: Self) {
    }

    fn to_inner(other: RootTimestamp) -> (r: Duration) {
        Duration { nanos: 0 }
    }

    fn to_outer(self) -> (r: RootTimestamp) {
        RootTimestamp
    }

    fn summarize(path: Duration) -> (r: RootSummary) {
        RootSummary
    }
}

} // verus!
