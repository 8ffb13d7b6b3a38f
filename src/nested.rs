//! The relation between the clock of a nested scope and the clock of the scope around it.

use vstd::prelude::*;

use crate::location::Location;
use crate::pointstamp_counter::{batch_sum, retimed};
use crate::timestamp::{PartialOrder, PathSummary, RootSummary, RootTimestamp, Timestamp, Unit};

verus! {

/// Conversion between the timestamps of a nested scope (`Self`) and those of
/// the scope around it (`T`), and of the inner path summaries to outer ones.
pub trait Refines<T: Timestamp>: Timestamp {
    /// The least inner timestamp at which the scope is entered at outer time `outer`.
    spec fn inner_of(outer: T) -> Self;

    /// The outer timestamp that an inner one stands for.
    spec fn outer_of(self) -> T;

    /// The outer summary that stands for an inner one.
    spec fn lift(path: <Self as Timestamp>::Summary) -> <T as Timestamp>::Summary;

    /// Entering and leaving the scope gives back the outer time.
    proof fn lemma_round_trip(outer: T)
        ensures
            Self::inner_of(outer).outer_of() == outer,
    ;

    /// A lifted summary never claims more progress than the inner path makes.
    proof fn lemma_conservative(path: <Self as Timestamp>::Summary, t: Self)
        ensures
            (match (Self::lift(path).apply(t.outer_of()), path.apply(t)) {
                (Some(a), Some(b)) => a.le(b.outer_of()),
                _ => true,
            }),
    ;

    /// Converts an outer timestamp to the inner one at which the scope is entered.
    fn to_inner(other: T) -> (r: Self)
        ensures
            r == Self::inner_of(other),
    ;

    /// Converts an inner timestamp to the outer one it stands for.
    fn to_outer(self) -> (r: T)
        ensures
            r == self.outer_of(),
    ;

    /// Summarizes an inner path summary as an outer path summary.
    fn summarize(path: <Self as Timestamp>::Summary) -> (r: <T as Timestamp>::Summary)
        ensures
            r == Self::lift(path),
    ;
}

/// Every timestamp type refines itself, with nothing to convert.
impl<T: Timestamp> Refines<T> for T {
    open spec fn inner_of(outer: T) -> Self {
        outer
    }

    open spec fn outer_of(self) -> T {
        self
    }

    open spec fn lift(path: <T as Timestamp>::Summary) -> <T as Timestamp>::Summary {
        path
    }

    proof fn lemma_round_trip(outer: T) {
    }

    proof fn lemma_conservative(path: <T as Timestamp>::Summary, t: Self) {
        if let Some(a) = path.apply(t) {
            T::lemma_reflexive(a);
        }
    }

    fn to_inner(other: T) -> (r: T) {
        other
    }

    fn to_outer(self) -> (r: T) {
        self
    }

    fn summarize(path: <T as Timestamp>::Summary) -> (r: <T as Timestamp>::Summary) {
        path
    }
}

/// The outermost clock keeps nothing of a usize clock; the scope is entered at 0.
impl Refines<RootTimestamp> for usize {
    open spec fn inner_of(outer: RootTimestamp) -> Self {
        0
    }

    open spec fn outer_of(self) -> RootTimestamp {
        RootTimestamp
    }

    open spec fn lift(path: <usize as Timestamp>::Summary) -> RootSummary {
        RootSummary
    }

    proof fn lemma_round_trip(outer: RootTimestamp) {
    }

    proof fn lemma_conservative(path: <usize as Timestamp>::Summary, t: Self) {
    }

    fn to_inner(other: RootTimestamp) -> (r: usize) {
        0
    }

    fn to_outer(self) -> (r: RootTimestamp) {
        RootTimestamp
    }

    fn summarize(path: <usize as Timestamp>::Summary) -> (r: RootSummary) {
        RootSummary
    }
}

/// The outermost clock keeps nothing of a u64 clock; the scope is entered at 0.
impl Refines<RootTimestamp> for u64 {
    open spec fn inner_of(outer: RootTimestamp) -> Self {
        0
    }

    open spec fn outer_of(self) -> RootTimestamp {
        RootTimestamp
    }

    open spec fn lift(path: <u64 as Timestamp>::Summary) -> RootSummary {
        RootSummary
    }

    proof fn lemma_round_trip(outer: RootTimestamp) {
    }

    proof fn lemma_conservative(path: <u64 as Timestamp>::Summary, t: Self) {
    }

    fn to_inner(other: RootTimestamp) -> (r: u64) {
        0
    }

    fn to_outer(self) -> (r: RootTimestamp) {
        RootTimestamp
    }

    fn summarize(path: <u64 as Timestamp>::Summary) -> (r: RootSummary) {
        RootSummary
    }
}

/// The outermost clock keeps nothing of a u32 clock; the scope is entered at 0.
impl Refines<RootTimestamp> for u32 {
    open spec fn inner_of(outer: RootTimestamp) -> Self {
        0
    }

    open spec fn outer_of(self) -> RootTimestamp {
        RootTimestamp
    }

    open spec fn lift(path: <u32 as Timestamp>::Summary) -> RootSummary {
        RootSummary
    }

    proof fn lemma_round_trip(outer: RootTimestamp) {
    }

    proof fn lemma_conservative(path: <u32 as Timestamp>::Summary, t: Self) {
    }

    fn to_inner(other: RootTimestamp) -> (r: u32) {
        0
    }

    fn to_outer(self) -> (r: RootTimestamp) {
        RootTimestamp
    }

    fn summarize(path: <u32 as Timestamp>::Summary) -> (r: RootSummary) {
        RootSummary
    }
}

/// The outermost clock keeps nothing of an i32 clock; the scope is entered at 0.
impl Refines<RootTimestamp> for i32 {
    open spec fn inner_of(outer: RootTimestamp) -> Self {
        0
    }

    open spec fn outer_of(self) -> RootTimestamp {
        RootTimestamp
    }

    open spec fn lift(path: <i32 as Timestamp>::Summary) -> RootSummary {
        RootSummary
    }

    proof fn lemma_round_trip(outer: RootTimestamp) {
    }

    proof fn lemma_conservative(path: <i32 as Timestamp>::Summary, t: Self) {
    }

    fn to_inner(other: RootTimestamp) -> (r: i32) {
        0
    }

    fn to_outer(self) -> (r: RootTimestamp) {
        RootTimestamp
    }

    fn summarize(path: <i32 as Timestamp>::Summary) -> (r: RootSummary) {
        RootSummary
    }
}

/// The outermost clock keeps nothing of the unit clock, which stands for the
/// unit type: every `Timestamp` is `Copy`, and Verus does not take `()` to be
/// `Copy` when it checks an impl for it.
impl Refines<RootTimestamp> for Unit {
    open spec fn inner_of(outer: RootTimestamp) -> Self {
        Unit
    }

    open spec fn outer_of(self) -> RootTimestamp {
        RootTimestamp
    }

    open spec fn lift(path: Unit) -> RootSummary {
        RootSummary
    }

    proof fn lemma_round_trip(outer: RootTimestamp) {
    }

    proof fn lemma_conservative(path: Unit, t: Self) {
    }

    fn to_inner(other: RootTimestamp) -> (r: Unit) {
        Unit
    }

    fn to_outer(self) -> (r: RootTimestamp) {
        RootTimestamp
    }

    fn summarize(path: Unit) -> (r: RootSummary) {
        RootSummary
    }
}

/// The net change that `batch` makes at `location`, over all timestamps.
pub open spec fn location_sum<T>(batch: Seq<(Location, T, i64)>, location: Location) -> int
    decreases batch.len(),
{
    if batch.len() == 0 {
        0
    } else {
        location_sum(batch.drop_last(), location) + if batch.last().0 == location {
            batch.last().2 as int
        } else {
            0
        }
    }
}

/// Leaving a scope for the outermost clock gathers every change at a location
/// onto the one root time: the net change there is the net change of the
/// location over all inner times.
pub proof fn lemma_leave_to_root<T>(batch: Seq<(Location, T, i64)>, location: Location)
    ensures
        batch_sum(retimed(batch, |t: T| RootTimestamp), location, RootTimestamp) == location_sum(batch, location),
    decreases batch.len(),
{
    if batch.len() > 0 {
        lemma_leave_to_root(batch.drop_last(), location);
        assert(retimed(batch, |t: T| RootTimestamp).drop_last() =~= retimed(batch.drop_last(), |t: T| RootTimestamp));
    }
}

/// `batch` taken from the outermost clock into the clock `T`.
pub open spec fn entered_from_root<T: Refines<RootTimestamp>>(
    batch: Seq<(Location, RootTimestamp, i64)>,
) -> Seq<(Location, T, i64)> {
    retimed(batch, |t: RootTimestamp| T::inner_of(t))
}

/// Changes entering an integer clock from the outermost clock are all stamped
/// with the entry time 0.
pub proof fn lemma_enter_from_root_at_zero(batch: Seq<(Location, RootTimestamp, i64)>)
    ensures
        forall|i: int| 0 <= i < batch.len() ==> #[trigger] entered_from_root::<usize>(batch)[i].1 == 0,
        forall|i: int| 0 <= i < batch.len() ==> #[trigger] entered_from_root::<i32>(batch)[i].1 == 0,
{
}

} // verus!
