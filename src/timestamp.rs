//! Partially ordered timestamps and the path summaries that advance them.

use vstd::prelude::*;

verus! {

/// A partial order, with an executable comparison.
pub trait PartialOrder: Sized + Copy {
    /// Whether `self` is less than or equal to `other`.
    spec fn le(self, other: Self) -> bool;

    /// The order is reflexive, transitive and antisymmetric.
    proof fn lemma_reflexive(x: Self)
        ensures
            x.le(x),
    ;

    proof fn lemma_transitive(x: Self, y: Self, z: Self)
        requires
            x.le(y),
            y.le(z),
        ensures
            x.le(z),
    ;

    proof fn lemma_antisymmetric(x: Self, y: Self)
        requires
            x.le(y),
            y.le(x),
        ensures
            x == y,
    ;

    /// Whether `self` is less than or equal to `other`.
    fn less_equal(&self, other: &Self) -> (r: bool)
        ensures
            r == self.le(*other),
    ;

    /// Whether `self` and `other` are the same value.
    fn same(&self, other: &Self) -> (r: bool)
        ensures
            r == (*self == *other),
    ;
}

/// A partially ordered clock value with a distinguished minimum.
pub trait Timestamp: PartialOrder {
    /// The path summaries that advance timestamps of this type.
    type Summary: PathSummary<Self>;

    /// The least timestamp.
    spec fn min_spec() -> Self;

    proof fn lemma_minimum(x: Self)
        ensures
            Self::min_spec().le(x),
    ;

    /// The least timestamp.
    fn minimum() -> (r: Self)
        ensures
            r == Self::min_spec(),
    ;
}

/// The least advance that a path forces on a timestamp of type `T`.
pub trait PathSummary<T: PartialOrder>: PartialOrder {
    /// The timestamp that a path carries `t` to, or `None` where it cannot carry `t`.
    spec fn apply(self, t: T) -> Option<T>;

    /// The summary of this path followed by `other`, or `None` where none exists.
    spec fn compose(self, other: Self) -> Option<Self>;

    /// The summary of the empty path.
    spec fn identity_spec() -> Self;

    /// A path never moves a timestamp backwards.
    proof fn lemma_advances(self, t: T)
        ensures
            self.apply(t) matches Some(r) ==> t.le(r),
    ;

    /// The empty path carries every timestamp to itself.
    proof fn lemma_identity(t: T)
        ensures
            Self::identity_spec().apply(t) == Some(t),
    ;

    /// Composing with the empty path changes nothing.
    proof fn lemma_identity_neutral(self)
        ensures
            Self::identity_spec().compose(self) == Some(self),
            self.compose(Self::identity_spec()) == Some(self),
    ;

    /// A composed path does what its two parts do one after the other.
    proof fn lemma_then(self, other: Self, t: T)
        ensures
            self.compose(other) matches Some(c) ==> c.apply(t) == (match self.apply(t) {
                Some(m) => other.apply(m),
                None => None,
            }),
    ;

    /// A smaller summary followed by the same path stays no greater.
    proof fn lemma_compose_monotone(self, larger: Self, other: Self)
        requires
            self.le(larger),
        ensures
            larger.compose(other) matches Some(y) ==> self.compose(other) matches Some(x) && x.le(y),
    ;

    /// The summary of the empty path.
    fn identity() -> (r: Self)
        ensures
            r == Self::identity_spec(),
    ;

    /// The timestamp that this path carries `t` to.
    fn results_in(&self, t: &T) -> (r: Option<T>)
        ensures
            r == self.apply(*t),
    ;

    /// The summary of this path followed by `other`.
    fn followed_by(&self, other: &Self) -> (r: Option<Self>)
        ensures
            r == self.compose(*other),
    ;
}

impl PartialOrder for usize {
    open spec fn le(self, other: Self) -> bool {
        self <= other
    }

    proof fn lemma_reflexive(x: Self) {
    }

    proof fn lemma_transitive(x: Self, y: Self, z: Self) {
    }

    proof fn lemma_antisymmetric(x: Self, y: Self) {
    }

    fn less_equal(&self, other: &Self) -> (r: bool) {
        *self <= *other
    }

    fn same(&self, other: &Self) -> (r: bool) {
        *self == *other
    }
}

impl Timestamp for usize {
    type Summary = usize;

    open spec fn min_spec() -> Self {
        0
    }

    proof fn lemma_minimum(x: Self) {
    }

    fn minimum() -> (r: Self) {
        0
    }
}

/// A counter advances by a fixed amount along a path; past the largest value it cannot go.
impl PathSummary<usize> for usize {
    open spec fn apply(self, t: usize) -> Option<usize> {
        if t + self <= usize::MAX {
            Some((t + self) as usize)
        } else {
            None
        }
    }

    open spec fn compose(self, other: Self) -> Option<Self> {
        if self + other <= usize::MAX {
            Some((self + other) as usize)
        } else {
            None
        }
    }

    open spec fn identity_spec() -> Self {
        0
    }

    proof fn lemma_advances(self, t: usize) {
    }

    proof fn lemma_identity(t: usize) {
    }

    proof fn lemma_identity_neutral(self) {
    }

    proof fn lemma_then(self, other: Self, t: usize) {
    }

    proof fn lemma_compose_monotone(self, larger: Self, other: Self) {
    }

    fn identity() -> (r: Self) {
        0
    }

    fn results_in(&self, t: &usize) -> (r: Option<usize>) {
        t.checked_add(*self)
    }

    fn followed_by(&self, other: &Self) -> (r: Option<Self>) {
        self.checked_add(*other)
    }
}

impl PartialOrder for u64 {
    open spec fn le(self, other: Self) -> bool {
        self <= other
    }

    proof fn lemma_reflexive(x: Self) {
    }

    proof fn lemma_transitive(x: Self, y: Self, z: Self) {
    }

    proof fn lemma_antisymmetric(x: Self, y: Self) {
    }

    fn less_equal(&self, other: &Self) -> (r: bool) {
        *self <= *other
    }

    fn same(&self, other: &Self) -> (r: bool) {
        *self == *other
    }
}

impl Timestamp for u64 {
    type Summary = u64;

    open spec fn min_spec() -> Self {
        0
    }

    proof fn lemma_minimum(x: Self) {
    }

    fn minimum() -> (r: Self) {
        0
    }
}

/// A counter advances by a fixed amount along a path; past the largest value it cannot go.
impl PathSummary<u64> for u64 {
    open spec fn apply(self, t: u64) -> Option<u64> {
        if t + self <= u64::MAX {
            Some((t + self) as u64)
        } else {
            None
        }
    }

    open spec fn compose(self, other: Self) -> Option<Self> {
        if self + other <= u64::MAX {
            Some((self + other) as u64)
        } else {
            None
        }
    }

    open spec fn identity_spec() -> Self {
        0
    }

    proof fn lemma_advances(self, t: u64) {
    }

    proof fn lemma_identity(t: u64) {
    }

    proof fn lemma_identity_neutral(self) {
    }

    proof fn lemma_then(self, other: Self, t: u64) {
    }

    proof fn lemma_compose_monotone(self, larger: Self, other: Self) {
    }

    fn identity() -> (r: Self) {
        0
    }

    fn results_in(&self, t: &u64) -> (r: Option<u64>) {
        t.checked_add(*self)
    }

    fn followed_by(&self, other: &Self) -> (r: Option<Self>) {
        self.checked_add(*other)
    }
}

impl PartialOrder for u32 {
    open spec fn le(self, other: Self) -> bool {
        self <= other
    }

    proof fn lemma_reflexive(x: Self) {
    }

    proof fn lemma_transitive(x: Self, y: Self, z: Self) {
    }

    proof fn lemma_antisymmetric(x: Self, y: Self) {
    }

    fn less_equal(&self, other: &Self) -> (r: bool) {
        *self <= *other
    }

    fn same(&self, other: &Self) -> (r: bool) {
        *self == *other
    }
}

impl Timestamp for u32 {
    type Summary = u32;

    open spec fn min_spec() -> Self {
        0
    }

    proof fn lemma_minimum(x: Self) {
    }

    fn minimum() -> (r: Self) {
        0
    }
}

/// A counter advances by a fixed amount along a path; past the largest value it cannot go.
impl PathSummary<u32> for u32 {
    open spec fn apply(self, t: u32) -> Option<u32> {
        if t + self <= u32::MAX {
            Some((t + self) as u32)
        } else {
            None
        }
    }

    open spec fn compose(self, other: Self) -> Option<Self> {
        if self + other <= u32::MAX {
            Some((self + other) as u32)
        } else {
            None
        }
    }

    open spec fn identity_spec() -> Self {
        0
    }

    proof fn lemma_advances(self, t: u32) {
    }

    proof fn lemma_identity(t: u32) {
    }

    proof fn lemma_identity_neutral(self) {
    }

    proof fn lemma_then(self, other: Self, t: u32) {
    }

    proof fn lemma_compose_monotone(self, larger: Self, other: Self) {
    }

    fn identity() -> (r: Self) {
        0
    }

    fn results_in(&self, t: &u32) -> (r: Option<u32>) {
        t.checked_add(*self)
    }

    fn followed_by(&self, other: &Self) -> (r: Option<Self>) {
        self.checked_add(*other)
    }
}

impl PartialOrder for i32 {
    open spec fn le(self, other: Self) -> bool {
        self <= other
    }

    proof fn lemma_reflexive(x: Self) {
    }

    proof fn lemma_transitive(x: Self, y: Self, z: Self) {
    }

    proof fn lemma_antisymmetric(x: Self, y: Self) {
    }

    fn less_equal(&self, other: &Self) -> (r: bool) {
        *self <= *other
    }

    fn same(&self, other: &Self) -> (r: bool) {
        *self == *other
    }
}

impl Timestamp for i32 {
    type Summary = u32;

    open spec fn min_spec() -> Self {
        i32::MIN
    }

    proof fn lemma_minimum(x: Self) {
    }

    fn minimum() -> (r: Self) {
        i32::MIN
    }
}

/// A signed counter advances by an unsigned amount, so it never moves backwards.
impl PathSummary<i32> for u32 {
    open spec fn apply(self, t: i32) -> Option<i32> {
        if t + self <= i32::MAX {
            Some((t + self) as i32)
        } else {
            None
        }
    }

    open spec fn compose(self, other: Self) -> Option<Self> {
        <u32 as PathSummary<u32>>::compose(self, other)
    }

    open spec fn identity_spec() -> Self {
        0
    }

    proof fn lemma_advances(self, t: i32) {
    }

    proof fn lemma_identity(t: i32) {
    }

    proof fn lemma_identity_neutral(self) {
    }

    proof fn lemma_then(self, other: Self, t: i32) {
    }

    proof fn lemma_compose_monotone(self, larger: Self, other: Self) {
    }

    fn identity() -> (r: Self) {
        0
    }

    fn results_in(&self, t: &i32) -> (r: Option<i32>) {
        let room: i64 = i32::MAX as i64 - *t as i64;
        if (*self as i64) <= room {
            Some((*t as i64 + *self as i64) as i32)
        } else {
            None
        }
    }

    fn followed_by(&self, other: &Self) -> (r: Option<Self>) {
        self.checked_add(*other)
    }
}

/// The clock of the outermost scope: a single value with no structure.
#[derive(Clone, Copy, Debug, PartialEq, Eq, Structural)]
pub struct RootTimestamp;

/// The only path summary of the outermost clock.
#[derive(Clone, Copy, Debug, PartialEq, Eq, Structural)]
pub struct RootSummary;

impl PartialOrder for RootTimestamp {
    open spec fn le(self, other: Self) -> bool {
        true
    }

    proof fn lemma_reflexive(x: Self) {
    }

    proof fn lemma_transitive(x: Self, y: Self, z: Self) {
    }

    proof fn lemma_antisymmetric(x: Self, y: Self) {
    }

    fn less_equal(&self, other: &Self) -> (r: bool) {
        true
    }

    fn same(&self, other: &Self) -> (r: bool) {
        true
    }
}

impl Timestamp for RootTimestamp {
    type Summary = RootSummary;

    open spec fn min_spec() -> Self {
        RootTimestamp
    }

    proof fn lemma_minimum(x: Self) {
    }

    fn minimum() -> (r: Self) {
        RootTimestamp
    }
}

impl PartialOrder for RootSummary {
    open spec fn le(self, other: Self) -> bool {
        true
    }

    proof fn lemma_reflexive(x: Self) {
    }

    proof fn lemma_transitive(x: Self, y: Self, z: Self) {
    }

    proof fn lemma_antisymmetric(x: Self, y: Self) {
    }

    fn less_equal(&self, other: &Self) -> (r: bool) {
        true
    }

    fn same(&self, other: &Self) -> (r: bool) {
        true
    }
}

impl PathSummary<RootTimestamp> for RootSummary {
    open spec fn apply(self, t: RootTimestamp) -> Option<RootTimestamp> {
        Some(RootTimestamp)
    }

    open spec fn compose(self, other: Self) -> Option<Self> {
        Some(RootSummary)
    }

    open spec fn identity_spec() -> Self {
        RootSummary
    }

    proof fn lemma_advances(self, t: RootTimestamp) {
    }

    proof fn lemma_identity(t: RootTimestamp) {
    }

    proof fn lemma_identity_neutral(self) {
    }

    proof fn lemma_then(self, other: Self, t: RootTimestamp) {
    }

    proof fn lemma_compose_monotone(self, larger: Self, other: Self) {
    }

    fn identity() -> (r: Self) {
        RootSummary
    }

    fn results_in(&self, t: &RootTimestamp) -> (r: Option<RootTimestamp>) {
        Some(RootTimestamp)
    }

    fn followed_by(&self, other: &Self) -> (r: Option<Self>) {
        Some(RootSummary)
    }
}

/// The clock with a single value and no structure, standing for the unit
/// type, which Verus does not take to be `Copy`; it is its own summary.
#[derive(Clone, Copy, Debug, PartialEq, Eq, Structural)]
pub struct Unit;

impl PartialOrder for Unit {
    open spec fn le(self, other: Self) -> bool {
        true
    }

    proof fn lemma_reflexive(x: Self) {
    }

    proof fn lemma_transitive(x: Self, y: Self, z: Self) {
    }

    proof fn lemma_antisymmetric(x: Self, y: Self) {
    }

    fn less_equal(&self, other: &Self) -> (r: bool) {
        true
    }

    fn same(&self, other: &Self) -> (r: bool) {
        true
    }
}

impl Timestamp for Unit {
    type Summary = Unit;

    open spec fn min_spec() -> Self {
        Unit
    }

    proof fn lemma_minimum(x: Self) {
    }

    fn minimum() -> (r: Self) {
        Unit
    }
}

/// Every path keeps the one unit value.
impl PathSummary<Unit> for Unit {
    open spec fn apply(self, t: Unit) -> Option<Unit> {
        Some(Unit)
    }

    open spec fn compose(self, other: Self) -> Option<Self> {
        Some(Unit)
    }

    open spec fn identity_spec() -> Self {
        Unit
    }

    proof fn lemma_advances(self, t: Unit) {
    }

    proof fn lemma_identity(t: Unit) {
    }

    proof fn lemma_identity_neutral(self) {
    }

    proof fn lemma_then(self, other: Self, t: Unit) {
    }

    proof fn lemma_compose_monotone(self, larger: Self, other: Self) {
    }

    fn identity() -> (r: Self) {
        Unit
    }

    fn results_in(&self, t: &Unit) -> (r: Option<Unit>) {
        Some(Unit)
    }

    fn followed_by(&self, other: &Self) -> (r: Option<Self>) {
        Some(Unit)
    }
}

} // verus!
