//! Outstanding work per graph location, counted by timestamp.

use vstd::prelude::*;
use vstd::seq_lib::group_to_multiset_ensures;

use crate::location::Location;
use crate::timestamp::{PartialOrder, Timestamp};

verus! {

/// Batches are shorter than this, so that their net changes sum without overflow.
pub const MAX_BATCH: u64 = 0x8000_0000_0000_0000;

/// The net change that `batch` makes to the count of `time` at `location`.
pub open spec fn batch_sum<T>(batch: Seq<(Location, T, i64)>, location: Location, time: T) -> int
    decreases batch.len(),
{
    if batch.len() == 0 {
        0
    } else {
        let e = batch.last();
        batch_sum(batch.drop_last(), location, time) + if e.0 == location && e.1 == time {
            e.2 as int
        } else {
            0
        }
    }
}

/// No two entries of `s` share a location and a timestamp.
pub open spec fn keys_unique<T, V>(s: Seq<(Location, T, V)>) -> bool {
    forall|i: int, j: int|
        0 <= i < s.len() && 0 <= j < s.len() && i != j ==> #[trigger] s[i].0 != #[trigger] s[j].0
            || s[i].1 != s[j].1
}

/// Whether some entry of `s` has this location and timestamp.
pub open spec fn has_key<T, V>(s: Seq<(Location, T, V)>, location: Location, time: T) -> bool {
    exists|i: int| 0 <= i < s.len() && #[trigger] s[i].0 == location && s[i].1 == time
}

/// Why a batch of changes was refused.
#[derive(Clone, Copy, Debug, PartialEq, Eq, Structural)]
pub enum CountError {
    /// Some count would fall below zero: more work retired than was announced.
    Negative,
    /// Some count would exceed the largest `i64`.
    Overflow,
}

/// The net change per (location, timestamp) of `batch`, each pair once.
fn net_changes<T: Timestamp>(batch: &Vec<(Location, T, i64)>) -> (r: Vec<(Location, T, i128)>)
    requires
        batch@.len() < MAX_BATCH,
    ensures
        keys_unique(r@),
        forall|i: int| 0 <= i < r@.len() ==> #[trigger] r@[i].2 as int == batch_sum(batch@, r@[i].0, r@[i].1),
        forall|l: Location, t: T| #[trigger] batch_sum(batch@, l, t) != 0 ==> has_key(r@, l, t),
        forall|i: int|
            0 <= i < r@.len() ==> -(batch@.len() as int) * 0x8000_0000_0000_0000 <= #[trigger] r@[i].2
                <= (batch@.len() as int) * 0x8000_0000_0000_0000,
{
    let mut acc: Vec<(Location, T, i128)> = Vec::new();
    let mut i: usize = 0;
    while i < batch.len()
        invariant
            0 <= i <= batch@.len() < MAX_BATCH,
            keys_unique(acc@),
            forall|k: int| 0 <= k < acc@.len() ==> #[trigger] acc@[k].2 as int == batch_sum(batch@.take(i as int), acc@[k].0, acc@[k].1),
            forall|k: int| 0 <= k < acc@.len() ==> -(i as int) * 0x8000_0000_0000_0000 <= #[trigger] acc@[k].2 <= (i as int) * 0x8000_0000_0000_0000,
            forall|l: Location, t: T| #[trigger] batch_sum(batch@.take(i as int), l, t) != 0 ==> has_key(acc@, l, t),
        decreases batch@.len() - i,
    {
        let e = batch[i];
        let mut j: usize = 0;
        let mut found = false;
        while j < acc.len() && !found
            invariant
                0 <= j <= acc@.len(),
                forall|k: int| 0 <= k < j ==> !(#[trigger] acc@[k].0 == e.0 && acc@[k].1 == e.1),
                found ==> j < acc@.len() && acc@[j as int].0 == e.0 && acc@[j as int].1 == e.1,
            decreases acc@.len() - j, if found { 0int } else { 1int },
        {
            if acc[j].0 == e.0 && acc[j].1.same(&e.1) {
                found = true;
            } else {
                j += 1;
            }
        }
        let ghost prev = acc@;
        proof {
            assert(batch@.take(i + 1).drop_last() =~= batch@.take(i as int));
            assert(batch@.take(i + 1).last() == e);
        }
        if found {
            let a = acc[j];
            acc.set(j, (a.0, a.1, a.2 + e.2 as i128));
        } else {
            acc.push((e.0, e.1, e.2 as i128));
        }
        proof {
            assert forall|a: int, b: int|
                0 <= a < acc@.len() && 0 <= b < acc@.len() && a != b implies #[trigger] acc@[a].0
                != #[trigger] acc@[b].0 || acc@[a].1 != acc@[b].1 by {
                if a < prev.len() && b < prev.len() {
                    assert(prev[a].0 != prev[b].0 || prev[a].1 != prev[b].1);
                } else if a < prev.len() {
                    assert(!(prev[a].0 == e.0 && prev[a].1 == e.1));
                } else {
                    assert(!(prev[b].0 == e.0 && prev[b].1 == e.1));
                }
            }
            assert forall|k: int| 0 <= k < acc@.len() implies #[trigger] acc@[k].2 as int == batch_sum(batch@.take(i + 1), acc@[k].0, acc@[k].1) by {
                if k < prev.len() {
                    assert(prev[k].0 == acc@[k].0 && prev[k].1 == acc@[k].1);
                    assert(prev[k].2 as int == batch_sum(batch@.take(i as int), prev[k].0, prev[k].1));
                } else {
                    assert(batch_sum(batch@.take(i as int), e.0, e.1) == 0);
                }
            }
            assert forall|l: Location, t: T| #[trigger] batch_sum(batch@.take(i + 1), l, t) != 0 implies has_key(acc@, l, t) by {
                if l == e.0 && t == e.1 {
                    if found {
                        assert(acc@[j as int].0 == l && acc@[j as int].1 == t);
                    } else {
                        assert(acc@[prev.len() as int].0 == l);
                    }
                } else {
                    assert(batch_sum(batch@.take(i as int), l, t) != 0);
                    let k = choose|k: int| 0 <= k < prev.len() && #[trigger] prev[k].0 == l && prev[k].1 == t;
                    assert(acc@[k].0 == l);
                }
            }
        }
        i += 1;
    }
    proof {
        assert(batch@.take(i as int) =~= batch@);
    }
    acc
}

/// Per location, how many units of work are outstanding at each timestamp.
pub struct PointstampCounter<T> {
    entries: Vec<(Location, T, i64)>,
}

impl<T: Timestamp> PointstampCounter<T> {
    /// Each (location, timestamp) pair appears once, with a positive count.
    pub closed spec fn wf(&self) -> bool {
        &&& keys_unique(self.entries@)
        &&& forall|i: int| 0 <= i < self.entries@.len() ==> #[trigger] self.entries@[i].2 > 0
    }

    /// The number of outstanding units of `time` at `location`.
    pub closed spec fn count(&self, location: Location, time: T) -> int {
        if has_key(self.entries@, location, time) {
            let i = choose|i: int|
                0 <= i < self.entries@.len() && #[trigger] self.entries@[i].0 == location
                    && self.entries@[i].1 == time;
            self.entries@[i].2 as int
        } else {
            0
        }
    }

    /// `time` is outstanding at `location` and no other outstanding time there is below it.
    pub open spec fn in_frontier(&self, location: Location, time: T) -> bool {
        &&& self.count(location, time) > 0
        &&& forall|s: T| self.count(location, s) > 0 && #[trigger] s.le(time) ==> s == time
    }

    proof fn lemma_count_at(&self, i: int)
        requires
            self.wf(),
            0 <= i < self.entries@.len(),
        ensures
            self.count(self.entries@[i].0, self.entries@[i].1) == self.entries@[i].2,
    {
        let e = self.entries@[i];
        assert(has_key(self.entries@, e.0, e.1));
    }

    /// Every count lies between zero and the largest `i64`.
    pub proof fn lemma_count_range(&self, location: Location, time: T)
        requires
            self.wf(),
        ensures
            0 <= self.count(location, time) <= i64::MAX,
    {
    }

    /// A counter with nothing outstanding.
    pub fn new() -> (r: Self)
        ensures
            r.wf(),
            forall|l: Location, t: T| r.count(l, t) == 0,
    {
        PointstampCounter { entries: Vec::new() }
    }

    fn index_of(&self, location: &Location, time: &T) -> (r: Option<usize>)
        requires
            self.wf(),
        ensures
            match r {
                Some(i) => i < self.entries@.len() && self.entries@[i as int].0 == *location
                    && self.entries@[i as int].1 == *time,
                None => !has_key(self.entries@, *location, *time),
            },
    {
        let mut i: usize = 0;
        while i < self.entries.len()
            invariant
                0 <= i <= self.entries@.len(),
                forall|k: int| 0 <= k < i ==> !(#[trigger] self.entries@[k].0 == *location
                    && self.entries@[k].1 == *time),
            decreases self.entries@.len() - i,
        {
            if self.entries[i].0 == *location && self.entries[i].1.same(time) {
                return Some(i);
            }
            i += 1;
        }
        None
    }

    /// The number of outstanding units of `time` at `location`.
    pub fn count_of(&self, location: &Location, time: &T) -> (r: i64)
        requires
            self.wf(),
        ensures
            r == self.count(*location, *time),
    {
        match self.index_of(location, time) {
            Some(i) => {
                proof {
                    self.lemma_count_at(i as int);
                }
                self.entries[i].2
            },
            None => 0,
        }
    }

    /// Every outstanding (location, timestamp) pair with its count, each once.
    pub fn snapshot(&self) -> (r: Vec<(Location, T, i64)>)
        requires
            self.wf(),
        ensures
            keys_unique(r@),
            forall|i: int| 0 <= i < r@.len() ==> #[trigger] r@[i].2 > 0 && r@[i].2 == self.count(r@[i].0, r@[i].1),
            forall|l: Location, t: T| #[trigger] self.count(l, t) != 0 ==> has_key(r@, l, t),
    {
        let mut r: Vec<(Location, T, i64)> = Vec::new();
        let mut i: usize = 0;
        while i < self.entries.len()
            invariant
                self.wf(),
                0 <= i <= self.entries@.len(),
                r@ =~= self.entries@.take(i as int),
            decreases self.entries@.len() - i,
        {
            r.push(self.entries[i]);
            i += 1;
        }
        proof {
            assert(r@ =~= self.entries@);
            assert forall|k: int| 0 <= k < r@.len() implies #[trigger] r@[k].2 > 0 && r@[k].2 == self.count(r@[k].0, r@[k].1) by {
                self.lemma_count_at(k);
            }
        }
        r
    }

    /// Whether nothing is outstanding anywhere.
    pub fn is_quiescent(&self) -> (r: bool)
        requires
            self.wf(),
        ensures
            r == (forall|l: Location, t: T| #[trigger] self.count(l, t) == 0),
    {
        if self.entries.len() == 0 {
            true
        } else {
            proof {
                self.lemma_count_at(0);
            }
            false
        }
    }
    /// Adds `delta` to the count of `time` at `location`, dropping an entry that reaches zero.
    fn add_at(&mut self, location: Location, time: T, delta: i64)
        requires
            old(self).wf(),
            0 <= old(self).count(location, time) + delta <= i64::MAX,
        ensures
            final(self).wf(),
            final(self).count(location, time) == old(self).count(location, time) + delta,
            forall|l: Location, t: T|
                !(l == location && t == time) ==> #[trigger] final(self).count(l, t) == old(self).count(l, t),
    {
        let ghost prev = self.entries@;
        let ghost before = *self;
        match self.index_of(&location, &time) {
            Some(i) => {
                proof {
                    self.lemma_count_at(i as int);
                }
                let now = self.entries[i].2 + delta;
                if now == 0 {
                    self.entries.remove(i);
                    proof {
                        assert forall|l: Location, t: T|
                            !(l == location && t == time) implies #[trigger] self.count(l, t) == before.count(l, t) by {
                            if has_key(prev, l, t) {
                                let k = choose|k: int| 0 <= k < prev.len() && #[trigger] prev[k].0 == l && prev[k].1 == t;
                                before.lemma_count_at(k);
                                let m = if k < i { k } else { k - 1 };
                                assert(self.entries@[m] == prev[k]);
                                self.lemma_count_at(m);
                            } else {
                                assert(!has_key(self.entries@, l, t)) by {
                                    if has_key(self.entries@, l, t) {
                                        let m = choose|m: int| 0 <= m < self.entries@.len() && #[trigger] self.entries@[m].0 == l && self.entries@[m].1 == t;
                                        let k = if m < i { m } else { m + 1 };
                                        assert(prev[k] == self.entries@[m]);
                                    }
                                }
                            }
                        }
                        assert(!has_key(self.entries@, location, time)) by {
                            if has_key(self.entries@, location, time) {
                                let m = choose|m: int| 0 <= m < self.entries@.len() && #[trigger] self.entries@[m].0 == location && self.entries@[m].1 == time;
                                let k = if m < i { m } else { m + 1 };
                                assert(prev[k] == self.entries@[m]);
                            }
                        }
                    }
                } else {
                    self.entries.set(i, (location, time, now));
                    proof {
                        self.lemma_count_at(i as int);
                        assert forall|l: Location, t: T|
                            !(l == location && t == time) implies #[trigger] self.count(l, t) == before.count(l, t) by {
                            if has_key(prev, l, t) {
                                let k = choose|k: int| 0 <= k < prev.len() && #[trigger] prev[k].0 == l && prev[k].1 == t;
                                before.lemma_count_at(k);
                                self.lemma_count_at(k);
                            } else {
                                assert(!has_key(self.entries@, l, t)) by {
                                    if has_key(self.entries@, l, t) {
                                        let m = choose|m: int| 0 <= m < self.entries@.len() && #[trigger] self.entries@[m].0 == l && self.entries@[m].1 == t;
                                        assert(prev[m] == self.entries@[m]);
                                    }
                                }
                            }
                        }
                    }
                }
            },
            None => {
                if delta != 0 {
                    self.entries.push((location, time, delta));
                    proof {
                        self.lemma_count_at(prev.len() as int);
                        assert forall|l: Location, t: T|
                            !(l == location && t == time) implies #[trigger] self.count(l, t) == before.count(l, t) by {
                            if has_key(prev, l, t) {
                                let k = choose|k: int| 0 <= k < prev.len() && #[trigger] prev[k].0 == l && prev[k].1 == t;
                                before.lemma_count_at(k);
                                self.lemma_count_at(k);
                            } else {
                                assert(!has_key(self.entries@, l, t)) by {
                                    if has_key(self.entries@, l, t) {
                                        let m = choose|m: int| 0 <= m < self.entries@.len() && #[trigger] self.entries@[m].0 == l && self.entries@[m].1 == t;
                                        assert(prev[m] == self.entries@[m]);
                                    }
                                }
                            }
                        }
                    }
                }
            },
        }
    }
    /// Applies every change of `batch` at once, or none of them.
    ///
    /// The batch is refused when some count would end below zero (more work
    /// retired than announced) or above the largest `i64`; the order of the
    /// changes within the batch does not matter.
    pub fn apply_batch(&mut self, batch: &Vec<(Location, T, i64)>) -> (r: Result<(), CountError>)
        requires
            old(self).wf(),
            batch@.len() < MAX_BATCH,
        ensures
            final(self).wf(),
            r is Ok <==> forall|l: Location, t: T|
                0 <= old(self).count(l, t) + #[trigger] batch_sum(batch@, l, t) <= i64::MAX,
            r is Ok ==> forall|l: Location, t: T|
                #[trigger] final(self).count(l, t) == old(self).count(l, t) + batch_sum(batch@, l, t),
            r is Err ==> forall|l: Location, t: T|
                #[trigger] final(self).count(l, t) == old(self).count(l, t),
            r == Err::<(), CountError>(CountError::Negative) ==> exists|l: Location, t: T|
                old(self).count(l, t) + #[trigger] batch_sum(batch@, l, t) < 0,
            r == Err::<(), CountError>(CountError::Overflow) ==> exists|l: Location, t: T|
                old(self).count(l, t) + #[trigger] batch_sum(batch@, l, t) > i64::MAX,
    {
        let net = net_changes(batch);
        let mut i: usize = 0;
        while i < net.len()
            invariant
                self.wf(),
                0 <= i <= net@.len(),
                forall|k: int|
                    0 <= k < i ==> 0 <= self.count(#[trigger] net@[k].0, net@[k].1) + net@[k].2 <= i64::MAX,
                forall|k: int| 0 <= k < net@.len() ==> #[trigger] net@[k].2 as int == batch_sum(batch@, net@[k].0, net@[k].1),
                forall|k: int|
                    0 <= k < net@.len() ==> -(batch@.len() as int) * 0x8000_0000_0000_0000 <= #[trigger] net@[k].2
                        <= (batch@.len() as int) * 0x8000_0000_0000_0000,
                batch@.len() < MAX_BATCH,
            decreases net@.len() - i,
        {
            let e = net[i];
            let c = self.count_of(&e.0, &e.1);
            let v: i128 = c as i128 + e.2;
            if v < 0 {
                return Err(CountError::Negative);
            }
            if v > i64::MAX as i128 {
                return Err(CountError::Overflow);
            }
            i += 1;
        }
        let ghost before = *self;
        proof {
            assert forall|l: Location, t: T|
                0 <= before.count(l, t) + #[trigger] batch_sum(batch@, l, t) <= i64::MAX by {
                before.lemma_count_range(l, t);
                if batch_sum(batch@, l, t) != 0 {
                    let k = choose|k: int| 0 <= k < net@.len() && #[trigger] net@[k].0 == l && net@[k].1 == t;
                }
            }
        }
        let mut i: usize = 0;
        while i < net.len()
            invariant
                self.wf(),
                0 <= i <= net@.len(),
                keys_unique(net@),
                forall|l: Location, t: T|
                    0 <= before.count(l, t) + #[trigger] batch_sum(batch@, l, t) <= i64::MAX,
                forall|k: int| 0 <= k < net@.len() ==> #[trigger] net@[k].2 as int == batch_sum(batch@, net@[k].0, net@[k].1),
                forall|l: Location, t: T|
                    #[trigger] self.count(l, t) == before.count(l, t) + if has_key(net@.take(i as int), l, t) {
                        batch_sum(batch@, l, t)
                    } else {
                        0
                    },
            decreases net@.len() - i,
        {
            let e = net[i];
            proof {
                assert(!has_key(net@.take(i as int), e.0, e.1)) by {
                    if has_key(net@.take(i as int), e.0, e.1) {
                        let k = choose|k: int| 0 <= k < i && #[trigger] net@.take(i as int)[k].0 == e.0 && net@.take(i as int)[k].1 == e.1;
                        assert(net@[k].0 == e.0);
                    }
                }
                assert(0 <= before.count(e.0, e.1) + batch_sum(batch@, e.0, e.1) <= i64::MAX);
            }
            self.add_at(e.0, e.1, e.2 as i64);
            proof {
                assert forall|l: Location, t: T|
                    has_key(net@.take(i + 1), l, t) == (has_key(net@.take(i as int), l, t) || (l == e.0 && t == e.1)) by {
                    if has_key(net@.take(i + 1), l, t) {
                        let k = choose|k: int| 0 <= k < i + 1 && #[trigger] net@.take(i + 1)[k].0 == l && net@.take(i + 1)[k].1 == t;
                        if k < i {
                            assert(net@.take(i as int)[k].0 == l);
                        }
                    }
                    if has_key(net@.take(i as int), l, t) {
                        let k = choose|k: int| 0 <= k < i && #[trigger] net@.take(i as int)[k].0 == l && net@.take(i as int)[k].1 == t;
                        assert(net@.take(i + 1)[k].0 == l);
                    }
                    if l == e.0 && t == e.1 {
                        assert(net@.take(i + 1)[i as int].0 == l);
                    }
                }
            }
            i += 1;
        }
        proof {
            assert(net@.take(net@.len() as int) =~= net@);
        }
        Ok(())
    }
    /// The minimal outstanding timestamps at `location`, each once.
    pub fn frontier(&self, location: &Location) -> (r: Vec<T>)
        requires
            self.wf(),
        ensures
            r@.no_duplicates(),
            forall|t: T| r@.contains(t) <==> self.in_frontier(*location, t),
    {
        let mut r: Vec<T> = Vec::new();
        let n = self.entries.len();
        let mut i: usize = 0;
        while i < n
            invariant
                self.wf(),
                n == self.entries@.len(),
                0 <= i <= n,
                r@.no_duplicates(),
                forall|t: T| r@.contains(t) ==> self.in_frontier(*location, t),
                forall|t: T| #[trigger] r@.contains(t) ==> exists|k: int|
                    0 <= k < i && #[trigger] self.entries@[k].0 == *location && self.entries@[k].1 == t,
                forall|k: int|
                    0 <= k < i && #[trigger] self.entries@[k].0 == *location
                        && self.in_frontier(*location, self.entries@[k].1) ==> r@.contains(self.entries@[k].1),
            decreases n - i,
        {
            let e = self.entries[i];
            let ghost r0 = r@;
            let ghost mut added = false;
            if e.0 == *location {
                let mut minimal = true;
                let mut j: usize = 0;
                while j < n
                    invariant
                        self.wf(),
                        n == self.entries@.len(),
                        0 <= j <= n,
                        i < n,
                        e == self.entries@[i as int],
                        minimal == forall|k: int|
                            0 <= k < j ==> !(#[trigger] self.entries@[k].0 == *location
                                && self.entries@[k].1.le(e.1) && self.entries@[k].1 != e.1),
                    decreases n - j,
                {
                    let f = self.entries[j];
                    if f.0 == *location && f.1.less_equal(&e.1) && !f.1.same(&e.1) {
                        minimal = false;
                    }
                    j += 1;
                }
                proof {
                    self.lemma_count_at(i as int);
                    if minimal {
                        assert forall|s: T| self.count(*location, s) > 0 && #[trigger] s.le(e.1) implies s == e.1 by {
                            if has_key(self.entries@, *location, s) {
                                let k = choose|k: int| 0 <= k < n && #[trigger] self.entries@[k].0 == *location && self.entries@[k].1 == s;
                                assert(!(self.entries@[k].0 == *location && self.entries@[k].1.le(e.1) && self.entries@[k].1 != e.1));
                            }
                        }
                    } else {
                        let k = choose|k: int| 0 <= k < n && (#[trigger] self.entries@[k].0 == *location
                                && self.entries@[k].1.le(e.1) && self.entries@[k].1 != e.1);
                        self.lemma_count_at(k);
                        assert(!self.in_frontier(*location, e.1));
                    }
                }
                if minimal {
                    proof {
                        assert(!r@.contains(e.1)) by {
                            if r@.contains(e.1) {
                                let k = choose|k: int| 0 <= k < i && #[trigger] self.entries@[k].0 == *location && self.entries@[k].1 == e.1;
                                assert(self.entries@[k].0 != self.entries@[i as int].0 || self.entries@[k].1 != self.entries@[i as int].1);
                            }
                        }
                    }
                    r.push(e.1);
                    proof {
                        added = true;
                    }
                }
                assert(self.in_frontier(*location, e.1) ==> added);
            }
            proof {
                assert(added ==> r@ == r0.push(e.1));
                assert(!added ==> r@ == r0);
                assert forall|k: int|
                    0 <= k < i + 1 && #[trigger] self.entries@[k].0 == *location
                        && self.in_frontier(*location, self.entries@[k].1) implies r@.contains(self.entries@[k].1) by {
                    if k < i {
                        assert(r0.contains(self.entries@[k].1));
                        let idx = choose|idx: int| 0 <= idx < r0.len() && r0[idx] == self.entries@[k].1;
                        assert(r@[idx] == self.entries@[k].1);
                    } else {
                        assert(added);
                        assert(r@[r@.len() - 1] == e.1);
                    }
                }
                assert forall|t: T| #[trigger] r@.contains(t) implies exists|k: int|
                    0 <= k < i + 1 && #[trigger] self.entries@[k].0 == *location && self.entries@[k].1 == t by {
                    if !r0.contains(t) {
                        assert(t == e.1 && e.0 == *location);
                        assert(self.entries@[i as int].0 == *location);
                    } else {
                        let k = choose|k: int| 0 <= k < i && #[trigger] self.entries@[k].0 == *location && self.entries@[k].1 == t;
                        assert(self.entries@[k].0 == *location);
                    }
                }
            }
            i += 1;
        }
        proof {
            assert forall|t: T| self.in_frontier(*location, t) implies r@.contains(t) by {
                let k = choose|k: int| 0 <= k < n && #[trigger] self.entries@[k].0 == *location && self.entries@[k].1 == t;
                assert(self.entries@[k].0 == *location);
            }
        }
        r
    }
    /// No two distinct timestamps of a frontier are comparable.
    pub proof fn lemma_frontier_antichain(&self, location: Location, a: T, b: T)
        requires
            self.in_frontier(location, a),
            self.in_frontier(location, b),
            a.le(b),
        ensures
            a == b,
    {
    }

    /// Where nothing is outstanding, every frontier is empty.
    pub proof fn lemma_quiescent_frontier_empty(&self)
        requires
            forall|l: Location, t: T| #[trigger] self.count(l, t) == 0,
        ensures
            forall|l: Location, t: T| !#[trigger] self.in_frontier(l, t),
    {
        assert forall|l: Location, t: T| !#[trigger] self.in_frontier(l, t) by {
            assert(self.count(l, t) == 0);
        }
    }

    /// Two counters with the same counts have the same frontiers.
    pub proof fn lemma_same_counts_same_frontiers(&self, other: &Self)
        requires
            forall|l: Location, t: T| #[trigger] self.count(l, t) == other.count(l, t),
        ensures
            forall|l: Location, t: T| #[trigger] self.in_frontier(l, t) == other.in_frontier(l, t),
    {
        assert forall|l: Location, t: T| #[trigger] self.in_frontier(l, t) == other.in_frontier(l, t) by {
            assert(self.count(l, t) == other.count(l, t));
            assert forall|s: T| self.count(l, s) == other.count(l, s) by {
                assert(self.count(l, s) == other.count(l, s));
            }
        }
    }

    /// A batch followed by its negation: once the batch has been taken, its
    /// negation is always taken too, and it restores every count, so every
    /// frontier, to what it was before the batch.
    pub proof fn lemma_batch_then_negation(
        before: &Self,
        middle: &Self,
        after: &Self,
        batch: Seq<(Location, T, i64)>,
    )
        requires
            before.wf(),
            forall|i: int| 0 <= i < batch.len() ==> #[trigger] batch[i].2 != i64::MIN,
            forall|l: Location, t: T|
                #[trigger] middle.count(l, t) == before.count(l, t) + batch_sum(batch, l, t),
            forall|l: Location, t: T|
                #[trigger] after.count(l, t) == middle.count(l, t) + batch_sum(negated(batch), l, t),
        ensures
            forall|l: Location, t: T|
                0 <= middle.count(l, t) + #[trigger] batch_sum(negated(batch), l, t) <= i64::MAX,
            forall|l: Location, t: T| #[trigger] after.count(l, t) == before.count(l, t),
            forall|l: Location, t: T| #[trigger] after.in_frontier(l, t) == before.in_frontier(l, t),
    {
        lemma_negated_sum(batch);
        assert forall|l: Location, t: T|
            0 <= middle.count(l, t) + #[trigger] batch_sum(negated(batch), l, t) <= i64::MAX by {
            before.lemma_count_range(l, t);
            assert(middle.count(l, t) == before.count(l, t) + batch_sum(batch, l, t));
        }
        assert forall|l: Location, t: T| #[trigger] after.count(l, t) == before.count(l, t) by {
            assert(middle.count(l, t) == before.count(l, t) + batch_sum(batch, l, t));
        }
        after.lemma_same_counts_same_frontiers(before);
    }
}

impl<T: Timestamp> PointstampCounter<T> {
    /// The same batch in two orders: from one counter, both are taken or both
    /// are refused, and where taken they leave the same counts and frontiers.
    pub proof fn lemma_permuted_batches(
        before: &Self,
        after_a: &Self,
        after_b: &Self,
        a: Seq<(Location, T, i64)>,
        b: Seq<(Location, T, i64)>,
    )
        requires
            a.to_multiset() == b.to_multiset(),
            forall|l: Location, t: T|
                #[trigger] after_a.count(l, t) == before.count(l, t) + batch_sum(a, l, t),
            forall|l: Location, t: T|
                #[trigger] after_b.count(l, t) == before.count(l, t) + batch_sum(b, l, t),
        ensures
            (forall|l: Location, t: T| 0 <= before.count(l, t) + #[trigger] batch_sum(a, l, t) <= i64::MAX)
                == (forall|l: Location, t: T| 0 <= before.count(l, t) + #[trigger] batch_sum(b, l, t) <= i64::MAX),
            forall|l: Location, t: T| #[trigger] after_a.count(l, t) == after_b.count(l, t),
            forall|l: Location, t: T| #[trigger] after_a.in_frontier(l, t) == after_b.in_frontier(l, t),
    {
        lemma_batch_order(a, b);
        assert forall|l: Location, t: T| #[trigger] after_a.count(l, t) == after_b.count(l, t) by {
            assert(batch_sum(a, l, t) == batch_sum(b, l, t));
        }
        after_a.lemma_same_counts_same_frontiers(after_b);
        if forall|l: Location, t: T| 0 <= before.count(l, t) + #[trigger] batch_sum(a, l, t) <= i64::MAX {
            assert forall|l: Location, t: T| 0 <= before.count(l, t) + #[trigger] batch_sum(b, l, t) <= i64::MAX by {
                assert(batch_sum(a, l, t) == batch_sum(b, l, t));
            }
        }
        if forall|l: Location, t: T| 0 <= before.count(l, t) + #[trigger] batch_sum(b, l, t) <= i64::MAX {
            assert forall|l: Location, t: T| 0 <= before.count(l, t) + #[trigger] batch_sum(a, l, t) <= i64::MAX by {
                assert(batch_sum(a, l, t) == batch_sum(b, l, t));
            }
        }
    }
}

/// The batch that undoes `batch`: every change with its sign flipped.
pub open spec fn negated<T>(batch: Seq<(Location, T, i64)>) -> Seq<(Location, T, i64)> {
    batch.map_values(|e: (Location, T, i64)| (e.0, e.1, (-e.2) as i64))
}

/// The negation of a batch changes each count by the opposite amount.
pub proof fn lemma_negated_sum<T>(batch: Seq<(Location, T, i64)>)
    requires
        forall|i: int| 0 <= i < batch.len() ==> #[trigger] batch[i].2 != i64::MIN,
    ensures
        forall|l: Location, t: T| #[trigger] batch_sum(negated(batch), l, t) == -batch_sum(batch, l, t),
    decreases batch.len(),
{
    if batch.len() > 0 {
        let rest = batch.drop_last();
        lemma_negated_sum(rest);
        assert(negated(batch).drop_last() =~= negated(rest));
        assert(negated(batch).last() == (batch.last().0, batch.last().1, (-batch.last().2) as i64));
        assert forall|l: Location, t: T| #[trigger] batch_sum(negated(batch), l, t) == -batch_sum(batch, l, t) by {
            assert(batch_sum(negated(rest), l, t) == -batch_sum(rest, l, t));
            assert(batch.last().2 != i64::MIN);
        }
    } else {
        assert(negated(batch).len() == 0);
    }
}

/// The order of the changes in a batch does not matter: batches with the same
/// changes, in any order, change every count by the same amount.
pub proof fn lemma_batch_order<T>(a: Seq<(Location, T, i64)>, b: Seq<(Location, T, i64)>)
    requires
        a.to_multiset() == b.to_multiset(),
    ensures
        forall|l: Location, t: T| #[trigger] batch_sum(a, l, t) == batch_sum(b, l, t),
    decreases a.len(),
{
    broadcast use group_to_multiset_ensures;

    if a.len() == 0 {
        assert(a.to_multiset().len() == a.len());
        assert(b.to_multiset().len() == b.len());
        assert(b =~= a);
    } else {
        let e = a.last();
        let rest = a.drop_last();
        assert(a =~= rest.push(e));
        assert(b.to_multiset().count(e) > 0);
        assert(b.contains(e));
        let j = choose|j: int| 0 <= j < b.len() && b[j] == e;
        let b2 = b.remove(j);
        assert(rest.to_multiset() =~= b2.to_multiset());
        lemma_batch_order(rest, b2);
        lemma_batch_sum_remove(b, j);
        assert forall|l: Location, t: T| #[trigger] batch_sum(a, l, t) == batch_sum(b, l, t) by {
            assert(batch_sum(rest, l, t) == batch_sum(b2, l, t));
            assert(batch_sum(b, l, t) == batch_sum(b2, l, t) + if e.0 == l && e.1 == t {
                e.2 as int
            } else {
                0
            });
        }
    }
}

/// Taking one change out of a batch takes away its share of the sum.
pub proof fn lemma_batch_sum_remove<T>(s: Seq<(Location, T, i64)>, j: int)
    requires
        0 <= j < s.len(),
    ensures
        forall|l: Location, t: T|
            #[trigger] batch_sum(s, l, t) == batch_sum(s.remove(j), l, t) + if s[j].0 == l && s[j].1 == t {
                s[j].2 as int
            } else {
                0
            },
    decreases s.len(),
{
    if j == s.len() - 1 {
        assert(s.remove(j) =~= s.drop_last());
    } else {
        lemma_batch_sum_remove(s.drop_last(), j);
        assert(s.remove(j).drop_last() =~= s.drop_last().remove(j));
        assert(s.remove(j).last() == s.last());
        assert forall|l: Location, t: T|
            #[trigger] batch_sum(s, l, t) == batch_sum(s.remove(j), l, t) + if s[j].0 == l && s[j].1 == t {
                s[j].2 as int
            } else {
                0
            } by {
            assert(batch_sum(s.drop_last(), l, t) == batch_sum(s.drop_last().remove(j), l, t) + if s[j].0 == l && s[j].1 == t {
                s[j].2 as int
            } else {
                0
            });
            assert(s.remove(j).len() > 0);
        }
    }
}

/// The batch that undoes `batch`.
pub fn negate_batch<T: Timestamp>(batch: &Vec<(Location, T, i64)>) -> (r: Vec<(Location, T, i64)>)
    requires
        forall|i: int| 0 <= i < batch@.len() ==> #[trigger] batch@[i].2 != i64::MIN,
    ensures
        r@ == negated(batch@),
{
    let mut r: Vec<(Location, T, i64)> = Vec::new();
    let mut i: usize = 0;
    while i < batch.len()
        invariant
            0 <= i <= batch@.len(),
            forall|k: int| 0 <= k < batch@.len() ==> #[trigger] batch@[k].2 != i64::MIN,
            r@ =~= negated(batch@.take(i as int)),
        decreases batch@.len() - i,
    {
        let e = batch[i];
        r.push((e.0, e.1, -e.2));
        i += 1;
        proof {
            assert(negated(batch@.take(i as int)) =~= negated(batch@.take(i - 1)).push((e.0, e.1, (-e.2) as i64)));
        }
    }
    proof {
        assert(batch@.take(i as int) =~= batch@);
    }
    r
}

/// `out` holds the net change of `batch` for each (location, timestamp) pair
/// that it changes, each pair once, and nothing else.
pub open spec fn consolidated<T>(batch: Seq<(Location, T, i64)>, out: Seq<(Location, T, i64)>) -> bool {
    &&& keys_unique(out)
    &&& forall|i: int|
        0 <= i < out.len() ==> #[trigger] out[i].2 != 0 && out[i].2 as int == batch_sum(batch, out[i].0, out[i].1)
    &&& forall|l: Location, t: T| #[trigger] batch_sum(batch, l, t) != 0 ==> has_key(out, l, t)
}

/// Sums the changes of `batch` per (location, timestamp) pair, dropping pairs
/// whose changes cancel; `None` where some net change does not fit an `i64`.
pub fn consolidate<T: Timestamp>(batch: &Vec<(Location, T, i64)>) -> (r: Option<Vec<(Location, T, i64)>>)
    requires
        batch@.len() < MAX_BATCH,
    ensures
        r is Some <==> forall|l: Location, t: T|
            i64::MIN <= #[trigger] batch_sum(batch@, l, t) <= i64::MAX,
        r matches Some(v) ==> consolidated(batch@, v@),
{
    let net = net_changes(batch);
    let mut out: Vec<(Location, T, i64)> = Vec::new();
    let mut i: usize = 0;
    while i < net.len()
        invariant
            0 <= i <= net@.len(),
            keys_unique(net@),
            forall|k: int| 0 <= k < net@.len() ==> #[trigger] net@[k].2 as int == batch_sum(batch@, net@[k].0, net@[k].1),
            forall|k: int| 0 <= k < i ==> i64::MIN <= #[trigger] net@[k].2 <= i64::MAX,
            keys_unique(out@),
            forall|k: int|
                0 <= k < out@.len() ==> #[trigger] out@[k].2 != 0 && out@[k].2 as int == batch_sum(batch@, out@[k].0, out@[k].1),
            forall|k: int| 0 <= k < out@.len() ==> has_key(net@.take(i as int), #[trigger] out@[k].0, out@[k].1),
            forall|k: int| 0 <= k < i && #[trigger] net@[k].2 != 0 ==> has_key(out@, net@[k].0, net@[k].1),
        decreases net@.len() - i,
    {
        let e = net[i];
        if e.2 < i64::MIN as i128 || e.2 > i64::MAX as i128 {
            return None;
        }
        let ghost prev = out@;
        if e.2 != 0 {
            proof {
                assert forall|k: int| 0 <= k < prev.len() implies !(#[trigger] prev[k].0 == e.0 && prev[k].1 == e.1) by {
                    let m = choose|m: int| 0 <= m < i && #[trigger] net@.take(i as int)[m].0 == prev[k].0 && net@.take(i as int)[m].1 == prev[k].1;
                    assert(net@[m].0 == prev[k].0);
                }
            }
            out.push((e.0, e.1, e.2 as i64));
        }
        proof {
            assert forall|k: int| 0 <= k < out@.len() implies has_key(net@.take(i + 1), #[trigger] out@[k].0, out@[k].1) by {
                if k < prev.len() {
                    let m = choose|m: int| 0 <= m < i && #[trigger] net@.take(i as int)[m].0 == prev[k].0 && net@.take(i as int)[m].1 == prev[k].1;
                    assert(net@.take(i + 1)[m].0 == prev[k].0);
                } else {
                    assert(net@.take(i + 1)[i as int].0 == e.0);
                }
            }
            assert forall|k: int| 0 <= k < i + 1 && #[trigger] net@[k].2 != 0 implies has_key(out@, net@[k].0, net@[k].1) by {
                if k < i {
                    let m = choose|m: int| 0 <= m < prev.len() && #[trigger] prev[m].0 == net@[k].0 && prev[m].1 == net@[k].1;
                    assert(out@[m].0 == net@[k].0);
                } else {
                    assert(out@[prev.len() as int].0 == e.0);
                }
            }
        }
        i += 1;
    }
    proof {
        assert forall|l: Location, t: T| #[trigger] batch_sum(batch@, l, t) != 0 implies has_key(out@, l, t) by {
            let k = choose|k: int| 0 <= k < net@.len() && #[trigger] net@[k].0 == l && net@[k].1 == t;
            assert(net@[k].2 != 0);
        }
        assert forall|l: Location, t: T| i64::MIN <= #[trigger] batch_sum(batch@, l, t) <= i64::MAX by {
            if batch_sum(batch@, l, t) != 0 {
                let k = choose|k: int| 0 <= k < net@.len() && #[trigger] net@[k].0 == l && net@[k].1 == t;
                assert(i64::MIN <= net@[k].2 <= i64::MAX);
            }
        }
    }
    Some(out)
}

/// `batch` with every timestamp taken to another clock by `f`.
pub open spec fn retimed<A, B>(batch: Seq<(Location, A, i64)>, f: spec_fn(A) -> B) -> Seq<(Location, B, i64)> {
    batch.map_values(|e: (Location, A, i64)| (e.0, f(e.1), e.2))
}

/// Taking the timestamps of a batch to another clock (entering or leaving a
/// scope) commutes with negation, and two orders of one batch, once taken
/// across, still change every count by the same amount.
pub proof fn lemma_retimed_batches<A, B>(a: Seq<(Location, A, i64)>, b: Seq<(Location, A, i64)>, f: spec_fn(A) -> B)
    requires
        a.to_multiset() == b.to_multiset(),
    ensures
        retimed(negated(a), f) == negated(retimed(a, f)),
        forall|l: Location, t: B| #[trigger] batch_sum(retimed(a, f), l, t) == batch_sum(retimed(b, f), l, t),
    decreases a.len(),
{
    broadcast use group_to_multiset_ensures;

    assert(retimed(negated(a), f) =~= negated(retimed(a, f)));
    if a.len() == 0 {
        assert(a.to_multiset().len() == a.len());
        assert(b.to_multiset().len() == b.len());
        assert(b =~= a);
    } else {
        let e = a.last();
        let rest = a.drop_last();
        assert(a =~= rest.push(e));
        assert(b.to_multiset().count(e) > 0);
        assert(b.contains(e));
        let j = choose|j: int| 0 <= j < b.len() && b[j] == e;
        let b2 = b.remove(j);
        assert(rest.to_multiset() =~= b2.to_multiset());
        lemma_retimed_batches(rest, b2, f);
        let ra = retimed(a, f);
        let rb = retimed(b, f);
        assert(ra.drop_last() =~= retimed(rest, f));
        assert(rb.remove(j) =~= retimed(b2, f));
        lemma_batch_sum_remove(rb, j);
        assert forall|l: Location, t: B| #[trigger] batch_sum(ra, l, t) == batch_sum(rb, l, t) by {
            assert(batch_sum(retimed(rest, f), l, t) == batch_sum(retimed(b2, f), l, t));
            assert(ra.last() == rb[j]);
        }
    }
}

/// A batch taken to another clock (entering or leaving a scope) cancels with
/// its negation taken across at every (location, timestamp), and any
/// reordering of the batch, taken across, makes the same net changes.
pub proof fn lemma_retimed_algebra<A, B>(
    batch: Seq<(Location, A, i64)>,
    reordered: Seq<(Location, A, i64)>,
    f: spec_fn(A) -> B,
)
    requires
        forall|i: int| 0 <= i < batch.len() ==> #[trigger] batch[i].2 != i64::MIN,
        batch.to_multiset() == reordered.to_multiset(),
    ensures
        forall|l: Location, t: B|
            #[trigger] batch_sum(retimed(batch, f), l, t) + batch_sum(retimed(negated(batch), f), l, t) == 0,
        forall|l: Location, t: B| #[trigger] batch_sum(retimed(batch, f), l, t) == batch_sum(retimed(reordered, f), l, t),
{
    lemma_retimed_batches(batch, reordered, f);
    let r = retimed(batch, f);
    assert forall|i: int| 0 <= i < r.len() implies #[trigger] r[i].2 != i64::MIN by {
        assert(r[i].2 == batch[i].2);
    }
    lemma_negated_sum(r);
}

} // verus!
