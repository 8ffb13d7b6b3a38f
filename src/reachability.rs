//! Path summaries between the locations of a scope's graph, and the
//! propagation of pointstamp changes along them.

use vstd::prelude::*;

use crate::location::Location;
use crate::pointstamp_counter::{batch_sum, consolidate, consolidated, MAX_BATCH};
use crate::timestamp::{PartialOrder, PathSummary, Timestamp};

verus! {

/// Where following the edges `path` (indices into `edges`) from `from` leads,
/// and the summary of that walk; `None` where they do not form a walk from
/// `from` or the walk cannot be summarized.
pub open spec fn walk<T: Timestamp>(
    edges: Seq<(Location, Location, T::Summary)>,
    from: Location,
    path: Seq<int>,
) -> Option<(Location, T::Summary)>
    decreases path.len(),
{
    if path.len() == 0 {
        None
    } else if path.len() == 1 {
        let i = path[0];
        if 0 <= i < edges.len() && edges[i].0 == from {
            Some((edges[i].1, edges[i].2))
        } else {
            None
        }
    } else {
        match walk::<T>(edges, from, path.drop_last()) {
            Some((at, p)) => {
                let i = path.last();
                if 0 <= i < edges.len() && edges[i].0 == at {
                    match p.compose(edges[i].2) {
                        Some(s) => Some((edges[i].1, s)),
                        None => None,
                    }
                } else {
                    None
                }
            },
            None => None,
        }
    }
}

/// `s` summarizes some path of `edges` from `from` to `to`.
pub open spec fn on_path<T: Timestamp>(
    edges: Seq<(Location, Location, T::Summary)>,
    from: Location,
    to: Location,
    s: T::Summary,
) -> bool {
    exists|path: Seq<int>| #[trigger] walk::<T>(edges, from, path) == Some((to, s))
}

/// Some entry of `closure` leads from `from` to `to` with a summary no greater than `s`.
pub open spec fn dominated<T: Timestamp>(
    closure: Seq<(Location, Location, T::Summary)>,
    from: Location,
    to: Location,
    s: T::Summary,
) -> bool {
    exists|m: int|
        0 <= m < closure.len() && #[trigger] closure[m].0 == from && closure[m].1 == to
            && closure[m].2.le(s)
}

/// Extending any of the first `upto` entries of `closure` by any edge gives
/// nothing that an entry of `closure` does not already dominate.
pub open spec fn checked<T: Timestamp>(
    edges: Seq<(Location, Location, T::Summary)>,
    closure: Seq<(Location, Location, T::Summary)>,
    upto: int,
) -> bool {
    forall|k: int, i: int|
        0 <= k < upto && 0 <= i < edges.len() && #[trigger] closure[k].1 == #[trigger] edges[i].0
            ==> match closure[k].2.compose(edges[i].2) {
            Some(r) => dominated::<T>(closure, closure[k].0, edges[i].1, r),
            None => true,
        }
}

/// Extending any entry of `closure` by any edge gives nothing that an entry
/// of `closure` does not already dominate.
pub open spec fn closed<T: Timestamp>(
    edges: Seq<(Location, Location, T::Summary)>,
    closure: Seq<(Location, Location, T::Summary)>,
) -> bool {
    checked::<T>(edges, closure, closure.len() as int)
}

/// Every entry of `a` is an entry of `b`.
pub open spec fn covers<X>(a: Seq<X>, b: Seq<X>) -> bool {
    forall|i: int| 0 <= i < a.len() ==> b.contains(#[trigger] a[i])
}

/// `a` is the start of `b`.
pub open spec fn prefix_of<X>(a: Seq<X>, b: Seq<X>) -> bool {
    a.len() <= b.len() && forall|m: int| 0 <= m < a.len() ==> #[trigger] b[m] == a[m]
}

proof fn lemma_prefix_covers<X>(a: Seq<X>, b: Seq<X>)
    requires
        prefix_of(a, b),
    ensures
        covers(a, b),
{
    assert forall|i: int| 0 <= i < a.len() implies b.contains(#[trigger] a[i]) by {
        assert(b[i] == a[i]);
    }
}

/// Every entry of `closure` summarizes a path of `edges`.
pub open spec fn sound<T: Timestamp>(
    edges: Seq<(Location, Location, T::Summary)>,
    closure: Seq<(Location, Location, T::Summary)>,
) -> bool {
    forall|k: int| 0 <= k < closure.len() ==> on_path::<T>(edges, #[trigger] closure[k].0, closure[k].1, closure[k].2)
}

proof fn lemma_extend<T: Timestamp>(
    edges: Seq<(Location, Location, T::Summary)>,
    from: Location,
    i: int,
    to: Location,
    p: T::Summary,
    s: T::Summary,
)
    requires
        on_path::<T>(edges, from, to, p),
        0 <= i < edges.len(),
        edges[i].0 == to,
        p.compose(edges[i].2) == Some(s),
    ensures
        on_path::<T>(edges, from, edges[i].1, s),
{
    let path = choose|path: Seq<int>| #[trigger] walk::<T>(edges, from, path) == Some((to, p));
    assert(path.push(i).drop_last() =~= path);
    assert(walk::<T>(edges, from, path.push(i)) == Some((edges[i].1, s)));
}

proof fn lemma_walk_grow<T: Timestamp>(
    e1: Seq<(Location, Location, T::Summary)>,
    e2: Seq<(Location, Location, T::Summary)>,
    from: Location,
    path: Seq<int>,
)
    requires
        prefix_of(e1, e2),
        walk::<T>(e1, from, path) is Some,
    ensures
        walk::<T>(e2, from, path) == walk::<T>(e1, from, path),
    decreases path.len(),
{
    if path.len() > 1 {
        lemma_walk_grow::<T>(e1, e2, from, path.drop_last());
        assert(e2[path.last()] == e1[path.last()]);
    } else {
        assert(e2[path[0]] == e1[path[0]]);
    }
}

proof fn lemma_sound_grow<T: Timestamp>(
    e1: Seq<(Location, Location, T::Summary)>,
    e2: Seq<(Location, Location, T::Summary)>,
    closure: Seq<(Location, Location, T::Summary)>,
)
    requires
        prefix_of(e1, e2),
        sound::<T>(e1, closure),
    ensures
        sound::<T>(e2, closure),
{
    assert forall|k: int| 0 <= k < closure.len() implies on_path::<T>(e2, #[trigger] closure[k].0, closure[k].1, closure[k].2) by {
        let c = closure[k];
        assert(on_path::<T>(e1, c.0, c.1, c.2));
        let path = choose|path: Seq<int>| #[trigger] walk::<T>(e1, c.0, path) == Some((c.1, c.2));
        lemma_walk_grow::<T>(e1, e2, c.0, path);
    }
}

proof fn lemma_checked_grow<T: Timestamp>(
    e1: Seq<(Location, Location, T::Summary)>,
    e2: Seq<(Location, Location, T::Summary)>,
    c1: Seq<(Location, Location, T::Summary)>,
    c2: Seq<(Location, Location, T::Summary)>,
    upto: int,
)
    requires
        e1 == e2.take(e1.len() as int),
        e1.len() <= e2.len(),
        prefix_of(c1, c2),
        0 <= upto <= c1.len(),
        checked::<T>(e1, c1, upto),
        forall|k: int, i: int|
            0 <= k < upto && e1.len() <= i < e2.len() && #[trigger] c2[k].1 == #[trigger] e2[i].0
                ==> match c2[k].2.compose(e2[i].2) {
                Some(r) => dominated::<T>(c2, c2[k].0, e2[i].1, r),
                None => true,
            },
    ensures
        checked::<T>(e2, c2, upto),
{
    assert forall|k: int, i: int|
        0 <= k < upto && 0 <= i < e2.len() && #[trigger] c2[k].1 == #[trigger] e2[i].0 implies match c2[k].2.compose(e2[i].2) {
            Some(r) => dominated::<T>(c2, c2[k].0, e2[i].1, r),
            None => true,
        } by {
        if i < e1.len() {
            assert(c2[k] == c1[k]);
            assert(e2[i] == e1[i]);
            if let Some(r) = c1[k].2.compose(e1[i].2) {
                assert(c1[k].1 == e1[i].0);
                assert(dominated::<T>(c1, c1[k].0, e1[i].1, r));
                let m = choose|m: int|
                    0 <= m < c1.len() && #[trigger] c1[m].0 == c1[k].0 && c1[m].1 == e1[i].1 && c1[m].2.le(r);
                assert(c2[m] == c1[m]);
            }
        }
    }
}

/// Extends `closure` by the edges until every entry from `start` on has been
/// extended by every edge, or `budget` entries have been; true where it got
/// through them all, and so left `closure` closed.
fn close_from<T: Timestamp>(
    edges: &Vec<(Location, Location, T::Summary)>,
    closure: &mut Vec<(Location, Location, T::Summary)>,
    start: usize,
    budget: usize,
) -> (r: bool)
    requires
        sound::<T>(edges@, old(closure)@),
        start <= old(closure)@.len(),
        checked::<T>(edges@, old(closure)@, start as int),
    ensures
        sound::<T>(edges@, final(closure)@),
        prefix_of(old(closure)@, final(closure)@),
        r ==> closed::<T>(edges@, final(closure)@),
        r || final(closure)@.len() >= start + budget,
{
    let ghost initial = closure@;
    let n = edges.len();
    let mut k: usize = start;
    let mut spent: usize = 0;
    while k < closure.len() && spent < budget
        invariant
            n == edges@.len(),
            sound::<T>(edges@, closure@),
            start <= k <= closure@.len(),
            checked::<T>(edges@, closure@, k as int),
            prefix_of(initial, closure@),
            k - start == spent <= budget,
        decreases budget - spent,
    {
        let mut j: usize = 0;
        while j < n
            invariant
                n == edges@.len(),
                sound::<T>(edges@, closure@),
                start <= k < closure@.len(),
                0 <= j <= n,
                checked::<T>(edges@, closure@, k as int),
                prefix_of(initial, closure@),
                forall|b: int|
                    0 <= b < j && closure@[k as int].1 == #[trigger] edges@[b].0 ==> match closure@[k as int].2.compose(edges@[b].2) {
                        Some(r) => dominated::<T>(closure@, closure@[k as int].0, edges@[b].1, r),
                        None => true,
                    },
            decreases n - j,
        {
            let c = closure[k];
            let e = edges[j];
            if c.1 == e.0 {
                match c.2.followed_by(&e.2) {
                    Some(r) => {
                        if !find_dominating::<T>(closure, &c.0, &e.1, &r) {
                            let ghost before = closure@;
                            proof {
                                assert(edges@[j as int] == e);
                                lemma_extend::<T>(edges@, c.0, j as int, c.1, c.2, r);
                            }
                            closure.push((c.0, e.1, r));
                            proof {
                                assert(prefix_of(before, closure@));
                                assert(edges@.take(edges@.len() as int) =~= edges@);
                                lemma_checked_grow::<T>(edges@, edges@, before, closure@, k as int);
                                assert(closure@[before.len() as int] == (c.0, e.1, r));
                                assert forall|b: int|
                                    0 <= b < j + 1 && closure@[k as int].1 == #[trigger] edges@[b].0 implies match closure@[k as int].2.compose(edges@[b].2) {
                                        Some(r) => dominated::<T>(closure@, closure@[k as int].0, edges@[b].1, r),
                                        None => true,
                                    } by {
                                    assert(closure@[k as int] == before[k as int]);
                                    if b < j {
                                        if let Some(x) = before[k as int].2.compose(edges@[b].2) {
                                            let m = choose|m: int|
                                                0 <= m < before.len() && #[trigger] before[m].0 == before[k as int].0 && before[m].1 == edges@[b].1 && before[m].2.le(x);
                                            assert(closure@[m] == before[m]);
                                        }
                                    } else {
                                        T::Summary::lemma_reflexive(r);
                                        let m = before.len() as int;
                                        assert(closure@[m].0 == c.0 && closure@[m].1 == e.1 && closure@[m].2.le(r));
                                    }
                                }
                            }
                        }
                    },
                    None => {},
                }
            }
            j += 1;
        }
        k += 1;
        spent += 1;
    }
    k >= closure.len()
}

/// Whether entry `k` of `closure` is minimal between its two locations.
fn is_minimal<T: Timestamp>(closure: &Vec<(Location, Location, T::Summary)>, k: usize) -> (r: bool)
    requires
        k < closure@.len(),
    ensures
        r == minimal_entry::<T>(closure@, k as int),
{
    let c = closure[k];
    let mut m: usize = 0;
    while m < closure.len()
        invariant
            0 <= m <= closure@.len(),
            k < closure@.len(),
            c == closure@[k as int],
            forall|j: int|
                0 <= j < m && #[trigger] closure@[j].0 == c.0 && closure@[j].1 == c.1 && closure@[j].2.le(c.2)
                    ==> j >= k && closure@[j].2 == c.2,
        decreases closure@.len() - m,
    {
        let x = closure[m];
        if x.0 == c.0 && x.1 == c.1 && x.2.less_equal(&c.2) && !(m >= k && x.2.same(&c.2)) {
            return false;
        }
        m += 1;
    }
    true
}

/// Whether some entry of `closure` dominates `s` from `from` to `to`.
fn find_dominating<T: Timestamp>(
    closure: &Vec<(Location, Location, T::Summary)>,
    from: &Location,
    to: &Location,
    s: &T::Summary,
) -> (r: bool)
    ensures
        r == dominated::<T>(closure@, *from, *to, *s),
{
    let mut m: usize = 0;
    while m < closure.len()
        invariant
            0 <= m <= closure@.len(),
            forall|j: int| 0 <= j < m ==> !(#[trigger] closure@[j].0 == *from && closure@[j].1 == *to && closure@[j].2.le(*s)),
        decreases closure@.len() - m,
    {
        let c = closure[m];
        if c.0 == *from && c.1 == *to && c.2.less_equal(s) {
            return true;
        }
        m += 1;
    }
    false
}

/// Entry `k` of `closure` is the one used between its two locations: no
/// entry between them has a smaller summary, nor the same summary earlier.
pub open spec fn minimal_entry<T: Timestamp>(closure: Seq<(Location, Location, T::Summary)>, k: int) -> bool {
    forall|m: int|
        0 <= m < closure.len() && #[trigger] closure[m].0 == closure[k].0 && closure[m].1 == closure[k].1
            && closure[m].2.le(closure[k].2) ==> m >= k && closure[m].2 == closure[k].2
}

/// The changes that one change `(location, time, delta)` implies through the
/// first `n` entries of `closure`: for each minimal summary leaving `location`
/// that can carry `time`, the same delta at its end, at the time it carries
/// `time` to.
pub open spec fn implied_by<T: Timestamp>(
    closure: Seq<(Location, Location, T::Summary)>,
    n: nat,
    location: Location,
    time: T,
    delta: i64,
) -> Seq<(Location, T, i64)>
    decreases n,
{
    if n == 0 {
        seq![]
    } else {
        let k = n - 1;
        let c = closure[k];
        implied_by::<T>(closure, (n - 1) as nat, location, time, delta) + if c.0 == location && minimal_entry::<T>(closure, k) {
            match c.2.apply(time) {
                Some(r) => seq![(c.1, r, delta)],
                None => seq![],
            }
        } else {
            seq![]
        }
    }
}

/// The changes that `changes` imply through the summaries of `closure`, in order.
pub open spec fn implied<T: Timestamp>(
    closure: Seq<(Location, Location, T::Summary)>,
    changes: Seq<(Location, T, i64)>,
) -> Seq<(Location, T, i64)>
    decreases changes.len(),
{
    if changes.len() == 0 {
        seq![]
    } else {
        let e = changes.last();
        implied::<T>(closure, changes.drop_last()) + implied_by::<T>(closure, closure.len(), e.0, e.1, e.2)
    }
}

/// The most summaries that one computation of the closure extends.
pub const EXTENSION_BUDGET: usize = 1_000_000;

/// The summaries of the paths between the locations of one scope's graph.
///
/// The closure is computed by relaxation over a list of known summaries:
/// each in turn is extended by every edge, and the result is kept unless a
/// known summary between the same locations is no greater. A summary that
/// goes round a cycle which advances timestamps comes to be dominated by the
/// one that does not, so the list runs out; in any case at most
/// `EXTENSION_BUDGET` summaries are extended, and a closure cut short there
/// stays sound but is not reported stable. Adding an edge to a stable closure
/// extends only what the new edge and the summaries it creates touch.
/// A summary that a later, smaller one dominates stays in the list, but
/// propagation uses only the minimal summary between two locations.
pub struct Tracker<T: Timestamp> {
    edges: Vec<(Location, Location, T::Summary)>,
    closure: Vec<(Location, Location, T::Summary)>,
    stable: bool,
}

impl<T: Timestamp> Tracker<T> {
    /// The edges of the graph, each with the summary of its own path.
    pub closed spec fn edges(&self) -> Seq<(Location, Location, T::Summary)> {
        self.edges@
    }

    /// The path summaries found between locations.
    pub closed spec fn summaries(&self) -> Seq<(Location, Location, T::Summary)> {
        self.closure@
    }

    /// Whether relaxation ran to its end.
    pub closed spec fn stable_spec(&self) -> bool {
        self.stable
    }

    /// Every summary is that of a path; every edge is a summary; a stable
    /// closure cannot be extended.
    pub open spec fn wf(&self) -> bool {
        &&& sound::<T>(self.edges(), self.summaries())
        &&& covers(self.edges(), self.summaries())
        &&& self.stable_spec() ==> closed::<T>(self.edges(), self.summaries())
    }

    /// Builds the path summaries of the graph with these edges; relaxation
    /// runs to its end unless the summaries reach `EXTENSION_BUDGET`.
    pub fn new(edges: Vec<(Location, Location, T::Summary)>) -> (r: Self)
        ensures
            r.wf(),
            r.edges() == edges@,
            r.stable_spec() || r.summaries().len() >= EXTENSION_BUDGET,
    {
        Self::with_budget(edges, EXTENSION_BUDGET)
    }

    /// Builds the path summaries of the graph with these edges, extending at
    /// most `budget` summaries; relaxation runs to its end unless the
    /// summaries reach `budget`.
    pub fn with_budget(edges: Vec<(Location, Location, T::Summary)>, budget: usize) -> (r: Self)
        ensures
            r.wf(),
            r.edges() == edges@,
            r.stable_spec() || r.summaries().len() >= budget,
    {
        let n = edges.len();
        let mut closure: Vec<(Location, Location, T::Summary)> = Vec::new();
        let mut i: usize = 0;
        while i < n
            invariant
                n == edges@.len(),
                0 <= i <= n,
                closure@ =~= edges@.take(i as int),
            decreases n - i,
        {
            closure.push(edges[i]);
            i += 1;
        }
        proof {
            assert(closure@ =~= edges@);
            assert forall|k: int| 0 <= k < closure@.len() implies on_path::<T>(edges@, #[trigger] closure@[k].0, closure@[k].1, closure@[k].2) by {
                assert(walk::<T>(edges@, closure@[k].0, seq![k]) == Some((closure@[k].1, closure@[k].2)));
            }
        }
        let ghost initial = closure@;
        let stable = close_from::<T>(&edges, &mut closure, 0, budget);
        proof {
            lemma_prefix_covers(initial, closure@);
        }
        let r = Tracker { edges, closure, stable };
        proof {
            assert(sound::<T>(r.edges(), r.summaries()));
            assert(r.stable_spec() ==> closed::<T>(r.edges(), r.summaries()));
            assert(r.edges() == edges@ && r.summaries() == closure@);
        }
        r
    }

    /// Adds an edge, extending the summaries found so far; where they were
    /// closed, only the new edge and the summaries it creates are extended.
    pub fn add_edge(&mut self, from: Location, to: Location, summary: T::Summary)
        requires
            old(self).wf(),
        ensures
            final(self).wf(),
            final(self).edges() == old(self).edges().push((from, to, summary)),
            final(self).stable_spec() || final(self).summaries().len() >= EXTENSION_BUDGET,
    {
        let ghost e0 = self.edges@;
        let ghost c0 = self.closure@;
        let n0 = self.edges.len();
        self.edges.push((from, to, summary));
        let len0 = self.closure.len();
        proof {
            assert(prefix_of(e0, self.edges@));
            lemma_sound_grow::<T>(e0, self.edges@, c0);
            assert(walk::<T>(self.edges@, from, seq![n0 as int]) == Some((to, summary)));
        }
        self.closure.push((from, to, summary));
        proof {
            assert(prefix_of(c0, self.closure@));
        }
        let mut start: usize = 0;
        if self.stable {
            let mut k: usize = 0;
            while k < len0
                invariant
                    n0 + 1 == self.edges@.len(),
                    self.edges@ == e0.push((from, to, summary)),
                    len0 == c0.len(),
                    0 <= k <= len0,
                    sound::<T>(self.edges@, self.closure@),
                    prefix_of(c0, self.closure@),
                    len0 < self.closure@.len(),
                    self.closure@[len0 as int] == (from, to, summary),
                    checked::<T>(e0, c0, len0 as int),
                    forall|a: int, i: int|
                        0 <= a < k && n0 <= i < self.edges@.len() && #[trigger] self.closure@[a].1 == #[trigger] self.edges@[i].0
                            ==> match self.closure@[a].2.compose(self.edges@[i].2) {
                            Some(r) => dominated::<T>(self.closure@, self.closure@[a].0, self.edges@[i].1, r),
                            None => true,
                        },
                decreases len0 - k,
            {
                let c = self.closure[k];
                if c.1 == from {
                    match c.2.followed_by(&summary) {
                        Some(r) => {
                            if !find_dominating::<T>(&self.closure, &c.0, &to, &r) {
                                let ghost before = self.closure@;
                                proof {
                                    assert(self.edges@[n0 as int] == (from, to, summary));
                                    lemma_extend::<T>(self.edges@, c.0, n0 as int, c.1, c.2, r);
                                }
                                self.closure.push((c.0, to, r));
                                proof {
                                    assert(self.closure@[len0 as int] == before[len0 as int]);
                                    assert forall|a: int, i: int|
                                        0 <= a < k + 1 && n0 <= i < self.edges@.len() && #[trigger] self.closure@[a].1 == #[trigger] self.edges@[i].0
                                            implies match self.closure@[a].2.compose(self.edges@[i].2) {
                                            Some(r) => dominated::<T>(self.closure@, self.closure@[a].0, self.edges@[i].1, r),
                                            None => true,
                                        } by {
                                        assert(self.closure@[a] == before[a]);
                                        if a < k {
                                            if let Some(x) = before[a].2.compose(self.edges@[i].2) {
                                                let m = choose|m: int|
                                                    0 <= m < before.len() && #[trigger] before[m].0 == before[a].0 && before[m].1 == self.edges@[i].1 && before[m].2.le(x);
                                                assert(self.closure@[m] == before[m]);
                                            }
                                        } else {
                                            T::Summary::lemma_reflexive(r);
                                            let m = before.len() as int;
                                            assert(self.closure@[m].0 == c.0 && self.closure@[m].1 == to && self.closure@[m].2.le(r));
                                        }
                                    }
                                }
                            }
                        },
                        None => {},
                    }
                }
                k += 1;
            }
            proof {
                assert(e0 =~= self.edges@.take(e0.len() as int));
                lemma_checked_grow::<T>(e0, self.edges@, c0, self.closure@, len0 as int);
            }
            start = len0;
        }
        let ghost c1 = self.closure@;
        self.stable = close_from::<T>(&self.edges, &mut self.closure, start, EXTENSION_BUDGET);
        proof {
            assert forall|i: int| 0 <= i < self.edges@.len() implies self.closure@.contains(#[trigger] self.edges@[i]) by {
                if i < n0 {
                    assert(e0[i] == self.edges@[i]);
                    assert(c0.contains(e0[i]));
                    let k = choose|k: int| 0 <= k < c0.len() && c0[k] == e0[i];
                    assert(c1[k] == c0[k]);
                    assert(self.closure@[k] == c1[k]);
                } else {
                    assert(c1[len0 as int] == (from, to, summary));
                    assert(self.closure@[len0 as int] == c1[len0 as int]);
                }
            }
        }
    }

    /// Whether relaxation reached a closure that no edge extends.
    pub fn is_stable(&self) -> (r: bool)
        ensures
            r == self.stable_spec(),
    {
        self.stable
    }
    /// Each change, carried along every summary leaving its location.
    pub fn implications(&self, changes: &Vec<(Location, T, i64)>) -> (r: Vec<(Location, T, i64)>)
        ensures
            r@ == implied::<T>(self.summaries(), changes@),
    {
        let mut out: Vec<(Location, T, i64)> = Vec::new();
        let mut i: usize = 0;
        while i < changes.len()
            invariant
                0 <= i <= changes@.len(),
                out@ == implied::<T>(self.closure@, changes@.take(i as int)),
            decreases changes@.len() - i,
        {
            let e = changes[i];
            let ghost base = out@;
            let mut k: usize = 0;
            while k < self.closure.len()
                invariant
                    0 <= k <= self.closure@.len(),
                    out@ == base + implied_by::<T>(self.closure@, k as nat, e.0, e.1, e.2),
                decreases self.closure@.len() - k,
            {
                let c = self.closure[k];
                if c.0 == e.0 && is_minimal::<T>(&self.closure, k) {
                    match c.2.results_in(&e.1) {
                        Some(r) => {
                            out.push((c.1, r, e.2));
                        },
                        None => {},
                    }
                }
                proof {
                    assert(out@ =~= base + implied_by::<T>(self.closure@, (k + 1) as nat, e.0, e.1, e.2));
                }
                k += 1;
            }
            proof {
                assert(changes@.take(i + 1).drop_last() =~= changes@.take(i as int));
                assert(changes@.take(i + 1).last() == e);
            }
            i += 1;
        }
        proof {
            assert(changes@.take(i as int) =~= changes@);
        }
        out
    }

    /// The net changes that `changes` imply at every location reachable from
    /// theirs, summed per (location, timestamp) with cancelling pairs dropped;
    /// `None` where a net change does not fit an `i64`, or there are
    /// `MAX_BATCH` implications or more.
    pub fn propagate(&self, changes: &Vec<(Location, T, i64)>) -> (r: Option<Vec<(Location, T, i64)>>)
        ensures
            r is Some <==> implied::<T>(self.summaries(), changes@).len() < MAX_BATCH && forall|l: Location, t: T|
                i64::MIN <= #[trigger] batch_sum(implied::<T>(self.summaries(), changes@), l, t) <= i64::MAX,
            r matches Some(v) ==> consolidated(implied::<T>(self.summaries(), changes@), v@),
    {
        let all = self.implications(changes);
        if all.len() as u64 >= MAX_BATCH {
            return None;
        }
        consolidate(&all)
    }
}

proof fn lemma_single_edge_walk<T: Timestamp>(
    edges: Seq<(Location, Location, T::Summary)>,
    from: Location,
    path: Seq<int>,
)
    requires
        edges.len() == 1,
        edges[0].0 != edges[0].1,
        walk::<T>(edges, from, path) is Some,
    ensures
        path.len() == 1,
        from == edges[0].0,
        walk::<T>(edges, from, path) == Some((edges[0].1, edges[0].2)),
    decreases path.len(),
{
    if path.len() > 1 {
        lemma_single_edge_walk::<T>(edges, from, path.drop_last());
        assert(path.drop_last().len() == 1);
    }
}

proof fn lemma_implied_by_single<T: Timestamp>(
    closure: Seq<(Location, Location, T::Summary)>,
    n: nat,
    a: Location,
    b: Location,
    t: T,
    d: i64,
)
    requires
        n <= closure.len(),
        forall|k: int| 0 <= k < closure.len() ==> #[trigger] closure[k] == (a, b, T::Summary::identity_spec()),
    ensures
        implied_by::<T>(closure, n, a, t, d) =~= if n == 0 {
            Seq::<(Location, T, i64)>::empty()
        } else {
            seq![(b, t, d)]
        },
    decreases n,
{
    if n > 0 {
        lemma_implied_by_single::<T>(closure, (n - 1) as nat, a, b, t, d);
        let k = n - 1;
        T::Summary::lemma_identity(t);
        T::Summary::lemma_reflexive(T::Summary::identity_spec());
        assert(closure[k] == (a, b, T::Summary::identity_spec()));
        if k == 0 {
            assert forall|m: int|
                0 <= m < closure.len() && #[trigger] closure[m].0 == closure[k].0 && closure[m].1 == closure[k].1
                    && closure[m].2.le(closure[k].2) implies m >= k && closure[m].2 == closure[k].2 by {
                assert(closure[m] == (a, b, T::Summary::identity_spec()));
            }
            assert(minimal_entry::<T>(closure, k));
        } else {
            assert(closure[0] == (a, b, T::Summary::identity_spec()));
            assert(closure[0].0 == closure[k].0);
            assert(!minimal_entry::<T>(closure, k));
        }
    }
}

/// In a graph whose one edge leads from `a` to another location `b` with the
/// summary of the empty path, a change at `a` implies that same change at `b`,
/// at the same timestamp, once, and nothing else.
pub proof fn lemma_direct_edge<T: Timestamp>(tracker: &Tracker<T>, a: Location, b: Location, t: T, d: i64)
    requires
        tracker.wf(),
        a != b,
        tracker.edges() == seq![(a, b, T::Summary::identity_spec())],
    ensures
        implied::<T>(tracker.summaries(), seq![(a, t, d)]) == seq![(b, t, d)],
{
    let edges = tracker.edges();
    let closure = tracker.summaries();
    assert forall|k: int| 0 <= k < closure.len() implies #[trigger] closure[k] == (a, b, T::Summary::identity_spec()) by {
        let c = closure[k];
        assert(on_path::<T>(edges, c.0, c.1, c.2));
        let path = choose|path: Seq<int>| #[trigger] walk::<T>(edges, c.0, path) == Some((c.1, c.2));
        lemma_single_edge_walk::<T>(edges, c.0, path);
    }
    assert(closure.contains(edges[0]));
    lemma_implied_by_single::<T>(closure, closure.len(), a, b, t, d);
    let changes = seq![(a, t, d)];
    assert(changes.drop_last() =~= Seq::<(Location, T, i64)>::empty());
    assert(implied::<T>(closure, changes.drop_last()) =~= Seq::<(Location, T, i64)>::empty());
    assert(changes.last() == (a, t, d));
    assert(implied::<T>(closure, changes) =~= implied_by::<T>(closure, closure.len(), a, t, d));
}

/// A stable closure is complete: for every walk through the graph, some
/// summary between the same two locations is no greater than the walk's.
pub proof fn lemma_stable_complete<T: Timestamp>(
    tracker: &Tracker<T>,
    from: Location,
    path: Seq<int>,
)
    requires
        tracker.wf(),
        tracker.stable_spec(),
        walk::<T>(tracker.edges(), from, path) is Some,
    ensures
        dominated::<T>(
            tracker.summaries(),
            from,
            walk::<T>(tracker.edges(), from, path).unwrap().0,
            walk::<T>(tracker.edges(), from, path).unwrap().1,
        ),
    decreases path.len(),
{
    let edges = tracker.edges();
    let closure = tracker.summaries();
    if path.len() == 1 {
        let i = path[0];
        assert(closure.contains(edges[i]));
        let m = choose|m: int| 0 <= m < closure.len() && closure[m] == edges[i];
        T::Summary::lemma_reflexive(edges[i].2);
        assert(closure[m].0 == from && closure[m].1 == edges[i].1 && closure[m].2.le(edges[i].2));
    } else {
        let (at, p) = walk::<T>(edges, from, path.drop_last()).unwrap();
        lemma_stable_complete::<T>(tracker, from, path.drop_last());
        let i = path.last();
        let s = walk::<T>(edges, from, path).unwrap().1;
        let m = choose|m: int|
            0 <= m < closure.len() && #[trigger] closure[m].0 == from && closure[m].1 == at && closure[m].2.le(p);
        closure[m].2.lemma_compose_monotone(p, edges[i].2);
        let x = closure[m].2.compose(edges[i].2).unwrap();
        assert(closure[m].1 == edges[i].0);
        assert(dominated::<T>(closure, closure[m].0, edges[i].1, x));
        let m2 = choose|m2: int|
            0 <= m2 < closure.len() && #[trigger] closure[m2].0 == from && closure[m2].1 == edges[i].1 && closure[m2].2.le(x);
        T::Summary::lemma_transitive(closure[m2].2, x, s);
        assert(closure[m2].0 == from && closure[m2].1 == edges[i].1 && closure[m2].2.le(s));
    }
}

/// A feedback loop of two locations, forward with the summary of the empty
/// path and back with an advance of one, has a finite closure: the four
/// summaries below are those of paths of the loop, they hold both edges, and
/// no edge extends them to anything they do not dominate.
pub proof fn lemma_feedback_loop_closure(a: Location, b: Location)
    requires
        a != b,
    ensures
        sound::<u64>(seq![(a, b, 0u64), (b, a, 1u64)], seq![(a, b, 0u64), (b, a, 1u64), (a, a, 1u64), (b, b, 1u64)]),
        covers(seq![(a, b, 0u64), (b, a, 1u64)], seq![(a, b, 0u64), (b, a, 1u64), (a, a, 1u64), (b, b, 1u64)]),
        closed::<u64>(seq![(a, b, 0u64), (b, a, 1u64)], seq![(a, b, 0u64), (b, a, 1u64), (a, a, 1u64), (b, b, 1u64)]),
{
    let edges = seq![(a, b, 0u64), (b, a, 1u64)];
    let closure = seq![(a, b, 0u64), (b, a, 1u64), (a, a, 1u64), (b, b, 1u64)];
    assert(walk::<u64>(edges, a, seq![0int]) == Some((b, 0u64)));
    assert(walk::<u64>(edges, b, seq![1int]) == Some((a, 1u64)));
    assert(seq![0int, 1int].drop_last() =~= seq![0int]);
    assert(walk::<u64>(edges, a, seq![0int, 1int]) == Some((a, 1u64)));
    assert(seq![1int, 0int].drop_last() =~= seq![1int]);
    assert(walk::<u64>(edges, b, seq![1int, 0int]) == Some((b, 1u64)));
    assert forall|k: int| 0 <= k < closure.len() implies on_path::<u64>(edges, #[trigger] closure[k].0, closure[k].1, closure[k].2) by {
        if k == 0 {
            assert(walk::<u64>(edges, closure[k].0, seq![0int]) == Some((closure[k].1, closure[k].2)));
        } else if k == 1 {
            assert(walk::<u64>(edges, closure[k].0, seq![1int]) == Some((closure[k].1, closure[k].2)));
        } else if k == 2 {
            assert(walk::<u64>(edges, closure[k].0, seq![0int, 1int]) == Some((closure[k].1, closure[k].2)));
        } else {
            assert(walk::<u64>(edges, closure[k].0, seq![1int, 0int]) == Some((closure[k].1, closure[k].2)));
        }
    }
    assert forall|i: int| 0 <= i < edges.len() implies closure.contains(#[trigger] edges[i]) by {
        assert(closure[i] == edges[i]);
    }
    assert forall|k: int, i: int|
        0 <= k < closure.len() && 0 <= i < edges.len() && #[trigger] closure[k].1 == #[trigger] edges[i].0
            implies match closure[k].2.compose(edges[i].2) {
            Some(r) => dominated::<u64>(closure, closure[k].0, edges[i].1, r),
            None => true,
        } by {
        if k == 0 {
            assert(closure[2].0 == a && closure[2].1 == a);
        } else if k == 1 {
            assert(closure[3].0 == b && closure[3].1 == b);
        } else if k == 2 {
            assert(closure[0].0 == a && closure[0].1 == b);
        } else {
            assert(closure[1].0 == b && closure[1].1 == a);
        }
    }
}

} // verus!
