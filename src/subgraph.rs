//! A nested scope, assembled so that the scope around it sees one operator.

use vstd::prelude::*;

use crate::location::Location;
use crate::nested::Refines;
use crate::pointstamp_counter::{batch_sum, consolidate, consolidated, CountError, PointstampCounter, MAX_BATCH};
use crate::reachability::{closed, implied, Tracker, EXTENSION_BUDGET};
use crate::timestamp::{PartialOrder, Timestamp};

verus! {

/// The outer changes that inner `changes` make at the ports that face out:
/// each change at an inner location of `outputs`, at the outer location paired
/// with it, with its timestamp taken out to the outer clock.
pub open spec fn outward<TOuter: Timestamp, TInner: Refines<TOuter>>(
    outputs: Seq<(Location, Location)>,
    changes: Seq<(Location, TInner, i64)>,
) -> Seq<(Location, TOuter, i64)>
    decreases changes.len(),
{
    if changes.len() == 0 {
        seq![]
    } else {
        let e = changes.last();
        outward::<TOuter, TInner>(outputs, changes.drop_last()) + outward_one::<TOuter, TInner>(outputs, e)
    }
}

/// The outer changes that one inner change makes at the ports that face out.
pub open spec fn outward_one<TOuter: Timestamp, TInner: Refines<TOuter>>(
    outputs: Seq<(Location, Location)>,
    e: (Location, TInner, i64),
) -> Seq<(Location, TOuter, i64)>
    decreases outputs.len(),
{
    if outputs.len() == 0 {
        seq![]
    } else {
        let p = outputs.last();
        outward_one::<TOuter, TInner>(outputs.drop_last(), e) + if p.0 == e.0 {
            seq![(p.1, e.1.outer_of(), e.2)]
        } else {
            seq![]
        }
    }
}

/// The inner changes that outer `changes` make at the ports that face in:
/// each change at an outer location of `inputs`, at the inner location paired
/// with it, at the inner timestamp at which the scope is entered.
pub open spec fn inward<TOuter: Timestamp, TInner: Refines<TOuter>>(
    inputs: Seq<(Location, Location)>,
    changes: Seq<(Location, TOuter, i64)>,
) -> Seq<(Location, TInner, i64)>
    decreases changes.len(),
{
    if changes.len() == 0 {
        seq![]
    } else {
        let e = changes.last();
        inward::<TOuter, TInner>(inputs, changes.drop_last()) + inward_one::<TOuter, TInner>(inputs, e)
    }
}

/// The inner changes that one outer change makes at the ports that face in.
pub open spec fn inward_one<TOuter: Timestamp, TInner: Refines<TOuter>>(
    inputs: Seq<(Location, Location)>,
    e: (Location, TOuter, i64),
) -> Seq<(Location, TInner, i64)>
    decreases inputs.len(),
{
    if inputs.len() == 0 {
        seq![]
    } else {
        let p = inputs.last();
        inward_one::<TOuter, TInner>(inputs.drop_last(), e) + if p.0 == e.0 {
            seq![(p.1, TInner::inner_of(e.1), e.2)]
        } else {
            seq![]
        }
    }
}

/// Changes together with all that they imply through `summaries`.
pub open spec fn with_implications<T: Timestamp>(
    summaries: Seq<(Location, Location, T::Summary)>,
    changes: Seq<(Location, T, i64)>,
) -> Seq<(Location, T, i64)> {
    changes + implied::<T>(summaries, changes)
}

fn route_out<TOuter: Timestamp, TInner: Refines<TOuter>>(
    outputs: &Vec<(Location, Location)>,
    changes: &Vec<(Location, TInner, i64)>,
) -> (r: Vec<(Location, TOuter, i64)>)
    ensures
        r@ == outward::<TOuter, TInner>(outputs@, changes@),
{
    let mut out: Vec<(Location, TOuter, i64)> = Vec::new();
    let mut i: usize = 0;
    while i < changes.len()
        invariant
            0 <= i <= changes@.len(),
            out@ == outward::<TOuter, TInner>(outputs@, changes@.take(i as int)),
        decreases changes@.len() - i,
    {
        let e = changes[i];
        let ghost base = out@;
        let mut k: usize = 0;
        while k < outputs.len()
            invariant
                0 <= k <= outputs@.len(),
                out@ == base + outward_one::<TOuter, TInner>(outputs@.take(k as int), e),
            decreases outputs@.len() - k,
        {
            let p = outputs[k];
            proof {
                assert(outputs@.take(k + 1).drop_last() =~= outputs@.take(k as int));
                assert(outputs@.take(k + 1).last() == p);
            }
            if p.0 == e.0 {
                out.push((p.1, e.1.to_outer(), e.2));
            }
            proof {
                assert(out@ =~= base + outward_one::<TOuter, TInner>(outputs@.take(k + 1), e));
            }
            k += 1;
        }
        proof {
            assert(outputs@.take(outputs@.len() as int) =~= outputs@);
            assert(changes@.take(i + 1).drop_last() =~= changes@.take(i as int));
            assert(changes@.take(i + 1).last() == e);
        }
        i += 1;
    }
    proof {
        assert(changes@.take(i as int) =~= changes@);
    }
    out
}

fn route_in<TOuter: Timestamp, TInner: Refines<TOuter>>(
    inputs: &Vec<(Location, Location)>,
    changes: &Vec<(Location, TOuter, i64)>,
) -> (r: Vec<(Location, TInner, i64)>)
    ensures
        r@ == inward::<TOuter, TInner>(inputs@, changes@),
{
    let mut out: Vec<(Location, TInner, i64)> = Vec::new();
    let mut i: usize = 0;
    while i < changes.len()
        invariant
            0 <= i <= changes@.len(),
            out@ == inward::<TOuter, TInner>(inputs@, changes@.take(i as int)),
        decreases changes@.len() - i,
    {
        let e = changes[i];
        let ghost base = out@;
        let mut k: usize = 0;
        while k < inputs.len()
            invariant
                0 <= k <= inputs@.len(),
                out@ == base + inward_one::<TOuter, TInner>(inputs@.take(k as int), e),
            decreases inputs@.len() - k,
        {
            let p = inputs[k];
            proof {
                assert(inputs@.take(k + 1).drop_last() =~= inputs@.take(k as int));
                assert(inputs@.take(k + 1).last() == p);
            }
            if p.0 == e.0 {
                out.push((p.1, TInner::to_inner(e.1), e.2));
            }
            proof {
                assert(out@ =~= base + inward_one::<TOuter, TInner>(inputs@.take(k + 1), e));
            }
            k += 1;
        }
        proof {
            assert(inputs@.take(inputs@.len() as int) =~= inputs@);
            assert(changes@.take(i + 1).drop_last() =~= changes@.take(i as int));
            assert(changes@.take(i + 1).last() == e);
        }
        i += 1;
    }
    proof {
        assert(changes@.take(i as int) =~= changes@);
    }
    out
}

/// Why a subgraph refused a batch of changes.
#[derive(Clone, Copy, Debug, PartialEq, Eq, Structural)]
pub enum SubgraphError {
    /// The inner counts refused the changes and what they imply.
    Count(CountError),
    /// The changes and what they imply, or the changes these make at the
    /// ports that face out, are `MAX_BATCH` or more.
    TooLarge,
    /// The net change at some port that faces out does not fit an `i64`.
    OutwardOverflow,
}

/// What taking `all`, changes announced inside a scope together with all
/// they imply, does: the scope `before` becomes `after` and `r` is returned.
/// Either every count changes by the net change of `all` and the net changes
/// at the ports that face out are returned, or nothing changes and the error
/// names the cause.
pub open spec fn outcome<TOuter: Timestamp, TInner: Refines<TOuter>>(
    before: Subgraph<TOuter, TInner>,
    after: Subgraph<TOuter, TInner>,
    all: Seq<(Location, TInner, i64)>,
    r: Result<Vec<(Location, TOuter, i64)>, SubgraphError>,
) -> bool {
    let out = outward::<TOuter, TInner>(before.outputs(), all);
    let too_large = all.len() >= MAX_BATCH || out.len() >= MAX_BATCH;
    let out_fits = forall|l: Location, t: TOuter| i64::MIN <= #[trigger] batch_sum(out, l, t) <= i64::MAX;
    let counts_fit = forall|l: Location, t: TInner|
        0 <= before.count(l, t) + #[trigger] batch_sum(all, l, t) <= i64::MAX;
    &&& (r == Err::<Vec<(Location, TOuter, i64)>, SubgraphError>(SubgraphError::TooLarge) <==> too_large)
    &&& (!too_large ==> (r == Err::<Vec<(Location, TOuter, i64)>, SubgraphError>(SubgraphError::OutwardOverflow) <==> !out_fits))
    &&& (r is Ok <==> !too_large && out_fits && counts_fit)
    &&& (r matches Ok(v) ==> consolidated(out, v@))
    &&& (r is Ok ==> forall|l: Location, t: TInner| #[trigger] after.count(l, t) == before.count(l, t) + batch_sum(all, l, t))
    &&& (r is Err ==> forall|l: Location, t: TInner| #[trigger] after.count(l, t) == before.count(l, t))
    &&& (r == Err::<Vec<(Location, TOuter, i64)>, SubgraphError>(SubgraphError::Count(CountError::Negative))
        ==> exists|l: Location, t: TInner| before.count(l, t) + #[trigger] batch_sum(all, l, t) < 0)
    &&& (r == Err::<Vec<(Location, TOuter, i64)>, SubgraphError>(SubgraphError::Count(CountError::Overflow))
        ==> exists|l: Location, t: TInner| before.count(l, t) + #[trigger] batch_sum(all, l, t) > i64::MAX)
}

/// Why a scope could not be built.
#[derive(Clone, Copy, Debug, PartialEq, Eq, Structural)]
pub enum BuildError {
    /// An edge or a port names an inner location of no declared child.
    UndeclaredLocation,
    /// Relaxation of the inner path summaries was cut short by its budget,
    /// so some paths may have no summary.
    Unfinished,
}

/// `location` is a port of a declared child: each child is a node with its
/// numbers of input and output ports.
pub open spec fn declared(children: Seq<(usize, usize, usize)>, location: Location) -> bool {
    exists|k: int|
        #![trigger children[k]]
        0 <= k < children.len() && match location {
            Location::Source(s) => children[k].0 == s.node && s.port < children[k].2,
            Location::Target(t) => children[k].0 == t.node && t.port < children[k].1,
        }
}

/// Every edge, and the inner side of every port, names a declared location.
pub open spec fn well_declared<T: Timestamp>(
    children: Seq<(usize, usize, usize)>,
    edges: Seq<(Location, Location, T::Summary)>,
    inputs: Seq<(Location, Location)>,
    outputs: Seq<(Location, Location)>,
) -> bool {
    &&& forall|k: int| 0 <= k < edges.len() ==> declared(children, #[trigger] edges[k].0) && declared(children, edges[k].1)
    &&& forall|k: int| 0 <= k < inputs.len() ==> declared(children, #[trigger] inputs[k].1)
    &&& forall|k: int| 0 <= k < outputs.len() ==> declared(children, #[trigger] outputs[k].0)
}

fn is_declared(children: &Vec<(usize, usize, usize)>, location: &Location) -> (r: bool)
    ensures
        r == declared(children@, *location),
{
    let mut k: usize = 0;
    while k < children.len()
        invariant
            0 <= k <= children@.len(),
            forall|j: int|
                #![trigger children@[j]]
                0 <= j < k ==> !(match *location {
                Location::Source(s) => children@[j].0 == s.node && s.port < children@[j].2,
                Location::Target(t) => children@[j].0 == t.node && t.port < children@[j].1,
            }),
        decreases children@.len() - k,
    {
        let c = children[k];
        let hit = match location {
            Location::Source(s) => c.0 == s.node && s.port < c.2,
            Location::Target(t) => c.0 == t.node && t.port < c.1,
        };
        if hit {
            return true;
        }
        k += 1;
    }
    false
}

/// A nested scope under construction: its inner edges and its external ports.
pub struct SubgraphBuilder<TOuter: Timestamp, TInner: Refines<TOuter>> {
    children: Vec<(usize, usize, usize)>,
    edges: Vec<(Location, Location, TInner::Summary)>,
    inputs: Vec<(Location, Location)>,
    outputs: Vec<(Location, Location)>,
    outer: std::marker::PhantomData<TOuter>,
}

impl<TOuter: Timestamp, TInner: Refines<TOuter>> SubgraphBuilder<TOuter, TInner> {
    /// The inner edges added so far.
    pub closed spec fn edges(&self) -> Seq<(Location, Location, TInner::Summary)> {
        self.edges@
    }

    /// The ports that face in, each an outer location with its inner location.
    pub closed spec fn inputs(&self) -> Seq<(Location, Location)> {
        self.inputs@
    }

    /// The ports that face out, each an inner location with its outer location.
    pub closed spec fn outputs(&self) -> Seq<(Location, Location)> {
        self.outputs@
    }

    /// The child operators declared so far: each node with its numbers of
    /// input and output ports.
    pub closed spec fn children(&self) -> Seq<(usize, usize, usize)> {
        self.children@
    }

    /// A scope with no children, edges or ports.
    pub fn new() -> (r: Self)
        ensures
            r.children().len() == 0,
            r.edges().len() == 0,
            r.inputs().len() == 0,
            r.outputs().len() == 0,
    {
        SubgraphBuilder {
            children: Vec::new(),
            edges: Vec::new(),
            inputs: Vec::new(),
            outputs: Vec::new(),
            outer: std::marker::PhantomData,
        }
    }

    /// Declares a child operator `node` with `inputs` input and `outputs` output ports.
    pub fn add_child(&mut self, node: usize, inputs: usize, outputs: usize)
        ensures
            final(self).children() == old(self).children().push((node, inputs, outputs)),
            final(self).edges() == old(self).edges(),
            final(self).inputs() == old(self).inputs(),
            final(self).outputs() == old(self).outputs(),
    {
        self.children.push((node, inputs, outputs));
    }

    /// Adds an inner edge from `from` to `to` with the given path summary.
    pub fn add_edge(&mut self, from: Location, to: Location, summary: TInner::Summary)
        ensures
            final(self).children() == old(self).children(),
            final(self).edges() == old(self).edges().push((from, to, summary)),
            final(self).inputs() == old(self).inputs(),
            final(self).outputs() == old(self).outputs(),
    {
        self.edges.push((from, to, summary));
    }

    /// Connects the outer location `outer` to the inner location `inner`.
    pub fn add_input(&mut self, outer: Location, inner: Location)
        ensures
            final(self).children() == old(self).children(),
            final(self).edges() == old(self).edges(),
            final(self).inputs() == old(self).inputs().push((outer, inner)),
            final(self).outputs() == old(self).outputs(),
    {
        self.inputs.push((outer, inner));
    }

    /// Connects the inner location `inner` to the outer location `outer`.
    pub fn add_output(&mut self, inner: Location, outer: Location)
        ensures
            final(self).children() == old(self).children(),
            final(self).edges() == old(self).edges(),
            final(self).inputs() == old(self).inputs(),
            final(self).outputs() == old(self).outputs().push((inner, outer)),
    {
        self.outputs.push((inner, outer));
    }

    /// The built scope, with nothing outstanding; refused where an edge or a
    /// port names an inner location of no declared child, or where the
    /// closure of the inner path summaries is not reached.
    pub fn build(self) -> (r: Result<Subgraph<TOuter, TInner>, BuildError>)
        ensures
            !well_declared::<TInner>(self.children(), self.edges(), self.inputs(), self.outputs())
                <==> r == Err::<Subgraph<TOuter, TInner>, BuildError>(BuildError::UndeclaredLocation),
            r matches Ok(g) ==> {
                &&& g.wf()
                &&& g.edges() == self.edges()
                &&& g.inputs() == self.inputs()
                &&& g.outputs() == self.outputs()
                &&& closed::<TInner>(g.edges(), g.summaries())
                &&& forall|l: Location, t: TInner| g.count(l, t) == 0
            },
    {
        self.build_with_budget(EXTENSION_BUDGET)
    }

    /// As `build`, with relaxation of the inner path summaries extending at
    /// most `budget` of them; refused as unfinished only where the summaries
    /// reached `budget`.
    pub fn build_with_budget(self, budget: usize) -> (r: Result<Subgraph<TOuter, TInner>, BuildError>)
        ensures
            !well_declared::<TInner>(self.children(), self.edges(), self.inputs(), self.outputs())
                <==> r == Err::<Subgraph<TOuter, TInner>, BuildError>(BuildError::UndeclaredLocation),
            r matches Ok(g) ==> {
                &&& g.wf()
                &&& g.edges() == self.edges()
                &&& g.inputs() == self.inputs()
                &&& g.outputs() == self.outputs()
                &&& closed::<TInner>(g.edges(), g.summaries())
                &&& forall|l: Location, t: TInner| g.count(l, t) == 0
            },
    {
        let n = self.edges.len();
        let mut i: usize = 0;
        while i < n
            invariant
                n == self.edges@.len(),
                0 <= i <= n,
                forall|k: int| 0 <= k < i ==> declared(self.children@, #[trigger] self.edges@[k].0) && declared(self.children@, self.edges@[k].1),
            decreases n - i,
        {
            let e = self.edges[i];
            let d0 = is_declared(&self.children, &e.0);
            let d1 = is_declared(&self.children, &e.1);
            if !d0 || !d1 {
                proof {
                    assert(e == self.edges@[i as int]);
                }
                return Err(BuildError::UndeclaredLocation);
            }
            proof {
                assert(e == self.edges@[i as int]);
                assert forall|k: int| 0 <= k < i + 1 implies declared(self.children@, #[trigger] self.edges@[k].0) && declared(self.children@, self.edges@[k].1) by {
                    if k == i {
                        assert(self.edges@[k] == e);
                    }
                }
            }
            i += 1;
        }
        let mut i: usize = 0;
        while i < self.inputs.len()
            invariant
                0 <= i <= self.inputs@.len(),
                forall|k: int| 0 <= k < i ==> declared(self.children@, #[trigger] self.inputs@[k].1),
            decreases self.inputs@.len() - i,
        {
            if !is_declared(&self.children, &self.inputs[i].1) {
                return Err(BuildError::UndeclaredLocation);
            }
            i += 1;
        }
        let mut i: usize = 0;
        while i < self.outputs.len()
            invariant
                0 <= i <= self.outputs@.len(),
                forall|k: int| 0 <= k < i ==> declared(self.children@, #[trigger] self.outputs@[k].0),
            decreases self.outputs@.len() - i,
        {
            if !is_declared(&self.children, &self.outputs[i].0) {
                return Err(BuildError::UndeclaredLocation);
            }
            i += 1;
        }
        let tracker = Tracker::with_budget(self.edges, budget);
        if !tracker.is_stable() {
            return Err(BuildError::Unfinished);
        }
        Ok(Subgraph {
            tracker,
            counts: PointstampCounter::new(),
            inputs: self.inputs,
            outputs: self.outputs,
            outer: self.outer,
        })
    }
}

/// A built nested scope: its reachability, the counts of its inner locations,
/// and its external ports.
pub struct Subgraph<TOuter: Timestamp, TInner: Refines<TOuter>> {
    tracker: Tracker<TInner>,
    counts: PointstampCounter<TInner>,
    inputs: Vec<(Location, Location)>,
    outputs: Vec<(Location, Location)>,
    outer: std::marker::PhantomData<TOuter>,
}

impl<TOuter: Timestamp, TInner: Refines<TOuter>> Subgraph<TOuter, TInner> {
    pub closed spec fn wf(&self) -> bool {
        self.tracker.wf() && self.counts.wf()
    }

    /// The inner edges.
    pub closed spec fn edges(&self) -> Seq<(Location, Location, TInner::Summary)> {
        self.tracker.edges()
    }

    /// The inner path summaries.
    pub closed spec fn summaries(&self) -> Seq<(Location, Location, TInner::Summary)> {
        self.tracker.summaries()
    }

    /// The ports that face in, each an outer location with its inner location.
    pub closed spec fn inputs(&self) -> Seq<(Location, Location)> {
        self.inputs@
    }

    /// The ports that face out, each an inner location with its outer location.
    pub closed spec fn outputs(&self) -> Seq<(Location, Location)> {
        self.outputs@
    }

    /// The count of `time` at the inner location `location`, implications included.
    pub closed spec fn count(&self, location: Location, time: TInner) -> int {
        self.counts.count(location, time)
    }

    /// `time` is outstanding at the inner location `location` and no other
    /// outstanding time there is below it.
    pub open spec fn in_frontier(&self, location: Location, time: TInner) -> bool {
        &&& self.count(location, time) > 0
        &&& forall|s: TInner| self.count(location, s) > 0 && #[trigger] s.le(time) ==> s == time
    }

    /// Takes changes announced by inner operators, with all they imply
    /// through the inner graph, into the inner counts; returns the net
    /// changes that this makes at the ports that face out, in outer terms
    /// (see `outcome`).
    pub fn announce(&mut self, changes: &Vec<(Location, TInner, i64)>) -> (r: Result<Vec<(Location, TOuter, i64)>, SubgraphError>)
        requires
            old(self).wf(),
        ensures
            final(self).wf(),
            final(self).edges() == old(self).edges(),
            final(self).summaries() == old(self).summaries(),
            final(self).inputs() == old(self).inputs(),
            final(self).outputs() == old(self).outputs(),
            outcome(*old(self), *final(self), with_implications::<TInner>(old(self).summaries(), changes@), r),
    {
        let mut all: Vec<(Location, TInner, i64)> = Vec::new();
        let mut i: usize = 0;
        while i < changes.len()
            invariant
                0 <= i <= changes@.len(),
                all@ =~= changes@.take(i as int),
            decreases changes@.len() - i,
        {
            all.push(changes[i]);
            i += 1;
        }
        proof {
            assert(changes@.take(i as int) =~= changes@);
        }
        let mut more = self.tracker.implications(changes);
        all.append(&mut more);
        proof {
            assert(all@ == with_implications::<TInner>(old(self).summaries(), changes@));
        }
        if all.len() as u64 >= MAX_BATCH {
            return Err(SubgraphError::TooLarge);
        }
        let out = route_out::<TOuter, TInner>(&self.outputs, &all);
        if out.len() as u64 >= MAX_BATCH {
            return Err(SubgraphError::TooLarge);
        }
        let net = match consolidate(&out) {
            Some(v) => v,
            None => {
                return Err(SubgraphError::OutwardOverflow);
            },
        };
        let ghost before = self.counts;
        let res = self.counts.apply_batch(&all);
        proof {
            assert forall|l: Location, t: TInner| #[trigger] self.count(l, t) == self.counts.count(l, t) by {}
            assert forall|l: Location, t: TInner| #[trigger] old(self).count(l, t) == before.count(l, t) by {}
        }
        match res {
            Ok(()) => Ok(net),
            Err(e) => Err(SubgraphError::Count(e)),
        }
    }

    /// Takes changes made at the outer locations of the ports that face in,
    /// at the inner timestamps at which the scope is entered, as changes
    /// announced inside the scope (see `announce`).
    pub fn enter(&mut self, changes: &Vec<(Location, TOuter, i64)>) -> (r: Result<Vec<(Location, TOuter, i64)>, SubgraphError>)
        requires
            old(self).wf(),
        ensures
            final(self).wf(),
            final(self).edges() == old(self).edges(),
            final(self).summaries() == old(self).summaries(),
            final(self).inputs() == old(self).inputs(),
            final(self).outputs() == old(self).outputs(),
            outcome(
                *old(self),
                *final(self),
                with_implications::<TInner>(old(self).summaries(), inward::<TOuter, TInner>(old(self).inputs(), changes@)),
                r,
            ),
    {
        let inner = route_in::<TOuter, TInner>(&self.inputs, changes);
        self.announce(&inner)
    }

    /// The minimal timestamps still possible at the inner location `location`, each once.
    pub fn frontier(&self, location: &Location) -> (r: Vec<TInner>)
        requires
            self.wf(),
        ensures
            r@.no_duplicates(),
            forall|t: TInner| r@.contains(t) <==> self.in_frontier(*location, t),
    {
        let r = self.counts.frontier(location);
        proof {
            assert forall|t: TInner| #[trigger] self.in_frontier(*location, t) == self.counts.in_frontier(*location, t) by {
                assert(self.count(*location, t) == self.counts.count(*location, t));
                assert forall|s: TInner| self.count(*location, s) == self.counts.count(*location, s) by {}
            }
        }
        r
    }

    /// Where nothing is outstanding inside the scope, every inner frontier is empty.
    pub proof fn lemma_quiescent_frontier_empty(&self)
        requires
            forall|l: Location, t: TInner| #[trigger] self.count(l, t) == 0,
        ensures
            forall|l: Location, t: TInner| !#[trigger] self.in_frontier(l, t),
    {
        assert forall|l: Location, t: TInner| !#[trigger] self.in_frontier(l, t) by {
            assert(self.count(l, t) == 0);
        }
    }

    /// Whether nothing is outstanding inside the scope, so that it may be retired.
    pub fn is_quiescent(&self) -> (r: bool)
        requires
            self.wf(),
        ensures
            r == (forall|l: Location, t: TInner| #[trigger] self.count(l, t) == 0),
    {
        let r = self.counts.is_quiescent();
        proof {
            if r {
                assert forall|l: Location, t: TInner| #[trigger] self.count(l, t) == 0 by {
                    assert(self.counts.count(l, t) == 0);
                }
            } else {
                let (l, t) = choose|l: Location, t: TInner| #[trigger] self.counts.count(l, t) != 0;
                assert(self.count(l, t) != 0);
            }
        }
        r
    }
}

} // verus!
