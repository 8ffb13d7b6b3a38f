use timely_progress::location::{Location, Source, Target};
use timely_progress::reachability::Tracker;
use timely_progress::subgraph::{BuildError, SubgraphBuilder, SubgraphError};
use timely_progress::pointstamp_counter::CountError;
use timely_progress::timestamp::RootTimestamp;

fn src(node: usize, port: usize) -> Location {
    Location::Source(Source::new(node, port))
}

fn tgt(node: usize, port: usize) -> Location {
    Location::Target(Target::new(node, port))
}

#[test]
fn direct_edge_propagates_same_time() {
    let tracker: Tracker<u64> = Tracker::new(vec![(src(0, 0), tgt(1, 0), 0)]);
    assert!(tracker.is_stable());
    let out = tracker.propagate(&vec![(src(0, 0), 5, 1)]).unwrap();
    assert_eq!(out, vec![(tgt(1, 0), 5, 1)]);
}

#[test]
fn summaries_compose_along_a_chain() {
    let tracker: Tracker<u64> = Tracker::new(vec![
        (src(0, 0), tgt(1, 0), 0),
        (tgt(1, 0), src(1, 0), 2),
        (src(1, 0), tgt(2, 0), 0),
    ]);
    assert!(tracker.is_stable());
    let mut out = tracker.propagate(&vec![(src(0, 0), 3, 1)]).unwrap();
    out.sort();
    assert_eq!(out, vec![(src(1, 0), 5, 1), (tgt(1, 0), 3, 1), (tgt(2, 0), 5, 1)]);
}

#[test]
fn infeasible_path_is_dropped() {
    let tracker: Tracker<u32> = Tracker::new(vec![(src(0, 0), tgt(1, 0), 10)]);
    let out = tracker.propagate(&vec![(src(0, 0), u32::MAX - 3, 1)]).unwrap();
    assert!(out.is_empty());
    assert!(tracker.implications(&vec![(src(0, 0), u32::MAX - 3, 1)]).is_empty());
}

#[test]
fn cyclic_closure_converges() {
    // a feedback loop: the back edge advances the counter by one
    let tracker: Tracker<u64> = Tracker::new(vec![
        (src(0, 0), tgt(1, 0), 0),
        (tgt(1, 0), src(0, 0), 1),
    ]);
    assert!(tracker.is_stable());
    let mut out = tracker.propagate(&vec![(src(0, 0), 4, 1)]).unwrap();
    out.sort();
    assert_eq!(out, vec![(src(0, 0), 5, 1), (tgt(1, 0), 4, 1)]);
}

#[test]
fn cancelling_changes_propagate_to_nothing() {
    let tracker: Tracker<u64> = Tracker::new(vec![(src(0, 0), tgt(1, 0), 0)]);
    let out = tracker.propagate(&vec![(src(0, 0), 5, 1), (src(0, 0), 5, -1)]).unwrap();
    assert!(out.is_empty());
}

#[test]
fn subgraph_reports_outward_changes() {
    let mut b: SubgraphBuilder<RootTimestamp, u64> = SubgraphBuilder::new();
    b.add_child(0, 0, 1);
    b.add_child(1, 1, 1);
    b.add_edge(src(0, 0), tgt(1, 0), 0);
    b.add_edge(tgt(1, 0), src(1, 0), 1);
    b.add_input(tgt(7, 0), tgt(1, 0));
    b.add_output(src(1, 0), src(7, 0));
    let mut g = b.build().unwrap();
    assert!(g.is_quiescent());
    let out = g.announce(&vec![(src(0, 0), 2, 1)]).unwrap();
    assert_eq!(out, vec![(src(7, 0), RootTimestamp, 1)]);
    assert_eq!(g.frontier(&src(1, 0)), vec![3]);
    assert_eq!(g.frontier(&tgt(1, 0)), vec![2]);
    assert!(!g.is_quiescent());
    let out = g.announce(&vec![(src(0, 0), 2, -1)]).unwrap();
    assert_eq!(out, vec![(src(7, 0), RootTimestamp, -1)]);
    assert!(g.is_quiescent());
}

#[test]
fn subgraph_enters_at_least_inner_time() {
    let mut b: SubgraphBuilder<RootTimestamp, u64> = SubgraphBuilder::new();
    b.add_child(1, 1, 1);
    b.add_edge(tgt(1, 0), src(1, 0), 0);
    b.add_input(tgt(7, 0), tgt(1, 0));
    b.add_output(src(1, 0), src(7, 0));
    let mut g = b.build().unwrap();
    let out = g.enter(&vec![(tgt(7, 0), RootTimestamp, 1)]).unwrap();
    assert_eq!(out, vec![(src(7, 0), RootTimestamp, 1)]);
    assert_eq!(g.frontier(&tgt(1, 0)), vec![0]);
    assert_eq!(g.frontier(&src(1, 0)), vec![0]);
}

#[test]
fn subgraph_refuses_unannounced_retirement() {
    let mut b: SubgraphBuilder<RootTimestamp, u64> = SubgraphBuilder::new();
    b.add_child(0, 0, 1);
    b.add_child(1, 1, 0);
    b.add_edge(src(0, 0), tgt(1, 0), 0);
    let mut g = b.build().unwrap();
    assert_eq!(
        g.announce(&vec![(src(0, 0), 2, -1)]),
        Err(SubgraphError::Count(CountError::Negative))
    );
    assert!(g.is_quiescent());
}

#[test]
fn build_refuses_undeclared_location() {
    let mut b: SubgraphBuilder<RootTimestamp, u64> = SubgraphBuilder::new();
    b.add_child(0, 0, 1);
    b.add_edge(src(0, 0), tgt(1, 0), 0);
    assert_eq!(b.build().err(), Some(BuildError::UndeclaredLocation));
    let mut b: SubgraphBuilder<RootTimestamp, u64> = SubgraphBuilder::new();
    b.add_child(0, 0, 1);
    b.add_output(src(0, 1), src(9, 0));
    assert_eq!(b.build().err(), Some(BuildError::UndeclaredLocation));
    let mut b: SubgraphBuilder<RootTimestamp, u64> = SubgraphBuilder::new();
    b.add_child(0, 0, 1);
    b.add_output(src(0, 0), src(9, 0));
    assert!(b.build().is_ok());
}

#[test]
fn incremental_edge_matches_rebuild() {
    let mut tracker: Tracker<u64> = Tracker::new(vec![(src(0, 0), tgt(1, 0), 0)]);
    tracker.add_edge(tgt(1, 0), src(0, 0), 1);
    assert!(tracker.is_stable());
    let rebuilt: Tracker<u64> = Tracker::new(vec![
        (src(0, 0), tgt(1, 0), 0),
        (tgt(1, 0), src(0, 0), 1),
    ]);
    let changes = vec![(src(0, 0), 4, 1), (tgt(1, 0), 9, 2)];
    let mut a = tracker.propagate(&changes).unwrap();
    let mut b = rebuilt.propagate(&changes).unwrap();
    a.sort();
    b.sort();
    assert_eq!(a, b);
    assert_eq!(a, vec![(src(0, 0), 5, 1), (src(0, 0), 10, 2), (tgt(1, 0), 4, 1), (tgt(1, 0), 10, 2)]);
}

#[test]
fn incremental_edge_on_empty_graph() {
    let mut tracker: Tracker<u32> = Tracker::new(vec![]);
    assert!(tracker.is_stable());
    tracker.add_edge(src(3, 0), tgt(4, 1), 2);
    assert!(tracker.is_stable());
    assert_eq!(tracker.propagate(&vec![(src(3, 0), 1, 1)]).unwrap(), vec![(tgt(4, 1), 3, 1)]);
}

#[test]
fn parallel_edges_use_least_summary() {
    let tracker: Tracker<u64> = Tracker::new(vec![
        (src(0, 0), tgt(1, 0), 5),
        (src(0, 0), tgt(1, 0), 3),
        (src(0, 0), tgt(1, 0), 3),
    ]);
    assert_eq!(tracker.implications(&vec![(src(0, 0), 10, 1)]), vec![(tgt(1, 0), 13, 1)]);
    assert_eq!(tracker.propagate(&vec![(src(0, 0), 10, 1)]).unwrap(), vec![(tgt(1, 0), 13, 1)]);
}

#[test]
fn build_refuses_unfinished_closure() {
    // a chain of three edges needs more than one summary extended
    let mut b: SubgraphBuilder<RootTimestamp, u64> = SubgraphBuilder::new();
    b.add_child(0, 0, 1);
    b.add_child(1, 1, 1);
    b.add_child(2, 1, 0);
    b.add_edge(src(0, 0), tgt(1, 0), 0);
    b.add_edge(tgt(1, 0), src(1, 0), 1);
    b.add_edge(src(1, 0), tgt(2, 0), 0);
    assert_eq!(b.build_with_budget(1).err(), Some(BuildError::Unfinished));
    let tracker: Tracker<u64> = Tracker::with_budget(
        vec![(src(0, 0), tgt(1, 0), 0), (tgt(1, 0), src(1, 0), 1), (src(1, 0), tgt(2, 0), 0)],
        1,
    );
    assert!(!tracker.is_stable());
}

#[test]
fn build_with_enough_budget_succeeds() {
    let mut b: SubgraphBuilder<RootTimestamp, u64> = SubgraphBuilder::new();
    b.add_child(0, 0, 1);
    b.add_child(1, 1, 1);
    b.add_edge(src(0, 0), tgt(1, 0), 0);
    b.add_edge(tgt(1, 0), src(1, 0), 1);
    assert!(b.build_with_budget(100).is_ok());
}

#[test]
fn outward_changes_are_consolidated() {
    let mut b: SubgraphBuilder<RootTimestamp, u64> = SubgraphBuilder::new();
    b.add_child(1, 0, 1);
    b.add_output(src(1, 0), src(7, 0));
    let mut g = b.build().unwrap();
    // two inner times fall onto the one root time
    let out = g.announce(&vec![(src(1, 0), 2, 1), (src(1, 0), 5, 1)]).unwrap();
    assert_eq!(out, vec![(src(7, 0), RootTimestamp, 2)]);
    // changes that cancel at the root time leave nothing to report
    let out = g.announce(&vec![(src(1, 0), 2, -1), (src(1, 0), 3, 1)]).unwrap();
    assert!(out.is_empty());
    assert_eq!(g.frontier(&src(1, 0)), vec![3]);
}

#[test]
fn outward_overflow_refused() {
    let mut b: SubgraphBuilder<RootTimestamp, u64> = SubgraphBuilder::new();
    b.add_child(1, 0, 1);
    b.add_output(src(1, 0), src(7, 0));
    let mut g = b.build().unwrap();
    assert_eq!(
        g.announce(&vec![(src(1, 0), 2, i64::MAX), (src(1, 0), 3, 1)]),
        Err(SubgraphError::OutwardOverflow)
    );
    assert!(g.is_quiescent());
}
