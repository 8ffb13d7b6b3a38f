use timely_progress::duration::Duration;
use timely_progress::nested::Refines;
use timely_progress::timestamp::{PartialOrder, PathSummary, RootSummary, RootTimestamp, Timestamp, Unit};

#[test]
fn counter_summary_advances() {
    assert_eq!(3usize.results_in(&4usize), Some(7));
    assert_eq!(0usize.results_in(&9usize), Some(9));
    assert_eq!(1usize.results_in(&usize::MAX), None);
    assert_eq!(2u64.followed_by(&5u64), Some(7));
    assert_eq!(PathSummary::<u32>::followed_by(&u32::MAX, &1u32), None);
    assert_eq!(<u64 as PathSummary<u64>>::identity(), 0);
}

#[test]
fn signed_counter_summary_advances() {
    assert_eq!(PathSummary::<i32>::results_in(&5u32, &-3i32), Some(2));
    assert_eq!(PathSummary::<i32>::results_in(&1u32, &i32::MAX), None);
    assert_eq!(PathSummary::<i32>::results_in(&u32::MAX, &i32::MIN), Some(i32::MAX));
    assert_eq!(<i32 as Timestamp>::minimum(), i32::MIN);
}

#[test]
fn partial_order_on_counters() {
    assert!(3u32.less_equal(&3));
    assert!(3u32.less_equal(&4));
    assert!(!4u32.less_equal(&3));
    assert!(7usize.same(&7));
    assert!(!7usize.same(&8));
    assert!(RootTimestamp.less_equal(&RootTimestamp));
}

#[test]
fn root_summary_keeps_root() {
    assert_eq!(RootSummary.results_in(&RootTimestamp), Some(RootTimestamp));
    assert_eq!(RootSummary.followed_by(&RootSummary), Some(RootSummary));
    assert_eq!(<RootTimestamp as Timestamp>::minimum(), RootTimestamp);
}

#[test]
fn root_round_trip_every_base() {
    let a: usize = Refines::<RootTimestamp>::to_inner(RootTimestamp);
    assert_eq!(a, 0);
    assert_eq!(Refines::<RootTimestamp>::to_outer(a), RootTimestamp);
    let b: u64 = Refines::<RootTimestamp>::to_inner(RootTimestamp);
    assert_eq!(b, 0);
    assert_eq!(Refines::<RootTimestamp>::to_outer(b), RootTimestamp);
    let c: u32 = Refines::<RootTimestamp>::to_inner(RootTimestamp);
    assert_eq!(c, 0);
    assert_eq!(Refines::<RootTimestamp>::to_outer(c), RootTimestamp);
    let d: i32 = Refines::<RootTimestamp>::to_inner(RootTimestamp);
    assert_eq!(d, 0);
    assert_eq!(Refines::<RootTimestamp>::to_outer(d), RootTimestamp);
}

#[test]
fn root_summarizes_to_trivial() {
    assert_eq!(<usize as Refines<RootTimestamp>>::summarize(17), RootSummary);
    assert_eq!(<i32 as Refines<RootTimestamp>>::summarize(3), RootSummary);
}

#[test]
fn identity_refinement_converts_nothing() {
    assert_eq!(<u64 as Refines<u64>>::to_inner(42), 42);
    assert_eq!(<u64 as Refines<u64>>::to_outer(42), 42);
    assert_eq!(<u64 as Refines<u64>>::summarize(5), 5);
}

#[test]
fn lifted_summary_is_conservative() {
    // identity refinement on u32: outer result equals inner result
    let p: u32 = 6;
    let t: u32 = 10;
    let lifted = <u32 as Refines<u32>>::summarize(p);
    let outer = lifted.results_in(&<u32 as Refines<u32>>::to_outer(t)).unwrap();
    let inner = <u32 as Refines<u32>>::to_outer(p.results_in(&t).unwrap());
    assert!(outer.less_equal(&inner));
    // root refinement: everything lands on the single root value
    let lifted = <usize as Refines<RootTimestamp>>::summarize(p as usize);
    let outer = lifted.results_in(&RootTimestamp).unwrap();
    assert!(outer.less_equal(&RootTimestamp));
}

#[test]
fn duration_clock_under_root() {
    let d: Duration = Refines::<RootTimestamp>::to_inner(RootTimestamp);
    assert_eq!(d, Duration::zero());
    assert_eq!(d.nanos, 0);
    assert_eq!(Refines::<RootTimestamp>::to_outer(Duration::new(3, 5)), RootTimestamp);
    assert_eq!(<Duration as Refines<RootTimestamp>>::summarize(Duration::new(1, 0)), RootSummary);
}

#[test]
fn duration_summary_delays() {
    let t = Duration::new(2, 999_999_999);
    let s = Duration::new(0, 2);
    let r = s.results_in(&t).unwrap();
    assert_eq!(r, Duration::new(3, 1));
    assert_eq!(r.as_secs(), 3);
    assert_eq!(r.subsec_nanos(), 1);
    assert!(t.less_equal(&r));
    assert_eq!(s.followed_by(&Duration::new(1, 0)), Some(Duration::new(1, 2)));
    assert_eq!(Duration { nanos: u128::MAX }.results_in(&Duration::new(0, 1)), None);
}

#[test]
fn unit_clock_under_root() {
    let u: Unit = Refines::<RootTimestamp>::to_inner(RootTimestamp);
    assert_eq!(u, Unit);
    assert_eq!(Refines::<RootTimestamp>::to_outer(u), RootTimestamp);
    assert_eq!(<Unit as Refines<RootTimestamp>>::summarize(Unit), RootSummary);
    assert_eq!(Unit.results_in(&Unit), Some(Unit));
    assert_eq!(Unit.followed_by(&Unit), Some(Unit));
    assert!(Unit.less_equal(&Unit));
    assert_eq!(<Unit as Timestamp>::minimum(), Unit);
}
