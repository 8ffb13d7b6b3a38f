use timely_progress::timestamp::RootTimestamp;
use timely_progress::location::{Location, Source, Target};
use timely_progress::nested::Refines;
use timely_progress::product::Product;
use timely_progress::subgraph::SubgraphBuilder;
use timely_progress::timestamp::{PartialOrder, PathSummary, Timestamp};

type Inner = Product<u64, u32>;

#[test]
fn product_enters_at_least_inner_value() {
    let t: Inner = Refines::<u64>::to_inner(9);
    assert_eq!(t, Product::new(9, 0));
    assert_eq!(Refines::<u64>::to_outer(t), 9);
    assert_eq!(Refines::<u64>::to_outer(Product::<u64, u32>::new(4, 17)), 4);
}

#[test]
fn product_order_is_componentwise() {
    let a: Inner = Product::new(1, 5);
    let b: Inner = Product::new(2, 3);
    assert!(!a.less_equal(&b));
    assert!(!b.less_equal(&a));
    assert!(a.less_equal(&Product::new(1, 6)));
    assert_eq!(<Inner as Timestamp>::minimum(), Product::new(0, 0));
}

#[test]
fn product_summary_advances_both() {
    let s: Product<u64, u32> = Product::new(2, 1);
    assert_eq!(s.results_in(&Product::<u64, u32>::new(3, 4)), Some(Product::new(5, 5)));
    assert_eq!(s.results_in(&Product::<u64, u32>::new(3, u32::MAX)), None);
    assert_eq!(PathSummary::<Inner>::followed_by(&s, &Product::new(1, 1)), Some(Product::new(3, 2)));
}

#[test]
fn product_summary_lifts_conservatively() {
    let p: Product<u64, u32> = Product::new(0, 1);
    let t: Inner = Product::new(6, 2);
    let lifted = <Inner as Refines<u64>>::summarize(p);
    assert_eq!(lifted, 0);
    let outer = lifted.results_in(&Refines::<u64>::to_outer(t)).unwrap();
    let inner = Refines::<u64>::to_outer(p.results_in(&t).unwrap());
    assert_eq!(outer, 6);
    assert!(outer.less_equal(&inner));
}

#[test]
fn loop_scope_reports_outer_time() {
    let feedback: Product<u64, u32> = Product::new(0, 1);
    let through: Product<u64, u32> = Product::new(0, 0);
    let op_in = Location::Target(Target::new(1, 0));
    let op_out = Location::Source(Source::new(1, 0));
    let mut b: SubgraphBuilder<u64, Inner> = SubgraphBuilder::new();
    b.add_child(1, 1, 1);
    b.add_edge(op_in, op_out, through);
    b.add_edge(op_out, op_in, feedback);
    b.add_input(Location::Target(Target::new(0, 0)), op_in);
    b.add_output(op_out, Location::Source(Source::new(0, 0)));
    let mut g = b.build().unwrap();
    let out = g.enter(&vec![(Location::Target(Target::new(0, 0)), 3u64, 1)]).unwrap();
    assert_eq!(out, vec![(Location::Source(Source::new(0, 0)), 3u64, 1)]);
    assert_eq!(g.frontier(&op_in), vec![Product::new(3, 0)]);
    assert_eq!(g.frontier(&op_out), vec![Product::new(3, 0)]);
    let back = g.enter(&vec![(Location::Target(Target::new(0, 0)), 3u64, -1)]).unwrap();
    assert_eq!(back, vec![(Location::Source(Source::new(0, 0)), 3u64, -1)]);
    assert!(g.is_quiescent());
}

#[test]
fn signed_scope_entered_at_zero() {
    let op_in = Location::Target(Target::new(1, 0));
    let mut b: SubgraphBuilder<RootTimestamp, i32> = SubgraphBuilder::new();
    b.add_child(1, 1, 0);
    b.add_input(Location::Target(Target::new(0, 0)), op_in);
    let mut g = b.build().unwrap();
    let out = g.enter(&vec![(Location::Target(Target::new(0, 0)), RootTimestamp, 2)]).unwrap();
    assert!(out.is_empty());
    assert_eq!(g.frontier(&op_in), vec![0i32]);
    let back = g.enter(&vec![(Location::Target(Target::new(0, 0)), RootTimestamp, -2)]);
    assert!(back.is_ok());
    assert!(g.is_quiescent());
}
