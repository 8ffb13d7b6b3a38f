use timely_progress::location::{Location, Source, Target};
use timely_progress::pointstamp_counter::{consolidate, negate_batch, CountError, PointstampCounter};

fn src(node: usize) -> Location {
    Location::Source(Source::new(node, 0))
}

fn tgt(node: usize) -> Location {
    Location::Target(Target::new(node, 0))
}

fn sorted(mut v: Vec<u64>) -> Vec<u64> {
    v.sort();
    v
}

#[test]
fn counts_and_frontier() {
    let mut c: PointstampCounter<u64> = PointstampCounter::new();
    assert!(c.is_quiescent());
    assert_eq!(c.apply_batch(&vec![(src(0), 3, 2), (src(0), 5, 1), (tgt(1), 1, 1)]), Ok(()));
    assert_eq!(c.count_of(&src(0), &3), 2);
    assert_eq!(c.count_of(&src(0), &5), 1);
    assert_eq!(c.count_of(&src(0), &4), 0);
    assert_eq!(c.frontier(&src(0)), vec![3]);
    assert_eq!(c.frontier(&tgt(1)), vec![1]);
    assert_eq!(c.frontier(&tgt(0)), Vec::<u64>::new());
    assert!(!c.is_quiescent());
}

#[test]
fn frontier_moves_when_least_retires() {
    let mut c: PointstampCounter<u64> = PointstampCounter::new();
    assert_eq!(c.apply_batch(&vec![(src(0), 3, 1), (src(0), 5, 1)]), Ok(()));
    assert_eq!(c.apply_batch(&vec![(src(0), 3, -1)]), Ok(()));
    assert_eq!(c.frontier(&src(0)), vec![5]);
}

#[test]
fn frontier_is_antichain() {
    let mut c: PointstampCounter<u32> = PointstampCounter::new();
    assert_eq!(c.apply_batch(&vec![(src(2), 9, 1), (src(2), 4, 1), (src(2), 4, 1), (src(2), 7, 3)]), Ok(()));
    let f = c.frontier(&src(2));
    assert_eq!(f, vec![4]);
    for a in &f {
        for b in &f {
            assert!(a == b || !(a <= b));
        }
    }
}

#[test]
fn compensating_changes_within_a_batch() {
    let mut c: PointstampCounter<u64> = PointstampCounter::new();
    // the retirement comes first, the announcement after: the batch nets to zero
    assert_eq!(c.apply_batch(&vec![(src(0), 1, -1), (src(0), 1, 1)]), Ok(()));
    assert!(c.is_quiescent());
}

#[test]
fn negative_count_refused() {
    let mut c: PointstampCounter<u64> = PointstampCounter::new();
    assert_eq!(c.apply_batch(&vec![(src(0), 1, 1)]), Ok(()));
    assert_eq!(c.apply_batch(&vec![(src(0), 2, 5), (src(0), 1, -2)]), Err(CountError::Negative));
    // nothing of the refused batch was taken
    assert_eq!(c.count_of(&src(0), &1), 1);
    assert_eq!(c.count_of(&src(0), &2), 0);
}

#[test]
fn overflowing_count_refused() {
    let mut c: PointstampCounter<u64> = PointstampCounter::new();
    assert_eq!(c.apply_batch(&vec![(src(0), 1, i64::MAX)]), Ok(()));
    assert_eq!(c.apply_batch(&vec![(src(0), 1, 1)]), Err(CountError::Overflow));
    assert_eq!(c.count_of(&src(0), &1), i64::MAX);
}

#[test]
fn batch_then_negation_restores() {
    let mut c: PointstampCounter<u64> = PointstampCounter::new();
    assert_eq!(c.apply_batch(&vec![(src(0), 4, 1), (tgt(0), 6, 2)]), Ok(()));
    let batch = vec![(src(0), 2, 3), (src(0), 4, 1), (tgt(0), 1, 1)];
    assert_eq!(c.apply_batch(&batch), Ok(()));
    assert_eq!(c.frontier(&src(0)), vec![2]);
    let neg = negate_batch(&batch);
    assert_eq!(neg, vec![(src(0), 2, -3), (src(0), 4, -1), (tgt(0), 1, -1)]);
    assert_eq!(c.apply_batch(&neg), Ok(()));
    assert_eq!(c.frontier(&src(0)), vec![4]);
    assert_eq!(c.frontier(&tgt(0)), vec![6]);
    assert_eq!(c.count_of(&src(0), &4), 1);
    assert_eq!(c.count_of(&tgt(0), &6), 2);
}

#[test]
fn batch_order_does_not_matter() {
    let batch = vec![(src(0), 2, 3), (src(1), 4, 1), (src(0), 2, -1), (src(0), 7, 1)];
    let mut permuted = batch.clone();
    permuted.reverse();
    permuted.swap(0, 2);
    let mut a: PointstampCounter<u64> = PointstampCounter::new();
    let mut b: PointstampCounter<u64> = PointstampCounter::new();
    assert_eq!(a.apply_batch(&batch), Ok(()));
    assert_eq!(b.apply_batch(&permuted), Ok(()));
    for l in [src(0), src(1)] {
        assert_eq!(sorted(a.frontier(&l)), sorted(b.frontier(&l)));
        for t in [2u64, 4, 7] {
            assert_eq!(a.count_of(&l, &t), b.count_of(&l, &t));
        }
    }
    assert_eq!(a.count_of(&src(0), &2), 2);
}

#[test]
fn quiescent_after_all_retired() {
    let mut c: PointstampCounter<u64> = PointstampCounter::new();
    assert_eq!(c.apply_batch(&vec![(src(0), 1, 2), (tgt(3), 8, 1)]), Ok(()));
    assert_eq!(c.apply_batch(&vec![(src(0), 1, -2), (tgt(3), 8, -1)]), Ok(()));
    assert!(c.is_quiescent());
    assert!(c.frontier(&src(0)).is_empty());
    assert!(c.frontier(&tgt(3)).is_empty());
    assert_eq!(c.apply_batch(&vec![]), Ok(()));
    assert!(c.is_quiescent());
}

#[test]
fn consolidate_sums_per_pair() {
    let out = consolidate(&vec![(src(0), 1u64, 2), (src(1), 1, 1), (src(0), 1, 3), (src(1), 1, -1)]).unwrap();
    assert_eq!(out, vec![(src(0), 1, 5)]);
    assert_eq!(consolidate::<u64>(&vec![]).unwrap(), vec![]);
}

#[test]
fn consolidate_reports_overflow() {
    assert_eq!(consolidate(&vec![(src(0), 1u64, i64::MAX), (src(0), 1, 1)]), None);
    // partial sums beyond i64 are fine when the net fits
    let out = consolidate(&vec![(src(0), 1u64, i64::MAX), (src(0), 1, 1), (src(0), 1, -2)]).unwrap();
    assert_eq!(out, vec![(src(0), 1, i64::MAX - 1)]);
}

#[test]
fn snapshot_lists_outstanding_counts() {
    let mut c: PointstampCounter<u64> = PointstampCounter::new();
    assert!(c.snapshot().is_empty());
    assert_eq!(c.apply_batch(&vec![(src(0), 3, 2), (tgt(1), 1, 1), (src(0), 3, 1), (tgt(1), 1, -1)]), Ok(()));
    assert_eq!(c.snapshot(), vec![(src(0), 3, 3)]);
}
