use brusque::{StepCounter, FOLD_THRESHOLD};
use num::bigint::BigUint;

#[test]
fn fresh_counter_has_counted_nothing() {
    let counter = StepCounter::new(FOLD_THRESHOLD);
    assert_eq!(counter.pending, 0);
    assert!(counter.folded.is_empty());
    assert_eq!(counter.threshold, 1_000_000_000);
    assert_eq!(BigUint::new(counter.total_digits()), BigUint::from(0u32));
}

#[test]
fn fold_comes_when_the_threshold_is_reached() {
    let mut counter = StepCounter::new(3);
    assert_eq!(counter.tick(false), None);
    assert_eq!(counter.pending, 1);
    assert_eq!(counter.tick(false), None);
    assert_eq!(counter.pending, 2);
    assert_eq!(counter.tick(false), Some(vec![3]));
    assert_eq!(counter.pending, 0);
    assert_eq!(counter.folded, vec![3]);
    assert_eq!(counter.tick(false), None);
    assert_eq!(counter.tick(false), None);
    assert_eq!(counter.tick(false), Some(vec![6]));
    assert_eq!(counter.tick(false), None);
    assert_eq!(counter.total_digits(), vec![7]);
}

#[test]
fn forced_fold_comes_with_every_step() {
    let mut counter = StepCounter::new(1000);
    assert_eq!(counter.tick(true), Some(vec![1]));
    assert_eq!(counter.tick(true), Some(vec![2]));
    assert_eq!(counter.pending, 0);
    assert_eq!(counter.tick(false), None);
    assert_eq!(counter.tick(true), Some(vec![4]));
    assert_eq!(counter.total_digits(), vec![4]);
}

#[test]
fn threshold_of_one_folds_every_step() {
    let mut counter = StepCounter::new(1);
    assert_eq!(counter.tick(false), Some(vec![1]));
    assert_eq!(counter.tick(false), Some(vec![2]));
}

#[test]
fn total_adds_pending_to_folded() {
    let counter = StepCounter { folded: vec![5], pending: 2, threshold: 10 };
    assert_eq!(counter.total_digits(), vec![7]);
    assert_eq!(counter.folded, vec![5]);
}

#[test]
fn fold_carries_into_the_next_digit() {
    let mut counter = StepCounter { folded: vec![u32::MAX], pending: 0, threshold: 1 };
    assert_eq!(counter.tick(false), Some(vec![0, 1]));
    let mut counter = StepCounter { folded: vec![u32::MAX, u32::MAX], pending: 6, threshold: 7 };
    assert_eq!(counter.tick(false), Some(vec![6, 0, 1]));
}

#[test]
fn total_beyond_a_machine_word() {
    let mut counter =
        StepCounter { folded: vec![0, 0, 1], pending: usize::MAX - 1, threshold: usize::MAX };
    let expected = (BigUint::from(1u32) << 64) + BigUint::from(usize::MAX);
    assert_eq!(BigUint::new(counter.tick(false).unwrap()), expected);
    assert_eq!(BigUint::new(counter.total_digits()), expected);
}

#[test]
fn count_is_exact_over_many_folds() {
    let mut counter = StepCounter::new(7);
    let mut folds = 0;
    for made in 1..=1000u32 {
        if counter.tick(false).is_some() {
            folds += 1;
        }
        assert_eq!(counter.total_digits(), vec![made]);
    }
    assert_eq!(folds, 1000 / 7);
}
