use datarust::{fold_sizes, DatarustError, KFold, Rng, StratifiedKFold};
use std::collections::HashSet;

/// Binary class membership of float targets, as the splitter reads them.
fn classes(y: &[f64]) -> Vec<bool> {
    y.iter().map(|&v| v >= 0.5).collect()
}

#[test]
fn kfold_default_five_folds() {
    let kf = KFold::new();
    let folds: Vec<_> = kf.split(20).unwrap();
    assert_eq!(folds.len(), 5);
    for (train, test) in &folds {
        assert_eq!(train.len() + test.len(), 20);
    }
}

#[test]
fn kfold_each_sample_tested_once() {
    let kf = KFold::new().with_n_splits(4);
    let folds: Vec<_> = kf.split(12).unwrap();
    let mut all_test: Vec<usize> = folds.iter().flat_map(|(_, t)| t.iter().copied()).collect();
    all_test.sort();
    assert_eq!(all_test, (0..12).collect::<Vec<_>>());
}

#[test]
fn kfold_train_test_disjoint() {
    let kf = KFold::new().with_n_splits(3);
    for (train, test) in kf.split(9).unwrap() {
        let tr: HashSet<usize> = train.iter().copied().collect();
        let te: HashSet<usize> = test.iter().copied().collect();
        assert!(tr.is_disjoint(&te));
    }
}

#[test]
fn kfold_remainder_distributed() {
    // 10 samples, 3 folds -> sizes 4, 3, 3.
    let sizes = fold_sizes(10, 3);
    assert_eq!(sizes, vec![4, 3, 3]);
}

#[test]
fn kfold_shuffle_deterministic() {
    let kf = KFold::new().with_n_splits(3).with_shuffle(true).with_random_state(7);
    let a: Vec<_> = kf.split(15).unwrap();
    let b: Vec<_> = kf.split(15).unwrap();
    assert_eq!(a, b);
}

#[test]
fn kfold_shuffle_still_covers_all() {
    let kf = KFold::new().with_n_splits(4).with_shuffle(true).with_random_state(1);
    let folds: Vec<_> = kf.split(20).unwrap();
    let mut all_test: Vec<usize> = folds.iter().flat_map(|(_, t)| t.iter().copied()).collect();
    all_test.sort();
    assert_eq!(all_test, (0..20).collect::<Vec<_>>());
}

#[test]
fn kfold_n_splits_too_large_rejected() {
    let kf = KFold::new().with_n_splits(11);
    let res = kf.split(10);
    assert!(matches!(res, Err(DatarustError::InvalidInput(_))));
}

#[test]
fn kfold_n_splits_too_small_rejected() {
    let kf = KFold::new().with_n_splits(1);
    let res = kf.split(10);
    assert!(matches!(res, Err(DatarustError::InvalidInput(_))));
}

#[test]
fn stratified_preserves_class_balance() {
    // 20 samples, 10 of class 0, 10 of class 1.
    let y: Vec<f64> = (0..20).map(|i| if i < 10 { 0.0 } else { 1.0 }).collect();
    let skf = StratifiedKFold::new().with_n_splits(4);
    let folds: Vec<_> = skf.split(&classes(&y)).unwrap();
    assert_eq!(folds.len(), 4);
    for (_, test) in &folds {
        let n1 = test.iter().filter(|&&i| y[i] >= 0.5).count();
        let n0 = test.len() - n1;
        // Each fold should have roughly balanced classes.
        assert!(n0 > 0 && n1 > 0, "fold has no class diversity: {test:?}");
    }
}

#[test]
fn stratified_covers_all_samples() {
    let y: Vec<f64> = (0..16).map(|i| if i % 3 == 0 { 1.0 } else { 0.0 }).collect();
    let skf = StratifiedKFold::new().with_n_splits(4);
    let folds: Vec<_> = skf.split(&classes(&y)).unwrap();
    let mut all_test: Vec<usize> = folds.iter().flat_map(|(_, t)| t.iter().copied()).collect();
    all_test.sort();
    assert_eq!(all_test, (0..16).collect::<Vec<_>>());
}

#[test]
fn stratified_train_test_disjoint() {
    let y: Vec<f64> = vec![0.0, 0.0, 1.0, 1.0, 0.0, 1.0, 0.0, 1.0];
    let skf = StratifiedKFold::new().with_n_splits(2);
    for (train, test) in skf.split(&classes(&y)).unwrap() {
        let tr: HashSet<usize> = train.iter().copied().collect();
        let te: HashSet<usize> = test.iter().copied().collect();
        assert!(tr.is_disjoint(&te));
    }
}

#[test]
fn kfold_exact_blocks_without_shuffle() {
    let folds = KFold::new().with_n_splits(3).split(7).unwrap();
    assert_eq!(folds[0], (vec![3, 4, 5, 6], vec![0, 1, 2]));
    assert_eq!(folds[1], (vec![0, 1, 2, 5, 6], vec![3, 4]));
    assert_eq!(folds[2], (vec![0, 1, 2, 3, 4], vec![5, 6]));
}

#[test]
fn kfold_error_messages() {
    match KFold::new().split(0) {
        Err(DatarustError::EmptyInput(m)) => assert_eq!(m, "n_samples is 0"),
        other => panic!("unexpected {:?}", other.is_ok()),
    }
    match KFold::new().with_n_splits(1).split(4) {
        Err(DatarustError::InvalidInput(m)) => assert_eq!(m, "n_splits must be >= 2, got 1"),
        other => panic!("unexpected {:?}", other.is_ok()),
    }
    match KFold::new().with_n_splits(11).split(10) {
        Err(DatarustError::InvalidInput(m)) => {
            assert_eq!(m, "n_splits (11) cannot be greater than n_samples (10)")
        }
        other => panic!("unexpected {:?}", other.is_ok()),
    }
    assert!(matches!(StratifiedKFold::new().split(&[]), Err(DatarustError::EmptyInput(_))));
}

#[test]
fn stratified_round_robin_exact() {
    let y = vec![false, true, false, true, false, false];
    let folds = StratifiedKFold::new().with_n_splits(2).split(&y).unwrap();
    // negatives 0,2,4,5 and positives 1,3 dealt alternately
    assert_eq!(folds[0].1, vec![0, 4, 1]);
    assert_eq!(folds[0].0, vec![2, 3, 5]);
    assert_eq!(folds[1].1, vec![2, 5, 3]);
    assert_eq!(folds[1].0, vec![0, 1, 4]);
}

#[test]
fn stratified_shuffle_covers_all_and_is_deterministic() {
    let y: Vec<bool> = (0..13).map(|i| i % 4 == 0).collect();
    let skf = StratifiedKFold::new().with_n_splits(3).with_shuffle(true).with_random_state(5);
    let a = skf.split(&y).unwrap();
    assert_eq!(a, skf.split(&y).unwrap());
    let mut all: Vec<usize> = a.iter().flat_map(|(_, t)| t.iter().copied()).collect();
    all.sort();
    assert_eq!(all, (0..13).collect::<Vec<_>>());
}

#[test]
fn rng_shuffle_is_permutation_and_seeded() {
    let mut v: Vec<usize> = (0..10).collect();
    Rng::new(3).shuffle(&mut v);
    let mut w: Vec<usize> = (0..10).collect();
    Rng::new(3).shuffle(&mut w);
    assert_eq!(v, w);
    let mut sorted = v.clone();
    sorted.sort();
    assert_eq!(sorted, (0..10).collect::<Vec<_>>());
    // a zero seed uses the fixed default state, not a zero state
    let mut z = Rng::new(0);
    assert_ne!(z.next_u64(), 0);
}
