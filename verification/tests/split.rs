use datarust::model_selection::split::{check_split_shape, partition_indices, train_test_indices};
use datarust::DatarustError;

fn n_test(n: usize, ratio: f64) -> usize {
    (n as f64 * ratio).round() as usize
}

#[test]
fn split_default_sizes() {
    let (test, train) = train_test_indices(100, n_test(100, 0.25), true, None);
    assert_eq!(test.len(), 25);
    assert_eq!(train.len(), 75);
}

#[test]
fn split_custom_test_size() {
    let (test, train) = train_test_indices(100, n_test(100, 0.3), true, None);
    assert_eq!(test.len(), 30);
    assert_eq!(train.len(), 70);
}

#[test]
fn split_no_shuffle_preserves_order() {
    let (test, train) = train_test_indices(10, n_test(10, 0.25), false, None);
    assert_eq!(test, vec![0, 1, 2]);
    assert_eq!(train, vec![3, 4, 5, 6, 7, 8, 9]);
}

#[test]
fn split_shuffle_deterministic_with_seed() {
    let a = train_test_indices(100, 20, true, Some(42));
    let b = train_test_indices(100, 20, true, Some(42));
    assert_eq!(a, b);
    let c = train_test_indices(100, 20, true, Some(43));
    assert_ne!(a, c);
}

#[test]
fn split_all_samples_present() {
    let (test, train) = train_test_indices(50, n_test(50, 0.25), true, None);
    let mut all: Vec<usize> = test.iter().chain(train.iter()).copied().collect();
    all.sort();
    assert_eq!(all, (0..50).collect::<Vec<usize>>());
}

#[test]
fn split_test_count_clamped() {
    let (test, train) = train_test_indices(10, 0, false, None);
    assert_eq!(test, vec![0]);
    assert_eq!(train.len(), 9);
    let (test, train) = train_test_indices(10, 40, false, None);
    assert_eq!(test.len(), 9);
    assert_eq!(train, vec![9]);
}

#[test]
fn split_shape_checks() {
    assert!(matches!(check_split_shape(0, 0), Err(DatarustError::EmptyInput(_))));
    match check_split_shape(1, 0) {
        Err(DatarustError::ShapeMismatch { expected, actual }) => {
            assert_eq!(expected, "1 targets");
            assert_eq!(actual, "0 targets");
        }
        other => panic!("unexpected {:?}", other),
    }
    assert!(check_split_shape(3, 3).is_ok());
}

#[test]
fn split_partition_indices_cuts() {
    let (a, b) = partition_indices(&vec![4, 2, 0, 1, 3], 2);
    assert_eq!(a, vec![4, 2]);
    assert_eq!(b, vec![0, 1, 3]);
}
