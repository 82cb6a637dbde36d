use datarust::{DatarustError, FrequencyEncoder, StrMatrix, UnknownFrequency};

/// The proportions a normalized encoder stands for: each count divided by
/// the number of rows fitted on.
fn proportions(fe: &FrequencyEncoder, counts: &datarust::CodeMatrix) -> Vec<Vec<f64>> {
    let inv = 1.0 / fe.fit_rows() as f64;
    (0..counts.nrows())
        .map(|i| counts.row(i).iter().map(|&c| c as f64 * inv).collect())
        .collect()
}

#[test]
fn basic_counts() {
    let x = StrMatrix::from_column(vec!["A", "A", "A", "B", "B", "C"]).unwrap();
    let mut fe = FrequencyEncoder::new(false);
    let out = fe.fit_transform(&x).unwrap();
    // A -> 3, B -> 2, C -> 1
    assert_eq!(out.row(0), [3]);
    assert_eq!(out.row(1), [3]);
    assert_eq!(out.row(3), [2]);
    assert_eq!(out.row(5), [1]);
}

#[test]
fn normalized_proportions() {
    let x = StrMatrix::from_column(vec!["A", "A", "B", "C"]).unwrap();
    let mut fe = FrequencyEncoder::new(true);
    let counts = fe.fit_transform(&x).unwrap();
    let out = proportions(&fe, &counts);
    // n=4: A -> 0.5, B -> 0.25, C -> 0.25
    assert!((out[0][0] - 0.5).abs() < 1e-12);
    assert!((out[2][0] - 0.25).abs() < 1e-12);
    assert!((out[3][0] - 0.25).abs() < 1e-12);
}

#[test]
fn unknown_maps_to_zero() {
    let x = StrMatrix::from_column(vec!["A", "B"]).unwrap();
    let mut fe = FrequencyEncoder::new(false);
    fe.fit(&x).unwrap();
    let x2 = StrMatrix::from_column(vec!["A", "Z"]).unwrap();
    let out = fe.transform(&x2).unwrap();
    assert_eq!(out.get(0, 0), 1);
    assert_eq!(out.get(1, 0), 0); // unknown -> 0
}

#[test]
fn frequency_multi_column_independent() {
    let x = StrMatrix::from_strings(vec![vec!["a", "x"], vec!["a", "y"], vec!["b", "x"]]).unwrap();
    let mut fe = FrequencyEncoder::new(false);
    let out = fe.fit_transform(&x).unwrap();
    assert_eq!(out.ncols(), 2);
    // col0: a=2, b=1 ; col1: x=2, y=1
    assert_eq!(out.get(0, 0), 2);
    assert_eq!(out.get(2, 0), 1);
    assert_eq!(out.get(0, 1), 2);
    assert_eq!(out.get(1, 1), 1);
}

#[test]
fn frequency_transform_before_fit_errors() {
    let fe = FrequencyEncoder::new(false);
    let x = StrMatrix::from_column(vec!["a"]).unwrap();
    assert!(matches!(fe.transform(&x), Err(DatarustError::NotFitted(_))));
}

#[test]
fn frequency_column_count_mismatch() {
    let x = StrMatrix::from_strings(vec![vec!["a", "b"], vec!["c", "d"]]).unwrap();
    let mut fe = FrequencyEncoder::new(false);
    fe.fit(&x).unwrap();
    let x2 = StrMatrix::from_column(vec!["a"]).unwrap();
    assert!(fe.transform(&x2).is_err());
}

#[test]
fn counts_sum_to_n() {
    let x = StrMatrix::from_column(vec!["A", "A", "B", "C", "C", "C"]).unwrap();
    let mut fe = FrequencyEncoder::new(false);
    let out = fe.fit_transform(&x).unwrap();
    let s: i128 = (0..out.nrows()).map(|i| out.row(i).iter().sum::<i128>()).sum();
    // counts: A=2 -> two rows of 2 = 4 ; B=1 -> one row of 1 ; C=3 -> three rows of 3 = 9
    assert_eq!(s, 14);
}

#[test]
fn frequency_unknown_error_mode() {
    let x = StrMatrix::from_column(vec!["A", "B"]).unwrap();
    let mut fe = FrequencyEncoder::new(false).handle_unknown(UnknownFrequency::Error);
    fe.fit(&x).unwrap();
    let x2 = StrMatrix::from_column(vec!["A", "Z"]).unwrap();
    assert!(matches!(fe.transform(&x2), Err(DatarustError::UnknownCategory(_))));
}

#[test]
fn feature_names_short_input_pads_with_synthetic() {
    let x = StrMatrix::from_strings(vec![vec!["a", "x"], vec!["b", "y"]]).unwrap();
    let mut fe = FrequencyEncoder::new(false);
    fe.fit(&x).unwrap();
    // 2 columns but only 1 name provided
    let names = fe.feature_names_out(Some(&["city".into()]));
    assert_eq!(names, vec!["city".to_string(), "x1".to_string()]);
}

#[test]
fn frequency_unknown_error_text() {
    let x = StrMatrix::from_strings(vec![vec!["a", "x"], vec!["b", "y"]]).unwrap();
    let mut fe = FrequencyEncoder::new(false).handle_unknown(UnknownFrequency::Error);
    fe.fit(&x).unwrap();
    let x2 = StrMatrix::from_strings(vec![vec!["a", "x"], vec!["a", "q"]]).unwrap();
    match fe.transform(&x2) {
        Err(DatarustError::UnknownCategory(m)) => assert_eq!(m, "column 1 value 'q'"),
        other => panic!("unexpected {:?}", other),
    }
    assert_eq!(UnknownFrequency::default(), UnknownFrequency::Zero);
    assert!(!FrequencyEncoder::default().normalized());
    assert_eq!(fe.fit_rows(), 2);
}

#[test]
fn frequency_category_counts_add_up_to_rows() {
    let x = StrMatrix::from_strings(vec![
        vec!["A", "p"],
        vec!["A", "q"],
        vec!["B", "p"],
        vec!["C", "p"],
        vec!["C", "p"],
    ])
    .unwrap();
    let mut fe = FrequencyEncoder::new(false);
    fe.fit(&x).unwrap();
    for col in fe.counts() {
        assert_eq!(col.iter().sum::<usize>(), 5);
    }
    assert_eq!(fe.counts()[0], vec![2, 1, 2]);
    assert_eq!(fe.categories()[1], vec!["p".to_string(), "q".to_string()]);
}
