use datarust::{DatarustError, LabelEncoder};

#[test]
fn basic_fit_transform() {
    let mut le = LabelEncoder::new();
    let out = le.fit_transform(&["dog", "cat", "bird"]).unwrap();
    // classes sorted: bird(0), cat(1), dog(2)
    assert_eq!(le.classes(), &["bird", "cat", "dog"]);
    // input dog, cat, bird -> 2, 1, 0
    assert_eq!(out, vec![2, 1, 0]);
}

#[test]
fn duplicate_labels_deduped() {
    let mut le = LabelEncoder::new();
    let out = le.fit_transform(&["a", "b", "a", "b", "c"]).unwrap();
    assert_eq!(le.classes(), &["a", "b", "c"]);
    assert_eq!(out, vec![0, 1, 0, 1, 2]);
}

#[test]
fn transform_on_new_data() {
    let mut le = LabelEncoder::new();
    le.fit(&["a", "b", "c"]).unwrap();
    let out = le.transform(&["c", "a", "b"]).unwrap();
    assert_eq!(out, vec![2, 0, 1]);
}

#[test]
fn unknown_label_errors() {
    let mut le = LabelEncoder::new();
    le.fit(&["a", "b"]).unwrap();
    let err = le.transform(&["a", "z"]).unwrap_err();
    assert!(matches!(err, DatarustError::UnknownLabel(s) if s == "z"));
}

#[test]
fn label_inverse_round_trip() {
    let original = ["dog", "cat", "bird", "dog"];
    let mut le = LabelEncoder::new();
    let enc = le.fit_transform(&original).unwrap();
    let dec = le.inverse_transform(&enc).unwrap();
    assert_eq!(dec, original);
}

#[test]
fn inverse_bad_index() {
    let mut le = LabelEncoder::new();
    le.fit(&["a", "b"]).unwrap();
    assert!(le.inverse_transform(&[0, 5]).is_err());
}

#[test]
fn empty_fit_errors() {
    let mut le = LabelEncoder::new();
    let err = le.fit(&[]).unwrap_err();
    assert!(matches!(err, DatarustError::EmptyInput(_)));
}

#[test]
fn label_transform_before_fit_errors() {
    let le = LabelEncoder::new();
    assert!(matches!(le.transform(&["a"]), Err(DatarustError::NotFitted(_))));
}

#[test]
fn preserves_lexicographic_order_numeric_strings() {
    let mut le = LabelEncoder::new();
    le.fit(&["10", "2", "1"]).unwrap();
    // sorted lexicographically: "1","10","2"
    assert_eq!(le.classes(), &["1", "10", "2"]);
}

#[test]
fn label_inverse_bad_index_message() {
    let mut le = LabelEncoder::new();
    le.fit(&["a", "b"]).unwrap();
    let err = le.inverse_transform(&[0, 5]).unwrap_err();
    assert!(matches!(&err, DatarustError::UnknownLabel(s) if s == "index 5"));
    assert_eq!(err.to_string(), "unknown label: index 5");
}

#[test]
fn label_failed_fit_keeps_classes() {
    let mut le = LabelEncoder::new();
    le.fit(&["x", "y"]).unwrap();
    assert!(le.fit(&[]).is_err());
    assert_eq!(le.classes(), &["x", "y"]);
    assert_eq!(le.transform(&["y"]).unwrap(), vec![1]);
}

#[test]
fn label_non_ascii_sorted_by_bytes() {
    let mut le = LabelEncoder::new();
    le.fit(&["é", "z", "a", "Z"]).unwrap();
    assert_eq!(le.classes(), &["Z", "a", "z", "é"]);
}
