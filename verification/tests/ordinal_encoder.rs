use datarust::{CodeMatrix, DatarustError, OrdinalCategories, OrdinalEncoder, OrdinalHandleUnknown, StrMatrix};

#[test]
fn basic_auto_fit() {
    let s = StrMatrix::from_column(vec!["small", "medium", "large", "small"]).unwrap();
    let mut enc = OrdinalEncoder::new(OrdinalCategories::Auto);
    let out = enc.fit_transform(&s).unwrap();
    // categories sorted: large(0), medium(1), small(2)
    assert_eq!(enc.categories()[0], &["large", "medium", "small"]);
    assert_eq!(out.row(0), [2]); // small
    assert_eq!(out.row(1), [1]); // medium
    assert_eq!(out.row(2), [0]); // large
}

#[test]
fn manual_categories() {
    let s = StrMatrix::from_column(vec!["small", "medium", "large"]).unwrap();
    let mut enc = OrdinalEncoder::new(OrdinalCategories::Manual(vec![vec![
        "small".into(),
        "medium".into(),
        "large".into(),
    ]]));
    let out = enc.fit_transform(&s).unwrap();
    assert_eq!(out.row(0), [0]);
    assert_eq!(out.row(1), [1]);
    assert_eq!(out.row(2), [2]);
}

#[test]
fn ordinal_inverse_round_trip() {
    let original = vec!["cat", "dog", "bird", "dog"];
    let s = StrMatrix::from_column(original.clone()).unwrap();
    let mut enc = OrdinalEncoder::new(OrdinalCategories::Auto);
    let encoded = enc.fit_transform(&s).unwrap();
    let decoded = enc.inverse_transform(&encoded).unwrap();
    for (i, &orig) in original.iter().enumerate() {
        assert_eq!(decoded.get(i, 0), orig);
    }
}

#[test]
fn inverse_bad_index_errors() {
    let s = StrMatrix::from_column(vec!["a", "b"]).unwrap();
    let mut enc = OrdinalEncoder::new(OrdinalCategories::Auto);
    enc.fit(&s).unwrap();
    let bad = CodeMatrix::new(vec![vec![0], vec![5]]).unwrap();
    assert!(enc.inverse_transform(&bad).is_err());
}

#[test]
fn ordinal_multi_column() {
    let s = StrMatrix::from_strings(vec![vec!["a", "x"], vec!["b", "y"], vec!["a", "y"]]).unwrap();
    let mut enc = OrdinalEncoder::new(OrdinalCategories::Auto);
    let out = enc.fit_transform(&s).unwrap();
    assert_eq!(out.ncols(), 2);
    // col0: a(0), b(1) ; col1: x(0), y(1)
    assert_eq!(out.row(0), [0, 0]);
    assert_eq!(out.row(1), [1, 1]);
    assert_eq!(out.row(2), [0, 1]);
}

#[test]
fn ordinal_handle_unknown_error() {
    let s = StrMatrix::from_column(vec!["a", "b"]).unwrap();
    let mut enc = OrdinalEncoder::new(OrdinalCategories::Auto);
    enc.fit(&s).unwrap();
    let s2 = StrMatrix::from_column(vec!["a", "z"]).unwrap();
    assert!(matches!(enc.transform(&s2), Err(DatarustError::UnknownCategory(_))));
}

#[test]
fn handle_unknown_neg_one() {
    let s = StrMatrix::from_column(vec!["a", "b"]).unwrap();
    let mut enc =
        OrdinalEncoder::new(OrdinalCategories::Auto).handle_unknown(OrdinalHandleUnknown::UseNegOne);
    enc.fit(&s).unwrap();
    let s2 = StrMatrix::from_column(vec!["a", "z"]).unwrap();
    let out = enc.transform(&s2).unwrap();
    assert_eq!(out.row(0), [0]);
    assert_eq!(out.row(1), [-1]);
}

#[test]
fn manual_column_count_mismatch_errors() {
    let s = StrMatrix::from_column(vec!["a", "b"]).unwrap();
    let mut enc = OrdinalEncoder::new(OrdinalCategories::Manual(vec![
        vec!["a".into()],
        vec!["b".into()],
    ]));
    assert!(enc.fit(&s).is_err());
}

#[test]
fn manual_duplicate_category_errors() {
    let s = StrMatrix::from_column(vec!["a", "b"]).unwrap();
    let mut enc = OrdinalEncoder::new(OrdinalCategories::Manual(vec![vec!["a".into(), "a".into()]]));
    assert!(enc.fit(&s).is_err());
}

#[test]
fn ordinal_transform_before_fit_errors() {
    let enc = OrdinalEncoder::new(OrdinalCategories::Auto);
    let s = StrMatrix::from_column(vec!["a"]).unwrap();
    assert!(matches!(enc.transform(&s), Err(DatarustError::NotFitted(_))));
}

#[test]
fn inverse_before_fit_errors() {
    let enc = OrdinalEncoder::new(OrdinalCategories::Auto);
    let m = CodeMatrix::new(vec![vec![0]]).unwrap();
    assert!(matches!(enc.inverse_transform(&m), Err(DatarustError::NotFitted(_))));
}

#[test]
fn ordinal_error_messages() {
    let s = StrMatrix::from_column(vec!["a", "b"]).unwrap();
    let mut enc = OrdinalEncoder::new(OrdinalCategories::Auto);
    enc.fit(&s).unwrap();
    let bad = CodeMatrix::new(vec![vec![0], vec![-3]]).unwrap();
    match enc.inverse_transform(&bad) {
        Err(DatarustError::UnknownLabel(m)) => assert_eq!(m, "index -3 out of range for column 0"),
        other => panic!("unexpected {:?}", other),
    }
    let mut dup = OrdinalEncoder::new(OrdinalCategories::Manual(vec![vec!["a".into(), "a".into()]]));
    match dup.fit(&s) {
        Err(DatarustError::InvalidConfig(m)) => assert_eq!(m, "duplicate category in column 0"),
        other => panic!("unexpected {:?}", other),
    }
    let mut two = OrdinalEncoder::new(OrdinalCategories::Manual(vec![vec!["a".into()], vec!["b".into()]]));
    match two.fit(&s) {
        Err(DatarustError::ShapeMismatch { expected, actual }) => {
            assert_eq!(expected, "1 category lists");
            assert_eq!(actual, "2 lists");
        }
        other => panic!("unexpected {:?}", other),
    }
}
