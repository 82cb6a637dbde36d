use datarust::{
    DropStrategy, FrequencyEncoder, HandleUnknown, LabelEncoder, OneHotEncoder, OrdinalCategories,
    OrdinalEncoder, OrdinalHandleUnknown, StrMatrix, UnknownFrequency,
};

fn strings(v: &[&str]) -> Vec<String> {
    v.iter().map(|s| s.to_string()).collect()
}

#[test]
fn restore_label_encoder() {
    let le = LabelEncoder::restore(strings(&["a", "b"]), true).unwrap();
    assert_eq!(le.classes(), &["a", "b"]);
    assert_eq!(le.transform(&["b", "a"]).unwrap(), vec![1, 0]);
    assert!(LabelEncoder::restore(strings(&["b", "a"]), true).is_none());
    assert!(LabelEncoder::restore(strings(&["a"]), false).is_none());
    assert!(LabelEncoder::restore(vec![], false).is_some());
}

#[test]
fn restore_onehot_encoder_round_trip() {
    let x = StrMatrix::from_strings(vec![vec!["a", "x"], vec!["b", "y"]]).unwrap();
    let mut ohe = OneHotEncoder::new().drop(DropStrategy::First);
    ohe.fit(&x).unwrap();
    let copy = OneHotEncoder::restore(
        DropStrategy::First,
        HandleUnknown::Error,
        false,
        ohe.categories().to_vec(),
        ohe.n_output_cols(),
        true,
    )
    .unwrap();
    assert_eq!(copy.transform(&x).unwrap(), ohe.transform(&x).unwrap());
    assert_eq!(copy.n_output_cols(), 2);
    let unsorted = vec![strings(&["b", "a"])];
    assert!(OneHotEncoder::restore(DropStrategy::KeepAll, HandleUnknown::Error, false, unsorted, 2, true)
        .is_none());
    assert!(OneHotEncoder::restore(
        DropStrategy::KeepAll,
        HandleUnknown::Error,
        false,
        vec![strings(&["a"])],
        1,
        false
    )
    .is_none());
}

#[test]
fn restore_ordinal_encoder() {
    let lists = vec![strings(&["lo", "hi"])];
    let enc = OrdinalEncoder::restore(
        OrdinalCategories::Manual(lists.clone()),
        OrdinalHandleUnknown::UseNegOne,
        lists,
        true,
    )
    .unwrap();
    let x = StrMatrix::from_column(vec!["hi", "lo", "zz"]).unwrap();
    let out = enc.transform(&x).unwrap();
    assert_eq!(out.row(0), [1]);
    assert_eq!(out.row(1), [0]);
    assert_eq!(out.row(2), [-1]);
    assert!(OrdinalEncoder::restore(
        OrdinalCategories::Auto,
        OrdinalHandleUnknown::Error,
        vec![strings(&["a", "a"])],
        true
    )
    .is_none());
}

#[test]
fn restore_frequency_encoder() {
    let fe = FrequencyEncoder::restore(
        false,
        UnknownFrequency::Zero,
        vec![strings(&["A", "B"])],
        vec![vec![3, 1]],
        4,
        true,
    )
    .unwrap();
    let x = StrMatrix::from_column(vec!["B", "A", "Q"]).unwrap();
    let out = fe.transform(&x).unwrap();
    assert_eq!(out.row(0), [1]);
    assert_eq!(out.row(1), [3]);
    assert_eq!(out.row(2), [0]);
    assert_eq!(fe.fit_rows(), 4);
    assert!(FrequencyEncoder::restore(
        false,
        UnknownFrequency::Zero,
        vec![strings(&["A", "B"])],
        vec![vec![3]],
        4,
        true
    )
    .is_none());
}

#[test]
fn ordinal_feature_names_and_fit_flag() {
    let x = StrMatrix::from_strings(vec![vec!["a", "x"], vec!["b", "y"]]).unwrap();
    let mut enc = OrdinalEncoder::new(OrdinalCategories::Auto);
    assert!(!enc.is_fitted());
    enc.fit(&x).unwrap();
    assert!(enc.is_fitted());
    assert_eq!(enc.feature_names_out(None), strings(&["x0", "x1"]));
    assert_eq!(enc.feature_names_out(Some(&strings(&["c"]))), strings(&["c"]));
    let mut ohe = OneHotEncoder::new();
    assert!(!ohe.is_fitted());
    ohe.fit(&x).unwrap();
    assert!(ohe.is_fitted());
}
