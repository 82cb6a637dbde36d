use datarust::{DatarustError, DropStrategy, HandleUnknown, OneHotEncoder, StrMatrix};

#[test]
fn single_column_basic() {
    let s = StrMatrix::from_column(vec!["Red", "Blue", "Green", "Red"]).unwrap();
    let mut ohe = OneHotEncoder::new();
    let out = ohe.fit_transform(&s).unwrap();
    // categories sorted: Blue, Green, Red
    assert_eq!(ohe.categories()[0], &["Blue", "Green", "Red"]);
    // Red -> [0,0,1]
    assert_eq!(out.row(0), [0, 0, 1]);
    assert_eq!(out.row(1), [1, 0, 0]);
    assert_eq!(out.row(2), [0, 1, 0]);
    assert_eq!(out.row(3), [0, 0, 1]);
}

#[test]
fn multiple_columns() {
    let s = StrMatrix::from_strings(vec![vec!["a", "x"], vec!["b", "y"], vec!["a", "y"]]).unwrap();
    let mut ohe = OneHotEncoder::new();
    let out = ohe.fit_transform(&s).unwrap();
    // col0 cats: a,b  ; col1 cats: x,y  -> 4 output cols
    assert_eq!(out.ncols(), 4);
    // row0: a,x -> [1,0,1,0]
    assert_eq!(out.row(0), [1, 0, 1, 0]);
    // row1: b,y -> [0,1,0,1]
    assert_eq!(out.row(1), [0, 1, 0, 1]);
}

#[test]
fn drop_first() {
    let s = StrMatrix::from_column(vec!["Red", "Blue", "Green"]).unwrap();
    let mut ohe = OneHotEncoder::new().drop(DropStrategy::First);
    let out = ohe.fit_transform(&s).unwrap();
    // kept: Green, Red (Blue dropped)
    assert_eq!(out.ncols(), 2);
    assert_eq!(out.row(0), [0, 1]);
    assert_eq!(out.row(1), [0, 0]);
    assert_eq!(out.row(2), [1, 0]);
}

#[test]
fn onehot_handle_unknown_error() {
    let s = StrMatrix::from_column(vec!["a", "b"]).unwrap();
    let mut ohe = OneHotEncoder::new();
    ohe.fit(&s).unwrap();
    let s2 = StrMatrix::from_column(vec!["a", "c"]).unwrap();
    assert!(matches!(ohe.transform(&s2), Err(DatarustError::UnknownCategory(_))));
}

#[test]
fn handle_unknown_ignore_zeros() {
    let s = StrMatrix::from_column(vec!["a", "b"]).unwrap();
    let mut ohe = OneHotEncoder::new().handle_unknown(HandleUnknown::Ignore);
    ohe.fit(&s).unwrap();
    let s2 = StrMatrix::from_column(vec!["a", "z"]).unwrap();
    let out = ohe.transform(&s2).unwrap();
    // a -> [1,0]; z -> [0,0]
    assert_eq!(out.row(0), [1, 0]);
    assert_eq!(out.row(1), [0, 0]);
}

#[test]
fn transform_new_data_uses_fitted_categories() {
    let s = StrMatrix::from_column(vec!["a", "b", "c"]).unwrap();
    let mut ohe = OneHotEncoder::new();
    ohe.fit(&s).unwrap();
    let s2 = StrMatrix::from_column(vec!["b", "a"]).unwrap();
    let out = ohe.transform(&s2).unwrap();
    assert_eq!(out.row(0), [0, 1, 0]);
    assert_eq!(out.row(1), [1, 0, 0]);
}

#[test]
fn categories_sorted() {
    let s = StrMatrix::from_column(vec!["zebra", "apple", "mango"]).unwrap();
    let mut ohe = OneHotEncoder::new();
    ohe.fit(&s).unwrap();
    assert_eq!(ohe.categories()[0], &["apple", "mango", "zebra"]);
}

#[test]
fn onehot_transform_before_fit_errors() {
    let ohe = OneHotEncoder::new();
    let s = StrMatrix::from_column(vec!["a"]).unwrap();
    assert!(matches!(ohe.transform(&s), Err(DatarustError::NotFitted(_))));
}

#[test]
fn onehot_column_count_mismatch() {
    let s = StrMatrix::from_strings(vec![vec!["a", "b"], vec!["c", "d"]]).unwrap();
    let mut ohe = OneHotEncoder::new();
    ohe.fit(&s).unwrap();
    let s2 = StrMatrix::from_column(vec!["a"]).unwrap(); // 1 col vs 2 expected
    assert!(ohe.transform(&s2).is_err());
}

#[test]
fn duplicate_rows() {
    let s = StrMatrix::from_column(vec!["a", "a", "a"]).unwrap();
    let mut ohe = OneHotEncoder::new();
    let out = ohe.fit_transform(&s).unwrap();
    for i in 0..3 {
        assert_eq!(out.row(i), [1]);
    }
}

#[test]
fn feature_names_single_col() {
    let s = StrMatrix::from_column(vec!["Red", "Blue", "Green"]).unwrap();
    let mut ohe = OneHotEncoder::new();
    ohe.fit(&s).unwrap();
    // default input name x0, categories sorted: Blue, Green, Red
    let names = ohe.feature_names_out(None);
    assert_eq!(names, vec!["x0_Blue", "x0_Green", "x0_Red"]);
}

#[test]
fn feature_names_multi_col_custom() {
    let s = StrMatrix::from_strings(vec![vec!["a", "x"], vec!["b", "y"]]).unwrap();
    let mut ohe = OneHotEncoder::new();
    ohe.fit(&s).unwrap();
    let names = ohe.feature_names_out(Some(&["c1".to_string(), "c2".to_string()]));
    // c1 cats: a,b ; c2 cats: x,y
    assert_eq!(names, vec!["c1_a", "c1_b", "c2_x", "c2_y"]);
}

#[test]
fn feature_names_with_drop() {
    let s = StrMatrix::from_column(vec!["a", "b", "c"]).unwrap();
    let mut ohe = OneHotEncoder::new().drop(DropStrategy::First);
    ohe.fit(&s).unwrap();
    let names = ohe.feature_names_out(Some(&["city".to_string()]));
    // 'a' dropped -> city_b, city_c
    assert_eq!(names, vec!["city_b", "city_c"]);
}

#[test]
fn onehot_unknown_message_names_first_cell() {
    let s = StrMatrix::from_strings(vec![vec!["a", "x"], vec!["b", "y"]]).unwrap();
    let mut ohe = OneHotEncoder::new();
    ohe.fit(&s).unwrap();
    let s2 = StrMatrix::from_strings(vec![vec!["a", "q"], vec!["z", "x"]]).unwrap();
    match ohe.transform(&s2) {
        Err(DatarustError::UnknownCategory(m)) => assert_eq!(m, "column 1 value 'q'"),
        other => panic!("unexpected {:?}", other),
    }
}

#[test]
fn onehot_drop_first_single_category_has_no_columns() {
    let s = StrMatrix::from_column(vec!["a", "a"]).unwrap();
    let mut ohe = OneHotEncoder::new().drop(DropStrategy::First);
    ohe.fit(&s).unwrap();
    assert_eq!(ohe.n_output_cols(), 0);
    assert!(matches!(ohe.transform(&s), Err(DatarustError::EmptyInput(_))));
}

#[test]
fn onehot_n_output_cols_and_flags() {
    let s = StrMatrix::from_strings(vec![vec!["a", "x"], vec!["b", "y"], vec!["c", "y"]]).unwrap();
    let mut ohe = OneHotEncoder::new().sparse_output(true);
    assert!(ohe.is_sparse());
    ohe.fit(&s).unwrap();
    assert_eq!(ohe.n_output_cols(), 5);
}
