use datarust::{DatarustError, DropStrategy, HandleUnknown, OneHotEncoder, OneHotOutput, StrMatrix};

#[test]
fn sparse_single_column() {
    let s = StrMatrix::from_column(vec!["Red", "Blue", "Green", "Red"]).unwrap();
    let mut ohe = OneHotEncoder::new();
    let sp = ohe.fit_transform_sparse(&s).unwrap();
    assert_eq!(sp.nrows(), 4);
    assert_eq!(sp.ncols(), 3);
    assert_eq!(sp.nnz(), 4);
    // cats sorted: Blue, Green, Red
    // Red -> col 2
    assert_eq!(sp.get(0, 2), 1);
    // Blue -> col 0
    assert_eq!(sp.get(1, 0), 1);
    // Green -> col 1
    assert_eq!(sp.get(2, 1), 1);
    // zeros
    assert_eq!(sp.get(0, 0), 0);
    assert_eq!(sp.get(1, 2), 0);
}

#[test]
fn sparse_multiple_columns() {
    let s = StrMatrix::from_strings(vec![vec!["a", "x"], vec!["b", "y"], vec!["a", "y"]]).unwrap();
    let mut ohe = OneHotEncoder::new();
    let sp = ohe.fit_transform_sparse(&s).unwrap();
    assert_eq!(sp.ncols(), 4);
    assert_eq!(sp.nnz(), 6); // 3 rows * 2 active columns
    // row0: a,x -> cols 0,2
    assert_eq!(sp.get(0, 0), 1);
    assert_eq!(sp.get(0, 2), 1);
    // row1: b,y -> cols 1,3
    assert_eq!(sp.get(1, 1), 1);
    assert_eq!(sp.get(1, 3), 1);
}

#[test]
fn sparse_with_drop_first() {
    let s = StrMatrix::from_column(vec!["Red", "Blue", "Green"]).unwrap();
    let mut ohe = OneHotEncoder::new().drop(DropStrategy::First);
    let sp = ohe.fit_transform_sparse(&s).unwrap();
    assert_eq!(sp.ncols(), 2);
    // kept: Green(0), Red(1); Blue dropped
    assert_eq!(sp.get(0, 1), 1); // Red -> col 1
    assert_eq!(sp.get(1, 0), 0); // Blue -> all zeros
    assert_eq!(sp.get(1, 1), 0);
    assert_eq!(sp.get(2, 0), 1); // Green -> col 0
}

#[test]
fn sparse_matches_dense() {
    let s = StrMatrix::from_strings(vec![
        vec!["a", "x"],
        vec!["b", "y"],
        vec!["a", "y"],
        vec!["c", "x"],
    ])
    .unwrap();
    let mut ohe = OneHotEncoder::new();
    let dense = ohe.fit_transform(&s).unwrap();
    let mut ohe2 = OneHotEncoder::new();
    let sp = ohe2.fit_transform_sparse(&s).unwrap();
    let mut ones = 0;
    for i in 0..s.nrows() {
        for j in 0..dense.ncols() {
            assert_eq!(sp.get(i, j), dense.get(i, j));
            if dense.get(i, j) == 1 {
                ones += 1;
            }
        }
    }
    assert_eq!(sp.nrows(), dense.nrows());
    assert_eq!(sp.ncols(), dense.ncols());
    assert_eq!(sp.nnz(), ones);
    assert_eq!(sp.indptr()[sp.nrows()], sp.nnz());
}

#[test]
fn sparse_handle_unknown_ignore() {
    let s = StrMatrix::from_column(vec!["a", "b"]).unwrap();
    let mut ohe = OneHotEncoder::new().handle_unknown(HandleUnknown::Ignore);
    ohe.fit(&s).unwrap();
    let s2 = StrMatrix::from_column(vec!["a", "z"]).unwrap();
    let sp = ohe.transform_sparse(&s2).unwrap();
    // a -> [1,0]; z -> [0,0]
    assert_eq!(sp.get(0, 0), 1);
    assert_eq!(sp.get(1, 0), 0);
    assert_eq!(sp.get(1, 1), 0);
    assert_eq!(sp.nnz(), 1);
}

#[test]
fn sparse_transform_before_fit_errors() {
    let ohe = OneHotEncoder::new();
    let s = StrMatrix::from_column(vec!["a"]).unwrap();
    assert!(matches!(ohe.transform_sparse(&s), Err(DatarustError::NotFitted(_))));
}

#[test]
fn transform_auto_dense_by_default() {
    let s = StrMatrix::from_column(vec!["a", "b"]).unwrap();
    let mut ohe = OneHotEncoder::new();
    ohe.fit(&s).unwrap();
    match ohe.transform_auto(&s).unwrap() {
        OneHotOutput::Dense(m) => assert_eq!(m.ncols(), 2),
        OneHotOutput::Sparse(_) => panic!("expected dense"),
    }
}

#[test]
fn transform_auto_sparse_when_flagged() {
    let s = StrMatrix::from_column(vec!["a", "b"]).unwrap();
    let mut ohe = OneHotEncoder::new().sparse_output(true);
    ohe.fit(&s).unwrap();
    match ohe.transform_auto(&s).unwrap() {
        OneHotOutput::Sparse(sp) => {
            assert_eq!(sp.ncols(), 2);
            assert_eq!(sp.nnz(), 2);
        }
        OneHotOutput::Dense(_) => panic!("expected sparse"),
    }
}

#[test]
fn sparse_csr_layout() {
    let s = StrMatrix::from_strings(vec![vec!["a", "x"], vec!["b", "y"]]).unwrap();
    let mut ohe = OneHotEncoder::new().drop(DropStrategy::First);
    let sp = ohe.fit_transform_sparse(&s).unwrap();
    // kept: b (col 0), y (col 1); row0 has none, row1 has both
    assert_eq!(sp.indptr(), &[0, 0, 2]);
    assert_eq!(sp.indices(), &[0, 1]);
    assert_eq!(sp.data(), &[1, 1]);
}

#[test]
fn sparse_zero_dimension_refused() {
    // a single category dropped leaves no output column
    let s = StrMatrix::from_column(vec!["a", "a"]).unwrap();
    let mut ohe = OneHotEncoder::new().drop(DropStrategy::First);
    match ohe.fit_transform_sparse(&s) {
        Err(DatarustError::EmptyInput(m)) => assert_eq!(m, "zero dimension"),
        other => panic!("unexpected {:?}", other),
    }
}

#[test]
fn onehot_names_match_output_width() {
    let s = StrMatrix::from_strings(vec![vec!["a", "x"], vec!["b", "y"], vec!["c", "y"]]).unwrap();
    for drop in [DropStrategy::KeepAll, DropStrategy::First] {
        let mut ohe = OneHotEncoder::new().drop(drop);
        let dense = ohe.fit_transform(&s).unwrap();
        assert_eq!(ohe.feature_names_out(None).len(), dense.ncols());
        assert_eq!(ohe.n_output_cols(), dense.ncols());
    }
}
