use datarust::{CodeMatrix, DatarustError, StrMatrix};

#[test]
fn strmatrix_from_column() {
    let s = StrMatrix::from_column(vec!["a", "b", "a"]).unwrap();
    assert_eq!(s.nrows(), 3);
    assert_eq!(s.ncols(), 1);
    assert_eq!(s.get(2, 0), "a");
}

#[test]
fn strmatrix_from_strings() {
    let s = StrMatrix::from_strings(vec![vec!["x", "y"], vec!["x", "z"]]).unwrap();
    assert_eq!(s.ncols(), 2);
    assert_eq!(s.get(1, 1), "z");
}

#[test]
fn strmatrix_ragged_rejected_with_message() {
    let err = StrMatrix::from_strings(vec![vec!["x", "y"], vec!["x"]]).unwrap_err();
    match err {
        DatarustError::ShapeMismatch { expected, actual } => {
            assert_eq!(expected, "2 columns");
            assert_eq!(actual, "1 columns at row 1");
        }
        other => panic!("unexpected error {:?}", other),
    }
}

#[test]
fn strmatrix_empty_rejected() {
    assert!(matches!(StrMatrix::new(vec![]), Err(DatarustError::EmptyInput(_))));
    assert!(matches!(StrMatrix::new(vec![vec![]]), Err(DatarustError::EmptyInput(_))));
    assert!(matches!(StrMatrix::from_column(Vec::new()), Err(DatarustError::EmptyInput(_))));
}

#[test]
fn strmatrix_column_and_row() {
    let s = StrMatrix::from_strings(vec![vec!["a", "b"], vec!["c", "d"], vec!["e", "f"]]).unwrap();
    assert_eq!(s.column(1), vec!["b".to_string(), "d".to_string(), "f".to_string()]);
    assert_eq!(s.row(2), &["e".to_string(), "f".to_string()]);
}

#[test]
fn code_matrix_shape_checks() {
    let m = CodeMatrix::new(vec![vec![1, 2], vec![3, 4]]).unwrap();
    assert_eq!(m.nrows(), 2);
    assert_eq!(m.ncols(), 2);
    assert_eq!(m.get(1, 0), 3);
    assert_eq!(m.row(0), [1, 2]);
    assert!(CodeMatrix::new(vec![vec![1, 2], vec![3]]).is_err());
    assert!(CodeMatrix::new(vec![]).is_err());
}
