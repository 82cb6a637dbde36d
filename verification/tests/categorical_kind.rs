use datarust::{
    CategoricalTransformerKind, FrequencyEncoder, OneHotEncoder, OrdinalCategories, OrdinalEncoder,
    StrMatrix,
};

fn sample() -> StrMatrix {
    StrMatrix::from_strings(vec![vec!["b", "x"], vec!["a", "x"], vec!["b", "y"]]).unwrap()
}

#[test]
fn kind_dispatches_onehot() {
    let mut k = CategoricalTransformerKind::OneHotEncoder(OneHotEncoder::new());
    assert!(!k.is_fitted());
    k.fit(&sample()).unwrap();
    assert!(k.is_fitted());
    let out = k.transform(&sample()).unwrap();
    assert_eq!(out.row(0), [0, 1, 1, 0]);
    assert_eq!(
        k.feature_names_out(None),
        vec!["x0_a".to_string(), "x0_b".to_string(), "x1_x".to_string(), "x1_y".to_string()]
    );
}

#[test]
fn kind_dispatches_ordinal() {
    let mut k = CategoricalTransformerKind::OrdinalEncoder(OrdinalEncoder::new(OrdinalCategories::Auto));
    k.fit(&sample()).unwrap();
    let out = k.transform(&sample()).unwrap();
    assert_eq!(out.row(0), [1, 0]);
    assert_eq!(out.row(2), [1, 1]);
    assert_eq!(k.feature_names_out(None), vec!["x0".to_string(), "x1".to_string()]);
}

#[test]
fn kind_dispatches_frequency() {
    let mut k = CategoricalTransformerKind::FrequencyEncoder(FrequencyEncoder::new(false));
    assert!(!k.is_fitted());
    k.fit(&sample()).unwrap();
    let out = k.transform(&sample()).unwrap();
    assert_eq!(out.row(0), [2, 2]);
    assert_eq!(out.row(1), [1, 2]);
    assert_eq!(
        k.feature_names_out(Some(&["city".to_string()])),
        vec!["city".to_string(), "x1".to_string()]
    );
}
