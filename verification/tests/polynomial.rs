use datarust::polynomial::{combo_name, PolynomialFeatures};
use datarust::DatarustError;

fn strings(v: &[&str]) -> Vec<String> {
    v.iter().map(|s| s.to_string()).collect()
}

#[test]
fn n_output_count_formula() {
    // for n features and degree d, with bias, count = C(n+d, d)
    let mut pf = PolynomialFeatures::new(2);
    pf.fit(4).unwrap();
    // C(4+2, 2) = 15
    assert_eq!(pf.n_output_features(), 15);
}

#[test]
fn zero_degree_without_bias_errors() {
    let mut pf = PolynomialFeatures::new(0).include_bias(false);
    assert!(pf.fit(2).is_err());
}

#[test]
fn feature_names_degree2() {
    let mut pf = PolynomialFeatures::new(2);
    pf.fit(2).unwrap();
    let names = pf.feature_names_out(None);
    assert_eq!(names, strings(&["1", "x0", "x1", "x0^2", "x0 x1", "x1^2"]));
}

#[test]
fn feature_names_custom_inputs() {
    let mut pf = PolynomialFeatures::new(2).include_bias(false);
    pf.fit(2).unwrap();
    let names = pf.feature_names_out(Some(&["age".to_string(), "salary".to_string()]));
    assert_eq!(
        names,
        strings(&["age", "salary", "age^2", "age salary", "salary^2"])
    );
}

#[test]
fn feature_names_degree3_groups() {
    let mut pf = PolynomialFeatures::new(3);
    pf.fit(2).unwrap();
    let names = pf.feature_names_out(None);
    assert_eq!(
        names,
        strings(&["1", "x0", "x1", "x0^2", "x0 x1", "x1^2", "x0^3", "x0^2 x1", "x0 x1^2", "x1^3"])
    );
}

#[test]
fn poly_output_counts_by_options() {
    let mut pf = PolynomialFeatures::new(2);
    pf.fit(2).unwrap();
    assert_eq!(pf.n_output_features(), 6);
    let mut pf = PolynomialFeatures::new(2).include_bias(false);
    pf.fit(2).unwrap();
    assert_eq!(pf.n_output_features(), 5);
    let mut pf = PolynomialFeatures::new(2).interaction_only(true);
    pf.fit(2).unwrap();
    assert_eq!(pf.n_output_features(), 4);
    let mut pf = PolynomialFeatures::new(3);
    pf.fit(3).unwrap();
    assert_eq!(pf.n_output_features(), 20);
    let mut pf = PolynomialFeatures::new(0);
    pf.fit(2).unwrap();
    assert_eq!(pf.n_output_features(), 1);
}

#[test]
fn poly_interaction_only_names() {
    let mut pf = PolynomialFeatures::new(3).interaction_only(true).include_bias(false);
    pf.fit(3).unwrap();
    assert_eq!(
        pf.feature_names_out(None),
        strings(&["x0", "x1", "x2", "x0 x1", "x0 x2", "x1 x2", "x0 x1 x2"])
    );
}

#[test]
fn poly_zero_degree_error_message() {
    let mut pf = PolynomialFeatures::new(0).include_bias(false);
    match pf.fit(3) {
        Err(DatarustError::InvalidConfig(m)) => {
            assert_eq!(m, "degree=0 with include_bias=false produces no features")
        }
        other => panic!("unexpected {:?}", other),
    }
}

#[test]
fn poly_no_features_error() {
    // no input features and no bias: nothing to output
    let mut pf = PolynomialFeatures::new(2).include_bias(false);
    match pf.fit(0) {
        Err(DatarustError::InvalidConfig(m)) => assert_eq!(m, "no output features generated"),
        other => panic!("unexpected {:?}", other),
    }
}

#[test]
fn poly_combinations_with_replacement_order() {
    let c = PolynomialFeatures::combinations_with_replacement(3, 2);
    assert_eq!(
        c,
        vec![vec![0, 0], vec![0, 1], vec![0, 2], vec![1, 1], vec![1, 2], vec![2, 2]]
    );
    assert_eq!(PolynomialFeatures::combinations_with_replacement(3, 0), vec![Vec::<usize>::new()]);
}

#[test]
fn poly_combo_name_powers() {
    let names = strings(&["a", "b"]);
    assert_eq!(combo_name(&[], &names), "1");
    assert_eq!(combo_name(&[0, 0, 1], &names), "a^2 b");
    assert_eq!(combo_name(&[1, 1, 1], &names), "b^3");
    assert_eq!(combo_name(&[0, 5], &names), "a x5");
}

#[test]
fn poly_defaults() {
    let pf = PolynomialFeatures::default();
    assert_eq!(pf.degree(), 2);
    assert_eq!(pf.n_output_features(), 0);
}
