use datarust::compose::column_transformer::{concat_blocks, validate_columns};
use datarust::{
    ColumnSpec, ColumnTransformer, DatarustError, OneHotEncoder, OutputBlock, Remainder, Result,
    StrMatrix,
};

/// Fits a column transformer whose numeric blocks keep their columns as they are.
fn fit_ct(
    ct: &mut ColumnTransformer<&'static str>,
    numeric: &[Vec<f64>],
    n_numeric: usize,
    cat: Option<&StrMatrix>,
) -> Result<()> {
    ct.fit_start()?;
    for i in 0..ct.specs().len() {
        ct.fit_spec(i, n_numeric, cat, numeric.len())?;
    }
    ct.fit_finish(n_numeric, cat, numeric.len());
    Ok(())
}

/// Transforms with numeric blocks passing their columns through unchanged.
fn transform_ct(
    ct: &ColumnTransformer<&'static str>,
    numeric: &[Vec<f64>],
    n_numeric: usize,
    cat: Option<&StrMatrix>,
) -> Result<Vec<Vec<f64>>> {
    ct.transform_start()?;
    let nrows = numeric.len();
    let mut blocks: Vec<Vec<Vec<f64>>> = Vec::new();
    let mut widths: Vec<usize> = Vec::new();
    for block in ct.output_plan(n_numeric) {
        match block {
            OutputBlock::Spec(i) => match &ct.specs()[i] {
                ColumnSpec::Numeric { columns, .. } => {
                    validate_columns(columns, n_numeric)?;
                    blocks.push(
                        numeric
                            .iter()
                            .map(|r| columns.iter().map(|&c| r[c]).collect())
                            .collect(),
                    );
                    widths.push(columns.len());
                }
                ColumnSpec::Categorical { .. } => {
                    let m = ct.transform_categorical_spec(i, cat, nrows)?;
                    blocks.push(codes(&m));
                    widths.push(m.ncols());
                }
            },
            OutputBlock::NumericRemainder => {
                let rem = ct.remainder_numeric_columns(n_numeric);
                blocks.push(numeric.iter().map(|r| rem.iter().map(|&c| r[c]).collect()).collect());
                widths.push(rem.len());
            }
            OutputBlock::CategoricalRemainder(k) => {
                let m = ct.transform_remainder_categorical(k, cat, nrows)?;
                blocks.push(codes(&m));
                widths.push(m.ncols());
            }
        }
    }
    concat_blocks(&blocks, &widths, nrows)
}

fn codes(m: &datarust::CodeMatrix) -> Vec<Vec<f64>> {
    (0..m.nrows()).map(|i| m.row(i).iter().map(|&v| v as f64).collect()).collect()
}

fn sample_numeric() -> Vec<Vec<f64>> {
    vec![
        vec![10.0, 1000.0],
        vec![20.0, 2000.0],
        vec![30.0, 3000.0],
        vec![40.0, 4000.0],
    ]
}

fn sample_cat() -> StrMatrix {
    StrMatrix::from_strings(vec![
        vec!["Istanbul"],
        vec!["Ankara"],
        vec!["Izmir"],
        vec!["Istanbul"],
    ])
    .unwrap()
}

fn strings(v: &[&str]) -> Vec<String> {
    v.iter().map(|s| s.to_string()).collect()
}

#[test]
fn numeric_scale_plus_onehot() {
    let num = sample_numeric();
    let cat = sample_cat();
    let mut ct = ColumnTransformer::new()
        .add_numeric("num", vec![0, 1], "StandardScaler")
        .add_categorical("city", vec![0], OneHotEncoder::new());
    fit_ct(&mut ct, &num, 2, Some(&cat)).unwrap();
    let out = transform_ct(&ct, &num, 2, Some(&cat)).unwrap();
    assert_eq!(out[0].len(), 5);
    assert_eq!([out[0][2], out[0][3], out[0][4]], [0.0, 1.0, 0.0]);
    assert_eq!([out[1][2], out[1][3], out[1][4]], [1.0, 0.0, 0.0]);
    assert_eq!([out[2][2], out[2][3], out[2][4]], [0.0, 0.0, 1.0]);
}

#[test]
fn remainder_drop_default() {
    let num = sample_numeric();
    let cat = sample_cat();
    let mut ct = ColumnTransformer::new().add_numeric("num0", vec![0], "StandardScaler");
    fit_ct(&mut ct, &num, 2, Some(&cat)).unwrap();
    let out = transform_ct(&ct, &num, 2, Some(&cat)).unwrap();
    assert_eq!(out[0].len(), 1);
}

#[test]
fn remainder_passthrough_appends_unused_numeric() {
    let num = sample_numeric();
    let mut ct = ColumnTransformer::new()
        .remainder(Remainder::Passthrough)
        .add_numeric("num0", vec![0], "StandardScaler");
    fit_ct(&mut ct, &num, 2, None).unwrap();
    let out = transform_ct(&ct, &num, 2, None).unwrap();
    assert_eq!(out[0].len(), 2);
    for i in 0..4 {
        assert!((out[i][1] - (1000.0 * (i as f64 + 1.0))).abs() < 1e-9);
    }
}

#[test]
fn remainder_passthrough_includes_categorical() {
    let num = sample_numeric();
    let cat = sample_cat();
    let mut ct = ColumnTransformer::new()
        .remainder(Remainder::Passthrough)
        .add_numeric("num0", vec![0], "StandardScaler");
    fit_ct(&mut ct, &num, 2, Some(&cat)).unwrap();
    let out = transform_ct(&ct, &num, 2, Some(&cat)).unwrap();
    // 1 (block) + 1 (passthrough numeric col1) + 3 (one-hot city) = 5
    assert_eq!(out[0].len(), 5);
}

#[test]
fn output_column_order_specs_then_remainder() {
    let num = sample_numeric();
    let cat = sample_cat();
    let mut ct = ColumnTransformer::new()
        .remainder(Remainder::Passthrough)
        .add_categorical("city", vec![0], OneHotEncoder::new())
        .add_numeric("num0", vec![0], "StandardScaler");
    fit_ct(&mut ct, &num, 2, Some(&cat)).unwrap();
    let out = transform_ct(&ct, &num, 2, Some(&cat)).unwrap();
    assert_eq!(out[0].len(), 5);
    // city first, then num0, then the passed-through salary
    assert_eq!(out[1], vec![1.0, 0.0, 0.0, 20.0, 2000.0]);
}

#[test]
fn column_transformer_transform_before_fit_errors() {
    let ct = ColumnTransformer::new().add_numeric("n", vec![0], "StandardScaler");
    assert!(matches!(ct.transform_start(), Err(DatarustError::NotFitted(_))));
}

#[test]
fn empty_specs_errors() {
    let num = sample_numeric();
    let cat = sample_cat();
    let mut ct: ColumnTransformer<&'static str> = ColumnTransformer::new();
    assert!(matches!(
        fit_ct(&mut ct, &num, 2, Some(&cat)),
        Err(DatarustError::InvalidInput(_))
    ));
}

#[test]
fn bad_column_index_errors() {
    let num = sample_numeric();
    let cat = sample_cat();
    let mut ct = ColumnTransformer::new().add_numeric("n", vec![5], "StandardScaler");
    assert!(fit_ct(&mut ct, &num, 2, Some(&cat)).is_err());
}

#[test]
fn categorical_on_numeric_only_table_errors() {
    let num = vec![vec![1.0], vec![2.0]];
    let mut ct: ColumnTransformer<&'static str> =
        ColumnTransformer::new().add_categorical("c", vec![0], OneHotEncoder::new());
    assert!(fit_ct(&mut ct, &num, 1, None).is_err());
}

#[test]
fn transform_new_data_consistent_shape() {
    let num = sample_numeric();
    let cat = sample_cat();
    let mut ct = ColumnTransformer::new()
        .add_numeric("num", vec![0, 1], "StandardScaler")
        .add_categorical("city", vec![0], OneHotEncoder::new());
    fit_ct(&mut ct, &num, 2, Some(&cat)).unwrap();
    let new_num = sample_numeric();
    let new_cat = sample_cat();
    let out = transform_ct(&ct, &new_num, 2, Some(&new_cat)).unwrap();
    assert_eq!(out[0].len(), 5);
    assert_eq!(out.len(), 4);
}

#[test]
fn feature_names_default() {
    let num = sample_numeric();
    let cat = sample_cat();
    let mut ct = ColumnTransformer::new()
        .add_numeric("num", vec![0, 1], "StandardScaler")
        .add_categorical("city", vec![0], OneHotEncoder::new());
    fit_ct(&mut ct, &num, 2, Some(&cat)).unwrap();
    let names = ct.feature_names_out(None);
    assert_eq!(names, strings(&["x0", "x1", "x0_Ankara", "x0_Istanbul", "x0_Izmir"]));
}

#[test]
fn feature_names_with_input() {
    let num = sample_numeric();
    let cat = sample_cat();
    let mut ct = ColumnTransformer::new()
        .add_numeric("num0", vec![0], "StandardScaler")
        .add_categorical("city", vec![0], OneHotEncoder::new());
    fit_ct(&mut ct, &num, 2, Some(&cat)).unwrap();
    let names = ct.feature_names_out(Some(&["age".into(), "salary".into()]));
    assert_eq!(names, strings(&["age", "age_Ankara", "age_Istanbul", "age_Izmir"]));
}

#[test]
fn feature_names_remainder_passthrough() {
    let num = sample_numeric();
    let cat = sample_cat();
    let mut ct = ColumnTransformer::new()
        .remainder(Remainder::Passthrough)
        .add_numeric("num0", vec![0], "StandardScaler");
    fit_ct(&mut ct, &num, 2, Some(&cat)).unwrap();
    let names = ct.feature_names_out(Some(&["age".into(), "salary".into()]));
    assert_eq!(
        names,
        strings(&["age", "salary", "age_Ankara", "age_Istanbul", "age_Izmir"])
    );
}

#[test]
fn feature_names_remainder_passthrough_numeric_only() {
    let num = vec![vec![1.0, 2.0, 3.0], vec![4.0, 5.0, 6.0]];
    let mut ct = ColumnTransformer::new()
        .remainder(Remainder::Passthrough)
        .add_numeric("num0", vec![0], "StandardScaler");
    fit_ct(&mut ct, &num, 3, None).unwrap();
    let names = ct.feature_names_out(Some(&["a".into(), "b".into(), "c".into()]));
    assert_eq!(names, strings(&["a", "b", "c"]));
}

#[test]
fn ct_validate_columns_message() {
    match validate_columns(&[0, 3, 7], 3) {
        Err(DatarustError::InvalidInput(m)) => assert_eq!(m, "column index 3 out of range (max 3)"),
        other => panic!("unexpected {:?}", other),
    }
    assert!(validate_columns(&[0, 2], 3).is_ok());
}

#[test]
fn ct_fit_records_consumed_and_remainder() {
    let num = sample_numeric();
    let cat = StrMatrix::from_strings(vec![
        vec!["a", "p", "u"],
        vec!["b", "q", "u"],
        vec!["a", "p", "v"],
        vec!["c", "q", "u"],
    ])
    .unwrap();
    let mut ct = ColumnTransformer::new()
        .remainder(Remainder::Passthrough)
        .add_categorical("mid", vec![1], OneHotEncoder::new());
    fit_ct(&mut ct, &num, 2, Some(&cat)).unwrap();
    assert!(ct.is_fitted());
    // columns 0 and 2 are passed through, each one-hot encoded
    assert_eq!(ct.remainder_categorical_count(), 2);
    assert_eq!(ct.remainder_numeric_columns(2), vec![0, 1]);
    let names = ct.feature_names_out(None);
    assert_eq!(
        names,
        strings(&["x1_p", "x1_q", "x0", "x1", "x0_a", "x0_b", "x0_c", "x2_u", "x2_v"])
    );
}

#[test]
fn ct_concat_zero_columns_refused() {
    let blocks: Vec<Vec<Vec<f64>>> = vec![vec![vec![], vec![]]];
    match concat_blocks(&blocks, &vec![0], 2) {
        Err(DatarustError::InvalidInput(m)) => assert_eq!(m, "transform produced zero columns"),
        other => panic!("unexpected {:?}", other),
    }
    let blocks = vec![vec![vec![1, 2], vec![3, 4]], vec![vec![5], vec![6]]];
    assert_eq!(
        concat_blocks(&blocks, &vec![2, 1], 2).unwrap(),
        vec![vec![1, 2, 5], vec![3, 4, 6]]
    );
}

#[test]
fn ct_categorical_names_for_missing_inputs() {
    let num = sample_numeric();
    let cat = sample_cat();
    let mut ct: ColumnTransformer<&'static str> =
        ColumnTransformer::new().add_categorical("city", vec![0], OneHotEncoder::new());
    fit_ct(&mut ct, &num, 2, Some(&cat)).unwrap();
    // no input name for column 0: the encoder is given `cat0`
    let names = ct.feature_names_out(Some(&[]));
    assert_eq!(names, strings(&["cat0_Ankara", "cat0_Istanbul", "cat0_Izmir"]));
}

#[test]
fn ct_output_plan_order() {
    let num = sample_numeric();
    let cat = StrMatrix::from_strings(vec![
        vec!["a", "p"],
        vec!["b", "q"],
        vec!["a", "p"],
        vec!["c", "q"],
    ])
    .unwrap();
    let mut ct = ColumnTransformer::new()
        .remainder(Remainder::Passthrough)
        .add_categorical("second", vec![1], OneHotEncoder::new())
        .add_numeric("num0", vec![0], "StandardScaler");
    fit_ct(&mut ct, &num, 2, Some(&cat)).unwrap();
    assert_eq!(
        ct.output_plan(2),
        vec![
            OutputBlock::Spec(0),
            OutputBlock::Spec(1),
            OutputBlock::NumericRemainder,
            OutputBlock::CategoricalRemainder(0)
        ]
    );
    // with every numeric column selected, no numeric remainder block
    assert_eq!(ct.output_plan(1).len(), 3);
    let drop = ColumnTransformer::new().add_numeric("n", vec![0], "StandardScaler");
    assert_eq!(drop.output_plan(5), vec![OutputBlock::Spec(0)]);
}
