use datarust::{Pipeline, SupervisedPipeline};

#[test]
fn names_preserved() {
    let p = Pipeline::new()
        .push("a", "StandardScaler")
        .push("b", "MinMaxScaler");
    assert_eq!(p.names(), vec!["a", "b"]);
}

#[test]
fn get_step_by_name() {
    let p = Pipeline::new()
        .push("a", "StandardScaler")
        .push("b", "MinMaxScaler");
    assert!(p.get_step("a").is_some());
    assert!(p.get_step("b").is_some());
    assert!(p.get_step("c").is_none());
}

#[test]
fn get_step_by_name_mut() {
    let mut p = Pipeline::new()
        .push("a", "StandardScaler")
        .push("b", "MinMaxScaler");
    let step = p.get_step_mut("a").unwrap();
    assert_eq!(*step, "StandardScaler");
    *step = "MaxAbsScaler";
    assert_eq!(*p.get_step("a").unwrap(), "MaxAbsScaler");
}

#[test]
fn step_by_index() {
    let p = Pipeline::new().push("a", "StandardScaler");
    let (name, step) = p.step(0).unwrap();
    assert_eq!(name, "a");
    assert_eq!(*step, "StandardScaler");
    assert!(p.step(5).is_none());
}

#[test]
fn remove_step_removes_and_returns() {
    let mut p = Pipeline::new()
        .push("a", "StandardScaler")
        .push("b", "MinMaxScaler");
    let (name, _) = p.remove_step(0).unwrap();
    assert_eq!(name, "a");
    assert_eq!(p.len(), 1);
    assert!(p.remove_step(5).is_none());
}

#[test]
fn insert_step_adds_at_position() {
    let p = Pipeline::new()
        .push("a", "StandardScaler")
        .insert_step(0, "z", "MaxAbsScaler");
    assert_eq!(p.len(), 2);
    assert_eq!(p.step(0).unwrap().0, "z");
    assert_eq!(p.step(1).unwrap().0, "a");
}

#[test]
fn set_step_replaces_by_name() {
    let mut p = Pipeline::new()
        .push("a", "StandardScaler")
        .push("b", "MinMaxScaler");
    let old = p.set_step("a", "MaxAbsScaler");
    assert_eq!(old, Some("StandardScaler"));
    assert_eq!(*p.get_step("a").unwrap(), "MaxAbsScaler");
    assert!(p.set_step("nonexistent", "StandardScaler").is_none());
}

#[test]
fn pipeline_first_of_duplicate_names_wins() {
    let mut p = Pipeline::new().push("s", 1u32).push("s", 2u32);
    assert_eq!(p.get_step("s"), Some(&1));
    assert_eq!(p.set_step("s", 7), Some(1));
    assert_eq!(p.step(0).unwrap().1, &7);
    assert_eq!(p.step(1).unwrap().1, &2);
}

#[test]
fn pipeline_empty_and_steps() {
    let p: Pipeline<u32> = Pipeline::new();
    assert!(p.is_empty());
    assert_eq!(p.len(), 0);
    let p = p.push("x", 3);
    assert!(!p.is_empty());
    assert_eq!(p.steps().len(), 1);
    assert_eq!(p.steps()[0].0, "x");
}

#[test]
fn pipeline_step_mut_renames() {
    let mut p = Pipeline::new().push("a", 1u32);
    {
        let (name, t) = p.step_mut(0).unwrap();
        name.push('b');
        *t = 9;
    }
    assert_eq!(p.names(), vec!["ab"]);
    assert_eq!(p.get_step("ab"), Some(&9));
    assert!(p.step_mut(3).is_none());
}

#[test]
fn supervised_pipeline_structure() {
    let sp = Pipeline::new().push("a", 1u32).with_estimator("model");
    assert!(!sp.is_fitted());
    assert_eq!(sp.transformers().names(), vec!["a"]);
    assert_eq!(*sp.estimator(), "model");
    let mut sp = sp.push("b", 2u32);
    assert_eq!(sp.transformers().len(), 2);
    *sp.estimator_mut() = "other";
    assert_eq!(*sp.estimator(), "other");
    assert!(!sp.is_fitted());
    let only: SupervisedPipeline<u32, &str> = SupervisedPipeline::new("m");
    assert!(only.transformers().is_empty());
}
