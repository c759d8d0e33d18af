use ros_core_rs::param_tree::ParamValue;

fn dict(entries: Vec<(&str, ParamValue)>) -> ParamValue {
    ParamValue::Dict(entries.into_iter().map(|(k, v)| (k.to_string(), v)).collect())
}

#[test]
fn test_param_tree() {
    let mut tree = dict(vec![
        ("run_id", ParamValue::Str("asdf-jkl0".to_string())),
        ("robot_id", ParamValue::Int(42)),
        (
            "robot_configs",
            ParamValue::Array(vec![dict(vec![
                ("robot_speed", ParamValue::Double((3.0f64).to_bits())),
                ("robot_id", ParamValue::Int(24)),
            ])]),
        ),
        (
            "arms",
            dict(vec![(
                "arm_left",
                dict(vec![("length", ParamValue::Double((-0.45f64).to_bits()))]),
            )]),
        ),
    ]);

    tree.update_inner(&vec!["robot_configs".to_string()], ParamValue::Int(23));
    let res = tree.get(&vec!["robot_configs".to_string()]).unwrap();
    assert_eq!(*res, ParamValue::Int(23));

    assert!(tree.contains("/".to_string()));
    assert!(tree.contains("/arms".to_string()));
    assert!(tree.contains("/arms/arm_left".to_string()));
}

#[test]
fn set_then_get_returns_the_value() {
    let mut tree = ParamValue::Dict(Vec::new());
    let path = vec!["a".to_string(), "b".to_string(), "c".to_string()];
    tree.update_inner(&path, ParamValue::Int(7));
    assert_eq!(*tree.get(&path).unwrap(), ParamValue::Int(7));
    // intermediate maps were created along the way
    assert!(tree.get(&vec!["a".to_string()]).unwrap().is_wf());
}

#[test]
fn set_then_delete_then_absent() {
    let mut tree = ParamValue::Dict(Vec::new());
    let path = vec!["a".to_string(), "b".to_string()];
    tree.update_inner(&path, ParamValue::Str("x".to_string()));
    tree.remove(&path);
    assert!(tree.get(&path).is_none());
    assert!(!tree.get_keys().iter().any(|k| k == "/a/b"));
}

#[test]
fn set_through_a_scalar_replaces_it() {
    let mut tree = ParamValue::Dict(Vec::new());
    tree.update_inner(&vec!["a".to_string()], ParamValue::Int(1));
    tree.update_inner(
        &vec!["a".to_string(), "b".to_string()],
        ParamValue::Bool(true),
    );
    assert_eq!(
        *tree
            .get(&vec!["a".to_string(), "b".to_string()])
            .unwrap(),
        ParamValue::Bool(true)
    );
}

#[test]
fn get_stops_at_scalars_and_missing_keys() {
    let mut tree = ParamValue::Dict(Vec::new());
    tree.update_inner(&vec!["a".to_string()], ParamValue::Int(1));
    assert!(tree
        .get(&vec!["a".to_string(), "b".to_string()])
        .is_none());
    assert!(tree.get(&vec!["zz".to_string()]).is_none());
}

#[test]
fn keys_list_paths_to_leaves_only() {
    let mut tree = ParamValue::Dict(Vec::new());
    tree.update_inner(
        &vec!["a".to_string(), "b".to_string(), "c".to_string()],
        ParamValue::Int(7),
    );
    tree.update_inner(&vec!["d".to_string()], ParamValue::Int(8));
    let keys = tree.get_keys();
    assert_eq!(keys, vec!["/a/b/c".to_string(), "/d".to_string()]);
}

#[test]
fn delete_of_empty_path_resets_a_map_root() {
    let mut tree = ParamValue::Dict(Vec::new());
    tree.update_inner(&vec!["a".to_string()], ParamValue::Int(1));
    tree.remove(&Vec::new());
    assert!(tree.get_keys().is_empty());
}

#[test]
fn deep_clone_is_equal() {
    let mut tree = ParamValue::Dict(Vec::new());
    tree.update_inner(
        &vec!["a".to_string(), "b".to_string()],
        ParamValue::Array(vec![ParamValue::Int(1), ParamValue::Str("s".to_string())]),
    );
    let copy = tree.deep_clone();
    assert_eq!(copy, tree);
}

#[test]
fn is_wf_detects_bad_keys() {
    let good = dict(vec![("a", ParamValue::Int(1))]);
    assert!(good.is_wf());
    let dup = ParamValue::Dict(vec![
        ("a".to_string(), ParamValue::Int(1)),
        ("a".to_string(), ParamValue::Int(2)),
    ]);
    assert!(!dup.is_wf());
    let slashed_key = ParamValue::Dict(vec![("a/b".to_string(), ParamValue::Int(1))]);
    assert!(!slashed_key.is_wf());
    let empty_key = ParamValue::Dict(vec![(String::new(), ParamValue::Int(1))]);
    assert!(!empty_key.is_wf());
}
