use crewai::flow::utils::{extract_all_methods, extract_all_methods_recursive, FlowCondition};

#[test]
fn test_flow_condition_or() {
    let cond = FlowCondition::or_condition(vec!["a".into(), "b".into()]);
    let methods = extract_all_methods_recursive(&cond, None);
    assert_eq!(methods, vec!["a", "b"]);
}

#[test]
fn test_flow_condition_and() {
    let cond = FlowCondition::and_condition(vec!["x".into(), "y".into()]);
    let methods = extract_all_methods(&cond);
    assert_eq!(methods, vec!["x", "y"]);
}

use crewai::flow::utils::{
    build_ancestor_dict, calculate_node_levels, build_parent_children_dict, is_ancestor, is_flow_condition_dict, parse_flow_condition, JsonValue, ListenerCondition,
    SimpleFlowCondition,
};

fn obj(members: Vec<(&str, JsonValue)>) -> JsonValue {
    JsonValue::Object(members.into_iter().map(|(k, v)| (k.to_string(), v)).collect())
}

fn s(x: &str) -> JsonValue {
    JsonValue::Str(x.to_string())
}

#[test]
fn test_is_flow_condition_dict() {
    let valid = obj(vec![("type", s("OR")), ("conditions", JsonValue::Array(vec![s("a"), s("b")]))]);
    assert!(is_flow_condition_dict(&valid));

    let invalid = obj(vec![("type", s("MAYBE"))]);
    assert!(!is_flow_condition_dict(&invalid));
}

#[test]
fn test_parse_flow_condition() {
    let value = obj(vec![("type", s("AND")), ("conditions", JsonValue::Array(vec![s("method_a"), s("method_b")]))]);
    let cond = parse_flow_condition(&value).unwrap();
    let methods = extract_all_methods(&cond);
    assert_eq!(methods, vec!["method_a", "method_b"]);
}

#[test]
fn test_flow_condition_dict_edge_cases() {
    assert!(!is_flow_condition_dict(&s("OR")));
    let bad_conditions = obj(vec![("type", s("AND")), ("conditions", s("x"))]);
    assert!(!is_flow_condition_dict(&bad_conditions));
    let bad_methods = obj(vec![("type", s("AND")), ("methods", JsonValue::Array(vec![s("a"), JsonValue::Null]))]);
    assert!(!is_flow_condition_dict(&bad_methods));
    let good_methods = obj(vec![("type", s("AND")), ("methods", JsonValue::Array(vec![s("a")]))]);
    assert!(is_flow_condition_dict(&good_methods));
}

#[test]
fn test_parse_flow_condition_cases() {
    match parse_flow_condition(&s("m")) {
        Some(FlowCondition::MethodName(n)) => assert_eq!(n, "m"),
        _ => panic!("expected a method name"),
    }
    assert!(parse_flow_condition(&JsonValue::Null).is_none());
    assert!(parse_flow_condition(&obj(vec![("type", s("OR"))])).is_none());
    assert!(parse_flow_condition(&obj(vec![("type", s("OR")), ("conditions", s("x")), ("methods", JsonValue::Array(vec![]))])).is_none());
    let nested = obj(vec![
        ("type", s("OR")),
        ("methods", JsonValue::Array(vec![s("a"), JsonValue::Bool(true), obj(vec![("type", s("AND")), ("methods", JsonValue::Array(vec![s("b")]))])])),
    ]);
    let cond = parse_flow_condition(&nested).unwrap();
    assert_eq!(extract_all_methods_recursive(&cond, None), vec!["a", "b"]);
}

#[test]
fn test_build_parent_children_dict() {
    let listeners = vec![
        ("b".to_string(), ListenerCondition::Simple(SimpleFlowCondition { condition_type: "OR".to_string(), methods: vec!["a".to_string()] })),
        ("c".to_string(), ListenerCondition::Simple(SimpleFlowCondition { condition_type: "AND".to_string(), methods: vec!["a".to_string(), "b".to_string(), "a".to_string()] })),
        ("d".to_string(), ListenerCondition::Simple(SimpleFlowCondition { condition_type: "OR".to_string(), methods: vec!["path_x".to_string()] })),
    ];
    let routers = vec![("r".to_string(), vec!["path_x".to_string(), "path_y".to_string()])];
    let dict = build_parent_children_dict(&listeners, &routers);
    let get = |p: &str| dict.iter().find(|(k, _)| k == p).map(|(_, v)| v.clone());
    assert_eq!(get("a"), Some(vec!["b".to_string(), "c".to_string()]));
    assert_eq!(get("b"), Some(vec!["c".to_string()]));
    assert_eq!(get("path_x"), Some(vec!["d".to_string()]));
    assert_eq!(get("r"), Some(vec!["d".to_string()]));
    assert_eq!(dict.len(), 4);
}

fn or_listener(name: &str, methods: &[&str]) -> (String, ListenerCondition) {
    (
        name.to_string(),
        ListenerCondition::Simple(SimpleFlowCondition {
            condition_type: "OR".to_string(),
            methods: methods.iter().map(|m| m.to_string()).collect(),
        }),
    )
}

#[test]
fn test_build_ancestor_dict() {
    let methods: Vec<String> = ["start", "b", "c", "r", "d"].iter().map(|m| m.to_string()).collect();
    let listeners = vec![
        or_listener("b", &["start"]),
        or_listener("c", &["b"]),
        or_listener("r", &["c"]),
        or_listener("d", &["path_x"]),
    ];
    let routers = vec!["r".to_string()];
    let router_paths = vec![("r".to_string(), vec!["path_x".to_string()])];
    let anc = build_ancestor_dict(&methods, &listeners, &routers, &router_paths);
    let get = |p: &str| {
        let mut v = anc.iter().find(|(k, _)| k == p).map(|(_, v)| v.clone()).unwrap();
        v.sort();
        v
    };
    assert_eq!(anc.len(), 5);
    assert!(get("start").is_empty());
    assert_eq!(get("b"), vec!["start"]);
    assert_eq!(get("c"), vec!["b", "start"]);
    assert_eq!(get("r"), vec!["b", "c", "start"]);
    // A router passes on its own ancestors, not itself.
    assert_eq!(get("d"), vec!["b", "c", "start"]);
    assert!(is_ancestor("d", "start", &anc));
    assert!(!is_ancestor("d", "r", &anc));
    assert!(!is_ancestor("start", "b", &anc));
    assert!(!is_ancestor("missing", "b", &anc));
}

#[test]
fn test_build_ancestor_dict_unreached_listener() {
    let methods = vec!["a".to_string()];
    let listeners = vec![or_listener("x", &["elsewhere"])];
    let anc = build_ancestor_dict(&methods, &listeners, &vec![], &vec![]);
    assert_eq!(anc.len(), 1);
    assert_eq!(anc[0].0, "a");
    assert!(anc[0].1.is_empty());
}

fn and_listener(name: &str, methods: &[&str]) -> (String, ListenerCondition) {
    (
        name.to_string(),
        ListenerCondition::Simple(SimpleFlowCondition {
            condition_type: "AND".to_string(),
            methods: methods.iter().map(|m| m.to_string()).collect(),
        }),
    )
}

#[test]
fn test_calculate_node_levels() {
    let methods: Vec<String> = ["start", "a", "b", "c", "lonely"].iter().map(|m| m.to_string()).collect();
    let starts = vec!["start".to_string()];
    let listeners = vec![
        or_listener("a", &["start"]),
        and_listener("b", &["start", "a"]),
        or_listener("c", &["path_x"]),
    ];
    let routers = vec!["b".to_string()];
    let router_paths = vec![("b".to_string(), vec!["path_x".to_string()])];
    let levels = calculate_node_levels(&methods, &starts, &listeners, &routers, &router_paths);
    let get = |k: &str| levels.iter().find(|(n, _)| n == k).map(|(_, l)| *l);
    assert_eq!(levels.len(), 5);
    assert_eq!(get("start"), Some(0));
    assert_eq!(get("a"), Some(1));
    // "b" waits for both "start" and "a".
    assert_eq!(get("b"), Some(2));
    // Reached through the router's path.
    assert_eq!(get("c"), Some(3));
    // Unreached methods go one below the deepest level.
    assert_eq!(get("lonely"), Some(4));
}

#[test]
fn test_calculate_node_levels_and_after_all_triggers() {
    let methods: Vec<String> = ["start", "a", "b", "c", "orphan"].iter().map(|m| m.to_string()).collect();
    let starts = vec!["start".to_string()];
    let listeners = vec![
        or_listener("a", &["start"]),
        and_listener("b", &["start", "a"]),
        or_listener("c", &["b"]),
    ];
    let levels = calculate_node_levels(&methods, &starts, &listeners, &vec![], &vec![]);
    let get = |k: &str| levels.iter().find(|(n, _)| n == k).map(|(_, l)| *l);
    assert_eq!(levels.len(), 5);
    assert_eq!(get("start"), Some(0));
    assert_eq!(get("a"), Some(1));
    assert_eq!(get("b"), Some(2));
    assert_eq!(get("c"), Some(3));
    assert_eq!(get("orphan"), Some(4));
}

#[test]
fn test_calculate_node_levels_shorter_way_wins() {
    let methods: Vec<String> = ["s", "x", "y"].iter().map(|m| m.to_string()).collect();
    let starts = vec!["s".to_string()];
    let listeners = vec![or_listener("x", &["s"]), or_listener("y", &["x", "s"])];
    let levels = calculate_node_levels(&methods, &starts, &listeners, &vec![], &vec![]);
    let get = |k: &str| levels.iter().find(|(n, _)| n == k).map(|(_, l)| *l);
    assert_eq!(get("s"), Some(0));
    assert_eq!(get("x"), Some(1));
    assert_eq!(get("y"), Some(1));
    let none = calculate_node_levels(&methods, &vec![], &listeners, &vec![], &vec![]);
    assert!(none.iter().all(|(_, l)| *l == 1));
}
