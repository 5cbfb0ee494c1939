use crewai::flow::flow::{FlowMethodRegistration, FlowMethodType};
use crewai::flow::flow_wrappers::{FlowConditionType, FlowMethodName};
use crewai::flow::visualization::{
    build_flow_structure, calculate_execution_paths, nodes_by_level, FlowStructure, NodeMetadata, StructureEdge,
};

fn name(s: &str) -> FlowMethodName {
    FlowMethodName::new(s.to_string())
}

fn registration(
    n: &str,
    method_type: FlowMethodType,
    is_start: bool,
    triggers: Option<Vec<&str>>,
    is_router: bool,
    paths: Option<Vec<&str>>,
) -> FlowMethodRegistration {
    FlowMethodRegistration {
        name: name(n),
        method_type,
        is_start_method: is_start,
        trigger_methods: triggers.map(|ts| ts.into_iter().map(name).collect()),
        condition_type: if is_start { None } else { Some(FlowConditionType::OR) },
        trigger_condition: None,
        is_router,
        router_paths: paths.map(|ps| ps.into_iter().map(|p| p.to_string()).collect()),
    }
}

fn node<'a>(nodes: &'a [(String, NodeMetadata)], key: &str) -> &'a NodeMetadata {
    &nodes.iter().find(|(k, _)| k == key).unwrap().1
}

#[test]
fn test_build_flow_structure_empty() {
    let structure = build_flow_structure(&vec![]);
    assert!(structure.nodes.is_empty());
    assert!(structure.edges.is_empty());
}

#[test]
fn test_build_flow_structure_simple() {
    let methods = vec![
        FlowMethodRegistration {
            name: name("start"),
            method_type: FlowMethodType::Start,
            is_start_method: true,
            trigger_methods: None,
            condition_type: None,
            trigger_condition: None,
            is_router: false,
            router_paths: None,
        },
        FlowMethodRegistration {
            name: name("process"),
            method_type: FlowMethodType::Listen,
            is_start_method: false,
            trigger_methods: Some(vec![name("start")]),
            condition_type: Some(FlowConditionType::OR),
            trigger_condition: None,
            is_router: false,
            router_paths: None,
        },
    ];

    let structure = build_flow_structure(&methods);
    assert_eq!(structure.nodes.len(), 2);
    assert_eq!(structure.edges.len(), 1);
    assert_eq!(structure.edges[0].source, "start");
    assert_eq!(structure.edges[0].target, "process");
}

#[test]
fn test_build_flow_structure_with_router() {
    let methods = vec![
        FlowMethodRegistration {
            name: name("begin"),
            method_type: FlowMethodType::Start,
            is_start_method: true,
            trigger_methods: None,
            condition_type: None,
            trigger_condition: None,
            is_router: false,
            router_paths: None,
        },
        FlowMethodRegistration {
            name: name("decide"),
            method_type: FlowMethodType::Router,
            is_start_method: false,
            trigger_methods: Some(vec![name("begin")]),
            condition_type: Some(FlowConditionType::OR),
            trigger_condition: None,
            is_router: true,
            router_paths: Some(vec!["path_a".to_string(), "path_b".to_string()]),
        },
    ];

    let structure = build_flow_structure(&methods);
    assert_eq!(structure.nodes.len(), 2);
    // 1 listen edge + 2 router path edges.
    assert_eq!(structure.edges.len(), 3);

    let router_edges: Vec<_> = structure.edges.iter().filter(|e| e.is_router_path == Some(true)).collect();
    assert_eq!(router_edges.len(), 2);
}

#[test]
fn test_flow_structure_levels_and_metadata() {
    let methods = vec![
        registration("begin", FlowMethodType::Start, true, None, false, None),
        registration("decide", FlowMethodType::Router, false, Some(vec!["begin"]), true, Some(vec!["path_a"])),
        registration("on_a", FlowMethodType::Listen, false, Some(vec!["path_a"]), false, None),
        registration("late", FlowMethodType::Listen, false, Some(vec!["on_a", "begin"]), false, None),
        registration("orphan", FlowMethodType::Listen, false, Some(vec!["nowhere"]), false, None),
    ];
    let structure = build_flow_structure(&methods);
    assert_eq!(structure.nodes.len(), 5);
    assert_eq!(node(&structure.nodes, "begin").level, 0);
    assert_eq!(node(&structure.nodes, "decide").level, 1);
    // "path_a" is one step from "decide", "on_a" one more.
    assert_eq!(node(&structure.nodes, "on_a").level, 3);
    // The shortest way to "late" is directly from "begin".
    assert_eq!(node(&structure.nodes, "late").level, 1);
    // Not reached from any start method.
    assert_eq!(node(&structure.nodes, "orphan").level, 0);

    let decide = node(&structure.nodes, "decide");
    assert_eq!(decide.id, "decide");
    assert_eq!(decide.label, "decide");
    assert_eq!(decide.node_type.as_deref(), Some("router"));
    assert_eq!(decide.is_router, Some(true));
    assert_eq!(decide.router_paths, Some(vec!["path_a".to_string()]));
    assert_eq!(decide.trigger_methods, Some(vec!["begin".to_string()]));
    assert_eq!(decide.condition_type.as_deref(), Some("OR"));
    assert!(decide.source_code.is_none());
    let begin = node(&structure.nodes, "begin");
    assert!(begin.is_start);
    assert_eq!(begin.node_type.as_deref(), Some("start"));
    assert_eq!(begin.trigger_methods, None);

    assert_eq!(structure.start_methods, vec!["begin".to_string()]);
    assert_eq!(structure.router_methods, vec!["decide".to_string()]);
    assert_eq!(structure.flow_name, "");
    let labels: Vec<Option<String>> = structure.edges.iter().map(|e| e.label.clone()).collect();
    assert_eq!(
        labels,
        vec![
            Some("listens_to".to_string()),
            Some("path_a".to_string()),
            Some("listens_to".to_string()),
            Some("listens_to".to_string()),
            Some("listens_to".to_string()),
            Some("listens_to".to_string()),
        ]
    );
    assert_eq!(structure.edges[1].router_path_label.as_deref(), Some("path_a"));
    assert_eq!(structure.edges[1].condition_type, None);
    assert_eq!(structure.edges[0].condition_type.as_deref(), Some("OR"));
}

#[test]
fn test_flow_structure_last_registration_wins() {
    let methods = vec![
        registration("a", FlowMethodType::Start, true, None, false, None),
        registration("a", FlowMethodType::Listen, false, Some(vec!["b"]), false, None),
    ];
    let structure = build_flow_structure(&methods);
    assert_eq!(structure.nodes.len(), 1);
    let a = node(&structure.nodes, "a");
    assert!(!a.is_start);
    assert_eq!(a.node_type.as_deref(), Some("listen"));
    // Still a start method by its first registration, so at level 0.
    assert_eq!(a.level, 0);
    assert_eq!(structure.start_methods, vec!["a".to_string()]);
}

#[test]
fn test_calculate_execution_paths() {
    let mut structure = FlowStructure::default();
    structure.start_methods = vec!["a".to_string()];
    structure.nodes.push(("a".to_string(), NodeMetadata { id: "a".to_string(), is_start: true, ..Default::default() }));
    structure.nodes.push(("b".to_string(), NodeMetadata { id: "b".to_string(), ..Default::default() }));
    structure.edges.push(StructureEdge {
        source: "a".to_string(),
        target: "b".to_string(),
        label: Some("listens_to".to_string()),
        is_router_path: Some(false),
        ..Default::default()
    });

    let paths = calculate_execution_paths(&structure);
    assert!(!paths.is_empty());
    assert!(paths.iter().any(|p| p == &vec!["a".to_string(), "b".to_string()]));
}

fn edge(source: &str, target: &str) -> StructureEdge {
    StructureEdge { source: source.to_string(), target: target.to_string(), ..Default::default() }
}

fn strs(v: &[&str]) -> Vec<String> {
    v.iter().map(|s| s.to_string()).collect()
}

#[test]
fn test_execution_paths_branches_and_cycles() {
    let mut structure = FlowStructure::new("demo");
    structure.start_methods = strs(&["s"]);
    structure.edges = vec![edge("s", "x"), edge("s", "y"), edge("x", "z"), edge("z", "s"), edge("y", "z")];
    let paths = calculate_execution_paths(&structure);
    // The last neighbour is walked first; a walk stops before revisiting a node.
    assert_eq!(
        paths,
        vec![strs(&["s", "y", "z"]), strs(&["s", "x", "z"])]
    );
}

#[test]
fn test_execution_paths_lone_start_and_two_starts() {
    let mut structure = FlowStructure::default();
    structure.start_methods = strs(&["a", "b"]);
    structure.edges = vec![edge("b", "c")];
    let paths = calculate_execution_paths(&structure);
    assert_eq!(paths, vec![strs(&["a"]), strs(&["b", "c"])]);
    assert_eq!(FlowStructure::new("f").flow_name, "f");
}

#[test]
fn test_nodes_by_level_is_stable() {
    let mut structure = FlowStructure::default();
    for (n, level) in [("p", 2usize), ("q", 0), ("r", 1), ("s", 0)] {
        structure.nodes.push((n.to_string(), NodeMetadata { id: n.to_string(), level, ..Default::default() }));
    }
    assert_eq!(nodes_by_level(&structure), vec![1, 3, 2, 0]);
    assert!(nodes_by_level(&FlowStructure::default()).is_empty());
}
