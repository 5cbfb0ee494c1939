use crewai::flow::human_feedback::{HumanFeedbackConfig, HumanFeedbackConfigError, HumanFeedbackResult};
use crewai::flow::async_feedback::{
    collapse_outcome, missing_required_field, pending_feedback_message, resume_trigger, ConsoleProvider,
    PendingFeedbackContext,
};
use crewai::flow::flow::{
    extract_all_methods_from_condition, Flow, FlowMethodRegistration, FlowMethodType, FlowState, ListenerCondition,
};
use crewai::flow::utils::JsonValue;
use crewai::flow::flow_wrappers::{
    and_, listen_method_meta, or_, router_method_meta, start_method_meta, FlowCondition, FlowConditionItem,
    FlowConditionType, FlowMethodMeta, FlowMethodName, SimpleFlowCondition,
};

fn name(s: &str) -> FlowMethodName {
    FlowMethodName::new(s.to_string())
}

fn names(v: &[&str]) -> Vec<FlowMethodName> {
    v.iter().map(|s| name(s)).collect()
}

#[test]
fn test_flow_default() {
    let flow = Flow::new();
    assert!(flow.methods.is_empty());
    assert_eq!(flow.flow_name(), "Flow");
}

#[test]
fn test_flow_with_name() {
    let flow = Flow::with_name("MyWorkflow");
    assert_eq!(flow.flow_name(), "MyWorkflow");
}

#[test]
fn test_flow_register_method() {
    let mut flow = Flow::new();
    let meta = FlowMethodMeta { is_start_method: true, ..Default::default() };
    flow.register_method_meta("begin", &meta);
    assert_eq!(flow.methods.len(), 1);
    assert_eq!(flow.start_methods.len(), 1);
    assert_eq!(flow.start_methods[0], FlowMethodName::new("begin".to_string()));
}

#[test]
fn test_flow_register_router() {
    let mut flow = Flow::new();
    let meta = FlowMethodMeta {
        is_router: true,
        trigger_methods: Some(vec![name("begin")]),
        condition_type: Some(FlowConditionType::OR),
        router_paths: Some(vec!["path_a".to_string(), "path_b".to_string()]),
        ..Default::default()
    };
    flow.register_method_meta("route_decision", &meta);
    assert!(flow.routers.contains(&name("route_decision")));
    assert!(flow.router_paths.iter().any(|(k, _)| *k == name("route_decision")));
    let paths = &flow.router_paths.iter().find(|(k, _)| *k == name("route_decision")).unwrap().1;
    assert_eq!(paths, &names(&["path_a", "path_b"]));
}

#[test]
fn test_flow_reset() {
    let mut flow = Flow::new();
    flow.mark_completed(&name("some_method"));
    assert_eq!(flow.completed_methods.len(), 1);
    flow.reset();
    assert!(flow.completed_methods.is_empty());
}

#[test]
fn test_from_meta_method_type() {
    let start = FlowMethodRegistration::from_meta(name("a"), &start_method_meta());
    assert_eq!(start.method_type, FlowMethodType::Start);
    assert_eq!(start.method_type.as_str(), "start");
    let listen = FlowMethodRegistration::from_meta(name("b"), &listen_method_meta(names(&["a"]), FlowConditionType::AND));
    assert_eq!(listen.method_type, FlowMethodType::Listen);
    assert_eq!(listen.condition_type, Some(FlowConditionType::AND));
    assert_eq!(listen.trigger_methods, Some(names(&["a"])));
    let router = FlowMethodRegistration::from_meta(
        name("r"),
        &router_method_meta(names(&["a"]), FlowConditionType::OR, Some(vec!["x".to_string()])),
    );
    assert_eq!(router.method_type, FlowMethodType::Router);
    assert_eq!(router.router_paths, Some(vec!["x".to_string()]));
}

#[test]
fn test_register_listener_replaces_condition() {
    let mut flow = Flow::new();
    flow.register_method_meta("l", &listen_method_meta(names(&["a"]), FlowConditionType::OR));
    flow.register_method_meta("l", &listen_method_meta(names(&["b", "c"]), FlowConditionType::AND));
    assert_eq!(flow.listeners.len(), 1);
    match &flow.listeners[0].1 {
        ListenerCondition::Simple(s) => {
            assert_eq!(s.condition_type, FlowConditionType::AND);
            assert_eq!(s.methods, names(&["b", "c"]));
        }
        ListenerCondition::Compound(_) => panic!("expected a simple condition"),
    }
}

#[test]
fn test_start_methods_not_repeated() {
    let mut flow = Flow::new();
    flow.register_method_meta("begin", &start_method_meta());
    flow.register_method_meta("begin", &start_method_meta());
    assert_eq!(flow.methods.len(), 2);
    assert_eq!(flow.start_methods.len(), 1);
    assert_eq!(flow.start_method_names(), names(&["begin", "begin"]));
}

#[test]
fn test_or_listener_fires_once_until_cleared() {
    let mut flow = Flow::new();
    let cond = ListenerCondition::Simple(SimpleFlowCondition { condition_type: FlowConditionType::OR, methods: names(&["a", "b"]) });
    let l = name("listener");
    assert!(flow.should_trigger(&l, &cond, &name("a")));
    assert!(!flow.should_trigger(&l, &cond, &name("b")));
    assert!(!flow.should_trigger(&l, &cond, &name("a")));
    flow.clear_or_listeners();
    assert!(flow.should_trigger(&l, &cond, &name("b")));
}

#[test]
fn test_or_listener_ignores_other_methods() {
    let mut flow = Flow::new();
    let cond = ListenerCondition::Simple(SimpleFlowCondition { condition_type: FlowConditionType::OR, methods: names(&["a"]) });
    assert!(!flow.should_trigger(&name("l"), &cond, &name("z")));
    assert!(flow.fired_or_listeners.is_empty());
}

#[test]
fn test_mark_or_listener_fired() {
    let mut flow = Flow::new();
    assert!(flow.mark_or_listener_fired(&name("x")));
    assert!(!flow.mark_or_listener_fired(&name("x")));
    assert!(flow.mark_or_listener_fired(&name("y")));
}

#[test]
fn test_and_listener_fires_on_last_trigger() {
    let mut flow = Flow::new();
    let cond = ListenerCondition::Simple(SimpleFlowCondition { condition_type: FlowConditionType::AND, methods: names(&["a", "b", "c"]) });
    let l = name("joiner");
    assert!(!flow.should_trigger(&l, &cond, &name("b")));
    assert!(!flow.should_trigger(&l, &cond, &name("b")));
    assert!(!flow.should_trigger(&l, &cond, &name("a")));
    assert!(flow.should_trigger(&l, &cond, &name("c")));
    // pending resets after firing
    assert!(!flow.should_trigger(&l, &cond, &name("c")));
    assert!(!flow.should_trigger(&l, &cond, &name("z")));
}

#[test]
fn test_and_listeners_are_independent() {
    let mut flow = Flow::new();
    let cond = ListenerCondition::Simple(SimpleFlowCondition { condition_type: FlowConditionType::AND, methods: names(&["a", "b"]) });
    assert!(!flow.should_trigger(&name("l1"), &cond, &name("a")));
    assert!(!flow.should_trigger(&name("l2"), &cond, &name("b")));
    assert!(flow.should_trigger(&name("l1"), &cond, &name("b")));
    assert!(flow.should_trigger(&name("l2"), &cond, &name("a")));
}

#[test]
fn test_compound_or_condition() {
    let mut flow = Flow::new();
    let c = FlowCondition {
        condition_type: FlowConditionType::OR,
        conditions: vec![FlowConditionItem::MethodName(name("a")), FlowConditionItem::Condition(and_(names(&["b", "c"])))],
        methods: names(&["d"]),
    };
    let l = name("l");
    assert!(!flow.evaluate_compound_condition(&l, &c, &name("zzz")));
    assert!(flow.evaluate_compound_condition(&l, &c, &name("d")));
    assert!(!flow.evaluate_compound_condition(&l, &c, &name("a")));
    let mut flow = Flow::new();
    // the nested AND needs both b and c
    assert!(!flow.evaluate_compound_condition(&l, &c, &name("b")));
    assert!(flow.evaluate_compound_condition(&l, &c, &name("c")));
}

#[test]
fn test_compound_and_condition_needs_every_name() {
    let mut flow = Flow::new();
    let c = FlowCondition {
        condition_type: FlowConditionType::AND,
        conditions: vec![FlowConditionItem::Condition(or_(names(&["x", "y"])))],
        methods: names(&["z"]),
    };
    let cond = ListenerCondition::Compound(c);
    let l = name("l");
    assert!(!flow.should_trigger(&l, &cond, &name("x")));
    assert!(!flow.should_trigger(&l, &cond, &name("z")));
    assert!(flow.should_trigger(&l, &cond, &name("y")));
}

#[test]
fn test_extract_all_methods_from_condition() {
    let c = FlowCondition {
        condition_type: FlowConditionType::OR,
        conditions: vec![FlowConditionItem::MethodName(name("a")), FlowConditionItem::Condition(and_(names(&["b", "c"])))],
        methods: names(&["d"]),
    };
    let mut all = extract_all_methods_from_condition(&c);
    all.sort();
    all.dedup();
    assert_eq!(all, vec!["a", "b", "c", "d"]);
}

#[test]
fn test_triggered_listeners_in_order() {
    let mut flow = Flow::new();
    flow.register_method_meta("begin", &start_method_meta());
    flow.register_method_meta("second", &listen_method_meta(names(&["begin"]), FlowConditionType::OR));
    flow.register_method_meta("third", &listen_method_meta(names(&["begin", "second"]), FlowConditionType::AND));
    flow.register_method_meta("fourth", &listen_method_meta(names(&["begin"]), FlowConditionType::OR));
    assert_eq!(flow.triggered_listeners(&name("begin")), names(&["second", "fourth"]));
    assert_eq!(flow.triggered_listeners(&name("second")), names(&["third"]));
    assert!(flow.triggered_listeners(&name("begin")).is_empty());
    assert_eq!(flow.listeners.len(), 3);
}

#[test]
fn test_next_trigger_for_router_and_listener() {
    let mut flow = Flow::new();
    flow.register_method_meta("route", &router_method_meta(names(&["begin"]), FlowConditionType::OR, None));
    assert_eq!(flow.next_trigger(&name("route"), Some("path_a")), Some(name("path_a")));
    assert_eq!(flow.next_trigger(&name("route"), None), None);
    assert_eq!(flow.next_trigger(&name("plain"), Some("ignored")), Some(name("plain")));
}

#[test]
fn test_should_skip_listener_when_resuming() {
    let mut flow = Flow::new();
    flow.mark_completed(&name("done"));
    assert!(!flow.should_skip_listener(&name("done")));
    flow.is_execution_resuming = true;
    assert!(flow.should_skip_listener(&name("done")));
    assert!(!flow.should_skip_listener(&name("other")));
}

#[test]
fn test_collapse_outcome() {
    let emit = vec!["approve".to_string(), "reject".to_string()];
    let default = "reject".to_string();
    assert_eq!(collapse_outcome("  ", Some(&default), Some(&emit)), Some("reject".to_string()));
    assert_eq!(collapse_outcome("", None, Some(&emit)), Some("approve".to_string()));
    assert_eq!(collapse_outcome("looks good", Some(&default), Some(&emit)), Some("approve".to_string()));
    assert_eq!(collapse_outcome("looks good", Some(&default), None), None);
    assert_eq!(collapse_outcome("\t\n", None, None), None);
}

#[test]
fn test_resume_trigger() {
    let outcome = "approve".to_string();
    let method = "review".to_string();
    assert_eq!(resume_trigger(true, Some(&outcome), &method), "approve");
    assert_eq!(resume_trigger(false, Some(&outcome), &method), "review");
    assert_eq!(resume_trigger(true, None, &method), "review");
}

#[test]
fn test_missing_required_field() {
    assert_eq!(missing_required_field(None, Some("c"), Some("m")), Some("Missing flow_id"));
    assert_eq!(missing_required_field(Some("f"), None, None), Some("Missing flow_class"));
    assert_eq!(missing_required_field(Some("f"), Some("c"), None), Some("Missing method_name"));
    assert_eq!(missing_required_field(Some("f"), Some("c"), Some("m")), None);
}

#[test]
fn test_human_feedback_pending() {
    let message = pending_feedback_message("flow-4", "review");
    assert!(message.contains("flow-4"));
    assert!(message.contains("review"));
    assert_eq!(message, "Human feedback pending for flow 'flow-4' at method 'review'");
}

#[test]
fn test_console_provider_feedback() {
    let default = "approve".to_string();
    assert_eq!(ConsoleProvider::feedback_from_input(Some("  yes \n"), Some(&default)), "yes");
    assert_eq!(ConsoleProvider::feedback_from_input(None, Some(&default)), "approve");
    assert_eq!(ConsoleProvider::feedback_from_input(None, None), "");
}

#[test]
fn test_feedback_config_validation() {
    let plain = HumanFeedbackConfig::new("Review".to_string());
    assert_eq!(plain.validate(), Ok(()));
    let routed = HumanFeedbackConfig::with_routing("Review".to_string(), vec!["yes".to_string(), "no".to_string()], "gpt".to_string()).unwrap();
    assert_eq!(routed.validate(), Ok(()));
    assert_eq!(
        HumanFeedbackConfig::with_routing("Review".to_string(), vec![], "gpt".to_string()).err(),
        Some(HumanFeedbackConfigError::EmptyEmit)
    );
    let mut no_llm = HumanFeedbackConfig::new("m".to_string());
    no_llm.emit = Some(vec!["a".to_string()]);
    assert_eq!(no_llm.validate(), Err(HumanFeedbackConfigError::LlmRequired));
    let mut bad_default = HumanFeedbackConfig::with_routing("m".to_string(), vec!["a".to_string()], "gpt".to_string()).unwrap();
    bad_default.default_outcome = Some("b".to_string());
    assert_eq!(bad_default.validate(), Err(HumanFeedbackConfigError::DefaultNotInEmit));
    let mut orphan = HumanFeedbackConfig::new("m".to_string());
    orphan.default_outcome = Some("a".to_string());
    assert_eq!(orphan.validate(), Err(HumanFeedbackConfigError::DefaultWithoutEmit));
}

#[test]
fn test_execution_counts() {
    let mut flow = Flow::new();
    assert_eq!(flow.execution_count(&name("a")), 0);
    flow.record_execution(&name("a"));
    flow.record_execution(&name("a"));
    flow.record_execution(&name("b"));
    assert_eq!(flow.execution_count(&name("a")), 2);
    assert_eq!(flow.execution_count(&name("b")), 1);
    flow.reset();
    assert_eq!(flow.execution_count(&name("a")), 0);
}

fn entry<'a>(entries: &'a [(String, JsonValue)], key: &str) -> Option<&'a JsonValue> {
    entries.iter().find(|(k, _)| k == key).map(|(_, v)| v)
}

fn is_text(v: Option<&JsonValue>, text: &str) -> bool {
    matches!(v, Some(JsonValue::Str(s)) if s == text)
}

#[test]
fn test_flow_state_default() {
    let state = FlowState::new();
    assert!(!state.id.is_empty());
    assert!(state.data.is_empty());
    assert_eq!(state.id.len(), 36);
}

#[test]
fn test_flow_state_id_is_uuid_v4_text() {
    let state = FlowState::new();
    let chars: Vec<char> = state.id.chars().collect();
    assert_eq!(chars.len(), 36);
    for (i, c) in chars.iter().enumerate() {
        if i == 8 || i == 13 || i == 18 || i == 23 {
            assert_eq!(*c, '-');
        } else {
            assert!(c.is_ascii_digit() || ('a'..='f').contains(c));
        }
    }
    assert_eq!(chars[14], '4');
    assert!(matches!(chars[19], '8' | '9' | 'a' | 'b'));
}

#[test]
fn test_flow_state_with_data() {
    let data = vec![("counter".to_string(), JsonValue::Number("0".to_string()))];
    let state = FlowState::with_data(data);
    assert!(!state.id.is_empty());
    assert!(matches!(state.get("counter"), Some(JsonValue::Number(n)) if n == "0"));
}

#[test]
fn test_flow_state_with_data_preserves_id() {
    let data = vec![
        ("id".to_string(), JsonValue::Str("custom-id-123".to_string())),
        ("key".to_string(), JsonValue::Str("value".to_string())),
    ];
    let state = FlowState::with_data(data);
    assert_eq!(state.id, "custom-id-123");
    assert!(is_text(state.get("key"), "value"));
}

#[test]
fn test_flow_state_initialize_keeps_id() {
    let mut state = FlowState::with_data(vec![("id".to_string(), JsonValue::Str("keep".to_string()))]);
    state.initialize(vec![("counter".to_string(), JsonValue::Number("1".to_string()))]);
    assert_eq!(state.id, "keep");
    assert!(matches!(state.get("counter"), Some(JsonValue::Number(n)) if n == "1"));
    state.initialize(vec![
        ("id".to_string(), JsonValue::Str("new-id".to_string())),
        ("counter".to_string(), JsonValue::Number("2".to_string())),
    ]);
    assert_eq!(state.id, "new-id");
    assert!(matches!(state.get("counter"), Some(JsonValue::Number(n)) if n == "2"));
    assert!(state.get("id").is_none());
}

#[test]
fn test_flow_state_to_dict() {
    let mut state = FlowState::new();
    state.set("name".to_string(), JsonValue::Str("test".to_string()));
    let dict = state.to_dict();
    assert!(is_text(entry(&dict, "id"), &state.id));
    assert!(is_text(entry(&dict, "name"), "test"));
}

#[test]
fn test_flow_state_id_rules() {
    // An empty or non-string id entry leaves a fresh id, and leaves the data.
    let state = FlowState::with_data(vec![("id".to_string(), JsonValue::Str(String::new()))]);
    assert_eq!(state.id.len(), 36);
    assert!(state.data.is_empty());
    let state = FlowState::with_data(vec![("id".to_string(), JsonValue::Number("7".to_string()))]);
    assert_eq!(state.id.len(), 36);
    assert!(state.get("id").is_none());
    // Setting "id" takes a string and ignores anything else.
    let mut state = FlowState::new();
    state.set("id".to_string(), JsonValue::Number("1".to_string()));
    assert_eq!(state.id.len(), 36);
    state.set("id".to_string(), JsonValue::Str("run-9".to_string()));
    assert_eq!(state.id, "run-9");
    assert!(state.data.is_empty());
    assert!(state.get("id").is_none());
    // Setting a key twice replaces its value in place.
    state.set("a".to_string(), JsonValue::Bool(true));
    state.set("b".to_string(), JsonValue::Null);
    state.set("a".to_string(), JsonValue::Bool(false));
    assert_eq!(state.data.len(), 2);
    assert_eq!(state.data[0].0, "a");
    assert!(matches!(state.get("a"), Some(JsonValue::Bool(false))));
    let dict = state.to_dict();
    assert_eq!(dict.len(), 3);
    assert!(is_text(entry(&dict, "id"), "run-9"));
}

#[test]
fn test_flow_state_to_dict_copies_nested_values() {
    let nested = JsonValue::Object(vec![(
        "xs".to_string(),
        JsonValue::Array(vec![JsonValue::Number("1".to_string()), JsonValue::Str("two".to_string())]),
    )]);
    let mut state = FlowState::with_data(vec![("cfg".to_string(), nested)]);
    state.set("flag".to_string(), JsonValue::Bool(true));
    let dict = state.to_dict();
    assert_eq!(dict.len(), 3);
    match entry(&dict, "cfg") {
        Some(JsonValue::Object(ms)) => {
            assert_eq!(ms.len(), 1);
            assert_eq!(ms[0].0, "xs");
            match &ms[0].1 {
                JsonValue::Array(xs) => {
                    assert!(matches!(&xs[0], JsonValue::Number(n) if n == "1"));
                    assert!(matches!(&xs[1], JsonValue::Str(s) if s == "two"));
                },
                _ => panic!("array expected"),
            }
        },
        _ => panic!("object expected"),
    }
}

fn text(s: &str) -> JsonValue {
    JsonValue::Str(s.to_string())
}

#[test]
fn test_pending_feedback_context_new() {
    let ctx = PendingFeedbackContext::new(
        "flow-1".to_string(),
        "TestFlow".to_string(),
        "review".to_string(),
        JsonValue::Object(vec![("text".to_string(), text("Hello"))]),
        "Please review".to_string(),
    );
    assert_eq!(ctx.flow_id, "flow-1");
    assert_eq!(ctx.method_name, "review");
    assert!(ctx.emit.is_none());
    assert!(ctx.requested_at.ends_with("+00:00"));
}

#[test]
fn test_pending_feedback_context_builders() {
    let ctx = PendingFeedbackContext::new(
        "flow-2".to_string(),
        "TestFlow".to_string(),
        "decide".to_string(),
        JsonValue::Null,
        "Choose".to_string(),
    )
    .with_emit(vec!["approve".to_string(), "reject".to_string()])
    .with_default_outcome("approve".to_string())
    .with_llm("gpt-4o-mini".to_string());

    assert_eq!(ctx.emit.as_ref().unwrap().len(), 2);
    assert_eq!(ctx.default_outcome.as_ref().unwrap(), "approve");
    assert_eq!(ctx.llm.as_ref().unwrap(), "gpt-4o-mini");
}

#[test]
fn test_pending_feedback_context_roundtrip() {
    let ctx = PendingFeedbackContext::new(
        "flow-3".to_string(),
        "TestFlow".to_string(),
        "check".to_string(),
        JsonValue::Number("42".to_string()),
        "Is this ok?".to_string(),
    )
    .with_emit(vec!["yes".to_string(), "no".to_string()]);

    let dict = ctx.to_dict();
    let restored = PendingFeedbackContext::from_dict(&dict).unwrap();

    assert_eq!(restored.flow_id, "flow-3");
    assert_eq!(restored.method_name, "check");
    assert_eq!(restored.message, "Is this ok?");
    assert_eq!(restored.emit.as_ref().unwrap().len(), 2);
}

#[test]
fn test_pending_feedback_context_dict_keys() {
    let ctx = PendingFeedbackContext::new(
        "f".to_string(),
        "C".to_string(),
        "m".to_string(),
        JsonValue::Bool(true),
        "msg".to_string(),
    )
    .with_metadata(vec![("source".to_string(), text("web"))]);
    let dict = ctx.to_dict();
    // No emit, default outcome or LLM: seven keys.
    assert_eq!(dict.len(), 7);
    assert!(entry(&dict, "emit").is_none());
    assert!(entry(&dict, "llm").is_none());
    assert!(is_text(entry(&dict, "flow_class"), "C"));
    assert!(matches!(entry(&dict, "method_output"), Some(JsonValue::Bool(true))));
    assert!(is_text(entry(&dict, "requested_at"), &ctx.requested_at));
    match entry(&dict, "metadata") {
        Some(JsonValue::Object(ms)) => {
            assert_eq!(ms.len(), 1);
            assert!(is_text(entry(ms, "source"), "web"));
        },
        _ => panic!("metadata object expected"),
    }
    let full = ctx.with_emit(vec!["a".to_string()]).with_default_outcome("a".to_string()).with_llm("gpt".to_string());
    let dict = full.to_dict();
    assert_eq!(dict.len(), 10);
    assert!(is_text(entry(&dict, "default_outcome"), "a"));
    match entry(&dict, "emit") {
        Some(JsonValue::Array(xs)) => {
            assert_eq!(xs.len(), 1);
            assert!(matches!(&xs[0], JsonValue::Str(s) if s == "a"));
        },
        _ => panic!("emit array expected"),
    }
}

#[test]
fn test_pending_feedback_context_from_dict_errors() {
    let missing_id = vec![("flow_class".to_string(), text("C")), ("method_name".to_string(), text("m"))];
    assert_eq!(PendingFeedbackContext::from_dict(&missing_id).err(), Some("Missing flow_id".to_string()));
    let id_not_text = vec![
        ("flow_id".to_string(), JsonValue::Number("1".to_string())),
        ("flow_class".to_string(), text("C")),
        ("method_name".to_string(), text("m")),
    ];
    assert_eq!(PendingFeedbackContext::from_dict(&id_not_text).err(), Some("Missing flow_id".to_string()));
    let missing_class = vec![("flow_id".to_string(), text("f")), ("method_name".to_string(), text("m"))];
    assert_eq!(PendingFeedbackContext::from_dict(&missing_class).err(), Some("Missing flow_class".to_string()));
    let missing_method = vec![("flow_id".to_string(), text("f")), ("flow_class".to_string(), text("C"))];
    assert_eq!(PendingFeedbackContext::from_dict(&missing_method).err(), Some("Missing method_name".to_string()));
}

#[test]
fn test_pending_feedback_context_from_dict_defaults() {
    let data = vec![
        ("flow_id".to_string(), text("f")),
        ("flow_class".to_string(), text("C")),
        ("method_name".to_string(), text("m")),
        ("emit".to_string(), JsonValue::Array(vec![text("a"), JsonValue::Null])),
        ("metadata".to_string(), text("not an object")),
        ("llm".to_string(), JsonValue::Number("4".to_string())),
        ("requested_at".to_string(), text("2024-01-01T02:30:00+02:00")),
    ];
    let ctx = PendingFeedbackContext::from_dict(&data).unwrap();
    assert!(matches!(ctx.method_output, JsonValue::Null));
    assert_eq!(ctx.message, "");
    assert!(ctx.emit.is_none());
    assert!(ctx.default_outcome.is_none());
    assert!(ctx.metadata.is_empty());
    assert!(ctx.llm.is_none());
    // The request time is read and written in UTC.
    assert_eq!(ctx.requested_at, "2024-01-01T00:30:00+00:00");
    let dict = ctx.to_dict();
    assert!(is_text(entry(&dict, "requested_at"), "2024-01-01T00:30:00+00:00"));
}

#[test]
fn test_human_feedback_result_constructors() {
    let r = HumanFeedbackResult::new(text("draft"), "looks good".to_string(), "review".to_string());
    assert!(is_text(Some(&r.output), "draft"));
    assert_eq!(r.feedback, "looks good");
    assert!(r.outcome.is_none());
    assert_eq!(r.method_name, "review");
    assert!(r.metadata.is_empty());
    assert!(r.timestamp.ends_with("+00:00"));
    let routed = HumanFeedbackResult::with_outcome(JsonValue::Null, "ok".to_string(), "approve".to_string(), "review".to_string());
    assert_eq!(routed.outcome.as_deref(), Some("approve"));
    let d = HumanFeedbackResult::default();
    assert!(matches!(d.output, JsonValue::Null));
    assert!(d.feedback.is_empty() && d.method_name.is_empty() && d.outcome.is_none());
}

#[test]
fn test_flow_state_set_then_get() {
    let mut state = FlowState::with_data(vec![("x".to_string(), text("1")), ("y".to_string(), text("2"))]);
    state.set("x".to_string(), text("3"));
    assert!(is_text(state.get("x"), "3"));
    assert!(is_text(state.get("y"), "2"));
    state.set("z".to_string(), JsonValue::Null);
    assert!(matches!(state.get("z"), Some(JsonValue::Null)));
    assert!(is_text(state.get("x"), "3"));
    assert!(state.get("w").is_none());
}

#[test]
fn test_flow_state_dict_roundtrip() {
    let mut state = FlowState::with_data(vec![("id".to_string(), text("run-1")), ("n".to_string(), JsonValue::Number("5".to_string()))]);
    state.set("flag".to_string(), JsonValue::Bool(true));
    let back = FlowState::from_dict(state.to_dict());
    assert_eq!(back.id, "run-1");
    assert_eq!(back.data.len(), 2);
    assert_eq!(back.data[0].0, "n");
    assert!(matches!(back.get("n"), Some(JsonValue::Number(v)) if v == "5"));
    assert!(matches!(back.get("flag"), Some(JsonValue::Bool(true))));
}
