use std::collections::HashMap;

use crewai::crews::utils::{
    check_conditional_skip, enable_agent_streaming, prepare_kickoff, prepare_task_execution, ForEachStreamingContext,
    StreamingContext, TaskExecutionData, TaskInfo,
};
use crewai::drivers::markov_barrier::{keep_lowest_bits, CallMeta, GateDecision, GateHistory};
use crewai::experimental::agent_executor::AgentExecutor;
use crewai::experimental::evaluation::{
    AggregationStrategy, GoalAlignmentEvaluator, MetricCategory, ToolInvocationEvaluator,
};
use crewai::flow::utils::{
    count_outgoing_edges, get_child_index, get_condition_type, is_ancestor, is_flow_method_name,
    normalize_condition, extract_methods_from_listener, FlowCondition, ListenerCondition, SimpleFlowCondition,
};
use crewai::providers::content_processor::{
    get_processor, process_content, set_processor, ContentProcessorProvider, NoOpContentProcessor, ProcessorInUse,
};
use crewai::providers::hitl_provider::ConsoleHITLProvider;
use crewai::providers::human_input::{get_provider, reset_provider, set_provider, SyncHumanInputProvider};
use crewai::text::{str_lt, trim};

#[test]
fn test_task_execution_data() {
    let skip = TaskExecutionData::skip();
    assert!(skip.should_skip);
    assert!(skip.agent.is_none());
    let d = TaskExecutionData::new(Some("writer".to_string()), vec!["search".to_string()], false);
    assert_eq!(d.agent.as_deref(), Some("writer"));
    assert_eq!(d.tools, vec!["search".to_string()]);
}

#[test]
fn test_prepare_task_execution_replay() {
    let outputs: Vec<String> = Vec::new();
    assert!(prepare_task_execution(0, Some(2), &outputs).should_skip);
    assert!(!prepare_task_execution(2, Some(2), &outputs).should_skip);
    assert!(!prepare_task_execution(0, None, &outputs).should_skip);
    assert!(check_conditional_skip(&outputs, 0, false).is_none());
    enable_agent_streaming(&["a".to_string()]);
    let mut inputs = HashMap::new();
    inputs.insert("topic".to_string(), "AI".to_string());
    assert_eq!(prepare_kickoff(Some(inputs.clone())), Some(inputs));
    assert_eq!(prepare_kickoff(None), None);
}

#[test]
fn test_streaming_contexts() {
    let info = TaskInfo::default();
    assert_eq!(info.index, 0);
    assert!(info.name.is_empty());
    let ctx = StreamingContext::new(true);
    assert!(ctx.use_async);
    assert!(ctx.result_holder.is_empty());
    let each = ForEachStreamingContext::new();
    assert_eq!(each.result_holder.len(), 1);
    assert!(each.result_holder[0].is_empty());
}

#[test]
fn test_agent_executor() {
    let mut e = AgentExecutor::new("gpt".to_string(), 2);
    assert!(!e.has_reached_max_iterations());
    e.iterations = 2;
    assert!(e.has_reached_max_iterations());
    assert!(!e.is_training_mode());
    let d = AgentExecutor::default();
    assert_eq!(d.llm, "default");
    assert_eq!(d.max_iterations, 25);
}

#[test]
fn test_metric_titles() {
    assert_eq!(MetricCategory::GoalAlignment.title(), "Goal Alignment");
    assert_eq!(MetricCategory::ToolInvocation.title(), "Tool Invocation");
    assert_eq!(AggregationStrategy::default(), AggregationStrategy::SimpleAverage);
    assert_eq!(GoalAlignmentEvaluator.metric_category(), MetricCategory::GoalAlignment);
    assert_eq!(ToolInvocationEvaluator.metric_category(), MetricCategory::ToolInvocation);
}

#[test]
fn test_barrier_stats() {
    let mut history = GateHistory::default_history();
    assert_eq!(history.stats().total_transactions, 0);
    assert_eq!(history.stats().commits, 0);
    history.record("tx-1".to_string(), GateDecision::Commit, 10, 10);
    history.record("tx-2".to_string(), GateDecision::Reject, 9000, 0);
    history.record("tx-3".to_string(), GateDecision::Dampen, 2000, 500);
    let s = history.stats();
    assert_eq!(s.total_transactions, 3);
    assert_eq!(s.commits, 1);
    assert_eq!(s.rejects, 1);
    assert_eq!(s.dampens, 1);
    assert_eq!(s.cumulative_drift, 510);
    assert_eq!(s.drift_ceiling, 1638);
    assert_eq!(history.recent_history(1).len(), 1);
    assert_eq!(history.recent_history(1)[0].0, "tx-3");
    assert_eq!(history.recent_history(10).len(), 3);
    assert!(!history.needs_consolidation());
    history.record("tx-4".to_string(), GateDecision::Commit, 2000, 2000);
    assert!(history.needs_consolidation());
    history.consolidation_done();
    assert_eq!(history.cumulative_drift, 0);
    let meta = CallMeta::default();
    assert!(meta.provider.is_empty());
}

fn listener(name: &str, kind: &str, methods: &[&str]) -> (String, ListenerCondition) {
    (
        name.to_string(),
        ListenerCondition::Simple(SimpleFlowCondition {
            condition_type: kind.to_string(),
            methods: methods.iter().map(|m| m.to_string()).collect(),
        }),
    )
}

#[test]
fn test_count_outgoing_edges() {
    let methods = vec!["a".to_string(), "b".to_string(), "c".to_string()];
    let listeners = vec![listener("b", "OR", &["a"]), listener("c", "AND", &["a", "b"])];
    let counts = count_outgoing_edges(&methods, &listeners);
    assert_eq!(counts, vec![("a".to_string(), 2), ("b".to_string(), 1), ("c".to_string(), 0)]);
}

#[test]
fn test_is_ancestor_and_child_index() {
    let ancestors = vec![("c".to_string(), vec!["a".to_string(), "b".to_string()]), ("b".to_string(), vec!["a".to_string()])];
    assert!(is_ancestor("c", "a", &ancestors));
    assert!(!is_ancestor("b", "c", &ancestors));
    assert!(!is_ancestor("zzz", "a", &ancestors));
    let children = vec![("p".to_string(), vec!["zeta".to_string(), "alpha".to_string(), "mid".to_string()])];
    assert_eq!(get_child_index("p", "alpha", &children), Some(0));
    assert_eq!(get_child_index("p", "mid", &children), Some(1));
    assert_eq!(get_child_index("p", "zeta", &children), Some(2));
    assert_eq!(get_child_index("p", "nope", &children), None);
    assert_eq!(get_child_index("q", "alpha", &children), None);
}

#[test]
fn test_condition_helpers() {
    assert!(is_flow_method_name("x"));
    assert!(!is_flow_method_name(""));
    let n = normalize_condition(&FlowCondition::MethodName("go".to_string()));
    match n {
        FlowCondition::Compound { condition_type, conditions } => {
            assert_eq!(condition_type, "OR");
            assert_eq!(conditions.len(), 1);
        }
        FlowCondition::MethodName(_) => panic!("expected a compound condition"),
    }
    let nested = ListenerCondition::Nested(FlowCondition::and_condition(vec!["x".to_string(), "y".to_string()]));
    assert_eq!(get_condition_type(&nested), "AND");
    assert_eq!(extract_methods_from_listener(&nested), vec!["x", "y"]);
    let bare = ListenerCondition::Nested(FlowCondition::MethodName("m".to_string()));
    assert_eq!(get_condition_type(&bare), "OR");
}

struct Upper;

impl ContentProcessorProvider for Upper {
    fn process(&self, content: &str, _context: Option<&HashMap<String, String>>) -> String {
        content.to_uppercase()
    }
}

#[test]
fn test_content_processor_slot() {
    let mut slot: Option<Upper> = None;
    assert_eq!(process_content(&slot, "hi", None), "hi");
    set_processor(&mut slot, Upper);
    assert_eq!(process_content(&slot, "hi", None), "HI");
    assert_eq!(NoOpContentProcessor.process("same", None), "same");
}

#[test]
fn test_human_input_providers() {
    let mut slot: Option<u8> = None;
    assert_eq!(*get_provider(&mut slot, 7), 7);
    set_provider(&mut slot, 3);
    assert_eq!(*get_provider(&mut slot, 7), 3);
    reset_provider(&mut slot);
    assert!(slot.is_none());
    let p = SyncHumanInputProvider;
    assert!(!p.setup_messages());
    p.post_setup_messages();
    assert_eq!(SyncHumanInputProvider::feedback_step("old".to_string(), "  ".to_string(), false), ("old".to_string(), false));
    assert_eq!(SyncHumanInputProvider::feedback_step("old".to_string(), "new".to_string(), false), ("new".to_string(), true));
    assert_eq!(SyncHumanInputProvider::feedback_step("old".to_string(), "new".to_string(), true), ("new".to_string(), false));
    assert!(ConsoleHITLProvider.is_enabled());
    assert_eq!(ConsoleHITLProvider::input_from_line(" ok\n"), "ok");
}

#[test]
fn test_text_helpers() {
    assert_eq!(trim("  a b \t"), "a b");
    assert_eq!(trim(""), "");
    assert_eq!(trim(" \u{3000} "), "");
    assert!(str_lt("abc", "abd"));
    assert!(str_lt("ab", "abc"));
    assert!(!str_lt("b", "abc"));
    assert!(!str_lt("same", "same"));
}

fn memory_slot() -> Option<std::collections::HashMap<String, serde_json::Value>> {
    let mut m = std::collections::HashMap::new();
    m.insert("provider".to_string(), serde_json::Value::String("x".to_string()));
    Some(m)
}

fn full_memory() -> crewai::crew::CrewMemory {
    crewai::crew::CrewMemory {
        short_term_memory: memory_slot(),
        long_term_memory: memory_slot(),
        entity_memory: memory_slot(),
        external_memory: memory_slot(),
        knowledge: memory_slot(),
        execution_logs: vec![std::collections::HashMap::new()],
    }
}

#[test]
fn test_reset_memories_commands() {
    let mut m = full_memory();
    assert_eq!(m.reset_memories("short"), Ok(()));
    assert!(m.short_term_memory.is_none());
    assert!(m.long_term_memory.is_some() && m.entity_memory.is_some() && m.knowledge.is_some());
    assert_eq!(m.execution_logs.len(), 1);

    let mut m = full_memory();
    assert_eq!(m.reset_memories("agent_knowledge"), Ok(()));
    assert!(m.knowledge.is_none());
    assert!(m.short_term_memory.is_some());

    let mut m = full_memory();
    assert_eq!(m.reset_memories("kickoff_outputs"), Ok(()));
    assert!(m.execution_logs.is_empty());
    assert!(m.external_memory.is_some());

    let mut m = full_memory();
    assert_eq!(m.reset_memories("all"), Ok(()));
    assert!(m.short_term_memory.is_none() && m.long_term_memory.is_none() && m.entity_memory.is_none());
    assert!(m.external_memory.is_none() && m.knowledge.is_none() && m.execution_logs.is_empty());
}

#[test]
fn test_reset_memories_invalid() {
    let mut m = full_memory();
    assert_eq!(
        m.reset_memories("everything"),
        Err("Invalid command type. Must be one of: long, short, entity, knowledge, agent_knowledge, kickoff_outputs, all, external".to_string())
    );
    assert!(m.short_term_memory.is_some() && m.knowledge.is_some());
    assert_eq!(m.execution_logs.len(), 1);
}

#[test]
fn test_keep_lowest_bits() {
    assert_eq!(keep_lowest_bits(0b1011_0110, 2), 0b0000_0110);
    assert_eq!(keep_lowest_bits(0b1011_0110, 3), 0b0001_0110);
    assert_eq!(keep_lowest_bits(0b1011_0110, 0), 0);
    assert_eq!(keep_lowest_bits(0b1011_0110, 9), 0b1011_0110);
    assert_eq!(keep_lowest_bits(0, 5), 0);
    assert_eq!(keep_lowest_bits(u64::MAX, 64), u64::MAX);
    assert_eq!(keep_lowest_bits(u64::MAX, 63), u64::MAX >> 1);
    assert_eq!(keep_lowest_bits(1u64 << 63, 1), 1u64 << 63);
}

#[test]
fn test_xor_delta() {
    let mut a = [0u64; 256];
    let mut b = [0u64; 256];
    a[0] = 0b1100;
    b[0] = 0b1010;
    b[255] = 7;
    let d = crewai::drivers::markov_barrier::xor_delta(&a, &b);
    assert_eq!(d[0], 0b0110);
    assert_eq!(d[255], 7);
    assert!(d[1..255].iter().all(|w| *w == 0));
}

#[test]
fn test_get_processor_default_and_registered() {
    let mut slot: Option<Upper> = None;
    let in_use = get_processor(&slot);
    assert!(matches!(in_use, ProcessorInUse::Default(_)));
    assert_eq!(in_use.process("abc", None), "abc");
    set_processor(&mut slot, Upper);
    let in_use = get_processor(&slot);
    assert!(matches!(in_use, ProcessorInUse::Registered(_)));
    assert_eq!(in_use.process("abc", None), "ABC");
}

#[test]
fn test_consolidation_needs_drift_above_ceiling() {
    let fresh = GateHistory::new(0);
    assert!(!fresh.needs_consolidation());
    let mut at = GateHistory::new(100);
    at.record("t".to_string(), GateDecision::Commit, 1, 100);
    assert!(!at.needs_consolidation());
    at.record("u".to_string(), GateDecision::Commit, 1, 1);
    assert!(at.needs_consolidation());
}
