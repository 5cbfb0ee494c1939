use crewai::events::event_bus::{Depends, Dispatch, EventHandlers, HandlerId, HandlerIdSource};
use crewai::events::event_context::{
    expected_start_event, get_current_parent_id, get_enclosing_parent_id, get_last_event_id,
    get_next_emission_sequence, get_triggering_event_id, is_scope_starting_event, pop_event_scope,
    push_event_scope, reset_emission_counter, reset_last_event_id, set_last_event_id, track_emission,
    empty_pop_report, handle_empty_pop, handle_mismatch, mismatch_report, EventContext, EventContextConfig,
    EventScopeGuard, MismatchBehavior, TriggeredByScopeGuard,
};
use crewai::events::event_listener::Listener;
use crewai::events::handler_graph::{build_execution_plan, try_build_execution_plan, HandlerGraph};
use crewai::events::types::llm_events::LLMCallType;
use crewai::events::types::system_events::SignalType;

fn h(ids: &mut HandlerIdSource, name: &str) -> HandlerId {
    HandlerId::new(name.to_string(), ids)
}

#[test]
fn test_handler_id_source_fresh_ids() {
    let mut source = HandlerIdSource::new();
    let a = HandlerId::new("same".to_string(), &mut source);
    let b = HandlerId::new("same".to_string(), &mut source);
    assert_eq!(a.name(), "same");
    assert_eq!(b.name(), "same");
    assert_eq!(a.id(), 1);
    assert_eq!(b.id(), 2);
    assert!(a != b);
    assert!(a == a.clone());
}

#[test]
fn test_handler_graph_levels() {
    let mut ids = HandlerIdSource::new();
    let a = h(&mut ids, "a");
    let b = h(&mut ids, "b");
    let c = h(&mut ids, "c");
    let handlers = vec![
        (c.clone(), vec![Depends::new(b.clone())]),
        (b.clone(), vec![Depends::new(a.clone())]),
        (a.clone(), vec![]),
    ];
    let plan = HandlerGraph::resolve(&handlers).unwrap();
    assert_eq!(plan.len(), 3);
    assert_eq!(plan[0][0].id(), 1);
    assert_eq!(plan[1][0].id(), 2);
    assert_eq!(plan[2][0].id(), 3);
    let graph = HandlerGraph::new(&handlers);
    assert_eq!(graph.get_execution_plan().len(), 3);
}

#[test]
fn test_handler_graph_parallel_level() {
    let mut ids = HandlerIdSource::new();
    let a = h(&mut ids, "a");
    let b = h(&mut ids, "b");
    let c = h(&mut ids, "c");
    let handlers = vec![(a.clone(), vec![]), (b.clone(), vec![]), (c.clone(), vec![Depends::new(a.clone()), Depends::new(b.clone())])];
    let plan = HandlerGraph::resolve(&handlers).unwrap();
    assert_eq!(plan.len(), 2);
    assert_eq!(plan[0].len(), 2);
    assert_eq!(plan[1].len(), 1);
    assert_eq!(plan[1][0].name(), "c");
}

#[test]
fn test_handler_graph_cycle() {
    let mut ids = HandlerIdSource::new();
    let a = h(&mut ids, "a");
    let b = h(&mut ids, "b");
    let handlers = vec![(a.clone(), vec![Depends::new(b.clone())]), (b.clone(), vec![Depends::new(a.clone())])];
    let err = HandlerGraph::resolve(&handlers).unwrap_err();
    assert_eq!(err.handlers.len(), 2);
    assert!(err.message().contains("Circular dependency"));
}

#[test]
fn test_handler_graph_unresolvable_dependencies() {
    let mut ids = HandlerIdSource::new();
    let a = h(&mut ids, "a");
    let b = h(&mut ids, "b");
    let ghost = h(&mut ids, "ghost");
    let handlers = vec![(a.clone(), vec![Depends::new(ghost)]), (b.clone(), vec![])];
    let err = HandlerGraph::resolve(&handlers).unwrap_err();
    assert_eq!(err.handlers.len(), 1);
    assert_eq!(err.handlers[0].id(), 1);
    let twice = vec![(a.clone(), vec![]), (b.clone(), vec![Depends::new(a.clone()), Depends::new(a.clone())])];
    let plan = HandlerGraph::resolve(&twice).unwrap();
    assert_eq!(plan.len(), 2);
    assert_eq!(plan[0][0].id(), 1);
    assert_eq!(plan[1][0].id(), 2);
}

#[test]
fn test_handler_graph_repeated_dependency_plan() {
    let mut ids = HandlerIdSource::new();
    let a = h(&mut ids, "a");
    let b = h(&mut ids, "b");
    let deps = vec![(b.clone(), vec![Depends::new(a.clone()), Depends::new(a.clone())])];
    let plan = build_execution_plan(&[a.clone(), b.clone()], &deps);
    assert_eq!(plan.len(), 2);
    assert_eq!(plan[0].len(), 1);
    assert_eq!(plan[0][0].id(), 1);
    assert_eq!(plan[1].len(), 1);
    assert_eq!(plan[1][0].id(), 2);
}

#[test]
fn test_handler_graph_cycle_report_exact() {
    let mut ids = HandlerIdSource::new();
    let a = h(&mut ids, "a");
    let b = h(&mut ids, "b");
    let c = h(&mut ids, "c");
    let d = h(&mut ids, "d");
    let handlers = vec![
        (a.clone(), vec![Depends::new(b.clone())]),
        (b.clone(), vec![Depends::new(a.clone())]),
        (c.clone(), vec![Depends::new(a.clone())]),
        (d.clone(), vec![]),
    ];
    let err = HandlerGraph::resolve(&handlers).unwrap_err();
    let ids: Vec<u64> = err.handlers.iter().map(|x| x.id()).collect();
    assert_eq!(ids, vec![1, 2, 3]);
}

#[test]
fn test_build_execution_plan_helpers() {
    let mut ids = HandlerIdSource::new();
    let a = h(&mut ids, "a");
    let b = h(&mut ids, "b");
    let deps = vec![(b.clone(), vec![Depends::new(a.clone())])];
    let plan = build_execution_plan(&[a.clone(), b.clone(), a.clone()], &deps);
    assert_eq!(plan.len(), 2);
    assert_eq!(plan[0][0].id(), 1);
    let cyclic = vec![(a.clone(), vec![Depends::new(a.clone())])];
    assert!(try_build_execution_plan(&[a.clone()], &cyclic).is_err());
}

#[test]
fn test_handler_id_equality_by_id() {
    let mut ids = HandlerIdSource::new();
    let x = h(&mut ids, "x");
    let y = h(&mut ids, "x");
    assert_ne!(x, y);
    assert_eq!(x, x.clone());
    assert_eq!(y.id(), 2);
}

#[test]
fn test_scope_push_pop() {
    let mut ctx = EventContext::new();
    assert_eq!(get_current_parent_id(&ctx), None);
    push_event_scope(&mut ctx, "e1".to_string(), "crew_kickoff_started".to_string());
    push_event_scope(&mut ctx, "e2".to_string(), "task_started".to_string());
    assert_eq!(get_current_parent_id(&ctx), Some("e2".to_string()));
    assert_eq!(get_enclosing_parent_id(&ctx), Some("e1".to_string()));
    assert_eq!(pop_event_scope(&mut ctx), Some(("e2".to_string(), "task_started".to_string())));
    assert_eq!(pop_event_scope(&mut ctx), Some(("e1".to_string(), "crew_kickoff_started".to_string())));
    assert_eq!(pop_event_scope(&mut ctx), None);
}

#[test]
fn test_last_event_and_sequence() {
    let mut ctx = EventContext::new();
    assert_eq!(get_last_event_id(&ctx), None);
    set_last_event_id(&mut ctx, "x".to_string());
    assert_eq!(get_last_event_id(&ctx), Some("x".to_string()));
    reset_last_event_id(&mut ctx);
    assert_eq!(get_last_event_id(&ctx), None);
    assert_eq!(get_next_emission_sequence(&mut ctx), 1);
    assert_eq!(get_next_emission_sequence(&mut ctx), 2);
    reset_emission_counter(&mut ctx);
    assert_eq!(get_next_emission_sequence(&mut ctx), 1);
}

#[test]
fn test_scope_guards_restore() {
    let mut ctx = EventContext::new();
    let g = EventScopeGuard::new(&mut ctx, "e1".to_string(), "flow_started".to_string());
    assert_eq!(get_current_parent_id(&ctx), Some("e1".to_string()));
    g.exit(&mut ctx);
    assert_eq!(get_current_parent_id(&ctx), None);

    let t = TriggeredByScopeGuard::new(&mut ctx, "cause".to_string());
    assert_eq!(get_triggering_event_id(&ctx), Some("cause".to_string()));
    t.exit(&mut ctx);
    assert_eq!(get_triggering_event_id(&ctx), None);
}

#[test]
fn test_scope_event_pairs() {
    assert!(is_scope_starting_event("task_started"));
    assert!(!is_scope_starting_event("task_completed"));
    assert_eq!(expected_start_event("task_completed"), Some("task_started"));
    assert_eq!(expected_start_event("task_started"), None);
}

#[test]
fn test_track_emission_chain() {
    let mut ctx = EventContext::new();
    let first = track_emission(&mut ctx, "e1", "task_started", None);
    assert_eq!(first.previous_event_id, None);
    assert_eq!(first.emission_sequence, 1);
    let second = track_emission(&mut ctx, "e2", "task_completed", None);
    assert_eq!(second.previous_event_id, Some("e1".to_string()));
    assert_eq!(second.parent_event_id, None);
    assert_eq!(second.emission_sequence, 2);
    assert_eq!(get_current_parent_id(&ctx), None);
}

#[test]
fn test_listener_and_event_types() {
    assert!(Listener::new(true).verbose);
    assert!(!Listener::default().verbose);
    assert_eq!(LLMCallType::ToolCall.as_str(), "tool_call");
    assert_eq!(LLMCallType::LlmCall.as_str(), "llm_call");
    assert_eq!(SignalType::SIGTERM.signal_number(), 15);
    assert_eq!(SignalType::SIGCONT.signal_number(), 18);
    assert_eq!(SignalType::from_number(2), Some(SignalType::SIGINT));
    assert_eq!(SignalType::from_number(9), None);
}

#[test]
fn test_event_handlers_dispatch() {
    let mut ids = HandlerIdSource::new();
    let a = h(&mut ids, "a");
    let b = h(&mut ids, "b");
    let mut handlers: EventHandlers<&str> = EventHandlers::new();
    handlers.on(a.clone(), "first", None);
    handlers.on(b.clone(), "second", None);
    assert!(handlers.contains(&a));
    assert!(!handlers.has_dependencies());
    match handlers.dispatch_plan().unwrap() {
        Dispatch::Concurrent(ids) => assert_eq!(ids, vec![a.clone(), b.clone()]),
        Dispatch::Levels(_) => panic!("expected concurrent dispatch"),
    }
    let c = h(&mut ids, "c");
    handlers.on(c.clone(), "third", Some(vec![Depends::new(a.clone())]));
    assert!(handlers.has_dependencies());
    match handlers.dispatch_plan().unwrap() {
        Dispatch::Levels(plan) => {
            assert_eq!(plan.len(), 2);
            assert_eq!(plan[1], vec![c.clone()]);
        }
        Dispatch::Concurrent(_) => panic!("expected levels"),
    }
    handlers.off(&a);
    assert!(!handlers.contains(&a));
    assert_eq!(handlers.handlers, vec!["second", "third"]);
    assert!(handlers.dispatch_plan().is_err());
}

#[test]
fn test_scope_problem_reports() {
    let mut ctx = EventContext::new();
    let r = handle_empty_pop(&ctx, "task_completed");
    assert_eq!(r.behavior, MismatchBehavior::Warn);
    assert_eq!(r.message, "Ending event 'task_completed' emitted with empty scope stack. Missing starting event?");
    let m = handle_mismatch(&ctx, "task_completed", "crew_kickoff_started", "task_started");
    assert_eq!(m.behavior, MismatchBehavior::Warn);
    assert_eq!(m.message, "Event pairing mismatch. 'task_completed' closed 'crew_kickoff_started' (expected 'task_started')");
    ctx.config = Some(EventContextConfig {
        max_stack_depth: 0,
        mismatch_behavior: MismatchBehavior::Raise,
        empty_pop_behavior: MismatchBehavior::Raise,
    });
    assert_eq!(empty_pop_report(&ctx, "x").behavior, MismatchBehavior::Raise);
    assert_eq!(mismatch_report(&ctx, "x", "y", "z").behavior, MismatchBehavior::Raise);
}

#[test]
fn test_nested_scope_guards_lifo() {
    let mut ctx = EventContext::new();
    push_event_scope(&mut ctx, "base".to_string(), "crew_kickoff_started".to_string());
    let g1 = EventScopeGuard::new(&mut ctx, "e1".to_string(), "task_started".to_string());
    let g2 = EventScopeGuard::new(&mut ctx, "e2".to_string(), "agent_execution_started".to_string());
    let g3 = EventScopeGuard::new(&mut ctx, "e1".to_string(), "task_started".to_string());
    assert!(!g3.owned);
    push_event_scope(&mut ctx, "inner".to_string(), "llm_call_started".to_string());
    pop_event_scope(&mut ctx);
    g3.exit(&mut ctx);
    g2.exit(&mut ctx);
    assert_eq!(get_current_parent_id(&ctx), Some("e1".to_string()));
    g1.exit(&mut ctx);
    assert_eq!(get_current_parent_id(&ctx), Some("base".to_string()));
    set_last_event_id(&mut ctx, "z".to_string());
    let t1 = TriggeredByScopeGuard::new(&mut ctx, "a".to_string());
    let t2 = TriggeredByScopeGuard::new(&mut ctx, "b".to_string());
    assert_eq!(get_triggering_event_id(&ctx), Some("b".to_string()));
    t2.exit(&mut ctx);
    assert_eq!(get_triggering_event_id(&ctx), Some("a".to_string()));
    t1.exit(&mut ctx);
    assert_eq!(get_triggering_event_id(&ctx), None);
}
