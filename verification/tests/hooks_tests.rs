use std::cell::Cell;

use crewai::hooks::lifecycle::{
    invoke_before_step, invoke_on_tool_request_answers, tool_action_step, HookError, StepAction, ToolAction,
};
use crewai::hooks::{
    after_hook_response, after_llm_call_hook_count, before_hook_allows, before_llm_call_hook_count,
    clear_after_llm_call_hooks, clear_all_global_hooks, clear_before_llm_call_hooks, register_after_llm_call_hook,
    register_after_tool_call_hook, register_before_llm_call_hook, register_before_tool_call_hook,
    run_after_llm_call_hooks, run_after_tool_call_hooks, run_before_llm_call_hooks, run_before_tool_call_hooks, GlobalHooks,
    LLMCallHookContext, ToolCallHookContext,
};

#[test]
fn test_hook_error() {
    let err = HookError::new("test error");
    assert_eq!(err.to_string(), "HookError: test error");

    let err: HookError = "from str".into();
    assert_eq!(err.message, "from str");

    let err: HookError = String::from("from string").into();
    assert_eq!(err.message, "from string");
}

#[test]
fn test_tool_action_deny() {
    let deny = vec![Ok(ToolAction::Deny("Blocked by test hook".to_string()))];
    assert!(matches!(invoke_on_tool_request_answers(deny), ToolAction::Deny(_)));

    let allow = vec![Ok(ToolAction::Allow)];
    assert!(matches!(invoke_on_tool_request_answers(allow), ToolAction::Allow));
}

#[test]
fn test_before_step_skip() {
    let action = invoke_before_step(1, |_| Ok(StepAction::Skip));
    assert!(matches!(action, StepAction::Skip));
}

#[test]
fn test_tool_action_precedence() {
    let answers = vec![
        Ok(ToolAction::Modify(serde_json::Value::Bool(true))),
        Err(HookError::new("ignored")),
        Ok(ToolAction::RequireApproval),
        Ok(ToolAction::Modify(serde_json::Value::Null)),
        Ok(ToolAction::Allow),
    ];
    assert!(matches!(invoke_on_tool_request_answers(answers), ToolAction::RequireApproval));

    let answers = vec![Ok(ToolAction::Allow), Ok(ToolAction::Modify(serde_json::Value::Bool(true)))];
    assert!(matches!(invoke_on_tool_request_answers(answers), ToolAction::Modify(serde_json::Value::Bool(true))));

    let answers = vec![Ok(ToolAction::RequireApproval), Ok(ToolAction::Deny("no".to_string())), Ok(ToolAction::Allow)];
    match invoke_on_tool_request_answers(answers) {
        ToolAction::Deny(reason) => assert_eq!(reason, "no"),
        other => panic!("expected a denial, got {:?}", other),
    }
    assert!(matches!(invoke_on_tool_request_answers(Vec::new()), ToolAction::Allow));
}

#[test]
fn test_tool_action_step_stops_on_deny() {
    let (action, stop) = tool_action_step(ToolAction::Allow, Ok(ToolAction::Deny("x".to_string())));
    assert!(stop);
    assert!(matches!(action, ToolAction::Deny(_)));
    let (action, stop) = tool_action_step(ToolAction::RequireApproval, Ok(ToolAction::Modify(serde_json::Value::Null)));
    assert!(!stop);
    assert!(matches!(action, ToolAction::RequireApproval));
}

#[test]
fn test_step_action_decisions() {
    let asked = Cell::new(0usize);
    let r = invoke_before_step(3, |i| {
        asked.set(asked.get() + 1);
        match i {
            0 => Ok(StepAction::ReplaceInput(serde_json::Value::Bool(true))),
            1 => Ok(StepAction::Skip),
            _ => Ok(StepAction::ReplaceInput(serde_json::Value::Null)),
        }
    });
    // A later skip wins over an earlier replacement.
    assert!(matches!(r, StepAction::Skip));
    assert_eq!(asked.get(), 2);
    let r = invoke_before_step(3, |i| match i {
        0 => Ok(StepAction::Continue),
        1 => Ok(StepAction::ReplaceInput(serde_json::Value::Bool(true))),
        _ => Ok(StepAction::ReplaceInput(serde_json::Value::Null)),
    });
    // Without a skip, the first replacement wins.
    assert!(matches!(r, StepAction::ReplaceInput(serde_json::Value::Bool(true))));
    let r = invoke_before_step(2, |_| Err(HookError::new("e")));
    assert!(matches!(r, StepAction::Continue));
}

#[test]
fn test_global_hook_registration_and_clear() {
    let mut hooks: GlobalHooks<u8, u16, u32, u64> = GlobalHooks::new();
    register_before_llm_call_hook(&mut hooks, 1);
    register_before_llm_call_hook(&mut hooks, 2);
    register_after_llm_call_hook(&mut hooks, 3);
    register_before_tool_call_hook(&mut hooks, 4);
    register_after_tool_call_hook(&mut hooks, 5);
    assert_eq!(before_llm_call_hook_count(&hooks), 2);
    assert_eq!(after_llm_call_hook_count(&hooks), 1);
    assert_eq!(hooks.before_llm, vec![1, 2]);
    assert_eq!(clear_before_llm_call_hooks(&mut hooks), 2);
    assert_eq!(before_llm_call_hook_count(&hooks), 0);
    assert_eq!(clear_all_global_hooks(&mut hooks), (0, 1, 1, 1));
    assert_eq!(clear_after_llm_call_hooks(&mut hooks), 0);
}

#[test]
fn test_hook_outcome_rules() {
    assert!(before_hook_allows(None));
    assert!(before_hook_allows(Some(true)));
    assert!(!before_hook_allows(Some(false)));
    assert_eq!(after_hook_response(Some("a".to_string()), None), Some("a".to_string()));
    assert_eq!(after_hook_response(Some("a".to_string()), Some("b".to_string())), Some("b".to_string()));
}

#[test]
fn test_hook_contexts() {
    let ctx = LLMCallHookContext::new();
    assert!(ctx.messages.is_empty());
    assert_eq!(ctx.iterations, 0);
    assert!(ctx.response.is_none());
    let tool = ToolCallHookContext::new("search".to_string());
    assert_eq!(tool.tool_name, "search");
    assert!(tool.tool_input.is_empty());
    assert!(tool.tool_result.is_none());
}

type BeforeLlm = Box<dyn Fn(LLMCallHookContext) -> (LLMCallHookContext, Option<bool>)>;
type AfterLlm = Box<dyn Fn(LLMCallHookContext) -> (LLMCallHookContext, Option<String>)>;
type BeforeTool = Box<dyn Fn(ToolCallHookContext) -> (ToolCallHookContext, Option<bool>)>;
type AfterTool = Box<dyn Fn(ToolCallHookContext) -> (ToolCallHookContext, Option<String>)>;

#[test]
fn test_run_before_llm_call_hooks_stops_at_block() {
    let mut hooks: GlobalHooks<BeforeLlm, AfterLlm, BeforeTool, AfterTool> = GlobalHooks::new();
    let mut ctx = LLMCallHookContext::new();
    assert!(run_before_llm_call_hooks(&hooks, &mut ctx));
    register_before_llm_call_hook(&mut hooks, Box::new(|mut c: LLMCallHookContext| {
        c.iterations += 1;
        (c, None)
    }));
    register_before_llm_call_hook(&mut hooks, Box::new(|mut c: LLMCallHookContext| {
        c.iterations += 10;
        (c, Some(true))
    }));
    assert!(run_before_llm_call_hooks(&hooks, &mut ctx));
    assert_eq!(ctx.iterations, 11);
    register_before_llm_call_hook(&mut hooks, Box::new(|c: LLMCallHookContext| (c, Some(false))));
    register_before_llm_call_hook(&mut hooks, Box::new(|mut c: LLMCallHookContext| {
        c.iterations += 100;
        (c, None)
    }));
    assert!(!run_before_llm_call_hooks(&hooks, &mut ctx));
    // The hook after the block does not run.
    assert_eq!(ctx.iterations, 22);
}

#[test]
fn test_run_after_hooks_replace_in_order() {
    let mut hooks: GlobalHooks<BeforeLlm, AfterLlm, BeforeTool, AfterTool> = GlobalHooks::new();
    register_after_llm_call_hook(&mut hooks, Box::new(|c: LLMCallHookContext| (c, Some("first".to_string()))));
    register_after_llm_call_hook(&mut hooks, Box::new(|c: LLMCallHookContext| (c, None)));
    let mut ctx = LLMCallHookContext::new();
    ctx.response = Some("original".to_string());
    run_after_llm_call_hooks(&hooks, &mut ctx);
    assert_eq!(ctx.response.as_deref(), Some("first"));

    register_after_tool_call_hook(&mut hooks, Box::new(|c: ToolCallHookContext| {
        let r = c.tool_result.as_ref().map(|r| format!("{r}!"));
        (c, r)
    }));
    let mut tctx = ToolCallHookContext::new("search".to_string());
    run_after_tool_call_hooks(&hooks, &mut tctx);
    assert_eq!(tctx.tool_result, None);
    tctx.tool_result = Some("done".to_string());
    run_after_tool_call_hooks(&hooks, &mut tctx);
    assert_eq!(tctx.tool_result.as_deref(), Some("done!"));

    register_before_tool_call_hook(&mut hooks, Box::new(|c: ToolCallHookContext| (c, Some(false))));
    assert!(!run_before_tool_call_hooks(&hooks, &mut tctx));
}

#[test]
fn test_run_after_hooks_keep_last_replacement() {
    let mut hooks: GlobalHooks<BeforeLlm, AfterLlm, BeforeTool, AfterTool> = GlobalHooks::new();
    register_after_llm_call_hook(&mut hooks, Box::new(|c: LLMCallHookContext| (c, None)));
    let mut ctx = LLMCallHookContext::new();
    ctx.response = Some("r0".to_string());
    run_after_llm_call_hooks(&hooks, &mut ctx);
    assert_eq!(ctx.response.as_deref(), Some("r0"));
    register_after_llm_call_hook(&mut hooks, Box::new(|c: LLMCallHookContext| (c, Some("x".to_string()))));
    register_after_llm_call_hook(&mut hooks, Box::new(|c: LLMCallHookContext| (c, Some("y".to_string()))));
    register_after_llm_call_hook(&mut hooks, Box::new(|c: LLMCallHookContext| (c, None)));
    run_after_llm_call_hooks(&hooks, &mut ctx);
    assert_eq!(ctx.response.as_deref(), Some("y"));
}

#[test]
fn test_invoke_before_step_first_decision() {
    let asked = Cell::new(0usize);
    let answers = [Ok(StepAction::Continue), Err(HookError::new("x")), Ok(StepAction::Skip), Ok(StepAction::ReplaceInput(serde_json::Value::Null))];
    let r = invoke_before_step(answers.len(), |i| {
        asked.set(asked.get() + 1);
        match &answers[i] {
            Ok(StepAction::Continue) => Ok(StepAction::Continue),
            Ok(StepAction::Skip) => Ok(StepAction::Skip),
            Ok(StepAction::ReplaceInput(v)) => Ok(StepAction::ReplaceInput(v.clone())),
            Err(e) => Err(e.clone()),
        }
    });
    assert!(matches!(r, StepAction::Skip));
    assert_eq!(asked.get(), 3);
    let r = invoke_before_step(2, |_| Ok(StepAction::Continue));
    assert!(matches!(r, StepAction::Continue));
    let r = invoke_before_step(0, |_| Ok(StepAction::Skip));
    assert!(matches!(r, StepAction::Continue));
}
