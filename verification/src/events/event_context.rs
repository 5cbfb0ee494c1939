//! Event context: the scope stack that assigns parent events, the linear
//! chain of emitted events, the causal trigger, and the emission counter.
//!
//! The state is an explicit [`EventContext`] value that its callers own,
//! one per thread.

use vstd::prelude::*;
use vstd::string::*;

use crate::text::str_eq;

verus! {

// ---------------------------------------------------------------------------
// Configuration
// ---------------------------------------------------------------------------

/// Behaviour when event start/end pairs do not match.
#[derive(Clone, Copy, Debug, PartialEq, Eq, Structural)]
pub enum MismatchBehavior {
    /// Log a warning.
    Warn,
    /// Raise (panic) on mismatch.
    Raise,
    /// Silently ignore the mismatch.
    Silent,
}

/// Configuration for event context behaviour.
#[derive(Clone, Copy, Debug)]
pub struct EventContextConfig {
    /// Maximum allowed scope-stack depth. 0 means unlimited.
    pub max_stack_depth: usize,
    /// Behaviour on mismatched event pairs.
    pub mismatch_behavior: MismatchBehavior,
    /// Behaviour when popping from an empty stack.
    pub empty_pop_behavior: MismatchBehavior,
}

/// The default configuration: depth 100, warn on mismatch and on empty pop.
pub open spec fn default_config() -> EventContextConfig {
    EventContextConfig {
        max_stack_depth: 100,
        mismatch_behavior: MismatchBehavior::Warn,
        empty_pop_behavior: MismatchBehavior::Warn,
    }
}

impl Default for EventContextConfig {
    fn default() -> (c: Self)
        ensures
            c == default_config(),
    {
        EventContextConfig {
            max_stack_depth: 100,
            mismatch_behavior: MismatchBehavior::Warn,
            empty_pop_behavior: MismatchBehavior::Warn,
        }
    }
}

// ---------------------------------------------------------------------------
// Errors
// ---------------------------------------------------------------------------

/// Raised when stack depth limit is exceeded.
#[derive(Debug)]
pub struct StackDepthExceededError {
    /// The configured limit that was exceeded.
    pub limit: usize,
}

/// Raised when event start/end pairs do not match.
#[derive(Debug)]
pub struct EventPairingError {
    /// Human-readable description of the mismatch.
    pub message: String,
}

/// Raised when popping from an empty stack.
#[derive(Debug)]
pub struct EmptyStackError {
    /// Human-readable description.
    pub message: String,
}

impl StackDepthExceededError {
    /// The error message.
    pub fn message(&self) -> (m: String)
        ensures
            m@ == "Event stack depth limit ("@ + crate::text::decimal_spec(self.limit as nat)
                + ") exceeded. This usually indicates missing ending events."@,
    {
        let mut m = String::from_str("Event stack depth limit (");
        crate::text::push_decimal_usize(&mut m, self.limit);
        m.append(") exceeded. This usually indicates missing ending events.");
        m
    }
}

impl EventPairingError {
    /// The error message.
    pub fn to_message(&self) -> (m: String)
        ensures
            m@ == "Event pairing mismatch: "@ + self.message@,
    {
        let mut m = String::from_str("Event pairing mismatch: ");
        m.append(self.message.as_str());
        m
    }
}

impl EmptyStackError {
    /// The error message.
    pub fn to_message(&self) -> (m: String)
        ensures
            m@ == "Empty scope stack: "@ + self.message@,
    {
        let mut m = String::from_str("Empty scope stack: ");
        m.append(self.message.as_str());
        m
    }
}

// ---------------------------------------------------------------------------
// State
// ---------------------------------------------------------------------------

/// The per-thread event context.
#[derive(Debug)]
pub struct EventContext {
    /// Stack of `(event_id, event_type)` for hierarchical scope tracking.
    pub stack: Vec<(String, String)>,
    /// Configuration override (the default applies when `None`).
    pub config: Option<EventContextConfig>,
    /// The event_id of the most recently emitted event (linear chain).
    pub last_event_id: Option<String>,
    /// The event_id that causally triggered the current execution context.
    pub triggering_event_id: Option<String>,
    /// The next emission sequence number.
    pub emission_counter: u64,
}

impl EventContext {
    /// A fresh context: empty stack, default configuration, no chain, and an
    /// emission counter at 1.
    pub fn new() -> (ctx: EventContext)
        ensures
            ctx.stack@.len() == 0,
            ctx.config is None,
            ctx.last_event_id is None,
            ctx.triggering_event_id is None,
            ctx.emission_counter == 1,
    {
        EventContext {
            stack: Vec::new(),
            config: None,
            last_event_id: None,
            triggering_event_id: None,
            emission_counter: 1,
        }
    }
}

/// The configuration in effect.
pub open spec fn effective_config(ctx: &EventContext) -> EventContextConfig {
    match ctx.config {
        Some(c) => c,
        None => default_config(),
    }
}

/// The configuration in effect: the override, or the default.
pub fn with_config(ctx: &EventContext) -> (c: EventContextConfig)
    ensures
        c == effective_config(ctx),
{
    match ctx.config {
        Some(c) => c,
        None => EventContextConfig::default(),
    }
}

/// A copy of an optional string.
fn copy_opt(o: &Option<String>) -> (r: Option<String>)
    ensures
        r == *o,
{
    match o {
        Some(s) => Some(s.clone()),
        None => None,
    }
}

// ---------------------------------------------------------------------------
// Scope stack
// ---------------------------------------------------------------------------

/// The id on top of the stack.
pub open spec fn current_parent_spec(stack: Seq<(String, String)>) -> Option<String> {
    if stack.len() > 0 {
        Some(stack.last().0)
    } else {
        None
    }
}

/// The id just below the top of the stack.
pub open spec fn enclosing_parent_spec(stack: Seq<(String, String)>) -> Option<String> {
    if stack.len() >= 2 {
        Some(stack[stack.len() - 2].0)
    } else {
        None
    }
}

/// Get the current parent event ID from the top of the stack.
pub fn get_current_parent_id(ctx: &EventContext) -> (r: Option<String>)
    ensures
        r == current_parent_spec(ctx.stack@),
{
    let n = ctx.stack.len();
    if n > 0 {
        Some(ctx.stack[n - 1].0.clone())
    } else {
        None
    }
}

/// Get the parent of the current scope (the entry below the top).
pub fn get_enclosing_parent_id(ctx: &EventContext) -> (r: Option<String>)
    ensures
        r == enclosing_parent_spec(ctx.stack@),
{
    let n = ctx.stack.len();
    if n >= 2 {
        Some(ctx.stack[n - 2].0.clone())
    } else {
        None
    }
}

/// Whether pushing one more scope stays within the configured depth.
pub open spec fn can_push(ctx: &EventContext) -> bool {
    let limit = effective_config(ctx).max_stack_depth;
    limit == 0 || ctx.stack@.len() < limit
}

/// Push an event ID and type onto the scope stack (the depth limit must
/// not be reached; the caller reports `StackDepthExceededError` otherwise).
pub fn push_event_scope(ctx: &mut EventContext, event_id: String, event_type: String)
    requires
        can_push(old(ctx)),
    ensures
        final(ctx).stack@ == old(ctx).stack@.push((event_id, event_type)),
        final(ctx).config == old(ctx).config,
        final(ctx).last_event_id == old(ctx).last_event_id,
        final(ctx).triggering_event_id == old(ctx).triggering_event_id,
        final(ctx).emission_counter == old(ctx).emission_counter,
{
    ctx.stack.push((event_id, event_type));
}

/// Pop an event entry from the scope stack (`None` when empty).
pub fn pop_event_scope(ctx: &mut EventContext) -> (r: Option<(String, String)>)
    ensures
        old(ctx).stack@.len() == 0 ==> r is None && final(ctx).stack@ == old(ctx).stack@,
        old(ctx).stack@.len() > 0 ==> r == Some(old(ctx).stack@.last()) && final(ctx).stack@
            == old(ctx).stack@.drop_last(),
        final(ctx).config == old(ctx).config,
        final(ctx).last_event_id == old(ctx).last_event_id,
        final(ctx).triggering_event_id == old(ctx).triggering_event_id,
        final(ctx).emission_counter == old(ctx).emission_counter,
{
    ctx.stack.pop()
}

/// What the bus should do about a scope problem: warn, raise or stay silent,
/// with the message to show.
#[derive(Debug)]
pub struct ScopeReport {
    /// The configured behaviour.
    pub behavior: MismatchBehavior,
    /// The message (without the bus prefix).
    pub message: String,
}

/// The message for an ending event met with an empty stack.
pub open spec fn empty_pop_message(event_type: Seq<char>) -> Seq<char> {
    "Ending event '"@ + event_type + "' emitted with empty scope stack. Missing starting event?"@
}

/// The message for a mismatched pair.
pub open spec fn mismatch_message(event_type: Seq<char>, popped: Seq<char>, expected: Seq<char>) -> Seq<char> {
    "Event pairing mismatch. '"@ + event_type + "' closed '"@ + popped + "' (expected '"@ + expected + "')"@
}

/// The report for a pop attempt on an empty stack: the configured
/// behaviour (with `Raise`, the runtime panics with the message) and the
/// message.
pub fn empty_pop_report(ctx: &EventContext, event_type_name: &str) -> (r: ScopeReport)
    ensures
        r.behavior == effective_config(ctx).empty_pop_behavior,
        r.message@ == empty_pop_message(event_type_name@),
{
    let mut msg = String::from_str("Ending event '");
    msg.append(event_type_name);
    msg.append("' emitted with empty scope stack. Missing starting event?");
    ScopeReport { behavior: with_config(ctx).empty_pop_behavior, message: msg }
}

/// Handle a pop attempt on an empty stack when the configured behaviour
/// does not raise: the behaviour (warn or stay silent) and the message.
/// With `Raise` configured the pop attempt is an error the caller raises
/// (see `empty_pop_report`).
pub fn handle_empty_pop(ctx: &EventContext, event_type_name: &str) -> (r: ScopeReport)
    requires
        effective_config(ctx).empty_pop_behavior != MismatchBehavior::Raise,
    ensures
        r.behavior == effective_config(ctx).empty_pop_behavior,
        r.behavior != MismatchBehavior::Raise,
        r.message@ == empty_pop_message(event_type_name@),
{
    empty_pop_report(ctx, event_type_name)
}

/// The report for a mismatched event pair: the configured behaviour (with
/// `Raise`, the runtime panics with the message) and the message.
pub fn mismatch_report(ctx: &EventContext, event_type_name: &str, popped_type: &str, expected_start: &str) -> (r: ScopeReport)
    ensures
        r.behavior == effective_config(ctx).mismatch_behavior,
        r.message@ == mismatch_message(event_type_name@, popped_type@, expected_start@),
{
    let mut msg = String::from_str("Event pairing mismatch. '");
    msg.append(event_type_name);
    msg.append("' closed '");
    msg.append(popped_type);
    msg.append("' (expected '");
    msg.append(expected_start);
    msg.append("')");
    ScopeReport { behavior: with_config(ctx).mismatch_behavior, message: msg }
}

/// Handle a mismatched event pair when the configured behaviour does not
/// raise: the behaviour (warn or stay silent) and the message. With
/// `Raise` configured the mismatch is an error the caller raises (see
/// `mismatch_report`).
pub fn handle_mismatch(ctx: &EventContext, event_type_name: &str, popped_type: &str, expected_start: &str) -> (r: ScopeReport)
    requires
        effective_config(ctx).mismatch_behavior != MismatchBehavior::Raise,
    ensures
        r.behavior == effective_config(ctx).mismatch_behavior,
        r.behavior != MismatchBehavior::Raise,
        r.message@ == mismatch_message(event_type_name@, popped_type@, expected_start@),
{
    mismatch_report(ctx, event_type_name, popped_type, expected_start)
}

// ---------------------------------------------------------------------------
// Linear chain tracking
// ---------------------------------------------------------------------------

/// Get the ID of the last emitted event.
pub fn get_last_event_id(ctx: &EventContext) -> (r: Option<String>)
    ensures
        r == ctx.last_event_id,
{
    copy_opt(&ctx.last_event_id)
}

/// Reset the last event ID to `None`.
pub fn reset_last_event_id(ctx: &mut EventContext)
    ensures
        final(ctx).last_event_id is None,
        final(ctx).stack == old(ctx).stack,
        final(ctx).config == old(ctx).config,
        final(ctx).triggering_event_id == old(ctx).triggering_event_id,
        final(ctx).emission_counter == old(ctx).emission_counter,
{
    ctx.last_event_id = None;
}

/// Set the ID of the last emitted event.
pub fn set_last_event_id(ctx: &mut EventContext, event_id: String)
    ensures
        final(ctx).last_event_id == Some(event_id),
        final(ctx).stack == old(ctx).stack,
        final(ctx).config == old(ctx).config,
        final(ctx).triggering_event_id == old(ctx).triggering_event_id,
        final(ctx).emission_counter == old(ctx).emission_counter,
{
    ctx.last_event_id = Some(event_id);
}

/// Get the ID of the event that triggered the current execution.
pub fn get_triggering_event_id(ctx: &EventContext) -> (r: Option<String>)
    ensures
        r == ctx.triggering_event_id,
{
    copy_opt(&ctx.triggering_event_id)
}

/// Set the triggering event ID for causal chain tracking.
pub fn set_triggering_event_id(ctx: &mut EventContext, event_id: Option<String>)
    ensures
        final(ctx).triggering_event_id == event_id,
        final(ctx).stack == old(ctx).stack,
        final(ctx).config == old(ctx).config,
        final(ctx).last_event_id == old(ctx).last_event_id,
        final(ctx).emission_counter == old(ctx).emission_counter,
{
    ctx.triggering_event_id = event_id;
}

// ---------------------------------------------------------------------------
// Emission counter
// ---------------------------------------------------------------------------

/// Get the next emission sequence number: the counter's value, which then
/// advances by one (wrapping at `u64::MAX`).
pub fn get_next_emission_sequence(ctx: &mut EventContext) -> (seq: u64)
    ensures
        seq == old(ctx).emission_counter,
        final(ctx).emission_counter == (if old(ctx).emission_counter == u64::MAX {
            0
        } else {
            (old(ctx).emission_counter + 1) as u64
        }),
        final(ctx).stack == old(ctx).stack,
        final(ctx).config == old(ctx).config,
        final(ctx).last_event_id == old(ctx).last_event_id,
        final(ctx).triggering_event_id == old(ctx).triggering_event_id,
{
    let seq = ctx.emission_counter;
    ctx.emission_counter = if seq == u64::MAX { 0 } else { seq + 1 };
    seq
}

/// Reset the emission sequence counter to 1.
pub fn reset_emission_counter(ctx: &mut EventContext)
    ensures
        final(ctx).emission_counter == 1,
        final(ctx).stack == old(ctx).stack,
        final(ctx).config == old(ctx).config,
        final(ctx).last_event_id == old(ctx).last_event_id,
        final(ctx).triggering_event_id == old(ctx).triggering_event_id,
{
    ctx.emission_counter = 1;
}

// ---------------------------------------------------------------------------
// Scope-starting / scope-ending event types
// ---------------------------------------------------------------------------

/// Event types that open a scope.
pub open spec fn is_scope_starting_spec(t: Seq<char>) -> bool {
    ||| t == "flow_started"@
    ||| t == "method_execution_started"@
    ||| t == "crew_kickoff_started"@
    ||| t == "crew_train_started"@
    ||| t == "crew_test_started"@
    ||| t == "agent_execution_started"@
    ||| t == "agent_evaluation_started"@
    ||| t == "lite_agent_execution_started"@
    ||| t == "task_started"@
    ||| t == "llm_call_started"@
    ||| t == "llm_guardrail_started"@
    ||| t == "tool_usage_started"@
    ||| t == "mcp_connection_started"@
    ||| t == "mcp_tool_execution_started"@
    ||| t == "memory_retrieval_started"@
    ||| t == "memory_save_started"@
    ||| t == "memory_query_started"@
    ||| t == "knowledge_query_started"@
    ||| t == "knowledge_search_query_started"@
    ||| t == "a2a_delegation_started"@
    ||| t == "a2a_conversation_started"@
    ||| t == "a2a_server_task_started"@
    ||| t == "a2a_parallel_delegation_started"@
    ||| t == "agent_reasoning_started"@
}

/// Whether `event_type` opens a scope.
pub fn is_scope_starting_event(event_type: &str) -> (r: bool)
    ensures
        r == is_scope_starting_spec(event_type@),
{
    str_eq(event_type, "flow_started")
        || str_eq(event_type, "method_execution_started")
        || str_eq(event_type, "crew_kickoff_started")
        || str_eq(event_type, "crew_train_started")
        || str_eq(event_type, "crew_test_started")
        || str_eq(event_type, "agent_execution_started")
        || str_eq(event_type, "agent_evaluation_started")
        || str_eq(event_type, "lite_agent_execution_started")
        || str_eq(event_type, "task_started")
        || str_eq(event_type, "llm_call_started")
        || str_eq(event_type, "llm_guardrail_started")
        || str_eq(event_type, "tool_usage_started")
        || str_eq(event_type, "mcp_connection_started")
        || str_eq(event_type, "mcp_tool_execution_started")
        || str_eq(event_type, "memory_retrieval_started")
        || str_eq(event_type, "memory_save_started")
        || str_eq(event_type, "memory_query_started")
        || str_eq(event_type, "knowledge_query_started")
        || str_eq(event_type, "knowledge_search_query_started")
        || str_eq(event_type, "a2a_delegation_started")
        || str_eq(event_type, "a2a_conversation_started")
        || str_eq(event_type, "a2a_server_task_started")
        || str_eq(event_type, "a2a_parallel_delegation_started")
        || str_eq(event_type, "agent_reasoning_started")
}

/// The starting event type that an ending event type closes.
pub open spec fn expected_start_spec(t: Seq<char>) -> Option<Seq<char>> {
    if t == "flow_finished"@ {
        Some("flow_started"@)
    } else if t == "flow_paused"@ {
        Some("flow_started"@)
    } else if t == "method_execution_finished"@ {
        Some("method_execution_started"@)
    } else if t == "method_execution_failed"@ {
        Some("method_execution_started"@)
    } else if t == "method_execution_paused"@ {
        Some("method_execution_started"@)
    } else if t == "crew_kickoff_completed"@ {
        Some("crew_kickoff_started"@)
    } else if t == "crew_kickoff_failed"@ {
        Some("crew_kickoff_started"@)
    } else if t == "crew_train_completed"@ {
        Some("crew_train_started"@)
    } else if t == "crew_train_failed"@ {
        Some("crew_train_started"@)
    } else if t == "crew_test_completed"@ {
        Some("crew_test_started"@)
    } else if t == "crew_test_failed"@ {
        Some("crew_test_started"@)
    } else if t == "agent_execution_completed"@ {
        Some("agent_execution_started"@)
    } else if t == "agent_execution_error"@ {
        Some("agent_execution_started"@)
    } else if t == "agent_evaluation_completed"@ {
        Some("agent_evaluation_started"@)
    } else if t == "agent_evaluation_failed"@ {
        Some("agent_evaluation_started"@)
    } else if t == "lite_agent_execution_completed"@ {
        Some("lite_agent_execution_started"@)
    } else if t == "lite_agent_execution_error"@ {
        Some("lite_agent_execution_started"@)
    } else if t == "task_completed"@ {
        Some("task_started"@)
    } else if t == "task_failed"@ {
        Some("task_started"@)
    } else if t == "llm_call_completed"@ {
        Some("llm_call_started"@)
    } else if t == "llm_call_failed"@ {
        Some("llm_call_started"@)
    } else if t == "llm_guardrail_completed"@ {
        Some("llm_guardrail_started"@)
    } else if t == "llm_guardrail_failed"@ {
        Some("llm_guardrail_started"@)
    } else if t == "tool_usage_finished"@ {
        Some("tool_usage_started"@)
    } else if t == "tool_usage_error"@ {
        Some("tool_usage_started"@)
    } else if t == "mcp_connection_completed"@ {
        Some("mcp_connection_started"@)
    } else if t == "mcp_connection_failed"@ {
        Some("mcp_connection_started"@)
    } else if t == "mcp_tool_execution_completed"@ {
        Some("mcp_tool_execution_started"@)
    } else if t == "mcp_tool_execution_failed"@ {
        Some("mcp_tool_execution_started"@)
    } else if t == "memory_retrieval_completed"@ {
        Some("memory_retrieval_started"@)
    } else if t == "memory_retrieval_failed"@ {
        Some("memory_retrieval_started"@)
    } else if t == "memory_save_completed"@ {
        Some("memory_save_started"@)
    } else if t == "memory_save_failed"@ {
        Some("memory_save_started"@)
    } else if t == "memory_query_completed"@ {
        Some("memory_query_started"@)
    } else if t == "memory_query_failed"@ {
        Some("memory_query_started"@)
    } else if t == "knowledge_query_completed"@ {
        Some("knowledge_query_started"@)
    } else if t == "knowledge_query_failed"@ {
        Some("knowledge_query_started"@)
    } else if t == "knowledge_search_query_completed"@ {
        Some("knowledge_search_query_started"@)
    } else if t == "knowledge_search_query_failed"@ {
        Some("knowledge_search_query_started"@)
    } else if t == "a2a_delegation_completed"@ {
        Some("a2a_delegation_started"@)
    } else if t == "a2a_conversation_completed"@ {
        Some("a2a_conversation_started"@)
    } else if t == "a2a_server_task_completed"@ {
        Some("a2a_server_task_started"@)
    } else if t == "a2a_server_task_canceled"@ {
        Some("a2a_server_task_started"@)
    } else if t == "a2a_server_task_failed"@ {
        Some("a2a_server_task_started"@)
    } else if t == "a2a_parallel_delegation_completed"@ {
        Some("a2a_parallel_delegation_started"@)
    } else if t == "agent_reasoning_completed"@ {
        Some("agent_reasoning_started"@)
    } else if t == "agent_reasoning_failed"@ {
        Some("agent_reasoning_started"@)
    } else {
        None
    }
}

/// The starting event type that `event_type` closes, if it ends a scope.
pub fn expected_start_event(event_type: &str) -> (r: Option<&'static str>)
    ensures
        match r {
            Some(s) => expected_start_spec(event_type@) == Some(s@),
            None => expected_start_spec(event_type@) is None,
        },
{
    if str_eq(event_type, "flow_finished") {
        Some("flow_started")
    } else if str_eq(event_type, "flow_paused") {
        Some("flow_started")
    } else if str_eq(event_type, "method_execution_finished") {
        Some("method_execution_started")
    } else if str_eq(event_type, "method_execution_failed") {
        Some("method_execution_started")
    } else if str_eq(event_type, "method_execution_paused") {
        Some("method_execution_started")
    } else if str_eq(event_type, "crew_kickoff_completed") {
        Some("crew_kickoff_started")
    } else if str_eq(event_type, "crew_kickoff_failed") {
        Some("crew_kickoff_started")
    } else if str_eq(event_type, "crew_train_completed") {
        Some("crew_train_started")
    } else if str_eq(event_type, "crew_train_failed") {
        Some("crew_train_started")
    } else if str_eq(event_type, "crew_test_completed") {
        Some("crew_test_started")
    } else if str_eq(event_type, "crew_test_failed") {
        Some("crew_test_started")
    } else if str_eq(event_type, "agent_execution_completed") {
        Some("agent_execution_started")
    } else if str_eq(event_type, "agent_execution_error") {
        Some("agent_execution_started")
    } else if str_eq(event_type, "agent_evaluation_completed") {
        Some("agent_evaluation_started")
    } else if str_eq(event_type, "agent_evaluation_failed") {
        Some("agent_evaluation_started")
    } else if str_eq(event_type, "lite_agent_execution_completed") {
        Some("lite_agent_execution_started")
    } else if str_eq(event_type, "lite_agent_execution_error") {
        Some("lite_agent_execution_started")
    } else if str_eq(event_type, "task_completed") {
        Some("task_started")
    } else if str_eq(event_type, "task_failed") {
        Some("task_started")
    } else if str_eq(event_type, "llm_call_completed") {
        Some("llm_call_started")
    } else if str_eq(event_type, "llm_call_failed") {
        Some("llm_call_started")
    } else if str_eq(event_type, "llm_guardrail_completed") {
        Some("llm_guardrail_started")
    } else if str_eq(event_type, "llm_guardrail_failed") {
        Some("llm_guardrail_started")
    } else if str_eq(event_type, "tool_usage_finished") {
        Some("tool_usage_started")
    } else if str_eq(event_type, "tool_usage_error") {
        Some("tool_usage_started")
    } else if str_eq(event_type, "mcp_connection_completed") {
        Some("mcp_connection_started")
    } else if str_eq(event_type, "mcp_connection_failed") {
        Some("mcp_connection_started")
    } else if str_eq(event_type, "mcp_tool_execution_completed") {
        Some("mcp_tool_execution_started")
    } else if str_eq(event_type, "mcp_tool_execution_failed") {
        Some("mcp_tool_execution_started")
    } else if str_eq(event_type, "memory_retrieval_completed") {
        Some("memory_retrieval_started")
    } else if str_eq(event_type, "memory_retrieval_failed") {
        Some("memory_retrieval_started")
    } else if str_eq(event_type, "memory_save_completed") {
        Some("memory_save_started")
    } else if str_eq(event_type, "memory_save_failed") {
        Some("memory_save_started")
    } else if str_eq(event_type, "memory_query_completed") {
        Some("memory_query_started")
    } else if str_eq(event_type, "memory_query_failed") {
        Some("memory_query_started")
    } else if str_eq(event_type, "knowledge_query_completed") {
        Some("knowledge_query_started")
    } else if str_eq(event_type, "knowledge_query_failed") {
        Some("knowledge_query_started")
    } else if str_eq(event_type, "knowledge_search_query_completed") {
        Some("knowledge_search_query_started")
    } else if str_eq(event_type, "knowledge_search_query_failed") {
        Some("knowledge_search_query_started")
    } else if str_eq(event_type, "a2a_delegation_completed") {
        Some("a2a_delegation_started")
    } else if str_eq(event_type, "a2a_conversation_completed") {
        Some("a2a_conversation_started")
    } else if str_eq(event_type, "a2a_server_task_completed") {
        Some("a2a_server_task_started")
    } else if str_eq(event_type, "a2a_server_task_canceled") {
        Some("a2a_server_task_started")
    } else if str_eq(event_type, "a2a_server_task_failed") {
        Some("a2a_server_task_started")
    } else if str_eq(event_type, "a2a_parallel_delegation_completed") {
        Some("a2a_parallel_delegation_started")
    } else if str_eq(event_type, "agent_reasoning_completed") {
        Some("agent_reasoning_started")
    } else if str_eq(event_type, "agent_reasoning_failed") {
        Some("agent_reasoning_started")
    } else {
        None
    }
}

/// The event types that open a scope, in registry order.
pub open spec fn scope_starting_list() -> Seq<Seq<char>> {
    seq![
        "flow_started"@,
        "method_execution_started"@,
        "crew_kickoff_started"@,
        "crew_train_started"@,
        "crew_test_started"@,
        "agent_execution_started"@,
        "agent_evaluation_started"@,
        "lite_agent_execution_started"@,
        "task_started"@,
        "llm_call_started"@,
        "llm_guardrail_started"@,
        "tool_usage_started"@,
        "mcp_connection_started"@,
        "mcp_tool_execution_started"@,
        "memory_retrieval_started"@,
        "memory_save_started"@,
        "memory_query_started"@,
        "knowledge_query_started"@,
        "knowledge_search_query_started"@,
        "a2a_delegation_started"@,
        "a2a_conversation_started"@,
        "a2a_server_task_started"@,
        "a2a_parallel_delegation_started"@,
        "agent_reasoning_started"@,
    ]
}

/// The event types that close a scope, in registry order.
pub open spec fn scope_ending_list() -> Seq<Seq<char>> {
    seq![
        "flow_finished"@,
        "flow_paused"@,
        "method_execution_finished"@,
        "method_execution_failed"@,
        "method_execution_paused"@,
        "crew_kickoff_completed"@,
        "crew_kickoff_failed"@,
        "crew_train_completed"@,
        "crew_train_failed"@,
        "crew_test_completed"@,
        "crew_test_failed"@,
        "agent_execution_completed"@,
        "agent_execution_error"@,
        "agent_evaluation_completed"@,
        "agent_evaluation_failed"@,
        "lite_agent_execution_completed"@,
        "lite_agent_execution_error"@,
        "task_completed"@,
        "task_failed"@,
        "llm_call_completed"@,
        "llm_call_failed"@,
        "llm_guardrail_completed"@,
        "llm_guardrail_failed"@,
        "tool_usage_finished"@,
        "tool_usage_error"@,
        "mcp_connection_completed"@,
        "mcp_connection_failed"@,
        "mcp_tool_execution_completed"@,
        "mcp_tool_execution_failed"@,
        "memory_retrieval_completed"@,
        "memory_retrieval_failed"@,
        "memory_save_completed"@,
        "memory_save_failed"@,
        "memory_query_completed"@,
        "memory_query_failed"@,
        "knowledge_query_completed"@,
        "knowledge_query_failed"@,
        "knowledge_search_query_completed"@,
        "knowledge_search_query_failed"@,
        "a2a_delegation_completed"@,
        "a2a_conversation_completed"@,
        "a2a_server_task_completed"@,
        "a2a_server_task_canceled"@,
        "a2a_server_task_failed"@,
        "a2a_parallel_delegation_completed"@,
        "agent_reasoning_completed"@,
        "agent_reasoning_failed"@,
    ]
}

/// The (ending, starting) event type pairs, in registry order.
pub open spec fn event_pair_list() -> Seq<(Seq<char>, Seq<char>)> {
    seq![
        ("flow_finished"@, "flow_started"@),
        ("flow_paused"@, "flow_started"@),
        ("method_execution_finished"@, "method_execution_started"@),
        ("method_execution_failed"@, "method_execution_started"@),
        ("method_execution_paused"@, "method_execution_started"@),
        ("crew_kickoff_completed"@, "crew_kickoff_started"@),
        ("crew_kickoff_failed"@, "crew_kickoff_started"@),
        ("crew_train_completed"@, "crew_train_started"@),
        ("crew_train_failed"@, "crew_train_started"@),
        ("crew_test_completed"@, "crew_test_started"@),
        ("crew_test_failed"@, "crew_test_started"@),
        ("agent_execution_completed"@, "agent_execution_started"@),
        ("agent_execution_error"@, "agent_execution_started"@),
        ("agent_evaluation_completed"@, "agent_evaluation_started"@),
        ("agent_evaluation_failed"@, "agent_evaluation_started"@),
        ("lite_agent_execution_completed"@, "lite_agent_execution_started"@),
        ("lite_agent_execution_error"@, "lite_agent_execution_started"@),
        ("task_completed"@, "task_started"@),
        ("task_failed"@, "task_started"@),
        ("llm_call_completed"@, "llm_call_started"@),
        ("llm_call_failed"@, "llm_call_started"@),
        ("llm_guardrail_completed"@, "llm_guardrail_started"@),
        ("llm_guardrail_failed"@, "llm_guardrail_started"@),
        ("tool_usage_finished"@, "tool_usage_started"@),
        ("tool_usage_error"@, "tool_usage_started"@),
        ("mcp_connection_completed"@, "mcp_connection_started"@),
        ("mcp_connection_failed"@, "mcp_connection_started"@),
        ("mcp_tool_execution_completed"@, "mcp_tool_execution_started"@),
        ("mcp_tool_execution_failed"@, "mcp_tool_execution_started"@),
        ("memory_retrieval_completed"@, "memory_retrieval_started"@),
        ("memory_retrieval_failed"@, "memory_retrieval_started"@),
        ("memory_save_completed"@, "memory_save_started"@),
        ("memory_save_failed"@, "memory_save_started"@),
        ("memory_query_completed"@, "memory_query_started"@),
        ("memory_query_failed"@, "memory_query_started"@),
        ("knowledge_query_completed"@, "knowledge_query_started"@),
        ("knowledge_query_failed"@, "knowledge_query_started"@),
        ("knowledge_search_query_completed"@, "knowledge_search_query_started"@),
        ("knowledge_search_query_failed"@, "knowledge_search_query_started"@),
        ("a2a_delegation_completed"@, "a2a_delegation_started"@),
        ("a2a_conversation_completed"@, "a2a_conversation_started"@),
        ("a2a_server_task_completed"@, "a2a_server_task_started"@),
        ("a2a_server_task_canceled"@, "a2a_server_task_started"@),
        ("a2a_server_task_failed"@, "a2a_server_task_started"@),
        ("a2a_parallel_delegation_completed"@, "a2a_parallel_delegation_started"@),
        ("agent_reasoning_completed"@, "agent_reasoning_started"@),
        ("agent_reasoning_failed"@, "agent_reasoning_started"@),
    ]
}

/// The event types that open a scope.
pub fn scope_starting_events() -> (r: Vec<&'static str>)
    ensures
        r@.map_values(|s: &'static str| s@) == scope_starting_list(),
{
    let r = vec![
        "flow_started",
        "method_execution_started",
        "crew_kickoff_started",
        "crew_train_started",
        "crew_test_started",
        "agent_execution_started",
        "agent_evaluation_started",
        "lite_agent_execution_started",
        "task_started",
        "llm_call_started",
        "llm_guardrail_started",
        "tool_usage_started",
        "mcp_connection_started",
        "mcp_tool_execution_started",
        "memory_retrieval_started",
        "memory_save_started",
        "memory_query_started",
        "knowledge_query_started",
        "knowledge_search_query_started",
        "a2a_delegation_started",
        "a2a_conversation_started",
        "a2a_server_task_started",
        "a2a_parallel_delegation_started",
        "agent_reasoning_started",
    ];
    assert(r@.map_values(|s: &'static str| s@) =~= scope_starting_list());
    r
}

/// The event types that close a scope.
pub fn scope_ending_events() -> (r: Vec<&'static str>)
    ensures
        r@.map_values(|s: &'static str| s@) == scope_ending_list(),
{
    let r = vec![
        "flow_finished",
        "flow_paused",
        "method_execution_finished",
        "method_execution_failed",
        "method_execution_paused",
        "crew_kickoff_completed",
        "crew_kickoff_failed",
        "crew_train_completed",
        "crew_train_failed",
        "crew_test_completed",
        "crew_test_failed",
        "agent_execution_completed",
        "agent_execution_error",
        "agent_evaluation_completed",
        "agent_evaluation_failed",
        "lite_agent_execution_completed",
        "lite_agent_execution_error",
        "task_completed",
        "task_failed",
        "llm_call_completed",
        "llm_call_failed",
        "llm_guardrail_completed",
        "llm_guardrail_failed",
        "tool_usage_finished",
        "tool_usage_error",
        "mcp_connection_completed",
        "mcp_connection_failed",
        "mcp_tool_execution_completed",
        "mcp_tool_execution_failed",
        "memory_retrieval_completed",
        "memory_retrieval_failed",
        "memory_save_completed",
        "memory_save_failed",
        "memory_query_completed",
        "memory_query_failed",
        "knowledge_query_completed",
        "knowledge_query_failed",
        "knowledge_search_query_completed",
        "knowledge_search_query_failed",
        "a2a_delegation_completed",
        "a2a_conversation_completed",
        "a2a_server_task_completed",
        "a2a_server_task_canceled",
        "a2a_server_task_failed",
        "a2a_parallel_delegation_completed",
        "agent_reasoning_completed",
        "agent_reasoning_failed",
    ];
    assert(r@.map_values(|s: &'static str| s@) =~= scope_ending_list());
    r
}

/// The (ending, starting) event type pairs.
pub fn valid_event_pairs() -> (r: Vec<(&'static str, &'static str)>)
    ensures
        r@.map_values(|p: (&'static str, &'static str)| (p.0@, p.1@)) == event_pair_list(),
{
    let r = vec![
        ("flow_finished", "flow_started"),
        ("flow_paused", "flow_started"),
        ("method_execution_finished", "method_execution_started"),
        ("method_execution_failed", "method_execution_started"),
        ("method_execution_paused", "method_execution_started"),
        ("crew_kickoff_completed", "crew_kickoff_started"),
        ("crew_kickoff_failed", "crew_kickoff_started"),
        ("crew_train_completed", "crew_train_started"),
        ("crew_train_failed", "crew_train_started"),
        ("crew_test_completed", "crew_test_started"),
        ("crew_test_failed", "crew_test_started"),
        ("agent_execution_completed", "agent_execution_started"),
        ("agent_execution_error", "agent_execution_started"),
        ("agent_evaluation_completed", "agent_evaluation_started"),
        ("agent_evaluation_failed", "agent_evaluation_started"),
        ("lite_agent_execution_completed", "lite_agent_execution_started"),
        ("lite_agent_execution_error", "lite_agent_execution_started"),
        ("task_completed", "task_started"),
        ("task_failed", "task_started"),
        ("llm_call_completed", "llm_call_started"),
        ("llm_call_failed", "llm_call_started"),
        ("llm_guardrail_completed", "llm_guardrail_started"),
        ("llm_guardrail_failed", "llm_guardrail_started"),
        ("tool_usage_finished", "tool_usage_started"),
        ("tool_usage_error", "tool_usage_started"),
        ("mcp_connection_completed", "mcp_connection_started"),
        ("mcp_connection_failed", "mcp_connection_started"),
        ("mcp_tool_execution_completed", "mcp_tool_execution_started"),
        ("mcp_tool_execution_failed", "mcp_tool_execution_started"),
        ("memory_retrieval_completed", "memory_retrieval_started"),
        ("memory_retrieval_failed", "memory_retrieval_started"),
        ("memory_save_completed", "memory_save_started"),
        ("memory_save_failed", "memory_save_started"),
        ("memory_query_completed", "memory_query_started"),
        ("memory_query_failed", "memory_query_started"),
        ("knowledge_query_completed", "knowledge_query_started"),
        ("knowledge_query_failed", "knowledge_query_started"),
        ("knowledge_search_query_completed", "knowledge_search_query_started"),
        ("knowledge_search_query_failed", "knowledge_search_query_started"),
        ("a2a_delegation_completed", "a2a_delegation_started"),
        ("a2a_conversation_completed", "a2a_conversation_started"),
        ("a2a_server_task_completed", "a2a_server_task_started"),
        ("a2a_server_task_canceled", "a2a_server_task_started"),
        ("a2a_server_task_failed", "a2a_server_task_started"),
        ("a2a_parallel_delegation_completed", "a2a_parallel_delegation_started"),
        ("agent_reasoning_completed", "agent_reasoning_started"),
        ("agent_reasoning_failed", "agent_reasoning_started"),
    ];
    assert(r@.map_values(|p: (&'static str, &'static str)| (p.0@, p.1@)) =~= event_pair_list());
    r
}


// ---------------------------------------------------------------------------
// Emission tracking
// ---------------------------------------------------------------------------

/// The scope stack as `(event_id, event_type)` character sequences.
pub open spec fn stack_view(s: Seq<(String, String)>) -> Seq<(Seq<char>, Seq<char>)> {
    s.map_values(|e: (String, String)| (e.0@, e.1@))
}

/// An optional string as characters.
pub open spec fn opt_view(o: Option<String>) -> Option<Seq<char>> {
    match o {
        Some(s) => Some(s@),
        None => None,
    }
}

/// What emission tracking found about the scope stack.
#[derive(Debug)]
pub enum ScopeNotice {
    /// Nothing to report.
    Clean,
    /// An ending event arrived with an empty stack.
    EmptyPop(ScopeReport),
    /// An ending event closed a scope of another type.
    Mismatch(ScopeReport),
    /// A starting event would exceed the depth limit (nothing was pushed).
    DepthExceeded(StackDepthExceededError),
}

/// The chain fields that emission assigns to an event.
#[derive(Debug)]
pub struct EmissionTracking {
    /// The previously emitted event.
    pub previous_event_id: Option<String>,
    /// The event that triggered the current execution.
    pub triggered_by_event_id: Option<String>,
    /// The emission sequence number.
    pub emission_sequence: u64,
    /// The hierarchical parent.
    pub parent_event_id: Option<String>,
    /// Scope problems found.
    pub notice: ScopeNotice,
}

/// The scope effect of emitting an event of type `t` that has no parent yet:
/// ending events take the enclosing scope as parent and pop it, starting
/// events take the current scope as parent and push themselves, other events
/// take the current scope as parent.
pub open spec fn scope_effect_ok(
    old_ctx: EventContext,
    new_ctx: EventContext,
    event_id: Seq<char>,
    t: Seq<char>,
    r: EmissionTracking,
) -> bool {
    if expected_start_spec(t) is Some {
        &&& opt_view(r.parent_event_id) == opt_view(enclosing_parent_spec(old_ctx.stack@))
        &&& if old_ctx.stack@.len() == 0 {
            &&& new_ctx.stack@ == old_ctx.stack@
            &&& r.notice matches ScopeNotice::EmptyPop(rep)
            &&& rep.behavior == effective_config(&old_ctx).empty_pop_behavior
            &&& rep.message@ == empty_pop_message(t)
        } else {
            let popped = old_ctx.stack@.last().1@;
            let expected = expected_start_spec(t)->0;
            &&& new_ctx.stack@ == old_ctx.stack@.drop_last()
            &&& if popped.len() > 0 && popped != expected {
                &&& r.notice matches ScopeNotice::Mismatch(rep)
                &&& rep.behavior == effective_config(&old_ctx).mismatch_behavior
                &&& rep.message@ == mismatch_message(t, popped, expected)
            } else {
                r.notice is Clean
            }
        }
    } else if is_scope_starting_spec(t) {
        &&& opt_view(r.parent_event_id) == opt_view(current_parent_spec(old_ctx.stack@))
        &&& if can_push(&old_ctx) {
            &&& stack_view(new_ctx.stack@) == stack_view(old_ctx.stack@).push((event_id, t))
            &&& new_ctx.stack@.drop_last() == old_ctx.stack@
            &&& r.notice is Clean
        } else {
            &&& new_ctx.stack@ == old_ctx.stack@
            &&& r.notice matches ScopeNotice::DepthExceeded(e)
            &&& e.limit == effective_config(&old_ctx).max_stack_depth
        }
    } else {
        &&& opt_view(r.parent_event_id) == opt_view(current_parent_spec(old_ctx.stack@))
        &&& new_ctx.stack@ == old_ctx.stack@
        &&& r.notice is Clean
    }
}

/// The effect of emitting one event on the context and the chain fields.
pub open spec fn emission_post(
    old_ctx: EventContext,
    new_ctx: EventContext,
    event_id: Seq<char>,
    event_type: Seq<char>,
    parent_event_id: Option<String>,
    r: EmissionTracking,
) -> bool {
    &&& r.previous_event_id == old_ctx.last_event_id
    &&& r.triggered_by_event_id == old_ctx.triggering_event_id
    &&& r.emission_sequence == old_ctx.emission_counter
    &&& new_ctx.emission_counter == (if old_ctx.emission_counter == u64::MAX {
        0
    } else {
        (old_ctx.emission_counter + 1) as u64
    })
    &&& new_ctx.config == old_ctx.config
    &&& new_ctx.triggering_event_id == old_ctx.triggering_event_id
    &&& parent_event_id is Some ==> {
        &&& r.parent_event_id == parent_event_id
        &&& new_ctx.stack@ == old_ctx.stack@
        &&& r.notice is Clean
    }
    &&& parent_event_id is None ==> scope_effect_ok(old_ctx, new_ctx, event_id, event_type, r)
    &&& (r.notice is DepthExceeded) ==> new_ctx.last_event_id == old_ctx.last_event_id
    &&& !(r.notice is DepthExceeded) ==> opt_view(new_ctx.last_event_id) == Some(event_id)
}

/// Chain tracking for one emitted event: the previous and triggering events,
/// the next sequence number, and (when the event has no parent yet) the scope
/// bookkeeping; finally the event becomes the last emitted one. When the
/// depth limit stops a push the bus raises, and the event is not recorded.
pub fn track_emission(
    ctx: &mut EventContext,
    event_id: &str,
    event_type: &str,
    parent_event_id: Option<String>,
) -> (r: EmissionTracking)
    ensures
        emission_post(*old(ctx), *final(ctx), event_id@, event_type@, parent_event_id, r),
{
    let previous_event_id = get_last_event_id(ctx);
    let triggered_by_event_id = get_triggering_event_id(ctx);
    let emission_sequence = get_next_emission_sequence(ctx);
    let ghost mid = *ctx;
    let mut notice = ScopeNotice::Clean;
    let parent = match parent_event_id {
        Some(p) => Some(p),
        None => {
            match expected_start_event(event_type) {
                Some(expected) => {
                    let parent = get_enclosing_parent_id(ctx);
                    match pop_event_scope(ctx) {
                        None => {
                            notice = ScopeNotice::EmptyPop(empty_pop_report(ctx, event_type));
                        },
                        Some(popped) => {
                            let popped_type = popped.1.as_str();
                            assert(popped_type@ == mid.stack@.last().1@);
                            if !popped_type.is_empty() && !str_eq(popped_type, expected) {
                                notice = ScopeNotice::Mismatch(mismatch_report(ctx, event_type, popped_type, expected));
                            }
                        },
                    }
                    parent
                },
                None => {
                    let parent = get_current_parent_id(ctx);
                    if is_scope_starting_event(event_type) {
                        let cfg = with_config(ctx);
                        if cfg.max_stack_depth == 0 || ctx.stack.len() < cfg.max_stack_depth {
                            let ghost before = ctx.stack@;
                            push_event_scope(ctx, String::from_str(event_id), String::from_str(event_type));
                            assert(stack_view(ctx.stack@) =~= stack_view(before).push((event_id@, event_type@)));
                            assert(ctx.stack@.drop_last() =~= before);
                        } else {
                            notice = ScopeNotice::DepthExceeded(StackDepthExceededError { limit: cfg.max_stack_depth });
                        }
                    }
                    parent
                },
            }
        },
    };
    let exceeded = match notice {
        ScopeNotice::DepthExceeded(_) => true,
        _ => false,
    };
    let ghost before_last = *ctx;
    if !exceeded {
        set_last_event_id(ctx, String::from_str(event_id));
    }
    let r = EmissionTracking { previous_event_id, triggered_by_event_id, emission_sequence, parent_event_id: parent, notice };
    assert(parent_event_id is None ==> scope_effect_ok(mid, before_last, event_id@, event_type@, r));
    r
}

// ---------------------------------------------------------------------------
// Scope guards
// ---------------------------------------------------------------------------

/// Whether `event_id` is already on the stack.
pub open spec fn on_stack(stack: Seq<(String, String)>, event_id: Seq<char>) -> bool {
    exists|i: int| 0 <= i < stack.len() && (#[trigger] stack[i]).0@ == event_id
}

/// Scope guard that pushes an event scope on entry (unless the id is
/// already on the stack) and pops it on exit.
#[derive(Debug)]
pub struct EventScopeGuard {
    /// Whether this guard pushed the scope.
    pub owned: bool,
}

impl EventScopeGuard {
    /// Enter the scope of `event_id`, pushing it when it is not on the stack.
    pub fn new(ctx: &mut EventContext, event_id: String, event_type: String) -> (g: EventScopeGuard)
        requires
            can_push(old(ctx)),
        ensures
            g.owned == !on_stack(old(ctx).stack@, event_id@),
            g.owned ==> final(ctx).stack@ == old(ctx).stack@.push((event_id, event_type)),
            !g.owned ==> final(ctx).stack@ == old(ctx).stack@,
            final(ctx).config == old(ctx).config,
            final(ctx).last_event_id == old(ctx).last_event_id,
            final(ctx).triggering_event_id == old(ctx).triggering_event_id,
            final(ctx).emission_counter == old(ctx).emission_counter,
    {
        let mut already = false;
        let mut i: usize = 0;
        while i < ctx.stack.len()
            invariant
                i <= ctx.stack@.len(),
                already == exists|j: int| 0 <= j < i && (#[trigger] ctx.stack@[j]).0@ == event_id@,
            decreases ctx.stack@.len() - i,
        {
            if str_eq(ctx.stack[i].0.as_str(), event_id.as_str()) {
                already = true;
            }
            i += 1;
        }
        if !already {
            push_event_scope(ctx, event_id, event_type);
        }
        EventScopeGuard { owned: !already }
    }

    /// Leave the scope: pop it when this guard pushed it.
    pub fn exit(self, ctx: &mut EventContext)
        ensures
            self.owned ==> final(ctx).stack@ == (if old(ctx).stack@.len() > 0 {
                old(ctx).stack@.drop_last()
            } else {
                old(ctx).stack@
            }),
            !self.owned ==> final(ctx).stack@ == old(ctx).stack@,
            final(ctx).config == old(ctx).config,
            final(ctx).last_event_id == old(ctx).last_event_id,
            final(ctx).triggering_event_id == old(ctx).triggering_event_id,
            final(ctx).emission_counter == old(ctx).emission_counter,
    {
        if self.owned {
            let _ = pop_event_scope(ctx);
        }
    }
}

/// Guard for a triggered-by scope: sets the triggering event on entry and
/// restores the previous one on exit.
#[derive(Debug)]
pub struct TriggeredByScopeGuard {
    /// The triggering event in effect before entry.
    pub previous: Option<String>,
}

impl TriggeredByScopeGuard {
    /// Enter a triggered-by scope.
    pub fn new(ctx: &mut EventContext, event_id: String) -> (g: TriggeredByScopeGuard)
        ensures
            g.previous == old(ctx).triggering_event_id,
            final(ctx).triggering_event_id == Some(event_id),
            final(ctx).stack == old(ctx).stack,
            final(ctx).config == old(ctx).config,
            final(ctx).last_event_id == old(ctx).last_event_id,
            final(ctx).emission_counter == old(ctx).emission_counter,
    {
        let previous = get_triggering_event_id(ctx);
        set_triggering_event_id(ctx, Some(event_id));
        TriggeredByScopeGuard { previous }
    }

    /// Leave the scope, restoring the previous triggering event.
    pub fn exit(self, ctx: &mut EventContext)
        ensures
            final(ctx).triggering_event_id == self.previous,
            final(ctx).stack == old(ctx).stack,
            final(ctx).config == old(ctx).config,
            final(ctx).last_event_id == old(ctx).last_event_id,
            final(ctx).emission_counter == old(ctx).emission_counter,
    {
        set_triggering_event_id(ctx, self.previous);
    }
}


// ---------------------------------------------------------------------------
// Laws
// ---------------------------------------------------------------------------

/// A starting event followed by the ending event that closes it leaves the
/// scope stack as it was, reports nothing, gives the ending event the
/// starting event's parent, and chains the ending event to the starting one.
pub proof fn lemma_scope_pair_restores(
    c0: EventContext,
    c1: EventContext,
    c2: EventContext,
    start_id: Seq<char>,
    start_type: Seq<char>,
    end_id: Seq<char>,
    end_type: Seq<char>,
    r1: EmissionTracking,
    r2: EmissionTracking,
)
    requires
        emission_post(c0, c1, start_id, start_type, None, r1),
        emission_post(c1, c2, end_id, end_type, None, r2),
        expected_start_spec(start_type) is None,
        expected_start_spec(end_type) == Some(start_type),
        can_push(&c0),
    ensures
        c2.stack@ == c0.stack@,
        r1.notice is Clean,
        r2.notice is Clean,
        opt_view(r2.parent_event_id) == opt_view(r1.parent_event_id),
        opt_view(r2.previous_event_id) == Some(start_id),
{
    lemma_expected_start_opens_scope(end_type);
    assert(c1.stack@.drop_last() == c0.stack@);
    assert(stack_view(c1.stack@).last() == (start_id, start_type));
    assert(c1.stack@.last().1@ == start_type);
    if c0.stack@.len() > 0 {
        assert(c1.stack@[c1.stack@.len() - 2] == c0.stack@.last());
    }
}

/// Every event type that closes a scope names, as the type it closes, an
/// event type that opens one.
pub proof fn lemma_expected_start_opens_scope(t: Seq<char>)
    ensures
        expected_start_spec(t) matches Some(s) ==> is_scope_starting_spec(s),
{
}

/// Pushing a scope and popping it again returns the pushed entry and
/// restores the stack.
pub proof fn lemma_push_pop_inverse(
    c0: EventContext,
    c1: EventContext,
    c2: EventContext,
    event_id: String,
    event_type: String,
    popped: Option<(String, String)>,
)
    requires
        c1.stack@ == c0.stack@.push((event_id, event_type)),
        c1.stack@.len() > 0 ==> popped == Some(c1.stack@.last()) && c2.stack@ == c1.stack@.drop_last(),
    ensures
        popped == Some((event_id, event_type)),
        c2.stack@ == c0.stack@,
{
    assert(c1.stack@.drop_last() =~= c0.stack@);
}

/// Entering and then leaving a triggered-by scope restores the triggering
/// event that was in effect before.
pub proof fn lemma_triggered_by_restores(
    c0: EventContext,
    c1: EventContext,
    c2: EventContext,
    event_id: String,
    g: TriggeredByScopeGuard,
)
    requires
        g.previous == c0.triggering_event_id,
        c1.triggering_event_id == Some(event_id),
        c2.triggering_event_id == g.previous,
    ensures
        c2.triggering_event_id == c0.triggering_event_id,
        c1.triggering_event_id == Some(event_id),
{
}

/// Entering and then leaving an event scope restores the stack.
pub proof fn lemma_event_scope_restores(
    c0: EventContext,
    c1: EventContext,
    c2: EventContext,
    event_id: String,
    event_type: String,
    g: EventScopeGuard,
)
    requires
        g.owned ==> c1.stack@ == c0.stack@.push((event_id, event_type)),
        !g.owned ==> c1.stack@ == c0.stack@,
        g.owned ==> c2.stack@ == (if c1.stack@.len() > 0 {
            c1.stack@.drop_last()
        } else {
            c1.stack@
        }),
        !g.owned ==> c2.stack@ == c1.stack@,
    ensures
        c2.stack@ == c0.stack@,
{
    if g.owned {
        assert(c1.stack@.drop_last() =~= c0.stack@);
    }
}

/// After a reset, successive emissions are numbered 1, 2, 3, ...: each
/// number is one more than the one before (until the counter wraps).
pub proof fn lemma_emission_sequence_increments(c0: EventContext, c1: EventContext, s0: u64, s1: u64)
    requires
        s0 == c0.emission_counter,
        c1.emission_counter == (if c0.emission_counter == u64::MAX {
            0
        } else {
            (c0.emission_counter + 1) as u64
        }),
        s1 == c1.emission_counter,
        s0 < u64::MAX,
    ensures
        s1 == s0 + 1,
{
}


/// A run of scope operations on a stack view: `Some(e)` pushes `e`,
/// `None` pops (popping an empty stack leaves it empty).
pub open spec fn apply_scope_ops(
    s: Seq<(Seq<char>, Seq<char>)>,
    ops: Seq<Option<(Seq<char>, Seq<char>)>>,
) -> Seq<(Seq<char>, Seq<char>)>
    decreases ops.len(),
{
    if ops.len() == 0 {
        s
    } else {
        let s1 = apply_scope_ops(s, ops.drop_last());
        match ops.last() {
            Some(e) => s1.push(e),
            None => if s1.len() > 0 {
                s1.drop_last()
            } else {
                s1
            },
        }
    }
}

/// Pushes minus pops in a run of scope operations.
pub open spec fn scope_depth(ops: Seq<Option<(Seq<char>, Seq<char>)>>) -> int
    decreases ops.len(),
{
    if ops.len() == 0 {
        0
    } else {
        scope_depth(ops.drop_last()) + if ops.last() is Some {
            1int
        } else {
            -1int
        }
    }
}

/// A balanced run: no prefix pops more than it pushed, and it pops all it
/// pushed.
pub open spec fn balanced_scope_ops(ops: Seq<Option<(Seq<char>, Seq<char>)>>) -> bool {
    &&& scope_depth(ops) == 0
    &&& forall|k: int| 0 <= k <= ops.len() ==> #[trigger] scope_depth(ops.take(k)) >= 0
}

/// A run whose prefixes never pop more than they pushed only grows the
/// stack it starts on: it keeps that stack underneath, `depth` entries
/// deeper.
pub proof fn lemma_scope_ops_keep_base(s: Seq<(Seq<char>, Seq<char>)>, ops: Seq<Option<(Seq<char>, Seq<char>)>>)
    requires
        forall|k: int| 0 <= k <= ops.len() ==> #[trigger] scope_depth(ops.take(k)) >= 0,
    ensures
        apply_scope_ops(s, ops).len() == s.len() + scope_depth(ops),
        apply_scope_ops(s, ops).take(s.len() as int) == s,
    decreases ops.len(),
{
    if ops.len() > 0 {
        let p = ops.drop_last();
        assert forall|k: int| 0 <= k <= p.len() implies #[trigger] scope_depth(p.take(k)) >= 0 by {
            assert(p.take(k) =~= ops.take(k));
        }
        lemma_scope_ops_keep_base(s, p);
        assert(ops.take(ops.len() as int) =~= ops);
        let s1 = apply_scope_ops(s, p);
        match ops.last() {
            Some(e) => {
                assert(s1.push(e).take(s.len() as int) =~= s1.take(s.len() as int));
            },
            None => {
                assert(scope_depth(ops.take(ops.len() as int)) >= 0);
                assert(s1.len() > s.len());
                assert(s1.drop_last().take(s.len() as int) =~= s1.take(s.len() as int));
            },
        }
    }
}

/// A balanced run of pushes and pops gives back the stack it started on.
pub proof fn lemma_balanced_scope_ops_restore(s: Seq<(Seq<char>, Seq<char>)>, ops: Seq<Option<(Seq<char>, Seq<char>)>>)
    requires
        balanced_scope_ops(ops),
    ensures
        apply_scope_ops(s, ops) == s,
{
    lemma_scope_ops_keep_base(s, ops);
    assert(apply_scope_ops(s, ops) =~= apply_scope_ops(s, ops).take(s.len() as int));
}

/// An event scope guard entered on stack `c0`, then balanced pushes and
/// pops in between, then the guard's exit on `c2`, gives back `c0`'s stack:
/// a guard never pops an entry it did not push.
pub proof fn lemma_event_scope_balanced(
    c0: EventContext,
    c1: EventContext,
    c2: EventContext,
    c3: EventContext,
    event_id: String,
    event_type: String,
    g: EventScopeGuard,
    ops: Seq<Option<(Seq<char>, Seq<char>)>>,
)
    requires
        g.owned ==> c1.stack@ == c0.stack@.push((event_id, event_type)),
        !g.owned ==> c1.stack@ == c0.stack@,
        balanced_scope_ops(ops),
        stack_view(c2.stack@) == apply_scope_ops(stack_view(c1.stack@), ops),
        g.owned ==> c3.stack@ == (if c2.stack@.len() > 0 {
            c2.stack@.drop_last()
        } else {
            c2.stack@
        }),
        !g.owned ==> c3.stack@ == c2.stack@,
    ensures
        stack_view(c3.stack@) == stack_view(c0.stack@),
{
    lemma_balanced_scope_ops_restore(stack_view(c1.stack@), ops);
    assert(stack_view(c2.stack@).len() == c2.stack@.len());
    if g.owned {
        assert(c1.stack@.drop_last() =~= c0.stack@);
        assert(c2.stack@.len() == c1.stack@.len());
        assert forall|i: int| 0 <= i < c0.stack@.len() implies stack_view(c3.stack@)[i] == stack_view(c0.stack@)[i] by {
            assert(stack_view(c2.stack@)[i] == stack_view(c1.stack@)[i]);
            assert(c1.stack@[i] == c0.stack@[i]);
        }
        assert(stack_view(c3.stack@) =~= stack_view(c0.stack@));
    } else {
        assert(stack_view(c3.stack@) =~= stack_view(c0.stack@)) by {
            assert(stack_view(c3.stack@) == stack_view(c2.stack@));
        }
    }
}

/// Nested event scope guards left innermost first restore the stacks in
/// last-in, first-out order: `cs[k + 1]` is `cs[k]` after entering guard
/// `gs[k]`, for the `n` guards, and `cs[n + j + 1]` is `cs[n + j]` after
/// leaving guard `gs[n - 1 - j]`; then leaving that guard gives back the
/// stack it was entered on (for the last, `j = n - 1`, the first stack).
pub proof fn lemma_event_scopes_nested(
    cs: Seq<EventContext>,
    gs: Seq<EventScopeGuard>,
    entries: Seq<(String, String)>,
    j: int,
)
    requires
        gs.len() == entries.len(),
        cs.len() == 2 * gs.len() + 1,
        0 <= j < gs.len(),
        forall|k: int| #![trigger gs[k]] 0 <= k < gs.len() ==> (gs[k].owned ==> cs[k + 1].stack@ == cs[k].stack@.push(entries[k]))
            && (!gs[k].owned ==> cs[k + 1].stack@ == cs[k].stack@),
        forall|i: int| #![trigger cs[gs.len() + i + 1]] 0 <= i < gs.len() ==> {
            let g = gs[gs.len() - 1 - i];
            let c = cs[gs.len() + i];
            &&& g.owned ==> cs[gs.len() + i + 1].stack@ == (if c.stack@.len() > 0 {
                c.stack@.drop_last()
            } else {
                c.stack@
            })
            &&& !g.owned ==> cs[gs.len() + i + 1].stack@ == c.stack@
        },
    ensures
        cs[gs.len() + j + 1].stack@ == cs[gs.len() - 1 - j].stack@,
    decreases j,
{
    let n = gs.len();
    if j > 0 {
        lemma_event_scopes_nested(cs, gs, entries, j - 1);
    }
    let k = n - 1 - j;
    assert(cs[n + j].stack@ == cs[k + 1].stack@);
    let g = gs[k];
    if g.owned {
        assert(cs[k + 1].stack@.drop_last() =~= cs[k].stack@);
    }
    assert(cs[n + j + 1].stack@ == cs[k].stack@);
}

/// Nested triggered-by guards left innermost first restore the triggering
/// event in last-in, first-out order: `cs[k + 1]` is `cs[k]` after entering
/// guard `gs[k]` for `ids[k]`, for the `n` guards, and `cs[n + j + 1]` is
/// `cs[n + j]` after leaving guard `gs[n - 1 - j]`; then each exit gives
/// back the triggering event in effect before that guard was entered.
pub proof fn lemma_triggered_by_nested(cs: Seq<EventContext>, gs: Seq<TriggeredByScopeGuard>, ids: Seq<String>, j: int)
    requires
        gs.len() == ids.len(),
        cs.len() == 2 * gs.len() + 1,
        0 <= j < gs.len(),
        forall|k: int| #![trigger gs[k]] 0 <= k < gs.len() ==> gs[k].previous == cs[k].triggering_event_id
            && cs[k + 1].triggering_event_id == Some(ids[k]),
        forall|i: int| #![trigger cs[gs.len() + i + 1]] 0 <= i < gs.len() ==> cs[gs.len() + i + 1].triggering_event_id
            == gs[gs.len() - 1 - i].previous,
    ensures
        cs[gs.len() + j + 1].triggering_event_id == cs[gs.len() - 1 - j].triggering_event_id,
        j + 1 < gs.len() ==> cs[gs.len() + j + 1].triggering_event_id == Some(ids[gs.len() - 2 - j]),
        cs[2 * gs.len() as int].triggering_event_id == cs[0].triggering_event_id,
{
    let n = gs.len();
    let k = n - 1 - j;
    assert(gs[k].previous == cs[k].triggering_event_id);
    assert(cs[n + j + 1].triggering_event_id == gs[k].previous);
    if j + 1 < n {
        assert(gs[k - 1].previous == cs[k - 1].triggering_event_id);
    }
    assert(gs[0].previous == cs[0].triggering_event_id);
    assert(cs[n + (n - 1) + 1].triggering_event_id == gs[0].previous);
}

} // verus!
