//! Task preparation and streaming bookkeeping for crew execution.

use std::collections::HashMap;

use vstd::prelude::*;

verus! {

/// How to execute one task: the agent, the tools, and whether to skip it.
#[derive(Debug, Clone)]
pub struct TaskExecutionData {
    /// The agent role to use (none when skipped).
    pub agent: Option<String>,
    /// Tool names prepared for the task.
    pub tools: Vec<String>,
    /// Whether the task is skipped (replay).
    pub should_skip: bool,
}

impl TaskExecutionData {
    /// Execution data with the given fields.
    pub fn new(agent: Option<String>, tools: Vec<String>, should_skip: bool) -> (d: TaskExecutionData)
        ensures
            d.agent == agent,
            d.tools == tools,
            d.should_skip == should_skip,
    {
        TaskExecutionData { agent, tools, should_skip }
    }

    /// Execution data that skips the task: no agent, no tools.
    pub fn skip() -> (d: TaskExecutionData)
        ensures
            d.agent is None,
            d.tools@.len() == 0,
            d.should_skip,
    {
        TaskExecutionData { agent: None, tools: Vec::new(), should_skip: true }
    }
}

/// Metadata of the task being executed, for streaming and progress.
#[derive(Debug, Clone)]
pub struct TaskInfo {
    /// Task index in the crew.
    pub index: usize,
    /// Task name.
    pub name: String,
    /// Task ID.
    pub id: String,
    /// Role of the agent handling the task.
    pub agent_role: String,
    /// ID of the agent handling the task.
    pub agent_id: String,
}

impl Default for TaskInfo {
    fn default() -> (t: TaskInfo)
        ensures
            t.index == 0,
            t.name@.len() == 0,
            t.id@.len() == 0,
            t.agent_role@.len() == 0,
            t.agent_id@.len() == 0,
    {
        TaskInfo { index: 0, name: String::new(), id: String::new(), agent_role: String::new(), agent_id: String::new() }
    }
}

/// Streaming state of one crew execution.
#[derive(Debug)]
pub struct StreamingContext {
    /// Results of the execution.
    pub result_holder: Vec<serde_json::Value>,
    /// The task being executed.
    pub current_task_info: TaskInfo,
    /// Whether streaming runs asynchronously.
    pub use_async: bool,
}

impl StreamingContext {
    /// A fresh streaming context: no results, default task info.
    pub fn new(use_async: bool) -> (c: StreamingContext)
        ensures
            c.result_holder@.len() == 0,
            c.current_task_info.index == 0,
            c.current_task_info.name@.len() == 0,
            c.use_async == use_async,
    {
        StreamingContext { result_holder: Vec::new(), current_task_info: TaskInfo::default(), use_async }
    }
}

/// Streaming state of a crew run once per input.
#[derive(Debug)]
pub struct ForEachStreamingContext {
    /// Results of every run, one list per run.
    pub result_holder: Vec<Vec<serde_json::Value>>,
    /// The task being executed.
    pub current_task_info: TaskInfo,
}

impl ForEachStreamingContext {
    /// A fresh context holding one empty result list.
    pub fn new() -> (c: ForEachStreamingContext)
        ensures
            c.result_holder@.len() == 1,
            c.result_holder@[0]@.len() == 0,
            c.current_task_info.index == 0,
    {
        let mut result_holder: Vec<Vec<serde_json::Value>> = Vec::new();
        result_holder.push(Vec::new());
        ForEachStreamingContext { result_holder, current_task_info: TaskInfo::default() }
    }
}

/// Enable streaming on the crew's agents (agents are identified by role;
/// the crew has no agent settings to change yet, so nothing changes).
pub fn enable_agent_streaming(agent_roles: &[String]) {
}

/// Prepare crew kickoff: the inputs are passed on unchanged.
pub fn prepare_kickoff(inputs: Option<HashMap<String, String>>) -> (r: Option<HashMap<String, String>>)
    ensures
        r == inputs,
{
    inputs
}

/// Prepare a task for execution: skip it when execution starts at a later
/// task; else run it, with agent and tool choice left to the crew.
pub fn prepare_task_execution<T>(task_index: usize, start_index: Option<usize>, task_outputs: &[T]) -> (d: TaskExecutionData)
    ensures
        d.should_skip == (start_index matches Some(s) && task_index < s),
        d.agent is None,
        d.tools@.len() == 0,
{
    if let Some(start) = start_index {
        if task_index < start {
            return TaskExecutionData::skip();
        }
    }
    TaskExecutionData::new(None, Vec::new(), false)
}

/// Whether a conditional task is skipped: tasks carry no conditions yet,
/// so none is, and no skipped output is produced.
pub fn check_conditional_skip<T>(task_outputs: &[T], task_index: usize, was_replayed: bool) -> (r: Option<T>)
    ensures
        r is None,
{
    None
}

} // verus!
