//! The flow-based agent executor's iteration bookkeeping.

use std::collections::HashMap;

use vstd::prelude::*;
use vstd::string::*;

verus! {

/// Flow-based agent executor.
#[derive(Debug)]
pub struct AgentExecutor {
    /// The LLM model identifier.
    pub llm: String,
    /// Messages accumulated during execution (role/content maps).
    pub messages: Vec<HashMap<String, String>>,
    /// Current iteration count.
    pub iterations: usize,
    /// Maximum allowed iterations.
    pub max_iterations: usize,
    /// Whether to request human input.
    pub ask_for_human_input: bool,
}

impl AgentExecutor {
    /// An executor for `llm` with no messages, at iteration 0.
    pub fn new(llm: String, max_iterations: usize) -> (e: AgentExecutor)
        ensures
            e.llm == llm,
            e.messages@.len() == 0,
            e.iterations == 0,
            e.max_iterations == max_iterations,
            !e.ask_for_human_input,
    {
        AgentExecutor { llm, messages: Vec::new(), iterations: 0, max_iterations, ask_for_human_input: false }
    }

    /// Whether the iteration limit has been reached.
    pub fn has_reached_max_iterations(&self) -> (r: bool)
        ensures
            r == (self.iterations >= self.max_iterations),
    {
        self.iterations >= self.max_iterations
    }

    /// Whether training mode is active (it never is for this executor).
    pub fn is_training_mode(&self) -> (r: bool)
        ensures
            !r,
    {
        false
    }
}

impl Default for AgentExecutor {
    fn default() -> (e: Self)
        ensures
            e.llm@ == "default"@,
            e.messages@.len() == 0,
            e.iterations == 0,
            e.max_iterations == 25,
            !e.ask_for_human_input,
    {
        AgentExecutor::new(String::from_str("default"), 25)
    }
}

} // verus!
