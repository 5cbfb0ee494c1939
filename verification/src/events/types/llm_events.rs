//! LLM call kinds and tool-call descriptions.

use vstd::prelude::*;

verus! {

/// Type of LLM call being made.
#[derive(Debug, Clone, Copy, PartialEq, Eq, Structural)]
pub enum LLMCallType {
    /// A tool-calling invocation.
    ToolCall,
    /// A regular LLM generation call.
    LlmCall,
}

impl LLMCallType {
    /// The snake-case name of the call type.
    pub fn as_str(&self) -> (s: &'static str)
        ensures
            s@ == match self {
                LLMCallType::ToolCall => "tool_call"@,
                LLMCallType::LlmCall => "llm_call"@,
            },
    {
        match self {
            LLMCallType::ToolCall => "tool_call",
            LLMCallType::LlmCall => "llm_call",
        }
    }
}

/// A function call within a tool call.
#[derive(Debug, Clone)]
pub struct FunctionCall {
    /// The function arguments, as serialised JSON.
    pub arguments: String,
    /// Function name.
    pub name: Option<String>,
}

/// A tool call within an LLM response.
#[derive(Debug, Clone)]
pub struct ToolCall {
    /// Tool call identifier.
    pub id: Option<String>,
    /// The function being called.
    pub function: FunctionCall,
    /// Tool call type.
    pub call_type: Option<String>,
    /// Index within the tool-calls array.
    pub index: i64,
}

} // verus!
