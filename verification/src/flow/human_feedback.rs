//! Human feedback configuration and its validation.

use std::collections::HashMap;

use vstd::prelude::*;

use crate::flow::async_feedback::now_rfc3339;
use crate::flow::utils::{contains_str, str_views, JsonValue};

verus! {

/// Configuration of a human feedback request.
#[derive(Debug)]
pub struct HumanFeedbackConfig {
    /// The message shown to the human.
    pub message: String,
    /// Outcome strings for routing, if any.
    pub emit: Option<Vec<String>>,
    /// The LLM that collapses feedback to an outcome.
    pub llm: Option<String>,
    /// The outcome used when no feedback is given.
    pub default_outcome: Option<String>,
    /// Metadata for external integrations.
    pub metadata: Option<HashMap<String, serde_json::Value>>,
    /// Custom feedback provider name.
    pub provider: Option<String>,
}

/// Why a feedback configuration is invalid.
#[derive(Debug, Clone, Copy, PartialEq, Eq, Structural)]
pub enum HumanFeedbackConfigError {
    /// Emit options were given without an LLM.
    LlmRequired,
    /// The default outcome is not one of the emit options.
    DefaultNotInEmit,
    /// A default outcome was given without emit options.
    DefaultWithoutEmit,
    /// Emit options were given but the list is empty.
    EmptyEmit,
}

impl HumanFeedbackConfig {
    /// A configuration with only a message.
    pub fn new(message: String) -> (c: HumanFeedbackConfig)
        ensures
            c.message == message,
            c.emit is None,
            c.llm is None,
            c.default_outcome is None,
            c.metadata is None,
            c.provider is None,
    {
        HumanFeedbackConfig { message, emit: None, llm: None, default_outcome: None, metadata: None, provider: None }
    }

    /// A configuration that routes on `emit` with `llm`; the emit list must
    /// not be empty.
    pub fn with_routing(message: String, emit: Vec<String>, llm: String) -> (r: Result<HumanFeedbackConfig, HumanFeedbackConfigError>)
        ensures
            emit@.len() == 0 <==> r == Err::<HumanFeedbackConfig, HumanFeedbackConfigError>(HumanFeedbackConfigError::EmptyEmit),
            r matches Ok(c) ==> c.message == message && c.emit == Some(emit) && c.llm == Some(llm)
                && c.default_outcome is None && c.metadata is None && c.provider is None,
    {
        if emit.len() == 0 {
            return Err(HumanFeedbackConfigError::EmptyEmit);
        }
        Ok(HumanFeedbackConfig {
            message,
            emit: Some(emit),
            llm: Some(llm),
            default_outcome: None,
            metadata: None,
            provider: None,
        })
    }

    /// Check the configuration: emit options need an LLM, and a default
    /// outcome needs emit options that include it.
    pub fn validate(&self) -> (r: Result<(), HumanFeedbackConfigError>)
        ensures
            r == if self.emit is Some && self.llm is None {
                Err(HumanFeedbackConfigError::LlmRequired)
            } else {
                match self.default_outcome {
                    Some(d) => match self.emit {
                        Some(e) => if str_views(e@).contains(d@) {
                            Ok(())
                        } else {
                            Err(HumanFeedbackConfigError::DefaultNotInEmit)
                        },
                        None => Err(HumanFeedbackConfigError::DefaultWithoutEmit),
                    },
                    None => Ok(()),
                }
            },
    {
        if self.emit.is_some() && self.llm.is_none() {
            return Err(HumanFeedbackConfigError::LlmRequired);
        }
        match &self.default_outcome {
            Some(d) => match &self.emit {
                Some(e) => {
                    if contains_str(e, d.as_str()) {
                        Ok(())
                    } else {
                        Err(HumanFeedbackConfigError::DefaultNotInEmit)
                    }
                },
                None => Err(HumanFeedbackConfigError::DefaultWithoutEmit),
            },
            None => Ok(()),
        }
    }
}


/// The result of a human feedback request.
#[derive(Debug)]
pub struct HumanFeedbackResult {
    /// The output shown to the human for review.
    pub output: JsonValue,
    /// The feedback text (empty when none was given).
    pub feedback: String,
    /// The outcome the feedback was collapsed to, when routing.
    pub outcome: Option<String>,
    /// When the feedback arrived, as RFC 3339 text in UTC.
    pub timestamp: String,
    /// The method that asked for feedback.
    pub method_name: String,
    /// Metadata for integrations, keyed.
    pub metadata: Vec<(String, JsonValue)>,
}

impl HumanFeedbackResult {
    /// Feedback on `output` from the given method, received now, with no
    /// outcome and no metadata.
    pub fn new(output: JsonValue, feedback: String, method_name: String) -> (r: HumanFeedbackResult)
        ensures
            r.output == output,
            r.feedback == feedback,
            r.outcome is None,
            r.method_name == method_name,
            r.metadata@.len() == 0,
    {
        HumanFeedbackResult {
            output,
            feedback,
            outcome: None,
            timestamp: now_rfc3339(),
            method_name,
            metadata: Vec::new(),
        }
    }

    /// Feedback on `output` from the given method, received now and routed
    /// to `outcome`, with no metadata.
    pub fn with_outcome(output: JsonValue, feedback: String, outcome: String, method_name: String) -> (r: HumanFeedbackResult)
        ensures
            r.output == output,
            r.feedback == feedback,
            r.outcome == Some(outcome),
            r.method_name == method_name,
            r.metadata@.len() == 0,
    {
        HumanFeedbackResult {
            output,
            feedback,
            outcome: Some(outcome),
            timestamp: now_rfc3339(),
            method_name,
            metadata: Vec::new(),
        }
    }
}

impl Default for HumanFeedbackResult {
    /// Empty feedback on a null output, received now.
    fn default() -> (r: HumanFeedbackResult)
        ensures
            r.output is Null,
            r.feedback@.len() == 0,
            r.outcome is None,
            r.method_name@.len() == 0,
            r.metadata@.len() == 0,
    {
        HumanFeedbackResult::new(JsonValue::Null, String::new(), String::new())
    }
}

} // verus!
