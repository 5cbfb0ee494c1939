//! Experimental executors and evaluation.

pub mod agent_executor;
pub mod evaluation;
