//! Flows: method registration metadata, trigger conditions and their analysis.

pub mod async_feedback;
pub mod flow;
pub mod flow_config;
pub mod flow_trackable;
pub mod flow_wrappers;
pub mod human_feedback;
pub mod utils;
pub mod visualization;
