//! Event payload types.

pub mod llm_events;
pub mod system_events;
