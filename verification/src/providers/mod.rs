//! Content processing, human input and human-in-the-loop providers.

pub mod content_processor;
pub mod hitl_provider;
pub mod human_input;
