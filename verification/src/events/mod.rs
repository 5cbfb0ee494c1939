//! Event system: handler identities, dependency scheduling, scope tracking
//! and event payload types.

pub mod event_bus;
pub mod event_context;
pub mod event_listener;
pub mod handler_graph;
pub mod types;
