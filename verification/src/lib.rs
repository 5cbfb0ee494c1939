//! Verified core of the crewai orchestration library: event scoping and
//! handler scheduling, flow conditions and trigger tracking, hook result
//! combination, and the SPO conversation-graph driver.

pub mod crew;
pub mod crews;
pub mod drivers;
pub mod events;
pub mod experimental;
pub mod flow;
pub mod hooks;
pub mod providers;
pub mod text;
