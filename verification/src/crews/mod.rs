//! Crew helpers.

pub mod utils;
