//! Drivers: pure functions over Blackboard-native values.

pub mod barrier_stack;
pub mod markov_barrier;
pub mod nars;
pub mod spo;
