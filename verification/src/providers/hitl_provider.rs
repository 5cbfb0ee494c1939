//! The console human-in-the-loop provider.

use vstd::prelude::*;

use crate::text::{trim, trim_spec};

verus! {

/// The console human-in-the-loop provider: it reads answers from stdin.
#[derive(Debug, Default)]
pub struct ConsoleHITLProvider;

impl ConsoleHITLProvider {
    /// Whether human input is enabled (always, for the console).
    pub fn is_enabled(&self) -> (r: bool)
        ensures
            r,
    {
        true
    }

    /// The input a console answer gives: the line read, trimmed.
    pub fn input_from_line(line: &str) -> (r: String)
        ensures
            r@ == trim_spec(line@),
    {
        trim(line)
    }
}

} // verus!
