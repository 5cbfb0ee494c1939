//! A listener with no handlers of its own.

use vstd::prelude::*;

verus! {

/// A listener that registers no handlers.
#[derive(Debug)]
pub struct Listener {
    /// Whether verbose output is enabled.
    pub verbose: bool,
}

impl Listener {
    /// A listener with the given verbosity.
    pub fn new(verbose: bool) -> (l: Listener)
        ensures
            l.verbose == verbose,
    {
        Listener { verbose }
    }
}

impl Default for Listener {
    fn default() -> (l: Self)
        ensures
            !l.verbose,
    {
        Listener::new(false)
    }
}

} // verus!
