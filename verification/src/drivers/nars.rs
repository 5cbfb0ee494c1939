//! NARS inference vocabulary.

use vstd::prelude::*;

verus! {

/// Which NARS inference rule was applied.
#[derive(Debug, Clone, Copy, PartialEq, Eq, Structural)]
pub enum NarsRule {
    /// Combined independent evidence from several matches.
    Revision,
    /// Inferred cause from a mode switch.
    Abduction,
    /// Similarity judgment from two uncertain matches.
    Comparison,
    /// Direct evidence from a single match.
    Direct,
}

} // verus!
