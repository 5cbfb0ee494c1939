//! Barrier stack vocabulary shared with the meta-uncertainty layer.

use vstd::prelude::*;

verus! {

/// Why the meta-uncertainty layer blocked an action.
#[derive(Debug, Clone, Copy, PartialEq, Eq, Structural)]
pub enum MulBlockReason {
    /// Overconfidence with little competence.
    MountStupid,
    /// The problem's complexity is not mapped.
    ComplexityUnmapped,
    /// Resources are depleted.
    Depleted,
    /// Trust is insufficient.
    TrustInsufficient,
    /// Apparent flow that is not real.
    FalseFlow,
    /// The free-will modifier is too low.
    LowFreeWill,
}

} // verus!
