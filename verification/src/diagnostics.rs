//! What a maintenance pass reports besides its counts.

use vstd::prelude::*;

verus! {

/// A fault in one record or one rule. The pass goes on; the fault is put
/// on record.
#[derive(Clone, Copy, Debug, PartialEq, Eq, Structural)]
pub enum Diagnostic {
    /// The day or the amount of the operation cannot be read, so it has no
    /// fingerprint and was left out of duplicate detection.
    UnreadableOperation { id: u32 },
    /// The pattern of the rule is no valid regular expression, so the rule
    /// matched nothing.
    InvalidPattern { rule_id: u32 },
}

} // verus!
