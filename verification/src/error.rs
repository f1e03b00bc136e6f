//! Errors of the external collaborators, as the library records them.

use vstd::prelude::*;

verus! {

/// The translation engine failed for a whole batch.
#[derive(Debug, Clone, PartialEq, Eq)]
pub struct EngineError {
    /// What the engine reported.
    pub message: String,
}

} // verus!
