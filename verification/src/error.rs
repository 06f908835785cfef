//! The one failure the pipeline can report.

use vstd::prelude::*;

verus! {

/// Construction of the scanning cursor is the only fallible operation: it
/// refuses inputs whose byte length exceeds the addressable offset range.
#[derive(Debug, Clone, Copy, PartialEq, Eq, Structural)]
pub enum Error {
    InputTooLarge { limit: usize, actual: usize },
}

} // verus!
