use vstd::prelude::*;

verus! {

/// Errors reported by the library.
///
/// The core has a single kind, `ComputeError`: a zero at-risk count, more
/// events than subjects at risk, mismatched array lengths and empty
/// required input. Its message tells bad input shape from degenerate
/// statistical input.
#[derive(Debug, PartialEq, Eq)]
pub enum EpiRustError {
    ComputeError(String),
}

impl EpiRustError {
    /// A human-readable description of the error.
    pub fn message(&self) -> (r: String)
        ensures
            r@ == match self {
                EpiRustError::ComputeError(m) => m@,
            },
    {
        match self {
            EpiRustError::ComputeError(m) => m.clone(),
        }
    }
}

} // verus!
