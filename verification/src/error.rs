//! The ways in which a run can fail.

use vstd::prelude::*;

verus! {

/// Why a run was abandoned. Every failure is final: nothing is retried.
#[derive(Clone, Copy, Debug, PartialEq, Eq, Structural)]
pub enum EmbeddingError {
    /// A corpus record lacks a field.
    Data,
    /// No term reaches the frequency threshold.
    EmptyVocabulary,
    /// A number left the range in which the computation is meaningful.
    NumericInstability,
    /// A covariance worker failed.
    ConcurrencyFailure,
}

} // verus!
