//! The failures a caller can see.

use vstd::prelude::*;
use crate::rational::Ratio;

verus! {

/// Everything that can go wrong while building measurements, fitting a model,
/// or querying one.
#[derive(Clone, Copy, Debug)]
pub enum UslError {
    /// Fewer measurements were supplied than a three-parameter fit needs.
    InsufficientData,
    /// The least-squares pass gave up; the best parameters it reached and the
    /// number of iterations it spent are kept for diagnostics.
    NonConvergence {
        /// Best contention coefficient reached.
        sigma: Ratio,
        /// Best coherency coefficient reached.
        kappa: Ratio,
        /// Best throughput coefficient reached.
        lambda: Ratio,
        /// Iterations spent before giving up.
        iterations: u32,
    },
    /// An analytic query was asked in a regime where its formula has no
    /// value, such as a vanishing denominator.
    UndefinedQuery,
    /// A measurement was built from a quantity outside its domain, such as a
    /// zero latency where a division by it is needed.
    DomainError,
    /// An exact result exists but does not fit the machine representation.
    Unrepresentable,
}

impl UslError {
    /// A short name for the error, for reporting.
    pub fn describe(&self) -> (r: &'static str)
        ensures
            r@ =~= match self {
                UslError::InsufficientData => "insufficient data"@,
                UslError::NonConvergence { .. } => "no convergence"@,
                UslError::UndefinedQuery => "undefined query"@,
                UslError::DomainError => "domain error"@,
                UslError::Unrepresentable => "unrepresentable"@,
            },
    {
        match self {
            UslError::InsufficientData => "insufficient data",
            UslError::NonConvergence { .. } => "no convergence",
            UslError::UndefinedQuery => "undefined query",
            UslError::DomainError => "domain error",
            UslError::Unrepresentable => "unrepresentable",
        }
    }
}

} // verus!
