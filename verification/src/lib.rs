//! Universal Scalability Law models over exact rational arithmetic.
//!
//! A [`rational::Ratio`] is an exact fraction of two machine integers. A
//! [`measurement::Measurement`] is a triple of concurrency, throughput and
//! latency that satisfies Little's Law exactly. A [`model::Model`] holds the
//! three USL coefficients and answers the analytic queries of the model; the
//! pieces of the least-squares fit that decide and compute — validation,
//! the initial guess, and the residual evaluator — live in [`fit`].

pub mod error;
pub mod fit;
pub mod laws;
pub mod measurement;
pub mod model;
pub mod rational;

pub use error::UslError;
pub use fit::MIN_MEASUREMENTS;
pub use measurement::Measurement;
pub use model::Model;
pub use rational::Ratio;
