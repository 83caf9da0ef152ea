//! Maximum-entropy distributions over discrete variables under exclusion
//! constraints.
//!
//! The library owns the discrete side of the computation: the constraint
//! model, the construction of the KKT unknown-variable graph (primal joint
//! probabilities plus normalization and marginal-consistency multipliers),
//! the coefficient structure of the Jacobian of the stationarity system, the
//! index sets over which marginals are summed, and the decomposition of a
//! problem into independent sub-problems. The floating-point Newton solve
//! that consumes these structures lives with the caller.

pub mod alchemy;
pub mod solver;
