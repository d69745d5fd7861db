//! Roots of polynomial equations from the Hyper-Catalan series.
//!
//! The verified core: subdigon types and their counts, exact Hyper-Catalan
//! numbers with a memo cache, and the enumeration of the types that make up
//! each degree of the series.
pub mod calculator;
pub mod exact;
pub mod solver;
pub mod subdigon;

pub use calculator::HyperCatalanCalculator;
pub use solver::{HyperCatalanPolynomialSolver, SolveError};
pub use subdigon::SubdigonType;
