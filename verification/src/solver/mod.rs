//! The CDCL search: propagation, conflict analysis and clause learning.
pub mod propagate;
pub mod conflict;
pub mod restart;
pub mod proof_log;
pub mod learn;
pub mod search;
pub mod maxsat;

pub use search::{SolveResult, SolverStats};
