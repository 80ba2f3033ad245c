//! Checking DRAT proofs of unsatisfiability.
pub mod checker;

pub use checker::{DratVerifier, VerifyResult, VerifyStats};
