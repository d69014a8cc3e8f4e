//! Pooled-capital yield vault: share accounting, target-ratio allocation
//! across yield venues, and the vault operations that tie them together.

pub mod allocation;
pub mod error;
pub mod ledger;
pub mod math;
pub mod seqsum;
pub mod vault;
pub mod venue;
