//! Merging the batches of concurrent proposers into one block.

pub mod admission;
pub mod batches;
pub mod common_highest;
pub mod common_highest_laws;
pub mod cycling;
pub mod cycling_highest;
pub mod cycling_highest_laws;
pub mod cycling_laws;
pub mod decisions;
pub mod fees;
pub mod outcome;
