//! Building blocks out of the batches of concurrent proposers.

pub mod backend;
pub mod batching;
pub mod concurrent_proposer;
pub mod execution_state;
pub mod fixed_bytes;
pub mod num;
pub mod register_laws;
pub mod simulation;
pub mod simulation_laws;
pub mod table;
pub mod text;
pub mod trace;
pub mod trace_laws;
pub mod transaction;
pub mod transaction_register;
