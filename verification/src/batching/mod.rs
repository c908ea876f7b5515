//! Building a batch out of registered transactions.

pub mod answer_laws;
pub mod assembly;
pub mod batch_laws;
pub mod builder;
pub mod dependencies;
pub mod dependency_laws;
pub mod execution_laws;
pub mod locality;
pub mod pool_laws;
pub mod price_laws;
pub mod pricing;
pub mod questions;
pub mod validity_laws;
