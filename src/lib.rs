//! Static scheduling analysis for a sequence of contract transactions: each
//! transaction's predicted storage footprint yields the hazards that order it
//! after earlier ones, collected into a dependency DAG and flattened into a
//! canonical edge list.

pub mod builder;
pub mod engine;
pub mod hex;
pub mod input;
pub mod registry;
pub mod traversal;
pub mod types;
