//! A byte-keyed hash table with separate chaining and automatic growth.

pub mod chain;
pub mod growth;
pub mod hashing;
pub mod laws;
pub mod model;
pub mod table;
