//! A character-level, variable-order Markov text model.
//!
//! The library builds a pruned, order-indexed frequency table from a corpus
//! of characters, discovering the highest order worth modeling, and answers
//! "what character may follow this context?" by weighted sampling with a
//! verbatim-search fallback.

pub mod contexts;
pub mod corpus;
pub mod generator;
pub mod laws;
pub mod randomness;
pub mod stats;
pub mod table;
pub mod words;
