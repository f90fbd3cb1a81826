//! A small in-memory fuzzy and phonetic search index over named documents,
//! each carrying a list of aliases.

pub mod tokenize;
pub mod text;
pub mod order;
pub mod priority;
pub mod cache;
pub mod index;
pub mod query;
pub mod search;
pub mod rank;
pub mod engine;
pub mod persist;
