//! Core of a prompt-corpus curation tool.
//!
//! The library stores a corpus of unique free-text prompts, detects
//! near-duplicate pairs by lexical token-set overlap, drives an operator
//! review workflow over the detected pairs, and computes dry-run
//! find-and-replace substitutions over the whole corpus.
//!
//! Similarity values are exact rationals (an intersection count over a
//! union count), so every comparison and ordering used by the engine is
//! total and proved free of the pitfalls of approximate arithmetic.

pub mod text;
pub mod similarity;
pub mod store;
pub mod dedup;
pub mod replace;
pub mod ingest;
