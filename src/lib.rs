//! A line-oriented text search library: splits text into records, finds
//! the records that hold (or lack) a query, counts occurrences, and builds
//! word-frequency statistics.
pub mod config;
pub mod fold;
pub mod laws;
pub mod lines;
pub mod matching;
pub mod search;
pub mod stats;
