//! A minimal line-oriented substring search library.
//!
//! Given a query string and the full text of an input, the library splits the
//! text into lines, keeps the lines that contain the query (exactly, or after
//! simple per-character lowercasing), and splits each kept line into
//! whitespace-delimited words with the first occurrence of the query marked
//! for emphasis.

pub mod highlight;
pub mod laws;
pub mod lines;
pub mod search;
pub mod text;
