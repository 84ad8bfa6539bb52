//! A substring search library over a file tree.
//!
//! A search request holds a query string, a root path and a case flag.
//! The traversal turns the root into a flat list of regular-file paths,
//! driven step by step by filesystem observations handed in by the caller;
//! the matcher splits a file's text into lines and reports each line that
//! contains the query, exactly or after case folding; the scan driver runs
//! the matcher over every file and tallies the matches.

pub mod config;
pub mod fold;
pub mod matcher;
pub mod scan;
pub mod text;
pub mod traverse;
