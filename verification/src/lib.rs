//! A file search library: name, content and fuzzy matching, search limits,
//! and the CSV and text records that describe what a search found.

pub mod utils;
pub mod calendar;
pub mod levenshtein;
pub mod bytesearch;
pub mod text;
pub mod cli;
pub mod matcher;
pub mod output;
pub mod metrics;
pub mod scanner;
pub mod paths;
pub mod file_info;
