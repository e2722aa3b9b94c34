//! The search request as given on the command line.

use vstd::prelude::*;

verus! {

/// Everything a search is asked to do: patterns, where to look, limits,
/// matching modes and output format.
#[derive(Clone, Debug)]
pub struct Args {
    /// Search patterns; an entry matches when it matches any of them.
    pub patterns: Vec<String>,
    /// Search roots; when empty the platform's default roots are searched.
    pub path: Vec<String>,
    /// Stop after this many matches.
    pub limit_found: Option<u64>,
    /// Stop after this many scanned entries.
    pub limit_scanned: Option<u64>,
    /// Worker threads; detected from the machine when absent or zero.
    pub threads: Option<usize>,
    /// Maximum directory depth.
    pub max_depth: Option<usize>,
    /// Match names and contents ignoring case.
    pub case_insensitive: bool,
    /// Report files only.
    pub files_only: bool,
    /// Report directories only.
    pub dirs_only: bool,
    /// Leave the error count out of the summary.
    pub hide_errors: bool,
    /// Also match words within a Levenshtein distance of a pattern.
    pub fuzzy: bool,
    /// The largest Levenshtein distance that fuzzy matching accepts.
    pub fuzzy_threshold: usize,
    /// Write CSV records instead of paths.
    pub api: bool,
    /// Also match file contents.
    pub content_search: bool,
    /// The largest file, in bytes, whose content is searched.
    pub max_content_size: u64,
}

} // verus!
