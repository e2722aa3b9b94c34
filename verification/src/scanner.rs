//! How a search walks: which entries are reported, how names and contents
//! are tested, and when buffered output is handed on.

use vstd::prelude::*;

use crate::cli::Args;
use crate::matcher::PatternMatcher;

verus! {

/// Output buffered per batch before it is handed to the printer.
pub const BATCH_CAPACITY: usize = 32 * 1024;

/// Output buffered per record when writing to a terminal.
pub const STREAM_CAPACITY: usize = 512;

/// Entries counted between limit checks when no limit is set.
pub const PROGRESS_INTERVAL: u64 = 256;

/// The threads used when the machine's parallelism cannot be read.
pub const FALLBACK_THREADS: usize = 4;

/// How a search walks the file system.
pub struct SearchConfig {
    pub threads: usize,
    pub max_depth: usize,
    pub progress_interval: u64,
    pub files_only: bool,
    pub dirs_only: bool,
    pub resolve_symlinks: bool,
    pub stream: bool,
}

impl SearchConfig {
    /// The walk a search asks for. `available_threads` is the machine's
    /// parallelism when it could be read (a parallelism is never zero; a
    /// zero is taken as unread); `stdout_is_terminal` says whether
    /// results go to a terminal, where they are streamed record by record.
    pub fn from_args(
        args: &Args,
        available_threads: Option<usize>,
        stdout_is_terminal: bool,
    ) -> (config: Self)
        ensures
            config.threads == (match args.threads {
                Some(n) if n > 0 => n,
                _ => match available_threads {
                    Some(n) if n > 0 => n,
                    _ => FALLBACK_THREADS,
                },
            }),
            config.max_depth == (match args.max_depth {
                Some(d) => d,
                None => usize::MAX,
            }),
            config.progress_interval == if args.limit_found is Some || args.limit_scanned is Some {
                1
            } else {
                PROGRESS_INTERVAL
            },
            config.files_only == args.files_only,
            config.dirs_only == args.dirs_only,
            config.resolve_symlinks == (args.files_only || args.dirs_only || args.content_search),
            config.stream == stdout_is_terminal,
    {
        let threads = match args.threads {
            Some(n) if n > 0 => n,
            _ => match available_threads {
                Some(n) if n > 0 => n,
                _ => FALLBACK_THREADS,
            },
        };
        Self {
            threads,
            max_depth: match args.max_depth {
                Some(d) => d,
                None => usize::MAX,
            },
            progress_interval: if args.limit_found.is_some() || args.limit_scanned.is_some() {
                1
            } else {
                PROGRESS_INTERVAL
            },
            files_only: args.files_only,
            dirs_only: args.dirs_only,
            resolve_symlinks: args.files_only || args.dirs_only || args.content_search,
            stream: stdout_is_terminal,
        }
    }

    /// Whether an entry of this kind is reported at all.
    pub fn should_include(&self, is_dir: bool) -> (r: bool)
        ensures
            r == if is_dir {
                !self.files_only
            } else {
                !self.dirs_only
            },
    {
        if is_dir {
            !self.files_only
        } else {
            !self.dirs_only
        }
    }

    /// Whether the entries of a directory at `depth` are walked into: only
    /// above the maximum depth (the roots are at depth 0).
    pub fn should_descend(&self, depth: usize) -> (r: bool)
        ensures
            r == (depth < self.max_depth),
    {
        depth < self.max_depth
    }

    /// Whether the scanned count is due to be reported and the limits
    /// checked, after `scanned` entries of a directory since the last report.
    pub fn progress_due(&self, scanned: u64) -> (r: bool)
        ensures
            r == (scanned == self.progress_interval),
    {
        scanned == self.progress_interval
    }

    /// Counts one more entry of a directory, `scanned` being the entries
    /// counted since the last report. Gives the new count and, when a
    /// report is due, the count to report; the count then starts again
    /// from zero.
    pub fn count_entry(&self, scanned: u64) -> (r: (u64, Option<u64>))
        requires
            scanned < u64::MAX,
        ensures
            r == if scanned + 1 == self.progress_interval {
                (0u64, Some((scanned + 1) as u64))
            } else {
                ((scanned + 1) as u64, None::<u64>)
            },
    {
        let next = scanned + 1;
        if self.progress_due(next) {
            (0, Some(next))
        } else {
            (next, None)
        }
    }

    /// Whether an entry's kind is read from what a symbolic link points to,
    /// rather than from the link itself.
    pub fn follows_link(&self, is_symlink: bool) -> (r: bool)
        ensures
            r == (is_symlink && self.resolve_symlinks),
    {
        is_symlink && self.resolve_symlinks
    }

    /// Whether buffered output is handed on now: at once when streaming,
    /// else once a batch is full.
    pub fn should_flush(&self, buffered: usize) -> (r: bool)
        ensures
            r == (self.stream || buffered >= BATCH_CAPACITY),
    {
        self.stream || buffered >= BATCH_CAPACITY
    }

    /// The buffer to reserve for a batch.
    pub fn batch_capacity(&self) -> (r: usize)
        ensures
            r == if self.stream {
                STREAM_CAPACITY
            } else {
                BATCH_CAPACITY
            },
    {
        if self.stream {
            STREAM_CAPACITY
        } else {
            BATCH_CAPACITY
        }
    }
}

/// What becomes of an entry once its kind and name are known.
#[derive(Debug, Clone, Copy, PartialEq, Eq, Structural)]
pub enum EntryDecision {
    /// Not reported.
    Skip,
    /// Reported: its name matches.
    Report,
    /// A file whose name does not match: reported if its content matches.
    CheckContent,
}

/// The decision on an entry from its kind and name: entries of an excluded
/// kind are skipped, matching names are reported, and files whose names do
/// not match are left to their content.
pub fn decide_entry(
    config: &SearchConfig,
    matcher: &PatternMatcher,
    name: &str,
    is_dir: bool,
) -> (decision: EntryDecision)
    ensures
        decision == if !(if is_dir {
            !config.files_only
        } else {
            !config.dirs_only
        }) {
            EntryDecision::Skip
        } else if matcher@.name_matches(name@) {
            EntryDecision::Report
        } else if !is_dir {
            EntryDecision::CheckContent
        } else {
            EntryDecision::Skip
        },
{
    if !config.should_include(is_dir) {
        return EntryDecision::Skip;
    }
    if matcher.matches(name) {
        EntryDecision::Report
    } else if !is_dir {
        EntryDecision::CheckContent
    } else {
        EntryDecision::Skip
    }
}

} // verus!
