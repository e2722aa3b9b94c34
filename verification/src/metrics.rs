//! Search limits: when a search stops, and how a found entry is counted
//! against the limit.

use vstd::prelude::*;

use crate::cli::Args;
use crate::utils::{iso_timestamp, write_byte, write_bytes, write_timestamp};

verus! {

/// Optional caps on the number of found and of scanned entries.
pub struct SearchLimits {
    pub found: Option<u64>,
    pub scanned: Option<u64>,
}

/// What a limit check decides.
#[derive(Debug, Clone, Copy, PartialEq, Eq, Structural)]
pub enum LimitCheck {
    /// Keep searching.
    Continue,
    /// Stop; the search was already shutting down.
    Stop,
    /// Stop, and shut the whole search down: a limit has been reached.
    StopAndShutdown,
}

impl SearchLimits {
    pub fn from_args(args: &Args) -> (limits: Self)
        ensures
            limits.found == args.limit_found,
            limits.scanned == args.limit_scanned,
    {
        Self { found: args.limit_found, scanned: args.limit_scanned }
    }

    pub fn found_limit(&self) -> (limit: Option<u64>)
        ensures
            limit == self.found,
    {
        self.found
    }

    /// Whether the search goes on, given whether it is shutting down and
    /// how many entries have been found and scanned so far. A search stops
    /// once either count reaches its limit, and then shuts down.
    pub fn should_continue(&self, shutdown: bool, found: u64, scanned: u64) -> (check: LimitCheck)
        ensures
            check == if shutdown {
                LimitCheck::Stop
            } else if (self.found matches Some(limit) && found >= limit) || (
            self.scanned matches Some(limit) && scanned >= limit) {
                LimitCheck::StopAndShutdown
            } else {
                LimitCheck::Continue
            },
    {
        if shutdown {
            return LimitCheck::Stop;
        }
        if let Some(limit) = self.found {
            if found >= limit {
                return LimitCheck::StopAndShutdown;
            }
        }
        if let Some(limit) = self.scanned {
            if scanned >= limit {
                return LimitCheck::StopAndShutdown;
            }
        }
        LimitCheck::Continue
    }
}

/// The count after one more found entry, or `None` when the limit has
/// been reached.
pub open spec fn claim_next(found: u64, limit: u64) -> Option<u64> {
    if found < limit {
        Some((found + 1) as u64)
    } else {
        None
    }
}

/// One attempt to count a found entry against a limit: the new count, or
/// `None` when the limit has been reached and the entry must not be
/// reported.
pub fn claim_step(found: u64, limit: u64) -> (next: Option<u64>)
    ensures
        next == claim_next(found, limit),
{
    if found < limit {
        Some(found + 1)
    } else {
        None
    }
}

/// Counting found entries only through `claim_next` never takes the count
/// past the limit: a count within the limit stays within it, and an entry
/// is refused exactly when the limit has been reached.
pub proof fn lemma_found_stays_within_limit(found: u64, limit: u64)
    requires
        found <= limit,
    ensures
        claim_next(found, limit) matches Some(next) ==> next == found + 1 && next <= limit,
        claim_next(found, limit) is None <==> found == limit,
{
}

/// Whether an I/O error met by the walk is counted and logged: a refused
/// permission is passed over silently, any other error is not.
pub fn records_error(permission_denied: bool) -> (r: bool)
    ensures
        r == !permission_denied,
{
    !permission_denied
}

/// A line of the error log: `[timestamp] path: message`.
pub open spec fn error_line(timestamp: nat, path: Seq<u8>, message: Seq<u8>) -> Seq<u8> {
    seq![91u8] + iso_timestamp(timestamp) + seq![93u8, 32u8] + path + seq![58u8, 32u8] + message
        + seq![10u8]
}

/// Appends a line of the error log.
pub fn write_error_line(out: &mut Vec<u8>, timestamp: u64, path: &[u8], message: &[u8])
    ensures
        final(out)@ == old(out)@ + error_line(timestamp as nat, path@, message@),
{
    write_byte(out, 91);
    write_timestamp(out, timestamp);
    write_byte(out, 93);
    write_byte(out, 32);
    write_bytes(out, path);
    write_byte(out, 58);
    write_byte(out, 32);
    write_bytes(out, message);
    write_byte(out, 10);
    assert(out@ =~= old(out)@ + error_line(timestamp as nat, path@, message@));
}

} // verus!
