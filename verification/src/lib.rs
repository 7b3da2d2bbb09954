//! Core logic of a presence-tracking service: a write-through cached store of
//! per-channel game and target lists, the periodic tracking cycle that locates
//! watched targets in public game servers, the update cycle that diffs and
//! publishes per-channel status messages, and the supporting policies
//! (rate limits, retry schedules, batching, rolling statistics).
//!
//! Everything here is executable and verified; the asynchronous plumbing that
//! drives these state machines (HTTP, database, chat client) lives outside.

pub mod collections;
pub mod concurrent;
pub mod constants;
pub mod database;
pub mod facade;
pub mod parse;
pub mod ratelimit;
pub mod render;
pub mod retry;
pub mod stats;
pub mod text;
pub mod tracking;
pub mod update;

use vstd::prelude::*;

verus! {

/// Outcome classification shown to the command surface: an expected failure
/// carries a user-readable message, an unexpected one carries diagnostics.
pub enum CommandError {
    Expected(String),
    Unexpected(String),
}

impl CommandError {
    /// The text a user sees for this error, mirroring how the command surface
    /// reports expected and unexpected failures.
    pub fn user_message(&self) -> (r: String)
        ensures
            self matches CommandError::Expected(m) ==> r@ == m@,
            self matches CommandError::Unexpected(m) ==> r@
                == "This command encountered an unexpected error:\n "@ + m@,
    {
        match self {
            CommandError::Expected(msg) => msg.clone(),
            CommandError::Unexpected(msg) => {
                let mut r = String::new();
                r.append("This command encountered an unexpected error:\n ");
                r.append(msg.as_str());
                proof {
                    assert(r@ =~= "This command encountered an unexpected error:\n "@ + msg@);
                }
                r
            },
        }
    }
}

} // verus!
