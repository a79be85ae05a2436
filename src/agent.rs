//! What an agent does when the broker closes its transport.
use vstd::prelude::*;

verus! {

/// The close code by which the broker says it shuts down for good.
pub const CLOSE_NORMAL: u16 = 1000;

/// The close code by which the broker says it restarts.
pub const CLOSE_RESTART: u16 = 1012;

/// The longest wait between two connection attempts, in seconds.
pub const MAX_BACKOFF_SECS: u64 = 60;

/// An agent's next step after its transport closed.
#[derive(Debug, PartialEq, Eq, Structural)]
pub enum AfterClose {
    /// Connect again.
    Reconnect,
    /// Stop: the broker shut down normally.
    Exit,
}

/// The step after a close with `code` (`None`: closed without a code). Only
/// a normal close ends the agent; a restart or any other code, or none,
/// makes it reconnect.
pub fn after_close(code: Option<u16>) -> (r: AfterClose)
    ensures
        r == (if code == Some(CLOSE_NORMAL) {
            AfterClose::Exit
        } else {
            AfterClose::Reconnect
        }),
{
    match code {
        Some(c) => if c == CLOSE_NORMAL {
            AfterClose::Exit
        } else {
            AfterClose::Reconnect
        },
        None => AfterClose::Reconnect,
    }
}

/// The wait before the next connection attempt, after waiting `prev`
/// seconds before this one: doubled, at least one second, at most
/// `MAX_BACKOFF_SECS`.
pub fn next_backoff(prev: u64) -> (r: u64)
    ensures
        r == (if prev == 0 {
            1
        } else if prev >= MAX_BACKOFF_SECS / 2 {
            MAX_BACKOFF_SECS as int
        } else {
            2 * prev
        }),
{
    if prev == 0 {
        1
    } else if prev >= MAX_BACKOFF_SECS / 2 {
        MAX_BACKOFF_SECS
    } else {
        2 * prev
    }
}

} // verus!
