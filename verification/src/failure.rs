//! The kinds of failure of a socket that decisions are made by.

use vstd::prelude::*;

verus! {

/// Why an operation on a socket failed.
#[derive(Debug, Clone, Copy, PartialEq, Eq, Structural)]
pub enum Failure {
    AlreadyExists,
    BrokenPipe,
    ConnectionAborted,
    ConnectionRefused,
    ConnectionReset,
    NotConnected,
    TimedOut,
    WouldBlock,
    WriteZero,
    /// Any other reason.
    Other,
}

} // verus!
