//! The library's error type.
use vstd::prelude::*;

use crate::position::{LogHeight, LogSize};

verus! {

/// What can go wrong in a log or a client.
#[derive(PartialEq, Eq, Structural, Clone, Copy, Debug)]
pub enum LogError {
    /// The store behind a log failed to read or write.
    BackendIo,
    /// A hash was asked for at a level that holds none.
    InvalidHeight(LogHeight),
    /// A hash was asked for past the end of its level.
    InvalidIndex(LogHeight, LogSize),
    /// A record could not be encoded or decoded.
    Codec,
    /// A prefix proof was asked for between sizes `m`, `n` without `0 < m < n`.
    Precondition,
}

} // verus!
