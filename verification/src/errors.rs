//! The store's failure conditions.
//!
//! The verified logic itself produces only `NotADirectory`, `Encoding` and
//! `Decoding`; operating-system failures are reported, with the original
//! error value, by the unverified shell that performs the filesystem calls.

use vstd::prelude::*;

verus! {

/// What a store operation can report.
#[derive(Clone, Copy, Debug, PartialEq, Eq, Structural)]
pub enum Error {
    /// The open target does not exist or is not a directory.
    NotADirectory,
    /// The key could not be turned into its filename form.
    Encoding,
    /// A prefixed filename could not be parsed back to a key; enumeration
    /// stops there rather than pass over possibly corrupt state.
    Decoding,
}

} // verus!
