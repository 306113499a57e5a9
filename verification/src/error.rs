//! The failures that the store reports.

use vstd::prelude::*;

verus! {

/// Why an operation on the store failed.
#[derive(Debug, Clone, Copy, PartialEq, Eq, Structural)]
pub enum KvsError {
    /// A stream could not take or give the bytes asked of it.
    Io,
    /// Log bytes did not decode as a record, or not as the record expected.
    Corruption,
    /// `remove` was asked for a key that the index does not hold.
    KeyNotFound,
    /// The directory cannot serve as the root of a store.
    InvalidDirectory,
}

} // verus!
