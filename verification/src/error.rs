//! The unrecoverable error classes of the sort: every one of them is fatal at
//! the point of detection, there is no retry and no partial recovery.

use vstd::prelude::*;

verus! {

/// Why a step of the sort failed.
#[derive(Clone, Copy, Debug, PartialEq, Eq, Structural)]
pub enum SortError {
    /// The input byte length is not a multiple of the 100-byte record size.
    UnalignedInput,
    /// A bucket's fixed backing store would exceed its allocated slot before a
    /// flush; indicates a block size misconfigured for the key distribution.
    CapacityExceeded,
    /// A message violated the manager/worker protocol: data where the stream
    /// had ended, an end-of-stream where data was expected, or a payload that
    /// does not carry whole records of a single bucket.
    ProtocolViolation,
}

impl SortError {
    /// A short human-readable description of the error.
    pub fn describe(&self) -> (r: &'static str)
    {
        match self {
            SortError::UnalignedInput => "input length is not a multiple of the record size",
            SortError::CapacityExceeded => "a bucket overran its backing store before a flush",
            SortError::ProtocolViolation => "a message violated the manager/worker protocol",
        }
    }
}

} // verus!
