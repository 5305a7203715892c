//! An in-process, byte-bounded cache with approximate recency-based eviction.
//!
//! Recency is tracked by generations of buckets (`history`), which the byte
//! store (`mem`) drains when it needs room.
pub mod model;
pub mod history;
pub mod mem;
pub mod path;

use vstd::prelude::*;

verus! {

/// Outcome of storing a value.
#[derive(Debug, PartialEq, Eq, Structural)]
pub enum StoreResult {
    Stored,
    OutOfMemory,
}

/// Why a reader for a cached value could not be made.
#[derive(Debug)]
pub enum CreateReaderError {
    NotFound,
}

/// Why a writer for a cached value could not be made.
#[derive(Debug)]
pub enum CreateWriterError {
    OutOfMemory,
}

/// Values that know how many bytes they take in a cache.
pub trait RequiredBytes {
    spec fn spec_required_bytes(&self) -> u64;

    fn required_bytes(&self) -> (r: u64)
        ensures
            r == self.spec_required_bytes(),
    ;
}

impl RequiredBytes for Vec<u8> {
    open spec fn spec_required_bytes(&self) -> u64 {
        self@.len() as u64
    }

    fn required_bytes(&self) -> (r: u64) {
        self.len() as u64
    }
}

} // verus!
