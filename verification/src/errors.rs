//! Errors of shard operations.
use vstd::prelude::*;

verus! {

/// What a shard operation can fail with.
#[derive(Debug, Clone, Copy, PartialEq, Eq, Structural)]
pub enum ShardErrors {
    UnknownOffset,
    ErrorReadingByteRange,
    OutOfPositions,
    FlushingError,
    FailedUpdate,
    FailedDeletion,
    UnknownEntry,
    ErrorAddingEntry,
    OutOfRange,
    UnknownShard,
    InvalidLocking,
}

impl ShardErrors {
    pub fn is_out_of_positions(&self) -> (r: bool)
        ensures
            r == (*self is OutOfPositions),
    {
        matches!(self, ShardErrors::OutOfPositions)
    }

    pub fn is_failed_deletion(&self) -> (r: bool)
        ensures
            r == (*self is FailedDeletion),
    {
        matches!(self, ShardErrors::FailedDeletion)
    }

    pub fn is_unknown_offset(&self) -> (r: bool)
        ensures
            r == (*self is UnknownOffset),
    {
        matches!(self, ShardErrors::UnknownOffset)
    }
}

} // verus!
