//! Why a cache could not be made.

use crate::hash_index::ReserveError;
use vstd::prelude::*;

verus! {

/// The error of a constructor that does not panic.
#[derive(Clone, Copy, Debug, PartialEq, Eq, Structural)]
pub enum SizeError {
    /// The size asked for is zero, or more than a hash table can have.
    InvalidArgument,
    /// The memory for the table could not be had.
    ResourceExhausted,
}

/// The operating system's number for "invalid argument".
pub const EINVAL: i32 = 22;

/// The operating system's number for "out of memory".
pub const ENOMEM: i32 = 12;

impl SizeError {
    /// The error that stands for a failed reservation: a capacity that
    /// overflows is an invalid argument, a refusal of the allocator is
    /// exhaustion.
    pub fn from_reserve(e: ReserveError) -> (err: SizeError)
        ensures
            err == (match e {
                ReserveError::CapacityOverflow => SizeError::InvalidArgument,
                ReserveError::AllocError => SizeError::ResourceExhausted,
            }),
    {
        match e {
            ReserveError::CapacityOverflow => SizeError::InvalidArgument,
            ReserveError::AllocError => SizeError::ResourceExhausted,
        }
    }

    /// The operating system's error number that says the same.
    pub fn raw_os_error(&self) -> (code: Option<i32>)
        ensures
            code == Some(
                match *self {
                    SizeError::InvalidArgument => EINVAL,
                    SizeError::ResourceExhausted => ENOMEM,
                },
            ),
    {
        match self {
            SizeError::InvalidArgument => Some(EINVAL),
            SizeError::ResourceExhausted => Some(ENOMEM),
        }
    }
}

} // verus!
