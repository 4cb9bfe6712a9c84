//! Bounded little-endian readers for the validated geometry profile.

use vstd::prelude::*;
use crate::bytes::{le_u32, le_u64, read_u32, read_u64};

verus! {

/// The read ran past the end of the buffer.
#[derive(Debug, Clone, Copy, PartialEq, Eq, Structural)]
pub enum IndexError {
    TruncatedU32,
    TruncatedU64,
}

/// The `u32` at `p`, or an error when fewer than four bytes remain.
pub fn u32_at(b: &[u8], p: usize) -> (r: Result<u32, IndexError>)
    ensures
        match r {
            Ok(v) => p + 4 <= b@.len() && v == le_u32(b@, p as int),
            Err(e) => p + 4 > b@.len() && e == IndexError::TruncatedU32,
        },
{
    match read_u32(b, p) {
        Some(v) => Ok(v),
        None => Err(IndexError::TruncatedU32),
    }
}

/// The `u64` at `p`, or an error when fewer than eight bytes remain.
pub fn u64_at(b: &[u8], p: usize) -> (r: Result<u64, IndexError>)
    ensures
        match r {
            Ok(v) => p + 8 <= b@.len() && v == le_u64(b@, p as int),
            Err(e) => p + 8 > b@.len() && e == IndexError::TruncatedU64,
        },
{
    match read_u64(b, p) {
        Some(v) => Ok(v),
        None => Err(IndexError::TruncatedU64),
    }
}

} // verus!
