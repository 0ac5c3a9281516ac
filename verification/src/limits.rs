//! Input bounds enforced at the boundary, before the store is touched.
//!
//! The accepted TTL range and the maximum payload size are deployment
//! parameters, not store invariants: the checks take them as arguments,
//! and the constants here are the defaults a deployment starts from.

use vstd::prelude::*;

verus! {

/// The default lower bound on a requested TTL, in seconds.
pub const MIN_EXPIRATION_SECONDS: u64 = 60;

/// The default upper bound on a requested TTL: thirty days in seconds.
pub const MAX_EXPIRATION_SECONDS: u64 = 2592000;

/// Whether a requested TTL lies within the accepted range.
pub fn expiration_in_range(expiration: u64, min: u64, max: u64) -> (b: bool)
    ensures
        b == (min <= expiration && expiration <= max),
{
    min <= expiration && expiration <= max
}

/// Whether a base64 payload of `data_len` bytes can hold a file within
/// the size bound: base64 grows data by a third, so the text may reach
/// `max_file_size_bytes * 4 / 3`, plus a little slack for padding.
pub fn file_size_ok(data_len: usize, max_file_size_bytes: usize) -> (b: bool)
    requires
        max_file_size_bytes <= usize::MAX / 4,
    ensures
        b == (data_len <= max_file_size_bytes * 4 / 3 + 4),
{
    data_len <= max_file_size_bytes * 4 / 3 + 4
}

} // verus!
