//! Values that are system dependent.
use vstd::prelude::*;

verus! {

/// Block size in bytes (4 KiB).
pub const BLOCK_SIZE: usize = 4096;

/// Microseconds to wait for the clock to advance far enough that a newly
/// generated log file name is unique; at least the timer resolution.
pub const WAIT_FOR_NEW_NAME: u64 = 100;

/// Maximum number of retries for the clock to advance far enough that a
/// new name is generated.
pub const MAX_RETRIES: u32 = 10;

/// System timer resolution in nanoseconds (positive).
pub const TIMER_RESOLUTION_NS: u64 = 1;

} // verus!
