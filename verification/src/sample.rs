//! Settings and summary of the sample log chain: small ASCII messages in
//! small segment files, so that the chain rolls over several times.
use vstd::prelude::*;

verus! {

/// Maximum size in bytes of any single segment file of the sample chain.
pub const SEG_SIZE_MAX: u32 = 100;

/// Number of messages written to the sample chain.
pub const MAX_MESSAGES: u64 = 20;

/// Summary of a created sample log chain.
pub struct SampleLogs {
    /// Base name of the first (root) segment file in the chain.
    pub root_file: String,
    /// Total number of messages written across the chain.
    pub message_count: u64,
}

} // verus!
