//! Choice between the in-memory parallel-chunked strategy and the
//! memory-bounded streaming strategy.

use vstd::prelude::*;

verus! {

/// File-size threshold, in whole mebibytes, above which streaming is chosen
/// when the caller gives no explicit limit.
pub const DEFAULT_MEMORY_LIMIT_MB: u64 = 500;

/// Bytes in one mebibyte, for the file-size threshold.
pub const BYTES_PER_MB: u64 = 1048576;

/// The memory limit that applies to a run: the caller's override if present,
/// otherwise the default.
pub open spec fn effective_memory_limit_mb(memory_limit_mb: Option<u64>) -> u64 {
    match memory_limit_mb {
        Some(limit) => limit,
        None => DEFAULT_MEMORY_LIMIT_MB,
    }
}

/// Decides, once per run, whether the memory-bounded streaming strategy is
/// used: either because the caller forces it, or because the input file is
/// larger than the memory limit (file size in whole mebibytes, rounded down,
/// strictly above the limit).
pub fn should_use_streaming_mode(
    force_streaming: bool,
    file_size_bytes: u64,
    memory_limit_mb: Option<u64>,
) -> (streaming: bool)
    ensures
        streaming == (force_streaming || file_size_bytes / BYTES_PER_MB
            > effective_memory_limit_mb(memory_limit_mb)),
{
    if force_streaming {
        return true;
    }
    let file_size_mb = file_size_bytes / BYTES_PER_MB;
    let limit = match memory_limit_mb {
        Some(limit) => limit,
        None => DEFAULT_MEMORY_LIMIT_MB,
    };
    file_size_mb > limit
}

} // verus!
