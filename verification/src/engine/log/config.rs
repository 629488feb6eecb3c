//! Tunables of a log.
use vstd::prelude::*;

verus! {

/// Tunables for a `NamespaceLog`.
#[derive(Debug, Clone, Copy)]
pub struct LogConfig {
    /// Active file size in bytes from which a write calls for a rotation: the active file is
    /// sealed and a fresh one takes its place.
    pub rotate_threshold: u64,
    /// Size-tiered compaction fanout: a level is merged into the next once it
    /// holds this many runs. Higher = less write-amp, more space-amp. Default 8
    /// (the measured knee).
    pub fanout: usize,
    /// Value-separation threshold in bytes. Values >= this are stored in the
    /// content-addressed blob store instead of inline in the log, so compaction
    /// never re-uploads them. Default 128 KiB = one block: below a block,
    /// a blob-per-value wastes space; at/above it, separation collapses write-amp.
    pub value_sep_threshold: usize,
}

impl Default for LogConfig {
    fn default() -> (r: Self)
        ensures
            r.rotate_threshold == 0x4000_0000,
            r.fanout == 8,
            r.value_sep_threshold == 128 * 1024,
    {
        LogConfig { rotate_threshold: 0x4000_0000, fanout: 8, value_sep_threshold: 128 * 1024 }
    }
}

} // verus!
