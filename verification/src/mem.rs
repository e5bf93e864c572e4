//! Memory statistics, as sampled from the system.
use vstd::prelude::*;

verus! {

/// A memory sample, in bytes. The system does not expose macOS's
/// wired/compressed breakdown; "pressure" is approximated as used/total and
/// swap usage stands in as a signal for compression.
#[derive(Debug, Clone, Copy, PartialEq, Eq, Structural)]
pub struct MemStats {
    pub total_bytes: u64,
    pub used_bytes: u64,
    pub available_bytes: u64,
    pub swap_used_bytes: u64,
    pub swap_total_bytes: u64,
}

impl Default for MemStats {
    /// The empty sample: every count is zero.
    fn default() -> (r: Self)
        ensures
            r == (MemStats {
                total_bytes: 0,
                used_bytes: 0,
                available_bytes: 0,
                swap_used_bytes: 0,
                swap_total_bytes: 0,
            }),
    {
        MemStats { total_bytes: 0, used_bytes: 0, available_bytes: 0, swap_used_bytes: 0, swap_total_bytes: 0 }
    }
}

} // verus!
