use vstd::prelude::*;

verus! {

/// Configuration a segment is created with: the size at which it is considered
/// full and must be rolled over, and the capacity of its in-memory message
/// cache. The cache capacity must be a nonzero power of two.
#[derive(Clone, Copy, PartialEq, Eq, Structural, Debug)]
pub struct SegmentConfig {
    pub size_bytes: u32,
    pub messages_buffer: u32,
}

/// Whether `n` is a power of two; the ring buffer backing a segment's message
/// cache accepts only such capacities.
pub open spec fn is_pow2(n: nat) -> bool
    decreases n,
{
    if n == 0 {
        false
    } else if n == 1 {
        true
    } else {
        n % 2 == 0 && is_pow2(n / 2)
    }
}

/// A usable segment configuration: rolling over at zero bytes would roll on
/// every append, and the cache capacity must be accepted by the ring buffer.
pub open spec fn config_wf(c: SegmentConfig) -> bool {
    c.size_bytes >= 1 && is_pow2(c.messages_buffer as nat)
}

} // verus!
