use vstd::prelude::*;

verus! {

/// Head and tail counters of the ring buffer that the C-ABI kernels share with Rust: `head`
/// counts the items taken and `tail` the items put.
pub struct RingBuffer {
    pub head: u64,
    pub tail: u64,
}

impl RingBuffer {
    /// Create a new zeroed ring buffer.
    pub fn new() -> (r: Self)
        ensures
            r.head == 0,
            r.tail == 0,
    {
        RingBuffer { head: 0, tail: 0 }
    }
}

} // verus!
