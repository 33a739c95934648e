//! Ternary packing, ternary tile products and a bounded FIFO ring buffer.

pub mod ring;
pub mod ternary;
pub mod zig_ffi;

pub use ring::RingBuffer;
pub use ternary::{ternary_matmul_tile_16, PackedTernary};

use vstd::prelude::*;

verus! {

/// Tile size for cache-friendly matrix operations.
pub const TILE: usize = 16;

/// Block size for concurrent channel reads (ARM cache line).
pub const CACHE_LINE: usize = 64;

} // verus!
