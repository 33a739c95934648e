# neon-kernel

Verified integer kernels of the Rotation engine, with the floating-point layers around them.

- `src/ternary.rs`: packing of 64 trits into a `u128` (two bits each), unpacking, and the
  16×16 ternary tile product computed as integer counts; the round-trip and product laws.
- `src/ring.rs`: the bounded FIFO ring buffer of power-of-two capacity, specified against a
  queue model, with its first-in-first-out and length-over-a-history laws, and the
  producer's and consumer's step decisions from counter snapshots.
- `src/zig_ffi.rs`: the counters of the ring buffer header shared with the C-ABI kernels.
- `app/`: the floating-point layers (cycle closure, cascade PID, attractor landscape, the
  rotation orchestrator, the f32 kernels), the lock-free SPSC ring buffer (atomics around the
  verified step decisions), and the bindings to the C-ABI kernels.
