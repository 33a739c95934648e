use neon_kernel::ring::{counter_distance, RingBuffer};
use neon_kernel::ternary::{ternary_matmul_tile_16, PackedTernary};
use neon_kernel::zig_ffi;

#[test]
fn test_pack_unpack_roundtrip() {
    let src: [i8; 64] = core::array::from_fn(|i| match i % 3 {
        0 => 1,
        1 => -1,
        _ => 0,
    });
    let packed = PackedTernary::pack(&src);
    let unpacked = packed.unpack();
    assert_eq!(src, unpacked, "pack/unpack roundtrip");
}

#[test]
fn test_ring_buffer_push_pop() {
    let mut buf = RingBuffer::<i32, 64>::new();
    assert!(buf.is_empty());
    assert!(buf.push(42));
    assert_eq!(buf.len(), 1);
    assert_eq!(buf.pop(), Some(42));
    assert!(buf.is_empty());
}

#[test]
fn test_ring_buffer_full() {
    let mut buf = RingBuffer::<i32, 4>::new();
    assert!(buf.push(1));
    assert!(buf.push(2));
    assert!(buf.push(3));
    assert!(buf.push(4));
    assert!(!buf.push(5));
}

#[test]
fn test_ring_buffer_empty_pop() {
    let mut buf = RingBuffer::<i32, 4>::new();
    assert_eq!(buf.pop(), None);
}

#[test]
fn test_matmul_tile_16_identity() {
    let mut a: [PackedTernary; 16] = [PackedTernary(0); 16];
    let b: [PackedTernary; 16] = [PackedTernary(0); 16];
    let mut c = [0i32; 256];

    // Row 0 of A: all +1
    let mut src = [0i8; 64];
    for i in 0..16 {
        src[i] = 1;
    }
    a[0] = PackedTernary::pack(&src);

    // B columns: identity-like, each column has one +1
    for i in 0..16 {
        let mut col = [0i8; 64];
        col[i] = 1;
    }

    ternary_matmul_tile_16(&a, &b, &mut c);
    // Since all B columns are zero, C should be all zeros
    for &v in c.iter() {
        assert_eq!(v, 0);
    }
}

#[test]
fn test_ring_buffer_multi_thread_friendly() {
    let mut buf = RingBuffer::<u64, 128>::new();
    for i in 0..100 {
        assert!(buf.push(i));
    }
    assert_eq!(buf.len(), 100);
    for i in 0..100 {
        assert_eq!(buf.pop(), Some(i));
    }
    assert!(buf.is_empty());
}

#[test]
fn pack_places_codes_two_bits_per_position() {
    let mut src = [0i8; 64];
    src[0] = 1;
    src[1] = -1;
    src[2] = 0;
    src[3] = 1;
    src[63] = -1;
    let packed = PackedTernary::pack(&src);
    let expected: u128 = 0b01 | (0b10 << 2) | (0b01 << 6) | (0b10u128 << 126);
    assert_eq!(packed.0, expected);
}

#[test]
fn pack_reads_values_other_than_plus_minus_one_as_zero() {
    let mut src = [0i8; 64];
    src[0] = 5;
    src[1] = -7;
    src[2] = 127;
    src[3] = -128;
    src[4] = 1;
    let packed = PackedTernary::pack(&src);
    assert_eq!(packed.0, 0b01u128 << 8);
    let mut expected = [0i8; 64];
    expected[4] = 1;
    assert_eq!(packed.unpack(), expected);
}

#[test]
fn unpack_reads_unused_code_as_zero() {
    // field 0 = 0b11, field 1 = 0b01, field 2 = 0b10
    let word: u128 = 0b11 | (0b01 << 2) | (0b10 << 4);
    let out = PackedTernary(word).unpack();
    assert_eq!(out[0], 0);
    assert_eq!(out[1], 1);
    assert_eq!(out[2], -1);
    assert!(out[3..].iter().all(|&v| v == 0));
}

#[test]
fn pack_after_unpack_clears_unused_codes() {
    let word: u128 = 0b11 | (0b01 << 2) | (0b10 << 4) | (0b11u128 << 100);
    let again = PackedTernary::pack(&PackedTernary(word).unpack());
    assert_eq!(again.0, (0b01 << 2) | (0b10 << 4));
    let canonical: u128 = 0b0110_0110_1001;
    assert_eq!(PackedTernary::pack(&PackedTernary(canonical).unpack()).0, canonical);
}

fn packed(entries: &[(usize, i8)]) -> PackedTernary {
    let mut src = [0i8; 64];
    for &(i, v) in entries {
        src[i] = v;
    }
    PackedTernary::pack(&src)
}

#[test]
fn matmul_entries_are_ternary_dot_products() {
    let mut a = [PackedTernary(0); 16];
    let mut b = [PackedTernary(0); 16];
    a[0] = packed(&[(0, 1), (1, 1), (2, -1), (3, 1)]);
    a[5] = packed(&[(10, -1), (63, -1)]);
    b[0] = packed(&[(0, 1), (1, -1), (2, -1), (5, 1)]);
    b[3] = packed(&[(10, -1), (63, 1), (0, 1)]);
    let mut c = [7i32; 256];
    ternary_matmul_tile_16(&a, &b, &mut c);
    // row 0 · col 0 = 1·1 + 1·(-1) + (-1)(-1) = 1
    assert_eq!(c[0 * 16 + 0], 1);
    // row 0 · col 3 = 1·1 = 1
    assert_eq!(c[0 * 16 + 3], 1);
    // row 5 · col 0 = 0
    assert_eq!(c[5 * 16 + 0], 0);
    // row 5 · col 3 = (-1)(-1) + (-1)(1) = 0
    assert_eq!(c[5 * 16 + 3], 0);
    // every other entry is overwritten with 0
    for i in 0..16 {
        for j in 0..16 {
            if !((i == 0 || i == 5) && (j == 0 || j == 3)) {
                assert_eq!(c[i * 16 + j], 0, "entry ({}, {})", i, j);
            }
        }
    }
}

#[test]
fn matmul_full_rows_give_plus_and_minus_sixty_four() {
    let ones = PackedTernary::pack(&[1i8; 64]);
    let minus = PackedTernary::pack(&[-1i8; 64]);
    let a = [ones; 16];
    let mut b = [ones; 16];
    b[1] = minus;
    let mut c = [0i32; 256];
    ternary_matmul_tile_16(&a, &b, &mut c);
    assert_eq!(c[0], 64);
    assert_eq!(c[1], -64);
    assert_eq!(c[15 * 16 + 1], -64);
}

#[test]
fn matmul_counts_unused_code_as_nonzero() {
    // field 0 holds 0b11 in both words: equal nonzero fields count +1
    let mut a = [PackedTernary(0); 16];
    let mut b = [PackedTernary(0); 16];
    a[0] = PackedTernary(0b11);
    b[0] = PackedTernary(0b11);
    b[1] = PackedTernary(0b01);
    let mut c = [0i32; 256];
    ternary_matmul_tile_16(&a, &b, &mut c);
    assert_eq!(c[0], 1);
    assert_eq!(c[1], -1);
}

#[test]
fn ring_buffer_is_fifo_across_wraparound() {
    let mut buf = RingBuffer::<u32, 4>::new();
    let mut next_in = 0u32;
    let mut next_out = 0u32;
    for _ in 0..50 {
        assert!(buf.push(next_in));
        next_in += 1;
        assert!(buf.push(next_in));
        next_in += 1;
        assert!(buf.push(next_in));
        next_in += 1;
        assert_eq!(buf.len(), 3);
        for _ in 0..3 {
            assert_eq!(buf.pop(), Some(next_out));
            next_out += 1;
        }
        assert!(buf.is_empty());
    }
}

#[test]
fn ring_buffer_refused_push_leaves_contents() {
    let mut buf = RingBuffer::<i32, 2>::new();
    assert!(buf.push(10));
    assert!(buf.push(20));
    assert!(!buf.push(30));
    assert_eq!(buf.len(), 2);
    assert_eq!(buf.capacity(), 2);
    assert_eq!(buf.pop(), Some(10));
    assert!(buf.push(40));
    assert_eq!(buf.pop(), Some(20));
    assert_eq!(buf.pop(), Some(40));
    assert_eq!(buf.pop(), None);
    assert_eq!(buf.len(), 0);
}

#[test]
fn ring_buffer_len_never_exceeds_capacity() {
    let mut buf = RingBuffer::<u8, 8>::new();
    for i in 0..20u8 {
        let accepted = buf.push(i);
        assert_eq!(accepted, i < 8);
        assert!(buf.len() <= buf.capacity());
    }
    assert_eq!(buf.len(), 8);
}

#[test]
fn ring_buffer_capacity_is_n() {
    let buf = RingBuffer::<i32, 64>::new();
    assert_eq!(buf.capacity(), 64);
    assert_eq!(buf.len(), 0);
}

#[test]
fn ffi_ring_buffer_starts_at_zero() {
    let rb = zig_ffi::RingBuffer::new();
    assert_eq!(rb.head, 0);
    assert_eq!(rb.tail, 0);
}

#[test]
fn matmul_is_symmetric_and_bounded() {
    let mut a = [PackedTernary(0); 16];
    let mut b = [PackedTernary(0); 16];
    for i in 0..16 {
        let mut r = [0i8; 64];
        let mut s = [0i8; 64];
        for k in 0..64 {
            r[k] = ((i + k) % 3) as i8 - 1;
            s[k] = ((i * 7 + k * 5) % 3) as i8 - 1;
        }
        a[i] = PackedTernary::pack(&r);
        b[i] = PackedTernary::pack(&s);
    }
    let mut ab = [0i32; 256];
    let mut ba = [0i32; 256];
    ternary_matmul_tile_16(&a, &b, &mut ab);
    ternary_matmul_tile_16(&b, &a, &mut ba);
    for i in 0..16 {
        for j in 0..16 {
            assert_eq!(ab[i * 16 + j], ba[j * 16 + i]);
            assert!(ab[i * 16 + j].abs() <= 64);
        }
    }
}

#[test]
fn ring_buffer_len_is_accepted_pushes_minus_successful_pops() {
    let mut buf = RingBuffer::<u64, 8>::new();
    let mut pushed = 0usize;
    let mut taken = 0usize;
    for step in 0..200u64 {
        if step % 3 == 2 {
            if buf.pop().is_some() {
                taken += 1;
            }
        } else if buf.push(step) {
            pushed += 1;
        }
        assert_eq!(buf.len(), pushed - taken);
        assert!(buf.len() <= 8);
    }
    let mut fresh = RingBuffer::<u64, 128>::new();
    for i in 0..100 {
        assert!(fresh.push(i));
    }
    assert_eq!(fresh.len(), 100);
    assert_eq!(fresh.len(), 100);
}

#[test]
fn push_step_decides_slot_and_next_counter() {
    assert_eq!(RingBuffer::<u8, 4>::push_step(0, 0), Some((0, 1)));
    assert_eq!(RingBuffer::<u8, 4>::push_step(5, 7), Some((3, 8)));
    assert_eq!(RingBuffer::<u8, 4>::push_step(3, 7), None);
    // counters wrap modulo 2^64
    assert_eq!(RingBuffer::<u8, 4>::push_step(u64::MAX - 1, u64::MAX), Some((3, 0)));
    assert_eq!(RingBuffer::<u8, 4>::push_step(u64::MAX - 1, 2), None);
    assert_eq!(RingBuffer::<u8, 4>::push_step(u64::MAX, 1), Some((1, 2)));
}

#[test]
fn pop_step_decides_slot_and_next_counter() {
    assert_eq!(RingBuffer::<u8, 4>::pop_step(0, 0), None);
    assert_eq!(RingBuffer::<u8, 4>::pop_step(6, 7), Some((2, 7)));
    assert_eq!(RingBuffer::<u8, 4>::pop_step(u64::MAX, 1), Some((3, 0)));
    assert_eq!(RingBuffer::<u8, 4>::pop_step(9, 9), None);
}

#[test]
fn counter_distance_wraps() {
    assert_eq!(counter_distance(3, 10), 7);
    assert_eq!(counter_distance(u64::MAX, 2), 3);
    assert_eq!(counter_distance(0, 0), 0);
}
