use vstd::prelude::*;

verus! {

/// The 2-bit code stored for a trit: `+1` is `0b01`, `-1` is `0b10`, anything else `0b00`.
pub open spec fn trit_code(v: i8) -> u128 {
    if v == 1 {
        1
    } else if v == -1 {
        2
    } else {
        0
    }
}

/// The 2-bit field number `i` of a packed word.
pub open spec fn trit_field(x: u128, i: int) -> u128 {
    (x >> ((2 * i) as u128)) & 3
}

/// The trit stored under a 2-bit code: `0b01` is `+1`, `0b10` is `-1`, `0b00` and `0b11` are `0`.
pub open spec fn trit_decode(bits: u128) -> i8 {
    if bits == 1 {
        1
    } else if bits == 2 {
        -1i8
    } else {
        0
    }
}

/// The 64 trits that a packed word holds, field `i` giving element `i`.
pub open spec fn unpack_seq(x: u128) -> Seq<i8> {
    Seq::new(64, |i: int| trit_decode(trit_field(x, i)))
}

/// `v` is one of the three trits `-1`, `0`, `+1`.
pub open spec fn is_trit(v: i8) -> bool {
    -1 <= v <= 1
}

/// The trit that `v` is read as: `+1` and `-1` stand for themselves, every other value for `0`.
pub open spec fn as_trit(v: i8) -> i8 {
    if v == 1 {
        1
    } else if v == -1 {
        -1i8
    } else {
        0
    }
}

/// No 2-bit field of `x` holds the unused code `0b11`.
pub open spec fn is_canonical(x: u128) -> bool {
    forall|i: int| 0 <= i < 64 ==> #[trigger] trit_field(x, i) != 3
}

/// The sum of the products of the first `n` elements of `x` and `y`.
pub open spec fn seq_dot(x: Seq<i8>, y: Seq<i8>, n: nat) -> int
    decreases n,
{
    if n == 0 {
        0
    } else {
        seq_dot(x, y, (n - 1) as nat) + x[n - 1] * y[n - 1]
    }
}

/// The packed word holding the codes of the first `n` values of `s`, field `i` for `s[i]`.
pub open spec fn pack_prefix(s: Seq<i8>, n: nat) -> u128
    decreases n,
{
    if n == 0 {
        0
    } else {
        pack_prefix(s, (n - 1) as nat) | (trit_code(s[n - 1]) << ((2 * (n - 1)) as u128))
    }
}

/// The contribution of one pair of 2-bit fields to a ternary product: zero when either field
/// is zero, `+1` when the two fields are equal, `-1` otherwise.
pub open spec fn field_product(r: u128, c: u128) -> int {
    if r == 0 || c == 0 {
        0
    } else if r == c {
        1
    } else {
        -1
    }
}

/// The ternary product of the first `n` fields of `a` and `b`.
pub open spec fn field_dot(a: u128, b: u128, n: nat) -> int
    decreases n,
{
    if n == 0 {
        0
    } else {
        field_dot(a, b, (n - 1) as nat) + field_product(
            trit_field(a, n - 1),
            trit_field(b, n - 1),
        )
    }
}

/// 64 trits packed two bits each into one `u128`.
#[derive(Clone, Copy, Debug)]
pub struct PackedTernary(pub u128);

proof fn lemma_or_shift_field(x: u128, c: u128, k: u128, j: u128)
    by (bit_vector)
    requires
        k < 64,
        j < 64,
        c <= 3,
        x >> ((2 * k) as u128) == 0,
    ensures
        ((x | (c << ((2 * k) as u128))) >> ((2 * j) as u128)) & 3 == if j == k {
            c
        } else {
            (x >> ((2 * j) as u128)) & 3
        },
        (x | (c << ((2 * k) as u128))) >> ((2 * (k + 1)) as u128) == 0,
{
}

proof fn lemma_pack_prefix_fields(s: Seq<i8>, n: nat)
    requires
        n <= 64,
    ensures
        pack_prefix(s, n) >> ((2 * n) as u128) == 0,
        forall|j: int|
            0 <= j < 64 ==> #[trigger] trit_field(pack_prefix(s, n), j) == if j < n {
                trit_code(s[j])
            } else {
                0
            },
    decreases n,
{
    if n == 0 {
        assert(0u128 >> 0u128 == 0) by (bit_vector);
        assert forall|j: int| 0 <= j < 64 implies #[trigger] trit_field(0u128, j) == 0 by {
            let sh = (2 * j) as u128;
            assert((0u128 >> sh) & 3 == 0) by (bit_vector);
        }
    } else {
        let m = (n - 1) as nat;
        lemma_pack_prefix_fields(s, m);
        let x = pack_prefix(s, m);
        let c = trit_code(s[m as int]);
        let k = m as u128;
        assert(k as int == m);
        assert(pack_prefix(s, n) == x | (c << ((2 * k) as u128)));
        assert forall|j: int| 0 <= j < 64 implies #[trigger] trit_field(pack_prefix(s, n), j) == if j
            < n {
            trit_code(s[j])
        } else {
            0
        } by {
            let ju = j as u128;
            assert(ju as int == j);
            lemma_or_shift_field(x, c, k, ju);
            assert(trit_field(pack_prefix(s, n), j) == ((x | (c << ((2 * k) as u128))) >> ((2
                * ju) as u128)) & 3);
            assert(trit_field(x, j) == (x >> ((2 * ju) as u128)) & 3);
        }
        lemma_or_shift_field(x, c, k, 0);
    }
}

proof fn lemma_field_le_3(x: u128, i: int)
    ensures
        trit_field(x, i) <= 3,
{
    let sh = (2 * i) as u128;
    assert((x >> sh) & 3 <= 3) by (bit_vector);
}

proof fn lemma_shift_split(a: u128, k: u128)
    by (bit_vector)
    requires
        k < 63,
    ensures
        a >> ((2 * k) as u128) == ((a >> ((2 * (k + 1)) as u128)) << 2u128) | ((a >> ((2
            * k) as u128)) & 3),
{
}

proof fn lemma_fields_agree_from(a: u128, b: u128, k: nat)
    requires
        k <= 63,
        forall|i: int| 0 <= i < 64 ==> #[trigger] trit_field(a, i) == trit_field(b, i),
    ensures
        a >> ((2 * k) as u128) == b >> ((2 * k) as u128),
    decreases 63 - k,
{
    let sh = (2 * k) as u128;
    assert(trit_field(a, k as int) == trit_field(b, k as int));
    if k == 63 {
        assert(sh == 126);
        assert(a >> 126u128 == (a >> 126u128) & 3) by (bit_vector);
        assert(b >> 126u128 == (b >> 126u128) & 3) by (bit_vector);
    } else {
        lemma_fields_agree_from(a, b, k + 1);
        let ku = k as u128;
        lemma_shift_split(a, ku);
        lemma_shift_split(b, ku);
    }
}

/// A packed word is determined by its 64 fields.
pub proof fn lemma_fields_determine(a: u128, b: u128)
    requires
        forall|i: int| 0 <= i < 64 ==> #[trigger] trit_field(a, i) == trit_field(b, i),
    ensures
        a == b,
{
    lemma_fields_agree_from(a, b, 0);
    assert(a >> 0u128 == a) by (bit_vector);
    assert(b >> 0u128 == b) by (bit_vector);
}

/// Unpacking a packed array gives back each element read as a trit; an array of trits
/// comes back unchanged.
pub proof fn lemma_unpack_pack(s: Seq<i8>)
    requires
        s.len() == 64,
    ensures
        unpack_seq(pack_prefix(s, 64)) == s.map_values(|v: i8| as_trit(v)),
        (forall|i: int| 0 <= i < 64 ==> is_trit(#[trigger] s[i])) ==> unpack_seq(
            pack_prefix(s, 64),
        ) == s,
{
    lemma_pack_prefix_fields(s, 64);
    assert(unpack_seq(pack_prefix(s, 64)) =~= s.map_values(|v: i8| as_trit(v)));
    if forall|i: int| 0 <= i < 64 ==> is_trit(#[trigger] s[i]) {
        assert(unpack_seq(pack_prefix(s, 64)) =~= s);
    }
}

/// Packing the unpacked trits of a word gives back the word with each `0b11` field cleared;
/// a canonical word comes back unchanged.
pub proof fn lemma_pack_unpack(x: u128)
    ensures
        forall|i: int|
            0 <= i < 64 ==> #[trigger] trit_field(pack_prefix(unpack_seq(x), 64), i) == if trit_field(
                x,
                i,
            ) == 3 {
                0
            } else {
                trit_field(x, i)
            },
        is_canonical(x) ==> pack_prefix(unpack_seq(x), 64) == x,
        is_canonical(pack_prefix(unpack_seq(x), 64)),
{
    let p = pack_prefix(unpack_seq(x), 64);
    lemma_pack_prefix_fields(unpack_seq(x), 64);
    assert forall|i: int| 0 <= i < 64 implies #[trigger] trit_field(p, i) == if trit_field(x, i)
        == 3 {
        0
    } else {
        trit_field(x, i)
    } by {
        lemma_field_le_3(x, i);
    }
    if is_canonical(x) {
        assert forall|i: int| 0 <= i < 64 implies #[trigger] trit_field(p, i) == trit_field(
            x,
            i,
        ) by {
            lemma_field_le_3(x, i);
        }
        lemma_fields_determine(p, x);
    }
}

/// On canonical words the field-wise product is the dot product of the unpacked trits:
/// `+1·+1 = -1·-1 = +1`, `+1·-1 = -1·+1 = -1`, and `0` times anything is `0`.
pub proof fn lemma_field_dot_is_trit_dot(a: u128, b: u128, n: nat)
    requires
        n <= 64,
        is_canonical(a),
        is_canonical(b),
    ensures
        field_dot(a, b, n) == seq_dot(unpack_seq(a), unpack_seq(b), n),
    decreases n,
{
    if n > 0 {
        lemma_field_dot_is_trit_dot(a, b, (n - 1) as nat);
        lemma_field_le_3(a, n - 1);
        lemma_field_le_3(b, n - 1);
        let fa = trit_field(a, n - 1);
        let fb = trit_field(b, n - 1);
        assert(fa != 3);
        assert(fb != 3);
        let ta = unpack_seq(a)[n - 1];
        let tb = unpack_seq(b)[n - 1];
        assert(ta == trit_decode(fa));
        assert(tb == trit_decode(fb));
        assert(field_product(fa, fb) == ta * tb) by {
            if fa == 0 || fb == 0 {
                assert(ta == 0 || tb == 0);
                assert(ta * tb == 0) by (nonlinear_arith)
                    requires
                        ta == 0 || tb == 0,
                ;
            } else if fa == 1 && fb == 1 {
                assert(ta * tb == 1 * 1);
            } else if fa == 2 && fb == 2 {
                assert(ta * tb == (-1) * (-1));
            } else if fa == 1 {
                assert(fb == 2);
                assert(ta * tb == 1 * (-1));
            } else {
                assert(fa == 2 && fb == 1);
                assert(ta * tb == (-1) * 1);
            }
        }
    }
}

/// The ternary product is symmetric: row times column equals column times row.
pub proof fn lemma_field_dot_symmetric(a: u128, b: u128, n: nat)
    ensures
        field_dot(a, b, n) == field_dot(b, a, n),
    decreases n,
{
    if n > 0 {
        lemma_field_dot_symmetric(a, b, (n - 1) as nat);
    }
}

/// A word of zero trits has product zero with every word.
pub proof fn lemma_field_dot_zero(a: u128, n: nat)
    ensures
        field_dot(a, 0, n) == 0,
        field_dot(0, a, n) == 0,
    decreases n,
{
    if n > 0 {
        lemma_field_dot_zero(a, (n - 1) as nat);
        let sh = (2 * (n - 1)) as u128;
        assert((0u128 >> sh) & 3 == 0) by (bit_vector);
    }
}

/// The product of the first `n` fields lies between `-n` and `n`.
pub proof fn lemma_field_dot_bounds(a: u128, b: u128, n: nat)
    ensures
        -n <= field_dot(a, b, n) <= n,
    decreases n,
{
    if n > 0 {
        lemma_field_dot_bounds(a, b, (n - 1) as nat);
    }
}

/// Every packed word is canonical: field `i` is `0b01` exactly when element `i` is `+1`,
/// `0b10` exactly when it is `-1`, and `0b00` for every other value, so the unused code
/// `0b11` never appears.
pub proof fn lemma_pack_fields_exact(s: Seq<i8>)
    ensures
        forall|i: int|
            0 <= i < 64 ==> #[trigger] trit_field(pack_prefix(s, 64), i) == if s[i] == 1 {
                0b01u128
            } else if s[i] == -1 {
                0b10u128
            } else {
                0b00u128
            },
        is_canonical(pack_prefix(s, 64)),
{
    lemma_pack_prefix_fields(s, 64);
}

/// The tile product of two packed arrays is the dot product of the arrays read as trits:
/// values other than `+1` and `-1` contribute nothing.
pub proof fn lemma_packed_product(s: Seq<i8>, t: Seq<i8>)
    requires
        s.len() == 64,
        t.len() == 64,
    ensures
        field_dot(pack_prefix(s, 64), pack_prefix(t, 64), 64) == seq_dot(
            s.map_values(|v: i8| as_trit(v)),
            t.map_values(|v: i8| as_trit(v)),
            64,
        ),
{
    lemma_pack_fields_exact(s);
    lemma_pack_fields_exact(t);
    lemma_unpack_pack(s);
    lemma_unpack_pack(t);
    lemma_field_dot_is_trit_dot(pack_prefix(s, 64), pack_prefix(t, 64), 64);
}

impl PackedTernary {
    /// Pack 64 i8 values into one u128 (2 bits each).
    pub fn pack(src: &[i8; 64]) -> (r: Self)
        ensures
            r.0 == pack_prefix(src@, 64),
            forall|i: int| 0 <= i < 64 ==> #[trigger] trit_field(r.0, i) == trit_code(src@[i]),
            forall|i: int|
                0 <= i < 64 ==> #[trigger] trit_field(r.0, i) == if src@[i] == 1 {
                    0b01u128
                } else if src@[i] == -1 {
                    0b10u128
                } else {
                    0b00u128
                },
            is_canonical(r.0),
    {
        let mut packed: u128 = 0;
        let mut i: usize = 0;
        while i < 64
            invariant
                i <= 64,
                packed == pack_prefix(src@, i as nat),
            decreases 64 - i,
        {
            let v = src[i];
            let bits: u128 = if v == 1 {
                1
            } else if v == -1 {
                2
            } else {
                0
            };
            packed = packed | (bits << ((i * 2) as u128));
            i = i + 1;
        }
        proof {
            lemma_pack_fields_exact(src@);
        }
        PackedTernary(packed)
    }

    /// Unpack into i8 array.
    pub fn unpack(&self) -> (r: [i8; 64])
        ensures
            r@ == unpack_seq(self.0),
    {
        let mut out = [0i8; 64];
        let mut i: usize = 0;
        while i < 64
            invariant
                i <= 64,
                out@.len() == 64,
                forall|j: int| 0 <= j < i ==> out@[j] == trit_decode(#[trigger] trit_field(self.0, j)),
            decreases 64 - i,
        {
            let bits = (self.0 >> ((i * 2) as u128)) & 0x3;
            let v: i8 = if bits == 1 {
                1
            } else if bits == 2 {
                -1
            } else {
                0
            };
            out[i] = v;
            i = i + 1;
        }
        assert(out@ =~= unpack_seq(self.0));
        out
    }
}

/// The ternary product of two packed words: the number of positions where both fields are
/// nonzero and equal, minus the number where both are nonzero and differ.
fn ternary_dot(row: u128, col: u128) -> (r: i32)
    ensures
        r == field_dot(row, col, 64),
{
    let mut pos_match: u32 = 0;
    let mut neg_match: u32 = 0;
    let mut k: usize = 0;
    while k < 64
        invariant
            k <= 64,
            pos_match + neg_match <= k,
            pos_match - neg_match == field_dot(row, col, k as nat),
        decreases 64 - k,
    {
        let rbits = (row >> ((k * 2) as u128)) & 0x3;
        let cbits = (col >> ((k * 2) as u128)) & 0x3;
        if rbits != 0 && cbits != 0 {
            if rbits == cbits {
                pos_match = pos_match + 1;
            } else {
                neg_match = neg_match + 1;
            }
        }
        k = k + 1;
    }
    pos_match as i32 - neg_match as i32
}

/// 16×16 ternary matmul: entry `(i, j)` of `c`, at `i * 16 + j`, is the ternary product of
/// row `i` of `a_rows` and column `j` of `b_cols`.
pub fn ternary_matmul_tile_16(
    a_rows: &[PackedTernary; 16],
    b_cols: &[PackedTernary; 16],
    c: &mut [i32; 256],
)
    ensures
        forall|i: int, j: int|
            0 <= i < 16 && 0 <= j < 16 ==> #[trigger] final(c)@[i * 16 + j] == field_dot(
                a_rows@[i].0,
                b_cols@[j].0,
                64,
            ),
{
    let mut i: usize = 0;
    while i < 16
        invariant
            i <= 16,
            c@.len() == 256,
            forall|ii: int, jj: int|
                0 <= ii < i && 0 <= jj < 16 ==> #[trigger] c@[ii * 16 + jj] == field_dot(
                    a_rows@[ii].0,
                    b_cols@[jj].0,
                    64,
                ),
        decreases 16 - i,
    {
        let row = a_rows[i].0;
        let mut j: usize = 0;
        while j < 16
            invariant
                i < 16,
                j <= 16,
                c@.len() == 256,
                row == a_rows@[i as int].0,
                forall|ii: int, jj: int|
                    0 <= ii < i && 0 <= jj < 16 ==> #[trigger] c@[ii * 16 + jj] == field_dot(
                        a_rows@[ii].0,
                        b_cols@[jj].0,
                        64,
                    ),
                forall|jj: int|
                    0 <= jj < j ==> #[trigger] c@[i * 16 + jj] == field_dot(
                        a_rows@[i as int].0,
                        b_cols@[jj].0,
                        64,
                    ),
            decreases 16 - j,
        {
            let col = b_cols[j].0;
            let v = ternary_dot(row, col);
            c[i * 16 + j] = v;
            j = j + 1;
        }
        i = i + 1;
    }
}

} // verus!
