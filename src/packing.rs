//! Bit-exact encodings of polynomials: each format packs a fixed number of
//! coefficients into a fixed number of little-endian bytes.
use vstd::prelude::*;

use crate::params::{ETA, GAMMA1};
use crate::polynomial::PlainPolynomial;

verus! {

proof fn lemma_chunk_index(i: int, w: int)
    requires
        0 <= i,
        0 < w,
    ensures
        i == w * (i / w) + i % w,
        0 <= i % w < w,
{
    vstd::arithmetic::div_mod::lemma_fundamental_div_mod(i, w);
}

proof fn lemma_chunk_index_converse(c: int, j: int, w: int)
    requires
        0 <= c,
        0 <= j < w,
    ensures
        (w * c + j) / w == c,
        (w * c + j) % w == j,
{
    assert(w * c + j == c * w + j) by (nonlinear_arith);
    vstd::arithmetic::div_mod::lemma_fundamental_div_mod_converse(w * c + j, w, c, j);
}

proof fn lemma_mask(y: i32, m: i32)
    requires
        0 <= m,
    ensures
        0 <= y & m <= m,
{
    assert(0 <= y & m <= m) by (bit_vector)
        requires
            0 <= m,
    ;
}

/// Byte `n` of the encoding of `p`: 10-bit coefficients in `[0, 1024)`, four to five bytes.
pub open spec fn t1_byte(p: Seq<i32>, n: int) -> u8 {
    let c = n / 5;
    let j = n % 5;
    let a0 = p[4 * c + 0];
    let a1 = p[4 * c + 1];
    let a2 = p[4 * c + 2];
    let a3 = p[4 * c + 3];
    if j == 0 {
        (a0) as u8
    } else if j == 1 {
        ((a0 >> 8u32) | (a1 << 2u32)) as u8
    } else if j == 2 {
        ((a1 >> 6u32) | (a2 << 4u32)) as u8
    } else if j == 3 {
        ((a2 >> 4u32) | (a3 << 6u32)) as u8
    } else {
        (a3 >> 2u32) as u8
    }
}

/// The 320-byte encoding of `p`.
pub open spec fn t1_bytes(p: Seq<i32>) -> Seq<u8> {
    Seq::new(320, |n: int| t1_byte(p, n))
}

/// Coefficient `i` decoded from the 320 bytes of `b` that start at `off`.
pub open spec fn t1_coeff(b: Seq<u8>, off: int, i: int) -> i32 {
    let c = i / 4;
    let j = i % 4;
    let x0 = b[off + 5 * c + 0] as i32;
    let x1 = b[off + 5 * c + 1] as i32;
    let x2 = b[off + 5 * c + 2] as i32;
    let x3 = b[off + 5 * c + 3] as i32;
    let x4 = b[off + 5 * c + 4] as i32;
    if j == 0 {
        (x0 | (x1 << 8u32)) & 0x3ff
    } else if j == 1 {
        ((x1 >> 2u32) | (x2 << 6u32)) & 0x3ff
    } else if j == 2 {
        ((x2 >> 4u32) | (x3 << 4u32)) & 0x3ff
    } else {
        ((x3 >> 6u32) | (x4 << 2u32)) & 0x3ff
    }
}

/// One chunk of the t1 encoding decodes to the coefficients it encodes.
proof fn lemma_t1_chunk(v0: i32, v1: i32, v2: i32, v3: i32)
    by (bit_vector)
    requires
        0 <= v0 < 0x400,
        0 <= v1 < 0x400,
        0 <= v2 < 0x400,
        0 <= v3 < 0x400,
    ensures
        ({
            let a0 = v0;
            let a1 = v1;
            let a2 = v2;
            let a3 = v3;
            let x0 = ((a0) as u8) as i32;
            let x1 = (((a0 >> 8u32) | (a1 << 2u32)) as u8) as i32;
            let x2 = (((a1 >> 6u32) | (a2 << 4u32)) as u8) as i32;
            let x3 = (((a2 >> 4u32) | (a3 << 6u32)) as u8) as i32;
            let x4 = ((a3 >> 2u32) as u8) as i32;
            &&& (x0 | (x1 << 8u32)) & 0x3ff == v0
            &&& ((x1 >> 2u32) | (x2 << 6u32)) & 0x3ff == v1
            &&& ((x2 >> 4u32) | (x3 << 4u32)) & 0x3ff == v2
            &&& ((x3 >> 6u32) | (x4 << 2u32)) & 0x3ff == v3
        }),
{
}

/// Decoding the t1 encoding of a polynomial whose coefficients are in range
/// gives the polynomial back.
pub proof fn lemma_t1_round_trip(p: Seq<i32>, i: int)
    requires
        p.len() == 256,
        forall|k: int| 0 <= k < 256 ==> 0 <= #[trigger] p[k] < 0x400,
        0 <= i < 256,
    ensures
        t1_coeff(t1_bytes(p), 0, i) == p[i],
{
    let c = i / 4;
    lemma_chunk_index(i, 4);
    assert forall|k: int| 0 <= k < 5 implies #[trigger] t1_bytes(p)[5 * c + k] == t1_byte(p, 5 * c + k) by {
        lemma_chunk_index_converse(c, k, 5);
    }
    assert(0 <= 4 * c + 0 < 256);
    assert(0 <= 4 * c + 1 < 256);
    assert(0 <= 4 * c + 2 < 256);
    assert(0 <= 4 * c + 3 < 256);
    lemma_t1_chunk(p[4 * c + 0], p[4 * c + 1], p[4 * c + 2], p[4 * c + 3]);
    lemma_chunk_index_converse(c, 0, 5);
    lemma_chunk_index_converse(c, 1, 5);
    lemma_chunk_index_converse(c, 2, 5);
    lemma_chunk_index_converse(c, 3, 5);
    lemma_chunk_index_converse(c, 4, 5);
}

/// Appends the 320-byte encoding of `p`: 10-bit coefficients in `[0, 1024)`, four to five bytes.
pub fn pack_t1(p: &PlainPolynomial, out: &mut Vec<u8>)
    requires
        forall|k: int| 0 <= k < 256 ==> 0 <= #[trigger] p.coefficients[k] < 0x400,
    ensures
        final(out)@ == old(out)@ + t1_bytes(p.coefficients@),
{
    let ghost start = old(out)@;
    let mut c: usize = 0;
    while c < 64
        invariant
            forall|k: int| 0 <= k < 256 ==> 0 <= #[trigger] p.coefficients[k] < 0x400,
            c <= 64,
            out@ == start + Seq::new((5 * c) as nat, |n: int| t1_byte(p.coefficients@, n)),
        decreases 64 - c,
    {
            let a0 = p.coefficients[4 * c + 0];
            let a1 = p.coefficients[4 * c + 1];
            let a2 = p.coefficients[4 * c + 2];
            let a3 = p.coefficients[4 * c + 3];
            let ghost before = out@;
            out.push((a0) as u8);
            out.push(((a0 >> 8u32) | (a1 << 2u32)) as u8);
            out.push(((a1 >> 6u32) | (a2 << 4u32)) as u8);
            out.push(((a2 >> 4u32) | (a3 << 6u32)) as u8);
            out.push((a3 >> 2u32) as u8);
            proof {
                lemma_chunk_index_converse(c as int, 0, 5);
                lemma_chunk_index_converse(c as int, 1, 5);
                lemma_chunk_index_converse(c as int, 2, 5);
                lemma_chunk_index_converse(c as int, 3, 5);
                lemma_chunk_index_converse(c as int, 4, 5);
                assert(out@ =~= start + Seq::new((5 * (c + 1)) as nat, |n: int| t1_byte(p.coefficients@, n)));
            }
            c += 1;
    }
    assert(out@ =~= start + t1_bytes(p.coefficients@));
}

/// Decodes the 320 bytes of `bytes` that start at `off`: 10-bit coefficients in `[0, 1024)`, four to five bytes.
pub fn unpack_t1(bytes: &[u8], off: usize) -> (r: PlainPolynomial)
    requires
        off + 320 <= bytes@.len(),
    ensures
        forall|i: int| 0 <= i < 256 ==> #[trigger] r.coefficients[i] == t1_coeff(bytes@, off as int, i),
{
    let len = bytes.len();
    let mut r: [i32; 256] = [0; 256];
    let mut c: usize = 0;
    while c < 64
        invariant
            len == bytes@.len(),
            off + 320 <= bytes@.len(),
            c <= 64,
            forall|i: int| 0 <= i < 4 * c ==> #[trigger] r[i] == t1_coeff(bytes@, off as int, i),
        decreases 64 - c,
    {
        let x0 = bytes[off + 5 * c + 0] as i32;
        let x1 = bytes[off + 5 * c + 1] as i32;
        let x2 = bytes[off + 5 * c + 2] as i32;
        let x3 = bytes[off + 5 * c + 3] as i32;
        let x4 = bytes[off + 5 * c + 4] as i32;
        let ghost before = r;
        proof {
            lemma_mask(x0 | (x1 << 8u32), 0x3ff);
            lemma_mask((x1 >> 2u32) | (x2 << 6u32), 0x3ff);
            lemma_mask((x2 >> 4u32) | (x3 << 4u32), 0x3ff);
            lemma_mask((x3 >> 6u32) | (x4 << 2u32), 0x3ff);
        }
        r[4 * c + 0] = (x0 | (x1 << 8u32)) & 0x3ff;
        r[4 * c + 1] = ((x1 >> 2u32) | (x2 << 6u32)) & 0x3ff;
        r[4 * c + 2] = ((x2 >> 4u32) | (x3 << 4u32)) & 0x3ff;
        r[4 * c + 3] = ((x3 >> 6u32) | (x4 << 2u32)) & 0x3ff;
        proof {
            lemma_chunk_index_converse(c as int, 0, 4);
            lemma_chunk_index_converse(c as int, 1, 4);
            lemma_chunk_index_converse(c as int, 2, 4);
            lemma_chunk_index_converse(c as int, 3, 4);
            assert forall|i: int| 0 <= i < 4 * (c + 1) implies #[trigger] r[i] == t1_coeff(bytes@, off as int, i) by {
                if i < 4 * c {
                    assert(r[i] == before[i]);
                } else {
                    lemma_chunk_index(i, 4);
                }
            }
        }
        c += 1;
    }
    PlainPolynomial::from_coefficients(r)
}

/// Every decoded coefficient lies in `[0, 0x3ff]`.
pub proof fn lemma_t1_coeff_range(b: Seq<u8>, off: int, i: int)
    requires
        0 <= off,
        off + 320 <= b.len(),
        0 <= i < 256,
    ensures
        0 <= t1_coeff(b, off, i) <= 0x3ff,
{
    let c = i / 4;
    lemma_chunk_index(i, 4);
    let x0 = b[off + 5 * c + 0] as i32;
    let x1 = b[off + 5 * c + 1] as i32;
    let x2 = b[off + 5 * c + 2] as i32;
    let x3 = b[off + 5 * c + 3] as i32;
    let x4 = b[off + 5 * c + 4] as i32;
    lemma_mask(x0 | (x1 << 8u32), 0x3ff);
    lemma_mask((x1 >> 2u32) | (x2 << 6u32), 0x3ff);
    lemma_mask((x2 >> 4u32) | (x3 << 4u32), 0x3ff);
    lemma_mask((x3 >> 6u32) | (x4 << 2u32), 0x3ff);
}

/// Appending bytes after an encoding leaves its decoding unchanged.
pub proof fn lemma_t1_frame(a: Seq<u8>, b: Seq<u8>, off: int, i: int)
    requires
        0 <= off,
        off + 320 <= a.len() <= b.len(),
        b.subrange(0, a.len() as int) == a,
        0 <= i < 256,
    ensures
        t1_coeff(b, off, i) == t1_coeff(a, off, i),
{
    let c = i / 4;
    lemma_chunk_index(i, 4);
    assert forall|m: int| 0 <= m < 5 implies #[trigger] b[off + 5 * c + m] == a[off + 5 * c + m] by {
        assert(b.subrange(0, a.len() as int)[off + 5 * c + m] == b[off + 5 * c + m]);
    }
}

/// The encoding of `p` appended to `before` decodes, at the end of
/// `before`, to `p`.
pub proof fn lemma_t1_append(p: Seq<i32>, before: Seq<u8>, after: Seq<u8>, i: int)
    requires
        p.len() == 256,
        forall|k: int| 0 <= k < 256 ==> 0 <= #[trigger] p[k] < 0x400,
        0 <= i < 256,
        after == before + t1_bytes(p),
    ensures
        t1_coeff(after, before.len() as int, i) == p[i],
{
    lemma_t1_round_trip(p, i);
    let c = i / 4;
    lemma_chunk_index(i, 4);
    assert forall|m: int| 0 <= m < 5 implies #[trigger] after[before.len() + 5 * c + m] == t1_bytes(p)[5 * c + m] by {
    }
}

/// Byte `n` of the encoding of `p`: 13-bit coefficients in `(-2^12, 2^12]`, stored as `2^12 - c`, eight to thirteen bytes.
pub open spec fn t0_byte(p: Seq<i32>, n: int) -> u8 {
    let c = n / 13;
    let j = n % 13;
    let a0 = (0x1000 - p[8 * c + 0]) as i32;
    let a1 = (0x1000 - p[8 * c + 1]) as i32;
    let a2 = (0x1000 - p[8 * c + 2]) as i32;
    let a3 = (0x1000 - p[8 * c + 3]) as i32;
    let a4 = (0x1000 - p[8 * c + 4]) as i32;
    let a5 = (0x1000 - p[8 * c + 5]) as i32;
    let a6 = (0x1000 - p[8 * c + 6]) as i32;
    let a7 = (0x1000 - p[8 * c + 7]) as i32;
    if j == 0 {
        (a0) as u8
    } else if j == 1 {
        ((a0 >> 8u32) | (a1 << 5u32)) as u8
    } else if j == 2 {
        (a1 >> 3u32) as u8
    } else if j == 3 {
        ((a1 >> 11u32) | (a2 << 2u32)) as u8
    } else if j == 4 {
        ((a2 >> 6u32) | (a3 << 7u32)) as u8
    } else if j == 5 {
        (a3 >> 1u32) as u8
    } else if j == 6 {
        ((a3 >> 9u32) | (a4 << 4u32)) as u8
    } else if j == 7 {
        (a4 >> 4u32) as u8
    } else if j == 8 {
        ((a4 >> 12u32) | (a5 << 1u32)) as u8
    } else if j == 9 {
        ((a5 >> 7u32) | (a6 << 6u32)) as u8
    } else if j == 10 {
        (a6 >> 2u32) as u8
    } else if j == 11 {
        ((a6 >> 10u32) | (a7 << 3u32)) as u8
    } else {
        (a7 >> 5u32) as u8
    }
}

/// The 416-byte encoding of `p`.
pub open spec fn t0_bytes(p: Seq<i32>) -> Seq<u8> {
    Seq::new(416, |n: int| t0_byte(p, n))
}

/// Coefficient `i` decoded from the 416 bytes of `b` that start at `off`.
pub open spec fn t0_coeff(b: Seq<u8>, off: int, i: int) -> i32 {
    let c = i / 8;
    let j = i % 8;
    let x0 = b[off + 13 * c + 0] as i32;
    let x1 = b[off + 13 * c + 1] as i32;
    let x2 = b[off + 13 * c + 2] as i32;
    let x3 = b[off + 13 * c + 3] as i32;
    let x4 = b[off + 13 * c + 4] as i32;
    let x5 = b[off + 13 * c + 5] as i32;
    let x6 = b[off + 13 * c + 6] as i32;
    let x7 = b[off + 13 * c + 7] as i32;
    let x8 = b[off + 13 * c + 8] as i32;
    let x9 = b[off + 13 * c + 9] as i32;
    let x10 = b[off + 13 * c + 10] as i32;
    let x11 = b[off + 13 * c + 11] as i32;
    let x12 = b[off + 13 * c + 12] as i32;
    if j == 0 {
        (0x1000 - ((x0 | (x1 << 8u32)) & 0x1fff)) as i32
    } else if j == 1 {
        (0x1000 - (((x1 >> 5u32) | (x2 << 3u32) | (x3 << 11u32)) & 0x1fff)) as i32
    } else if j == 2 {
        (0x1000 - (((x3 >> 2u32) | (x4 << 6u32)) & 0x1fff)) as i32
    } else if j == 3 {
        (0x1000 - (((x4 >> 7u32) | (x5 << 1u32) | (x6 << 9u32)) & 0x1fff)) as i32
    } else if j == 4 {
        (0x1000 - (((x6 >> 4u32) | (x7 << 4u32) | (x8 << 12u32)) & 0x1fff)) as i32
    } else if j == 5 {
        (0x1000 - (((x8 >> 1u32) | (x9 << 7u32)) & 0x1fff)) as i32
    } else if j == 6 {
        (0x1000 - (((x9 >> 6u32) | (x10 << 2u32) | (x11 << 10u32)) & 0x1fff)) as i32
    } else {
        (0x1000 - (((x11 >> 3u32) | (x12 << 5u32)) & 0x1fff)) as i32
    }
}

/// One chunk of the t0 encoding decodes to the coefficients it encodes.
proof fn lemma_t0_chunk(v0: i32, v1: i32, v2: i32, v3: i32, v4: i32, v5: i32, v6: i32, v7: i32)
    by (bit_vector)
    requires
        -0x1000 < v0 <= 0x1000,
        -0x1000 < v1 <= 0x1000,
        -0x1000 < v2 <= 0x1000,
        -0x1000 < v3 <= 0x1000,
        -0x1000 < v4 <= 0x1000,
        -0x1000 < v5 <= 0x1000,
        -0x1000 < v6 <= 0x1000,
        -0x1000 < v7 <= 0x1000,
    ensures
        ({
            let a0 = (0x1000 - v0) as i32;
            let a1 = (0x1000 - v1) as i32;
            let a2 = (0x1000 - v2) as i32;
            let a3 = (0x1000 - v3) as i32;
            let a4 = (0x1000 - v4) as i32;
            let a5 = (0x1000 - v5) as i32;
            let a6 = (0x1000 - v6) as i32;
            let a7 = (0x1000 - v7) as i32;
            let x0 = ((a0) as u8) as i32;
            let x1 = (((a0 >> 8u32) | (a1 << 5u32)) as u8) as i32;
            let x2 = ((a1 >> 3u32) as u8) as i32;
            let x3 = (((a1 >> 11u32) | (a2 << 2u32)) as u8) as i32;
            let x4 = (((a2 >> 6u32) | (a3 << 7u32)) as u8) as i32;
            let x5 = ((a3 >> 1u32) as u8) as i32;
            let x6 = (((a3 >> 9u32) | (a4 << 4u32)) as u8) as i32;
            let x7 = ((a4 >> 4u32) as u8) as i32;
            let x8 = (((a4 >> 12u32) | (a5 << 1u32)) as u8) as i32;
            let x9 = (((a5 >> 7u32) | (a6 << 6u32)) as u8) as i32;
            let x10 = ((a6 >> 2u32) as u8) as i32;
            let x11 = (((a6 >> 10u32) | (a7 << 3u32)) as u8) as i32;
            let x12 = ((a7 >> 5u32) as u8) as i32;
            &&& (0x1000 - ((x0 | (x1 << 8u32)) & 0x1fff)) as i32 == v0
            &&& (0x1000 - (((x1 >> 5u32) | (x2 << 3u32) | (x3 << 11u32)) & 0x1fff)) as i32 == v1
            &&& (0x1000 - (((x3 >> 2u32) | (x4 << 6u32)) & 0x1fff)) as i32 == v2
            &&& (0x1000 - (((x4 >> 7u32) | (x5 << 1u32) | (x6 << 9u32)) & 0x1fff)) as i32 == v3
            &&& (0x1000 - (((x6 >> 4u32) | (x7 << 4u32) | (x8 << 12u32)) & 0x1fff)) as i32 == v4
            &&& (0x1000 - (((x8 >> 1u32) | (x9 << 7u32)) & 0x1fff)) as i32 == v5
            &&& (0x1000 - (((x9 >> 6u32) | (x10 << 2u32) | (x11 << 10u32)) & 0x1fff)) as i32 == v6
            &&& (0x1000 - (((x11 >> 3u32) | (x12 << 5u32)) & 0x1fff)) as i32 == v7
        }),
{
}

/// Decoding the t0 encoding of a polynomial whose coefficients are in range
/// gives the polynomial back.
pub proof fn lemma_t0_round_trip(p: Seq<i32>, i: int)
    requires
        p.len() == 256,
        forall|k: int| 0 <= k < 256 ==> -0x1000 < #[trigger] p[k] <= 0x1000,
        0 <= i < 256,
    ensures
        t0_coeff(t0_bytes(p), 0, i) == p[i],
{
    let c = i / 8;
    lemma_chunk_index(i, 8);
    assert forall|k: int| 0 <= k < 13 implies #[trigger] t0_bytes(p)[13 * c + k] == t0_byte(p, 13 * c + k) by {
        lemma_chunk_index_converse(c, k, 13);
    }
    assert(0 <= 8 * c + 0 < 256);
    assert(0 <= 8 * c + 1 < 256);
    assert(0 <= 8 * c + 2 < 256);
    assert(0 <= 8 * c + 3 < 256);
    assert(0 <= 8 * c + 4 < 256);
    assert(0 <= 8 * c + 5 < 256);
    assert(0 <= 8 * c + 6 < 256);
    assert(0 <= 8 * c + 7 < 256);
    lemma_t0_chunk(p[8 * c + 0], p[8 * c + 1], p[8 * c + 2], p[8 * c + 3], p[8 * c + 4], p[8 * c + 5], p[8 * c + 6], p[8 * c + 7]);
    lemma_chunk_index_converse(c, 0, 13);
    lemma_chunk_index_converse(c, 1, 13);
    lemma_chunk_index_converse(c, 2, 13);
    lemma_chunk_index_converse(c, 3, 13);
    lemma_chunk_index_converse(c, 4, 13);
    lemma_chunk_index_converse(c, 5, 13);
    lemma_chunk_index_converse(c, 6, 13);
    lemma_chunk_index_converse(c, 7, 13);
    lemma_chunk_index_converse(c, 8, 13);
    lemma_chunk_index_converse(c, 9, 13);
    lemma_chunk_index_converse(c, 10, 13);
    lemma_chunk_index_converse(c, 11, 13);
    lemma_chunk_index_converse(c, 12, 13);
}

/// Appends the 416-byte encoding of `p`: 13-bit coefficients in `(-2^12, 2^12]`, stored as `2^12 - c`, eight to thirteen bytes.
pub fn pack_t0(p: &PlainPolynomial, out: &mut Vec<u8>)
    requires
        forall|k: int| 0 <= k < 256 ==> -0x1000 < #[trigger] p.coefficients[k] <= 0x1000,
    ensures
        final(out)@ == old(out)@ + t0_bytes(p.coefficients@),
{
    let ghost start = old(out)@;
    let mut c: usize = 0;
    while c < 32
        invariant
            forall|k: int| 0 <= k < 256 ==> -0x1000 < #[trigger] p.coefficients[k] <= 0x1000,
            c <= 32,
            out@ == start + Seq::new((13 * c) as nat, |n: int| t0_byte(p.coefficients@, n)),
        decreases 32 - c,
    {
            let a0 = 0x1000 - p.coefficients[8 * c + 0];
            let a1 = 0x1000 - p.coefficients[8 * c + 1];
            let a2 = 0x1000 - p.coefficients[8 * c + 2];
            let a3 = 0x1000 - p.coefficients[8 * c + 3];
            let a4 = 0x1000 - p.coefficients[8 * c + 4];
            let a5 = 0x1000 - p.coefficients[8 * c + 5];
            let a6 = 0x1000 - p.coefficients[8 * c + 6];
            let a7 = 0x1000 - p.coefficients[8 * c + 7];
            let ghost before = out@;
            out.push((a0) as u8);
            out.push(((a0 >> 8u32) | (a1 << 5u32)) as u8);
            out.push((a1 >> 3u32) as u8);
            out.push(((a1 >> 11u32) | (a2 << 2u32)) as u8);
            out.push(((a2 >> 6u32) | (a3 << 7u32)) as u8);
            out.push((a3 >> 1u32) as u8);
            out.push(((a3 >> 9u32) | (a4 << 4u32)) as u8);
            out.push((a4 >> 4u32) as u8);
            out.push(((a4 >> 12u32) | (a5 << 1u32)) as u8);
            out.push(((a5 >> 7u32) | (a6 << 6u32)) as u8);
            out.push((a6 >> 2u32) as u8);
            out.push(((a6 >> 10u32) | (a7 << 3u32)) as u8);
            out.push((a7 >> 5u32) as u8);
            proof {
                lemma_chunk_index_converse(c as int, 0, 13);
                lemma_chunk_index_converse(c as int, 1, 13);
                lemma_chunk_index_converse(c as int, 2, 13);
                lemma_chunk_index_converse(c as int, 3, 13);
                lemma_chunk_index_converse(c as int, 4, 13);
                lemma_chunk_index_converse(c as int, 5, 13);
                lemma_chunk_index_converse(c as int, 6, 13);
                lemma_chunk_index_converse(c as int, 7, 13);
                lemma_chunk_index_converse(c as int, 8, 13);
                lemma_chunk_index_converse(c as int, 9, 13);
                lemma_chunk_index_converse(c as int, 10, 13);
                lemma_chunk_index_converse(c as int, 11, 13);
                lemma_chunk_index_converse(c as int, 12, 13);
                assert(out@ =~= start + Seq::new((13 * (c + 1)) as nat, |n: int| t0_byte(p.coefficients@, n)));
            }
            c += 1;
    }
    assert(out@ =~= start + t0_bytes(p.coefficients@));
}

/// Decodes the 416 bytes of `bytes` that start at `off`: 13-bit coefficients in `(-2^12, 2^12]`, stored as `2^12 - c`, eight to thirteen bytes.
pub fn unpack_t0(bytes: &[u8], off: usize) -> (r: PlainPolynomial)
    requires
        off + 416 <= bytes@.len(),
    ensures
        forall|i: int| 0 <= i < 256 ==> #[trigger] r.coefficients[i] == t0_coeff(bytes@, off as int, i),
{
    let len = bytes.len();
    let mut r: [i32; 256] = [0; 256];
    let mut c: usize = 0;
    while c < 32
        invariant
            len == bytes@.len(),
            off + 416 <= bytes@.len(),
            c <= 32,
            forall|i: int| 0 <= i < 8 * c ==> #[trigger] r[i] == t0_coeff(bytes@, off as int, i),
        decreases 32 - c,
    {
        let x0 = bytes[off + 13 * c + 0] as i32;
        let x1 = bytes[off + 13 * c + 1] as i32;
        let x2 = bytes[off + 13 * c + 2] as i32;
        let x3 = bytes[off + 13 * c + 3] as i32;
        let x4 = bytes[off + 13 * c + 4] as i32;
        let x5 = bytes[off + 13 * c + 5] as i32;
        let x6 = bytes[off + 13 * c + 6] as i32;
        let x7 = bytes[off + 13 * c + 7] as i32;
        let x8 = bytes[off + 13 * c + 8] as i32;
        let x9 = bytes[off + 13 * c + 9] as i32;
        let x10 = bytes[off + 13 * c + 10] as i32;
        let x11 = bytes[off + 13 * c + 11] as i32;
        let x12 = bytes[off + 13 * c + 12] as i32;
        let ghost before = r;
        proof {
            lemma_mask(x0 | (x1 << 8u32), 0x1fff);
            lemma_mask((x1 >> 5u32) | (x2 << 3u32) | (x3 << 11u32), 0x1fff);
            lemma_mask((x3 >> 2u32) | (x4 << 6u32), 0x1fff);
            lemma_mask((x4 >> 7u32) | (x5 << 1u32) | (x6 << 9u32), 0x1fff);
            lemma_mask((x6 >> 4u32) | (x7 << 4u32) | (x8 << 12u32), 0x1fff);
            lemma_mask((x8 >> 1u32) | (x9 << 7u32), 0x1fff);
            lemma_mask((x9 >> 6u32) | (x10 << 2u32) | (x11 << 10u32), 0x1fff);
            lemma_mask((x11 >> 3u32) | (x12 << 5u32), 0x1fff);
        }
        r[8 * c + 0] = 0x1000 - ((x0 | (x1 << 8u32)) & 0x1fff);
        r[8 * c + 1] = 0x1000 - (((x1 >> 5u32) | (x2 << 3u32) | (x3 << 11u32)) & 0x1fff);
        r[8 * c + 2] = 0x1000 - (((x3 >> 2u32) | (x4 << 6u32)) & 0x1fff);
        r[8 * c + 3] = 0x1000 - (((x4 >> 7u32) | (x5 << 1u32) | (x6 << 9u32)) & 0x1fff);
        r[8 * c + 4] = 0x1000 - (((x6 >> 4u32) | (x7 << 4u32) | (x8 << 12u32)) & 0x1fff);
        r[8 * c + 5] = 0x1000 - (((x8 >> 1u32) | (x9 << 7u32)) & 0x1fff);
        r[8 * c + 6] = 0x1000 - (((x9 >> 6u32) | (x10 << 2u32) | (x11 << 10u32)) & 0x1fff);
        r[8 * c + 7] = 0x1000 - (((x11 >> 3u32) | (x12 << 5u32)) & 0x1fff);
        proof {
            lemma_chunk_index_converse(c as int, 0, 8);
            lemma_chunk_index_converse(c as int, 1, 8);
            lemma_chunk_index_converse(c as int, 2, 8);
            lemma_chunk_index_converse(c as int, 3, 8);
            lemma_chunk_index_converse(c as int, 4, 8);
            lemma_chunk_index_converse(c as int, 5, 8);
            lemma_chunk_index_converse(c as int, 6, 8);
            lemma_chunk_index_converse(c as int, 7, 8);
            assert forall|i: int| 0 <= i < 8 * (c + 1) implies #[trigger] r[i] == t0_coeff(bytes@, off as int, i) by {
                if i < 8 * c {
                    assert(r[i] == before[i]);
                } else {
                    lemma_chunk_index(i, 8);
                }
            }
        }
        c += 1;
    }
    PlainPolynomial::from_coefficients(r)
}

/// Every decoded coefficient lies in `[-0xfff, 0x1000]`.
pub proof fn lemma_t0_coeff_range(b: Seq<u8>, off: int, i: int)
    requires
        0 <= off,
        off + 416 <= b.len(),
        0 <= i < 256,
    ensures
        -0xfff <= t0_coeff(b, off, i) <= 0x1000,
{
    let c = i / 8;
    lemma_chunk_index(i, 8);
    let x0 = b[off + 13 * c + 0] as i32;
    let x1 = b[off + 13 * c + 1] as i32;
    let x2 = b[off + 13 * c + 2] as i32;
    let x3 = b[off + 13 * c + 3] as i32;
    let x4 = b[off + 13 * c + 4] as i32;
    let x5 = b[off + 13 * c + 5] as i32;
    let x6 = b[off + 13 * c + 6] as i32;
    let x7 = b[off + 13 * c + 7] as i32;
    let x8 = b[off + 13 * c + 8] as i32;
    let x9 = b[off + 13 * c + 9] as i32;
    let x10 = b[off + 13 * c + 10] as i32;
    let x11 = b[off + 13 * c + 11] as i32;
    let x12 = b[off + 13 * c + 12] as i32;
    lemma_mask(x0 | (x1 << 8u32), 0x1fff);
    lemma_mask((x1 >> 5u32) | (x2 << 3u32) | (x3 << 11u32), 0x1fff);
    lemma_mask((x3 >> 2u32) | (x4 << 6u32), 0x1fff);
    lemma_mask((x4 >> 7u32) | (x5 << 1u32) | (x6 << 9u32), 0x1fff);
    lemma_mask((x6 >> 4u32) | (x7 << 4u32) | (x8 << 12u32), 0x1fff);
    lemma_mask((x8 >> 1u32) | (x9 << 7u32), 0x1fff);
    lemma_mask((x9 >> 6u32) | (x10 << 2u32) | (x11 << 10u32), 0x1fff);
    lemma_mask((x11 >> 3u32) | (x12 << 5u32), 0x1fff);
}

/// Appending bytes after an encoding leaves its decoding unchanged.
pub proof fn lemma_t0_frame(a: Seq<u8>, b: Seq<u8>, off: int, i: int)
    requires
        0 <= off,
        off + 416 <= a.len() <= b.len(),
        b.subrange(0, a.len() as int) == a,
        0 <= i < 256,
    ensures
        t0_coeff(b, off, i) == t0_coeff(a, off, i),
{
    let c = i / 8;
    lemma_chunk_index(i, 8);
    assert forall|m: int| 0 <= m < 13 implies #[trigger] b[off + 13 * c + m] == a[off + 13 * c + m] by {
        assert(b.subrange(0, a.len() as int)[off + 13 * c + m] == b[off + 13 * c + m]);
    }
}

/// The encoding of `p` appended to `before` decodes, at the end of
/// `before`, to `p`.
pub proof fn lemma_t0_append(p: Seq<i32>, before: Seq<u8>, after: Seq<u8>, i: int)
    requires
        p.len() == 256,
        forall|k: int| 0 <= k < 256 ==> -0x1000 < #[trigger] p[k] <= 0x1000,
        0 <= i < 256,
        after == before + t0_bytes(p),
    ensures
        t0_coeff(after, before.len() as int, i) == p[i],
{
    lemma_t0_round_trip(p, i);
    let c = i / 8;
    lemma_chunk_index(i, 8);
    assert forall|m: int| 0 <= m < 13 implies #[trigger] after[before.len() + 13 * c + m] == t0_bytes(p)[13 * c + m] by {
    }
}

/// Byte `n` of the encoding of `p`: 3-bit coefficients in `[-ETA, ETA]`, stored as `ETA - c`, eight to three bytes.
pub open spec fn eta_byte(p: Seq<i32>, n: int) -> u8 {
    let c = n / 3;
    let j = n % 3;
    let a0 = (2 - p[8 * c + 0]) as i32;
    let a1 = (2 - p[8 * c + 1]) as i32;
    let a2 = (2 - p[8 * c + 2]) as i32;
    let a3 = (2 - p[8 * c + 3]) as i32;
    let a4 = (2 - p[8 * c + 4]) as i32;
    let a5 = (2 - p[8 * c + 5]) as i32;
    let a6 = (2 - p[8 * c + 6]) as i32;
    let a7 = (2 - p[8 * c + 7]) as i32;
    if j == 0 {
        (a0 | (a1 << 3u32) | (a2 << 6u32)) as u8
    } else if j == 1 {
        ((a2 >> 2u32) | (a3 << 1u32) | (a4 << 4u32) | (a5 << 7u32)) as u8
    } else {
        ((a5 >> 1u32) | (a6 << 2u32) | (a7 << 5u32)) as u8
    }
}

/// The 96-byte encoding of `p`.
pub open spec fn eta_bytes(p: Seq<i32>) -> Seq<u8> {
    Seq::new(96, |n: int| eta_byte(p, n))
}

/// Coefficient `i` decoded from the 96 bytes of `b` that start at `off`.
pub open spec fn eta_coeff(b: Seq<u8>, off: int, i: int) -> i32 {
    let c = i / 8;
    let j = i % 8;
    let x0 = b[off + 3 * c + 0] as i32;
    let x1 = b[off + 3 * c + 1] as i32;
    let x2 = b[off + 3 * c + 2] as i32;
    if j == 0 {
        (2 - ((x0) & 7)) as i32
    } else if j == 1 {
        (2 - ((x0 >> 3u32) & 7)) as i32
    } else if j == 2 {
        (2 - (((x0 >> 6u32) | (x1 << 2u32)) & 7)) as i32
    } else if j == 3 {
        (2 - ((x1 >> 1u32) & 7)) as i32
    } else if j == 4 {
        (2 - ((x1 >> 4u32) & 7)) as i32
    } else if j == 5 {
        (2 - (((x1 >> 7u32) | (x2 << 1u32)) & 7)) as i32
    } else if j == 6 {
        (2 - ((x2 >> 2u32) & 7)) as i32
    } else {
        (2 - ((x2 >> 5u32) & 7)) as i32
    }
}

/// One chunk of the eta encoding decodes to the coefficients it encodes.
proof fn lemma_eta_chunk(v0: i32, v1: i32, v2: i32, v3: i32, v4: i32, v5: i32, v6: i32, v7: i32)
    by (bit_vector)
    requires
        -2 <= v0 <= 2,
        -2 <= v1 <= 2,
        -2 <= v2 <= 2,
        -2 <= v3 <= 2,
        -2 <= v4 <= 2,
        -2 <= v5 <= 2,
        -2 <= v6 <= 2,
        -2 <= v7 <= 2,
    ensures
        ({
            let a0 = (2 - v0) as i32;
            let a1 = (2 - v1) as i32;
            let a2 = (2 - v2) as i32;
            let a3 = (2 - v3) as i32;
            let a4 = (2 - v4) as i32;
            let a5 = (2 - v5) as i32;
            let a6 = (2 - v6) as i32;
            let a7 = (2 - v7) as i32;
            let x0 = ((a0 | (a1 << 3u32) | (a2 << 6u32)) as u8) as i32;
            let x1 = (((a2 >> 2u32) | (a3 << 1u32) | (a4 << 4u32) | (a5 << 7u32)) as u8) as i32;
            let x2 = (((a5 >> 1u32) | (a6 << 2u32) | (a7 << 5u32)) as u8) as i32;
            &&& (2 - ((x0) & 7)) as i32 == v0
            &&& (2 - ((x0 >> 3u32) & 7)) as i32 == v1
            &&& (2 - (((x0 >> 6u32) | (x1 << 2u32)) & 7)) as i32 == v2
            &&& (2 - ((x1 >> 1u32) & 7)) as i32 == v3
            &&& (2 - ((x1 >> 4u32) & 7)) as i32 == v4
            &&& (2 - (((x1 >> 7u32) | (x2 << 1u32)) & 7)) as i32 == v5
            &&& (2 - ((x2 >> 2u32) & 7)) as i32 == v6
            &&& (2 - ((x2 >> 5u32) & 7)) as i32 == v7
        }),
{
}

/// Decoding the eta encoding of a polynomial whose coefficients are in range
/// gives the polynomial back.
pub proof fn lemma_eta_round_trip(p: Seq<i32>, i: int)
    requires
        p.len() == 256,
        forall|k: int| 0 <= k < 256 ==> -2 <= #[trigger] p[k] <= 2,
        0 <= i < 256,
    ensures
        eta_coeff(eta_bytes(p), 0, i) == p[i],
{
    let c = i / 8;
    lemma_chunk_index(i, 8);
    assert forall|k: int| 0 <= k < 3 implies #[trigger] eta_bytes(p)[3 * c + k] == eta_byte(p, 3 * c + k) by {
        lemma_chunk_index_converse(c, k, 3);
    }
    assert(0 <= 8 * c + 0 < 256);
    assert(0 <= 8 * c + 1 < 256);
    assert(0 <= 8 * c + 2 < 256);
    assert(0 <= 8 * c + 3 < 256);
    assert(0 <= 8 * c + 4 < 256);
    assert(0 <= 8 * c + 5 < 256);
    assert(0 <= 8 * c + 6 < 256);
    assert(0 <= 8 * c + 7 < 256);
    lemma_eta_chunk(p[8 * c + 0], p[8 * c + 1], p[8 * c + 2], p[8 * c + 3], p[8 * c + 4], p[8 * c + 5], p[8 * c + 6], p[8 * c + 7]);
    lemma_chunk_index_converse(c, 0, 3);
    lemma_chunk_index_converse(c, 1, 3);
    lemma_chunk_index_converse(c, 2, 3);
}

/// Appends the 96-byte encoding of `p`: 3-bit coefficients in `[-ETA, ETA]`, stored as `ETA - c`, eight to three bytes.
pub fn pack_eta(p: &PlainPolynomial, out: &mut Vec<u8>)
    requires
        forall|k: int| 0 <= k < 256 ==> -2 <= #[trigger] p.coefficients[k] <= 2,
    ensures
        final(out)@ == old(out)@ + eta_bytes(p.coefficients@),
{
    let ghost start = old(out)@;
    let mut c: usize = 0;
    while c < 32
        invariant
            forall|k: int| 0 <= k < 256 ==> -2 <= #[trigger] p.coefficients[k] <= 2,
            c <= 32,
            out@ == start + Seq::new((3 * c) as nat, |n: int| eta_byte(p.coefficients@, n)),
        decreases 32 - c,
    {
            let a0 = ETA - p.coefficients[8 * c + 0];
            let a1 = ETA - p.coefficients[8 * c + 1];
            let a2 = ETA - p.coefficients[8 * c + 2];
            let a3 = ETA - p.coefficients[8 * c + 3];
            let a4 = ETA - p.coefficients[8 * c + 4];
            let a5 = ETA - p.coefficients[8 * c + 5];
            let a6 = ETA - p.coefficients[8 * c + 6];
            let a7 = ETA - p.coefficients[8 * c + 7];
            let ghost before = out@;
            out.push((a0 | (a1 << 3u32) | (a2 << 6u32)) as u8);
            out.push(((a2 >> 2u32) | (a3 << 1u32) | (a4 << 4u32) | (a5 << 7u32)) as u8);
            out.push(((a5 >> 1u32) | (a6 << 2u32) | (a7 << 5u32)) as u8);
            proof {
                lemma_chunk_index_converse(c as int, 0, 3);
                lemma_chunk_index_converse(c as int, 1, 3);
                lemma_chunk_index_converse(c as int, 2, 3);
                assert(out@ =~= start + Seq::new((3 * (c + 1)) as nat, |n: int| eta_byte(p.coefficients@, n)));
            }
            c += 1;
    }
    assert(out@ =~= start + eta_bytes(p.coefficients@));
}

/// Decodes the 96 bytes of `bytes` that start at `off`: 3-bit coefficients in `[-ETA, ETA]`, stored as `ETA - c`, eight to three bytes.
pub fn unpack_eta(bytes: &[u8], off: usize) -> (r: PlainPolynomial)
    requires
        off + 96 <= bytes@.len(),
    ensures
        forall|i: int| 0 <= i < 256 ==> #[trigger] r.coefficients[i] == eta_coeff(bytes@, off as int, i),
{
    let len = bytes.len();
    let mut r: [i32; 256] = [0; 256];
    let mut c: usize = 0;
    while c < 32
        invariant
            len == bytes@.len(),
            off + 96 <= bytes@.len(),
            c <= 32,
            forall|i: int| 0 <= i < 8 * c ==> #[trigger] r[i] == eta_coeff(bytes@, off as int, i),
        decreases 32 - c,
    {
        let x0 = bytes[off + 3 * c + 0] as i32;
        let x1 = bytes[off + 3 * c + 1] as i32;
        let x2 = bytes[off + 3 * c + 2] as i32;
        let ghost before = r;
        proof {
            lemma_mask(x0, 7);
            lemma_mask(x0 >> 3u32, 7);
            lemma_mask((x0 >> 6u32) | (x1 << 2u32), 7);
            lemma_mask(x1 >> 1u32, 7);
            lemma_mask(x1 >> 4u32, 7);
            lemma_mask((x1 >> 7u32) | (x2 << 1u32), 7);
            lemma_mask(x2 >> 2u32, 7);
            lemma_mask(x2 >> 5u32, 7);
        }
        r[8 * c + 0] = ETA - ((x0) & 7);
        r[8 * c + 1] = ETA - ((x0 >> 3u32) & 7);
        r[8 * c + 2] = ETA - (((x0 >> 6u32) | (x1 << 2u32)) & 7);
        r[8 * c + 3] = ETA - ((x1 >> 1u32) & 7);
        r[8 * c + 4] = ETA - ((x1 >> 4u32) & 7);
        r[8 * c + 5] = ETA - (((x1 >> 7u32) | (x2 << 1u32)) & 7);
        r[8 * c + 6] = ETA - ((x2 >> 2u32) & 7);
        r[8 * c + 7] = ETA - ((x2 >> 5u32) & 7);
        proof {
            lemma_chunk_index_converse(c as int, 0, 8);
            lemma_chunk_index_converse(c as int, 1, 8);
            lemma_chunk_index_converse(c as int, 2, 8);
            lemma_chunk_index_converse(c as int, 3, 8);
            lemma_chunk_index_converse(c as int, 4, 8);
            lemma_chunk_index_converse(c as int, 5, 8);
            lemma_chunk_index_converse(c as int, 6, 8);
            lemma_chunk_index_converse(c as int, 7, 8);
            assert forall|i: int| 0 <= i < 8 * (c + 1) implies #[trigger] r[i] == eta_coeff(bytes@, off as int, i) by {
                if i < 8 * c {
                    assert(r[i] == before[i]);
                } else {
                    lemma_chunk_index(i, 8);
                }
            }
        }
        c += 1;
    }
    PlainPolynomial::from_coefficients(r)
}

/// Every decoded coefficient lies in `[-5, 2]`.
pub proof fn lemma_eta_coeff_range(b: Seq<u8>, off: int, i: int)
    requires
        0 <= off,
        off + 96 <= b.len(),
        0 <= i < 256,
    ensures
        -5 <= eta_coeff(b, off, i) <= 2,
{
    let c = i / 8;
    lemma_chunk_index(i, 8);
    let x0 = b[off + 3 * c + 0] as i32;
    let x1 = b[off + 3 * c + 1] as i32;
    let x2 = b[off + 3 * c + 2] as i32;
    lemma_mask(x0, 7);
    lemma_mask(x0 >> 3u32, 7);
    lemma_mask((x0 >> 6u32) | (x1 << 2u32), 7);
    lemma_mask(x1 >> 1u32, 7);
    lemma_mask(x1 >> 4u32, 7);
    lemma_mask((x1 >> 7u32) | (x2 << 1u32), 7);
    lemma_mask(x2 >> 2u32, 7);
    lemma_mask(x2 >> 5u32, 7);
}

/// Appending bytes after an encoding leaves its decoding unchanged.
pub proof fn lemma_eta_frame(a: Seq<u8>, b: Seq<u8>, off: int, i: int)
    requires
        0 <= off,
        off + 96 <= a.len() <= b.len(),
        b.subrange(0, a.len() as int) == a,
        0 <= i < 256,
    ensures
        eta_coeff(b, off, i) == eta_coeff(a, off, i),
{
    let c = i / 8;
    lemma_chunk_index(i, 8);
    assert forall|m: int| 0 <= m < 3 implies #[trigger] b[off + 3 * c + m] == a[off + 3 * c + m] by {
        assert(b.subrange(0, a.len() as int)[off + 3 * c + m] == b[off + 3 * c + m]);
    }
}

/// The encoding of `p` appended to `before` decodes, at the end of
/// `before`, to `p`.
pub proof fn lemma_eta_append(p: Seq<i32>, before: Seq<u8>, after: Seq<u8>, i: int)
    requires
        p.len() == 256,
        forall|k: int| 0 <= k < 256 ==> -2 <= #[trigger] p[k] <= 2,
        0 <= i < 256,
        after == before + eta_bytes(p),
    ensures
        eta_coeff(after, before.len() as int, i) == p[i],
{
    lemma_eta_round_trip(p, i);
    let c = i / 8;
    lemma_chunk_index(i, 8);
    assert forall|m: int| 0 <= m < 3 implies #[trigger] after[before.len() + 3 * c + m] == eta_bytes(p)[3 * c + m] by {
    }
}

/// Byte `n` of the encoding of `p`: 20-bit coefficients in `(-GAMMA1, GAMMA1]`, stored as `GAMMA1 - c`, two to five bytes.
pub open spec fn z_byte(p: Seq<i32>, n: int) -> u8 {
    let c = n / 5;
    let j = n % 5;
    let a0 = (0x8_0000 - p[2 * c + 0]) as i32;
    let a1 = (0x8_0000 - p[2 * c + 1]) as i32;
    if j == 0 {
        (a0) as u8
    } else if j == 1 {
        (a0 >> 8u32) as u8
    } else if j == 2 {
        ((a0 >> 16u32) | (a1 << 4u32)) as u8
    } else if j == 3 {
        (a1 >> 4u32) as u8
    } else {
        (a1 >> 12u32) as u8
    }
}

/// The 640-byte encoding of `p`.
pub open spec fn z_bytes(p: Seq<i32>) -> Seq<u8> {
    Seq::new(640, |n: int| z_byte(p, n))
}

/// Coefficient `i` decoded from the 640 bytes of `b` that start at `off`.
pub open spec fn z_coeff(b: Seq<u8>, off: int, i: int) -> i32 {
    let c = i / 2;
    let j = i % 2;
    let x0 = b[off + 5 * c + 0] as i32;
    let x1 = b[off + 5 * c + 1] as i32;
    let x2 = b[off + 5 * c + 2] as i32;
    let x3 = b[off + 5 * c + 3] as i32;
    let x4 = b[off + 5 * c + 4] as i32;
    if j == 0 {
        (0x8_0000 - ((x0 | (x1 << 8u32) | (x2 << 16u32)) & 0xf_ffff)) as i32
    } else {
        (0x8_0000 - (((x2 >> 4u32) | (x3 << 4u32) | (x4 << 12u32)) & 0xf_ffff)) as i32
    }
}

/// One chunk of the z encoding decodes to the coefficients it encodes.
proof fn lemma_z_chunk(v0: i32, v1: i32)
    by (bit_vector)
    requires
        -0x8_0000 < v0 <= 0x8_0000,
        -0x8_0000 < v1 <= 0x8_0000,
    ensures
        ({
            let a0 = (0x8_0000 - v0) as i32;
            let a1 = (0x8_0000 - v1) as i32;
            let x0 = ((a0) as u8) as i32;
            let x1 = ((a0 >> 8u32) as u8) as i32;
            let x2 = (((a0 >> 16u32) | (a1 << 4u32)) as u8) as i32;
            let x3 = ((a1 >> 4u32) as u8) as i32;
            let x4 = ((a1 >> 12u32) as u8) as i32;
            &&& (0x8_0000 - ((x0 | (x1 << 8u32) | (x2 << 16u32)) & 0xf_ffff)) as i32 == v0
            &&& (0x8_0000 - (((x2 >> 4u32) | (x3 << 4u32) | (x4 << 12u32)) & 0xf_ffff)) as i32 == v1
        }),
{
}

/// Decoding the z encoding of a polynomial whose coefficients are in range
/// gives the polynomial back.
pub proof fn lemma_z_round_trip(p: Seq<i32>, i: int)
    requires
        p.len() == 256,
        forall|k: int| 0 <= k < 256 ==> -0x8_0000 < #[trigger] p[k] <= 0x8_0000,
        0 <= i < 256,
    ensures
        z_coeff(z_bytes(p), 0, i) == p[i],
{
    let c = i / 2;
    lemma_chunk_index(i, 2);
    assert forall|k: int| 0 <= k < 5 implies #[trigger] z_bytes(p)[5 * c + k] == z_byte(p, 5 * c + k) by {
        lemma_chunk_index_converse(c, k, 5);
    }
    assert(0 <= 2 * c + 0 < 256);
    assert(0 <= 2 * c + 1 < 256);
    lemma_z_chunk(p[2 * c + 0], p[2 * c + 1]);
    lemma_chunk_index_converse(c, 0, 5);
    lemma_chunk_index_converse(c, 1, 5);
    lemma_chunk_index_converse(c, 2, 5);
    lemma_chunk_index_converse(c, 3, 5);
    lemma_chunk_index_converse(c, 4, 5);
}

/// Appends the 640-byte encoding of `p`: 20-bit coefficients in `(-GAMMA1, GAMMA1]`, stored as `GAMMA1 - c`, two to five bytes.
pub fn pack_z(p: &PlainPolynomial, out: &mut Vec<u8>)
    requires
        forall|k: int| 0 <= k < 256 ==> -0x8_0000 < #[trigger] p.coefficients[k] <= 0x8_0000,
    ensures
        final(out)@ == old(out)@ + z_bytes(p.coefficients@),
{
    let ghost start = old(out)@;
    let mut c: usize = 0;
    while c < 128
        invariant
            forall|k: int| 0 <= k < 256 ==> -0x8_0000 < #[trigger] p.coefficients[k] <= 0x8_0000,
            c <= 128,
            out@ == start + Seq::new((5 * c) as nat, |n: int| z_byte(p.coefficients@, n)),
        decreases 128 - c,
    {
            let a0 = GAMMA1 - p.coefficients[2 * c + 0];
            let a1 = GAMMA1 - p.coefficients[2 * c + 1];
            let ghost before = out@;
            out.push((a0) as u8);
            out.push((a0 >> 8u32) as u8);
            out.push(((a0 >> 16u32) | (a1 << 4u32)) as u8);
            out.push((a1 >> 4u32) as u8);
            out.push((a1 >> 12u32) as u8);
            proof {
                lemma_chunk_index_converse(c as int, 0, 5);
                lemma_chunk_index_converse(c as int, 1, 5);
                lemma_chunk_index_converse(c as int, 2, 5);
                lemma_chunk_index_converse(c as int, 3, 5);
                lemma_chunk_index_converse(c as int, 4, 5);
                assert(out@ =~= start + Seq::new((5 * (c + 1)) as nat, |n: int| z_byte(p.coefficients@, n)));
            }
            c += 1;
    }
    assert(out@ =~= start + z_bytes(p.coefficients@));
}

/// Decodes the 640 bytes of `bytes` that start at `off`: 20-bit coefficients in `(-GAMMA1, GAMMA1]`, stored as `GAMMA1 - c`, two to five bytes.
pub fn unpack_z(bytes: &[u8], off: usize) -> (r: PlainPolynomial)
    requires
        off + 640 <= bytes@.len(),
    ensures
        forall|i: int| 0 <= i < 256 ==> #[trigger] r.coefficients[i] == z_coeff(bytes@, off as int, i),
{
    let len = bytes.len();
    let mut r: [i32; 256] = [0; 256];
    let mut c: usize = 0;
    while c < 128
        invariant
            len == bytes@.len(),
            off + 640 <= bytes@.len(),
            c <= 128,
            forall|i: int| 0 <= i < 2 * c ==> #[trigger] r[i] == z_coeff(bytes@, off as int, i),
        decreases 128 - c,
    {
        let x0 = bytes[off + 5 * c + 0] as i32;
        let x1 = bytes[off + 5 * c + 1] as i32;
        let x2 = bytes[off + 5 * c + 2] as i32;
        let x3 = bytes[off + 5 * c + 3] as i32;
        let x4 = bytes[off + 5 * c + 4] as i32;
        let ghost before = r;
        proof {
            lemma_mask(x0 | (x1 << 8u32) | (x2 << 16u32), 0xf_ffff);
            lemma_mask((x2 >> 4u32) | (x3 << 4u32) | (x4 << 12u32), 0xf_ffff);
        }
        r[2 * c + 0] = GAMMA1 - ((x0 | (x1 << 8u32) | (x2 << 16u32)) & 0xf_ffff);
        r[2 * c + 1] = GAMMA1 - (((x2 >> 4u32) | (x3 << 4u32) | (x4 << 12u32)) & 0xf_ffff);
        proof {
            lemma_chunk_index_converse(c as int, 0, 2);
            lemma_chunk_index_converse(c as int, 1, 2);
            assert forall|i: int| 0 <= i < 2 * (c + 1) implies #[trigger] r[i] == z_coeff(bytes@, off as int, i) by {
                if i < 2 * c {
                    assert(r[i] == before[i]);
                } else {
                    lemma_chunk_index(i, 2);
                }
            }
        }
        c += 1;
    }
    PlainPolynomial::from_coefficients(r)
}

/// Every decoded coefficient lies in `[-0x7_ffff, 0x8_0000]`.
pub proof fn lemma_z_coeff_range(b: Seq<u8>, off: int, i: int)
    requires
        0 <= off,
        off + 640 <= b.len(),
        0 <= i < 256,
    ensures
        -0x7_ffff <= z_coeff(b, off, i) <= 0x8_0000,
{
    let c = i / 2;
    lemma_chunk_index(i, 2);
    let x0 = b[off + 5 * c + 0] as i32;
    let x1 = b[off + 5 * c + 1] as i32;
    let x2 = b[off + 5 * c + 2] as i32;
    let x3 = b[off + 5 * c + 3] as i32;
    let x4 = b[off + 5 * c + 4] as i32;
    lemma_mask(x0 | (x1 << 8u32) | (x2 << 16u32), 0xf_ffff);
    lemma_mask((x2 >> 4u32) | (x3 << 4u32) | (x4 << 12u32), 0xf_ffff);
}

/// Appending bytes after an encoding leaves its decoding unchanged.
pub proof fn lemma_z_frame(a: Seq<u8>, b: Seq<u8>, off: int, i: int)
    requires
        0 <= off,
        off + 640 <= a.len() <= b.len(),
        b.subrange(0, a.len() as int) == a,
        0 <= i < 256,
    ensures
        z_coeff(b, off, i) == z_coeff(a, off, i),
{
    let c = i / 2;
    lemma_chunk_index(i, 2);
    assert forall|m: int| 0 <= m < 5 implies #[trigger] b[off + 5 * c + m] == a[off + 5 * c + m] by {
        assert(b.subrange(0, a.len() as int)[off + 5 * c + m] == b[off + 5 * c + m]);
    }
}

/// The encoding of `p` appended to `before` decodes, at the end of
/// `before`, to `p`.
pub proof fn lemma_z_append(p: Seq<i32>, before: Seq<u8>, after: Seq<u8>, i: int)
    requires
        p.len() == 256,
        forall|k: int| 0 <= k < 256 ==> -0x8_0000 < #[trigger] p[k] <= 0x8_0000,
        0 <= i < 256,
        after == before + z_bytes(p),
    ensures
        z_coeff(after, before.len() as int, i) == p[i],
{
    lemma_z_round_trip(p, i);
    let c = i / 2;
    lemma_chunk_index(i, 2);
    assert forall|m: int| 0 <= m < 5 implies #[trigger] after[before.len() + 5 * c + m] == z_bytes(p)[5 * c + m] by {
    }
}

} // verus!
