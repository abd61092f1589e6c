//! The challenge polynomial: `TAU` coefficients of `±1` placed by a
//! Fisher-Yates shuffle driven by the XOF stream of a seed.
use vstd::prelude::*;

use crate::params::{HALF_SEED_SIZE, TAU};
use crate::polynomial::PlainPolynomial;
use crate::xof::{shake256, shake256_spec};

verus! {

/// Bytes of XOF output read for one challenge: eight sign bytes and room for
/// far more rejected draws than ever occur.
pub const CHALLENGE_STREAM_LEN: usize = 1088;

/// Every coefficient is `-1`, `0` or `1`.
pub open spec fn is_ternary(c: Seq<i32>) -> bool {
    forall|i: int| 0 <= i < c.len() ==> -1 <= #[trigger] c[i] <= 1
}

/// The first `n` bytes of `s` as a little-endian integer.
pub open spec fn le_bytes(s: Seq<u8>, n: int) -> u64
    decreases n,
{
    if n <= 0 {
        0
    } else {
        le_bytes(s, n - 1) | ((s[n - 1] as u64) << ((8 * (n - 1)) as u64))
    }
}

/// The sign bits: the low `TAU` bits of the first eight bytes.
pub open spec fn sign_bits(s: Seq<u8>) -> u64 {
    le_bytes(s, 8) & 0x0fff_ffff_ffff_ffff
}

/// The first position from `pos` on whose byte is at most `i`; `-1` if none.
pub open spec fn next_pick(s: Seq<u8>, pos: int, i: int) -> int
    decreases s.len() - pos,
{
    if pos < 0 || pos >= s.len() {
        -1
    } else if s[pos] as int <= i {
        pos
    } else {
        next_pick(s, pos + 1, i)
    }
}

/// The shuffle from index `i` on, reading `s` from `pos` with the remaining
/// sign bits `bits`: the picked `j` moves `c[j]` to `c[i]` and sets `c[j]` to
/// `1 - 2 * (bits & 1)`. `None` if `s` runs out.
pub open spec fn shuffle(s: Seq<u8>, c: Seq<i32>, pos: int, i: int, bits: u64) -> Option<Seq<i32>>
    decreases 256 - i,
{
    if i < 0 || i >= 256 {
        Some(c)
    } else {
        let p = next_pick(s, pos, i);
        if p < 0 {
            None
        } else {
            let j = s[p] as int;
            let c2 = c.update(i, c[j]).update(j, (1 - 2 * (bits & 1) as int) as i32);
            shuffle(s, c2, p + 1, i + 1, bits >> 1u64)
        }
    }
}

/// The challenge that the byte stream `s` gives: the shuffle of the zero
/// polynomial from index `256 - TAU`, reading `s` after its eight sign bytes.
pub open spec fn challenge_spec(s: Seq<u8>) -> Option<Seq<i32>> {
    if s.len() < 8 {
        None
    } else {
        shuffle(s, Seq::new(256, |x: int| 0i32), 8, 256 - TAU, sign_bits(s))
    }
}

/// The number of nonzero entries among the first `n` of `c`.
pub open spec fn nonzero_count(c: Seq<i32>, n: int) -> int
    decreases n,
{
    if n <= 0 {
        0
    } else {
        nonzero_count(c, n - 1) + if c[n - 1] != 0 {
            1int
        } else {
            0
        }
    }
}

proof fn lemma_nonzero_count_update(c: Seq<i32>, n: int, idx: int, v: i32)
    requires
        0 <= idx < c.len(),
        0 <= n <= c.len(),
    ensures
        nonzero_count(c.update(idx, v), n) == nonzero_count(c, n) + if idx < n {
            (if v != 0 {
                1int
            } else {
                0
            }) - (if c[idx] != 0 {
                1int
            } else {
                0
            })
        } else {
            0
        },
    decreases n,
{
    if n > 0 {
        lemma_nonzero_count_update(c, n - 1, idx, v);
    }
}

proof fn lemma_nonzero_count_zero_tail(c: Seq<i32>, n: int, m: int)
    requires
        0 <= n <= m <= c.len(),
        forall|i: int| n <= i < m ==> #[trigger] c[i] == 0,
    ensures
        nonzero_count(c, m) == nonzero_count(c, n),
    decreases m,
{
    if m > n {
        lemma_nonzero_count_zero_tail(c, n, m - 1);
    }
}

proof fn lemma_next_pick(s: Seq<u8>, start: int, pos: int, i: int)
    requires
        0 <= start <= pos <= s.len(),
        forall|x: int| start <= x < pos ==> s[x] as int > i,
    ensures
        next_pick(s, start, i) == next_pick(s, pos, i),
    decreases pos - start,
{
    if start < pos {
        lemma_next_pick(s, start + 1, pos, i);
    }
}

/// The challenge that the byte stream `stream` gives, computed by the
/// shuffle; `None` exactly when the stream runs out first.
pub fn sample_challenge(stream: &[u8]) -> (r: Option<PlainPolynomial>)
    ensures
        match r {
            Some(c) => {
                &&& challenge_spec(stream@) == Some(c.coefficients@)
                &&& is_ternary(c.coefficients@)
                &&& nonzero_count(c.coefficients@, 256) == TAU
            },
            None => challenge_spec(stream@) is None,
        },
{
    let len = stream.len();
    if len < 8 {
        return None;
    }
    let ghost s = stream@;
    let mut bits: u64 = 0;
    let mut b: usize = 0;
    while b < 8
        invariant
            b <= 8,
            len == s.len(),
            s == stream@,
            8 <= len,
            bits == le_bytes(s, b as int),
        decreases 8 - b,
    {
        bits = bits | ((stream[b] as u64) << ((8 * b) as u64));
        b += 1;
    }
    bits = bits & 0x0fff_ffff_ffff_ffff;
    let mut c: [i32; 256] = [0; 256];
    let mut pos: usize = 8;
    let mut i: usize = 256 - TAU;
    proof {
        assert forall|m: int| 0 <= m < 256 implies #[trigger] c@[m] == 0 by {
            assert(c[m] == 0);
        }
        lemma_nonzero_count_zero_tail(c@, 0, 256);
        assert(c@ =~= Seq::new(256, |x: int| 0i32));
    }
    while i < 256
        invariant
            256 - TAU <= i <= 256,
            len == s.len(),
            s == stream@,
            8 <= pos <= len,
            shuffle(s, c@, pos as int, i as int, bits) == challenge_spec(s),
            is_ternary(c@),
            nonzero_count(c@, 256) == i - (256 - TAU),
            forall|m: int| i <= m < 256 ==> #[trigger] c[m] == 0,
        decreases 256 - i,
    {
        let ghost start = pos;
        while pos < len && stream[pos] as usize > i
            invariant
                start <= pos <= len,
                len == s.len(),
                s == stream@,
                forall|x: int| start <= x < pos ==> s[x] as int > i,
            decreases len - pos,
        {
            pos += 1;
        }
        proof {
            lemma_next_pick(s, start as int, pos as int, i as int);
        }
        if pos == len {
            return None;
        }
        let j = stream[pos] as usize;
        pos += 1;
        let bit = bits & 1;
        proof {
            assert(bit <= 1) by (bit_vector)
                requires
                    bit == bits & 1,
            ;
        }
        let sign: i32 = bit as i32;
        let ghost c0 = c@;
        let moved = c[j];
        c[i] = moved;
        let ghost c1 = c@;
        let v = 1 - 2 * sign;
        c[j] = v;
        proof {
            lemma_nonzero_count_update(c0, 256, i as int, moved);
            lemma_nonzero_count_update(c1, 256, j as int, v);
            assert(c1 == c0.update(i as int, moved));
            assert(c@ == c1.update(j as int, v));
            assert(v == (1 - 2 * (bits & 1) as int) as i32);
        }
        bits = bits >> 1u64;
        i += 1;
    }
    Some(PlainPolynomial::from_coefficients(c))
}

/// The challenge for `seed`: the shuffle driven by the first
/// `CHALLENGE_STREAM_LEN` bytes of the SHAKE-256 stream of `seed`.
pub fn make_challenge(seed: &[u8; HALF_SEED_SIZE]) -> (r: Option<PlainPolynomial>)
    ensures
        match r {
            Some(c) => {
                &&& challenge_spec(shake256_spec(seed@, CHALLENGE_STREAM_LEN as nat)) == Some(
                    c.coefficients@,
                )
                &&& is_ternary(c.coefficients@)
                &&& nonzero_count(c.coefficients@, 256) == TAU
            },
            None => challenge_spec(shake256_spec(seed@, CHALLENGE_STREAM_LEN as nat)) is None,
        },
{
    let stream = shake256(seed, CHALLENGE_STREAM_LEN);
    proof {
        assert(stream@ =~= shake256_spec(seed@, CHALLENGE_STREAM_LEN as nat));
    }
    sample_challenge(stream.as_slice())
}

} // verus!
