//! Expansion of seeds into the public matrix and the secret and masking
//! vectors, by rejection sampling from a counter stream.
use vstd::prelude::*;

use crate::counter::{Counter, STREAM_LIMIT};
use crate::params::{ETA, GAMMA1, K, L, Q};
use crate::polynomial::{NTTPolynomial, PlainPolynomial};
use crate::vector::{Matrix, Vector};

verus! {

/// Candidate `t` for a uniform coefficient: bytes `3t .. 3t + 3` of the
/// stream, little-endian, masked to 23 bits.
pub open spec fn uniform_candidate<Ctr: Counter>(key: Seq<u8>, nonce: u16, t: int) -> i32 {
    let b0 = Ctr::stream(key, nonce, 3 * t) as i32;
    let b1 = Ctr::stream(key, nonce, 3 * t + 1) as i32;
    let b2 = Ctr::stream(key, nonce, 3 * t + 2) as i32;
    (b0 | (b1 << 8u32) | (b2 << 16u32)) & 0x7f_ffff
}

/// The candidates among the first `t` that lie in `[0, Q)`, in order.
pub open spec fn uniform_accepted<Ctr: Counter>(key: Seq<u8>, nonce: u16, t: nat) -> Seq<i32>
    decreases t,
{
    if t == 0 {
        seq![]
    } else {
        let prev = uniform_accepted::<Ctr>(key, nonce, (t - 1) as nat);
        let v = uniform_candidate::<Ctr>(key, nonce, t - 1);
        if v < Q {
            prev.push(v)
        } else {
            prev
        }
    }
}

/// `p` is the polynomial that rejection sampling draws for `nonce`: its 256
/// coefficients are the first accepted candidates of the stream.
pub open spec fn is_uniform_sample<Ctr: Counter>(key: Seq<u8>, nonce: u16, p: Seq<i32>) -> bool {
    exists|t: nat| 3 * t <= STREAM_LIMIT && #[trigger] uniform_accepted::<Ctr>(key, nonce, t) == p
        && p.len() == 256
}

/// Candidate `t` for a small coefficient: the low (even `t`) or high (odd
/// `t`) nibble of byte `t / 2` of the stream.
pub open spec fn eta_candidate<Ctr: Counter>(key: Seq<u8>, nonce: u16, t: int) -> i32 {
    let b = Ctr::stream(key, nonce, t / 2) as i32;
    if t % 2 == 0 {
        b & 0xf
    } else {
        b >> 4u32
    }
}

/// The coefficients `ETA - (v mod 5)` of the candidates `v` below 15 among
/// the first `t`, in order.
pub open spec fn eta_accepted<Ctr: Counter>(key: Seq<u8>, nonce: u16, t: nat) -> Seq<i32>
    decreases t,
{
    if t == 0 {
        seq![]
    } else {
        let prev = eta_accepted::<Ctr>(key, nonce, (t - 1) as nat);
        let v = eta_candidate::<Ctr>(key, nonce, t - 1);
        if v < 15 {
            prev.push((ETA - v % 5) as i32)
        } else {
            prev
        }
    }
}

pub open spec fn is_eta_sample<Ctr: Counter>(key: Seq<u8>, nonce: u16, p: Seq<i32>) -> bool {
    exists|t: nat| t <= 2 * STREAM_LIMIT && #[trigger] eta_accepted::<Ctr>(key, nonce, t) == p
        && p.len() == 256
}

/// Coefficient `i` of a masking polynomial: `GAMMA1 - v` where `v` is the
/// 20-bit little-endian value `i` of the stream (five bytes per two values).
pub open spec fn gamma1_coefficient<Ctr: Counter>(key: Seq<u8>, nonce: u16, i: int) -> i32 {
    let p = i / 2;
    let x0 = Ctr::stream(key, nonce, 5 * p) as i32;
    let x1 = Ctr::stream(key, nonce, 5 * p + 1) as i32;
    let x2 = Ctr::stream(key, nonce, 5 * p + 2) as i32;
    let x3 = Ctr::stream(key, nonce, 5 * p + 3) as i32;
    let x4 = Ctr::stream(key, nonce, 5 * p + 4) as i32;
    let v = if i % 2 == 0 {
        (x0 | (x1 << 8u32) | (x2 << 16u32)) & 0xf_ffff
    } else {
        ((x2 >> 4u32) | (x3 << 4u32) | (x4 << 12u32)) & 0xf_ffff
    };
    (GAMMA1 - v) as i32
}

proof fn lemma_byte_bits(b0: u8, b1: u8, b2: u8)
    ensures
        0 <= ((b0 as i32) | ((b1 as i32) << 8u32) | ((b2 as i32) << 16u32)) & 0x7f_ffff
            < 0x80_0000,
        0 <= (b0 as i32) & 0xf < 16,
        0 <= (b0 as i32) >> 4u32 < 16,
{
    assert(0 <= ((b0 as i32) | ((b1 as i32) << 8u32) | ((b2 as i32) << 16u32)) & 0x7f_ffff
        < 0x80_0000) by (bit_vector);
    assert(0 <= (b0 as i32) & 0xf < 16) by (bit_vector);
    assert(0 <= (b0 as i32) >> 4u32 < 16) by (bit_vector);
}

/// Draws one polynomial with coefficients uniform in `[0, Q)` from the
/// stream of `ctr`, read from its start; `None` if the stream runs out first.
fn sample_uniform<Ctr: Counter>(ctr: &mut Ctr) -> (r: Option<[i32; 256]>)
    requires
        old(ctr).inv(),
        old(ctr).position() == 0,
    ensures
        final(ctr).inv(),
        final(ctr).key() == old(ctr).key(),
        final(ctr).nonce() == old(ctr).nonce(),
        match r {
            Some(p) => is_uniform_sample::<Ctr>(old(ctr).key(), old(ctr).nonce(), p@) && forall|
                i: int,
            | 0 <= i < 256 ==> 0 <= #[trigger] p[i] < Q,
            None => uniform_accepted::<Ctr>(
                old(ctr).key(),
                old(ctr).nonce(),
                (STREAM_LIMIT / 3) as nat,
            ).len() < 256,
        },
{
    let ghost key = ctr.key();
    let ghost nonce = ctr.nonce();
    let mut poly: [i32; 256] = [0; 256];
    let mut filled: usize = 0;
    let mut t: usize = 0;
    while filled < 256
        invariant
            ctr.inv(),
            key == old(ctr).key(),
            nonce == old(ctr).nonce(),
            ctr.key() == key,
            ctr.nonce() == nonce,
            ctr.position() == 3 * t,
            3 * t <= STREAM_LIMIT,
            filled <= 256,
            filled == uniform_accepted::<Ctr>(key, nonce, t as nat).len(),
            forall|i: int|
                0 <= i < filled ==> #[trigger] poly[i] == uniform_accepted::<Ctr>(
                    key,
                    nonce,
                    t as nat,
                )[i],
            forall|i: int| 0 <= i < filled ==> 0 <= #[trigger] poly[i] < Q,
        decreases STREAM_LIMIT - 3 * t,
    {
        if t >= STREAM_LIMIT / 3 {
            return None;
        }
        let bytes: [u8; 3] = ctr.squeeze();
        let v = (bytes[0] as i32) | ((bytes[1] as i32) << 8u32) | ((bytes[2] as i32) << 16u32);
        let v = v & 0x7f_ffff;
        proof {
            lemma_byte_bits(bytes[0], bytes[1], bytes[2]);
            assert(v == uniform_candidate::<Ctr>(key, nonce, t as int));
        }
        let ghost prev = poly;
        if v < Q {
            poly[filled] = v;
            filled += 1;
        }
        t += 1;
        proof {
            assert forall|i: int| 0 <= i < filled implies #[trigger] poly[i] == uniform_accepted::<
                Ctr,
            >(key, nonce, t as nat)[i] by {
                if i < filled - 1 || v >= Q {
                    assert(poly[i] == prev[i]);
                }
            }
        }
    }
    proof {
        assert(uniform_accepted::<Ctr>(key, nonce, t as nat) =~= poly@);
    }
    Some(poly)
}

/// Draws one polynomial with coefficients in `[-ETA, ETA]` from the stream of
/// `ctr`, read from its start; `None` if the stream runs out first.
#[verifier::spinoff_prover]
fn sample_eta<Ctr: Counter>(ctr: &mut Ctr) -> (r: Option<[i32; 256]>)
    requires
        old(ctr).inv(),
        old(ctr).position() == 0,
    ensures
        final(ctr).inv(),
        final(ctr).key() == old(ctr).key(),
        final(ctr).nonce() == old(ctr).nonce(),
        match r {
            Some(p) => is_eta_sample::<Ctr>(old(ctr).key(), old(ctr).nonce(), p@) && forall|
                i: int,
            | 0 <= i < 256 ==> -ETA <= #[trigger] p[i] <= ETA,
            None => eta_accepted::<Ctr>(
                old(ctr).key(),
                old(ctr).nonce(),
                (2 * STREAM_LIMIT) as nat,
            ).len() < 256,
        },
{
    let ghost key = ctr.key();
    let ghost nonce = ctr.nonce();
    let mut poly: [i32; 256] = [0; 256];
    let mut filled: usize = 0;
    let mut t: usize = 0;
    while filled < 256
        invariant
            ctr.inv(),
            key == old(ctr).key(),
            nonce == old(ctr).nonce(),
            ctr.key() == key,
            ctr.nonce() == nonce,
            t % 2 == 0,
            ctr.position() == t / 2,
            t <= 2 * STREAM_LIMIT,
            filled <= 256,
            filled == eta_accepted::<Ctr>(key, nonce, t as nat).len(),
            forall|i: int|
                0 <= i < filled ==> #[trigger] poly[i] == eta_accepted::<Ctr>(
                    key,
                    nonce,
                    t as nat,
                )[i],
            forall|i: int| 0 <= i < filled ==> -ETA <= #[trigger] poly[i] <= ETA,
        decreases 2 * STREAM_LIMIT - t,
    {
        if t >= 2 * STREAM_LIMIT {
            return None;
        }
        let byte: [u8; 1] = ctr.squeeze();
        let lo = (byte[0] as i32) & 0xf;
        let hi = (byte[0] as i32) >> 4u32;
        proof {
            lemma_byte_bits(byte[0], 0, 0);
            assert((t + 1) / 2 == t / 2 && (t + 1) % 2 == 1) by {
                vstd::arithmetic::div_mod::lemma_fundamental_div_mod_converse(
                    (t + 1) as int,
                    2,
                    (t / 2) as int,
                    1,
                );
            }
            assert(lo == eta_candidate::<Ctr>(key, nonce, t as int));
            assert(hi == eta_candidate::<Ctr>(key, nonce, t + 1));
        }
        let ghost prev = poly;
        if lo < 15 {
            poly[filled] = ETA - lo % 5;
            filled += 1;
        }
        t += 1;
        proof {
            assert forall|i: int| 0 <= i < filled implies #[trigger] poly[i] == eta_accepted::<Ctr>(
                key,
                nonce,
                t as nat,
            )[i] by {
                if i < filled - 1 || lo >= 15 {
                    assert(poly[i] == prev[i]);
                }
            }
        }
        if filled < 256 {
            let ghost prev2 = poly;
            let ghost acc = eta_accepted::<Ctr>(key, nonce, t as nat);
            assert(eta_accepted::<Ctr>(key, nonce, (t + 1) as nat) == if hi < 15 {
                acc.push((ETA - hi % 5) as i32)
            } else {
                acc
            });
            if hi < 15 {
                poly[filled] = ETA - hi % 5;
                filled += 1;
            }
            proof {
                assert forall|i: int| 0 <= i < filled implies #[trigger] poly[i] == eta_accepted::<
                    Ctr,
                >(key, nonce, (t + 1) as nat)[i] by {
                    if i < filled - 1 || hi >= 15 {
                        assert(poly[i] == prev2[i]);
                    }
                }
            }
            t += 1;
            proof {
                vstd::arithmetic::div_mod::lemma_fundamental_div_mod_converse(
                    t as int,
                    2,
                    (t / 2) as int,
                    0,
                );
                vstd::arithmetic::div_mod::lemma_fundamental_div_mod_converse(
                    (t - 2) as int,
                    2,
                    ((t - 2) / 2) as int,
                    0,
                );
                assert(t / 2 == (t - 2) / 2 + 1);
            }
        } else {
            proof {
                assert(eta_accepted::<Ctr>(key, nonce, t as nat) =~= poly@);
            }
            return Some(poly);
        }
    }
    proof {
        assert(eta_accepted::<Ctr>(key, nonce, t as nat) =~= poly@);
    }
    Some(poly)
}

/// Draws one masking polynomial, coefficients in `(-GAMMA1, GAMMA1]`, from
/// the first 640 bytes of the stream of `ctr`.
fn sample_gamma1<Ctr: Counter>(ctr: &mut Ctr) -> (r: [i32; 256])
    requires
        old(ctr).inv(),
        old(ctr).position() == 0,
    ensures
        final(ctr).inv(),
        final(ctr).key() == old(ctr).key(),
        final(ctr).nonce() == old(ctr).nonce(),
        forall|i: int|
            0 <= i < 256 ==> #[trigger] r[i] == gamma1_coefficient::<Ctr>(
                old(ctr).key(),
                old(ctr).nonce(),
                i,
            ),
        forall|i: int| 0 <= i < 256 ==> -GAMMA1 < #[trigger] r[i] <= GAMMA1,
{
    let ghost key = ctr.key();
    let ghost nonce = ctr.nonce();
    let mut poly: [i32; 256] = [0; 256];
    let mut p: usize = 0;
    while p < 128
        invariant
            ctr.inv(),
            key == old(ctr).key(),
            nonce == old(ctr).nonce(),
            ctr.key() == key,
            ctr.nonce() == nonce,
            p <= 128,
            ctr.position() == 5 * p,
            forall|i: int|
                0 <= i < 2 * p ==> #[trigger] poly[i] == gamma1_coefficient::<Ctr>(key, nonce, i),
            forall|i: int| 0 <= i < 2 * p ==> -GAMMA1 < #[trigger] poly[i] <= GAMMA1,
        decreases 128 - p,
    {
        let first: [u8; 3] = ctr.squeeze();
        let rest: [u8; 2] = ctr.squeeze();
        let x0 = first[0] as i32;
        let x1 = first[1] as i32;
        let x2 = first[2] as i32;
        let x3 = rest[0] as i32;
        let x4 = rest[1] as i32;
        let v0 = (x0 | (x1 << 8u32) | (x2 << 16u32)) & 0xf_ffff;
        let v1 = ((x2 >> 4u32) | (x3 << 4u32) | (x4 << 12u32)) & 0xf_ffff;
        proof {
            assert(0 <= v0 < 0x10_0000 && 0 <= v1 < 0x10_0000) by (bit_vector)
                requires
                    v0 == (x0 | (x1 << 8u32) | (x2 << 16u32)) & 0xf_ffff,
                    v1 == ((x2 >> 4u32) | (x3 << 4u32) | (x4 << 12u32)) & 0xf_ffff,
            ;
            vstd::arithmetic::div_mod::lemma_fundamental_div_mod_converse(
                (2 * p) as int,
                2,
                p as int,
                0,
            );
            vstd::arithmetic::div_mod::lemma_fundamental_div_mod_converse(
                (2 * p + 1) as int,
                2,
                p as int,
                1,
            );
        }
        poly[2 * p] = GAMMA1 - v0;
        poly[2 * p + 1] = GAMMA1 - v1;
        p += 1;
    }
    poly
}

/// The public matrix: entry `(i, j)` is drawn uniformly from the stream for
/// nonce `256 * i + j`. `None` if one of those streams runs out.
#[verifier::spinoff_prover]
pub fn expand_a<Ctr: Counter>(ctr: Ctr) -> (r: Option<Matrix<NTTPolynomial, L, K>>)
    requires
        ctr.inv(),
    ensures
        match r {
            Some(a) => forall|i: int, j: int|
                0 <= i < K && 0 <= j < L ==> {
                    &&& is_uniform_sample::<Ctr>(
                        ctr.key(),
                        (256 * i + j) as u16,
                        (#[trigger] a.coefficients[i].coefficients[j]).coefficients@,
                    )
                    &&& forall|n: int|
                        0 <= n < 256 ==> 0 <= #[trigger] a.coefficients[i].coefficients[j].coefficients[n]
                            < Q
                },
            None => exists|i: int, j: int|
                0 <= i < K && 0 <= j < L && #[trigger] uniform_accepted::<Ctr>(
                    ctr.key(),
                    (256 * i + j) as u16,
                    (STREAM_LIMIT / 3) as nat,
                ).len() < 256,
        },
        match r {
            Some(a) => forall|i: int, j: int|
                0 <= i < K && 0 <= j < L ==> #[trigger] uniform_poly::<Ctr>(
                    ctr.key(),
                    (256 * i + j) as u16,
                ) == Some(a.coefficients[i].coefficients[j].coefficients@),
            None => exists|i: int, j: int|
                0 <= i < K && 0 <= j < L && #[trigger] uniform_poly::<Ctr>(
                    ctr.key(),
                    (256 * i + j) as u16,
                ) is None,
        },
{
    let mut stream = ctr;
    let ghost key = stream.key();
    let zero = NTTPolynomial::from_coefficients([0; 256]);
    let mut rows: [Vector<NTTPolynomial, L>; K] = [Vector { coefficients: [zero; L] }; K];
    let mut i: usize = 0;
    while i < K
        invariant
            stream.inv(),
            stream.key() == key,
            key == ctr.key(),
            i <= K,
            forall|m: int, j: int|
                0 <= m < i && 0 <= j < L ==> {
                    &&& is_uniform_sample::<Ctr>(
                        key,
                        (256 * m + j) as u16,
                        (#[trigger] rows[m].coefficients[j]).coefficients@,
                    )
                    &&& forall|n: int|
                        0 <= n < 256 ==> 0 <= #[trigger] rows[m].coefficients[j].coefficients[n] < Q
                },
        decreases K - i,
    {
        let mut row: [NTTPolynomial; L] = [zero; L];
        let mut j: usize = 0;
        while j < L
            invariant
                stream.inv(),
                stream.key() == key,
                key == ctr.key(),
                i < K,
                j <= L,
                forall|m: int|
                    0 <= m < j ==> {
                        &&& is_uniform_sample::<Ctr>(
                            key,
                            (256 * i + m) as u16,
                            (#[trigger] row[m]).coefficients@,
                        )
                        &&& forall|n: int| 0 <= n < 256 ==> 0 <= #[trigger] row[m].coefficients[n] < Q
                    },
            decreases L - j,
        {
            stream.reset((256 * i + j) as u16);
            match sample_uniform(&mut stream) {
                Some(poly) => {
                    row[j] = NTTPolynomial::from_coefficients(poly);
                },
                None => {
                    proof {
                        let (wi, wj) = (i as int, j as int);
                        assert(uniform_accepted::<Ctr>(
                            key,
                            (256 * wi + wj) as u16,
                            (STREAM_LIMIT / 3) as nat,
                        ).len() < 256);
                        assert(uniform_poly::<Ctr>(key, (256 * wi + wj) as u16) is None);
                    }
                    return None;
                },
            }
            j += 1;
        }
        let ghost prev = rows;
        rows[i] = Vector { coefficients: row };
        proof {
            assert forall|m: int, j: int| 0 <= m < i + 1 && 0 <= j < L implies {
                &&& is_uniform_sample::<Ctr>(
                    key,
                    (256 * m + j) as u16,
                    (#[trigger] rows[m].coefficients[j]).coefficients@,
                )
                &&& forall|n: int|
                    0 <= n < 256 ==> 0 <= #[trigger] rows[m].coefficients[j].coefficients[n] < Q
            } by {
                if m < i {
                    assert(rows[m] == prev[m]);
                } else {
                    assert(rows[m].coefficients[j] == row[j]);
                }
            }
        }
        i += 1;
    }
    let a = Vector { coefficients: rows };
    proof {
        assert forall|i: int, j: int| 0 <= i < K && 0 <= j < L implies #[trigger] uniform_poly::<Ctr>(
            ctr.key(),
            (256 * i + j) as u16,
        ) == Some(a.coefficients[i].coefficients[j].coefficients@) by {
            assert(is_uniform_sample::<Ctr>(
                key,
                (256 * i + j) as u16,
                rows[i].coefficients[j].coefficients@,
            ));
            lemma_uniform_sample_unique::<Ctr>(
                key,
                (256 * i + j) as u16,
                rows[i].coefficients[j].coefficients@,
            );
        }
    }
    Some(a)
}

/// `N` secret polynomials, entry `i` drawn from the stream for nonce
/// `nonce + i`, coefficients in `[-ETA, ETA]`. `None` if one of those streams
/// runs out.
pub fn expand_s<Ctr: Counter, const N: usize>(ctr: Ctr, nonce: u16) -> (r: Option<
    Vector<PlainPolynomial, N>,
>)
    requires
        ctr.inv(),
        nonce + N <= 0x1_0000,
    ensures
        match r {
            Some(s) => forall|i: int|
                0 <= i < N ==> {
                    &&& is_eta_sample::<Ctr>(
                        ctr.key(),
                        (nonce + i) as u16,
                        (#[trigger] s.coefficients[i]).coefficients@,
                    )
                    &&& forall|n: int|
                        0 <= n < 256 ==> -ETA <= #[trigger] s.coefficients[i].coefficients[n] <= ETA
                },
            None => exists|i: int|
                0 <= i < N && #[trigger] eta_accepted::<Ctr>(
                    ctr.key(),
                    (nonce + i) as u16,
                    (2 * STREAM_LIMIT) as nat,
                ).len() < 256,
        },
        match r {
            Some(s) => forall|i: int|
                0 <= i < N ==> #[trigger] eta_poly::<Ctr>(ctr.key(), (nonce + i) as u16) == Some(
                    s.coefficients[i].coefficients@,
                ),
            None => exists|i: int|
                0 <= i < N && #[trigger] eta_poly::<Ctr>(ctr.key(), (nonce + i) as u16) is None,
        },
{
    let mut stream = ctr;
    let ghost key = stream.key();
    let mut out: [PlainPolynomial; N] = [PlainPolynomial::zero(); N];
    let mut i: usize = 0;
    while i < N
        invariant
            stream.inv(),
            stream.key() == key,
            key == ctr.key(),
            i <= N,
            nonce + N <= 0x1_0000,
            forall|m: int|
                0 <= m < i ==> {
                    &&& is_eta_sample::<Ctr>(
                        key,
                        (nonce + m) as u16,
                        (#[trigger] out[m]).coefficients@,
                    )
                    &&& forall|n: int|
                        0 <= n < 256 ==> -ETA <= #[trigger] out[m].coefficients[n] <= ETA
                },
        decreases N - i,
    {
        stream.reset(nonce + i as u16);
        match sample_eta(&mut stream) {
            Some(poly) => {
                out[i] = PlainPolynomial::from_coefficients(poly);
            },
            None => {
                proof {
                    let wi = i as int;
                    assert(eta_accepted::<Ctr>(
                        key,
                        (nonce + wi) as u16,
                        (2 * STREAM_LIMIT) as nat,
                    ).len() < 256);
                    assert(eta_poly::<Ctr>(key, (nonce + wi) as u16) is None);
                }
                return None;
            },
        }
        i += 1;
    }
    let v = Vector { coefficients: out };
    proof {
        assert forall|i: int| 0 <= i < N implies #[trigger] eta_poly::<Ctr>(
            ctr.key(),
            (nonce + i) as u16,
        ) == Some(v.coefficients[i].coefficients@) by {
            assert(is_eta_sample::<Ctr>(key, (nonce + i) as u16, out[i].coefficients@));
            lemma_eta_sample_unique::<Ctr>(key, (nonce + i) as u16, out[i].coefficients@);
        }
    }
    Some(v)
}

/// The `L` masking polynomials of attempt `nonce`: entry `j` is read from the
/// stream for nonce `L * nonce + j`, coefficients in `(-GAMMA1, GAMMA1]`.
pub fn expand_y<Ctr: Counter>(ctr: Ctr, nonce: u16) -> (r: Vector<PlainPolynomial, L>)
    requires
        ctr.inv(),
        L * (nonce + 1) <= 0xffff,
    ensures
        forall|j: int, n: int|
            0 <= j < L && 0 <= n < 256 ==> #[trigger] r.coefficients[j].coefficients[n]
                == gamma1_coefficient::<Ctr>(ctr.key(), (L * nonce + j) as u16, n),
        forall|j: int, n: int|
            0 <= j < L && 0 <= n < 256 ==> -GAMMA1 < #[trigger] r.coefficients[j].coefficients[n]
                <= GAMMA1,
{
    let mut stream = ctr;
    let ghost key = stream.key();
    let mut out: [PlainPolynomial; L] = [PlainPolynomial::zero(); L];
    let mut j: usize = 0;
    while j < L
        invariant
            stream.inv(),
            stream.key() == key,
            key == ctr.key(),
            j <= L,
            L * (nonce + 1) <= 0xffff,
            forall|m: int, n: int|
                0 <= m < j && 0 <= n < 256 ==> #[trigger] out[m].coefficients[n]
                    == gamma1_coefficient::<Ctr>(key, (L * nonce + m) as u16, n),
            forall|m: int, n: int|
                0 <= m < j && 0 <= n < 256 ==> -GAMMA1 < #[trigger] out[m].coefficients[n] <= GAMMA1,
        decreases L - j,
    {
        stream.reset(L as u16 * nonce + j as u16);
        let poly = sample_gamma1(&mut stream);
        let ghost prev = out;
        out[j] = PlainPolynomial::from_coefficients(poly);
        proof {
            assert forall|m: int, n: int| 0 <= m < j + 1 && 0 <= n < 256 implies #[trigger] out[
                m
            ].coefficients[n] == gamma1_coefficient::<Ctr>(key, (L * nonce + m) as u16, n)
                && -GAMMA1 < out[m].coefficients[n] <= GAMMA1 by {
                if m < j {
                    assert(out[m] == prev[m]);
                }
            }
        }
        j += 1;
    }
    Vector { coefficients: out }
}

proof fn lemma_uniform_prefix<Ctr: Counter>(key: Seq<u8>, nonce: u16, t: nat, u: nat)
    requires
        t <= u,
    ensures
        uniform_accepted::<Ctr>(key, nonce, t).len() <= uniform_accepted::<Ctr>(key, nonce, u).len(),
        uniform_accepted::<Ctr>(key, nonce, u).subrange(
            0,
            uniform_accepted::<Ctr>(key, nonce, t).len() as int,
        ) == uniform_accepted::<Ctr>(key, nonce, t),
    decreases u,
{
    if t == u {
        assert(uniform_accepted::<Ctr>(key, nonce, u).subrange(
            0,
            uniform_accepted::<Ctr>(key, nonce, t).len() as int,
        ) =~= uniform_accepted::<Ctr>(key, nonce, t));
    } else {
        lemma_uniform_prefix::<Ctr>(key, nonce, t, (u - 1) as nat);
        let prev = uniform_accepted::<Ctr>(key, nonce, (u - 1) as nat);
        let n = uniform_accepted::<Ctr>(key, nonce, t).len() as int;
        assert(uniform_accepted::<Ctr>(key, nonce, u).subrange(0, n) =~= prev.subrange(0, n));
    }
}

proof fn lemma_eta_prefix<Ctr: Counter>(key: Seq<u8>, nonce: u16, t: nat, u: nat)
    requires
        t <= u,
    ensures
        eta_accepted::<Ctr>(key, nonce, t).len() <= eta_accepted::<Ctr>(key, nonce, u).len(),
        eta_accepted::<Ctr>(key, nonce, u).subrange(
            0,
            eta_accepted::<Ctr>(key, nonce, t).len() as int,
        ) == eta_accepted::<Ctr>(key, nonce, t),
    decreases u,
{
    if t == u {
        assert(eta_accepted::<Ctr>(key, nonce, u).subrange(
            0,
            eta_accepted::<Ctr>(key, nonce, t).len() as int,
        ) =~= eta_accepted::<Ctr>(key, nonce, t));
    } else {
        lemma_eta_prefix::<Ctr>(key, nonce, t, (u - 1) as nat);
        let prev = eta_accepted::<Ctr>(key, nonce, (u - 1) as nat);
        let n = eta_accepted::<Ctr>(key, nonce, t).len() as int;
        assert(eta_accepted::<Ctr>(key, nonce, u).subrange(0, n) =~= prev.subrange(0, n));
    }
}

/// The polynomial that uniform rejection sampling draws for `nonce`: the
/// first 256 accepted candidates of the stream, if its usable part holds
/// that many.
pub open spec fn uniform_poly<Ctr: Counter>(key: Seq<u8>, nonce: u16) -> Option<Seq<i32>> {
    let all = uniform_accepted::<Ctr>(key, nonce, (STREAM_LIMIT / 3) as nat);
    if all.len() >= 256 {
        Some(all.subrange(0, 256))
    } else {
        None
    }
}

/// The polynomial that small-coefficient sampling draws for `nonce`, if the
/// usable part of the stream holds enough accepted candidates.
pub open spec fn eta_poly<Ctr: Counter>(key: Seq<u8>, nonce: u16) -> Option<Seq<i32>> {
    let all = eta_accepted::<Ctr>(key, nonce, (2 * STREAM_LIMIT) as nat);
    if all.len() >= 256 {
        Some(all.subrange(0, 256))
    } else {
        None
    }
}

/// A uniform sample is the one polynomial that the stream gives.
pub proof fn lemma_uniform_sample_unique<Ctr: Counter>(key: Seq<u8>, nonce: u16, p: Seq<i32>)
    requires
        is_uniform_sample::<Ctr>(key, nonce, p),
    ensures
        uniform_poly::<Ctr>(key, nonce) == Some(p),
{
    let t = choose|t: nat|
        3 * t <= STREAM_LIMIT && #[trigger] uniform_accepted::<Ctr>(key, nonce, t) == p && p.len()
            == 256;
    lemma_uniform_prefix::<Ctr>(key, nonce, t, (STREAM_LIMIT / 3) as nat);
}

/// A small-coefficient sample is the one polynomial that the stream gives.
pub proof fn lemma_eta_sample_unique<Ctr: Counter>(key: Seq<u8>, nonce: u16, p: Seq<i32>)
    requires
        is_eta_sample::<Ctr>(key, nonce, p),
    ensures
        eta_poly::<Ctr>(key, nonce) == Some(p),
{
    let t = choose|t: nat|
        t <= 2 * STREAM_LIMIT && #[trigger] eta_accepted::<Ctr>(key, nonce, t) == p && p.len()
            == 256;
    lemma_eta_prefix::<Ctr>(key, nonce, t, (2 * STREAM_LIMIT) as nat);
}

} // verus!
