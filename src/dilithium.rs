//! Key generation, signing with aborts, and verification.
use vstd::prelude::*;

use crate::challenge::{challenge_spec, make_challenge, CHALLENGE_STREAM_LEN};
use crate::coefficient::{
    abs_spec, caddq_spec, decompose_spec, montgomery_spec, power2round_spec, reduce_32_spec,
};
use crate::counter::{Counter, SoftwareAesCounter};
use crate::expand::{
    eta_poly, expand_a, expand_s, expand_y, gamma1_coefficient, is_eta_sample, uniform_poly,
};
use crate::hint::{hint_bit, hint_listed, hint_well_formed, make_hint, ones, pack_hint, unpack_hint, Hint};
use crate::ntt::{bounded, forward_spec, inverse_spec};
use crate::packing::{
    eta_coeff, lemma_eta_append, lemma_eta_frame, lemma_t0_append, lemma_t0_frame,
    lemma_t1_append, lemma_t1_frame, lemma_z_append, lemma_z_frame, pack_eta, pack_t0, pack_t1, pack_z, t0_coeff, t1_coeff, unpack_eta,
    unpack_t0, unpack_t1, unpack_z, z_coeff,
};
use crate::params::{
    BETA, ETA_PACKED_SIZE, GAMMA1, GAMMA2, HALF_SEED_SIZE, K, L, OMEGA, POLYZ_PACKED_SIZE,
    PUBLIC_KEY_SIZE, Q, SECRET_KEY_SIZE, SEED_SIZE, SIGNATURE_SIZE, T0_PACKED_SIZE,
    T1_PACKED_SIZE,
};
use crate::polynomial::{product_fits, sum_fits, NTTPolynomial, PlainPolynomial};
use crate::vector::{dot_spec, use_hint_spec, Matrix, Vector};
use crate::xof::{shake256, shake256_spec};

verus! {

pub type PublicKey = [u8; PUBLIC_KEY_SIZE];

pub type SecretKey = [u8; SECRET_KEY_SIZE];

pub type Signature = [u8; SIGNATURE_SIZE];

/// Offset of the packed hint in a signature.
pub const HINT_OFFSET: usize = 4512;
/// Largest attempt number of the signing loop: `L * (attempt + 1)` nonces
/// must fit in 16 bits.
pub const MAX_ATTEMPTS: u16 = 9362;

/// Every entry of the matrix has its coefficients in `[0, Q)`.
pub open spec fn matrix_canonical(a: Matrix<NTTPolynomial, L, K>) -> bool {
    forall|k: int, j: int, i: int|
        0 <= k < K && 0 <= j < L && 0 <= i < 256 ==> 0 <= #[trigger] a.coefficients[k].coeff(j, i)
            < Q
}

/// Coefficient `i` of polynomial `j` of the `z` part of signature bytes `s`.
pub open spec fn signature_z(s: Seq<u8>, j: int, i: int) -> i32 {
    z_coeff(s, 32 + POLYZ_PACKED_SIZE * j, i)
}

/// Some coefficient of `z` is `GAMMA1 - BETA` or more in absolute value.
pub open spec fn z_too_large(s: Seq<u8>) -> bool {
    exists|j: int, i: int|
        0 <= j < L && 0 <= i < 256 && abs_spec(#[trigger] signature_z(s, j, i) as int) >= GAMMA1
            - BETA
}

/// `mu`: the 64-byte digest of `tr` followed by the message.
pub open spec fn message_digest(tr: Seq<u8>, msg: Seq<u8>) -> Seq<u8> {
    shake256_spec(tr + msg, 64)
}

/// `seed` is the challenge seed derived from `mu` and the encoding of some
/// vector of high parts `w1`.
pub open spec fn binds_challenge(seed: Seq<u8>, mu: Seq<u8>) -> bool {
    exists|w1: Vector<PlainPolynomial, K>| seed == #[trigger] shake256_spec(mu + w1_bytes(w1), 32)
}

proof fn lemma_product_fits(a: i32, b: i32)
    requires
        -9 * Q < a < 9 * Q,
        -9 * Q < b < 9 * Q,
    ensures
        product_fits(a, b),
{
    assert(-0x8000_0000 * Q < a * b < 0x8000_0000 * Q) by (nonlinear_arith)
        requires
            -9 * Q < a < 9 * Q,
            -9 * Q < b < 9 * Q,
    ;
}

/// Appends `b` to `out`.
fn append(out: &mut Vec<u8>, b: &[u8])
    ensures
        final(out)@ == old(out)@ + b@,
{
    let mut i: usize = 0;
    while i < b.len()
        invariant
            i <= b@.len(),
            out@ == old(out)@ + b@.subrange(0, i as int),
        decreases b@.len() - i,
    {
        out.push(b[i]);
        i += 1;
        assert(out@ =~= old(out)@ + b@.subrange(0, i as int));
    }
    assert(b@.subrange(0, b@.len() as int) =~= b@);
}

/// The 32 bytes of `b` that start at `off`.
fn half_seed_at(b: &[u8], off: usize) -> (r: [u8; HALF_SEED_SIZE])
    requires
        off + HALF_SEED_SIZE <= b@.len(),
    ensures
        r@ == b@.subrange(off as int, off + HALF_SEED_SIZE),
{
    let n = b.len();
    let mut r = [0u8; HALF_SEED_SIZE];
    let mut i: usize = 0;
    while i < HALF_SEED_SIZE
        invariant
            n == b@.len(),
            off + HALF_SEED_SIZE <= b@.len(),
            i <= HALF_SEED_SIZE,
            forall|m: int| 0 <= m < i ==> #[trigger] r[m] == b@[off + m],
        decreases HALF_SEED_SIZE - i,
    {
        r[i] = b[off + i];
        i += 1;
    }
    assert(r@ =~= b@.subrange(off as int, off + HALF_SEED_SIZE));
    r
}

/// The bytes of `v` as an array of `N` bytes.
fn to_array<const N: usize>(v: &Vec<u8>) -> (r: [u8; N])
    requires
        v@.len() == N,
    ensures
        r@ == v@,
{
    let mut r = [0u8; N];
    let mut i: usize = 0;
    while i < N
        invariant
            v@.len() == N,
            i <= N,
            forall|m: int| 0 <= m < i ==> #[trigger] r[m] == v@[m],
        decreases N - i,
    {
        r[i] = v[i];
        i += 1;
    }
    assert(r@ =~= v@);
    r
}

/// Row `k` of `A * y` in NTT form, each coefficient reduced into `(-Q, Q)`,
/// then brought back by the inverse transform.
pub open spec fn w_row(a: Matrix<NTTPolynomial, L, K>, y: Vector<NTTPolynomial, L>, k: int) -> Seq<
    i32,
> {
    inverse_spec(
        Seq::new(
            256,
            |x: int|
                reduce_32_spec(
                    dot_spec(a.coefficients[k].coefficients@, y.coefficients@, L as int, x),
                ) as i32,
        ),
    )
}

/// Every entry of `yh` is the forward transform of the entry of `y`.
pub open spec fn is_forward_of(yh: Vector<NTTPolynomial, L>, y: Vector<PlainPolynomial, L>) -> bool {
    forall|j: int|
        0 <= j < L ==> #[trigger] yh.coefficients[j].coefficients@ == forward_spec(
            y.coefficients[j].coefficients@,
        )
}

/// `w = A * y` brought back to plain coefficients in `[0, Q)`.
#[verifier::spinoff_prover]
pub fn make_w(a: &Matrix<NTTPolynomial, L, K>, y: &Vector<NTTPolynomial, L>) -> (r: Vector<
    PlainPolynomial,
    K,
>)
    requires
        matrix_canonical(*a),
        y.bounded_by(9 * Q),
    ensures
        r.canonical(),
        forall|k: int, i: int|
            0 <= k < K && 0 <= i < 256 ==> #[trigger] r.coeff(k, i) == caddq_spec(
                w_row(*a, *y, k)[i] as int,
            ),
{
    assert forall|k: int, j: int, i: int|
        0 <= k < K && 0 <= j < L && 0 <= i < 256 implies product_fits(
        #[trigger] a.coefficients[k].coeff(j, i),
        y.coeff(j, i),
    ) by {
        assert(bounded(y.coefficients[j].coefficients@, 9 * Q));
        lemma_product_fits(a.coefficients[k].coeff(j, i), y.coeff(j, i));
    }
    let ay = a.mul_vector(y);
    assert forall|k: int, i: int| 0 <= k < K && 0 <= i < 256 implies #[trigger] ay.coeff(k, i)
        <= i32::MAX - 0x40_0000 by {
        assert(bounded(ay.coefficients[k].coefficients@, L * Q + 1));
    }
    let reduced = ay.reduce_32();
    let plain = reduced.into_plain();
    proof {
        assert forall|k: int| 0 <= k < K implies #[trigger] plain.coefficients[k].coefficients@
            == w_row(*a, *y, k) by {
            assert(reduced.coefficients[k].coefficients@ =~= Seq::new(
                256,
                |x: int|
                    reduce_32_spec(
                        dot_spec(a.coefficients[k].coefficients@, y.coefficients@, L as int, x),
                    ) as i32,
            )) by {
                assert forall|x: int| 0 <= x < 256 implies #[trigger] reduced.coefficients[k].coefficients@[x]
                    == reduce_32_spec(
                    dot_spec(a.coefficients[k].coefficients@, y.coefficients@, L as int, x),
                ) as i32 by {
                    assert(reduced.coeff(k, x) == reduce_32_spec(ay.coeff(k, x) as int));
                    assert(ay.coeff(k, x) == dot_spec(
                        a.coefficients[k].coefficients@,
                        y.coefficients@,
                        L as int,
                        x,
                    ));
                }
            }
        }
    }
    let r = plain.caddq();
    proof {
        assert forall|k: int, i: int| 0 <= k < K && 0 <= i < 256 implies #[trigger] r.coeff(k, i)
            == caddq_spec(w_row(*a, *y, k)[i] as int) by {
            assert(plain.coefficients[k].coefficients@ == w_row(*a, *y, k));
            assert(r.coeff(k, i) == caddq_spec(plain.coeff(k, i) as int));
        }
    }
    r
}

/// For the matrix `a` and the masking vector `y`: `w = A * NTT(y)` in
/// `[0, Q)`, its decomposition `(w0, w1)` and its rounding `(t0, t1)`.
pub fn make_w_and_t_vecs(a: &Matrix<NTTPolynomial, L, K>, y: Vector<PlainPolynomial, L>) -> (r: (
    Vector<PlainPolynomial, K>,
    Vector<PlainPolynomial, K>,
    Vector<PlainPolynomial, K>,
    Vector<PlainPolynomial, K>,
))
    requires
        matrix_canonical(*a),
        y.bounded_by(Q as int),
    ensures
        exists|yh: Vector<NTTPolynomial, L>|
            {
                &&& #[trigger] is_forward_of(yh, y)
                &&& forall|k: int, i: int|
                    0 <= k < K && 0 <= i < 256 ==> {
                        let w = caddq_spec(w_row(*a, yh, k)[i] as int);
                        &&& 0 <= w < Q
                        &&& (#[trigger] r.0.coeff(k, i) as int, r.1.coeff(k, i) as int)
                            == decompose_spec(w)
                        &&& (r.2.coeff(k, i) as int, r.3.coeff(k, i) as int) == power2round_spec(w)
                    }
            },
{
    let y_ntt = y.into_ntt();
    let w = make_w(a, &y_ntt);
    let (w0, w1) = w.decompose();
    let (t0, t1) = w.power2round();
    proof {
        assert forall|k: int, i: int| 0 <= k < K && 0 <= i < 256 implies {
            let wv = caddq_spec(w_row(*a, y_ntt, k)[i] as int);
            &&& 0 <= wv < Q
            &&& (#[trigger] w0.coeff(k, i) as int, w1.coeff(k, i) as int) == decompose_spec(wv)
            &&& (t0.coeff(k, i) as int, t1.coeff(k, i) as int) == power2round_spec(wv)
        } by {
            assert(w.coeff(k, i) == caddq_spec(w_row(*a, y_ntt, k)[i] as int));
            assert(0 <= w.coeff(k, i) < Q);
            assert((t0.coeff(k, i) as int, t1.coeff(k, i) as int) == power2round_spec(w.coeff(k, i) as int));
        }
        assert(is_forward_of(y_ntt, y));
    }
    (w0, w1, t0, t1)
}

/// Byte `m` of the encoding of the high parts `w1`: two 4-bit coefficients
/// per byte, polynomial after polynomial.
pub open spec fn w1_byte(w1: Vector<PlainPolynomial, K>, m: int) -> u8 {
    let k = m / 128;
    let n = m % 128;
    (w1.coeff(k, 2 * n) | (w1.coeff(k, 2 * n + 1) << 4u32)) as u8
}

/// The encoding of the high parts `w1` that is hashed into the challenge
/// seed.
pub open spec fn w1_bytes(w1: Vector<PlainPolynomial, K>) -> Seq<u8> {
    Seq::new((K * 128) as nat, |m: int| w1_byte(w1, m))
}

/// The encoding of the high parts `w1` hashed into the challenge seed: two
/// 4-bit coefficients per byte.
fn pack_w1(w1: &Vector<PlainPolynomial, K>) -> (r: Vec<u8>)
    ensures
        r@ == w1_bytes(*w1),
{
    let mut out: Vec<u8> = Vec::new();
    let mut k: usize = 0;
    while k < K
        invariant
            k <= K,
            out@ == Seq::new((128 * k) as nat, |m: int| w1_byte(*w1, m)),
        decreases K - k,
    {
        let p = w1.coefficients[k];
        let mut i: usize = 0;
        while i < 128
            invariant
                i <= 128,
                k < K,
                p == w1.coefficients[k as int],
                out@ == Seq::new((128 * k + i) as nat, |m: int| w1_byte(*w1, m)),
            decreases 128 - i,
        {
            let b = #[verifier::truncate] ((p.coefficients[2 * i] | (p.coefficients[2 * i + 1]
                << 4u32)) as u8);
            proof {
                vstd::arithmetic::div_mod::lemma_fundamental_div_mod_converse(
                    (128 * k + i) as int,
                    128,
                    k as int,
                    i as int,
                );
                assert(b == w1_byte(*w1, (128 * k + i) as int));
            }
            out.push(b);
            i += 1;
            assert(out@ =~= Seq::new((128 * k + i) as nat, |m: int| w1_byte(*w1, m)));
        }
        k += 1;
    }
    assert(out@ =~= w1_bytes(*w1));
    out
}

/// The public key: `rho`, then the 10-bit encoding of each polynomial of `t1`.
fn pack_public_key(rho: &[u8; HALF_SEED_SIZE], t1: &Vector<PlainPolynomial, K>) -> (r: PublicKey)
    requires
        forall|k: int, i: int| 0 <= k < K && 0 <= i < 256 ==> 0 <= #[trigger] t1.coeff(k, i) < 0x400,
    ensures
        r@.subrange(0, 32) == rho@,
        forall|k: int, i: int|
            0 <= k < K && 0 <= i < 256 ==> #[trigger] public_t1(r@, k, i) == t1.coeff(k, i),
{
    let mut out: Vec<u8> = Vec::new();
    append(&mut out, rho);
    let mut k: usize = 0;
    while k < K
        invariant
            k <= K,
            out@.len() == 32 + T1_PACKED_SIZE * k,
            out@.subrange(0, 32) == rho@,
            forall|m: int, i: int|
                0 <= m < K && 0 <= i < 256 ==> 0 <= #[trigger] t1.coeff(m, i) < 0x400,
            forall|m: int, i: int|
                0 <= m < k && 0 <= i < 256 ==> #[trigger] public_t1(out@, m, i) == t1.coeff(m, i),
        decreases K - k,
    {
        let p = t1.coefficients[k];
        assert forall|i: int| 0 <= i < 256 implies 0 <= #[trigger] p.coefficients[i] < 0x400 by {
            assert(0 <= t1.coeff(k as int, i) < 0x400);
        }
        let ghost before = out@;
        pack_t1(&p, &mut out);
        proof {
            assert(out@.subrange(0, 32) =~= before.subrange(0, 32));
            assert(out@.subrange(0, before.len() as int) =~= before);
            assert forall|m: int, i: int| 0 <= m < k + 1 && 0 <= i < 256 implies #[trigger] public_t1(
                out@,
                m,
                i,
            ) == t1.coeff(m, i) by {
                if m < k {
                    assert(public_t1(before, m, i) == t1.coeff(m, i));
                    lemma_t1_frame(before, out@, 32 + T1_PACKED_SIZE * m, i);
                } else {
                    lemma_t1_append(p.coefficients@, before, out@, i);
                }
            }
        }
        k += 1;
    }
    to_array(&out)
}

/// Coefficient `i` of polynomial `k` of `t1` in public key bytes `pk`.
pub open spec fn public_t1(pk: Seq<u8>, k: int, i: int) -> i32 {
    t1_coeff(pk, 32 + T1_PACKED_SIZE * k, i)
}

/// Coefficient `i` of polynomial `j` of `s1` in secret key bytes `sk`.
pub open spec fn secret_s1(sk: Seq<u8>, j: int, i: int) -> i32 {
    eta_coeff(sk, 96 + ETA_PACKED_SIZE * j, i)
}

/// Coefficient `i` of polynomial `k` of `s2` in secret key bytes `sk`.
pub open spec fn secret_s2(sk: Seq<u8>, k: int, i: int) -> i32 {
    eta_coeff(sk, 96 + ETA_PACKED_SIZE * L + ETA_PACKED_SIZE * k, i)
}

/// Polynomial `j` of `s1` in secret key bytes `sk`.
pub open spec fn secret_s1_poly(sk: Seq<u8>, j: int) -> Seq<i32> {
    Seq::new(256, |i: int| secret_s1(sk, j, i))
}

/// Polynomial `k` of `s2` in secret key bytes `sk`.
pub open spec fn secret_s2_poly(sk: Seq<u8>, k: int) -> Seq<i32> {
    Seq::new(256, |i: int| secret_s2(sk, k, i))
}

/// Coefficient `i` of polynomial `k` of `t0` in secret key bytes `sk`.
pub open spec fn secret_t0(sk: Seq<u8>, k: int, i: int) -> i32 {
    t0_coeff(sk, 96 + ETA_PACKED_SIZE * (L + K) + T0_PACKED_SIZE * k, i)
}

/// Appends the 3-bit encodings of the `N` polynomials of `v`.
fn append_eta_vector<const N: usize>(out: &mut Vec<u8>, v: &Vector<PlainPolynomial, N>)
    requires
        forall|k: int, i: int| 0 <= k < N && 0 <= i < 256 ==> -2 <= #[trigger] v.coeff(k, i) <= 2,
    ensures
        final(out)@.len() == old(out)@.len() + ETA_PACKED_SIZE * N,
        final(out)@.subrange(0, old(out)@.len() as int) == old(out)@,
        forall|k: int, i: int|
            0 <= k < N && 0 <= i < 256 ==> #[trigger] eta_coeff(
                final(out)@,
                old(out)@.len() + ETA_PACKED_SIZE * k,
                i,
            ) == v.coeff(k, i),
{
    let ghost start = out@;
    let mut k: usize = 0;
    while k < N
        invariant
            k <= N,
            out@.len() == start.len() + ETA_PACKED_SIZE * k,
            out@.subrange(0, start.len() as int) == start,
            forall|m: int, i: int| 0 <= m < N && 0 <= i < 256 ==> -2 <= #[trigger] v.coeff(m, i) <= 2,
            forall|m: int, i: int|
                0 <= m < k && 0 <= i < 256 ==> #[trigger] eta_coeff(
                    out@,
                    start.len() + ETA_PACKED_SIZE * m,
                    i,
                ) == v.coeff(m, i),
        decreases N - k,
    {
        let p = v.coefficients[k];
        assert forall|i: int| 0 <= i < 256 implies -2 <= #[trigger] p.coefficients[i] <= 2 by {
            assert(-2 <= v.coeff(k as int, i) <= 2);
        }
        let ghost before = out@;
        pack_eta(&p, out);
        proof {
            assert(out@.subrange(0, start.len() as int) =~= start);
            assert(out@.subrange(0, before.len() as int) =~= before);
            assert forall|m: int, i: int| 0 <= m < k + 1 && 0 <= i < 256 implies #[trigger] eta_coeff(
                out@,
                start.len() + ETA_PACKED_SIZE * m,
                i,
            ) == v.coeff(m, i) by {
                if m < k {
                    assert(eta_coeff(before, start.len() + ETA_PACKED_SIZE * m, i) == v.coeff(m, i));
                    lemma_eta_frame(before, out@, start.len() + ETA_PACKED_SIZE * m, i);
                } else {
                    lemma_eta_append(p.coefficients@, before, out@, i);
                }
            }
        }
        k += 1;
    }
}

/// Appends the 13-bit encodings of the `N` polynomials of `v`.
fn append_t0_vector<const N: usize>(out: &mut Vec<u8>, v: &Vector<PlainPolynomial, N>)
    requires
        forall|k: int, i: int|
            0 <= k < N && 0 <= i < 256 ==> -0x1000 < #[trigger] v.coeff(k, i) <= 0x1000,
    ensures
        final(out)@.len() == old(out)@.len() + T0_PACKED_SIZE * N,
        final(out)@.subrange(0, old(out)@.len() as int) == old(out)@,
        forall|k: int, i: int|
            0 <= k < N && 0 <= i < 256 ==> #[trigger] t0_coeff(
                final(out)@,
                old(out)@.len() + T0_PACKED_SIZE * k,
                i,
            ) == v.coeff(k, i),
{
    let ghost start = out@;
    let mut k: usize = 0;
    while k < N
        invariant
            k <= N,
            out@.len() == start.len() + T0_PACKED_SIZE * k,
            out@.subrange(0, start.len() as int) == start,
            forall|m: int, i: int|
                0 <= m < N && 0 <= i < 256 ==> -0x1000 < #[trigger] v.coeff(m, i) <= 0x1000,
            forall|m: int, i: int|
                0 <= m < k && 0 <= i < 256 ==> #[trigger] t0_coeff(
                    out@,
                    start.len() + T0_PACKED_SIZE * m,
                    i,
                ) == v.coeff(m, i),
        decreases N - k,
    {
        let p = v.coefficients[k];
        assert forall|i: int| 0 <= i < 256 implies -0x1000 < #[trigger] p.coefficients[i] <= 0x1000 by {
            assert(-0x1000 < v.coeff(k as int, i) <= 0x1000);
        }
        let ghost before = out@;
        pack_t0(&p, out);
        proof {
            assert(out@.subrange(0, start.len() as int) =~= start);
            assert(out@.subrange(0, before.len() as int) =~= before);
            assert forall|m: int, i: int| 0 <= m < k + 1 && 0 <= i < 256 implies #[trigger] t0_coeff(
                out@,
                start.len() + T0_PACKED_SIZE * m,
                i,
            ) == v.coeff(m, i) by {
                if m < k {
                    assert(t0_coeff(before, start.len() + T0_PACKED_SIZE * m, i) == v.coeff(m, i));
                    lemma_t0_frame(before, out@, start.len() + T0_PACKED_SIZE * m, i);
                } else {
                    lemma_t0_append(p.coefficients@, before, out@, i);
                }
            }
        }
        k += 1;
    }
}

/// The secret key: `rho`, `key`, `tr`, then the encodings of `s1`, `s2`
/// and `t0`.
fn make_private_key(
    rho: &[u8; HALF_SEED_SIZE],
    tr: &[u8],
    key: &[u8],
    t0: &Vector<PlainPolynomial, K>,
    s1: &Vector<PlainPolynomial, L>,
    s2: &Vector<PlainPolynomial, K>,
) -> (r: SecretKey)
    requires
        tr@.len() == HALF_SEED_SIZE,
        key@.len() == HALF_SEED_SIZE,
        forall|k: int, i: int|
            0 <= k < K && 0 <= i < 256 ==> -0x1000 < #[trigger] t0.coeff(k, i) <= 0x1000,
        forall|k: int, i: int| 0 <= k < L && 0 <= i < 256 ==> -2 <= #[trigger] s1.coeff(k, i) <= 2,
        forall|k: int, i: int| 0 <= k < K && 0 <= i < 256 ==> -2 <= #[trigger] s2.coeff(k, i) <= 2,
    ensures
        r@.subrange(0, 32) == rho@,
        r@.subrange(32, 64) == key@,
        r@.subrange(64, 96) == tr@,
        forall|j: int, i: int|
            0 <= j < L && 0 <= i < 256 ==> #[trigger] secret_s1(r@, j, i) == s1.coeff(j, i),
        forall|k: int, i: int|
            0 <= k < K && 0 <= i < 256 ==> #[trigger] secret_s2(r@, k, i) == s2.coeff(k, i),
        forall|k: int, i: int|
            0 <= k < K && 0 <= i < 256 ==> #[trigger] secret_t0(r@, k, i) == t0.coeff(k, i),
{
    let mut out: Vec<u8> = Vec::new();
    append(&mut out, rho);
    append(&mut out, key);
    append(&mut out, tr);
    let ghost head = out@;
    append_eta_vector(&mut out, s1);
    let ghost after_s1 = out@;
    append_eta_vector(&mut out, s2);
    let ghost after_s2 = out@;
    append_t0_vector(&mut out, t0);
    let r: SecretKey = to_array(&out);
    proof {
        assert(head.len() == 96);
        assert(head.subrange(0, 32) =~= rho@);
        assert(head.subrange(32, 64) =~= key@);
        assert(head.subrange(64, 96) =~= tr@);
        assert(r@.subrange(0, after_s2.len() as int) =~= after_s2);
        assert(r@.subrange(0, after_s1.len() as int) =~= after_s1);
        assert(r@.subrange(0, 96) =~= head);
        assert(r@.subrange(0, 32) =~= rho@);
        assert(r@.subrange(32, 64) =~= key@);
        assert(r@.subrange(64, 96) =~= tr@);
        assert forall|j: int, i: int| 0 <= j < L && 0 <= i < 256 implies #[trigger] secret_s1(
            r@,
            j,
            i,
        ) == s1.coeff(j, i) by {
            assert(eta_coeff(after_s1, 96 + ETA_PACKED_SIZE * j, i) == s1.coeff(j, i));
            lemma_eta_frame(after_s1, r@, 96 + ETA_PACKED_SIZE * j, i);
        }
        assert forall|k: int, i: int| 0 <= k < K && 0 <= i < 256 implies #[trigger] secret_s2(
            r@,
            k,
            i,
        ) == s2.coeff(k, i) by {
            assert(eta_coeff(after_s2, 96 + ETA_PACKED_SIZE * L + ETA_PACKED_SIZE * k, i)
                == s2.coeff(k, i));
            lemma_eta_frame(after_s2, r@, 96 + ETA_PACKED_SIZE * L + ETA_PACKED_SIZE * k, i);
        }
        assert forall|k: int, i: int| 0 <= k < K && 0 <= i < 256 implies #[trigger] secret_t0(
            r@,
            k,
            i,
        ) == t0.coeff(k, i) by {
            assert(t0_coeff(r@, 96 + ETA_PACKED_SIZE * (L + K) + T0_PACKED_SIZE * k, i) == t0.coeff(
                k,
                i,
            ));
        }
    }
    r
}

/// The signature: the challenge seed, the 20-bit encoding of `z`, and the
/// packed hint.
#[verifier::spinoff_prover]
fn make_signature(
    challenge_seed: &[u8; HALF_SEED_SIZE],
    z: &Vector<PlainPolynomial, L>,
    hint: &Hint,
) -> (r: Signature)
    requires
        forall|k: int, i: int|
            0 <= k < L && 0 <= i < 256 ==> -GAMMA1 < #[trigger] z.coeff(k, i) <= GAMMA1,
        ones(*hint) <= OMEGA,
    ensures
        r@.subrange(0, 32) == challenge_seed@,
        forall|j: int, i: int|
            0 <= j < L && 0 <= i < 256 ==> #[trigger] signature_z(r@, j, i) == z.coeff(j, i),
        hint_well_formed(r@.subrange(HINT_OFFSET as int, SIGNATURE_SIZE as int)),
        forall|k: int, i: int|
            0 <= k < K && 0 <= i < 256 ==> #[trigger] hint_listed(
                r@.subrange(HINT_OFFSET as int, SIGNATURE_SIZE as int),
                k,
                i,
            ) == hint[k][i],
{
    let mut out: Vec<u8> = Vec::new();
    append(&mut out, challenge_seed);
    let mut k: usize = 0;
    while k < L
        invariant
            k <= L,
            out@.len() == 32 + POLYZ_PACKED_SIZE * k,
            out@.subrange(0, 32) == challenge_seed@,
            forall|m: int, i: int|
                0 <= m < L && 0 <= i < 256 ==> -GAMMA1 < #[trigger] z.coeff(m, i) <= GAMMA1,
            forall|m: int, i: int|
                0 <= m < k && 0 <= i < 256 ==> #[trigger] signature_z(out@, m, i) == z.coeff(m, i),
        decreases L - k,
    {
        let p = z.coefficients[k];
        assert forall|i: int| 0 <= i < 256 implies -GAMMA1 < #[trigger] p.coefficients[i] <= GAMMA1 by {
            assert(-GAMMA1 < z.coeff(k as int, i) <= GAMMA1);
        }
        let ghost before = out@;
        pack_z(&p, &mut out);
        proof {
            assert(out@.subrange(0, 32) =~= before.subrange(0, 32));
            assert(out@.subrange(0, before.len() as int) =~= before);
            assert forall|m: int, i: int| 0 <= m < k + 1 && 0 <= i < 256 implies #[trigger] signature_z(
                out@,
                m,
                i,
            ) == z.coeff(m, i) by {
                if m < k {
                    assert(signature_z(before, m, i) == z.coeff(m, i));
                    lemma_z_frame(before, out@, 32 + POLYZ_PACKED_SIZE * m, i);
                } else {
                    assert(before.len() == 32 + POLYZ_PACKED_SIZE * k);
                    lemma_z_append(p.coefficients@, before, out@, i);
                }
            }
        }
        k += 1;
    }
    let packed_hint = pack_hint(hint);
    let ghost body = out@;
    append(&mut out, &packed_hint);
    let r: Signature = to_array(&out);
    proof {
        assert(r@.subrange(0, 32) =~= body.subrange(0, 32));
        assert(r@.subrange(0, body.len() as int) =~= body);
        assert forall|j: int, i: int| 0 <= j < L && 0 <= i < 256 implies #[trigger] signature_z(
            r@,
            j,
            i,
        ) == z.coeff(j, i) by {
            assert(signature_z(body, j, i) == z.coeff(j, i));
            lemma_z_frame(body, r@, 32 + POLYZ_PACKED_SIZE * j, i);
        }
        assert(r@.subrange(HINT_OFFSET as int, SIGNATURE_SIZE as int) =~= packed_hint@);
        crate::hint::lemma_hint_round_trip(*hint, packed_hint@);
    }
    r
}

/// `N` polynomials decoded from the 13-bit encoding at `off`.
fn unpack_t0_vector<const N: usize>(b: &[u8], off: usize) -> (r: Vector<PlainPolynomial, N>)
    requires
        off + T0_PACKED_SIZE * N <= b@.len(),
    ensures
        r.bounded_by(Q as int),
        forall|k: int, i: int|
            0 <= k < N && 0 <= i < 256 ==> #[trigger] r.coeff(k, i) == t0_coeff(
                b@,
                off + T0_PACKED_SIZE * k,
                i,
            ),
{
    let mut out: [PlainPolynomial; N] = [PlainPolynomial::zero(); N];
    let n = b.len();
    let mut k: usize = 0;
    while k < N
        invariant
            k <= N,
            n == b@.len(),
            off + T0_PACKED_SIZE * N <= b@.len(),
            forall|m: int| 0 <= m < k ==> bounded(#[trigger] out[m].coefficients@, Q as int),
            forall|m: int, i: int|
                0 <= m < k && 0 <= i < 256 ==> #[trigger] out[m].coefficients[i] == t0_coeff(
                    b@,
                    off + T0_PACKED_SIZE * m,
                    i,
                ),
        decreases N - k,
    {
        assert(T0_PACKED_SIZE * k + T0_PACKED_SIZE <= T0_PACKED_SIZE * N) by (nonlinear_arith)
            requires
                k < N,
        ;
        let start = off + T0_PACKED_SIZE * k;
        let p = unpack_t0(b, start);
        proof {
            assert forall|i: int| 0 <= i < 256 implies -Q < #[trigger] p.coefficients@[i] < Q by {
                crate::packing::lemma_t0_coeff_range(b@, start as int, i);
            }
        }
        let ghost prev = out;
        out[k] = p;
        proof {
            assert forall|m: int, i: int| 0 <= m < k + 1 && 0 <= i < 256 implies #[trigger] out[
                m
            ].coefficients[i] == t0_coeff(b@, off + T0_PACKED_SIZE * m, i) by {
                if m < k {
                    assert(out[m] == prev[m]);
                }
            }
        }
        k += 1;
    }
    Vector::from_polynomials(out)
}

/// `N` polynomials decoded from the 3-bit encoding at `off`.
fn unpack_eta_vector<const N: usize>(b: &[u8], off: usize) -> (r: Vector<PlainPolynomial, N>)
    requires
        off + ETA_PACKED_SIZE * N <= b@.len(),
    ensures
        r.bounded_by(Q as int),
        forall|k: int, i: int|
            0 <= k < N && 0 <= i < 256 ==> #[trigger] r.coeff(k, i) == eta_coeff(
                b@,
                off + ETA_PACKED_SIZE * k,
                i,
            ),
{
    let mut out: [PlainPolynomial; N] = [PlainPolynomial::zero(); N];
    let n = b.len();
    let mut k: usize = 0;
    while k < N
        invariant
            k <= N,
            n == b@.len(),
            off + ETA_PACKED_SIZE * N <= b@.len(),
            forall|m: int| 0 <= m < k ==> bounded(#[trigger] out[m].coefficients@, Q as int),
            forall|m: int, i: int|
                0 <= m < k && 0 <= i < 256 ==> #[trigger] out[m].coefficients[i] == eta_coeff(
                    b@,
                    off + ETA_PACKED_SIZE * m,
                    i,
                ),
        decreases N - k,
    {
        assert(ETA_PACKED_SIZE * k + ETA_PACKED_SIZE <= ETA_PACKED_SIZE * N) by (nonlinear_arith)
            requires
                k < N,
        ;
        let start = off + ETA_PACKED_SIZE * k;
        let p = unpack_eta(b, start);
        proof {
            assert forall|i: int| 0 <= i < 256 implies -Q < #[trigger] p.coefficients@[i] < Q by {
                crate::packing::lemma_eta_coeff_range(b@, start as int, i);
            }
        }
        let ghost prev = out;
        out[k] = p;
        proof {
            assert forall|m: int, i: int| 0 <= m < k + 1 && 0 <= i < 256 implies #[trigger] out[
                m
            ].coefficients[i] == eta_coeff(b@, off + ETA_PACKED_SIZE * m, i) by {
                if m < k {
                    assert(out[m] == prev[m]);
                }
            }
        }
        k += 1;
    }
    Vector::from_polynomials(out)
}

/// The 128 bytes that key generation expands the seed `xi` into: `rho`,
/// `rho'` (64 bytes, of which the first 32 key the secret streams) and `key`.
pub open spec fn key_seeds(xi: Seq<u8>) -> Seq<u8> {
    shake256_spec(xi, 128)
}

/// Every entry of `a` is the uniform sample of the stream keyed by `rho` for
/// its nonce.
pub open spec fn expanded_matrix<Ctr: Counter>(a: Matrix<NTTPolynomial, L, K>, rho: Seq<u8>) -> bool {
    forall|i: int, j: int|
        0 <= i < K && 0 <= j < L ==> #[trigger] uniform_poly::<Ctr>(rho, (256 * i + j) as u16)
            == Some(a.coefficients[i].coefficients[j].coefficients@)
}

/// Every stream that key generation from `xi` reads holds enough accepted
/// values.
pub open spec fn keygen_succeeds<Ctr: Counter>(xi: Seq<u8>) -> bool {
    let rho = key_seeds(xi).subrange(0, 32);
    let rho_prime = key_seeds(xi).subrange(32, 64);
    &&& forall|i: int, j: int|
        0 <= i < K && 0 <= j < L ==> #[trigger] uniform_poly::<Ctr>(rho, (256 * i + j) as u16) is Some
    &&& forall|j: int| 0 <= j < L ==> #[trigger] eta_poly::<Ctr>(rho_prime, j as u16) is Some
    &&& forall|k: int| 0 <= k < K ==> #[trigger] eta_poly::<Ctr>(rho_prime, (L + k) as u16) is Some
}

/// `a`, `s1`, `s2` are the expansions of the seed `xi`, and `s1h` is the
/// forward transform of `s1`.
pub open spec fn key_material<Ctr: Counter>(
    xi: Seq<u8>,
    a: Matrix<NTTPolynomial, L, K>,
    s1: Vector<PlainPolynomial, L>,
    s1h: Vector<NTTPolynomial, L>,
    s2: Vector<PlainPolynomial, K>,
) -> bool {
    let rho_prime = key_seeds(xi).subrange(32, 64);
    &&& expanded_matrix::<Ctr>(a, key_seeds(xi).subrange(0, 32))
    &&& forall|j: int|
        0 <= j < L ==> #[trigger] eta_poly::<Ctr>(rho_prime, j as u16) == Some(
            s1.coefficients[j].coefficients@,
        )
    &&& forall|k: int|
        0 <= k < K ==> #[trigger] eta_poly::<Ctr>(rho_prime, (L + k) as u16) == Some(
            s2.coefficients[k].coefficients@,
        )
    &&& is_forward_of(s1h, s1)
}

/// Coefficient `i` of polynomial `k` of `t = A * s1 + s2`, in `[0, Q)`.
pub open spec fn key_t(
    a: Matrix<NTTPolynomial, L, K>,
    s1h: Vector<NTTPolynomial, L>,
    s2: Vector<PlainPolynomial, K>,
    k: int,
    i: int,
) -> int {
    caddq_spec(reduce_32_spec(caddq_spec(w_row(a, s1h, k)[i] as int) + s2.coeff(k, i)))
}

/// What key generation from `seed` returns.
pub open spec fn make_keys_spec<Ctr: Counter>(seed: Seq<u8>, r: Option<(PublicKey, SecretKey)>) -> bool {
    &&& seed.len() < HALF_SEED_SIZE ==> r is None
    &&& r is Some <==> (seed.len() >= HALF_SEED_SIZE && keygen_succeeds::<Ctr>(
        seed.subrange(0, 32),
    ))
    &&& match r {
        Some((pk, sk)) => {
            let xi = seed.subrange(0, 32);
            &&& pk@.subrange(0, 32) == crate::xof::shake256_spec(xi, 32)
            &&& sk@.subrange(0, 32) == pk@.subrange(0, 32)
            &&& sk@.subrange(32, 64) == crate::xof::shake256_spec(xi, 128).subrange(96, 128)
            &&& sk@.subrange(64, 96) == crate::xof::shake256_spec(pk@, 32)
            &&& forall|j: int|
                0 <= j < L ==> is_eta_sample::<Ctr>(
                    crate::xof::shake256_spec(xi, 128).subrange(32, 64),
                    j as u16,
                    #[trigger] secret_s1_poly(sk@, j),
                )
            &&& forall|k: int|
                0 <= k < K ==> is_eta_sample::<Ctr>(
                    crate::xof::shake256_spec(xi, 128).subrange(32, 64),
                    (L + k) as u16,
                    #[trigger] secret_s2_poly(sk@, k),
                )
            &&& exists|
                a: Matrix<NTTPolynomial, L, K>,
                s1: Vector<PlainPolynomial, L>,
                s1h: Vector<NTTPolynomial, L>,
                s2: Vector<PlainPolynomial, K>,
            |
                {
                    &&& #[trigger] key_material::<Ctr>(xi, a, s1, s1h, s2)
                    &&& forall|k: int, i: int|
                        0 <= k < K && 0 <= i < 256 ==> (#[trigger] secret_t0(sk@, k, i) as int,
                        public_t1(pk@, k, i) as int) == power2round_spec(key_t(a, s1h, s2, k, i))
                }
        },
        None => true,
    }
}

/// Key generation from the first 32 bytes of `seed`: `(public key, secret
/// key)`. `None` if `seed` is shorter, or if a counter stream runs out.
#[verifier::spinoff_prover]
pub fn make_keys<Ctr: Counter>(seed: &[u8]) -> (r: Option<(PublicKey, SecretKey)>)
    ensures
        make_keys_spec::<Ctr>(seed@, r),
{
    if seed.len() < HALF_SEED_SIZE {
        return None;
    }
    let xi = half_seed_at(seed, 0);
    let h = shake256(&xi, 128);
    let rho = half_seed_at(h.as_slice(), 0);
    let rho_prime = half_seed_at(h.as_slice(), 32);
    let key = half_seed_at(h.as_slice(), 96);
    proof {
        assert(xi@ =~= seed@.subrange(0, 32));
        assert(rho@ =~= key_seeds(xi@).subrange(0, 32));
        assert(rho_prime@ =~= key_seeds(xi@).subrange(32, 64));
    }
    let a = match expand_a(Ctr::new(&rho)) {
        Some(a) => a,
        None => {
            return None;
        },
    };
    let s1 = match expand_s::<Ctr, L>(Ctr::new(&rho_prime), 0) {
        Some(s) => s,
        None => {
            proof {
                let j = choose|j: int|
                    0 <= j < L && #[trigger] eta_poly::<Ctr>(rho_prime@, (0 + j) as u16) is None;
                assert(eta_poly::<Ctr>(rho_prime@, j as u16) is None);
            }
            return None;
        },
    };
    let s2 = match expand_s::<Ctr, K>(Ctr::new(&rho_prime), L as u16) {
        Some(s) => s,
        None => {
            proof {
                let k = choose|k: int|
                    0 <= k < K && #[trigger] eta_poly::<Ctr>(rho_prime@, (L + k) as u16) is None;
                assert(eta_poly::<Ctr>(rho_prime@, (L + k) as u16) is None);
            }
            return None;
        },
    };
    assert forall|k: int| 0 <= k < L implies bounded(#[trigger] s1.coefficients[k].coefficients@, Q as int) by {
        assert forall|i: int| 0 <= i < 256 implies -Q < #[trigger] s1.coefficients[k].coefficients@[i] < Q by {
            assert(-2 <= s1.coefficients[k].coefficients[i] <= 2);
        }
    }
    assert(matrix_canonical(a));
    let s1_hat = s1.into_ntt();
    let w = make_w(&a, &s1_hat);
    assert forall|k: int, i: int| 0 <= k < K && 0 <= i < 256 implies sum_fits(
        #[trigger] w.coeff(k, i) as int,
        s2.coeff(k, i) as int,
    ) by {
        assert(-2 <= s2.coefficients[k].coefficients[i] <= 2);
    }
    let t = w.add(s2);
    assert forall|k: int, i: int| 0 <= k < K && 0 <= i < 256 implies #[trigger] t.coeff(k, i)
        <= i32::MAX - 0x40_0000 by {
        assert(-2 <= s2.coefficients[k].coefficients[i] <= 2);
    }
    let t_sum = t;
    let t_reduced = t_sum.reduce_32();
    let t = t_reduced.caddq();
    let (t0, t1) = t.power2round();
    proof {
        assert forall|k: int, i: int| 0 <= k < K && 0 <= i < 256 implies #[trigger] t.coeff(k, i)
            == key_t(a, s1_hat, s2, k, i) by {
            assert(w.coeff(k, i) == caddq_spec(w_row(a, s1_hat, k)[i] as int));
            assert(t_sum.coeff(k, i) == w.coeff(k, i) + s2.coeff(k, i));
            assert(t_reduced.coeff(k, i) == reduce_32_spec(t_sum.coeff(k, i) as int));
            assert(t.coeff(k, i) == caddq_spec(t_reduced.coeff(k, i) as int));
        }
    }
    assert forall|k: int, i: int| 0 <= k < K && 0 <= i < 256 implies 0 <= #[trigger] t1.coeff(k, i)
        < 0x400 && -0x1000 < t0.coeff(k, i) <= 0x1000 by {
        assert(0 <= t.coeff(k, i) < Q);
        assert((t0.coeff(k, i) as int, t1.coeff(k, i) as int) == power2round_spec(t.coeff(k, i) as int));
        crate::coefficient::lemma_power2round_law(t.coeff(k, i) as int);
    }
    let pk = pack_public_key(&rho, &t1);
    let tr = shake256(&pk, 32);
    assert forall|k: int, i: int| 0 <= k < L && 0 <= i < 256 implies -2 <= #[trigger] s1.coeff(k, i)
        <= 2 by {
        assert(-2 <= s1.coefficients[k].coefficients[i] <= 2);
    }
    assert forall|k: int, i: int| 0 <= k < K && 0 <= i < 256 implies -2 <= #[trigger] s2.coeff(k, i)
        <= 2 by {
        assert(-2 <= s2.coefficients[k].coefficients[i] <= 2);
    }
    let sk = make_private_key(&rho, tr.as_slice(), key.as_slice(), &t0, &s1, &s2);
    proof {
        assert(xi@ =~= seed@.subrange(0, 32));
        assert(pk@.subrange(0, 32) =~= crate::xof::shake256_spec(xi@, 32));
        assert(sk@.subrange(32, 64) =~= crate::xof::shake256_spec(xi@, 128).subrange(96, 128));
        assert(sk@.subrange(64, 96) =~= crate::xof::shake256_spec(pk@, 32));
        assert(rho_prime@ =~= crate::xof::shake256_spec(xi@, 128).subrange(32, 64));
        assert forall|j: int| 0 <= j < L implies is_eta_sample::<Ctr>(
            crate::xof::shake256_spec(xi@, 128).subrange(32, 64),
            j as u16,
            #[trigger] secret_s1_poly(sk@, j),
        ) by {
            assert(secret_s1_poly(sk@, j) =~= s1.coefficients[j].coefficients@);
        }
        assert forall|k: int| 0 <= k < K implies is_eta_sample::<Ctr>(
            crate::xof::shake256_spec(xi@, 128).subrange(32, 64),
            (L + k) as u16,
            #[trigger] secret_s2_poly(sk@, k),
        ) by {
            assert(secret_s2_poly(sk@, k) =~= s2.coefficients[k].coefficients@);
        }
        assert(key_material::<Ctr>(xi@, a, s1, s1_hat, s2));
        assert forall|k: int, i: int| 0 <= k < K && 0 <= i < 256 implies (#[trigger] secret_t0(
            sk@,
            k,
            i,
        ) as int, public_t1(pk@, k, i) as int) == power2round_spec(key_t(a, s1_hat, s2, k, i)) by {
            assert(t.coeff(k, i) == key_t(a, s1_hat, s2, k, i));
            assert((t0.coeff(k, i) as int, t1.coeff(k, i) as int) == power2round_spec(
                t.coeff(k, i) as int,
            ));
        }
        assert(keygen_succeeds::<Ctr>(xi@));
    }
    Some((pk, sk))
}

/// The challenge that an attempt with high parts `w1` draws.
pub open spec fn att_challenge(mu: Seq<u8>, w1: Vector<PlainPolynomial, K>) -> Option<Seq<i32>> {
    challenge_spec(
        shake256_spec(shake256_spec(mu + w1_bytes(w1), 32), CHALLENGE_STREAM_LEN as nat),
    )
}

/// Entry `k` of the pointwise product of `v` with the transformed challenge
/// `ch`, brought back by the inverse transform.
pub open spec fn att_product<const N: usize>(v: Vector<NTTPolynomial, N>, ch: Seq<i32>, k: int) -> Seq<
    i32,
> {
    inverse_spec(
        Seq::new(256, |x: int| montgomery_spec((v.coeff(k, x) * ch[x]) as i64) as i32),
    )
}

/// `z = c * s1 + y`, reduced.
pub open spec fn att_z(
    s1h: Vector<NTTPolynomial, L>,
    ch: Seq<i32>,
    y: Vector<PlainPolynomial, L>,
    k: int,
    i: int,
) -> int {
    reduce_32_spec(att_product(s1h, ch, k)[i] + y.coeff(k, i))
}

/// `w = A * y` in `[0, Q)`.
pub open spec fn att_w(a: Matrix<NTTPolynomial, L, K>, yh: Vector<NTTPolynomial, L>, k: int, i: int) -> int {
    caddq_spec(w_row(a, yh, k)[i] as int)
}

/// `r0 = w0 - c * s2`, reduced.
pub open spec fn att_r0(
    a: Matrix<NTTPolynomial, L, K>,
    yh: Vector<NTTPolynomial, L>,
    s2h: Vector<NTTPolynomial, K>,
    ch: Seq<i32>,
    k: int,
    i: int,
) -> int {
    reduce_32_spec(decompose_spec(att_w(a, yh, k, i)).0 - att_product(s2h, ch, k)[i])
}

/// `c * t0`, reduced.
pub open spec fn att_ct0(t0h: Vector<NTTPolynomial, K>, ch: Seq<i32>, k: int, i: int) -> int {
    reduce_32_spec(att_product(t0h, ch, k)[i] as int)
}

/// The three norm checks of an attempt.
pub open spec fn att_norms_pass(
    a: Matrix<NTTPolynomial, L, K>,
    yh: Vector<NTTPolynomial, L>,
    y: Vector<PlainPolynomial, L>,
    s1h: Vector<NTTPolynomial, L>,
    s2h: Vector<NTTPolynomial, K>,
    t0h: Vector<NTTPolynomial, K>,
    ch: Seq<i32>,
) -> bool {
    &&& forall|k: int, i: int|
        0 <= k < L && 0 <= i < 256 ==> abs_spec(#[trigger] att_z(s1h, ch, y, k, i)) < GAMMA1 - BETA
    &&& forall|k: int, i: int|
        0 <= k < K && 0 <= i < 256 ==> abs_spec(#[trigger] att_r0(a, yh, s2h, ch, k, i)) < GAMMA2
            - BETA
    &&& forall|k: int, i: int|
        0 <= k < K && 0 <= i < 256 ==> abs_spec(#[trigger] att_ct0(t0h, ch, k, i)) < GAMMA2
}

/// The values an attempt computes: `yh` is the transform of `y`, `w1` the
/// high parts of `w`, and, where the challenge exists and the norms pass,
/// `h` the hint.
pub open spec fn attempt_witness(
    a: Matrix<NTTPolynomial, L, K>,
    mu: Seq<u8>,
    y: Vector<PlainPolynomial, L>,
    s1h: Vector<NTTPolynomial, L>,
    s2h: Vector<NTTPolynomial, K>,
    t0h: Vector<NTTPolynomial, K>,
    yh: Vector<NTTPolynomial, L>,
    w1: Vector<PlainPolynomial, K>,
    h: Hint,
) -> bool {
    &&& is_forward_of(yh, y)
    &&& forall|k: int, i: int|
        0 <= k < K && 0 <= i < 256 ==> #[trigger] w1.coeff(k, i) == decompose_spec(
            att_w(a, yh, k, i),
        ).1
    &&& (att_challenge(mu, w1) is Some && att_norms_pass(
        a,
        yh,
        y,
        s1h,
        s2h,
        t0h,
        forward_spec(att_challenge(mu, w1)->0),
    )) ==> forall|k: int, i: int|
        0 <= k < K && 0 <= i < 256 ==> #[trigger] h[k][i] == hint_bit(
            att_r0(a, yh, s2h, forward_spec(att_challenge(mu, w1)->0), k, i) + att_ct0(
                t0h,
                forward_spec(att_challenge(mu, w1)->0),
                k,
                i,
            ),
            w1.coeff(k, i) as int,
        )
}

/// The attempt is accepted: the challenge exists, the norms pass and the
/// hint has at most `OMEGA` ones.
pub open spec fn attempt_accepted(
    a: Matrix<NTTPolynomial, L, K>,
    mu: Seq<u8>,
    y: Vector<PlainPolynomial, L>,
    s1h: Vector<NTTPolynomial, L>,
    s2h: Vector<NTTPolynomial, K>,
    t0h: Vector<NTTPolynomial, K>,
    yh: Vector<NTTPolynomial, L>,
    w1: Vector<PlainPolynomial, K>,
    h: Hint,
) -> bool {
    &&& att_challenge(mu, w1) is Some
    &&& att_norms_pass(a, yh, y, s1h, s2h, t0h, forward_spec(att_challenge(mu, w1)->0))
    &&& ones(h) <= OMEGA
}

/// `sig` encodes the challenge seed of `w1`, the `z` of the attempt and the
/// hint `h`.
pub open spec fn attempt_signature(
    sig: Seq<u8>,
    mu: Seq<u8>,
    y: Vector<PlainPolynomial, L>,
    s1h: Vector<NTTPolynomial, L>,
    w1: Vector<PlainPolynomial, K>,
    h: Hint,
) -> bool {
    &&& sig.subrange(0, 32) == shake256_spec(mu + w1_bytes(w1), 32)
    &&& forall|j: int, i: int|
        0 <= j < L && 0 <= i < 256 ==> #[trigger] signature_z(sig, j, i) == att_z(
            s1h,
            forward_spec(att_challenge(mu, w1)->0),
            y,
            j,
            i,
        )
    &&& hint_well_formed(hint_bytes(sig))
    &&& forall|k: int, i: int|
        0 <= k < K && 0 <= i < 256 ==> #[trigger] hint_listed(hint_bytes(sig), k, i) == h[k][i]
}

/// What one attempt with masking vector `y` returns: the signature of an
/// accepted attempt, `None` for a rejected one.
pub open spec fn attempt_outcome(
    a: Matrix<NTTPolynomial, L, K>,
    mu: Seq<u8>,
    y: Vector<PlainPolynomial, L>,
    s1h: Vector<NTTPolynomial, L>,
    s2h: Vector<NTTPolynomial, K>,
    t0h: Vector<NTTPolynomial, K>,
    out: Option<Signature>,
) -> bool {
    exists|yh: Vector<NTTPolynomial, L>, w1: Vector<PlainPolynomial, K>, h: Hint|
        {
            &&& #[trigger] attempt_witness(a, mu, y, s1h, s2h, t0h, yh, w1, h)
            &&& match out {
                Some(sig) => attempt_accepted(a, mu, y, s1h, s2h, t0h, yh, w1, h)
                    && attempt_signature(sig@, mu, y, s1h, w1, h),
                None => !attempt_accepted(a, mu, y, s1h, s2h, t0h, yh, w1, h),
            }
        }
}

proof fn lemma_vector_products<const N: usize>(v: Vector<NTTPolynomial, N>, c: NTTPolynomial)
    requires
        v.bounded_by(9 * Q),
        bounded(c.coefficients@, 9 * Q),
    ensures
        forall|k: int, i: int|
            0 <= k < N && 0 <= i < 256 ==> product_fits(#[trigger] v.coeff(k, i), c.coefficients[i]),
{
    assert forall|k: int, i: int| 0 <= k < N && 0 <= i < 256 implies product_fits(
        #[trigger] v.coeff(k, i),
        c.coefficients[i],
    ) by {
        assert(bounded(v.coefficients[k].coefficients@, 9 * Q));
        lemma_product_fits(v.coeff(k, i), c.coefficients[i]);
    }
}

proof fn lemma_att_product<const N: usize>(
    v: Vector<NTTPolynomial, N>,
    c_hat: NTTPolynomial,
    prod: Vector<NTTPolynomial, N>,
    plain: Vector<PlainPolynomial, N>,
)
    requires
        forall|k: int, i: int|
            0 <= k < N && 0 <= i < 256 ==> #[trigger] prod.coeff(k, i) == montgomery_spec(
                (v.coeff(k, i) * c_hat.coefficients[i]) as i64,
            ),
        forall|k: int|
            0 <= k < N ==> #[trigger] plain.coefficients[k].coefficients@ == inverse_spec(
                prod.coefficients[k].coefficients@,
            ),
    ensures
        forall|k: int|
            0 <= k < N ==> #[trigger] plain.coefficients[k].coefficients@ == att_product(
                v,
                c_hat.coefficients@,
                k,
            ),
{
    assert forall|k: int| 0 <= k < N implies #[trigger] plain.coefficients[k].coefficients@
        == att_product(v, c_hat.coefficients@, k) by {
        assert forall|x: int| 0 <= x < 256 implies prod.coefficients[k].coefficients@[x]
            == montgomery_spec((v.coeff(k, x) * c_hat.coefficients@[x]) as i64) as i32 by {
            assert(prod.coeff(k, x) == montgomery_spec((v.coeff(k, x) * c_hat.coefficients[x]) as i64));
        }
        assert(prod.coefficients[k].coefficients@ =~= Seq::new(
            256,
            |x: int| montgomery_spec((v.coeff(k, x) * c_hat.coefficients@[x]) as i64) as i32,
        ));
    }
}

/// One attempt of the signing loop with the masking vector `y`: the
/// signature, or `None` where a norm check or the hint size rejects it.
#[verifier::spinoff_prover]
fn attempt_sign(
    a: &Matrix<NTTPolynomial, L, K>,
    mu: &[u8],
    y: Vector<PlainPolynomial, L>,
    s1: &Vector<NTTPolynomial, L>,
    s2: &Vector<NTTPolynomial, K>,
    t0: &Vector<NTTPolynomial, K>,
) -> (r: Option<Signature>)
    requires
        matrix_canonical(*a),
        y.bounded_by(GAMMA1 + 1),
        s1.bounded_by(9 * Q),
        s2.bounded_by(9 * Q),
        t0.bounded_by(9 * Q),
    ensures
        match r {
            Some(sig) => {
                &&& !z_too_large(sig@)
                &&& hint_well_formed(sig@.subrange(HINT_OFFSET as int, SIGNATURE_SIZE as int))
                &&& binds_challenge(sig@.subrange(0, 32), mu@)
            },
            None => true,
        },
        attempt_outcome(*a, mu@, y, *s1, *s2, *t0, r),
{
    assert(y.bounded_by(Q as int));
    let y_ntt = y.into_ntt();
    let w = make_w(a, &y_ntt);
    let (w0, w1) = w.decompose();
    let no_hint: Hint = [[false; 256]; K];
    proof {
        assert(is_forward_of(y_ntt, y));
        assert forall|k: int, i: int| 0 <= k < K && 0 <= i < 256 implies #[trigger] w1.coeff(k, i)
            == decompose_spec(att_w(*a, y_ntt, k, i)).1 by {
            assert(w.coeff(k, i) == caddq_spec(w_row(*a, y_ntt, k)[i] as int));
            assert((w0.coeff(k, i) as int, w1.coeff(k, i) as int) == decompose_spec(w.coeff(k, i) as int));
        }
    }
    let mut input: Vec<u8> = Vec::new();
    append(&mut input, mu);
    let packed_w1 = pack_w1(&w1);
    append(&mut input, packed_w1.as_slice());
    let seed = shake256(input.as_slice(), HALF_SEED_SIZE);
    let challenge_seed = half_seed_at(seed.as_slice(), 0);
    proof {
        assert(input@ == mu@ + packed_w1@);
        assert(challenge_seed@ =~= shake256_spec(mu@ + packed_w1@, 32));
    }
    let c = match make_challenge(&challenge_seed) {
        Some(c) => c,
        None => {
            proof {
                assert(packed_w1@ == w1_bytes(w1));
                assert(att_challenge(mu@, w1) is None);
                assert(attempt_witness(*a, mu@, y, *s1, *s2, *t0, y_ntt, w1, no_hint));
            }
            return None;
        },
    };
    assert(bounded(c.coefficients@, Q as int));
    let c_hat = c.into_ntt();
    let ghost ch = c_hat.coefficients@;
    proof {
        assert(packed_w1@ == w1_bytes(w1));
        assert(att_challenge(mu@, w1) == Some(c.coefficients@));
        assert(ch == forward_spec(att_challenge(mu@, w1)->0));
    }
    proof {
        lemma_vector_products(*s1, c_hat);
        lemma_vector_products(*s2, c_hat);
        lemma_vector_products(*t0, c_hat);
    }
    let p1 = s1.mul_polynomial(&c_hat);
    let cs1 = p1.into_plain();
    proof {
        lemma_att_product(*s1, c_hat, p1, cs1);
    }
    assert forall|k: int, i: int| 0 <= k < L && 0 <= i < 256 implies sum_fits(
        #[trigger] cs1.coeff(k, i) as int,
        y.coeff(k, i) as int,
    ) by {
        assert(bounded(cs1.coefficients[k].coefficients@, Q as int));
        assert(bounded(y.coefficients[k].coefficients@, GAMMA1 + 1));
    }
    let z = cs1.add(y);
    assert forall|k: int, i: int| 0 <= k < L && 0 <= i < 256 implies #[trigger] z.coeff(k, i)
        <= i32::MAX - 0x40_0000 by {
        assert(bounded(cs1.coefficients[k].coefficients@, Q as int));
        assert(bounded(y.coefficients[k].coefficients@, GAMMA1 + 1));
    }
    let z_sum = z;
    let z = z_sum.reduce_32();
    proof {
        crate::vector::lemma_bounded_abs_fits(z, Q as int);
        assert forall|k: int, i: int| 0 <= k < L && 0 <= i < 256 implies #[trigger] z.coeff(k, i)
            == att_z(*s1, ch, y, k, i) by {
            assert(z.coeff(k, i) == reduce_32_spec(z_sum.coeff(k, i) as int));
            assert(z_sum.coeff(k, i) == cs1.coeff(k, i) + y.coeff(k, i));
            assert(cs1.coefficients[k].coefficients@ == att_product(*s1, ch, k));
        }
    }
    let z_max = z.max();
    if z_max >= GAMMA1 - BETA {
        proof {
            let (k, i) = choose|k: int, i: int|
                0 <= k < L && 0 <= i < 256 && z_max == abs_spec(#[trigger] z.coeff(k, i) as int);
            assert(abs_spec(att_z(*s1, ch, y, k, i)) >= GAMMA1 - BETA);
            assert(!att_norms_pass(*a, y_ntt, y, *s1, *s2, *t0, ch));
            assert(attempt_witness(*a, mu@, y, *s1, *s2, *t0, y_ntt, w1, no_hint));
        }
        return None;
    }
    let p2 = s2.mul_polynomial(&c_hat);
    let cs2 = p2.into_plain();
    proof {
        lemma_att_product(*s2, c_hat, p2, cs2);
    }
    assert forall|k: int, i: int| 0 <= k < K && 0 <= i < 256 implies sum_fits(
        #[trigger] w0.coeff(k, i) as int,
        -cs2.coeff(k, i),
    ) && -GAMMA2 <= w0.coeff(k, i) <= GAMMA2 by {
        assert(0 <= w.coeff(k, i) < Q);
        crate::coefficient::lemma_decompose_law(w.coeff(k, i) as int);
        assert(bounded(cs2.coefficients[k].coefficients@, Q as int));
    }
    let r0 = w0.sub(cs2);
    assert forall|k: int, i: int| 0 <= k < K && 0 <= i < 256 implies #[trigger] r0.coeff(k, i)
        <= i32::MAX - 0x40_0000 by {
        assert(-GAMMA2 <= w0.coeff(k, i) <= GAMMA2);
        assert(bounded(cs2.coefficients[k].coefficients@, Q as int));
    }
    let r0_diff = r0;
    let r0 = r0_diff.reduce_32();
    proof {
        crate::vector::lemma_bounded_abs_fits(r0, Q as int);
        assert forall|k: int, i: int| 0 <= k < K && 0 <= i < 256 implies #[trigger] r0.coeff(k, i)
            == att_r0(*a, y_ntt, *s2, ch, k, i) by {
            assert(r0.coeff(k, i) == reduce_32_spec(r0_diff.coeff(k, i) as int));
            assert(r0_diff.coeff(k, i) == w0.coeff(k, i) - cs2.coeff(k, i));
            assert(cs2.coefficients[k].coefficients@ == att_product(*s2, ch, k));
            assert(w.coeff(k, i) == caddq_spec(w_row(*a, y_ntt, k)[i] as int));
            assert((w0.coeff(k, i) as int, w1.coeff(k, i) as int) == decompose_spec(w.coeff(k, i) as int));
        }
    }
    let r0_max = r0.max();
    if r0_max >= GAMMA2 - BETA {
        proof {
            let (k, i) = choose|k: int, i: int|
                0 <= k < K && 0 <= i < 256 && r0_max == abs_spec(#[trigger] r0.coeff(k, i) as int);
            assert(abs_spec(att_r0(*a, y_ntt, *s2, ch, k, i)) >= GAMMA2 - BETA);
            assert(!att_norms_pass(*a, y_ntt, y, *s1, *s2, *t0, ch));
            assert(attempt_witness(*a, mu@, y, *s1, *s2, *t0, y_ntt, w1, no_hint));
        }
        return None;
    }
    let p3 = t0.mul_polynomial(&c_hat);
    let ct0 = p3.into_plain();
    proof {
        lemma_att_product(*t0, c_hat, p3, ct0);
    }
    assert forall|k: int, i: int| 0 <= k < K && 0 <= i < 256 implies #[trigger] ct0.coeff(k, i)
        <= i32::MAX - 0x40_0000 by {
        assert(bounded(ct0.coefficients[k].coefficients@, Q as int));
    }
    let ct0_plain = ct0;
    let ct0 = ct0_plain.reduce_32();
    proof {
        crate::vector::lemma_bounded_abs_fits(ct0, Q as int);
        assert forall|k: int, i: int| 0 <= k < K && 0 <= i < 256 implies #[trigger] ct0.coeff(k, i)
            == att_ct0(*t0, ch, k, i) by {
            assert(ct0.coeff(k, i) == reduce_32_spec(ct0_plain.coeff(k, i) as int));
            assert(ct0_plain.coefficients[k].coefficients@ == att_product(*t0, ch, k));
        }
    }
    let ct0_max = ct0.max();
    if ct0_max >= GAMMA2 {
        proof {
            let (k, i) = choose|k: int, i: int|
                0 <= k < K && 0 <= i < 256 && ct0_max == abs_spec(#[trigger] ct0.coeff(k, i) as int);
            assert(abs_spec(att_ct0(*t0, ch, k, i)) >= GAMMA2);
            assert(!att_norms_pass(*a, y_ntt, y, *s1, *s2, *t0, ch));
            assert(attempt_witness(*a, mu@, y, *s1, *s2, *t0, y_ntt, w1, no_hint));
        }
        return None;
    }
    proof {
        assert forall|k: int, i: int| 0 <= k < L && 0 <= i < 256 implies abs_spec(
            #[trigger] att_z(*s1, ch, y, k, i),
        ) < GAMMA1 - BETA by {
            assert(abs_spec(z.coeff(k, i) as int) <= z_max);
        }
        assert forall|k: int, i: int| 0 <= k < K && 0 <= i < 256 implies abs_spec(
            #[trigger] att_r0(*a, y_ntt, *s2, ch, k, i),
        ) < GAMMA2 - BETA by {
            assert(abs_spec(r0.coeff(k, i) as int) <= r0_max);
        }
        assert forall|k: int, i: int| 0 <= k < K && 0 <= i < 256 implies abs_spec(
            #[trigger] att_ct0(*t0, ch, k, i),
        ) < GAMMA2 by {
            assert(abs_spec(ct0.coeff(k, i) as int) <= ct0_max);
        }
        assert(att_norms_pass(*a, y_ntt, y, *s1, *s2, *t0, ch));
    }
    assert forall|k: int, i: int| 0 <= k < K && 0 <= i < 256 implies sum_fits(
        #[trigger] r0.coeff(k, i) as int,
        ct0.coeff(k, i) as int,
    ) by {
        assert(bounded(r0.coefficients[k].coefficients@, Q as int));
        assert(bounded(ct0.coefficients[k].coefficients@, Q as int));
    }
    let sum = r0.add(ct0);
    let (hint, ones_count) = make_hint(&sum, &w1);
    proof {
        assert forall|k: int, i: int| 0 <= k < K && 0 <= i < 256 implies #[trigger] hint[k][i]
            == hint_bit(
            att_r0(*a, y_ntt, *s2, ch, k, i) + att_ct0(*t0, ch, k, i),
            w1.coeff(k, i) as int,
        ) by {
            assert(sum.coeff(k, i) == r0.coeff(k, i) + ct0.coeff(k, i));
        }
        assert(attempt_witness(*a, mu@, y, *s1, *s2, *t0, y_ntt, w1, hint));
    }
    if ones_count > OMEGA {
        return None;
    }
    assert forall|k: int, i: int| 0 <= k < L && 0 <= i < 256 implies -GAMMA1 < #[trigger] z.coeff(
        k,
        i,
    ) <= GAMMA1 by {
        assert(abs_spec(z.coeff(k, i) as int) < GAMMA1 - BETA);
    }
    let sig = make_signature(&challenge_seed, &z, &hint);
    proof {
        if z_too_large(sig@) {
            let (j, i) = choose|j: int, i: int|
                0 <= j < L && 0 <= i < 256 && abs_spec(#[trigger] signature_z(sig@, j, i) as int)
                    >= GAMMA1 - BETA;
            assert(abs_spec(z.coeff(j, i) as int) < GAMMA1 - BETA);
        }
        assert(binds_challenge(sig@.subrange(0, 32), mu@)) by {
            assert(sig@.subrange(0, 32) == shake256_spec(mu@ + w1_bytes(w1), 32));
        }
        assert(hint_bytes(sig@) == sig@.subrange(HINT_OFFSET as int, SIGNATURE_SIZE as int));
        assert forall|j: int, i: int| 0 <= j < L && 0 <= i < 256 implies #[trigger] signature_z(
            sig@,
            j,
            i,
        ) == att_z(*s1, ch, y, j, i) by {
            assert(signature_z(sig@, j, i) == z.coeff(j, i));
        }
        assert(attempt_signature(sig@, mu@, y, *s1, w1, hint));
        assert(attempt_accepted(*a, mu@, y, *s1, *s2, *t0, y_ntt, w1, hint));
    }
    Some(sig)
}

/// Polynomial `k` of `t0` in secret key bytes `sk`.
pub open spec fn secret_t0_poly(sk: Seq<u8>, k: int) -> Seq<i32> {
    Seq::new(256, |i: int| secret_t0(sk, k, i))
}

/// `mu` for signing `msg` with secret key bytes `sk`.
pub open spec fn sign_mu(sk: Seq<u8>, msg: Seq<u8>) -> Seq<u8> {
    message_digest(sk.subrange(64, 96), msg)
}

/// The key of the masking streams: the first half of SHAKE-256 of `key`
/// and `mu`.
pub open spec fn sign_rho_prime(sk: Seq<u8>, msg: Seq<u8>) -> Seq<u8> {
    shake256_spec(sk.subrange(32, 64) + sign_mu(sk, msg), 64).subrange(0, 32)
}

/// The inputs of attempt `kappa`: the matrix expanded from `rho`, the
/// transforms of the secret vectors, and the masking vector of the attempt.
pub open spec fn sign_attempt_inputs<Ctr: Counter>(
    sk: Seq<u8>,
    msg: Seq<u8>,
    kappa: int,
    a: Matrix<NTTPolynomial, L, K>,
    s1h: Vector<NTTPolynomial, L>,
    s2h: Vector<NTTPolynomial, K>,
    t0h: Vector<NTTPolynomial, K>,
    y: Vector<PlainPolynomial, L>,
) -> bool {
    &&& expanded_matrix::<Ctr>(a, sk.subrange(0, 32))
    &&& forall|j: int|
        0 <= j < L ==> #[trigger] s1h.coefficients[j].coefficients@ == forward_spec(
            secret_s1_poly(sk, j),
        )
    &&& forall|k: int|
        0 <= k < K ==> #[trigger] s2h.coefficients[k].coefficients@ == forward_spec(
            secret_s2_poly(sk, k),
        )
    &&& forall|k: int|
        0 <= k < K ==> #[trigger] t0h.coefficients[k].coefficients@ == forward_spec(
            secret_t0_poly(sk, k),
        )
    &&& forall|j: int, n: int|
        0 <= j < L && 0 <= n < 256 ==> #[trigger] y.coeff(j, n) == gamma1_coefficient::<Ctr>(
            sign_rho_prime(sk, msg),
            (L * kappa + j) as u16,
            n,
        )
}

/// Attempt `kappa` of signing `msg` with `sk` returns `out`.
pub open spec fn attempt_result<Ctr: Counter>(
    sk: Seq<u8>,
    msg: Seq<u8>,
    kappa: int,
    out: Option<Signature>,
) -> bool {
    exists|
        a: Matrix<NTTPolynomial, L, K>,
        s1h: Vector<NTTPolynomial, L>,
        s2h: Vector<NTTPolynomial, K>,
        t0h: Vector<NTTPolynomial, K>,
        y: Vector<PlainPolynomial, L>,
    |
        #[trigger] sign_attempt_inputs::<Ctr>(sk, msg, kappa, a, s1h, s2h, t0h, y)
            && attempt_outcome(a, sign_mu(sk, msg), y, s1h, s2h, t0h, out)
}

/// What signing `msg` with secret key bytes `sk` returns.
pub open spec fn sign_spec<Ctr: Counter>(msg: Seq<u8>, sk: Seq<u8>, r: Option<Signature>) -> bool {
    &&& match r {
        Some(sig) => {
            &&& !z_too_large(sig@)
            &&& hint_well_formed(sig@.subrange(HINT_OFFSET as int, SIGNATURE_SIZE as int))
            &&& binds_challenge(
                sig@.subrange(0, 32),
                message_digest(sk.subrange(64, 96), msg),
            )
        },
        None => true,
    }
    &&& match r {
        Some(sig) => exists|kappa: int|
            0 <= kappa < MAX_ATTEMPTS && #[trigger] attempt_result::<Ctr>(
                sk,
                msg,
                kappa,
                Some(sig),
            ) && forall|k2: int|
                0 <= k2 < kappa ==> #[trigger] attempt_result::<Ctr>(sk, msg, k2, None),
        None => (exists|i: int, j: int|
            0 <= i < K && 0 <= j < L && #[trigger] uniform_poly::<Ctr>(
                sk.subrange(0, 32),
                (256 * i + j) as u16,
            ) is None) || forall|kappa: int|
            0 <= kappa < MAX_ATTEMPTS ==> #[trigger] attempt_result::<Ctr>(
                sk,
                msg,
                kappa,
                None,
            ),
    }
}

/// Signs `msg` with the secret key `sk`: the signature of the first attempt
/// that is accepted. `None` if the matrix cannot be drawn, or if all
/// `MAX_ATTEMPTS` attempts are rejected (an attempt whose challenge stream
/// runs out counts as rejected).
pub fn sign<Ctr: Counter>(msg: &[u8], sk: &SecretKey) -> (r: Option<Signature>)
    ensures
        sign_spec::<Ctr>(msg@, sk@, r),
{
    let rho = half_seed_at(sk, 0);
    let key = half_seed_at(sk, 32);
    let tr = half_seed_at(sk, 64);
    let s1 = unpack_eta_vector::<L>(sk, 96);
    let s2 = unpack_eta_vector::<K>(sk, 96 + ETA_PACKED_SIZE * L);
    let t0 = unpack_t0_vector::<K>(sk, 96 + ETA_PACKED_SIZE * (L + K));
    let s1p = s1;
    let s2p = s2;
    let t0p = t0;
    let s1 = s1p.into_ntt();
    let s2 = s2p.into_ntt();
    let t0 = t0p.into_ntt();
    proof {
        assert forall|j: int| 0 <= j < L implies #[trigger] s1.coefficients[j].coefficients@
            == forward_spec(secret_s1_poly(sk@, j)) by {
            assert forall|i: int| 0 <= i < 256 implies s1p.coefficients[j].coefficients@[i]
                == secret_s1_poly(sk@, j)[i] by {
                assert(s1p.coeff(j, i) == eta_coeff(sk@, 96 + ETA_PACKED_SIZE * j, i));
            }
            assert(s1p.coefficients[j].coefficients@ =~= secret_s1_poly(sk@, j));
        }
        assert forall|k: int| 0 <= k < K implies #[trigger] s2.coefficients[k].coefficients@
            == forward_spec(secret_s2_poly(sk@, k)) by {
            assert forall|i: int| 0 <= i < 256 implies s2p.coefficients[k].coefficients@[i]
                == secret_s2_poly(sk@, k)[i] by {
                assert(s2p.coeff(k, i) == eta_coeff(sk@, 96 + ETA_PACKED_SIZE * L + ETA_PACKED_SIZE * k, i));
            }
            assert(s2p.coefficients[k].coefficients@ =~= secret_s2_poly(sk@, k));
        }
        assert forall|k: int| 0 <= k < K implies #[trigger] t0.coefficients[k].coefficients@
            == forward_spec(secret_t0_poly(sk@, k)) by {
            assert forall|i: int| 0 <= i < 256 implies t0p.coefficients[k].coefficients@[i]
                == secret_t0_poly(sk@, k)[i] by {
                assert(t0p.coeff(k, i) == t0_coeff(sk@, 96 + ETA_PACKED_SIZE * (L + K) + T0_PACKED_SIZE * k, i));
            }
            assert(t0p.coefficients[k].coefficients@ =~= secret_t0_poly(sk@, k));
        }
    }
    let mut input: Vec<u8> = Vec::new();
    append(&mut input, &tr);
    append(&mut input, msg);
    let mu = shake256(input.as_slice(), SEED_SIZE);
    proof {
        assert(mu@ =~= message_digest(sk@.subrange(64, 96), msg@));
    }
    let mut input: Vec<u8> = Vec::new();
    append(&mut input, &key);
    append(&mut input, mu.as_slice());
    let rho_prime = shake256(input.as_slice(), SEED_SIZE);
    let rho_prime = half_seed_at(rho_prime.as_slice(), 0);
    proof {
        assert(input@ == key@ + mu@);
        assert(key@ == sk@.subrange(32, 64));
        assert(rho_prime@ =~= sign_rho_prime(sk@, msg@));
        assert(rho@ == sk@.subrange(0, 32));
    }
    let a = match expand_a(Ctr::new(&rho)) {
        Some(a) => a,
        None => {
            return None;
        },
    };
    let mut nonce: u16 = 0;
    while nonce < MAX_ATTEMPTS
        invariant
            mu@ == message_digest(sk@.subrange(64, 96), msg@),
            matrix_canonical(a),
            s1.bounded_by(9 * Q),
            s2.bounded_by(9 * Q),
            t0.bounded_by(9 * Q),
            rho_prime@ == sign_rho_prime(sk@, msg@),
            expanded_matrix::<Ctr>(a, sk@.subrange(0, 32)),
            forall|j: int| 0 <= j < L ==> #[trigger] s1.coefficients[j].coefficients@ == forward_spec(
                secret_s1_poly(sk@, j),
            ),
            forall|k: int| 0 <= k < K ==> #[trigger] s2.coefficients[k].coefficients@ == forward_spec(
                secret_s2_poly(sk@, k),
            ),
            forall|k: int| 0 <= k < K ==> #[trigger] t0.coefficients[k].coefficients@ == forward_spec(
                secret_t0_poly(sk@, k),
            ),
            forall|k2: int| 0 <= k2 < nonce ==> #[trigger] attempt_result::<Ctr>(sk@, msg@, k2, None),
        decreases MAX_ATTEMPTS - nonce,
    {
        let y = expand_y(Ctr::new(&rho_prime), nonce);
        assert forall|k: int| 0 <= k < L implies bounded(
            #[trigger] y.coefficients[k].coefficients@,
            GAMMA1 + 1,
        ) by {
            assert forall|i: int| 0 <= i < 256 implies -(GAMMA1 + 1) < #[trigger] y.coefficients[
                k
            ].coefficients@[i] < GAMMA1 + 1 by {
                assert(-GAMMA1 < y.coefficients[k].coefficients[i] <= GAMMA1);
            }
        }
        let outcome = attempt_sign(&a, mu.as_slice(), y, &s1, &s2, &t0);
        proof {
            assert(sign_attempt_inputs::<Ctr>(sk@, msg@, nonce as int, a, s1, s2, t0, y));
            assert(attempt_result::<Ctr>(sk@, msg@, nonce as int, outcome));
        }
        match outcome {
            Some(sig) => {
                return Some(sig);
            },
            None => {},
        }
        nonce += 1;
    }
    None
}

/// Polynomial `j` of `z` in signature bytes `s`.
pub open spec fn z_poly(s: Seq<u8>, j: int) -> Seq<i32> {
    Seq::new(256, |i: int| signature_z(s, j, i))
}

/// Polynomial `k` of `t1 * 2^D` in public key bytes `pk`.
pub open spec fn t1_shifted_poly(pk: Seq<u8>, k: int) -> Seq<i32> {
    Seq::new(256, |i: int| (public_t1(pk, k, i) * 0x2000) as i32)
}

/// The hint bytes of signature bytes `s`.
pub open spec fn hint_bytes(s: Seq<u8>) -> Seq<u8> {
    s.subrange(HINT_OFFSET as int, SIGNATURE_SIZE as int)
}

/// The challenge that the seed carried by signature bytes `s` gives.
pub open spec fn signature_challenge(s: Seq<u8>) -> Option<Seq<i32>> {
    challenge_spec(shake256_spec(s.subrange(0, 32), CHALLENGE_STREAM_LEN as nat))
}

/// Row `k` of `A * NTT(z) - NTT(t1 * 2^D) * NTT(c)`, reduced into `(-Q, Q)`
/// and brought back by the inverse transform.
pub open spec fn verify_w_row(
    a: Matrix<NTTPolynomial, L, K>,
    zh: Vector<NTTPolynomial, L>,
    th: Vector<NTTPolynomial, K>,
    ch: NTTPolynomial,
    k: int,
) -> Seq<i32> {
    inverse_spec(
        Seq::new(
            256,
            |x: int|
                reduce_32_spec(
                    dot_spec(a.coefficients[k].coefficients@, zh.coefficients@, L as int, x)
                        - montgomery_spec((th.coeff(k, x) * ch.coefficients[x]) as i64),
                ) as i32,
        ),
    )
}

/// The values that verification of `s` under `pk` computes: `a` is the
/// expanded matrix, `zh`, `th`, `ch` the transforms of `z`, `t1 * 2^D` and
/// the challenge, and `w1` the high parts corrected by the hint.
pub open spec fn verify_witnesses<Ctr: Counter>(
    s: Seq<u8>,
    pk: Seq<u8>,
    a: Matrix<NTTPolynomial, L, K>,
    zh: Vector<NTTPolynomial, L>,
    th: Vector<NTTPolynomial, K>,
    ch: NTTPolynomial,
    w1: Vector<PlainPolynomial, K>,
) -> bool {
    &&& expanded_matrix::<Ctr>(a, pk.subrange(0, 32))
    &&& forall|j: int|
        0 <= j < L ==> #[trigger] zh.coefficients[j].coefficients@ == forward_spec(z_poly(s, j))
    &&& forall|k: int|
        0 <= k < K ==> #[trigger] th.coefficients[k].coefficients@ == forward_spec(
            t1_shifted_poly(pk, k),
        )
    &&& signature_challenge(s) is Some
    &&& ch.coefficients@ == forward_spec(signature_challenge(s)->0)
    &&& forall|k: int, i: int|
        0 <= k < K && 0 <= i < 256 ==> #[trigger] w1.coeff(k, i) == use_hint_spec(
            caddq_spec(verify_w_row(a, zh, th, ch, k)[i] as int),
            hint_listed(hint_bytes(s), k, i),
        )
}

/// Verification accepts: `z` is small, the hint well formed, the challenge
/// and the matrix can be drawn, and the carried challenge seed equals
/// SHAKE-256 of `mu` and the encoding of the recomputed `w1`.
pub open spec fn verify_spec<Ctr: Counter>(msg: Seq<u8>, s: Seq<u8>, pk: Seq<u8>) -> bool {
    &&& !z_too_large(s)
    &&& hint_well_formed(hint_bytes(s))
    &&& signature_challenge(s) is Some
    &&& forall|i: int, j: int|
        0 <= i < K && 0 <= j < L ==> #[trigger] uniform_poly::<Ctr>(
            pk.subrange(0, 32),
            (256 * i + j) as u16,
        ) is Some
    &&& forall|
        a: Matrix<NTTPolynomial, L, K>,
        zh: Vector<NTTPolynomial, L>,
        th: Vector<NTTPolynomial, K>,
        ch: NTTPolynomial,
        w1: Vector<PlainPolynomial, K>,
    |
        #[trigger] verify_witnesses::<Ctr>(s, pk, a, zh, th, ch, w1) ==> s.subrange(0, 32)
            == shake256_spec(message_digest(shake256_spec(pk, 32), msg) + w1_bytes(w1), 32)
}

proof fn lemma_dot_ext(
    a: Seq<NTTPolynomial>,
    a2: Seq<NTTPolynomial>,
    b: Seq<NTTPolynomial>,
    b2: Seq<NTTPolynomial>,
    n: int,
    x: int,
)
    requires
        0 <= n <= a.len(),
        n <= a2.len(),
        n <= b.len(),
        n <= b2.len(),
        forall|j: int| 0 <= j < n ==> #[trigger] a[j].coefficients@ == a2[j].coefficients@,
        forall|j: int| 0 <= j < n ==> #[trigger] b[j].coefficients@ == b2[j].coefficients@,
    ensures
        dot_spec(a, b, n, x) == dot_spec(a2, b2, n, x),
    decreases n,
{
    if n > 0 {
        lemma_dot_ext(a, a2, b, b2, n - 1, x);
        assert(a[n - 1].coefficients@ == a2[n - 1].coefficients@);
        assert(b[n - 1].coefficients@ == b2[n - 1].coefficients@);
        assert(a[n - 1].coefficients[x] == a2[n - 1].coefficients@[x]);
        assert(b[n - 1].coefficients[x] == b2[n - 1].coefficients@[x]);
    }
}

/// The recomputed `w1` does not depend on which witnesses are taken.
proof fn lemma_verify_w1_unique<Ctr: Counter>(
    s: Seq<u8>,
    pk: Seq<u8>,
    a: Matrix<NTTPolynomial, L, K>,
    zh: Vector<NTTPolynomial, L>,
    th: Vector<NTTPolynomial, K>,
    ch: NTTPolynomial,
    w1: Vector<PlainPolynomial, K>,
    a2: Matrix<NTTPolynomial, L, K>,
    zh2: Vector<NTTPolynomial, L>,
    th2: Vector<NTTPolynomial, K>,
    ch2: NTTPolynomial,
    w12: Vector<PlainPolynomial, K>,
)
    requires
        verify_witnesses::<Ctr>(s, pk, a, zh, th, ch, w1),
        verify_witnesses::<Ctr>(s, pk, a2, zh2, th2, ch2, w12),
    ensures
        w1_bytes(w1) == w1_bytes(w12),
{
    assert forall|k: int| 0 <= k < K implies verify_w_row(a, zh, th, ch, k) == verify_w_row(
        a2,
        zh2,
        th2,
        ch2,
        k,
    ) by {
        assert forall|j: int| 0 <= j < L implies #[trigger] a.coefficients[k].coefficients@[j].coefficients@
            == a2.coefficients[k].coefficients@[j].coefficients@ by {
            assert(uniform_poly::<Ctr>(pk.subrange(0, 32), (256 * k + j) as u16) == Some(
                a.coefficients[k].coefficients[j].coefficients@,
            ));
            assert(uniform_poly::<Ctr>(pk.subrange(0, 32), (256 * k + j) as u16) == Some(
                a2.coefficients[k].coefficients[j].coefficients@,
            ));
        }
        assert forall|j: int| 0 <= j < L implies #[trigger] zh.coefficients@[j].coefficients@
            == zh2.coefficients@[j].coefficients@ by {
            assert(zh.coefficients[j].coefficients@ == forward_spec(z_poly(s, j)));
            assert(zh2.coefficients[j].coefficients@ == forward_spec(z_poly(s, j)));
        }
        assert(th.coefficients[k].coefficients@ == th2.coefficients[k].coefficients@);
        let inner = Seq::new(
            256,
            |x: int|
                reduce_32_spec(
                    dot_spec(a.coefficients[k].coefficients@, zh.coefficients@, L as int, x)
                        - montgomery_spec((th.coeff(k, x) * ch.coefficients[x]) as i64),
                ) as i32,
        );
        let inner2 = Seq::new(
            256,
            |x: int|
                reduce_32_spec(
                    dot_spec(a2.coefficients[k].coefficients@, zh2.coefficients@, L as int, x)
                        - montgomery_spec((th2.coeff(k, x) * ch2.coefficients[x]) as i64),
                ) as i32,
        );
        assert forall|x: int| 0 <= x < 256 implies inner[x] == inner2[x] by {
            lemma_dot_ext(
                a.coefficients[k].coefficients@,
                a2.coefficients[k].coefficients@,
                zh.coefficients@,
                zh2.coefficients@,
                L as int,
                x,
            );
            assert(th.coefficients[k].coefficients@[x] == th2.coefficients[k].coefficients@[x]);
            assert(ch.coefficients@[x] == ch2.coefficients@[x]);
        }
        assert(inner =~= inner2);
    }
    assert forall|k: int, i: int| 0 <= k < K && 0 <= i < 256 implies #[trigger] w1.coeff(k, i)
        == w12.coeff(k, i) by {
        assert(verify_w_row(a, zh, th, ch, k) == verify_w_row(a2, zh2, th2, ch2, k));
    }
    assert forall|m: int| 0 <= m < K * 128 implies w1_bytes(w1)[m] == w1_bytes(w12)[m] by {
        let k = m / 128;
        let n = m % 128;
        assert(w1.coeff(k, 2 * n) == w12.coeff(k, 2 * n));
        assert(w1.coeff(k, 2 * n + 1) == w12.coeff(k, 2 * n + 1));
    }
    assert(w1_bytes(w1) =~= w1_bytes(w12));
}

/// Checks the signature `signature` of `msg` under the public key `pk`.
/// It is rejected at once where a coefficient of `z` reaches
/// `GAMMA1 - BETA` or the hint is malformed; otherwise it is accepted exactly
/// when the recomputed challenge seed equals the one it carries.
#[verifier::spinoff_prover]
pub fn verify<Ctr: Counter>(msg: &[u8], signature: &Signature, pk: &PublicKey) -> (r: bool)
    ensures
        z_too_large(signature@) ==> !r,
        !hint_well_formed(signature@.subrange(HINT_OFFSET as int, SIGNATURE_SIZE as int)) ==> !r,
        r ==> binds_challenge(
            signature@.subrange(0, 32),
            message_digest(shake256_spec(pk@, 32), msg@),
        ),
        r == verify_spec::<Ctr>(msg@, signature@, pk@),
{
    let rho = half_seed_at(pk, 0);
    let challenge_seed = half_seed_at(signature, 0);
    let mut zs: [PlainPolynomial; L] = [PlainPolynomial::zero(); L];
    let mut j: usize = 0;
    while j < L
        invariant
            j <= L,
            forall|m: int, i: int|
                0 <= m < j && 0 <= i < 256 ==> #[trigger] zs[m].coefficients[i] == signature_z(
                    signature@,
                    m,
                    i,
                ),
            forall|m: int| 0 <= m < j ==> bounded(#[trigger] zs[m].coefficients@, GAMMA1 + 1),
        decreases L - j,
    {
        let start = 32 + POLYZ_PACKED_SIZE * j;
        let p = unpack_z(signature, start);
        proof {
            assert forall|i: int| 0 <= i < 256 implies -(GAMMA1 + 1) < #[trigger] p.coefficients@[i]
                < GAMMA1 + 1 by {
                crate::packing::lemma_z_coeff_range(signature@, start as int, i);
            }
        }
        let ghost prev = zs;
        zs[j] = p;
        proof {
            assert forall|m: int, i: int| 0 <= m < j + 1 && 0 <= i < 256 implies #[trigger] zs[
                m
            ].coefficients[i] == signature_z(signature@, m, i) by {
                if m < j {
                    assert(zs[m] == prev[m]);
                }
            }
        }
        j += 1;
    }
    let z: Vector<PlainPolynomial, L> = Vector::from_polynomials(zs);
    proof {
        crate::vector::lemma_bounded_abs_fits(z, GAMMA1 + 1);
    }
    if z.max() >= GAMMA1 - BETA {
        return false;
    }
    proof {
        if z_too_large(signature@) {
            let (j, i) = choose|j: int, i: int|
                0 <= j < L && 0 <= i < 256 && abs_spec(
                    #[trigger] signature_z(signature@, j, i) as int,
                ) >= GAMMA1 - BETA;
            assert(abs_spec(z.coeff(j, i) as int) < GAMMA1 - BETA);
        }
    }
    let mut packed_hint: Vec<u8> = Vec::new();
    let mut n: usize = HINT_OFFSET;
    while n < SIGNATURE_SIZE
        invariant
            HINT_OFFSET <= n <= SIGNATURE_SIZE,
            packed_hint@ == signature@.subrange(HINT_OFFSET as int, n as int),
        decreases SIGNATURE_SIZE - n,
    {
        packed_hint.push(signature[n]);
        n += 1;
        assert(packed_hint@ =~= signature@.subrange(HINT_OFFSET as int, n as int));
    }
    let hint = match unpack_hint(packed_hint.as_slice()) {
        Some(h) => h,
        None => {
            proof {
                assert(packed_hint@ == hint_bytes(signature@));
            }
            return false;
        },
    };
    let tr = shake256(pk, HALF_SEED_SIZE);
    let mut input: Vec<u8> = Vec::new();
    append(&mut input, tr.as_slice());
    append(&mut input, msg);
    let mu = shake256(input.as_slice(), SEED_SIZE);
    proof {
        assert(tr@ =~= shake256_spec(pk@, 32));
        assert(mu@ =~= message_digest(shake256_spec(pk@, 32), msg@));
    }
    let c = match make_challenge(&challenge_seed) {
        Some(c) => c,
        None => {
            proof {
                assert(challenge_seed@ == signature@.subrange(0, 32));
            }
            return false;
        },
    };
    assert(bounded(c.coefficients@, Q as int));
    let c_hat = c.into_ntt();
    let a = match expand_a(Ctr::new(&rho)) {
        Some(a) => a,
        None => {
            proof {
                assert(rho@ == pk@.subrange(0, 32));
                let (i, j) = choose|i: int, j: int|
                    0 <= i < K && 0 <= j < L && #[trigger] uniform_poly::<Ctr>(
                        rho@,
                        (256 * i + j) as u16,
                    ) is None;
                assert(uniform_poly::<Ctr>(pk@.subrange(0, 32), (256 * i + j) as u16) is None);
            }
            return false;
        },
    };
    let mut ts: [PlainPolynomial; K] = [PlainPolynomial::zero(); K];
    let mut k: usize = 0;
    while k < K
        invariant
            k <= K,
            forall|m: int, i: int|
                0 <= m < k && 0 <= i < 256 ==> 0 <= #[trigger] ts[m].coefficients[i] < 0x400
                    && ts[m].coefficients[i] == public_t1(pk@, m, i),
        decreases K - k,
    {
        let start = 32 + T1_PACKED_SIZE * k;
        let p = unpack_t1(pk, start);
        proof {
            assert forall|i: int| 0 <= i < 256 implies 0 <= #[trigger] p.coefficients[i] < 0x400 by {
                crate::packing::lemma_t1_coeff_range(pk@, start as int, i);
            }
        }
        let ghost prev = ts;
        ts[k] = p;
        proof {
            assert forall|m: int, i: int| 0 <= m < k + 1 && 0 <= i < 256 implies 0 <= #[trigger] ts[
                m
            ].coefficients[i] < 0x400 && ts[m].coefficients[i] == public_t1(pk@, m, i) by {
                if m < k {
                    assert(ts[m] == prev[m]);
                }
            }
        }
        k += 1;
    }
    let t1: Vector<PlainPolynomial, K> = Vector::from_polynomials(ts);
    assert(z.bounded_by(Q as int));
    let z_hat = z.into_ntt();
    assert forall|k: int, j: int, i: int|
        0 <= k < K && 0 <= j < L && 0 <= i < 256 implies product_fits(
        #[trigger] a.coefficients[k].coeff(j, i),
        z_hat.coeff(j, i),
    ) by {
        assert(bounded(z_hat.coefficients[j].coefficients@, 9 * Q));
        lemma_product_fits(a.coefficients[k].coeff(j, i), z_hat.coeff(j, i));
    }
    let az = a.mul_vector(&z_hat);
    let t1_shifted = t1.shift_d();
    assert forall|k: int| 0 <= k < K implies bounded(
        #[trigger] t1_shifted.coefficients[k].coefficients@,
        Q as int,
    ) by {
        assert forall|i: int| 0 <= i < 256 implies -Q < #[trigger] t1_shifted.coefficients[k].coefficients@[i] < Q by {
            assert(t1_shifted.coeff(k, i) == t1.coeff(k, i) * 0x2000);
            assert(0 <= t1.coefficients[k].coefficients[i] < 0x400);
        }
    }
    let t1_hat = t1_shifted.into_ntt();
    proof {
        lemma_vector_products(t1_hat, c_hat);
    }
    let ct1 = t1_hat.mul_polynomial(&c_hat);
    assert forall|k: int, i: int| 0 <= k < K && 0 <= i < 256 implies sum_fits(
        #[trigger] az.coeff(k, i) as int,
        -ct1.coeff(k, i),
    ) by {
        assert(bounded(az.coefficients[k].coefficients@, L * Q + 1));
        assert(bounded(ct1.coefficients[k].coefficients@, Q as int));
    }
    let diff = az.sub(ct1);
    assert forall|k: int, i: int| 0 <= k < K && 0 <= i < 256 implies #[trigger] diff.coeff(k, i)
        <= i32::MAX - 0x40_0000 by {
        assert(bounded(az.coefficients[k].coefficients@, L * Q + 1));
        assert(bounded(ct1.coefficients[k].coefficients@, Q as int));
    }
    let reduced = diff.reduce_32();
    let plain = reduced.into_plain();
    let canon = plain.caddq();
    let w1 = canon.use_hint(&hint);
    proof {
        assert(rho@ == pk@.subrange(0, 32));
        assert(challenge_seed@ == signature@.subrange(0, 32));
        assert(packed_hint@ == hint_bytes(signature@));
        assert forall|j: int| 0 <= j < L implies #[trigger] z_hat.coefficients[j].coefficients@
            == forward_spec(z_poly(signature@, j)) by {
            assert(z.coefficients[j].coefficients@ =~= z_poly(signature@, j));
        }
        assert forall|k: int| 0 <= k < K implies #[trigger] t1_hat.coefficients[k].coefficients@
            == forward_spec(t1_shifted_poly(pk@, k)) by {
            assert forall|i: int| 0 <= i < 256 implies t1_shifted.coefficients[k].coefficients@[i]
                == t1_shifted_poly(pk@, k)[i] by {
                assert(t1_shifted.coeff(k, i) == t1.coeff(k, i) * 0x2000);
                assert(t1.coeff(k, i) == public_t1(pk@, k, i));
                assert(0 <= t1.coeff(k, i) < 0x400);
            }
            assert(t1_shifted.coefficients[k].coefficients@ =~= t1_shifted_poly(pk@, k));
        }
        assert forall|k: int| 0 <= k < K implies #[trigger] plain.coefficients[k].coefficients@
            == verify_w_row(a, z_hat, t1_hat, c_hat, k) by {
            let inner = Seq::new(
                256,
                |x: int|
                    reduce_32_spec(
                        dot_spec(a.coefficients[k].coefficients@, z_hat.coefficients@, L as int, x)
                            - montgomery_spec((t1_hat.coeff(k, x) * c_hat.coefficients[x]) as i64),
                    ) as i32,
            );
            assert forall|x: int| 0 <= x < 256 implies reduced.coefficients[k].coefficients@[x]
                == inner[x] by {
                assert(reduced.coeff(k, x) == reduce_32_spec(diff.coeff(k, x) as int));
                assert(diff.coeff(k, x) == az.coeff(k, x) - ct1.coeff(k, x));
                assert(az.coeff(k, x) == dot_spec(
                    a.coefficients[k].coefficients@,
                    z_hat.coefficients@,
                    L as int,
                    x,
                ));
                assert(ct1.coeff(k, x) == montgomery_spec(
                    (t1_hat.coeff(k, x) * c_hat.coefficients[x]) as i64,
                ));
            }
            assert(reduced.coefficients[k].coefficients@ =~= inner);
        }
        assert forall|k: int, i: int| 0 <= k < K && 0 <= i < 256 implies #[trigger] w1.coeff(k, i)
            == use_hint_spec(
            caddq_spec(verify_w_row(a, z_hat, t1_hat, c_hat, k)[i] as int),
            hint_listed(hint_bytes(signature@), k, i),
        ) by {
            assert(w1.coeff(k, i) == use_hint_spec(canon.coeff(k, i) as int, hint[k][i]));
            assert(canon.coeff(k, i) == caddq_spec(plain.coeff(k, i) as int));
            assert(hint[k][i] == hint_listed(packed_hint@, k, i));
        }
        assert(verify_witnesses::<Ctr>(signature@, pk@, a, z_hat, t1_hat, c_hat, w1));
    }
    let mut input: Vec<u8> = Vec::new();
    append(&mut input, mu.as_slice());
    let packed_w1 = pack_w1(&w1);
    append(&mut input, packed_w1.as_slice());
    let recomputed = shake256(input.as_slice(), HALF_SEED_SIZE);
    let mut same = true;
    let mut i: usize = 0;
    while i < HALF_SEED_SIZE
        invariant
            i <= HALF_SEED_SIZE,
            recomputed@.len() == HALF_SEED_SIZE,
            same == forall|m: int| 0 <= m < i ==> recomputed@[m] == #[trigger] challenge_seed@[m],
        decreases HALF_SEED_SIZE - i,
    {
        if recomputed[i] != challenge_seed[i] {
            same = false;
        }
        i += 1;
    }
    proof {
        assert(input@ == mu@ + packed_w1@);
        assert(recomputed@ =~= shake256_spec(mu@ + w1_bytes(w1), 32));
        if same {
            assert(recomputed@ =~= challenge_seed@);
            assert forall|
                a2: Matrix<NTTPolynomial, L, K>,
                zh2: Vector<NTTPolynomial, L>,
                th2: Vector<NTTPolynomial, K>,
                ch2: NTTPolynomial,
                w12: Vector<PlainPolynomial, K>,
            | #[trigger] verify_witnesses::<Ctr>(signature@, pk@, a2, zh2, th2, ch2, w12) implies signature@.subrange(0, 32)
                == shake256_spec(
                message_digest(shake256_spec(pk@, 32), msg@) + w1_bytes(w12),
                32,
            ) by {
                lemma_verify_w1_unique::<Ctr>(
                    signature@,
                    pk@,
                    a,
                    z_hat,
                    t1_hat,
                    c_hat,
                    w1,
                    a2,
                    zh2,
                    th2,
                    ch2,
                    w12,
                );
            }
            assert(verify_spec::<Ctr>(msg@, signature@, pk@));
        } else {
            if verify_spec::<Ctr>(msg@, signature@, pk@) {
                assert(signature@.subrange(0, 32) == shake256_spec(
                    message_digest(shake256_spec(pk@, 32), msg@) + w1_bytes(w1),
                    32,
                ));
                assert(recomputed@ =~= challenge_seed@);
                assert(forall|m: int| 0 <= m < 32 ==> recomputed@[m] == #[trigger] challenge_seed@[m]);
            }
        }
    }
    same
}

/// Key generation from `seed`, signing of `msg` and verification of the
/// signature with the software AES counter: the signature if it verifies.
pub fn compute_software(msg: &[u8], seed: &[u8]) -> (r: Option<Signature>)
    ensures
        seed@.len() < HALF_SEED_SIZE ==> r is None,
        match r {
            Some(sig) => !z_too_large(sig@),
            None => true,
        },
        match r {
            Some(sig) => exists|pk: PublicKey, sk: SecretKey|
                {
                    &&& #[trigger] make_keys_spec::<SoftwareAesCounter>(seed@, Some((pk, sk)))
                    &&& sign_spec::<SoftwareAesCounter>(msg@, sk@, Some(sig))
                    &&& verify_spec::<SoftwareAesCounter>(msg@, sig@, pk@)
                },
            None => make_keys_spec::<SoftwareAesCounter>(seed@, None) || exists|
                pk: PublicKey,
                sk: SecretKey,
            |
                {
                    &&& #[trigger] make_keys_spec::<SoftwareAesCounter>(seed@, Some((pk, sk)))
                    &&& (sign_spec::<SoftwareAesCounter>(msg@, sk@, None) || exists|
                        sig: Signature,
                    |
                        #[trigger] sign_spec::<SoftwareAesCounter>(msg@, sk@, Some(sig))
                            && !verify_spec::<SoftwareAesCounter>(msg@, sig@, pk@))
                },
        },
{
    let (pk, sk) = match make_keys::<SoftwareAesCounter>(seed) {
        Some(keys) => keys,
        None => {
            return None;
        },
    };
    let signature = match sign::<SoftwareAesCounter>(msg, &sk) {
        Some(sig) => sig,
        None => {
            proof {
                assert(make_keys_spec::<SoftwareAesCounter>(seed@, Some((pk, sk))));
            }
            return None;
        },
    };
    if verify::<SoftwareAesCounter>(msg, &signature, &pk) {
        proof {
            assert(make_keys_spec::<SoftwareAesCounter>(seed@, Some((pk, sk))));
        }
        Some(signature)
    } else {
        proof {
            assert(make_keys_spec::<SoftwareAesCounter>(seed@, Some((pk, sk))));
            assert(sign_spec::<SoftwareAesCounter>(msg@, sk@, Some(signature)));
        }
        None
    }
}

} // verus!
