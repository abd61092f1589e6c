//! Arithmetic on single coefficients of `Z_q`, held as signed 32-bit integers.
use vstd::prelude::*;

use crate::params::{ALPHA, GAMMA2, Q, Q_MOD_2POW32_INVERSE};

verus! {

pub type Coefficient = i32;

/// The signed residue of `x * Q^-1` modulo `2^32`: the multiple of `Q` that
/// Montgomery reduction subtracts.
pub open spec fn montgomery_factor(x: i64) -> int {
    ((x as i32) * Q_MOD_2POW32_INVERSE) as i32 as int
}

/// `(x - montgomery_factor(x) * Q) / 2^32`, which is `x * 2^-32` modulo `Q`.
pub open spec fn montgomery_spec(x: i64) -> int {
    (x - montgomery_factor(x) * Q) / 0x1_0000_0000
}

/// `n - round(n / 2^23) * Q`, a representative of `n` in `(-Q, Q)`.
pub open spec fn reduce_32_spec(n: int) -> int {
    n - ((n + 0x40_0000) / 0x80_0000) * Q
}

/// Adds `Q` to a negative value.
pub open spec fn caddq_spec(n: int) -> int {
    if n < 0 {
        n + Q
    } else {
        n
    }
}

/// `x mod ALPHA`, centered into `(-ALPHA / 2, ALPHA / 2]`.
pub open spec fn centered_mod_alpha(x: int) -> int {
    let r = x % (ALPHA as int);
    if r > GAMMA2 {
        r - ALPHA
    } else {
        r
    }
}

/// The low and high parts of `n` in `[0, Q)`: `n = high * ALPHA + low` with
/// `low` centered, except that the top value of `high` wraps to zero.
pub open spec fn decompose_spec(n: int) -> (int, int) {
    let r0 = centered_mod_alpha(n);
    if n - r0 == Q - 1 {
        (r0 - 1, 0)
    } else {
        (r0, (n - r0) / (ALPHA as int))
    }
}

/// `n = high * 2^D + low` with `low` in `(-2^(D-1), 2^(D-1)]`.
pub open spec fn power2round_spec(n: int) -> (int, int) {
    let high = (n + 0xfff) / 0x2000;
    (n - high * 0x2000, high)
}

pub open spec fn abs_spec(n: int) -> int {
    if n < 0 {
        -n
    } else {
        n
    }
}

proof fn lemma_montgomery_exact(coeff: i64, t: i32, diff: i64)
    requires
        t == ((coeff as i32) * 58728449i32) as i32,
        diff == coeff - t * 8380417i64,
    ensures
        diff >> 32u32 == diff / 0x1_0000_0000,
        (diff >> 32u32) * 0x1_0000_0000 == diff,
{
    let c = coeff as i32;
    assert((c - t * 8380417i32) as i32 == 0) by (bit_vector)
        requires
            t == (c * 58728449i32) as i32,
    ;
    assert(diff as i32 == 0) by (bit_vector)
        requires
            c == coeff as i32,
            (c - t * 8380417i32) as i32 == 0,
            diff == coeff - t * 8380417i64,
    ;
    assert((diff >> 32u32) * 0x1_0000_0000 == diff) by (bit_vector)
        requires
            (diff as i32) == 0,
    ;
    assert(diff >> 32u32 == diff / 0x1_0000_0000) by (bit_vector);
}

/// Montgomery reduction: a value congruent to `coeff * 2^-32` modulo `Q`.
pub fn reduce_montgomery(coeff: i64) -> (r: Coefficient)
    requires
        -0x8000_0000 * (Q as int) <= coeff < 0x8000_0000 * (Q as int),
    ensures
        r == montgomery_spec(coeff),
        r * 0x1_0000_0000 == coeff - montgomery_factor(coeff) * Q,
        -Q < r < Q,
{
    let t: i32 = (coeff as i32).wrapping_mul(Q_MOD_2POW32_INVERSE);
    proof {
        assert(t as int == montgomery_factor(coeff)) by (bit_vector)
            requires
                t == (coeff as i32).wrapping_mul(58728449i32),
        ;
        assert(-0x8000_0000 * 8380417 <= t * 8380417 <= 0x7fff_ffff * 8380417) by (nonlinear_arith)
            requires
                -0x8000_0000 <= t <= 0x7fff_ffff,
        ;
    }
    let diff: i64 = coeff - (t as i64) * (Q as i64);
    proof {
        lemma_montgomery_exact(coeff, t, diff);
    }
    let r = diff >> 32u32;
    r as i32
}

/// A representative of `n` modulo `Q` in `(-Q, Q)`.
pub fn reduce_32(n: Coefficient) -> (r: Coefficient)
    requires
        n <= i32::MAX - 0x40_0000,
    ensures
        r == reduce_32_spec(n as int),
        -Q < r < Q,
{
    let m = n + 0x40_0000;
    let k = m >> 23u32;
    proof {
        assert(k == m / 0x80_0000 && -0x100 <= k <= 0x100) by (bit_vector)
            requires
                k == m >> 23u32,
        ;
        assert(-0x40_0000 <= n - k * 0x80_0000 < 0x40_0000);
    }
    n - k * Q
}

/// Maps `(-Q, Q)` onto `[0, Q)`, keeping the residue modulo `Q`.
pub fn caddq(n: Coefficient) -> (r: Coefficient)
    requires
        n > -Q,
    ensures
        r == caddq_spec(n as int),
        n < Q ==> 0 <= r < Q,
{
    if n >= 0 {
        n
    } else {
        n + Q
    }
}

/// Splits `n` in `[0, Q)` into `(low, high)` with `n ≡ high * ALPHA + low (mod Q)`.
pub fn decompose(n: Coefficient) -> (r: (Coefficient, Coefficient))
    requires
        0 <= n < Q,
    ensures
        (r.0 as int, r.1 as int) == decompose_spec(n as int),
{
    let t = (n + 127) >> 7u32;
    proof {
        assert(0 <= t < 0x1_0000) by (bit_vector)
            requires
                0 <= n < 8380417i32,
                t == ((n + 127) as i32) >> 7u32,
        ;
    }
    let u = (t * 1025 + 0x20_0000) >> 22u32;
    let n1 = u & 15;
    proof {
        assert(0 <= n1 < 16) by (bit_vector)
            requires
                n1 == u & 15i32,
        ;
    }
    let a0 = n - n1 * ALPHA;
    let s = ((Q - 1) / 2 - a0) >> 31u32;
    proof {
        assert((s & 8380417i32) == 0 || (s & 8380417i32) == 8380417) by (bit_vector)
            requires
                s == ((4190208i32 - a0) as i32) >> 31u32,
        ;
    }
    let n0 = a0 - (s & Q);
    proof {
        assert({
            &&& 0 <= n1 < 16
            &&& -261888 <= n0 <= 261888
            &&& (n >= 8118529 ==> n1 == 0 && n0 == n - 8380417)
            &&& (n < 8118529 ==> -261888 < n0 && n0 == n - n1 * 523776)
        }) by (bit_vector)
            requires
                0 <= n < 8380417i32,
                t == ((n + 127) as i32) >> 7u32,
                u == ((t * 1025 + 0x20_0000) as i32) >> 22u32,
                n1 == u & 15i32,
                a0 == (n - n1 * 523776) as i32,
                s == ((4190208i32 - a0) as i32) >> 31u32,
                n0 == (a0 - (s & 8380417i32)) as i32,
        ;
        lemma_decompose_spec(n as int);
    }
    (n0, n1)
}

proof fn lemma_decompose_spec(n: int)
    requires
        0 <= n < Q,
    ensures
        ({
            let (low, high) = decompose_spec(n);
            &&& 0 <= high < 16
            &&& n >= 8118529 ==> high == 0 && low == n - Q
            &&& n < 8118529 ==> n == high * ALPHA + low && -GAMMA2 < low <= GAMMA2
        }),
{
    let r = n % (ALPHA as int);
    let r0 = centered_mod_alpha(n);
    assert(n == (n / (ALPHA as int)) * ALPHA + r);
    assert(0 <= n / (ALPHA as int) <= 16);
    assert((n - r0) % (ALPHA as int) == 0 && (n - r0) / (ALPHA as int) * ALPHA == n - r0) by {
        if r > GAMMA2 {
            assert(n - r0 == (n / (ALPHA as int) + 1) * ALPHA);
        } else {
            assert(n - r0 == (n / (ALPHA as int)) * ALPHA);
        }
    }
}

/// Splits `coeff` into `(low, high)` with `coeff = high * 2^D + low`.
pub fn power2round(coeff: Coefficient) -> (r: (Coefficient, Coefficient))
    requires
        0 <= coeff < Q,
    ensures
        (r.0 as int, r.1 as int) == power2round_spec(coeff as int),
        coeff == r.1 * 0x2000 + r.0,
        -0x1000 < r.0 <= 0x1000,
{
    let m = coeff + 0xfff;
    let a1 = m >> 13u32;
    proof {
        assert(a1 == m / 0x2000 && 0 <= a1 < 0x400) by (bit_vector)
            requires
                0 <= m < 8384512i32,
                a1 == m >> 13u32,
        ;
        assert(a1 << 13u32 == a1 * 0x2000) by (bit_vector)
            requires
                0 <= a1 < 0x400,
        ;
    }
    (coeff - (a1 << 13u32), a1)
}

/// The absolute value of `n`, computed without a branch.
pub fn abs(n: Coefficient) -> (r: Coefficient)
    requires
        -0x4000_0000 <= n < 0x4000_0000,
    ensures
        r == abs_spec(n as int),
{
    proof {
        assert(n - ((n >> 31u32) & ((2 * n) as i32)) == if n < 0 {
            -n
        } else {
            n as int
        }) by (bit_vector)
            requires
                -0x4000_0000 <= n < 0x4000_0000,
        ;
    }
    n - ((n >> 31u32) & (2 * n))
}

/// Montgomery reduction of a product in range lands in `(-Q, Q)`.
pub proof fn lemma_montgomery_range(x: i64)
    requires
        -0x8000_0000 * (Q as int) < x < 0x8000_0000 * (Q as int),
    ensures
        -Q < montgomery_spec(x) < Q,
{
    let t = ((x as i32) * 58728449i32) as i32;
    assert(-0x8000_0000 * 8380417 <= t * 8380417 <= 0x7fff_ffff * 8380417) by (nonlinear_arith)
        requires
            -0x8000_0000 <= t <= 0x7fff_ffff,
    ;
    let diff = (x - t * 8380417i64) as i64;
    lemma_montgomery_exact(x, t, diff);
    assert(t as int == montgomery_factor(x));
}

/// For every `n` in `[0, Q)`, `decompose` gives `high * ALPHA + low ≡ n (mod Q)`
/// with `|low| <= ALPHA / 2` and `high` in `[0, 16)`.
pub proof fn lemma_decompose_law(n: int)
    requires
        0 <= n < Q,
    ensures
        ({
            let (low, high) = decompose_spec(n);
            &&& (high * ALPHA + low - n) % (Q as int) == 0
            &&& -GAMMA2 <= low <= GAMMA2
            &&& 0 <= high < 16
        }),
{
    lemma_decompose_spec(n);
    let (low, high) = decompose_spec(n);
    if n >= 8118529 {
        assert(high * ALPHA + low - n == -Q);
    } else {
        assert(high * ALPHA + low - n == 0);
    }
}

/// For every `n` in `[0, Q)`, `power2round` gives `n = high * 2^D + low` with
/// `|low| <= 2^(D-1)`.
pub proof fn lemma_power2round_law(n: int)
    requires
        0 <= n < Q,
    ensures
        ({
            let (low, high) = power2round_spec(n);
            &&& n == high * 0x2000 + low
            &&& -0x1000 < low <= 0x1000
            &&& 0 <= high < 0x400
        }),
{
    let high = (n + 0xfff) / 0x2000;
    assert(high * 0x2000 <= n + 0xfff < high * 0x2000 + 0x2000);
}

} // verus!
