//! Fixed-size vectors of polynomials and the matrix-vector product.
use vstd::prelude::*;

use crate::coefficient::{
    self, abs_spec, caddq_spec, decompose_spec, montgomery_spec, power2round_spec, reduce_32_spec,
    Coefficient,
};
use crate::ntt::{bounded, forward_spec, inverse_spec};
use crate::polynomial::{self, abs_fits, product_fits, NTTPolynomial, PlainPolynomial};
use crate::params::{D, Q};

verus! {

/// `N` polynomials of one representation.
#[derive(Debug, Clone, Copy, PartialEq, Eq)]
pub struct Vector<Scalar, const N: usize> {
    pub coefficients: [Scalar; N],
}

/// `M` rows of `N` polynomials.
pub type Matrix<Scalar, const N: usize, const M: usize> = Vector<Vector<Scalar, N>, M>;

/// The high part of `c` in `[0, Q)` after the correction that `hint` asks for.
pub open spec fn use_hint_spec(c: int, hint: bool) -> int {
    let (a0, a1) = decompose_spec(c);
    if hint {
        if a0 > 0 {
            (a1 + 1) % 16
        } else {
            (a1 - 1) % 16
        }
    } else {
        a1
    }
}

/// The sum over the first `n` entries of the Montgomery products of
/// coefficient `i`.
pub open spec fn dot_spec(a: Seq<NTTPolynomial>, b: Seq<NTTPolynomial>, n: int, i: int) -> int
    decreases n,
{
    if n <= 0 {
        0
    } else {
        dot_spec(a, b, n - 1, i) + montgomery_spec(
            (a[n - 1].coefficients[i] * b[n - 1].coefficients[i]) as i64,
        )
    }
}

impl<Scalar, const N: usize> Vector<Scalar, N> {
    pub fn from_polynomials(coefficients: [Scalar; N]) -> (r: Self)
        ensures
            r.coefficients == coefficients,
    {
        Vector { coefficients }
    }
}

impl<const N: usize> Vector<PlainPolynomial, N> {
    pub open spec fn coeff(&self, k: int, i: int) -> i32 {
        self.coefficients[k].coefficients[i]
    }

    /// Every coefficient lies strictly between `-b` and `b`.
    pub open spec fn bounded_by(&self, b: int) -> bool {
        forall|k: int| 0 <= k < N ==> bounded(#[trigger] self.coefficients[k].coefficients@, b)
    }

    /// Every coefficient lies in `[0, Q)`.
    pub open spec fn canonical(&self) -> bool {
        forall|k: int, i: int| 0 <= k < N && 0 <= i < 256 ==> 0 <= #[trigger] self.coeff(k, i) < Q
    }

    pub fn zero() -> (r: Self)
        ensures
            forall|k: int, i: int| 0 <= k < N && 0 <= i < 256 ==> #[trigger] r.coeff(k, i) == 0,
    {
        Vector { coefficients: [PlainPolynomial::zero(); N] }
    }

    /// The forward transform of every entry.
    pub fn into_ntt(self) -> (r: Vector<NTTPolynomial, N>)
        requires
            self.bounded_by(Q as int),
        ensures
            forall|k: int|
                0 <= k < N ==> bounded(#[trigger] r.coefficients[k].coefficients@, 9 * Q),
            forall|k: int|
                0 <= k < N ==> #[trigger] r.coefficients[k].coefficients@ == forward_spec(
                    self.coefficients[k].coefficients@,
                ),
    {
        let mut out: [NTTPolynomial; N] = [NTTPolynomial::from_coefficients([0; 256]); N];
        let mut k: usize = 0;
        while k < N
            invariant
                self.bounded_by(Q as int),
                forall|m: int|
                    0 <= m < k ==> bounded(#[trigger] out[m].coefficients@, 9 * Q),
                forall|m: int|
                    0 <= m < k ==> #[trigger] out[m].coefficients@ == forward_spec(
                        self.coefficients[m].coefficients@,
                    ),
            decreases N - k,
        {
            assert(bounded(self.coefficients[k as int].coefficients@, Q as int));
            out[k] = self.coefficients[k].into_ntt();
            k += 1;
        }
        Vector { coefficients: out }
    }

    /// Reduces every coefficient into `(-Q, Q)`.
    pub fn reduce_32(self) -> (r: Self)
        requires
            forall|k: int, i: int|
                0 <= k < N && 0 <= i < 256 ==> #[trigger] self.coeff(k, i) <= i32::MAX - 0x40_0000,
        ensures
            forall|k: int, i: int|
                0 <= k < N && 0 <= i < 256 ==> #[trigger] r.coeff(k, i) == reduce_32_spec(
                    self.coeff(k, i) as int,
                ),
            r.bounded_by(Q as int),
    {
        let mut r = self;
        let mut k: usize = 0;
        while k < N
            invariant
                forall|m: int, i: int|
                    0 <= m < N && 0 <= i < 256 ==> #[trigger] self.coeff(m, i) <= i32::MAX
                        - 0x40_0000,
                forall|m: int| k <= m < N ==> #[trigger] r.coefficients[m] == self.coefficients[m],
                forall|m: int, i: int|
                    0 <= m < k && 0 <= i < 256 ==> #[trigger] r.coeff(m, i) == reduce_32_spec(
                        self.coeff(m, i) as int,
                    ),
                forall|m: int| 0 <= m < k ==> bounded(#[trigger] r.coefficients[m].coefficients@, Q as int),
            decreases N - k,
        {
            let ghost r0 = r;
            let mut p = r.coefficients[k];
            let ghost orig = p;
            assert forall|i: int| 0 <= i < 256 implies #[trigger] p.coefficients[i] <= i32::MAX
                - 0x40_0000 by {
                assert(self.coeff(k as int, i) <= i32::MAX - 0x40_0000);
            }
            polynomial::reduce_32(&mut p.coefficients);
            r.coefficients[k] = p;
            proof {
                assert forall|m: int, i: int| 0 <= m < k + 1 && 0 <= i < 256 implies #[trigger] r.coeff(m, i)
                    == reduce_32_spec(self.coeff(m, i) as int) by {
                    if m == k as int {
                        assert(r.coefficients[m] == p);
                        assert(r.coeff(m, i) == p.coefficients[i]);
                        assert(self.coeff(m, i) == orig.coefficients[i]);
                    } else {
                        assert(r.coefficients[m] == r0.coefficients[m]);
                        assert(r.coeff(m, i) == r0.coeff(m, i));
                    }
                }
            }
            k += 1;
        }
        r
    }

    /// Moves every coefficient from `(-Q, Q)` to `[0, Q)`.
    pub fn caddq(self) -> (r: Self)
        requires
            self.bounded_by(Q as int),
        ensures
            forall|k: int, i: int|
                0 <= k < N && 0 <= i < 256 ==> #[trigger] r.coeff(k, i) == caddq_spec(
                    self.coeff(k, i) as int,
                ),
            r.canonical(),
    {
        let mut r = self;
        let mut k: usize = 0;
        while k < N
            invariant
                self.bounded_by(Q as int),
                forall|m: int| k <= m < N ==> #[trigger] r.coefficients[m] == self.coefficients[m],
                forall|m: int, i: int|
                    0 <= m < k && 0 <= i < 256 ==> #[trigger] r.coeff(m, i) == caddq_spec(
                        self.coeff(m, i) as int,
                    ),
                forall|m: int, i: int| 0 <= m < k && 0 <= i < 256 ==> 0 <= #[trigger] r.coeff(m, i) < Q,
            decreases N - k,
        {
            let ghost r0 = r;
            let mut p = r.coefficients[k];
            let ghost orig = p;
            assert(bounded(self.coefficients[k as int].coefficients@, Q as int));
            polynomial::caddq(&mut p.coefficients);
            r.coefficients[k] = p;
            proof {
                assert forall|m: int, i: int| 0 <= m < k + 1 && 0 <= i < 256 implies #[trigger] r.coeff(m, i)
                    == caddq_spec(self.coeff(m, i) as int) && 0 <= r.coeff(m, i) < Q by {
                    if m == k as int {
                        assert(r.coefficients[m] == p);
                        assert(r.coeff(m, i) == p.coefficients[i]);
                        assert(self.coeff(m, i) == orig.coefficients[i]);
                    } else {
                        assert(r.coefficients[m] == r0.coefficients[m]);
                        assert(r.coeff(m, i) == r0.coeff(m, i));
                    }
                }
            }
            k += 1;
        }
        r
    }

    /// Splits every coefficient into its low and high parts: `(low, high)`.
    pub fn decompose(self) -> (r: (Self, Self))
        requires
            self.canonical(),
        ensures
            forall|k: int, i: int|
                0 <= k < N && 0 <= i < 256 ==> (#[trigger] r.0.coeff(k, i) as int, r.1.coeff(
                    k,
                    i,
                ) as int) == decompose_spec(self.coeff(k, i) as int),
    {
        let mut low = self;
        let mut high = self;
        let mut k: usize = 0;
        while k < N
            invariant
                self.canonical(),
                forall|m: int, i: int|
                    0 <= m < k && 0 <= i < 256 ==> (#[trigger] low.coeff(m, i) as int, high.coeff(
                        m,
                        i,
                    ) as int) == decompose_spec(self.coeff(m, i) as int),
            decreases N - k,
        {
            let ghost low0 = low;
            let ghost high0 = high;
            let p = self.coefficients[k];
            let mut lp = p;
            let mut hp = p;
            let mut i: usize = 0;
            while i < 256
                invariant
                    k < N,
                    p == self.coefficients[k as int],
                    self.canonical(),
                    forall|j: int|
                        0 <= j < i ==> (#[trigger] lp.coefficients[j] as int, hp.coefficients[j] as int)
                            == decompose_spec(p.coefficients[j] as int),
                decreases 256 - i,
            {
                assert(0 <= self.coeff(k as int, i as int) < Q);
                let (a0, a1) = coefficient::decompose(p.coefficients[i]);
                lp.coefficients[i] = a0;
                hp.coefficients[i] = a1;
                i += 1;
            }
            low.coefficients[k] = lp;
            high.coefficients[k] = hp;
            proof {
                assert forall|m: int, i: int| 0 <= m < k + 1 && 0 <= i < 256 implies (#[trigger] low.coeff(
                    m,
                    i,
                ) as int, high.coeff(m, i) as int) == decompose_spec(self.coeff(m, i) as int) by {
                    if m == k as int {
                        assert(low.coefficients[m] == lp);
                        assert(high.coefficients[m] == hp);
                        assert(low.coeff(m, i) == lp.coefficients[i]);
                        assert(high.coeff(m, i) == hp.coefficients[i]);
                        assert(self.coeff(m, i) == p.coefficients[i]);
                    } else {
                        assert(low.coefficients[m] == low0.coefficients[m]);
                        assert(high.coefficients[m] == high0.coefficients[m]);
                        assert(low.coeff(m, i) == low0.coeff(m, i));
                        assert(high.coeff(m, i) == high0.coeff(m, i));
                    }
                }
            }
            k += 1;
        }
        (low, high)
    }

    /// Splits every coefficient into `(low, high)` with `c = high * 2^D + low`.
    pub fn power2round(self) -> (r: (Self, Self))
        requires
            self.canonical(),
        ensures
            forall|k: int, i: int|
                0 <= k < N && 0 <= i < 256 ==> (#[trigger] r.0.coeff(k, i) as int, r.1.coeff(
                    k,
                    i,
                ) as int) == power2round_spec(self.coeff(k, i) as int),
    {
        let mut low = self;
        let mut high = self;
        let mut k: usize = 0;
        while k < N
            invariant
                self.canonical(),
                forall|m: int, i: int|
                    0 <= m < k && 0 <= i < 256 ==> (#[trigger] low.coeff(m, i) as int, high.coeff(
                        m,
                        i,
                    ) as int) == power2round_spec(self.coeff(m, i) as int),
            decreases N - k,
        {
            let ghost low0 = low;
            let ghost high0 = high;
            let p = self.coefficients[k];
            let mut lp = p;
            let mut hp = p;
            let mut i: usize = 0;
            while i < 256
                invariant
                    k < N,
                    p == self.coefficients[k as int],
                    self.canonical(),
                    forall|j: int|
                        0 <= j < i ==> (#[trigger] lp.coefficients[j] as int, hp.coefficients[j] as int)
                            == power2round_spec(p.coefficients[j] as int),
                decreases 256 - i,
            {
                assert(0 <= self.coeff(k as int, i as int) < Q);
                let (a0, a1) = coefficient::power2round(p.coefficients[i]);
                lp.coefficients[i] = a0;
                hp.coefficients[i] = a1;
                i += 1;
            }
            low.coefficients[k] = lp;
            high.coefficients[k] = hp;
            proof {
                assert forall|m: int, i: int| 0 <= m < k + 1 && 0 <= i < 256 implies (#[trigger] low.coeff(
                    m,
                    i,
                ) as int, high.coeff(m, i) as int) == power2round_spec(self.coeff(m, i) as int) by {
                    if m == k as int {
                        assert(low.coefficients[m] == lp);
                        assert(high.coefficients[m] == hp);
                        assert(low.coeff(m, i) == lp.coefficients[i]);
                        assert(high.coeff(m, i) == hp.coefficients[i]);
                        assert(self.coeff(m, i) == p.coefficients[i]);
                    } else {
                        assert(low.coefficients[m] == low0.coefficients[m]);
                        assert(high.coefficients[m] == high0.coefficients[m]);
                        assert(low.coeff(m, i) == low0.coeff(m, i));
                        assert(high.coeff(m, i) == high0.coeff(m, i));
                    }
                }
            }
            k += 1;
        }
        (low, high)
    }

    /// The largest absolute value of a coefficient over all entries.
    pub fn max(&self) -> (r: Coefficient)
        requires
            N > 0,
            forall|k: int| 0 <= k < N ==> abs_fits(#[trigger] self.coefficients[k].coefficients@),
        ensures
            forall|k: int, i: int|
                0 <= k < N && 0 <= i < 256 ==> abs_spec(#[trigger] self.coeff(k, i) as int) <= r,
            exists|k: int, i: int|
                0 <= k < N && 0 <= i < 256 && r == abs_spec(#[trigger] self.coeff(k, i) as int),
    {
        assert(abs_fits(self.coefficients[0].coefficients@));
        let mut r = self.coefficients[0].max();
        proof {
            let i = choose|i: int|
                0 <= i < 256 && r == abs_spec(#[trigger] self.coefficients[0].coefficients[i] as int);
            assert(r == abs_spec(self.coeff(0, i) as int));
        }
        let mut k: usize = 1;
        while k < N
            invariant
                1 <= k <= N,
                forall|m: int| 0 <= m < N ==> abs_fits(#[trigger] self.coefficients[m].coefficients@),
                forall|m: int, i: int|
                    0 <= m < k && 0 <= i < 256 ==> abs_spec(#[trigger] self.coeff(m, i) as int) <= r,
                exists|m: int, i: int|
                    0 <= m < k && 0 <= i < 256 && r == abs_spec(#[trigger] self.coeff(m, i) as int),
            decreases N - k,
        {
            assert(abs_fits(self.coefficients[k as int].coefficients@));
            let a = self.coefficients[k].max();
            proof {
                let i = choose|i: int|
                    0 <= i < 256 && a == abs_spec(#[trigger] self.coefficients[k as int].coefficients[i] as int);
                assert(a == abs_spec(self.coeff(k as int, i) as int));
                assert forall|j: int| 0 <= j < 256 implies abs_spec(#[trigger] self.coeff(k as int, j) as int) <= a by {
                    assert(abs_spec(self.coefficients[k as int].coefficients[j] as int) <= a);
                }
            }
            if a > r {
                r = a;
            }
            k += 1;
        }
        r
    }

    /// The high parts of the coefficients, corrected where `hint` is set.
    pub fn use_hint(self, hint: &[[bool; 256]; N]) -> (r: Self)
        requires
            self.canonical(),
        ensures
            forall|k: int, i: int|
                0 <= k < N && 0 <= i < 256 ==> #[trigger] r.coeff(k, i) == use_hint_spec(
                    self.coeff(k, i) as int,
                    hint[k][i],
                ),
            forall|k: int, i: int| 0 <= k < N && 0 <= i < 256 ==> 0 <= #[trigger] r.coeff(k, i) < 16,
    {
        let mut r = self;
        let mut k: usize = 0;
        while k < N
            invariant
                self.canonical(),
                forall|m: int, i: int|
                    0 <= m < k && 0 <= i < 256 ==> #[trigger] r.coeff(m, i) == use_hint_spec(
                        self.coeff(m, i) as int,
                        hint[m][i],
                    ),
                forall|m: int, i: int| 0 <= m < k && 0 <= i < 256 ==> 0 <= #[trigger] r.coeff(m, i) < 16,
            decreases N - k,
        {
            let ghost r0 = r;
            let p = self.coefficients[k];
            let h = hint[k];
            let mut out = p;
            let mut i: usize = 0;
            while i < 256
                invariant
                    k < N,
                    p == self.coefficients[k as int],
                    h == hint[k as int],
                    self.canonical(),
                    forall|j: int|
                        0 <= j < i ==> #[trigger] out.coefficients[j] == use_hint_spec(
                            p.coefficients[j] as int,
                            h[j],
                        ),
                    forall|j: int| 0 <= j < i ==> 0 <= #[trigger] out.coefficients[j] < 16,
                decreases 256 - i,
            {
                assert(0 <= self.coeff(k as int, i as int) < Q);
                out.coefficients[i] = use_hint_coefficient(p.coefficients[i], h[i]);
                i += 1;
            }
            r.coefficients[k] = out;
            proof {
                assert forall|m: int, i: int| 0 <= m < k + 1 && 0 <= i < 256 implies #[trigger] r.coeff(m, i)
                    == use_hint_spec(self.coeff(m, i) as int, hint[m][i]) && 0 <= r.coeff(m, i) < 16 by {
                    if m == k as int {
                        assert(r.coefficients[m] == out);
                        assert(r.coeff(m, i) == out.coefficients[i]);
                        assert(self.coeff(m, i) == p.coefficients[i]);
                    } else {
                        assert(r.coefficients[m] == r0.coefficients[m]);
                        assert(r.coeff(m, i) == r0.coeff(m, i));
                    }
                }
            }
            k += 1;
        }
        r
    }

    /// Multiplies every coefficient by `2^D`.
    pub fn shift_d(self) -> (r: Self)
        requires
            forall|k: int, i: int|
                0 <= k < N && 0 <= i < 256 ==> 0 <= #[trigger] self.coeff(k, i) < 0x4_0000,
        ensures
            forall|k: int, i: int|
                0 <= k < N && 0 <= i < 256 ==> #[trigger] r.coeff(k, i) == self.coeff(k, i) * 0x2000,
    {
        let mut r = self;
        let mut k: usize = 0;
        while k < N
            invariant
                forall|m: int, i: int|
                    0 <= m < N && 0 <= i < 256 ==> 0 <= #[trigger] self.coeff(m, i) < 0x4_0000,
                forall|m: int, i: int|
                    0 <= m < k && 0 <= i < 256 ==> #[trigger] r.coeff(m, i) == self.coeff(m, i)
                        * 0x2000,
            decreases N - k,
        {
            let ghost r0 = r;
            let p = self.coefficients[k];
            let mut out = p;
            let mut i: usize = 0;
            while i < 256
                invariant
                    k < N,
                    p == self.coefficients[k as int],
                    forall|m: int, j: int|
                        0 <= m < N && 0 <= j < 256 ==> 0 <= #[trigger] self.coeff(m, j) < 0x4_0000,
                    forall|j: int| 0 <= j < i ==> #[trigger] out.coefficients[j] == p.coefficients[j] * 0x2000,
                decreases 256 - i,
            {
                let c = p.coefficients[i];
                assert(0 <= self.coeff(k as int, i as int) < 0x4_0000);
                proof {
                    assert(c << 13u32 == c * 0x2000) by (bit_vector)
                        requires
                            0 <= c < 0x4_0000,
                    ;
                }
                out.coefficients[i] = c << (D as u32);
                i += 1;
            }
            r.coefficients[k] = out;
            proof {
                assert forall|m: int, i: int| 0 <= m < k + 1 && 0 <= i < 256 implies #[trigger] r.coeff(m, i)
                    == self.coeff(m, i) * 0x2000 by {
                    if m == k as int {
                        assert(r.coefficients[m] == out);
                        assert(r.coeff(m, i) == out.coefficients[i]);
                        assert(self.coeff(m, i) == p.coefficients[i]);
                    } else {
                        assert(r.coefficients[m] == r0.coefficients[m]);
                        assert(r.coeff(m, i) == r0.coeff(m, i));
                    }
                }
            }
            k += 1;
        }
        r
    }

    /// The coefficients of every entry, widened to 64 bits.
    pub fn dump(&self) -> (r: [[i64; 256]; N])
        ensures
            forall|k: int, i: int|
                0 <= k < N && 0 <= i < 256 ==> #[trigger] r[k][i] == self.coeff(k, i),
    {
        let mut r: [[i64; 256]; N] = [[0; 256]; N];
        let mut k: usize = 0;
        while k < N
            invariant
                forall|m: int, i: int|
                    0 <= m < k && 0 <= i < 256 ==> #[trigger] r[m][i] == self.coeff(m, i),
            decreases N - k,
        {
            r[k] = self.coefficients[k].dump();
            k += 1;
        }
        r
    }

    /// Entry-wise sum.
    pub fn add(self, rhs: Self) -> (r: Self)
        requires
            forall|k: int, i: int|
                0 <= k < N && 0 <= i < 256 ==> polynomial::sum_fits(
                    #[trigger] self.coeff(k, i) as int,
                    rhs.coeff(k, i) as int,
                ),
        ensures
            forall|k: int, i: int|
                0 <= k < N && 0 <= i < 256 ==> #[trigger] r.coeff(k, i) == self.coeff(k, i)
                    + rhs.coeff(k, i),
    {
        let mut r = self;
        let mut k: usize = 0;
        while k < N
            invariant
                forall|m: int, i: int|
                    0 <= m < N && 0 <= i < 256 ==> polynomial::sum_fits(
                        #[trigger] self.coeff(m, i) as int,
                        rhs.coeff(m, i) as int,
                    ),
                forall|m: int| k <= m < N ==> #[trigger] r.coefficients[m] == self.coefficients[m],
                forall|m: int, i: int|
                    0 <= m < k && 0 <= i < 256 ==> #[trigger] r.coeff(m, i) == self.coeff(m, i)
                        + rhs.coeff(m, i),
            decreases N - k,
        {
            let ghost r0 = r;
            let mut p = r.coefficients[k];
            let ghost orig = p;
            assert forall|i: int| 0 <= i < 256 implies polynomial::sum_fits(
                #[trigger] p.coefficients[i] as int,
                rhs.coefficients[k as int].coefficients[i] as int,
            ) by {
                assert(polynomial::sum_fits(
                    self.coeff(k as int, i) as int,
                    rhs.coeff(k as int, i) as int,
                ));
            }
            polynomial::pointwise_add_inplace(&mut p.coefficients, rhs.coefficients[k].coefficients);
            r.coefficients[k] = p;
            proof {
                assert forall|m: int, i: int| 0 <= m < k + 1 && 0 <= i < 256 implies #[trigger] r.coeff(m, i)
                    == self.coeff(m, i) + rhs.coeff(m, i) by {
                    if m == k as int {
                        assert(r.coefficients[m] == p);
                        assert(r.coeff(m, i) == p.coefficients[i]);
                        assert(self.coeff(m, i) == orig.coefficients[i]);
                    } else {
                        assert(r.coefficients[m] == r0.coefficients[m]);
                        assert(r.coeff(m, i) == r0.coeff(m, i));
                    }
                }
            }
            k += 1;
        }
        r
    }

    /// Entry-wise difference.
    pub fn sub(self, rhs: Self) -> (r: Self)
        requires
            forall|k: int, i: int|
                0 <= k < N && 0 <= i < 256 ==> polynomial::sum_fits(
                    #[trigger] self.coeff(k, i) as int,
                    -rhs.coeff(k, i),
                ),
        ensures
            forall|k: int, i: int|
                0 <= k < N && 0 <= i < 256 ==> #[trigger] r.coeff(k, i) == self.coeff(k, i)
                    - rhs.coeff(k, i),
    {
        let mut r = self;
        let mut k: usize = 0;
        while k < N
            invariant
                forall|m: int, i: int|
                    0 <= m < N && 0 <= i < 256 ==> polynomial::sum_fits(
                        #[trigger] self.coeff(m, i) as int,
                        -rhs.coeff(m, i),
                    ),
                forall|m: int| k <= m < N ==> #[trigger] r.coefficients[m] == self.coefficients[m],
                forall|m: int, i: int|
                    0 <= m < k && 0 <= i < 256 ==> #[trigger] r.coeff(m, i) == self.coeff(m, i)
                        - rhs.coeff(m, i),
            decreases N - k,
        {
            let ghost r0 = r;
            let mut p = r.coefficients[k];
            let ghost orig = p;
            assert forall|i: int| 0 <= i < 256 implies polynomial::sum_fits(
                #[trigger] p.coefficients[i] as int,
                -rhs.coefficients[k as int].coefficients[i],
            ) by {
                assert(polynomial::sum_fits(self.coeff(k as int, i) as int, -rhs.coeff(k as int, i)));
            }
            polynomial::pointwise_sub_inplace(&mut p.coefficients, rhs.coefficients[k].coefficients);
            r.coefficients[k] = p;
            proof {
                assert forall|m: int, i: int| 0 <= m < k + 1 && 0 <= i < 256 implies #[trigger] r.coeff(m, i)
                    == self.coeff(m, i) - rhs.coeff(m, i) by {
                    if m == k as int {
                        assert(r.coefficients[m] == p);
                        assert(r.coeff(m, i) == p.coefficients[i]);
                        assert(self.coeff(m, i) == orig.coefficients[i]);
                    } else {
                        assert(r.coefficients[m] == r0.coefficients[m]);
                        assert(r.coeff(m, i) == r0.coeff(m, i));
                    }
                }
            }
            k += 1;
        }
        r
    }
}

/// `use_hint` on one coefficient in `[0, Q)`.
fn use_hint_coefficient(c: Coefficient, hint: bool) -> (r: Coefficient)
    requires
        0 <= c < Q,
    ensures
        r == use_hint_spec(c as int, hint),
        0 <= r < 16,
{
    let (a0, a1) = coefficient::decompose(c);
    proof {
        coefficient::lemma_decompose_law(c as int);
    }
    if hint {
        let x = if a0 > 0 {
            a1 + 1
        } else {
            a1 - 1
        };
        proof {
            assert((x & 15i32) == (if x == 16 {
                0
            } else if x == -1 {
                15
            } else {
                x
            })) by (bit_vector)
                requires
                    -1 <= x <= 16,
            ;
        }
        x & 15
    } else {
        a1
    }
}

impl<const N: usize> Vector<NTTPolynomial, N> {
    pub open spec fn coeff(&self, k: int, i: int) -> i32 {
        self.coefficients[k].coefficients[i]
    }

    /// Every coefficient lies strictly between `-b` and `b`.
    pub open spec fn bounded_by(&self, b: int) -> bool {
        forall|k: int| 0 <= k < N ==> bounded(#[trigger] self.coefficients[k].coefficients@, b)
    }

    /// The inverse transform of every entry.
    pub fn into_plain(self) -> (r: Vector<PlainPolynomial, N>)
        requires
            self.bounded_by(Q as int),
        ensures
            r.bounded_by(Q as int),
            forall|k: int|
                0 <= k < N ==> #[trigger] r.coefficients[k].coefficients@ == inverse_spec(
                    self.coefficients[k].coefficients@,
                ),
    {
        let mut out: [PlainPolynomial; N] = [PlainPolynomial::zero(); N];
        let mut k: usize = 0;
        while k < N
            invariant
                self.bounded_by(Q as int),
                forall|m: int| 0 <= m < k ==> bounded(#[trigger] out[m].coefficients@, Q as int),
                forall|m: int|
                    0 <= m < k ==> #[trigger] out[m].coefficients@ == inverse_spec(
                        self.coefficients[m].coefficients@,
                    ),
            decreases N - k,
        {
            assert(bounded(self.coefficients[k as int].coefficients@, Q as int));
            out[k] = self.coefficients[k].into_plain();
            k += 1;
        }
        Vector { coefficients: out }
    }

    /// Reduces every coefficient into `(-Q, Q)`.
    pub fn reduce_32(self) -> (r: Self)
        requires
            forall|k: int, i: int|
                0 <= k < N && 0 <= i < 256 ==> #[trigger] self.coeff(k, i) <= i32::MAX - 0x40_0000,
        ensures
            forall|k: int, i: int|
                0 <= k < N && 0 <= i < 256 ==> #[trigger] r.coeff(k, i) == reduce_32_spec(
                    self.coeff(k, i) as int,
                ),
            r.bounded_by(Q as int),
    {
        let mut r = self;
        let mut k: usize = 0;
        while k < N
            invariant
                forall|m: int, i: int|
                    0 <= m < N && 0 <= i < 256 ==> #[trigger] self.coeff(m, i) <= i32::MAX
                        - 0x40_0000,
                forall|m: int| k <= m < N ==> #[trigger] r.coefficients[m] == self.coefficients[m],
                forall|m: int, i: int|
                    0 <= m < k && 0 <= i < 256 ==> #[trigger] r.coeff(m, i) == reduce_32_spec(
                        self.coeff(m, i) as int,
                    ),
                forall|m: int| 0 <= m < k ==> bounded(#[trigger] r.coefficients[m].coefficients@, Q as int),
            decreases N - k,
        {
            let ghost r0 = r;
            let mut p = r.coefficients[k];
            let ghost orig = p;
            assert forall|i: int| 0 <= i < 256 implies #[trigger] p.coefficients[i] <= i32::MAX
                - 0x40_0000 by {
                assert(self.coeff(k as int, i) <= i32::MAX - 0x40_0000);
            }
            polynomial::reduce_32(&mut p.coefficients);
            r.coefficients[k] = p;
            proof {
                assert forall|m: int, i: int| 0 <= m < k + 1 && 0 <= i < 256 implies #[trigger] r.coeff(m, i)
                    == reduce_32_spec(self.coeff(m, i) as int) by {
                    if m == k as int {
                        assert(r.coefficients[m] == p);
                        assert(r.coeff(m, i) == p.coefficients[i]);
                        assert(self.coeff(m, i) == orig.coefficients[i]);
                    } else {
                        assert(r.coefficients[m] == r0.coefficients[m]);
                        assert(r.coeff(m, i) == r0.coeff(m, i));
                    }
                }
            }
            k += 1;
        }
        r
    }

    /// Multiplies every entry pointwise by `rhs`.
    pub fn mul_polynomial(self, rhs: &NTTPolynomial) -> (r: Self)
        requires
            forall|k: int, i: int|
                0 <= k < N && 0 <= i < 256 ==> product_fits(
                    #[trigger] self.coeff(k, i),
                    rhs.coefficients[i],
                ),
        ensures
            forall|k: int, i: int|
                0 <= k < N && 0 <= i < 256 ==> #[trigger] r.coeff(k, i) == montgomery_spec(
                    (self.coeff(k, i) * rhs.coefficients[i]) as i64,
                ),
            r.bounded_by(Q as int),
    {
        let mut r = self;
        let mut k: usize = 0;
        while k < N
            invariant
                forall|m: int, i: int|
                    0 <= m < N && 0 <= i < 256 ==> product_fits(
                        #[trigger] self.coeff(m, i),
                        rhs.coefficients[i],
                    ),
                forall|m: int, i: int|
                    0 <= m < k && 0 <= i < 256 ==> #[trigger] r.coeff(m, i) == montgomery_spec(
                        (self.coeff(m, i) * rhs.coefficients[i]) as i64,
                    ),
                forall|m: int| 0 <= m < k ==> bounded(#[trigger] r.coefficients[m].coefficients@, Q as int),
            decreases N - k,
        {
            let ghost r0 = r;
            let p = self.coefficients[k];
            assert forall|i: int| 0 <= i < 256 implies product_fits(
                #[trigger] p.coefficients[i],
                rhs.coefficients[i],
            ) by {
                assert(product_fits(self.coeff(k as int, i), rhs.coefficients[i]));
            }
            let prod = p.mul(rhs);
            r.coefficients[k] = prod;
            proof {
                assert forall|m: int, i: int| 0 <= m < k + 1 && 0 <= i < 256 implies #[trigger] r.coeff(m, i)
                    == montgomery_spec((self.coeff(m, i) * rhs.coefficients[i]) as i64) by {
                    if m == k as int {
                        assert(r.coefficients[m] == prod);
                        assert(r.coeff(m, i) == prod.coefficients[i]);
                        assert(self.coeff(m, i) == p.coefficients[i]);
                    } else {
                        assert(r.coefficients[m] == r0.coefficients[m]);
                        assert(r.coeff(m, i) == r0.coeff(m, i));
                    }
                }
            }
            k += 1;
        }
        r
    }

    /// The sum of the pointwise products of the entries of `self` and `rhs`.
    pub fn dot(&self, rhs: &Self) -> (r: NTTPolynomial)
        requires
            N <= 256,
            forall|k: int, i: int|
                0 <= k < N && 0 <= i < 256 ==> product_fits(
                    #[trigger] self.coeff(k, i),
                    rhs.coeff(k, i),
                ),
        ensures
            forall|i: int|
                0 <= i < 256 ==> #[trigger] r.coefficients[i] == dot_spec(
                    self.coefficients@,
                    rhs.coefficients@,
                    N as int,
                    i,
                ),
            bounded(r.coefficients@, N * Q + 1),
    {
        assert forall|k: int, i: int| 0 <= k < N && 0 <= i < 256 implies product_fits(
            #[trigger] self.coefficients[k].coefficients[i],
            rhs.coefficients[k].coefficients[i],
        ) by {
            assert(product_fits(self.coeff(k, i), rhs.coeff(k, i)));
        }
        scalar_mul(&self.coefficients, &rhs.coefficients)
    }

    /// Entry-wise sum.
    pub fn add(self, rhs: Self) -> (r: Self)
        requires
            forall|k: int, i: int|
                0 <= k < N && 0 <= i < 256 ==> polynomial::sum_fits(
                    #[trigger] self.coeff(k, i) as int,
                    rhs.coeff(k, i) as int,
                ),
        ensures
            forall|k: int, i: int|
                0 <= k < N && 0 <= i < 256 ==> #[trigger] r.coeff(k, i) == self.coeff(k, i)
                    + rhs.coeff(k, i),
    {
        let mut r = self;
        let mut k: usize = 0;
        while k < N
            invariant
                forall|m: int, i: int|
                    0 <= m < N && 0 <= i < 256 ==> polynomial::sum_fits(
                        #[trigger] self.coeff(m, i) as int,
                        rhs.coeff(m, i) as int,
                    ),
                forall|m: int| k <= m < N ==> #[trigger] r.coefficients[m] == self.coefficients[m],
                forall|m: int, i: int|
                    0 <= m < k && 0 <= i < 256 ==> #[trigger] r.coeff(m, i) == self.coeff(m, i)
                        + rhs.coeff(m, i),
            decreases N - k,
        {
            let ghost r0 = r;
            let mut p = r.coefficients[k];
            let ghost orig = p;
            assert forall|i: int| 0 <= i < 256 implies polynomial::sum_fits(
                #[trigger] p.coefficients[i] as int,
                rhs.coefficients[k as int].coefficients[i] as int,
            ) by {
                assert(polynomial::sum_fits(
                    self.coeff(k as int, i) as int,
                    rhs.coeff(k as int, i) as int,
                ));
            }
            polynomial::pointwise_add_inplace(&mut p.coefficients, rhs.coefficients[k].coefficients);
            r.coefficients[k] = p;
            proof {
                assert forall|m: int, i: int| 0 <= m < k + 1 && 0 <= i < 256 implies #[trigger] r.coeff(m, i)
                    == self.coeff(m, i) + rhs.coeff(m, i) by {
                    if m == k as int {
                        assert(r.coefficients[m] == p);
                        assert(r.coeff(m, i) == p.coefficients[i]);
                        assert(self.coeff(m, i) == orig.coefficients[i]);
                    } else {
                        assert(r.coefficients[m] == r0.coefficients[m]);
                        assert(r.coeff(m, i) == r0.coeff(m, i));
                    }
                }
            }
            k += 1;
        }
        r
    }

    /// Entry-wise difference.
    pub fn sub(self, rhs: Self) -> (r: Self)
        requires
            forall|k: int, i: int|
                0 <= k < N && 0 <= i < 256 ==> polynomial::sum_fits(
                    #[trigger] self.coeff(k, i) as int,
                    -rhs.coeff(k, i),
                ),
        ensures
            forall|k: int, i: int|
                0 <= k < N && 0 <= i < 256 ==> #[trigger] r.coeff(k, i) == self.coeff(k, i)
                    - rhs.coeff(k, i),
    {
        let mut r = self;
        let mut k: usize = 0;
        while k < N
            invariant
                forall|m: int, i: int|
                    0 <= m < N && 0 <= i < 256 ==> polynomial::sum_fits(
                        #[trigger] self.coeff(m, i) as int,
                        -rhs.coeff(m, i),
                    ),
                forall|m: int| k <= m < N ==> #[trigger] r.coefficients[m] == self.coefficients[m],
                forall|m: int, i: int|
                    0 <= m < k && 0 <= i < 256 ==> #[trigger] r.coeff(m, i) == self.coeff(m, i)
                        - rhs.coeff(m, i),
            decreases N - k,
        {
            let ghost r0 = r;
            let mut p = r.coefficients[k];
            let ghost orig = p;
            assert forall|i: int| 0 <= i < 256 implies polynomial::sum_fits(
                #[trigger] p.coefficients[i] as int,
                -rhs.coefficients[k as int].coefficients[i],
            ) by {
                assert(polynomial::sum_fits(self.coeff(k as int, i) as int, -rhs.coeff(k as int, i)));
            }
            polynomial::pointwise_sub_inplace(&mut p.coefficients, rhs.coefficients[k].coefficients);
            r.coefficients[k] = p;
            proof {
                assert forall|m: int, i: int| 0 <= m < k + 1 && 0 <= i < 256 implies #[trigger] r.coeff(m, i)
                    == self.coeff(m, i) - rhs.coeff(m, i) by {
                    if m == k as int {
                        assert(r.coefficients[m] == p);
                        assert(r.coeff(m, i) == p.coefficients[i]);
                        assert(self.coeff(m, i) == orig.coefficients[i]);
                    } else {
                        assert(r.coefficients[m] == r0.coefficients[m]);
                        assert(r.coeff(m, i) == r0.coeff(m, i));
                    }
                }
            }
            k += 1;
        }
        r
    }
}

/// The sum of the pointwise Montgomery products `lhs[k] * rhs[k]`.
pub fn scalar_mul<const N: usize>(lhs: &[NTTPolynomial; N], rhs: &[NTTPolynomial; N]) -> (r:
    NTTPolynomial)
    requires
        N <= 256,
        forall|k: int, i: int|
            0 <= k < N && 0 <= i < 256 ==> product_fits(
                #[trigger] lhs[k].coefficients[i],
                rhs[k].coefficients[i],
            ),
    ensures
        forall|i: int|
            0 <= i < 256 ==> #[trigger] r.coefficients[i] == dot_spec(lhs@, rhs@, N as int, i),
        bounded(r.coefficients@, N * Q + 1),
{
    let mut acc: [i32; 256] = [0; 256];
    let mut k: usize = 0;
    while k < N
        invariant
            k <= N <= 256,
            forall|m: int, i: int|
                0 <= m < N && 0 <= i < 256 ==> product_fits(
                    #[trigger] lhs[m].coefficients[i],
                    rhs[m].coefficients[i],
                ),
            forall|i: int| 0 <= i < 256 ==> #[trigger] acc[i] == dot_spec(lhs@, rhs@, k as int, i),
            bounded(acc@, k * Q + 1),
        decreases N - k,
    {
        let a = lhs[k];
        let b = rhs[k];
        assert forall|i: int| 0 <= i < 256 implies product_fits(
            #[trigger] a.coefficients[i],
            b.coefficients[i],
        ) by {
            assert(product_fits(lhs[k as int].coefficients[i], rhs[k as int].coefficients[i]));
        }
        let p = polynomial::ntt_product(&a.coefficients, &b.coefficients);
        assert(k * Q + 1 + Q <= 256 * Q + 1) by (nonlinear_arith)
            requires
                k < 256,
        ;
        proof {
            assert forall|i: int| 0 <= i < 256 implies polynomial::sum_fits(
                #[trigger] acc[i] as int,
                p[i] as int,
            ) by {
                assert(-(k * Q + 1) < acc[i] < k * Q + 1);
                assert(-Q < p[i] < Q);
            }
        }
        let prev = acc;
        polynomial::pointwise_add_inplace(&mut acc, p);
        proof {
            assert forall|i: int| 0 <= i < 256 implies #[trigger] acc[i] == dot_spec(
                lhs@,
                rhs@,
                (k + 1) as int,
                i,
            ) by {
                assert(prev[i] == dot_spec(lhs@, rhs@, k as int, i));
            }
            assert forall|i: int| 0 <= i < 256 implies -((k + 1) * Q + 1) < #[trigger] acc@[i] < (
            k + 1) * Q + 1 by {
                assert(-(k * Q + 1) < prev[i] < k * Q + 1);
                assert(-Q < p[i] < Q);
            }
        }
        k += 1;
    }
    proof {
        assert forall|i: int| 0 <= i < 256 implies -(N * Q + 1) < #[trigger] acc@[i] < N * Q + 1 by {
            assert forall|m: int| 0 <= m < N implies product_fits(
                #[trigger] lhs@[m].coefficients[i],
                rhs@[m].coefficients[i],
            ) by {
                assert(product_fits(lhs[m].coefficients[i], rhs[m].coefficients[i]));
            }
            lemma_dot_bounded(lhs@, rhs@, N as int, i);
            assert(acc[i] == dot_spec(lhs@, rhs@, N as int, i));
        }
    }
    NTTPolynomial::from_coefficients(acc)
}

proof fn lemma_dot_bounded(a: Seq<NTTPolynomial>, b: Seq<NTTPolynomial>, n: int, i: int)
    requires
        0 <= n <= a.len(),
        n <= b.len(),
        forall|k: int|
            0 <= k < n ==> product_fits(#[trigger] a[k].coefficients[i], b[k].coefficients[i]),
    ensures
        -(n * Q) <= dot_spec(a, b, n, i) <= n * Q,
        n > 0 ==> -(n * Q) < dot_spec(a, b, n, i) < n * Q,
    decreases n,
{
    if n > 0 {
        lemma_dot_bounded(a, b, n - 1, i);
        assert(product_fits(a[n - 1].coefficients[i], b[n - 1].coefficients[i]));
        let x = (a[n - 1].coefficients[i] * b[n - 1].coefficients[i]) as i64;
        assert(-Q < montgomery_spec(x) < Q) by {
            coefficient::lemma_montgomery_range(x);
        }
    }
}

impl<const N: usize, const M: usize> Vector<Vector<NTTPolynomial, N>, M> {
    /// The product of the matrix with `M` rows and `N` columns by `rhs`:
    /// entry `k` is the sum of the products of row `k` with `rhs`.
    pub fn mul_vector(&self, rhs: &Vector<NTTPolynomial, N>) -> (r: Vector<NTTPolynomial, M>)
        requires
            N <= 256,
            forall|k: int, j: int, i: int|
                0 <= k < M && 0 <= j < N && 0 <= i < 256 ==> product_fits(
                    #[trigger] self.coefficients[k].coeff(j, i),
                    rhs.coeff(j, i),
                ),
        ensures
            forall|k: int, i: int|
                0 <= k < M && 0 <= i < 256 ==> #[trigger] r.coeff(k, i) == dot_spec(
                    self.coefficients[k].coefficients@,
                    rhs.coefficients@,
                    N as int,
                    i,
                ),
            r.bounded_by(N * Q + 1),
    {
        let mut out: [NTTPolynomial; M] = [NTTPolynomial::from_coefficients([0; 256]); M];
        let mut k: usize = 0;
        while k < M
            invariant
                N <= 256,
                forall|m: int, j: int, i: int|
                    0 <= m < M && 0 <= j < N && 0 <= i < 256 ==> product_fits(
                        #[trigger] self.coefficients[m].coeff(j, i),
                        rhs.coeff(j, i),
                    ),
                forall|m: int, i: int|
                    0 <= m < k && 0 <= i < 256 ==> #[trigger] out[m].coefficients[i] == dot_spec(
                        self.coefficients[m].coefficients@,
                        rhs.coefficients@,
                        N as int,
                        i,
                    ),
                forall|m: int| 0 <= m < k ==> bounded(#[trigger] out[m].coefficients@, N * Q + 1),
            decreases M - k,
        {
            let row = self.coefficients[k];
            assert forall|j: int, i: int| 0 <= j < N && 0 <= i < 256 implies product_fits(
                #[trigger] row.coeff(j, i),
                rhs.coeff(j, i),
            ) by {
                assert(product_fits(self.coefficients[k as int].coeff(j, i), rhs.coeff(j, i)));
            }
            let p = row.dot(rhs);
            assert forall|i: int| 0 <= i < 256 implies -(N * Q + 1) < #[trigger] p.coefficients@[i]
                < N * Q + 1 by {
            }
            out[k] = p;
            k += 1;
        }
        Vector { coefficients: out }
    }
}

/// Coefficients in `(-Q, Q)` are small enough for `max`.
pub proof fn lemma_bounded_abs_fits<const N: usize>(v: Vector<PlainPolynomial, N>, b: int)
    requires
        b <= 0x4000_0000,
        v.bounded_by(b),
    ensures
        forall|k: int| 0 <= k < N ==> abs_fits(#[trigger] v.coefficients[k].coefficients@),
{
    assert forall|k: int| 0 <= k < N implies abs_fits(#[trigger] v.coefficients[k].coefficients@) by {
        assert(bounded(v.coefficients[k].coefficients@, b));
    }
}

} // verus!
