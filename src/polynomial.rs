//! Polynomials in their two representations: plain coefficients, and NTT
//! evaluations in Montgomery form. Pointwise multiplication exists only for
//! the second.
use vstd::prelude::*;

use crate::coefficient::{
    self, abs_spec, caddq_spec, montgomery_spec, reduce_32_spec, Coefficient,
};
use crate::ntt::{self, bounded, forward_spec, inverse_spec, Polynomial};
use crate::params::Q;

verus! {

/// A product of two coefficients that Montgomery reduction accepts.
pub open spec fn product_fits(a: i32, b: i32) -> bool {
    -0x8000_0000 * Q < a * b < 0x8000_0000 * Q
}

/// Every coefficient has an absolute value that `i32` can hold twice.
pub open spec fn abs_fits(p: Seq<i32>) -> bool {
    forall|i: int| 0 <= i < p.len() ==> -0x4000_0000 <= #[trigger] p[i] < 0x4000_0000
}

/// A sum that stays within `i32`.
pub open spec fn sum_fits(a: int, b: int) -> bool {
    i32::MIN <= a + b <= i32::MAX
}

/// `lhs[i] += rhs[i]` for every coefficient.
pub fn pointwise_add_inplace(lhs: &mut Polynomial, rhs: Polynomial)
    requires
        forall|i: int| 0 <= i < 256 ==> sum_fits(#[trigger] old(lhs)[i] as int, rhs[i] as int),
    ensures
        forall|i: int| 0 <= i < 256 ==> #[trigger] final(lhs)[i] == old(lhs)[i] + rhs[i],
{
    let mut i: usize = 0;
    while i < 256
        invariant
            forall|m: int| 0 <= m < 256 ==> sum_fits(#[trigger] old(lhs)[m] as int, rhs[m] as int),
            forall|m: int| i <= m < 256 ==> #[trigger] lhs[m] == old(lhs)[m],
            forall|m: int| 0 <= m < i ==> #[trigger] lhs[m] == old(lhs)[m] + rhs[m],
        decreases 256 - i,
    {
        lhs[i] = lhs[i] + rhs[i];
        i += 1;
    }
}

/// `lhs[i] -= rhs[i]` for every coefficient.
pub fn pointwise_sub_inplace(lhs: &mut Polynomial, rhs: Polynomial)
    requires
        forall|i: int| 0 <= i < 256 ==> sum_fits(#[trigger] old(lhs)[i] as int, -rhs[i]),
    ensures
        forall|i: int| 0 <= i < 256 ==> #[trigger] final(lhs)[i] == old(lhs)[i] - rhs[i],
{
    let mut i: usize = 0;
    while i < 256
        invariant
            forall|m: int| 0 <= m < 256 ==> sum_fits(#[trigger] old(lhs)[m] as int, -rhs[m]),
            forall|m: int| i <= m < 256 ==> #[trigger] lhs[m] == old(lhs)[m],
            forall|m: int| 0 <= m < i ==> #[trigger] lhs[m] == old(lhs)[m] - rhs[m],
        decreases 256 - i,
    {
        lhs[i] = lhs[i] - rhs[i];
        i += 1;
    }
}

/// Pointwise Montgomery product of two NTT-form coefficient arrays.
pub fn ntt_product(lpoly: &Polynomial, rpoly: &Polynomial) -> (r: Polynomial)
    requires
        forall|i: int| 0 <= i < 256 ==> product_fits(#[trigger] lpoly[i], rpoly[i]),
    ensures
        forall|i: int|
            0 <= i < 256 ==> #[trigger] r[i] == montgomery_spec((lpoly[i] * rpoly[i]) as i64),
        bounded(r@, Q as int),
{
    let mut r: Polynomial = [0; 256];
    let mut i: usize = 0;
    while i < 256
        invariant
            forall|m: int| 0 <= m < 256 ==> product_fits(#[trigger] lpoly[m], rpoly[m]),
            forall|m: int|
                0 <= m < i ==> #[trigger] r[m] == montgomery_spec((lpoly[m] * rpoly[m]) as i64),
            forall|m: int| 0 <= m < i ==> -Q < #[trigger] r[m] < Q,
        decreases 256 - i,
    {
        r[i] = coefficient::reduce_montgomery(lpoly[i] as i64 * rpoly[i] as i64);
        i += 1;
    }
    r
}

/// Pointwise sum of two coefficient arrays.
pub fn ntt_sum(lpoly: Polynomial, rpoly: Polynomial) -> (r: Polynomial)
    requires
        forall|i: int| 0 <= i < 256 ==> sum_fits(#[trigger] lpoly[i] as int, rpoly[i] as int),
    ensures
        forall|i: int| 0 <= i < 256 ==> #[trigger] r[i] == lpoly[i] + rpoly[i],
{
    let mut r = lpoly;
    pointwise_add_inplace(&mut r, rpoly);
    r
}

/// Pointwise difference of two coefficient arrays.
pub fn ntt_difference(lpoly: Polynomial, rpoly: Polynomial) -> (r: Polynomial)
    requires
        forall|i: int| 0 <= i < 256 ==> sum_fits(#[trigger] lpoly[i] as int, -rpoly[i]),
    ensures
        forall|i: int| 0 <= i < 256 ==> #[trigger] r[i] == lpoly[i] - rpoly[i],
{
    let mut r = lpoly;
    pointwise_sub_inplace(&mut r, rpoly);
    r
}

/// Adds `Q` to every negative coefficient.
pub fn caddq(poly: &mut Polynomial)
    requires
        bounded(old(poly)@, Q as int),
    ensures
        forall|i: int| 0 <= i < 256 ==> #[trigger] final(poly)[i] == caddq_spec(old(poly)[i] as int),
        forall|i: int| 0 <= i < 256 ==> 0 <= #[trigger] final(poly)[i] < Q,
{
    let mut i: usize = 0;
    while i < 256
        invariant
            bounded(old(poly)@, Q as int),
            forall|m: int| i <= m < 256 ==> #[trigger] poly[m] == old(poly)[m],
            forall|m: int| 0 <= m < i ==> #[trigger] poly[m] == caddq_spec(old(poly)[m] as int),
            forall|m: int| 0 <= m < i ==> 0 <= #[trigger] poly[m] < Q,
        decreases 256 - i,
    {
        let c = poly[i];
        assert(-Q < old(poly)[i as int] < Q);
        poly[i] = coefficient::caddq(c);
        i += 1;
    }
}

/// Replaces every coefficient by its representative in `(-Q, Q)`.
pub fn reduce_32(poly: &mut Polynomial)
    requires
        forall|i: int| 0 <= i < 256 ==> #[trigger] old(poly)[i] <= i32::MAX - 0x40_0000,
    ensures
        forall|i: int|
            0 <= i < 256 ==> #[trigger] final(poly)[i] == reduce_32_spec(old(poly)[i] as int),
        bounded(final(poly)@, Q as int),
{
    let mut i: usize = 0;
    while i < 256
        invariant
            forall|m: int| 0 <= m < 256 ==> #[trigger] old(poly)[m] <= i32::MAX - 0x40_0000,
            forall|m: int| i <= m < 256 ==> #[trigger] poly[m] == old(poly)[m],
            forall|m: int|
                0 <= m < i ==> #[trigger] poly[m] == reduce_32_spec(old(poly)[m] as int),
            forall|m: int| 0 <= m < i ==> -Q < #[trigger] poly[m] < Q,
        decreases 256 - i,
    {
        let c = poly[i];
        poly[i] = coefficient::reduce_32(c);
        i += 1;
    }
}

/// A polynomial with plain coefficients.
#[derive(Debug, Clone, Copy, PartialEq, Eq)]
pub struct PlainPolynomial {
    pub coefficients: Polynomial,
}

/// A polynomial in NTT form: its evaluations, in Montgomery form.
#[derive(Debug, Clone, Copy, PartialEq, Eq)]
pub struct NTTPolynomial {
    pub coefficients: Polynomial,
}

impl PlainPolynomial {
    pub fn from_coefficients(coefficients: Polynomial) -> (r: Self)
        ensures
            r.coefficients == coefficients,
    {
        PlainPolynomial { coefficients }
    }

    pub fn zero() -> (r: Self)
        ensures
            forall|i: int| 0 <= i < 256 ==> #[trigger] r.coefficients[i] == 0,
    {
        PlainPolynomial { coefficients: [0; 256] }
    }

    /// The forward transform, for coefficients in `(-Q, Q)`.
    pub fn into_ntt(self) -> (r: NTTPolynomial)
        requires
            bounded(self.coefficients@, Q as int),
        ensures
            r.coefficients@ == forward_spec(self.coefficients@),
            bounded(r.coefficients@, 9 * Q),
    {
        let mut coefficients = self.coefficients;
        ntt::to_ntt(&mut coefficients);
        NTTPolynomial { coefficients }
    }

    /// Replaces every coefficient `c` by `f(c)`.
    pub fn map_inplace<F: Fn(Coefficient) -> Coefficient>(&mut self, f: F)
        requires
            forall|i: int| 0 <= i < 256 ==> f.requires((#[trigger] old(self).coefficients[i],)),
        ensures
            forall|i: int|
                0 <= i < 256 ==> f.ensures(
                    (old(self).coefficients[i],),
                    #[trigger] final(self).coefficients[i],
                ),
    {
        let mut i: usize = 0;
        while i < 256
            invariant
                forall|m: int|
                    0 <= m < 256 ==> f.requires((#[trigger] old(self).coefficients[m],)),
                forall|m: int|
                    i <= m < 256 ==> #[trigger] self.coefficients[m] == old(self).coefficients[m],
                forall|m: int|
                    0 <= m < i ==> f.ensures(
                        (old(self).coefficients[m],),
                        #[trigger] self.coefficients[m],
                    ),
            decreases 256 - i,
        {
            let c = self.coefficients[i];
            self.coefficients[i] = f(c);
            i += 1;
        }
    }

    /// Replaces every coefficient `c` by `f(c).0` and returns the
    /// polynomial of the `f(c).1`.
    pub fn map_fork<F: Fn(Coefficient) -> (Coefficient, Coefficient)>(&mut self, f: F) -> (r:
        Self)
        requires
            forall|i: int| 0 <= i < 256 ==> f.requires((#[trigger] old(self).coefficients[i],)),
        ensures
            forall|i: int|
                0 <= i < 256 ==> f.ensures(
                    (old(self).coefficients[i],),
                    (#[trigger] final(self).coefficients[i], r.coefficients[i]),
                ),
    {
        let mut other: Polynomial = [0; 256];
        let mut i: usize = 0;
        while i < 256
            invariant
                forall|m: int|
                    0 <= m < 256 ==> f.requires((#[trigger] old(self).coefficients[m],)),
                forall|m: int|
                    i <= m < 256 ==> #[trigger] self.coefficients[m] == old(self).coefficients[m],
                forall|m: int|
                    0 <= m < i ==> f.ensures(
                        (old(self).coefficients[m],),
                        (#[trigger] self.coefficients[m], other[m]),
                    ),
            decreases 256 - i,
        {
            let c = self.coefficients[i];
            let (a, b) = f(c);
            self.coefficients[i] = a;
            other[i] = b;
            i += 1;
        }
        PlainPolynomial { coefficients: other }
    }

    /// The largest absolute value of a coefficient.
    pub fn max(&self) -> (r: Coefficient)
        requires
            abs_fits(self.coefficients@),
        ensures
            forall|i: int| 0 <= i < 256 ==> abs_spec(#[trigger] self.coefficients[i] as int) <= r,
            exists|i: int| 0 <= i < 256 && r == abs_spec(#[trigger] self.coefficients[i] as int),
    {
        let mut r = coefficient::abs(self.coefficients[0]);
        let mut i: usize = 1;
        while i < 256
            invariant
                1 <= i <= 256,
                abs_fits(self.coefficients@),
                forall|m: int| 0 <= m < i ==> abs_spec(#[trigger] self.coefficients[m] as int) <= r,
                exists|m: int| 0 <= m < i && r == abs_spec(#[trigger] self.coefficients[m] as int),
            decreases 256 - i,
        {
            let a = coefficient::abs(self.coefficients[i]);
            if a > r {
                r = a;
            }
            i += 1;
        }
        r
    }

    /// The coefficients, widened to 64 bits.
    pub fn dump(&self) -> (r: [i64; 256])
        ensures
            forall|i: int| 0 <= i < 256 ==> #[trigger] r[i] == self.coefficients[i],
    {
        let mut r: [i64; 256] = [0; 256];
        let mut i: usize = 0;
        while i < 256
            invariant
                forall|m: int| 0 <= m < i ==> #[trigger] r[m] == self.coefficients[m],
            decreases 256 - i,
        {
            r[i] = self.coefficients[i] as i64;
            i += 1;
        }
        r
    }
}

impl NTTPolynomial {
    pub fn from_coefficients(coefficients: Polynomial) -> (r: Self)
        ensures
            r.coefficients == coefficients,
    {
        NTTPolynomial { coefficients }
    }

    /// The inverse transform, for coefficients in `(-Q, Q)`.
    pub fn into_plain(self) -> (r: PlainPolynomial)
        requires
            bounded(self.coefficients@, Q as int),
        ensures
            r.coefficients@ == inverse_spec(self.coefficients@),
            bounded(r.coefficients@, Q as int),
    {
        let mut coefficients = self.coefficients;
        ntt::from_ntt(&mut coefficients);
        PlainPolynomial { coefficients }
    }

    /// Replaces every coefficient `c` by `f(c)`.
    pub fn map_inplace<F: Fn(Coefficient) -> Coefficient>(&mut self, f: F)
        requires
            forall|i: int| 0 <= i < 256 ==> f.requires((#[trigger] old(self).coefficients[i],)),
        ensures
            forall|i: int|
                0 <= i < 256 ==> f.ensures(
                    (old(self).coefficients[i],),
                    #[trigger] final(self).coefficients[i],
                ),
    {
        let mut i: usize = 0;
        while i < 256
            invariant
                forall|m: int|
                    0 <= m < 256 ==> f.requires((#[trigger] old(self).coefficients[m],)),
                forall|m: int|
                    i <= m < 256 ==> #[trigger] self.coefficients[m] == old(self).coefficients[m],
                forall|m: int|
                    0 <= m < i ==> f.ensures(
                        (old(self).coefficients[m],),
                        #[trigger] self.coefficients[m],
                    ),
            decreases 256 - i,
        {
            let c = self.coefficients[i];
            self.coefficients[i] = f(c);
            i += 1;
        }
    }

    /// Pointwise Montgomery product.
    pub fn mul(&self, rhs: &NTTPolynomial) -> (r: NTTPolynomial)
        requires
            forall|i: int|
                0 <= i < 256 ==> product_fits(#[trigger] self.coefficients[i], rhs.coefficients[i]),
        ensures
            forall|i: int|
                0 <= i < 256 ==> #[trigger] r.coefficients[i] == montgomery_spec(
                    (self.coefficients[i] * rhs.coefficients[i]) as i64,
                ),
            bounded(r.coefficients@, Q as int),
    {
        NTTPolynomial { coefficients: ntt_product(&self.coefficients, &rhs.coefficients) }
    }
}

} // verus!
