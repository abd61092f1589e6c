use rust_dilithium::coefficient::{abs, caddq, decompose, power2round, reduce_32, reduce_montgomery};
use rust_dilithium::ntt::{from_ntt, to_ntt, Polynomial};
use rust_dilithium::params::{ALPHA, GAMMA2, Q};
use rust_dilithium::polynomial::{
    ntt_difference, ntt_product, ntt_sum, pointwise_add_inplace, pointwise_sub_inplace,
    NTTPolynomial, PlainPolynomial,
};
use rust_dilithium::vector::{scalar_mul, Vector};

fn sample_polynomial(seed: i64) -> Polynomial {
    let mut p = [0i32; 256];
    let mut x = seed;
    for c in p.iter_mut() {
        x = (x * 1103515245 + 12345) % 2147483648;
        *c = (x % (2 * Q as i64 - 1)) as i32 - (Q - 1);
    }
    p
}

fn modq(x: i64) -> i64 {
    x.rem_euclid(Q as i64)
}

#[test]
fn montgomery_reduction_values() {
    assert_eq!(reduce_montgomery(0), 0);
    assert_eq!(reduce_montgomery(1i64 << 32), 1);
    assert_eq!(reduce_montgomery(-(1i64 << 32)), -1);
    for x in [1i64, 12345, -987654321, 3_000_000_000_000, -(Q as i64) * 1000] {
        let r = reduce_montgomery(x) as i64;
        assert!(r > -(Q as i64) && r < Q as i64);
        assert_eq!(modq(r << 32), modq(x));
    }
}

#[test]
fn reduce_32_and_caddq_values() {
    assert_eq!(reduce_32(Q), 0);
    assert_eq!(reduce_32(Q + 5), 5);
    assert_eq!(reduce_32(-1), -1);
    assert_eq!(reduce_32(2 * Q + 7), 7);
    assert_eq!(caddq(-1), Q - 1);
    assert_eq!(caddq(5), 5);
    assert_eq!(caddq(0), 0);
    assert_eq!(abs(-7), 7);
    assert_eq!(abs(7), 7);
}

#[test]
fn decompose_values() {
    assert_eq!(decompose(0), (0, 0));
    assert_eq!(decompose(Q - 1), (-1, 0));
    assert_eq!(decompose(ALPHA), (0, 1));
    assert_eq!(decompose(GAMMA2), (GAMMA2, 0));
    assert_eq!(decompose(GAMMA2 + 1), (GAMMA2 + 1 - ALPHA, 1));
}

#[test]
fn decompose_law_on_all_coefficients() {
    let mut n = 0;
    while n < Q {
        let (low, high) = decompose(n);
        assert_eq!(modq(high as i64 * ALPHA as i64 + low as i64), n as i64);
        assert!(low.abs() <= ALPHA / 2);
        assert!((0..16).contains(&high));
        n += 997;
    }
    let (low, high) = decompose(Q - 1);
    assert_eq!(modq(high as i64 * ALPHA as i64 + low as i64), (Q - 1) as i64);
}

#[test]
fn power2round_values() {
    assert_eq!(power2round(0), (0, 0));
    assert_eq!(power2round(4096), (4096, 0));
    assert_eq!(power2round(4097), (-4095, 1));
    assert_eq!(power2round(Q - 1), (0, 1023));
    let mut n = 0;
    while n < Q {
        let (low, high) = power2round(n);
        assert_eq!(high * 8192 + low, n);
        assert!(low > -4096 && low <= 4096);
        n += 1013;
    }
}

#[test]
fn ntt_round_trip_scales_by_montgomery_factor() {
    let p = sample_polynomial(7);
    let mut q = p;
    to_ntt(&mut q);
    for c in q.iter() {
        assert!(c.abs() < 9 * Q);
    }
    let mut r = q;
    for c in r.iter_mut() {
        *c = reduce_32(*c);
    }
    from_ntt(&mut r);
    for i in 0..256 {
        assert_eq!(modq(r[i] as i64), modq((p[i] as i64) << 32));
    }
}

#[test]
fn ntt_product_multiplies_in_the_ring() {
    // x * x^255 = x^256 = -1 in Z_q[X]/(X^256 + 1).
    let mut x = [0i32; 256];
    x[1] = 1;
    let mut y = [0i32; 256];
    y[255] = 1;
    let mut xh = PlainPolynomial::from_coefficients(x).into_ntt().coefficients;
    for c in xh.iter_mut() {
        *c = reduce_32(*c);
    }
    let mut yh = PlainPolynomial::from_coefficients(y).into_ntt().coefficients;
    for c in yh.iter_mut() {
        *c = reduce_32(*c);
    }
    let prod = NTTPolynomial::from_coefficients(ntt_product(&xh, &yh)).into_plain();
    assert_eq!(modq(prod.coefficients[0] as i64), (Q - 1) as i64);
    for i in 1..256 {
        assert_eq!(modq(prod.coefficients[i] as i64), 0);
    }
}

#[test]
fn ntt_identity_through_product_with_one() {
    let p = sample_polynomial(11);
    let mut one = [0i32; 256];
    one[0] = 1;
    let ph = PlainPolynomial::from_coefficients(p).into_ntt();
    let oh = PlainPolynomial::from_coefficients(one).into_ntt();
    let back = ph.mul(&oh).into_plain();
    for i in 0..256 {
        assert_eq!(modq(back.coefficients[i] as i64), modq(p[i] as i64));
    }
}

#[test]
fn pointwise_sums_and_differences() {
    let a = sample_polynomial(1);
    let b = sample_polynomial(2);
    let s = ntt_sum(a, b);
    let d = ntt_difference(a, b);
    let mut c = a;
    pointwise_add_inplace(&mut c, b);
    assert_eq!(c, s);
    pointwise_sub_inplace(&mut c, b);
    assert_eq!(c, a);
    for i in 0..256 {
        assert_eq!(s[i], a[i] + b[i]);
        assert_eq!(d[i], a[i] - b[i]);
    }
    let mut e = a;
    rust_dilithium::polynomial::caddq(&mut e);
    for i in 0..256 {
        assert!(e[i] >= 0 && e[i] < Q);
        assert_eq!(modq(e[i] as i64), modq(a[i] as i64));
    }
}

#[test]
fn scalar_mul_sums_products() {
    let a = [
        NTTPolynomial::from_coefficients(sample_polynomial(3)),
        NTTPolynomial::from_coefficients(sample_polynomial(4)),
    ];
    let b = [
        NTTPolynomial::from_coefficients(sample_polynomial(5)),
        NTTPolynomial::from_coefficients(sample_polynomial(6)),
    ];
    let r = scalar_mul(&a, &b);
    let p0 = ntt_product(&a[0].coefficients, &b[0].coefficients);
    let p1 = ntt_product(&a[1].coefficients, &b[1].coefficients);
    for i in 0..256 {
        assert_eq!(r.coefficients[i], p0[i] + p1[i]);
    }
    let va = Vector::from_polynomials(a);
    let vb = Vector::from_polynomials(b);
    assert_eq!(va.dot(&vb), r);
}

#[test]
fn plain_polynomial_maps_and_max() {
    let mut p = PlainPolynomial::from_coefficients(sample_polynomial(9));
    let orig = p;
    p.map_inplace(|c: i32| if c < 0 { c + Q } else { c });
    for i in 0..256 {
        assert_eq!(p.coefficients[i], caddq(orig.coefficients[i]));
    }
    let high = p.map_fork(|c: i32| if c >= 0 && c < Q { decompose(c) } else { (c, 0) });
    for i in 0..256 {
        let (l, h) = decompose(caddq(orig.coefficients[i]));
        assert_eq!(p.coefficients[i], l);
        assert_eq!(high.coefficients[i], h);
    }
    let mut z = [0i32; 256];
    z[17] = -42;
    z[200] = 41;
    assert_eq!(PlainPolynomial::from_coefficients(z).max(), 42);
    let dumped = PlainPolynomial::from_coefficients(z).dump();
    assert_eq!(dumped[17], -42i64);
}
