//! The number-theoretic transform of a polynomial, in place, and the
//! pointwise operations on coefficient arrays.
use vstd::prelude::*;

use crate::coefficient::{self, montgomery_spec, Coefficient};
use crate::params::Q;

verus! {

/// The coefficients of a polynomial, lowest degree first.
pub type Polynomial = [Coefficient; 256];

/// Powers of the 512th root of unity 1753 modulo `Q`, in Montgomery form and
/// bit-reversed order, as the butterflies consume them.
pub const ZETAS: [i32; 256] = [
    0, 25847, -2608894, -518909, 237124, -777960, -876248, 466468,
    1826347, 2353451, -359251, -2091905, 3119733, -2884855, 3111497, 2680103,
    2725464, 1024112, -1079900, 3585928, -549488, -1119584, 2619752, -2108549,
    -2118186, -3859737, -1399561, -3277672, 1757237, -19422, 4010497, 280005,
    2706023, 95776, 3077325, 3530437, -1661693, -3592148, -2537516, 3915439,
    -3861115, -3043716, 3574422, -2867647, 3539968, -300467, 2348700, -539299,
    -1699267, -1643818, 3505694, -3821735, 3507263, -2140649, -1600420, 3699596,
    811944, 531354, 954230, 3881043, 3900724, -2556880, 2071892, -2797779,
    -3930395, -1528703, -3677745, -3041255, -1452451, 3475950, 2176455, -1585221,
    -1257611, 1939314, -4083598, -1000202, -3190144, -3157330, -3632928, 126922,
    3412210, -983419, 2147896, 2715295, -2967645, -3693493, -411027, -2477047,
    -671102, -1228525, -22981, -1308169, -381987, 1349076, 1852771, -1430430,
    -3343383, 264944, 508951, 3097992, 44288, -1100098, 904516, 3958618,
    -3724342, -8578, 1653064, -3249728, 2389356, -210977, 759969, -1316856,
    189548, -3553272, 3159746, -1851402, -2409325, -177440, 1315589, 1341330,
    1285669, -1584928, -812732, -1439742, -3019102, -3881060, -3628969, 3839961,
    2091667, 3407706, 2316500, 3817976, -3342478, 2244091, -2446433, -3562462,
    266997, 2434439, -1235728, 3513181, -3520352, -3759364, -1197226, -3193378,
    900702, 1859098, 909542, 819034, 495491, -1613174, -43260, -522500,
    -655327, -3122442, 2031748, 3207046, -3556995, -525098, -768622, -3595838,
    342297, 286988, -2437823, 4108315, 3437287, -3342277, 1735879, 203044,
    2842341, 2691481, -2590150, 1265009, 4055324, 1247620, 2486353, 1595974,
    -3767016, 1250494, 2635921, -3548272, -2994039, 1869119, 1903435, -1050970,
    -1333058, 1237275, -3318210, -1430225, -451100, 1312455, 3306115, -1962642,
    -1279661, 1917081, -2546312, -1374803, 1500165, 777191, 2235880, 3406031,
    -542412, -2831860, -1671176, -1846953, -2584293, -3724270, 594136, -3776993,
    -2013608, 2432395, 2454455, -164721, 1957272, 3369112, 185531, -1207385,
    -3183426, 162844, 1616392, 3014001, 810149, 1652634, -3694233, -1799107,
    -3038916, 3523897, 3866901, 269760, 2213111, -975884, 1717735, 472078,
    -426683, 1723600, -1803090, 1910376, -1667432, -1104333, -260646, -3833893,
    -2939036, -2235985, -420899, -2286327, 183443, -976891, 1612842, -3545687,
    -554416, 3919660, -48306, -1362209, 3937738, 1400424, -846154, 1976782,
];

/// Every coefficient lies strictly between `-b` and `b`.
pub open spec fn bounded(p: Seq<i32>, b: int) -> bool {
    forall|i: int| 0 <= i < p.len() ==> -b < #[trigger] p[i] < b
}

proof fn lemma_zetas_bounded()
    ensures
        forall|i: int| 0 <= i < 256 ==> -Q < #[trigger] ZETAS[i] < Q,
{
}

/// The half-widths of the butterfly layers.
spec fn layer_len(len: int) -> bool {
    len == 1 || len == 2 || len == 4 || len == 8 || len == 16 || len == 32 || len == 64 || len
        == 128
}

/// Layers of the forward transform still to run when the half-width is `len`.
spec fn layers_left(len: int) -> int {
    if len == 128 {
        8
    } else if len == 64 {
        7
    } else if len == 32 {
        6
    } else if len == 16 {
        5
    } else if len == 8 {
        4
    } else if len == 4 {
        3
    } else if len == 2 {
        2
    } else if len == 1 {
        1
    } else {
        0
    }
}

/// Index `i` was already rewritten by the layer of half-width `len`, whose
/// current block starts at `start` and whose butterflies before `j` are done.
spec fn touched(i: int, start: int, j: int, len: int) -> bool {
    i < start || (start <= i < j) || (start + len <= i < j + len)
}

/// One Cooley-Tukey layer of half-width `len`: in block `b` of `2 * len`
/// coefficients, with `z = ZETAS[k0 + b]` and `m` the Montgomery reduction of
/// `r * z`, each pair `(l, r)` at distance `len` becomes `(l + m, l - m)`.
pub open spec fn forward_layer(a: Seq<i32>, len: int, k0: int) -> Seq<i32> {
    Seq::new(
        256,
        |x: int|
            {
                let z = ZETAS[k0 + x / (2 * len)];
                if x % (2 * len) < len {
                    (a[x] + montgomery_spec((a[x + len] * z) as i64)) as i32
                } else {
                    (a[x - len] - montgomery_spec((a[x] * z) as i64)) as i32
                }
            },
    )
}

/// The coefficients after the forward layers of half-width 128 down to
/// `len`, the layer of half-width `len` taking its zetas from `128 / len`.
pub open spec fn forward_through(a: Seq<i32>, len: int) -> Seq<i32>
    decreases 256 - len,
{
    if len < 1 || len >= 128 {
        forward_layer(a, 128, 1)
    } else {
        forward_layer(forward_through(a, 2 * len), len, 128int / len)
    }
}

/// The forward transform: all eight forward layers.
pub open spec fn forward_spec(a: Seq<i32>) -> Seq<i32> {
    forward_through(a, 1)
}

/// The coefficients before the forward layer of half-width `len`.
pub open spec fn forward_before(a: Seq<i32>, len: int) -> Seq<i32> {
    if len >= 128 {
        a
    } else {
        forward_through(a, 2 * len)
    }
}

proof fn lemma_butterfly_index(start: int, len: int, j: int)
    requires
        1 <= len,
        start % (2 * len) == 0,
        0 <= start,
        start <= j < start + len,
    ensures
        j / (2 * len) == start / (2 * len),
        j % (2 * len) == j - start,
        (j + len) / (2 * len) == start / (2 * len),
        (j + len) % (2 * len) == j - start + len,
{
    let d = 2 * len;
    vstd::arithmetic::div_mod::lemma_fundamental_div_mod(start, d);
    let s = start / d;
    assert(start == d * s);
    assert(j == s * d + (j - start)) by (nonlinear_arith)
        requires
            start == d * s,
    ;
    assert(j + len == s * d + (j - start + len)) by (nonlinear_arith)
        requires
            start == d * s,
    ;
    vstd::arithmetic::div_mod::lemma_fundamental_div_mod_converse(j, d, s, j - start);
    vstd::arithmetic::div_mod::lemma_fundamental_div_mod_converse(j + len, d, s, j - start + len);
}

proof fn lemma_zeta_index(k: int, start: int, len: int)
    requires
        layer_len(len),
        start % (2 * len) == 0,
        0 <= start,
        k * (2 * len) == 256 + start,
    ensures
        k == 128int / len + start / (2 * len),
{
    let d = 2 * len;
    vstd::arithmetic::div_mod::lemma_fundamental_div_mod(start, d);
    let s = start / d;
    assert((k - s) * d == 256) by (nonlinear_arith)
        requires
            k * d == 256 + start,
            start == d * s + 0,
    ;
    if len == 1 {
        assert(k - s == 128) by (nonlinear_arith)
            requires
                (k - s) * d == 256,
                d == 2,
        ;
    } else if len == 2 {
        assert(k - s == 64) by (nonlinear_arith)
            requires
                (k - s) * d == 256,
                d == 4,
        ;
    } else if len == 4 {
        assert(k - s == 32) by (nonlinear_arith)
            requires
                (k - s) * d == 256,
                d == 8,
        ;
    } else if len == 8 {
        assert(k - s == 16) by (nonlinear_arith)
            requires
                (k - s) * d == 256,
                d == 16,
        ;
    } else if len == 16 {
        assert(k - s == 8) by (nonlinear_arith)
            requires
                (k - s) * d == 256,
                d == 32,
        ;
    } else if len == 32 {
        assert(k - s == 4) by (nonlinear_arith)
            requires
                (k - s) * d == 256,
                d == 64,
        ;
    } else if len == 64 {
        assert(k - s == 2) by (nonlinear_arith)
            requires
                (k - s) * d == 256,
                d == 128,
        ;
    } else {
        assert(k - s == 1) by (nonlinear_arith)
            requires
                (k - s) * d == 256,
                d == 256,
        ;
    }
}

/// One Gentleman-Sande layer of half-width `len`: in block `b` of `2 * len`
/// coefficients, with `z = ZETAS[k0 - b]`, each pair `(l, r)` at distance
/// `len` becomes `(l + r, m)` where `m` is the Montgomery reduction of
/// `(l - r) * -z`.
pub open spec fn inverse_layer(a: Seq<i32>, len: int, k0: int) -> Seq<i32> {
    Seq::new(
        256,
        |x: int|
            {
                let z = ZETAS[k0 - x / (2 * len)];
                if x % (2 * len) < len {
                    (a[x] + a[x + len]) as i32
                } else {
                    montgomery_spec(((a[x - len] - a[x]) * (-z)) as i64) as i32
                }
            },
    )
}

/// The coefficients after the inverse layers of half-width 1 up to `len`,
/// the layer of half-width `len` taking its zetas downwards from
/// `256 / len - 1`.
pub open spec fn inverse_through(a: Seq<i32>, len: int) -> Seq<i32>
    decreases len,
{
    if len <= 1 || len > 128 {
        inverse_layer(a, 1, 255)
    } else {
        inverse_layer(inverse_through(a, len / 2), len, 256int / len - 1)
    }
}

/// The coefficients before the inverse layer of half-width `len`.
pub open spec fn inverse_before(a: Seq<i32>, len: int) -> Seq<i32> {
    if len <= 1 {
        a
    } else {
        inverse_through(a, len / 2)
    }
}

/// The inverse transform: all inverse layers, then every coefficient
/// multiplied by `41978` through Montgomery reduction.
pub open spec fn inverse_spec(a: Seq<i32>) -> Seq<i32> {
    Seq::new(256, |i: int| montgomery_spec((inverse_through(a, 128)[i] * 41978) as i64) as i32)
}

proof fn lemma_inverse_zeta_index(k: int, start: int, len: int)
    requires
        layer_len(len),
        start % (2 * len) == 0,
        0 <= start,
        (k + 1) * (2 * len) == 512 - start,
    ensures
        k == 256int / len - 1 - start / (2 * len),
{
    let d = 2 * len;
    vstd::arithmetic::div_mod::lemma_fundamental_div_mod(start, d);
    let s = start / d;
    assert((k + 1 + s) * d == 512) by (nonlinear_arith)
        requires
            (k + 1) * d == 512 - start,
            start == d * s + 0,
    ;
    if len == 1 {
        assert(k + 1 + s == 256) by (nonlinear_arith)
            requires
                (k + 1 + s) * d == 512,
                d == 2,
        ;
        assert(256int / len == 256);
    } else if len == 2 {
        assert(k + 1 + s == 128) by (nonlinear_arith)
            requires
                (k + 1 + s) * d == 512,
                d == 4,
        ;
        assert(256int / len == 128);
    } else if len == 4 {
        assert(k + 1 + s == 64) by (nonlinear_arith)
            requires
                (k + 1 + s) * d == 512,
                d == 8,
        ;
        assert(256int / len == 64);
    } else if len == 8 {
        assert(k + 1 + s == 32) by (nonlinear_arith)
            requires
                (k + 1 + s) * d == 512,
                d == 16,
        ;
        assert(256int / len == 32);
    } else if len == 16 {
        assert(k + 1 + s == 16) by (nonlinear_arith)
            requires
                (k + 1 + s) * d == 512,
                d == 32,
        ;
        assert(256int / len == 16);
    } else if len == 32 {
        assert(k + 1 + s == 8) by (nonlinear_arith)
            requires
                (k + 1 + s) * d == 512,
                d == 64,
        ;
        assert(256int / len == 8);
    } else if len == 64 {
        assert(k + 1 + s == 4) by (nonlinear_arith)
            requires
                (k + 1 + s) * d == 512,
                d == 128,
        ;
        assert(256int / len == 4);
    } else if len == 128 {
        assert(k + 1 + s == 2) by (nonlinear_arith)
            requires
                (k + 1 + s) * d == 512,
                d == 256,
        ;
        assert(256int / len == 2);
    }
}

proof fn lemma_block_fits(start: usize, len: usize)
    requires
        layer_len(len as int),
        start as int % (2 * len) == 0,
        start < 256,
    ensures
        start + 2 * len <= 256,
        (start + 2 * len) % (2 * len as int) == 0,
{
    let d = (2 * len) as usize;
    let e = (start + 2 * len) as usize;
    assert(start + d <= 256 && e % d == 0) by (bit_vector)
        requires
            d == 2 || d == 4 || d == 8 || d == 16 || d == 32 || d == 64 || d == 128 || d == 256,
            start % d == 0,
            start < 256,
            e == start + d,
    ;
}

/// Forward transform (Cooley-Tukey butterflies, half-widths 128 down to 1).
/// Coefficients in `(-Q, Q)` come out in `(-9Q, 9Q)`.
#[verifier::spinoff_prover]
pub fn to_ntt(poly: &mut Polynomial)
    requires
        bounded(old(poly)@, Q as int),
    ensures
        final(poly)@ == forward_spec(old(poly)@),
        bounded(final(poly)@, 9 * Q),
{
    proof {
        lemma_zetas_bounded();
    }
    let ghost a0 = poly@;
    let ghost mut lim: int = Q as int;
    let mut k: usize = 1;
    let mut len: usize = 128;
    while len > 0
        invariant
            len == 0 || layer_len(len as int),
            len > 0 ==> k * (2 * len) == 256,
            len > 0 ==> poly@ == forward_before(a0, len as int),
            len == 0 ==> poly@ == forward_through(a0, 1),
            bounded(poly@, lim),
            Q <= lim,
            lim + Q * layers_left(len as int) <= 9 * Q,
            forall|i: int| 0 <= i < 256 ==> -Q < #[trigger] ZETAS[i] < Q,
        decreases len,
    {
        let ghost prev = poly@;
        let ghost k0: int = 128int / len as int;
        let mut start: usize = 0;
        while start < 256
            invariant
                layer_len(len as int),
                start as int % (2 * len) == 0,
                start <= 256,
                k * (2 * len) == 256 + start,
                k0 == 128int / len as int,
                Q <= lim <= 8 * Q,
                prev.len() == 256,
                bounded(prev, lim),
                forall|i: int|
                    0 <= i < 256 ==> if i < start {
                        -(lim + Q) < #[trigger] poly[i] < lim + Q && poly[i] == forward_layer(
                            prev,
                            len as int,
                            k0,
                        )[i]
                    } else {
                        poly[i] == prev[i]
                    },
                forall|i: int| 0 <= i < 256 ==> -Q < #[trigger] ZETAS[i] < Q,
            decreases 256 - start,
        {
            proof {
                lemma_block_fits(start, len);
                lemma_zeta_index(k as int, start as int, len as int);
                assert(k < 256) by (nonlinear_arith)
                    requires
                        k * (2 * len) == 256 + start,
                        start < 256,
                        len >= 1,
                ;
            }
            let zeta = ZETAS[k];
            k += 1;
            let mut j = start;
            while j < start + len
                invariant
                    layer_len(len as int),
                    start <= j <= start + len,
                    start + 2 * len <= 256,
                    start as int % (2 * len) == 0,
                    Q <= lim <= 8 * Q,
                    prev.len() == 256,
                    bounded(prev, lim),
                    k0 == 128int / len as int,
                    zeta == ZETAS[k0 + start as int / (2 * len)],
                    -Q < zeta < Q,
                    forall|i: int|
                        0 <= i < 256 ==> if touched(i, start as int, j as int, len as int) {
                            -(lim + Q) < #[trigger] poly[i] < lim + Q && poly[i] == forward_layer(
                                prev,
                                len as int,
                                k0,
                            )[i]
                        } else {
                            poly[i] == prev[i]
                        },
                decreases start + len - j,
            {
                let rx = poly[j + len];
                let lx = poly[j];
                proof {
                    assert(!touched(j as int, start as int, j as int, len as int));
                    assert(!touched(j + len, start as int, j as int, len as int));
                    assert(rx == prev[j + len] && lx == prev[j as int]);
                    assert(-lim < prev[j + len] < lim);
                    assert(-lim < prev[j as int] < lim);
                    assert(-0x8000_0000 * Q < rx * zeta < 0x8000_0000 * Q) by (nonlinear_arith)
                        requires
                            -lim < rx < lim,
                            lim <= 8 * Q,
                            -Q < zeta < Q,
                    ;
                    lemma_butterfly_index(start as int, len as int, j as int);
                }
                let t = coefficient::reduce_montgomery(rx as i64 * zeta as i64);
                let ghost before = poly@;
                poly[j + len] = lx - t;
                poly[j] = lx + t;
                proof {
                    let layer = forward_layer(prev, len as int, k0);
                    assert(layer[j as int] == lx + t);
                    assert(layer[j + len] == lx - t);
                    assert forall|i: int| 0 <= i < 256 implies if touched(
                        i,
                        start as int,
                        j + 1,
                        len as int,
                    ) {
                        -(lim + Q) < #[trigger] poly[i] < lim + Q && poly[i] == layer[i]
                    } else {
                        poly[i] == prev[i]
                    } by {
                        if i != j && i != j + len {
                            assert(poly[i] == before[i]);
                        }
                    }
                }
                j += 1;
            }
            start = start + 2 * len;
            proof {
                assert(k * (2 * len) == 256 + start) by (nonlinear_arith)
                    requires
                        (k - 1) * (2 * len) == 256 + start - 2 * len,
                ;
            }
        }
        proof {
            assert(poly@ =~= forward_layer(prev, len as int, k0));
            if len == 128 {
                assert(prev == a0);
                assert(k0 == 1) by (nonlinear_arith)
                    requires
                        k0 == 128int / len as int,
                        len == 128,
                ;
            } else {
                assert(prev == forward_through(a0, 2 * len));
            }
            assert(forward_through(a0, len as int) == forward_layer(prev, len as int, k0));
            lim = lim + Q;
            if len > 1 {
                assert(k * len == 256) by (nonlinear_arith)
                    requires
                        k * (2 * len) == 512,
                ;
                assert(forward_before(a0, (len / 2) as int) == forward_through(a0, len as int));
            }
        }
        len = len / 2;
    }
}

/// Inverse transform (Gentleman-Sande butterflies, half-widths 1 up to 128),
/// followed by the multiplication by `41978`, which is `2^64 / 256` modulo
/// `Q`. Coefficients in `(-Q, Q)` come out in `(-Q, Q)`.
#[verifier::spinoff_prover]
pub fn from_ntt(poly: &mut Polynomial)
    requires
        bounded(old(poly)@, Q as int),
    ensures
        final(poly)@ == inverse_spec(old(poly)@),
        bounded(final(poly)@, Q as int),
{
    proof {
        lemma_zetas_bounded();
    }
    let ghost a0 = poly@;
    let f: i64 = 41978;
    let mut k: usize = 255;
    let mut len: usize = 1;
    while len < 256
        invariant
            layer_len(len as int) || len == 256,
            len < 256 ==> (k + 1) * (2 * len) == 512,
            len < 256 ==> poly@ == inverse_before(a0, len as int),
            len == 256 ==> poly@ == inverse_through(a0, 128),
            bounded(poly@, len * Q),
            forall|i: int| 0 <= i < 256 ==> -Q < #[trigger] ZETAS[i] < Q,
        decreases 256 - len,
    {
        let ghost prev = poly@;
        let ghost k0: int = 256int / len as int - 1;
        let mut start: usize = 0;
        while start < 256
            invariant
                layer_len(len as int),
                start as int % (2 * len) == 0,
                start <= 256,
                (k + 1) * (2 * len) == 512 - start,
                k0 == 256int / len as int - 1,
                prev.len() == 256,
                bounded(prev, len * Q),
                forall|i: int|
                    0 <= i < 256 ==> if i < start {
                        -(2 * len * Q) < #[trigger] poly[i] < 2 * len * Q && poly[i]
                            == inverse_layer(prev, len as int, k0)[i]
                    } else {
                        poly[i] == prev[i]
                    },
                forall|i: int| 0 <= i < 256 ==> -Q < #[trigger] ZETAS[i] < Q,
            decreases 256 - start,
        {
            proof {
                lemma_block_fits(start, len);
                lemma_inverse_zeta_index(k as int, start as int, len as int);
                assert(1 <= k < 256) by (nonlinear_arith)
                    requires
                        (k + 1) * (2 * len) == 512 - start,
                        start < 256,
                        1 <= len <= 128,
                ;
            }
            let zeta = ZETAS[k];
            let mut j = start;
            while j < start + len
                invariant
                    layer_len(len as int),
                    start <= j <= start + len,
                    start + 2 * len <= 256,
                    start as int % (2 * len) == 0,
                    prev.len() == 256,
                    bounded(prev, len * Q),
                    k0 == 256int / len as int - 1,
                    0 <= k0 - start as int / (2 * len) < 256,
                    zeta == ZETAS[k0 - start as int / (2 * len)],
                    -Q < zeta < Q,
                    forall|i: int|
                        0 <= i < 256 ==> if touched(i, start as int, j as int, len as int) {
                            -(2 * len * Q) < #[trigger] poly[i] < 2 * len * Q && poly[i]
                                == inverse_layer(prev, len as int, k0)[i]
                        } else {
                            poly[i] == prev[i]
                        },
                decreases start + len - j,
            {
                let lx = poly[j];
                let rx = poly[j + len];
                proof {
                    assert(!touched(j as int, start as int, j as int, len as int));
                    assert(!touched(j + len, start as int, j as int, len as int));
                    assert(rx == prev[j + len] && lx == prev[j as int]);
                    assert(-(len * Q) < prev[j + len] < len * Q);
                    assert(-(len * Q) < prev[j as int] < len * Q);
                    assert(-0x8000_0000 * Q < (lx - rx) * (-zeta) < 0x8000_0000 * Q)
                        by (nonlinear_arith)
                        requires
                            -(2 * len * Q) < lx - rx < 2 * len * Q,
                            len <= 128,
                            -Q < zeta < Q,
                    ;
                    lemma_butterfly_index(start as int, len as int, j as int);
                }
                let ghost before = poly@;
                poly[j] = lx + rx;
                poly[j + len] = coefficient::reduce_montgomery((lx - rx) as i64 * -zeta as i64);
                proof {
                    let layer = inverse_layer(prev, len as int, k0);
                    assert(layer[j as int] == lx + rx);
                    assert(layer[j + len] == poly[j + len]);
                    assert forall|i: int| 0 <= i < 256 implies if touched(
                        i,
                        start as int,
                        j + 1,
                        len as int,
                    ) {
                        -(2 * len * Q) < #[trigger] poly[i] < 2 * len * Q && poly[i] == layer[i]
                    } else {
                        poly[i] == prev[i]
                    } by {
                        if i != j && i != j + len {
                            assert(poly[i] == before[i]);
                        }
                    }
                }
                j += 1;
            }
            start = start + 2 * len;
            k -= 1;
            proof {
                assert((k + 1) * (2 * len) == 512 - start) by (nonlinear_arith)
                    requires
                        (k + 2) * (2 * len) == 512 - start + 2 * len,
                ;
            }
        }
        proof {
            assert(poly@ =~= inverse_layer(prev, len as int, k0));
            if len == 1 {
                assert(prev == a0);
                assert(k0 == 255) by (nonlinear_arith)
                    requires
                        k0 == 256int / len as int - 1,
                        len == 1,
                ;
            } else {
                assert(prev == inverse_through(a0, len as int / 2));
            }
            assert(inverse_through(a0, len as int) == inverse_layer(prev, len as int, k0));
            if len < 128 {
                assert((k + 1) * (4 * len) == 512) by (nonlinear_arith)
                    requires
                        (k + 1) * (2 * len) == 256,
                ;
                assert(inverse_before(a0, (len * 2) as int) == inverse_through(a0, len as int));
            }
        }
        len = len * 2;
    }
    let ghost layered = poly@;
    let mut i: usize = 0;
    while i < 256
        invariant
            f == 41978,
            layered == inverse_through(a0, 128),
            bounded(layered, 256 * Q),
            forall|m: int| 0 <= m < 256 ==> if m < i {
                -Q < #[trigger] poly[m] < Q && poly[m] == inverse_spec(a0)[m]
            } else {
                poly[m] == layered[m]
            },
        decreases 256 - i,
    {
        let c = poly[i];
        proof {
            assert(-(256 * Q) < layered[i as int] < 256 * Q);
            assert(-0x8000_0000 * Q < c * 41978 < 0x8000_0000 * Q) by (nonlinear_arith)
                requires
                    -(256 * Q) < c < 256 * Q,
            ;
        }
        let ghost before = poly@;
        poly[i] = coefficient::reduce_montgomery(c as i64 * f);
        proof {
            assert forall|m: int| 0 <= m < 256 implies if m < i + 1 {
                -Q < #[trigger] poly[m] < Q && poly[m] == inverse_spec(a0)[m]
            } else {
                poly[m] == layered[m]
            } by {
                if m != i {
                    assert(poly[m] == before[m]);
                }
            }
        }
        i += 1;
    }
    assert(poly@ =~= inverse_spec(a0));
}

} // verus!
