//! The hint vector: which high parts roll over, and its compact encoding as
//! a list of set positions followed by cumulative counts.
use vstd::prelude::*;

use crate::params::{GAMMA2, K, OMEGA, POLYVECH_PACKED_SIZE};
use crate::polynomial::PlainPolynomial;
use crate::vector::Vector;

verus! {

/// A hint: one boolean per coefficient of each of the `K` polynomials.
pub type Hint = [[bool; 256]; K];

/// The hint bit for low part `a0` and high part `a1`.
pub open spec fn hint_bit(a0: int, a1: int) -> bool {
    !(-GAMMA2 <= a0 <= GAMMA2) || (a0 == -GAMMA2 && a1 != 0)
}

/// The indices below `n` where `p` is set, ascending.
pub open spec fn positions(p: Seq<bool>, n: int) -> Seq<u8>
    decreases n,
{
    if n <= 0 {
        seq![]
    } else if p[n - 1] {
        positions(p, n - 1).push((n - 1) as u8)
    } else {
        positions(p, n - 1)
    }
}

/// The set positions of the first `k` polynomials of `h`, polynomial by
/// polynomial.
pub open spec fn all_positions(h: Hint, k: int) -> Seq<u8>
    decreases k,
{
    if k <= 0 {
        seq![]
    } else {
        all_positions(h, k - 1) + positions(h[k - 1]@, 256)
    }
}

/// The number of set bits of `h`.
pub open spec fn ones(h: Hint) -> int {
    all_positions(h, K as int).len() as int
}

/// The cumulative count that ends the range of polynomial `k` in `b`.
pub open spec fn hint_end(b: Seq<u8>, k: int) -> int {
    if k < 0 {
        0
    } else {
        b[OMEGA + k] as int
    }
}

/// The count of polynomial `k` is at least the one before it and at most
/// `OMEGA`.
pub open spec fn count_ok(b: Seq<u8>, k: int) -> bool {
    hint_end(b, k - 1) <= hint_end(b, k) <= OMEGA
}

/// Where `j` and `j + 1` both lie in the range of polynomial `k`, the
/// position at `j` is below the one at `j + 1`.
pub open spec fn ascending_at(b: Seq<u8>, k: int, j: int) -> bool {
    hint_end(b, k - 1) <= j && j + 1 < hint_end(b, k) ==> b[j] < b[j + 1]
}

/// Position byte `j` past the last count is zero.
pub open spec fn padding_zero(b: Seq<u8>, j: int) -> bool {
    hint_end(b, K - 1) <= j < OMEGA ==> b[j] == 0
}

/// The counts never decrease and never pass `OMEGA`, the positions of each
/// polynomial strictly increase, and the unused position bytes are zero.
pub open spec fn hint_well_formed(b: Seq<u8>) -> bool {
    &&& forall|k: int| 0 <= k < K ==> #[trigger] count_ok(b, k)
    &&& forall|k: int, j: int| 0 <= k < K ==> #[trigger] ascending_at(b, k, j)
    &&& forall|j: int| #[trigger] padding_zero(b, j)
}

/// Position `i` of polynomial `k` is listed in the range of that polynomial.
#[verifier::opaque]
pub open spec fn hint_listed(b: Seq<u8>, k: int, i: int) -> bool {
    exists|j: int| hint_end(b, k - 1) <= j < hint_end(b, k) && #[trigger] b[j] == i
}

proof fn lemma_positions_len(p: Seq<bool>, n: int, m: int)
    requires
        0 <= n <= m,
    ensures
        positions(p, n).len() <= positions(p, m).len(),
        positions(p, m).len() <= m,
    decreases m,
{
    if m > 0 {
        if n < m {
            lemma_positions_len(p, n, m - 1);
        } else {
            lemma_positions_len(p, m - 1, m - 1);
        }
    }
}

proof fn lemma_all_positions_len(h: Hint, k: int, m: int)
    requires
        0 <= k <= m,
    ensures
        all_positions(h, k).len() <= all_positions(h, m).len(),
    decreases m,
{
    if k < m {
        lemma_all_positions_len(h, k, m - 1);
    }
}

/// The hint of `(w0, w1)` and its number of set bits.
pub fn make_hint(w0: &Vector<PlainPolynomial, K>, w1: &Vector<PlainPolynomial, K>) -> (r: (
    Hint,
    usize,
))
    ensures
        forall|k: int, i: int|
            0 <= k < K && 0 <= i < 256 ==> #[trigger] r.0[k][i] == hint_bit(
                w0.coeff(k, i) as int,
                w1.coeff(k, i) as int,
            ),
        r.1 == ones(r.0),
{
    let mut h: Hint = [[false; 256]; K];
    let mut count: usize = 0;
    let mut k: usize = 0;
    while k < K
        invariant
            k <= K,
            count == all_positions(h, k as int).len(),
            count <= 256 * k,
            forall|m: int, i: int|
                0 <= m < k && 0 <= i < 256 ==> #[trigger] h[m][i] == hint_bit(
                    w0.coeff(m, i) as int,
                    w1.coeff(m, i) as int,
                ),
        decreases K - k,
    {
        let lows = w0.coefficients[k];
        let highs = w1.coefficients[k];
        let mut row = [false; 256];
        let mut n: usize = 0;
        let ghost base = all_positions(h, k as int);
        while n < 256
            invariant
                k < K,
                n <= 256,
                lows == w0.coefficients[k as int],
                highs == w1.coefficients[k as int],
                count == base.len() + positions(row@, n as int).len(),
                count <= 256 * k + n,
                forall|i: int|
                    0 <= i < n ==> #[trigger] row[i] == hint_bit(
                        lows.coefficients[i] as int,
                        highs.coefficients[i] as int,
                    ),
                forall|i: int| n <= i < 256 ==> !#[trigger] row[i],
            decreases 256 - n,
        {
            let a0 = lows.coefficients[n];
            let a1 = highs.coefficients[n];
            let bit = !(-GAMMA2 <= a0 && a0 <= GAMMA2) || (a0 == -GAMMA2 && a1 != 0);
            let ghost before = row;
            row[n] = bit;
            proof {
                assert(positions(row@, n as int) =~= positions(before@, n as int)) by {
                    lemma_positions_prefix(before@, row@, n as int);
                }
            }
            if bit {
                count += 1;
            }
            n += 1;
        }
        let ghost prev = h;
        h[k] = row;
        proof {
            assert(h[k as int]@ =~= row@);
            assert(all_positions(h, k as int) =~= all_positions(prev, k as int)) by {
                lemma_all_positions_prefix(prev, h, k as int);
            }
            assert forall|m: int, i: int| 0 <= m < k + 1 && 0 <= i < 256 implies #[trigger] h[m][i]
                == hint_bit(w0.coeff(m, i) as int, w1.coeff(m, i) as int) by {
                if m < k {
                    assert(h[m] == prev[m]);
                }
            }
        }
        k += 1;
    }
    (h, count)
}

proof fn lemma_positions_prefix(a: Seq<bool>, b: Seq<bool>, n: int)
    requires
        forall|i: int| 0 <= i < n ==> a[i] == b[i],
    ensures
        positions(a, n) == positions(b, n),
    decreases n,
{
    if n > 0 {
        lemma_positions_prefix(a, b, n - 1);
    }
}

proof fn lemma_all_positions_prefix(a: Hint, b: Hint, k: int)
    requires
        forall|m: int| 0 <= m < k ==> a[m] == b[m],
    ensures
        all_positions(a, k) == all_positions(b, k),
    decreases k,
{
    if k > 0 {
        lemma_all_positions_prefix(a, b, k - 1);
    }
}

/// The counts written by `pack_hint` never decrease and never pass `OMEGA`.
pub proof fn lemma_count_ok(h: Hint, b: Seq<u8>, k: int)
    requires
        b.len() == POLYVECH_PACKED_SIZE,
        ones(h) <= OMEGA,
        forall|m: int| 0 <= m < K ==> #[trigger] b[OMEGA + m] as int == all_positions(h, m + 1).len(),
        0 <= k < K,
    ensures
        count_ok(b, k),
{
    lemma_all_positions_len(h, k, k + 1);
    lemma_all_positions_len(h, k + 1, K as int);
    assert(b[OMEGA + k] as int == all_positions(h, k + 1).len());
    if k > 0 {
        assert(b[OMEGA + (k - 1)] as int == all_positions(h, k).len());
    }
}

/// The encoding of a hint with at most `OMEGA` set bits: the set positions
/// (zero-padded to `OMEGA` bytes), then for each polynomial the number of set
/// bits up to and including it.
#[verifier::spinoff_prover]
pub fn pack_hint(h: &Hint) -> (r: [u8; POLYVECH_PACKED_SIZE])
    requires
        ones(*h) <= OMEGA,
    ensures
        forall|n: int|
            0 <= n < OMEGA ==> #[trigger] r[n] == if n < ones(*h) {
                all_positions(*h, K as int)[n]
            } else {
                0u8
            },
        forall|k: int|
            0 <= k < K ==> #[trigger] r[OMEGA + k] as int == all_positions(*h, k + 1).len(),
{
    let mut r = [0u8; POLYVECH_PACKED_SIZE];
    let mut pos: usize = 0;
    let mut k: usize = 0;
    while k < K
        invariant
            k <= K,
            ones(*h) <= OMEGA,
            pos == all_positions(*h, k as int).len(),
            pos <= OMEGA,
            forall|n: int| 0 <= n < pos ==> #[trigger] r[n] == all_positions(*h, k as int)[n],
            forall|n: int| pos <= n < OMEGA ==> #[trigger] r[n] == 0,
            forall|m: int|
                0 <= m < k ==> #[trigger] r[OMEGA + m] as int == all_positions(*h, m + 1).len(),
        decreases K - k,
    {
        let row = h[k];
        let ghost base = all_positions(*h, k as int);
        proof {
            lemma_all_positions_len(*h, k + 1, K as int);
            assert(row@ == h[k as int]@);
        }
        let mut i: usize = 0;
        while i < 256
            invariant
                k < K,
                i <= 256,
                row == h[k as int],
                base == all_positions(*h, k as int),
                base.len() + positions(row@, 256).len() <= OMEGA,
                pos == base.len() + positions(row@, i as int).len(),
                forall|n: int|
                    0 <= n < pos ==> #[trigger] r[n] == (base + positions(row@, i as int))[n],
                forall|n: int| pos <= n < OMEGA ==> #[trigger] r[n] == 0,
                forall|m: int|
                    0 <= m < k ==> #[trigger] r[OMEGA + m] as int == all_positions(*h, m + 1).len(),
            decreases 256 - i,
        {
            proof {
                lemma_positions_len(row@, (i + 1) as int, 256);
            }
            if row[i] {
                r[pos] = i as u8;
                pos += 1;
            }
            i += 1;
        }
        proof {
            assert(all_positions(*h, k + 1) =~= base + positions(row@, 256));
        }
        r[OMEGA + k] = pos as u8;
        k += 1;
    }
    r
}

/// The positions listed for polynomial `k`, in `b[start..end]`; `None`
/// where they do not strictly increase.
fn unpack_hint_row(b: &[u8], k: usize, start: usize, end: usize) -> (r: Option<[bool; 256]>)
    requires
        b@.len() == POLYVECH_PACKED_SIZE,
        k < K,
        start == hint_end(b@, k - 1),
        end == hint_end(b@, k as int),
        start <= end <= OMEGA,
    ensures
        r is Some <==> forall|x: int| #[trigger] ascending_at(b@, k as int, x),
        match r {
            Some(row) => forall|i: int| 0 <= i < 256 ==> #[trigger] row[i] == hint_listed(b@, k as int, i),
            None => true,
        },
{
    let mut row = [false; 256];
    let mut j: usize = start;
    while j < end
        invariant
            b@.len() == POLYVECH_PACKED_SIZE,
            start <= j <= end <= OMEGA,
            forall|x: int| x + 1 < j ==> #[trigger] ascending_at(b@, k as int, x),
            k < K,
            start == hint_end(b@, k - 1),
            end == hint_end(b@, k as int),
            forall|i: int|
                0 <= i < 256 ==> #[trigger] row[i] == exists|x: int|
                    start <= x < j && #[trigger] b@[x] == i,
        decreases end - j,
    {
        if j > start && b[j - 1] >= b[j] {
            proof {
                let x = (j - 1) as int;
                assert(!ascending_at(b@, k as int, x));
            }
            return None;
        }
        let ghost before = row;
        row[b[j] as usize] = true;
        proof {
            assert forall|i: int| 0 <= i < 256 implies #[trigger] row[i] == exists|x: int|
                start <= x < j + 1 && #[trigger] b@[x] == i by {
                if i == b@[j as int] {
                    assert(start <= j < j + 1 && b@[j as int] == i);
                } else {
                    assert(row[i] == before[i]);
                    if exists|x: int| start <= x < j + 1 && #[trigger] b@[x] == i {
                        let x = choose|x: int| start <= x < j + 1 && #[trigger] b@[x] == i;
                        assert(x != j);
                    }
                }
            }
        }
        j += 1;
    }
    proof {
        reveal(hint_listed);
        assert forall|x: int| #[trigger] ascending_at(b@, k as int, x) by {
            if x + 1 < j {
            }
        }
    }
    Some(row)
}

/// Decodes a hint; `None` where the encoding is not well formed.
#[verifier::rlimit(50)]
#[verifier::spinoff_prover]
pub fn unpack_hint(packed: &[u8]) -> (r: Option<Hint>)
    requires
        packed@.len() == POLYVECH_PACKED_SIZE,
    ensures
        r is Some <==> hint_well_formed(packed@),
        match r {
            Some(h) => forall|k: int, i: int|
                0 <= k < K && 0 <= i < 256 ==> #[trigger] h[k][i] == hint_listed(packed@, k, i),
            None => true,
        },
{
    let mut h: Hint = [[false; 256]; K];
    let mut start: usize = 0;
    let mut k: usize = 0;
    while k < K
        invariant
            packed@.len() == POLYVECH_PACKED_SIZE,
            k <= K,
            start == hint_end(packed@, k - 1),
            start <= OMEGA,
            forall|m: int| 0 <= m < k ==> #[trigger] count_ok(packed@, m),
            forall|m: int, j: int| 0 <= m < k ==> #[trigger] ascending_at(packed@, m, j),
            forall|m: int, i: int|
                0 <= m < k && 0 <= i < 256 ==> #[trigger] h[m][i] == hint_listed(packed@, m, i),
        decreases K - k,
    {
        let end = packed[OMEGA + k] as usize;
        if end < start || end > OMEGA {
            proof {
                let kk = k as int;
                assert(!count_ok(packed@, kk));
                if hint_well_formed(packed@) {
                    assert(count_ok(packed@, kk));
                }
                assert(!hint_well_formed(packed@));
            }
            return None;
        }
        assert(count_ok(packed@, k as int));
        match unpack_hint_row(packed, k, start, end) {
            None => {
                proof {
                    let kk = k as int;
                    if hint_well_formed(packed@) {
                        assert forall|x: int| #[trigger] ascending_at(packed@, kk, x) by {
                            assert(ascending_at(packed@, kk, x));
                        }
                    }
                    assert(!hint_well_formed(packed@));
                }
                return None;
            },
            Some(row) => {
                let ghost prev = h;
                h[k] = row;
                proof {
                    assert forall|m: int, i: int| 0 <= m < k + 1 && 0 <= i < 256 implies #[trigger] h[
                        m
                    ][i] == hint_listed(packed@, m, i) by {
                        if m < k {
                            assert(h[m] == prev[m]);
                        } else {
                            assert(h[m][i] == row[i]);
                        }
                    }
                    assert forall|m: int, j: int| 0 <= m < k + 1 implies #[trigger] ascending_at(
                        packed@,
                        m,
                        j,
                    ) by {
                        if m == k {
                            assert(ascending_at(packed@, k as int, j));
                        }
                    }
                }
            },
        }
        start = end;
        k += 1;
    }
    let mut j: usize = start;
    while j < OMEGA
        invariant
            packed@.len() == POLYVECH_PACKED_SIZE,
            start == hint_end(packed@, K - 1),
            start <= j <= OMEGA,
            forall|x: int| start <= x < j ==> packed@[x] == 0,
        decreases OMEGA - j,
    {
        if packed[j] != 0 {
            proof {
                assert(!padding_zero(packed@, j as int));
            }
            return None;
        }
        j += 1;
    }
    proof {
        assert forall|x: int| #[trigger] padding_zero(packed@, x) by {
            if start <= x < OMEGA {
                assert(packed@[x] == 0);
            }
        }
    }
    Some(h)
}

proof fn lemma_positions_facts(p: Seq<bool>, n: int)
    requires
        0 <= n <= 256,
        n <= p.len(),
    ensures
        forall|t: int|
            0 <= t < positions(p, n).len() ==> (#[trigger] positions(p, n)[t] as int) < n && p[positions(
                p,
                n,
            )[t] as int],
        forall|t: int, u: int|
            0 <= t < u < positions(p, n).len() ==> #[trigger] positions(p, n)[t] < #[trigger] positions(
                p,
                n,
            )[u],
        forall|i: int|
            0 <= i < n && #[trigger] p[i] ==> exists|t: int|
                0 <= t < positions(p, n).len() && positions(p, n)[t] == i,
    decreases n,
{
    if n > 0 {
        lemma_positions_facts(p, n - 1);
        let prev = positions(p, n - 1);
        if p[n - 1] {
            let cur = positions(p, n);
            assert(cur == prev.push((n - 1) as u8));
            assert forall|i: int| 0 <= i < n && #[trigger] p[i] implies exists|t: int|
                0 <= t < cur.len() && cur[t] == i by {
                if i == n - 1 {
                    assert(cur[prev.len() as int] == i);
                } else {
                    let t = choose|t: int| 0 <= t < prev.len() && prev[t] == i;
                    assert(cur[t] == i);
                }
            }
        } else {
            assert(positions(p, n) == prev);
            assert forall|i: int| 0 <= i < n && #[trigger] p[i] implies exists|t: int|
                0 <= t < positions(p, n).len() && positions(p, n)[t] == i by {
                assert(i < n - 1);
            }
        }
    }
}

proof fn lemma_all_positions_split(h: Hint, k: int, m: int)
    requires
        0 <= k < m <= K,
    ensures
        all_positions(h, k + 1).len() <= all_positions(h, m).len(),
        all_positions(h, m).subrange(
            all_positions(h, k).len() as int,
            all_positions(h, k + 1).len() as int,
        ) == positions(h[k]@, 256),
        all_positions(h, m).subrange(0, all_positions(h, k + 1).len() as int) == all_positions(h, k + 1),
    decreases m,
{
    if m == k + 1 {
        assert(all_positions(h, m).subrange(0, all_positions(h, k + 1).len() as int) =~= all_positions(h, k + 1));
        assert(all_positions(h, m).subrange(
            all_positions(h, k).len() as int,
            all_positions(h, k + 1).len() as int,
        ) =~= positions(h[k]@, 256));
    } else {
        lemma_all_positions_split(h, k, m - 1);
        let prev = all_positions(h, m - 1);
        assert(all_positions(h, m) == prev + positions(h[m - 1]@, 256));
        assert(all_positions(h, m).subrange(0, prev.len() as int) =~= prev);
        assert(all_positions(h, m).subrange(0, all_positions(h, k + 1).len() as int) =~= all_positions(h, k + 1));
        assert(all_positions(h, m).subrange(
            all_positions(h, k).len() as int,
            all_positions(h, k + 1).len() as int,
        ) =~= prev.subrange(all_positions(h, k).len() as int, all_positions(h, k + 1).len() as int));
    }
}

proof fn lemma_hint_entry(h: Hint, b: Seq<u8>, k: int, j: int)
    requires
        ones(h) <= OMEGA,
        b.len() == POLYVECH_PACKED_SIZE,
        forall|n: int|
            0 <= n < OMEGA ==> #[trigger] b[n] == if n < ones(h) {
                all_positions(h, K as int)[n]
            } else {
                0u8
            },
        forall|m: int| 0 <= m < K ==> #[trigger] b[OMEGA + m] as int == all_positions(h, m + 1).len(),
        0 <= k < K,
        hint_end(b, k - 1) <= j < hint_end(b, k),
    ensures
        hint_end(b, k - 1) == all_positions(h, k).len(),
        hint_end(b, k) == all_positions(h, k + 1).len(),
        b[j] == positions(h[k]@, 256)[j - all_positions(h, k).len()],
{
    if k > 0 {
        assert(b[OMEGA + (k - 1)] as int == all_positions(h, k).len());
    }
    assert(b[OMEGA + k] as int == all_positions(h, k + 1).len());
    lemma_all_positions_split(h, k, K as int);
    lemma_all_positions_len(h, k + 1, K as int);
    let all = all_positions(h, K as int);
    assert(all.subrange(all_positions(h, k).len() as int, all_positions(h, k + 1).len() as int)[j
        - all_positions(h, k).len()] == all[j]);
}

/// Decoding the encoding of a hint with at most `OMEGA` set bits succeeds
/// and gives the hint back.
#[verifier::spinoff_prover]
pub proof fn lemma_hint_round_trip(h: Hint, b: Seq<u8>)
    requires
        ones(h) <= OMEGA,
        b.len() == POLYVECH_PACKED_SIZE,
        forall|n: int|
            0 <= n < OMEGA ==> #[trigger] b[n] == if n < ones(h) {
                all_positions(h, K as int)[n]
            } else {
                0u8
            },
        forall|m: int| 0 <= m < K ==> #[trigger] b[OMEGA + m] as int == all_positions(h, m + 1).len(),
    ensures
        hint_well_formed(b),
        forall|k: int, i: int| 0 <= k < K && 0 <= i < 256 ==> #[trigger] hint_listed(b, k, i) == h[k][i],
{
    assert forall|k: int| 0 <= k < K implies #[trigger] count_ok(b, k) by {
        lemma_count_ok(h, b, k);
    }
    assert forall|j: int| #[trigger] padding_zero(b, j) by {
        assert(b[OMEGA + (K - 1)] as int == all_positions(h, K as int).len());
    }
    assert forall|k: int| 0 <= k < K implies hint_end(b, k - 1) == all_positions(h, k).len()
        && #[trigger] hint_end(b, k) == all_positions(h, k + 1).len() by {
        if k > 0 {
            assert(b[OMEGA + (k - 1)] as int == all_positions(h, k).len());
        }
        assert(b[OMEGA + k] as int == all_positions(h, k + 1).len());
    }
    assert forall|k: int, j: int| 0 <= k < K implies #[trigger] ascending_at(b, k, j) by {
        if hint_end(b, k - 1) <= j && j + 1 < hint_end(b, k) {
            lemma_positions_facts(h[k]@, 256);
            let base = all_positions(h, k).len() as int;
            lemma_hint_entry(h, b, k, j);
            lemma_hint_entry(h, b, k, j + 1);
            assert(positions(h[k]@, 256)[j - base] < positions(h[k]@, 256)[j + 1 - base]);
        }
    }
    assert forall|k: int, i: int| 0 <= k < K && 0 <= i < 256 implies #[trigger] hint_listed(b, k, i) == h[k][i] by {
        reveal(hint_listed);
        lemma_positions_facts(h[k]@, 256);
        let base = all_positions(h, k).len() as int;
        let ps = positions(h[k]@, 256);
        lemma_all_positions_split(h, k, K as int);
        assert(hint_end(b, k) - hint_end(b, k - 1) == ps.len()) by {
            if k > 0 {
                assert(b[OMEGA + (k - 1)] as int == all_positions(h, k).len());
            }
            assert(b[OMEGA + k] as int == all_positions(h, k + 1).len());
            assert(all_positions(h, k + 1) == all_positions(h, k) + ps);
        }
        if h[k][i] {
            assert(h[k]@[i]);
            let t = choose|t: int| 0 <= t < ps.len() && ps[t] == i;
            lemma_hint_entry(h, b, k, base + t);
            assert(b[base + t] == ps[t]);
            assert(hint_end(b, k - 1) <= base + t < hint_end(b, k));
        }
        if hint_listed(b, k, i) {
            let j = choose|j: int| hint_end(b, k - 1) <= j < hint_end(b, k) && #[trigger] b[j] == i;
            lemma_hint_entry(h, b, k, j);
            assert(b[j] == ps[j - base]);
            assert(h[k]@[ps[j - base] as int]);
        }
    }
}

} // verus!
