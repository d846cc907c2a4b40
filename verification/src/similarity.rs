//! Fixed-point cosine similarity between magnitude spectra.
//!
//! A similarity score is an integer in units of `1 / SIM_SCALE`: a score
//! of `SIM_SCALE` stands for a cosine similarity of exactly 1. The score
//! of two spectra is computed over the overlapping prefix of both, as
//! `dot(a, b) * SIM_SCALE / floor_sqrt(dot(a, a) * dot(b, b))`, with the
//! degenerate zero-norm case defined as 0 rather than an error.

use vstd::prelude::*;
use vstd::arithmetic::div_mod::lemma_div_by_multiple;
use crate::{MAG_MAX, MAX_SPECTRUM_LEN, SIM_SCALE};

verus! {

/// A magnitude spectrum the classifier can score: bounded length and every
/// fixed-point magnitude within range, so that dot products, norm products
/// and scaled quotients all fit the integer types they are computed in.
pub open spec fn bounded_spectrum(s: Seq<u32>) -> bool {
    &&& s.len() <= MAX_SPECTRUM_LEN
    &&& forall|i: int| 0 <= i < s.len() ==> s[i] <= MAG_MAX
}

/// Sum of `a[i] * b[i]` over the first `n` entries.
pub open spec fn dot_prefix(a: Seq<u32>, b: Seq<u32>, n: nat) -> int
    decreases n,
{
    if n == 0 {
        0
    } else {
        dot_prefix(a, b, (n - 1) as nat) + a[n - 1] * b[n - 1]
    }
}

/// Length of the overlapping prefix two spectra are scored over.
pub open spec fn overlap_len(a: Seq<u32>, b: Seq<u32>) -> nat {
    if a.len() <= b.len() {
        a.len()
    } else {
        b.len()
    }
}

/// `r` is the integer square root of `n`, rounded down.
pub open spec fn is_floor_sqrt(n: int, r: int) -> bool {
    &&& 0 <= r
    &&& r * r <= n
    &&& n < (r + 1) * (r + 1)
}

/// The integer square root of `n`, rounded down (meaningful for `n >= 0`).
pub open spec fn floor_sqrt(n: int) -> int {
    choose|r: int| is_floor_sqrt(n, r)
}

/// Every non-negative integer has a floor square root.
pub proof fn lemma_floor_sqrt_exists(n: int)
    requires
        0 <= n,
    ensures
        is_floor_sqrt(n, floor_sqrt(n)),
    decreases n,
{
    if n == 0 {
        assert(is_floor_sqrt(0, 0));
    } else {
        lemma_floor_sqrt_exists(n - 1);
        let r = floor_sqrt(n - 1);
        if (r + 1) * (r + 1) <= n {
            assert(n - 1 < (r + 1) * (r + 1));
            assert(n == (r + 1) * (r + 1));
            assert((r + 1 + 1) * (r + 1 + 1) > n) by (nonlinear_arith)
                requires 0 <= r, n == (r + 1) * (r + 1);
            assert(is_floor_sqrt(n, r + 1));
        } else {
            assert(is_floor_sqrt(n, r));
        }
    }
}

/// The floor square root is unique.
pub proof fn lemma_floor_sqrt_unique(n: int, r1: int, r2: int)
    requires
        is_floor_sqrt(n, r1),
        is_floor_sqrt(n, r2),
    ensures
        r1 == r2,
{
    assert(r1 == r2) by (nonlinear_arith)
        requires
            0 <= r1,
            0 <= r2,
            r1 * r1 <= n < (r1 + 1) * (r1 + 1),
            r2 * r2 <= n < (r2 + 1) * (r2 + 1),
    ;
}

/// The similarity score of two spectra, in units of `1 / SIM_SCALE`:
/// the fixed-point counterpart of cosine similarity over the overlapping
/// prefix, with zero-norm inputs scoring 0.
pub open spec fn spec_similarity(a: Seq<u32>, b: Seq<u32>) -> int {
    let m = overlap_len(a, b);
    let dot = dot_prefix(a, b, m);
    let norm_product = floor_sqrt(dot_prefix(a, a, m) * dot_prefix(b, b, m));
    if norm_product == 0 {
        0
    } else {
        dot * SIM_SCALE / norm_product
    }
}

/// Prefix sums of bounded products stay within `n * MAG_MAX * MAG_MAX`.
pub proof fn lemma_dot_prefix_bounds(a: Seq<u32>, b: Seq<u32>, n: nat)
    requires
        n <= a.len(),
        n <= b.len(),
        forall|i: int| 0 <= i < n ==> a[i] <= MAG_MAX,
        forall|i: int| 0 <= i < n ==> b[i] <= MAG_MAX,
    ensures
        0 <= dot_prefix(a, b, n) <= n * (MAG_MAX * MAG_MAX),
    decreases n,
{
    if n == 0 {
    } else {
        lemma_dot_prefix_bounds(a, b, (n - 1) as nat);
        assert(0 <= a[n - 1] * b[n - 1] <= MAG_MAX * MAG_MAX) by (nonlinear_arith)
            requires 0 <= a[n - 1] <= MAG_MAX, 0 <= b[n - 1] <= MAG_MAX;
        assert((n - 1) as nat * (MAG_MAX * MAG_MAX) + MAG_MAX * MAG_MAX
            == n * (MAG_MAX * MAG_MAX)) by (nonlinear_arith)
            requires n >= 1;
    }
}

/// A spectrum with a positive magnitude anywhere in its first `n` entries
/// has a positive dot product with itself over those entries.
pub proof fn lemma_dot_self_positive(a: Seq<u32>, n: nat, w: int)
    requires
        n <= a.len(),
        0 <= w < n,
        a[w] > 0,
    ensures
        dot_prefix(a, a, n) > 0,
    decreases n,
{
    lemma_dot_prefix_nonneg(a, a, n);
    if w == n - 1 {
        lemma_dot_prefix_nonneg(a, a, (n - 1) as nat);
        assert(a[w] * a[w] > 0) by (nonlinear_arith)
            requires a[w] > 0;
    } else {
        lemma_dot_self_positive(a, (n - 1) as nat, w);
        assert(a[n - 1] * a[n - 1] >= 0) by (nonlinear_arith);
    }
}

/// Dot products of spectra (whose entries are non-negative) are non-negative.
pub proof fn lemma_dot_prefix_nonneg(a: Seq<u32>, b: Seq<u32>, n: nat)
    ensures
        dot_prefix(a, b, n) >= 0,
    decreases n,
{
    if n > 0 {
        lemma_dot_prefix_nonneg(a, b, (n - 1) as nat);
        assert(a[n - 1] * b[n - 1] >= 0) by (nonlinear_arith);
    }
}

/// A non-zero spectrum scores exactly `SIM_SCALE` — a cosine similarity
/// of 1 — against itself: self-similarity is perfect, with no rounding.
pub proof fn lemma_self_similarity(a: Seq<u32>)
    requires
        bounded_spectrum(a),
        exists|i: int| 0 <= i < a.len() && a[i] > 0,
    ensures
        spec_similarity(a, a) == SIM_SCALE,
{
    let m = overlap_len(a, a);
    let naa = dot_prefix(a, a, m);
    let w = choose|i: int| 0 <= i < a.len() && a[i] > 0;
    lemma_dot_self_positive(a, m, w);
    lemma_floor_sqrt_exists(naa * naa);
    assert(is_floor_sqrt(naa * naa, naa)) by (nonlinear_arith)
        requires naa > 0;
    lemma_floor_sqrt_unique(naa * naa, floor_sqrt(naa * naa), naa);
    lemma_div_by_multiple(SIM_SCALE as int, naa);
    assert(naa * SIM_SCALE == SIM_SCALE * naa) by (nonlinear_arith);
}

/// Computes the similarity score of two spectra: the fixed-point cosine
/// similarity over their overlapping prefix, 0 when either norm is zero.
pub fn calculate_similarity(a: &Vec<u32>, b: &Vec<u32>) -> (r: u128)
    requires
        bounded_spectrum(a@),
        bounded_spectrum(b@),
    ensures
        r == spec_similarity(a@, b@),
{
    let len = if a.len() <= b.len() {
        a.len()
    } else {
        b.len()
    };
    let mut dot: u64 = 0;
    let mut norm_a: u64 = 0;
    let mut norm_b: u64 = 0;
    let mut i: usize = 0;
    while i < len
        invariant
            i <= len,
            len == overlap_len(a@, b@),
            len <= a@.len(),
            len <= b@.len(),
            bounded_spectrum(a@),
            bounded_spectrum(b@),
            dot == dot_prefix(a@, b@, i as nat),
            norm_a == dot_prefix(a@, a@, i as nat),
            norm_b == dot_prefix(b@, b@, i as nat),
        decreases len - i,
    {
        proof {
            lemma_dot_prefix_bounds(a@, b@, (i + 1) as nat);
            lemma_dot_prefix_bounds(a@, a@, (i + 1) as nat);
            lemma_dot_prefix_bounds(b@, b@, (i + 1) as nat);
            assert((i + 1) as nat * (MAG_MAX * MAG_MAX)
                <= MAX_SPECTRUM_LEN * (MAG_MAX * MAG_MAX)) by (nonlinear_arith)
                requires i + 1 <= MAX_SPECTRUM_LEN;
        }
        dot = dot + (a[i] as u64) * (b[i] as u64);
        norm_a = norm_a + (a[i] as u64) * (a[i] as u64);
        norm_b = norm_b + (b[i] as u64) * (b[i] as u64);
        i = i + 1;
    }
    proof {
        lemma_dot_prefix_bounds(a@, b@, len as nat);
        lemma_dot_prefix_bounds(a@, a@, len as nat);
        lemma_dot_prefix_bounds(b@, b@, len as nat);
        assert(len as nat * (MAG_MAX * MAG_MAX)
            <= MAX_SPECTRUM_LEN * (MAG_MAX * MAG_MAX)) by (nonlinear_arith)
            requires len <= MAX_SPECTRUM_LEN;
        assert((norm_a as int) * (norm_b as int) < 5192296858534827628530496329220096)
            by (nonlinear_arith)
            requires
                0 <= norm_a <= 72057456599040000,
                0 <= norm_b <= 72057456599040000,
        ;
        assert(1u128 << 112 == 5192296858534827628530496329220096) by (bit_vector);
    }
    let norm_product = isqrt((norm_a as u128) * (norm_b as u128));
    if norm_product == 0 {
        0
    } else {
        (dot as u128) * (SIM_SCALE as u128) / norm_product
    }
}

/// The integer square root of `n`, rounded down, by binary search.
pub fn isqrt(n: u128) -> (r: u128)
    requires
        n < (1u128 << 112),
    ensures
        is_floor_sqrt(n as int, r as int),
        r == floor_sqrt(n as int),
    {
    let mut lo: u128 = 0;
    let mut hi: u128 = 1u128 << 56;
    proof {
        assert(1u128 << 56 == 72057594037927936u128) by (bit_vector);
        assert(1u128 << 112 == 5192296858534827628530496329220096u128) by (bit_vector);
        assert((hi as int + 1) * (hi as int + 1) > n as int) by (nonlinear_arith)
            requires
                hi == 72057594037927936u128,
                n < 5192296858534827628530496329220096u128,
        ;
    }
    while lo < hi
        invariant
            lo <= hi,
            hi <= 72057594037927936u128,
            (lo as int) * (lo as int) <= n as int,
            n < 5192296858534827628530496329220096u128,
            (hi as int + 1) * (hi as int + 1) > n as int,
        decreases hi - lo,
    {
        let mid = lo + (hi - lo + 1) / 2;
        proof {
            assert(lo < mid <= hi);
            assert((mid as int) * (mid as int) <= 5192296858534827628530496329220096int)
                by (nonlinear_arith)
                requires 0 <= mid <= 72057594037927936u128;
        }
        if mid * mid <= n {
            lo = mid;
        } else {
            hi = mid - 1;
            proof {
                assert((hi as int + 1) * (hi as int + 1) > n as int);
            }
        }
    }
    proof {
        lemma_floor_sqrt_exists(n as int);
        lemma_floor_sqrt_unique(n as int, floor_sqrt(n as int), lo as int);
    }
    lo
}

} // verus!
