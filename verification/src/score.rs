//! BM25-style relevance arithmetic in fixed point.
//!
//! All quantities are integers scaled by `SCALE` (millionths), so every
//! score is finite and deterministic by construction. The ranking constants
//! are the usual BM25 choices: `k1 = 1.5` (`K1_SCALED`), `b = 0.75`
//! (`B_SCALED`), and an epsilon of one millionth added to the denominator.
//! The inverse document frequency uses the smoothed form
//! `ln((n - df + 0.5) / (df + 0.5) + 1)`, which simplifies to
//! `ln((2n + 2) / (2df + 1))`; the logarithm is computed to fixed point by
//! halving the argument down to `[1, 2)` and then a short odd-power series.

use vstd::arithmetic::div_mod::{
    lemma_div_is_ordered, lemma_div_multiples_vanish, lemma_fundamental_div_mod,
    lemma_hoist_over_denominator, lemma_multiply_divide_lt,
};
use vstd::arithmetic::power2::{lemma2_to64, lemma_pow2_adds, pow2};
use vstd::prelude::*;

verus! {

/// The fixed-point scale: all scores are in millionths.
pub const SCALE: u64 = 1_000_000;

/// `k1 = 1.5`, scaled.
pub const K1_SCALED: u64 = 1_500_000;

/// `k1 + 1 = 2.5`, scaled.
pub const K1_PLUS_1_SCALED: u64 = 2_500_000;

/// `b = 0.75`, scaled.
pub const B_SCALED: u64 = 750_000;

/// `1 - b = 0.25`, scaled.
pub const ONE_MINUS_B_SCALED: u64 = 250_000;

/// `ln 2`, scaled.
pub const LN2_SCALED: u64 = 693_147;

/// Fixed-point natural logarithm of `num / den`, in millionths.
///
/// Defined by halving: `ln x = ln 2 + ln (x / 2)` while `x >= 2`; on the
/// remaining `x` in `[1, 2)`, by the odd-power series in
/// `z = (x - 1) / (x + 1)`: `ln x ~ 2 (z + z^3 / 3 + z^5 / 5)`.
pub open spec fn spec_ln_fixed(num: int, den: int) -> int
    recommends
        1 <= den <= num,
    decreases num - den
        when 1 <= den <= num
{
    if num >= 2 * den {
        LN2_SCALED + spec_ln_fixed(num, 2 * den)
    } else {
        let z = (1_000_000 * (num - den)) / (num + den);
        2 * (z + (z * z * z) / 3_000_000_000_000 + (z * z * z * z * z)
            / 5_000_000_000_000_000_000_000_000)
    }
}

/// The scaled ratio `SCALE * dl * n / sum` (document length over average
/// document length), with an empty corpus reading as ratio zero.
pub open spec fn spec_ratio_scaled(dl: int, n: int, sum: int) -> int {
    (1_000_000 * dl * n) / (if sum == 0 { 1int } else { sum })
}

/// The BM25 length normalization `1 - b + b * dl / avgdl`, scaled.
pub open spec fn spec_len_norm(dl: int, n: int, sum: int) -> int {
    ONE_MINUS_B_SCALED + (B_SCALED * spec_ratio_scaled(dl, n, sum)) / 1_000_000
}

/// The smoothed inverse document frequency, scaled.
pub open spec fn spec_idf(n: int, df: int) -> int {
    spec_ln_fixed(2 * n + 2, 2 * df + 1)
}

/// One query term's scaled score contribution for a document with term
/// frequency `tf`, document frequency `df`, corpus size `n`, total token
/// count `sum`, and document token length `dl`. A term the document does
/// not contain contributes nothing.
pub open spec fn spec_contribution(tf: int, df: int, n: int, sum: int, dl: int) -> int {
    if tf <= 0 {
        0
    } else {
        let denom = 1_000_000 * tf + (K1_SCALED * spec_len_norm(dl, n, sum)) / 1_000_000 + 1;
        (spec_idf(n, df) * tf * K1_PLUS_1_SCALED) / denom
    }
}

/// Saturating accumulation of a nonnegative contribution into a score.
pub open spec fn sat_add_u64(a: u64, b: int) -> u64
    recommends
        b >= 0,
{
    if a + b > u64::MAX {
        u64::MAX
    } else {
        (a + b) as u64
    }
}

pub(crate) fn ln_fixed(num: u128, den: u128) -> (r: u64)
    requires
        1 <= den <= num,
        num <= 0x20000000000000000,
    ensures
        r as int == spec_ln_fixed(num as int, den as int),
        r <= 50_000_000,
{
    let mut d: u128 = den;
    let mut acc: u64 = 0;
    let ghost mut k: nat = 0;
    proof {
        assert(pow2(0) == 1 && pow2(1) == 2 && pow2(65) == 0x20000000000000000) by {
            lemma2_to64();
            lemma_pow2_adds(64, 1);
        }
    }
    while num >= 2 * d
        invariant
            1 <= d <= num <= 0x20000000000000000,
            spec_ln_fixed(num as int, den as int) == acc + spec_ln_fixed(num as int, d as int),
            pow2(k) <= d,
            acc == k * (LN2_SCALED as int),
            k <= 65,
        decreases num - d,
    {
        proof {
            assert(pow2(65) == 0x20000000000000000) by {
                lemma2_to64();
                lemma_pow2_adds(64, 1);
            }
            assert(pow2((k + 1) as nat) == 2 * pow2(k)) by {
                lemma_pow2_adds(k, 1);
                lemma2_to64();
            }
            assert(acc <= 65 * 693_147) by (nonlinear_arith)
                requires
                    acc == k * 693_147,
                    k <= 65,
            ;
            // Were k to pass 65, the doubled divisor would already exceed num.
            if k == 65 {
                assert(d >= pow2(65));
                assert(2 * d <= num);
                assert(false);
            }
        }
        d = 2 * d;
        acc = acc + LN2_SCALED;
        proof {
            k = k + 1;
        }
    }
    proof {
        assert(acc <= 65 * 693_147) by (nonlinear_arith)
            requires
                acc == k * 693_147,
                k <= 65,
        ;
    }
    let zn: u128 = 1_000_000 * (num - d);
    let zd: u128 = num + d;
    let z: u128 = zn / zd;
    proof {
        assert(zn < 1_000_000 * zd) by (nonlinear_arith)
            requires
                num - d < zd,
                zd > 0,
                zn == 1_000_000 * (num - d),
        ;
        lemma_multiply_divide_lt(zn as int, zd as int, 1_000_000);
        assert(z < 1_000_000);
        assert(z * z < 0x10000000000 && z * z * z < 0x1000000000000000 && z * z * z * z
            < 0x100000000000000000000 && z * z * z * z * z < 0x10000000000000000000000000)
            by (nonlinear_arith)
            requires
                z < 1_000_000,
        ;
        assert((z * z * z) / 3_000_000_000_000 <= 400_000) by {
            assert(z * z * z < 3_000_000_000_000 * 400_001) by (nonlinear_arith)
                requires
                    z < 1_000_000,
            ;
            lemma_multiply_divide_lt((z * z * z) as int, 3_000_000_000_000, 400_001);
        }
        assert((z * z * z * z * z) / 5_000_000_000_000_000_000_000_000 <= 200_000) by {
            assert(z * z * z * z * z < 5_000_000_000_000_000_000_000_000 * 200_001)
                by (nonlinear_arith)
                requires
                    z < 1_000_000,
            ;
            lemma_multiply_divide_lt(
                (z * z * z * z * z) as int,
                5_000_000_000_000_000_000_000_000,
                200_001,
            );
        }
    }
    let z3: u128 = (z * z * z) / 3_000_000_000_000;
    let z5: u128 = (z * z * z * z * z) / 5_000_000_000_000_000_000_000_000;
    let frac: u64 = (2 * (z + z3 + z5)) as u64;
    acc + frac
}

pub(crate) fn ratio_scaled(dl: u128, n: u128, sum: u128) -> (r: u128)
    requires
        dl <= sum,
        n < 0x10000000000000000,
        sum < 0x10000000000000000,
    ensures
        r as int == spec_ratio_scaled(dl as int, n as int, sum as int),
        r <= 1_000_000 * (n + 1),
{
    let a: u128 = if sum == 0 {
        1
    } else {
        sum
    };
    proof {
        assert(dl * n <= 0x100000000000000000000000000000000 - 1) by (nonlinear_arith)
            requires
                dl < 0x10000000000000000,
                n < 0x10000000000000000,
        ;
    }
    let p: u128 = dl * n;
    let q: u128 = p / a;
    let rem: u128 = p % a;
    proof {
        assert(p <= a * n) by (nonlinear_arith)
            requires
                dl <= a,
                n >= 0,
                p == dl * n,
        ;
        lemma_div_is_ordered(p as int, (a * n) as int, a as int);
        lemma_div_multiples_vanish(n as int, a as int);
        assert((a * n) as int == (a as int) * (n as int) && (a as int) * (n as int) == (
        n as int) * (a as int)) by (nonlinear_arith);
        assert(q <= n);
    }
    let r: u128 = 1_000_000 * q + (1_000_000 * rem) / a;
    proof {
        assert(1_000_000 * (rem as int) <= 1_000_000 * ((a - 1) as int)) by (nonlinear_arith)
            requires
                rem < a,
        ;
        lemma_div_is_ordered(1_000_000 * (rem as int), 1_000_000 * ((a - 1) as int), a as int);
        assert(1_000_000 * ((a - 1) as int) < (a as int) * 1_000_000) by (nonlinear_arith)
            requires
                a >= 1,
        ;
        lemma_multiply_divide_lt(1_000_000 * ((a - 1) as int), a as int, 1_000_000);
        assert((1_000_000 * ((a - 1) as int)) / (a as int) < 1_000_000);
        assert((1_000_000 * (rem as int)) / (a as int) < 1_000_000);
        // r equals the flat quotient SCALE * dl * n / a.
        lemma_fundamental_div_mod(p as int, a as int);
        lemma_hoist_over_denominator(1_000_000 * (rem as int), 1_000_000 * (q as int), a as nat);
        assert(1_000_000 * (rem as int) + (1_000_000 * (q as int)) * (a as int) == 1_000_000 * (
        p as int)) by (nonlinear_arith)
            requires
                p as int == (a as int) * (q as int) + (rem as int),
        ;
        assert(1_000_000 * (dl as int) * (n as int) == 1_000_000 * (p as int)) by (nonlinear_arith)
            requires
                p == dl * n,
        ;
        assert(a as int == (if sum == 0 {
            1int
        } else {
            sum as int
        }));
    }
    r
}

/// One query term's scaled BM25 contribution; matches `spec_contribution`.
pub(crate) fn contribution(tf: u128, df: u128, n: u128, sum: u128, dl: u128) -> (r: u128)
    requires
        1 <= tf < 0x10000000000000000,
        1 <= df <= n,
        n < 0x10000000000000000,
        sum < 0x10000000000000000,
        dl <= sum,
    ensures
        r as int == spec_contribution(tf as int, df as int, n as int, sum as int, dl as int),
{
    let idf: u64 = ln_fixed(2 * n + 2, 2 * df + 1);
    let ratio: u128 = ratio_scaled(dl, n, sum);
    proof {
        assert(750_000 * ratio <= 750_000 * (1_000_000 * (n + 1))) by (nonlinear_arith)
            requires
                ratio <= 1_000_000 * (n + 1),
        ;
    }
    let lnorm: u128 = 250_000 + (750_000 * ratio) / 1_000_000;
    proof {
        let cap = 750_000_000_000 * ((n + 1) as int);
        assert(750_000 * (ratio as int) <= cap) by (nonlinear_arith)
            requires
                ratio as int <= 1_000_000 * ((n as int) + 1),
                cap == 750_000_000_000 * ((n + 1) as int),
                (n + 1) as int == (n as int) + 1,
        ;
        lemma_div_is_ordered(750_000 * (ratio as int), cap, 1_000_000);
        assert(cap / 1_000_000 == 750_000 * ((n + 1) as int)) by {
            lemma_div_multiples_vanish(750_000 * ((n + 1) as int), 1_000_000);
            assert(1_000_000 * (750_000 * ((n + 1) as int)) == cap) by (nonlinear_arith)
                requires
                    cap == 750_000_000_000 * ((n + 1) as int),
            ;
        }
        assert(lnorm <= 250_000 + 750_000 * ((n + 1) as int));
    }
    let denom: u128 = 1_000_000 * tf + (1_500_000 * lnorm) / 1_000_000 + 1;
    proof {
        assert((idf as u128) * tf < 0x40000000000000000000000) by (nonlinear_arith)
            requires
                idf <= 50_000_000,
                tf < 0x10000000000000000,
        ;
        assert((idf as u128) * tf * 2_500_000 < 0x100000000000000000000000000000000 - 1)
            by (nonlinear_arith)
            requires
                (idf as u128) * tf < 0x40000000000000000000000,
        ;
    }
    let numer: u128 = (idf as u128) * tf * 2_500_000;
    numer / denom
}

/// Saturating add of a nonnegative scaled contribution into a `u64` score.
pub(crate) fn sat_accumulate(score: u64, c: u128) -> (r: u64)
    ensures
        r == sat_add_u64(score, c as int),
{
    let room: u64 = u64::MAX - score;
    if c > room as u128 {
        u64::MAX
    } else {
        score + (c as u64)
    }
}

} // verus!
