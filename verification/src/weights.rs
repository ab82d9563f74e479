//! Size weights of the children of a split.
//!
//! A split divides its space among its children in proportion to integer
//! weights that always add up to [`WEIGHT_TOTAL`]. Arbitrary ratios are brought
//! to that form by cumulative rounding: the first `k` children together get
//! the rounded-down share that the first `k` ratios have of the whole, and each
//! child gets the difference between two consecutive such shares.

use vstd::arithmetic::div_mod::{lemma_div_is_ordered, lemma_div_multiples_vanish};
use vstd::arithmetic::mul::{lemma_mul_inequality, lemma_mul_is_commutative};
use vstd::prelude::*;

verus! {

/// The sum of the weights of every split.
pub const WEIGHT_TOTAL: u32 = 1_000_000;

/// The sum of the first `k` entries of `s` (of all of them beyond its length).
pub open spec fn prefix_sum(s: Seq<u32>, k: nat) -> nat
    decreases k,
{
    if k == 0 {
        0
    } else if k > s.len() {
        prefix_sum(s, s.len())
    } else {
        prefix_sum(s, (k - 1) as nat) + s[k - 1] as nat
    }
}

/// The sum of all entries of `s`.
pub open spec fn total(s: Seq<u32>) -> nat {
    prefix_sum(s, s.len())
}

/// What the first `k` ratios count for: their sum, or `k` where all ratios are
/// zero and the space is shared equally.
pub open spec fn numerator(s: Seq<u32>, k: nat) -> nat {
    if total(s) == 0 {
        k
    } else {
        prefix_sum(s, k)
    }
}

/// What all ratios together count for.
pub open spec fn denominator(s: Seq<u32>) -> nat {
    numerator(s, s.len())
}

/// The part of [`WEIGHT_TOTAL`] that goes to the first `k` children together.
pub open spec fn cumulative_share(s: Seq<u32>, k: nat) -> nat {
    if denominator(s) == 0 {
        0
    } else {
        (numerator(s, k) * WEIGHT_TOTAL as nat) / denominator(s)
    }
}

/// The weights that the ratios `s` stand for.
pub open spec fn normalized(s: Seq<u32>) -> Seq<u32> {
    Seq::new(
        s.len(),
        |k: int| (cumulative_share(s, (k + 1) as nat) - cumulative_share(s, k as nat)) as u32,
    )
}

/// Prefix sums grow with the prefix and stay below `k` times the largest entry.
pub proof fn lemma_prefix_sum_monotone(s: Seq<u32>, j: nat, k: nat)
    requires
        j <= k <= s.len(),
    ensures
        prefix_sum(s, j) <= prefix_sum(s, k),
        prefix_sum(s, k) <= k * u32::MAX,
    decreases k,
{
    if k > 0 {
        if j < k {
            lemma_prefix_sum_monotone(s, j, (k - 1) as nat);
        } else {
            lemma_prefix_sum_monotone(s, (k - 1) as nat, (k - 1) as nat);
        }
        assert(k * u32::MAX == (k - 1) * u32::MAX + u32::MAX) by (nonlinear_arith);
    }
}

/// The cumulative shares start at zero, grow with the prefix, and reach
/// [`WEIGHT_TOTAL`] at the full length.
pub proof fn lemma_cumulative_share_monotone(s: Seq<u32>, j: nat, k: nat)
    requires
        j <= k <= s.len(),
    ensures
        cumulative_share(s, 0) == 0,
        cumulative_share(s, j) <= cumulative_share(s, k) <= WEIGHT_TOTAL,
        s.len() > 0 ==> cumulative_share(s, s.len()) == WEIGHT_TOTAL,
{
    let d = denominator(s) as int;
    let t = WEIGHT_TOTAL as int;
    if s.len() > 0 {
        assert(d > 0);
        lemma_prefix_sum_monotone(s, j, k);
        lemma_prefix_sum_monotone(s, k, s.len());
        let nj = numerator(s, j) as int;
        let nk = numerator(s, k) as int;
        assert(nj <= nk <= d);
        lemma_mul_inequality(nj, nk, t);
        lemma_mul_inequality(nk, d, t);
        lemma_div_is_ordered(nj * t, nk * t, d);
        lemma_div_is_ordered(nk * t, d * t, d);
        lemma_div_multiples_vanish(t, d);
        assert(0 * t == 0);
        assert(0int / d == 0) by (nonlinear_arith)
            requires
                d > 0,
        ;
    }
}

/// The first `k` normalized weights add up to the cumulative share of the
/// first `k` ratios.
pub proof fn lemma_normalized_prefix(s: Seq<u32>, k: nat)
    requires
        k <= s.len(),
    ensures
        prefix_sum(normalized(s), k) == cumulative_share(s, k),
    decreases k,
{
    lemma_cumulative_share_monotone(s, 0, 0);
    if k > 0 {
        lemma_normalized_prefix(s, (k - 1) as nat);
        lemma_cumulative_share_monotone(s, (k - 1) as nat, k);
    }
}

/// Normalized weights add up to [`WEIGHT_TOTAL`], whatever the ratios were.
pub proof fn lemma_normalized_total(s: Seq<u32>)
    requires
        s.len() > 0,
    ensures
        normalized(s).len() == s.len(),
        total(normalized(s)) == WEIGHT_TOTAL,
{
    lemma_normalized_prefix(s, s.len());
    lemma_cumulative_share_monotone(s, 0, s.len());
}

/// Weights that already add up to [`WEIGHT_TOTAL`] are left as they are.
pub proof fn lemma_normalized_fixed_point(s: Seq<u32>)
    requires
        total(s) == WEIGHT_TOTAL,
    ensures
        normalized(s) == s,
{
    let t = WEIGHT_TOTAL as int;
    assert forall|k: int| 0 <= k < s.len() implies normalized(s)[k] == s[k] by {
        let a = prefix_sum(s, k as nat) as int;
        let b = prefix_sum(s, (k + 1) as nat) as int;
        lemma_div_multiples_vanish(a, t);
        lemma_div_multiples_vanish(b, t);
        lemma_mul_is_commutative(a, t);
        lemma_mul_is_commutative(b, t);
        assert(cumulative_share(s, k as nat) == a);
        assert(cumulative_share(s, (k + 1) as nat) == b);
    }
    assert(normalized(s) =~= s);
}

/// The sum of `weights`.
pub fn sum_of(weights: &Vec<u32>) -> (sum: u128)
    ensures
        sum == total(weights@),
{
    let n: usize = weights.len();
    let mut sum: u128 = 0;
    let mut i: usize = 0;
    while i < n
        invariant
            n == weights.len(),
            i <= n,
            sum == prefix_sum(weights@, i as nat),
            sum <= i * u32::MAX,
        decreases n - i,
    {
        proof {
            assert((i + 1) * u32::MAX == i * u32::MAX + u32::MAX) by (nonlinear_arith);
        }
        sum = sum + weights[i] as u128;
        i = i + 1;
    }
    sum
}

/// Brings `ratios` to weights that add up to [`WEIGHT_TOTAL`].
///
/// Ratios that are all zero stand for equal shares. The result has one weight
/// for each ratio, in the same order.
pub fn normalize(ratios: &Vec<u32>) -> (out: Vec<u32>)
    ensures
        out@ == normalized(ratios@),
        ratios.len() > 0 ==> total(out@) == WEIGHT_TOTAL,
{
    let n: usize = ratios.len();
    let sum: u128 = sum_of(ratios);
    let equal: bool = sum == 0;
    let denom: u128 = if equal { n as u128 } else { sum };
    let mut out: Vec<u32> = Vec::new();
    let mut acc: u128 = 0;
    let mut given: u128 = 0;
    let mut k: usize = 0;
    while k < n
        invariant
            n == ratios.len(),
            k <= n,
            sum == total(ratios@),
            equal == (sum == 0),
            denom == denominator(ratios@),
            acc == numerator(ratios@, k as nat),
            given == cumulative_share(ratios@, k as nat),
            out.len() == k,
            forall|j: int| 0 <= j < k ==> out[j] == normalized(ratios@)[j],
        decreases n - k,
    {
        proof {
            lemma_prefix_sum_monotone(ratios@, (k + 1) as nat, n as nat);
            lemma_prefix_sum_monotone(ratios@, k as nat, (k + 1) as nat);
            lemma_cumulative_share_monotone(ratios@, k as nat, (k + 1) as nat);
            assert(n * u32::MAX <= 0x1_0000_0000_0000_0000 * 0x1_0000_0000) by (nonlinear_arith)
                requires
                    n <= 0xffff_ffff_ffff_ffff,
            ;
        }
        let next: u128 = if equal { acc + 1 } else { acc + ratios[k] as u128 };
        assert(next == numerator(ratios@, (k + 1) as nat));
        assert(next <= 0x1_0000_0000_0000_0000 * 0x1_0000_0000);
        assert(next * WEIGHT_TOTAL <= 0x1_0000_0000_0000_0000 * 0x1_0000_0000 * 1_000_000)
            by (nonlinear_arith)
            requires
                next <= 0x1_0000_0000_0000_0000 * 0x1_0000_0000,
                WEIGHT_TOTAL == 1_000_000,
        ;
        let share: u128 = next * (WEIGHT_TOTAL as u128) / denom;
        assert(share == cumulative_share(ratios@, (k + 1) as nat));
        let weight: u32 = (share - given) as u32;
        out.push(weight);
        acc = next;
        given = share;
        k = k + 1;
    }
    proof {
        assert(out@ =~= normalized(ratios@));
        if n > 0 {
            lemma_normalized_total(ratios@);
        }
    }
    out
}

} // verus!
