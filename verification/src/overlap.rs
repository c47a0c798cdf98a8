//! Overlaps between states and patterns, as exact integer dot products: the
//! overlap `m = (1 / N) sum_i s_i xi_i` is the returned sum divided by `N`.

use vstd::prelude::*;
use crate::dynamics::spin_dot;

verus! {

/// The shorter of two lengths: how far a zipped walk over both goes.
pub open spec fn common_len(a: Seq<i8>, b: Seq<i8>) -> int {
    if a.len() <= b.len() {
        a.len() as int
    } else {
        b.len() as int
    }
}

/// `sum_i state[i] * pattern[i]` over the positions that both have: the
/// overlap of the state with the pattern, times the number of neurons.
pub fn calculate_overlap(state: &[i8], pattern: &[i8]) -> (dot: i128)
    ensures
        dot == spin_dot(state@, pattern@, common_len(state@, pattern@)),
        -0x4_0000_0000_0000_0000_0000 <= dot <= 0x4_0000_0000_0000_0000_0000,
{
    let m = if state.len() <= pattern.len() {
        state.len()
    } else {
        pattern.len()
    };
    let mut dot: i128 = 0;
    let mut j: usize = 0;
    while j < m
        invariant
            m == common_len(state@, pattern@),
            j <= m,
            dot == spin_dot(state@, pattern@, j as int),
            -(j as int) * 0x4000 <= dot <= (j as int) * 0x4000,
        decreases m - j,
    {
        let a = state[j];
        let b = pattern[j];
        assert(-0x4000 <= a * b <= 0x4000) by (nonlinear_arith)
            requires
                -128 <= a <= 127,
                -128 <= b <= 127,
        ;
        dot = dot + (a as i128) * (b as i128);
        j = j + 1;
    }
    dot
}

/// `sum_{i < t < j} dot(p_i, p_t)`.
pub open spec fn row_pair_total(patterns: Seq<Vec<i8>>, i: int, j: int) -> int
    decreases j - i,
{
    if j <= i + 1 {
        0
    } else {
        row_pair_total(patterns, i, j - 1) + spin_dot(
            patterns[i]@,
            patterns[j - 1]@,
            common_len(patterns[i]@, patterns[j - 1]@),
        )
    }
}

/// `sum_{t < i < j, t < a} dot(p_t, p_i)` over all pairs with a first
/// member below `a`.
pub open spec fn pair_total(patterns: Seq<Vec<i8>>, a: int) -> int
    decreases a,
{
    if a <= 0 {
        0
    } else {
        pair_total(patterns, a - 1) + row_pair_total(patterns, a - 1, patterns.len() as int)
    }
}

/// The number of pairs `(t, i)` with `t < i < k` and `t < a`.
pub open spec fn pairs_before(k: int, a: int) -> int
    decreases a,
{
    if a <= 0 {
        0
    } else {
        pairs_before(k, a - 1) + (k - a)
    }
}

proof fn lemma_pairs_before(k: int, a: int)
    requires
        0 <= a <= k,
    ensures
        2 * pairs_before(k, a) == a * (2 * k - a - 1),
    decreases a,
{
    if a > 0 {
        lemma_pairs_before(k, a - 1);
        assert(pairs_before(k, a) == pairs_before(k, a - 1) + (k - a));
        assert((a - 1) * (2 * k - (a - 1) - 1) + 2 * (k - a) == a * (2 * k - a - 1)) by (nonlinear_arith);
        assert(2 * pairs_before(k, a - 1) == (a - 1) * (2 * k - (a - 1) - 1));
    } else {
        assert(a * (2 * k - a - 1) == 0) by (nonlinear_arith)
            requires
                a == 0,
        ;
    }
}

proof fn lemma_pairs_before_mono(k: int, a: int)
    requires
        0 <= a <= k,
    ensures
        0 <= pairs_before(k, a) <= pairs_before(k, k),
    decreases k - a,
{
    lemma_pairs_before_nonneg(k, a);
    if a < k {
        lemma_pairs_before_mono(k, a + 1);
        assert(pairs_before(k, a + 1) == pairs_before(k, a) + (k - (a + 1)));
    }
}

proof fn lemma_pairs_before_nonneg(k: int, a: int)
    requires
        0 <= a <= k,
    ensures
        0 <= pairs_before(k, a),
    decreases a,
{
    if a > 0 {
        lemma_pairs_before_nonneg(k, a - 1);
    }
}

/// The mean pairwise overlap of a set of patterns, as the sum of the dot
/// products over all pairs and the number of pairs; the mean overlap is the
/// sum divided by the pair count and by the length of the first pattern.
/// Fewer than two patterns have no pairs: `None` (the mean is then taken
/// to be 1).
pub fn calculate_pairwise_overlap(patterns: &[Vec<i8>]) -> (total: Option<(i128, i32)>)
    requires
        patterns@.len() * (patterns@.len() - 1) / 2 <= i32::MAX,
    ensures
        patterns@.len() <= 1 ==> total is None,
        patterns@.len() >= 2 ==> total == Some(
            (
                pair_total(patterns@, patterns@.len() as int) as i128,
                (patterns@.len() * (patterns@.len() - 1) / 2) as i32,
            ),
        ),
{
    let k = patterns.len();
    if k <= 1 {
        return None;
    }
    proof {
        lemma_pairs_before(k as int, k as int);
        assert(pairs_before(k as int, k as int) == k * (k - 1) / 2) by (nonlinear_arith)
            requires
                2 * pairs_before(k as int, k as int) == k * (2 * k - k - 1),
        ;
    }
    let mut total: i128 = 0;
    let mut pair_count: i32 = 0;
    let mut i: usize = 0;
    while i < k
        invariant
            k == patterns@.len(),
            k >= 2,
            pairs_before(k as int, k as int) == k * (k - 1) / 2,
            k * (k - 1) / 2 <= i32::MAX,
            i <= k,
            total == pair_total(patterns@, i as int),
            pair_count == pairs_before(k as int, i as int),
            -(pair_count as int) * 0x4_0000_0000_0000_0000_0000 <= total <= (pair_count as int)
                * 0x4_0000_0000_0000_0000_0000,
        decreases k - i,
    {
        proof {
            lemma_pairs_before_mono(k as int, i + 1);
        }
        let mut j: usize = i + 1;
        let mut row: i128 = 0;
        let ghost count0 = pair_count as int;
        while j < k
            invariant
                k == patterns@.len(),
                i < k,
                i + 1 <= j <= k,
                row == row_pair_total(patterns@, i as int, j as int),
                pair_count == count0 + (j - i - 1),
                count0 + (k - i - 1) <= i32::MAX,
                -(count0) * 0x4_0000_0000_0000_0000_0000 <= total <= count0 * 0x4_0000_0000_0000_0000_0000,
                -(j - i - 1) * 0x4_0000_0000_0000_0000_0000 <= row <= (j - i - 1) * 0x4_0000_0000_0000_0000_0000,
                count0 <= i32::MAX,
            decreases k - j,
        {
            let d = calculate_overlap(&patterns[i], &patterns[j]);
            row = row + d;
            pair_count = pair_count + 1;
            j = j + 1;
        }
        total = total + row;
        i = i + 1;
    }
    assert(pair_count == k * (k - 1) / 2);
    Some((total, pair_count))
}

/// `sum_{t < a} dot(p_t, x)`: the dot products of `x` with the first `a`
/// patterns.
pub open spec fn dots_with(patterns: Seq<Vec<i8>>, x: Seq<i8>, a: int) -> int
    decreases a,
{
    if a <= 0 {
        0
    } else {
        dots_with(patterns, x, a - 1) + spin_dot(patterns[a - 1]@, x, common_len(patterns[a - 1]@, x))
    }
}

proof fn lemma_row_prefix(p: Seq<Vec<i8>>, q: Seq<Vec<i8>>, i: int, j: int)
    requires
        0 <= i,
        j <= p.len(),
        j <= q.len(),
        forall|t: int| 0 <= t < j ==> #[trigger] q[t] == p[t],
    ensures
        row_pair_total(q, i, j) == row_pair_total(p, i, j),
    decreases j - i,
{
    if j > i + 1 {
        lemma_row_prefix(p, q, i, j - 1);
        assert(q[i] == p[i] && q[j - 1] == p[j - 1]);
    }
}

proof fn lemma_pair_total_push(p: Seq<Vec<i8>>, x: Vec<i8>, a: int)
    requires
        0 <= a <= p.len(),
    ensures
        pair_total(p.push(x), a) == pair_total(p, a) + dots_with(p, x@, a),
    decreases a,
{
    if a > 0 {
        let q = p.push(x);
        let m = p.len() as int;
        lemma_pair_total_push(p, x, a - 1);
        assert forall|t: int| 0 <= t < m implies #[trigger] q[t] == p[t] by {}
        lemma_row_prefix(p, q, a - 1, m);
        assert(q[m] == x);
        assert(q[a - 1] == p[a - 1]);
        assert(row_pair_total(q, a - 1, m + 1) == row_pair_total(q, a - 1, m) + spin_dot(
            p[a - 1]@,
            x@,
            common_len(p[a - 1]@, x@),
        ));
    }
}

/// The pairwise total counts every pair once: with fewer than two patterns
/// it is zero, and storing one more pattern adds its dot product with each
/// earlier pattern (every one of them, the first included).
pub proof fn pairwise_total_counts_every_pair(p: Seq<Vec<i8>>, x: Vec<i8>)
    ensures
        p.len() <= 1 ==> pair_total(p, p.len() as int) == 0,
        pair_total(p.push(x), p.len() + 1int) == pair_total(p, p.len() as int) + dots_with(
            p,
            x@,
            p.len() as int,
        ),
{
    if p.len() == 1 {
        assert(row_pair_total(p, 0, 1) == 0);
        assert(pair_total(p, 0) == 0);
        assert(pair_total(p, 1) == 0);
    } else if p.len() == 0 {
        assert(pair_total(p, 0) == 0);
    }
    let q = p.push(x);
    let m = p.len() as int;
    lemma_pair_total_push(p, x, m);
    assert(row_pair_total(q, m, m + 1) == 0);
}

} // verus!
