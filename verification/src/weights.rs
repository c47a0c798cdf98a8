//! Hebbian learning: the weight matrix of a set of stored patterns.

use vstd::prelude::*;
use crate::dynamics::{is_spin_vector, negate_all, row_covers};
use crate::energy::is_symmetric_zero_diagonal;

verus! {

/// `sum_{mu < k} p[mu][i] * p[mu][j]`.
pub open spec fn hebbian_sum(patterns: Seq<Vec<i8>>, i: int, j: int, k: int) -> int
    decreases k,
{
    if k <= 0 {
        0
    } else {
        hebbian_sum(patterns, i, j, k - 1) + patterns[k - 1]@[i] * patterns[k - 1]@[j]
    }
}

/// The Hebbian weight between neurons `i` and `j` (without the `1 / N`
/// factor): the sum over all patterns of `p[i] * p[j]`, and zero on the
/// diagonal.
pub open spec fn hebbian_weight(patterns: Seq<Vec<i8>>, i: int, j: int) -> int {
    if i == j {
        0
    } else {
        hebbian_sum(patterns, i, j, patterns.len() as int)
    }
}

/// The number of neurons of a set of patterns: the length of the first one.
pub open spec fn pattern_width(patterns: Seq<Vec<i8>>) -> int {
    if patterns.len() == 0 {
        0
    } else {
        patterns[0]@.len() as int
    }
}

/// `w` is the Hebbian matrix of `patterns` over `n` neurons.
pub open spec fn is_hebbian_matrix(w: Seq<Vec<i64>>, patterns: Seq<Vec<i8>>, n: int) -> bool {
    &&& w.len() == n
    &&& forall|i: int| 0 <= i < n ==> (#[trigger] w[i])@.len() == n
    &&& forall|i: int, j: int|
        0 <= i < n && 0 <= j < n ==> (#[trigger] w[i]@[j]) == hebbian_weight(patterns, i, j)
}

/// What the weight computation reads: with two or more neurons, every
/// pattern covers them and the sums fit in an `i64`.
pub open spec fn hebbian_inputs_ok(patterns: Seq<Vec<i8>>) -> bool {
    pattern_width(patterns) >= 2 ==> {
        &&& patterns.len() < 0x2_0000_0000_0000
        &&& forall|mu: int|
            0 <= mu < patterns.len() ==> (#[trigger] patterns[mu])@.len() >= pattern_width(
                patterns,
            )
    }
}

proof fn lemma_hebbian_sum_symmetric(patterns: Seq<Vec<i8>>, i: int, j: int, k: int)
    ensures
        hebbian_sum(patterns, i, j, k) == hebbian_sum(patterns, j, i, k),
    decreases k,
{
    if k > 0 {
        lemma_hebbian_sum_symmetric(patterns, i, j, k - 1);
        let a = patterns[k - 1]@[i];
        let b = patterns[k - 1]@[j];
        assert(a * b == b * a) by (nonlinear_arith);
    }
}

/// The Hebbian matrix is symmetric and has a zero diagonal.
pub proof fn hebbian_matrix_is_symmetric(w: Seq<Vec<i64>>, patterns: Seq<Vec<i8>>, n: int)
    requires
        is_hebbian_matrix(w, patterns, n),
    ensures
        is_symmetric_zero_diagonal(w, n),
{
    assert forall|i: int, j: int| 0 <= i < n && 0 <= j < n implies #[trigger] w[i]@[j] == w[j]@[i] by {
        lemma_hebbian_sum_symmetric(patterns, i, j, patterns.len() as int);
    }
    assert forall|i: int| 0 <= i < n implies #[trigger] row_covers(w, i, n) by {}
}

fn hebbian_entry(states: &[Vec<i8>], i: usize, j: usize) -> (sum: i64)
    requires
        states@.len() < 0x2_0000_0000_0000,
        forall|mu: int| 0 <= mu < states@.len() ==> i < (#[trigger] states@[mu])@.len() && j < states@[mu]@.len(),
    ensures
        sum == hebbian_sum(states@, i as int, j as int, states@.len() as int),
{
    let mut sum: i64 = 0;
    let mut mu: usize = 0;
    while mu < states.len()
        invariant
            states@.len() < 0x2_0000_0000_0000,
            forall|m: int| 0 <= m < states@.len() ==> i < (#[trigger] states@[m])@.len() && j < states@[m]@.len(),
            mu <= states@.len(),
            sum == hebbian_sum(states@, i as int, j as int, mu as int),
            -(mu as int) * 0x4000 <= sum <= (mu as int) * 0x4000,
        decreases states@.len() - mu,
    {
        let a = states[mu][i];
        let b = states[mu][j];
        assert(-0x4000 <= a * b <= 0x4000) by (nonlinear_arith)
            requires
                -128 <= a <= 127,
                -128 <= b <= 127,
        ;
        sum = sum + (a as i64) * (b as i64);
        mu = mu + 1;
    }
    sum
}

/// The Hebbian weight matrix of `states`: `N x N` with `N` the length of the
/// first pattern, `sum_mu p[i] p[j]` off the diagonal and zero on it (the
/// weights of the textbook rule times `N`). No patterns give no rows.
pub fn weight_matrix_calculate(states: &[Vec<i8>]) -> (weights: Vec<Vec<i64>>)
    requires
        hebbian_inputs_ok(states@),
    ensures
        is_hebbian_matrix(weights@, states@, pattern_width(states@)),
{
    if states.len() == 0 {
        let empty: Vec<Vec<i64>> = Vec::new();
        assert(empty@.len() == 0);
        return empty;
    }
    let n = states[0].len();
    let mut weights: Vec<Vec<i64>> = Vec::with_capacity(n);
    let mut i: usize = 0;
    while i < n
        invariant
            n == pattern_width(states@),
            hebbian_inputs_ok(states@),
            i <= n,
            weights@.len() == i,
            forall|r: int| 0 <= r < i ==> (#[trigger] weights@[r])@.len() == n,
            forall|r: int, c: int|
                0 <= r < i && 0 <= c < n ==> (#[trigger] weights@[r]@[c]) == hebbian_weight(states@, r, c),
        decreases n - i,
    {
        let mut row: Vec<i64> = Vec::with_capacity(n);
        let mut j: usize = 0;
        while j < n
            invariant
                n == pattern_width(states@),
                hebbian_inputs_ok(states@),
                i < n,
                j <= n,
                row@.len() == j,
                forall|c: int| 0 <= c < j ==> (#[trigger] row@[c]) == hebbian_weight(states@, i as int, c),
            decreases n - j,
        {
            if i == j {
                row.push(0);
            } else {
                let w = hebbian_entry(states, i, j);
                row.push(w);
            }
            j = j + 1;
        }
        weights.push(row);
        i = i + 1;
    }
    weights
}

proof fn lemma_hebbian_sum_prefix(a: Seq<Vec<i8>>, b: Seq<Vec<i8>>, i: int, j: int, k: int)
    requires
        0 <= k <= a.len(),
        k <= b.len(),
        forall|mu: int| 0 <= mu < k ==> #[trigger] a[mu] == b[mu],
    ensures
        hebbian_sum(a, i, j, k) == hebbian_sum(b, i, j, k),
    decreases k,
{
    if k > 0 {
        lemma_hebbian_sum_prefix(a, b, i, j, k - 1);
        assert(a[k - 1] == b[k - 1]);
    }
}

proof fn lemma_hebbian_sum_remove(p: Seq<Vec<i8>>, t: int, i: int, j: int)
    requires
        0 <= t < p.len(),
    ensures
        hebbian_sum(p, i, j, p.len() as int) == hebbian_sum(p.remove(t), i, j, p.len() - 1)
            + p[t]@[i] * p[t]@[j],
    decreases p.len(),
{
    let k = p.len() as int;
    let r = p.remove(t);
    if t == k - 1 {
        lemma_hebbian_sum_prefix(p, r, i, j, k - 1);
    } else {
        let d = p.drop_last();
        lemma_hebbian_sum_remove(d, t, i, j);
        lemma_hebbian_sum_prefix(p, d, i, j, k - 1);
        let rd = r.drop_last();
        assert(rd =~= d.remove(t));
        lemma_hebbian_sum_prefix(r, rd, i, j, k - 2);
        assert(r[k - 2] == p[k - 1]);
    }
}

proof fn lemma_hebbian_sum_multiset(a: Seq<Vec<i8>>, b: Seq<Vec<i8>>, i: int, j: int)
    requires
        a.to_multiset() == b.to_multiset(),
    ensures
        hebbian_sum(a, i, j, a.len() as int) == hebbian_sum(b, i, j, b.len() as int),
    decreases a.len(),
{
    broadcast use vstd::seq_lib::group_to_multiset_ensures;

    a.to_multiset_ensures();
    b.to_multiset_ensures();
    if a.len() == 0 {
        assert(b.len() == 0);
    } else {
        let k = a.len() as int;
        let x = a[k - 1];
        assert(a.to_multiset().count(x) > 0);
        assert(b.contains(x));
        let t = choose|t: int| 0 <= t < b.len() && b[t] == x;
        let d = a.remove(k - 1);
        assert(d =~= a.drop_last());
        assert(d.to_multiset() == b.remove(t).to_multiset());
        lemma_hebbian_sum_multiset(d, b.remove(t), i, j);
        lemma_hebbian_sum_remove(a, k - 1, i, j);
        lemma_hebbian_sum_remove(b, t, i, j);
    }
}

/// The weights depend on which patterns are stored, not on their order:
/// any rearrangement of the patterns gives the same weight everywhere.
pub proof fn weights_ignore_pattern_order(a: Seq<Vec<i8>>, b: Seq<Vec<i8>>, i: int, j: int)
    requires
        a.to_multiset() == b.to_multiset(),
    ensures
        hebbian_weight(a, i, j) == hebbian_weight(b, i, j),
{
    lemma_hebbian_sum_multiset(a, b, i, j);
}

/// The weights do not see the sign of a stored spin pattern: storing the
/// negation of any of the patterns in its place gives the same weights.
pub proof fn weights_ignore_pattern_signs(a: Seq<Vec<i8>>, b: Seq<Vec<i8>>, i: int, j: int)
    requires
        a.len() == b.len(),
        forall|mu: int|
            0 <= mu < a.len() ==> is_spin_vector((#[trigger] a[mu])@) && (b[mu]@ == a[mu]@ || b[mu]@
                == negate_all(a[mu]@)),
        0 <= i,
        0 <= j,
        forall|mu: int| 0 <= mu < a.len() ==> i < (#[trigger] a[mu])@.len() && j < a[mu]@.len(),
    ensures
        hebbian_weight(a, i, j) == hebbian_weight(b, i, j),
{
    lemma_hebbian_sum_signs(a, b, i, j, a.len() as int);
}

proof fn lemma_hebbian_sum_signs(a: Seq<Vec<i8>>, b: Seq<Vec<i8>>, i: int, j: int, k: int)
    requires
        a.len() == b.len(),
        0 <= k <= a.len(),
        forall|mu: int|
            0 <= mu < a.len() ==> is_spin_vector((#[trigger] a[mu])@) && (b[mu]@ == a[mu]@ || b[mu]@
                == negate_all(a[mu]@)),
        0 <= i,
        0 <= j,
        forall|mu: int| 0 <= mu < a.len() ==> i < (#[trigger] a[mu])@.len() && j < a[mu]@.len(),
    ensures
        hebbian_sum(a, i, j, k) == hebbian_sum(b, i, j, k),
    decreases k,
{
    if k > 0 {
        lemma_hebbian_sum_signs(a, b, i, j, k - 1);
        let v = a[k - 1]@;
        let x = v[i] as int;
        let y = v[j] as int;
        assert(x == 1 || x == -1);
        assert(y == 1 || y == -1);
        if b[k - 1]@ != v {
            assert(b[k - 1]@[i] == -x && b[k - 1]@[j] == -y);
            assert((-x) * (-y) == x * y) by (nonlinear_arith);
        }
    }
}

} // verus!
