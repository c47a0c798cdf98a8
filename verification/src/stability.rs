//! When a stored pattern is recalled: its local field is `(N - 1) xi_i` plus
//! the crosstalk of the other patterns, so a pattern whose crosstalk stays
//! below `N - 1` at every neuron is a fixed point of the dynamics.

use vstd::prelude::*;
use crate::dynamics::{async_pass, async_update, flips_at, flips_in_pass, is_spin_vector, lemma_self_dot, local_field, spin_dot, sync_update};
use crate::weights::is_hebbian_matrix;
use crate::equivalence::{
    lemma_hebbian_diagonal, lemma_local_field_hebbian, lemma_overlap_sum_is_hebbian_field,
    overlap_sum,
};

verus! {

/// `sum_{mu < m, mu != nu} xi^mu_i (sum_{j != i} xi^mu_j xi^nu_j)`: what the
/// other patterns add to the field of neuron `i` in state `xi^nu`.
pub open spec fn crosstalk(patterns: Seq<Vec<i8>>, nu: int, i: int, m: int, n: int) -> int
    decreases m,
{
    if m <= 0 {
        0
    } else {
        crosstalk(patterns, nu, i, m - 1, n) + if m - 1 == nu {
            0
        } else {
            patterns[m - 1]@[i] * (spin_dot(patterns[m - 1]@, patterns[nu]@, n)
                - patterns[m - 1]@[i] * patterns[nu]@[i])
        }
    }
}

/// The spin patterns of `n` neurons.
pub open spec fn are_spin_patterns(patterns: Seq<Vec<i8>>, n: int) -> bool {
    forall|mu: int|
        0 <= mu < patterns.len() ==> (#[trigger] patterns[mu])@.len() == n && is_spin_vector(
            patterns[mu]@,
        )
}

proof fn lemma_overlap_sum_split(patterns: Seq<Vec<i8>>, nu: int, i: int, m: int, n: int)
    requires
        are_spin_patterns(patterns, n),
        0 <= nu < patterns.len(),
        0 <= i < n,
        0 <= m <= patterns.len(),
    ensures
        overlap_sum(patterns, patterns[nu]@, i, m, n) == crosstalk(patterns, nu, i, m, n) + if nu
            < m {
            (m - 1) * patterns[nu]@[i] + n * patterns[nu]@[i]
        } else {
            m * patterns[nu]@[i]
        },
    decreases m,
{
    if m > 0 {
        lemma_overlap_sum_split(patterns, nu, i, m - 1, n);
        let mu = m - 1;
        let xi = patterns[nu]@[i] as int;
        let x = patterns[mu]@[i] as int;
        assert(patterns[mu]@.len() == n && is_spin_vector(patterns[mu]@));
        assert(patterns[nu]@.len() == n && is_spin_vector(patterns[nu]@));
        let d = spin_dot(patterns[mu]@, patterns[nu]@, n);
        if mu == nu {
            lemma_self_dot(patterns[nu]@, n);
        } else {
            assert(x == 1 || x == -1);
            assert(x * d == x * (d - x * xi) + xi) by (nonlinear_arith)
                requires
                    x == 1 || x == -1,
            ;
        }
        assert((m - 1) * xi + xi == m * xi) by (nonlinear_arith);
        assert((m - 2) * xi + xi == (m - 1) * xi) by (nonlinear_arith);
    }
}

/// The local field of a stored pattern `xi^nu` under the Hebbian matrix is
/// `(N - 1) xi^nu_i` plus the crosstalk of the other patterns.
pub proof fn stored_pattern_field(w: Seq<Vec<i64>>, patterns: Seq<Vec<i8>>, nu: int, i: int)
    requires
        0 <= nu < patterns.len(),
        are_spin_patterns(patterns, patterns[nu]@.len() as int),
        is_hebbian_matrix(w, patterns, patterns[nu]@.len() as int),
        0 <= i < patterns[nu]@.len(),
    ensures
        local_field(w, patterns[nu]@, i) == (patterns[nu]@.len() - 1) * patterns[nu]@[i] + crosstalk(
            patterns,
            nu,
            i,
            patterns.len() as int,
            patterns[nu]@.len() as int,
        ),
{
    let s = patterns[nu]@;
    let n = s.len() as int;
    let np = patterns.len() as int;
    lemma_local_field_hebbian(w, patterns, s, i, n);
    lemma_overlap_sum_is_hebbian_field(patterns, s, i, np, n);
    lemma_hebbian_diagonal(patterns, i, np, n);
    lemma_overlap_sum_split(patterns, nu, i, np, n);
    let xi = s[i] as int;
    assert((np - 1) * xi + n * xi - np * xi == (n - 1) * xi) by (nonlinear_arith);
}

/// A state in which no neuron would change stays unchanged by any pass.
pub proof fn stable_state_is_kept(w: Seq<Vec<i64>>, s: Seq<i8>, order: Seq<usize>)
    requires
        forall|i: int| 0 <= i < s.len() ==> !#[trigger] flips_at(w, s, i),
        forall|k: int| 0 <= k < order.len() ==> #[trigger] order[k] < s.len(),
    ensures
        async_pass(w, s, order) == s,
        flips_in_pass(w, s, order) == 0,
    decreases order.len(),
{
    if order.len() > 0 {
        let prefix = order.drop_last();
        assert forall|k: int| 0 <= k < prefix.len() implies #[trigger] prefix[k] < s.len() by {
            assert(prefix[k] == order[k]);
        }
        stable_state_is_kept(w, s, prefix);
        let i = order.last() as int;
        assert(!flips_at(w, s, i));
        assert(async_update(w, s, i) =~= s);
    }
}

/// A stored spin pattern whose crosstalk is smaller than `N - 1` in size
/// at every neuron is a fixed point: no neuron changes, in any pass.
pub proof fn pattern_with_small_crosstalk_is_fixed_point(
    w: Seq<Vec<i64>>,
    patterns: Seq<Vec<i8>>,
    nu: int,
    order: Seq<usize>,
)
    requires
        0 <= nu < patterns.len(),
        are_spin_patterns(patterns, patterns[nu]@.len() as int),
        is_hebbian_matrix(w, patterns, patterns[nu]@.len() as int),
        forall|i: int|
            0 <= i < patterns[nu]@.len() ==> -(patterns[nu]@.len() - 1) < #[trigger] crosstalk(
                patterns,
                nu,
                i,
                patterns.len() as int,
                patterns[nu]@.len() as int,
            ) < patterns[nu]@.len() - 1,
        forall|k: int| 0 <= k < order.len() ==> #[trigger] order[k] < patterns[nu]@.len(),
    ensures
        async_pass(w, patterns[nu]@, order) == patterns[nu]@,
        flips_in_pass(w, patterns[nu]@, order) == 0,
{
    let s = patterns[nu]@;
    let n = s.len() as int;
    assert forall|i: int| 0 <= i < s.len() implies !#[trigger] flips_at(w, s, i) by {
        stored_pattern_field(w, patterns, nu, i);
        let c = crosstalk(patterns, nu, i, patterns.len() as int, n);
        assert(is_spin_vector(s));
        assert(s[i] == 1 || s[i] == -1);
        if s[i] == 1 {
            assert((n - 1) * 1 == n - 1);
        } else {
            assert((n - 1) * -1 == -(n - 1));
        }
    }
    stable_state_is_kept(w, s, order);
}

/// With a single stored pattern of at least two neurons there is no
/// crosstalk: the pattern is always a fixed point.
pub proof fn single_pattern_is_fixed_point(w: Seq<Vec<i64>>, patterns: Seq<Vec<i8>>, order: Seq<usize>)
    requires
        patterns.len() == 1,
        patterns[0]@.len() >= 2,
        are_spin_patterns(patterns, patterns[0]@.len() as int),
        is_hebbian_matrix(w, patterns, patterns[0]@.len() as int),
        forall|k: int| 0 <= k < order.len() ==> #[trigger] order[k] < patterns[0]@.len(),
    ensures
        async_pass(w, patterns[0]@, order) == patterns[0]@,
        flips_in_pass(w, patterns[0]@, order) == 0,
{
    assert forall|i: int| 0 <= i < patterns[0]@.len() implies #[trigger] crosstalk(
        patterns,
        0,
        i,
        patterns.len() as int,
        patterns[0]@.len() as int,
    ) == 0 by {
        assert(crosstalk(patterns, 0, i, 0, patterns[0]@.len() as int) == 0);
    }
    pattern_with_small_crosstalk_is_fixed_point(w, patterns, 0, order);
}

/// The synchronous step leaves a state unchanged exactly when no neuron
/// would change under an asynchronous update: both dynamics have the same
/// fixed points.
pub proof fn sync_and_async_share_fixed_points(w: Seq<Vec<i64>>, s: Seq<i8>)
    ensures
        (sync_update(w, s) == s) <==> (forall|i: int| 0 <= i < s.len() ==> !#[trigger] flips_at(w, s, i)),
{
    if sync_update(w, s) == s {
        assert forall|i: int| 0 <= i < s.len() implies !#[trigger] flips_at(w, s, i) by {
            assert(sync_update(w, s)[i] == s[i]);
        }
    }
    if forall|i: int| 0 <= i < s.len() ==> !#[trigger] flips_at(w, s, i) {
        assert forall|i: int| 0 <= i < s.len() implies sync_update(w, s)[i] == s[i] by {
            assert(!flips_at(w, s, i));
        }
        assert(sync_update(w, s) =~= s);
    }
}

} // verus!
