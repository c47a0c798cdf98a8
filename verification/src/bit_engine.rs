//! Recall without a weight matrix: the state and the patterns are packed into
//! bits, and the engine keeps the overlaps `q_mu = sum_i xi^mu_i s_i` up to
//! date instead. The local field of neuron `i`, times `N`, is then
//! `H_i = sum_mu xi^mu_i q_mu - P s_i`.

use vstd::prelude::*;
use crate::packed::{bit_at, spin_of_bit, lemma_test_bit, lemma_bit_is_zero_or_one, lemma_write_bit};

verus! {

/// The spin `xi^mu_i` of packed pattern `mu` at neuron `i`.
pub open spec fn pattern_spin(patterns: Seq<Vec<u64>>, mu: int, i: int) -> int {
    spin_of_bit(bit_at(patterns[mu]@, i))
}

/// `sum_{mu < m} xi^mu_i q_mu`.
pub open spec fn overlap_field(patterns: Seq<Vec<u64>>, q: Seq<i32>, i: int, m: int) -> int
    decreases m,
{
    if m <= 0 {
        0
    } else {
        overlap_field(patterns, q, i, m - 1) + pattern_spin(patterns, m - 1, i) * q[m - 1]
    }
}

/// `H_i = sum_mu xi^mu_i q_mu - P s_i`, with `s_i` read from the packed state.
pub open spec fn scaled_field(patterns: Seq<Vec<u64>>, q: Seq<i32>, bits: Seq<u64>, i: int) -> int {
    overlap_field(patterns, q, i, patterns.len() as int) - patterns.len() * spin_of_bit(
        bit_at(bits, i),
    )
}

/// The sign rule on integer spins.
pub open spec fn sign_update(h: int, s: int) -> int {
    if h > 0 {
        1
    } else if h < 0 {
        -1
    } else {
        s
    }
}

/// The packed state and the overlaps after neuron `i` has been updated.
pub open spec fn bit_update(patterns: Seq<Vec<u64>>, bits: Seq<u64>, q: Seq<i32>, i: int) -> (Seq<u64>, Seq<i32>) {
    let s = spin_of_bit(bit_at(bits, i));
    let new_s = sign_update(scaled_field(patterns, q, bits, i), s);
    if new_s == s {
        (bits, q)
    } else {
        let w = i / 64;
        let mask = 1u64 << ((i % 64) as u64);
        let new_bits = bits.update(
            w,
            if new_s == -1 {
                bits[w] | mask
            } else {
                bits[w] & !mask
            },
        );
        let new_q = Seq::new(
            q.len(),
            |mu: int|
                if mu < patterns.len() {
                    (q[mu] + pattern_spin(patterns, mu, i) * (new_s - s)) as i32
                } else {
                    q[mu]
                },
        );
        (new_bits, new_q)
    }
}

/// Whether updating neuron `i` changes its bit.
pub open spec fn bit_flips_at(patterns: Seq<Vec<u64>>, bits: Seq<u64>, q: Seq<i32>, i: int) -> bool {
    let s = spin_of_bit(bit_at(bits, i));
    sign_update(scaled_field(patterns, q, bits, i), s) != s
}

/// The packed state and overlaps after the neurons of `order` have been
/// updated one after another.
pub open spec fn bit_pass(patterns: Seq<Vec<u64>>, bits: Seq<u64>, q: Seq<i32>, order: Seq<usize>) -> (Seq<u64>, Seq<i32>)
    decreases order.len(),
{
    if order.len() == 0 {
        (bits, q)
    } else {
        let prev = bit_pass(patterns, bits, q, order.drop_last());
        bit_update(patterns, prev.0, prev.1, order.last() as int)
    }
}

/// How many updates of `bit_pass` changed a bit.
pub open spec fn bit_flips_in_pass(patterns: Seq<Vec<u64>>, bits: Seq<u64>, q: Seq<i32>, order: Seq<usize>) -> nat
    decreases order.len(),
{
    if order.len() == 0 {
        0
    } else {
        let prev = bit_pass(patterns, bits, q, order.drop_last());
        bit_flips_in_pass(patterns, bits, q, order.drop_last()) + if bit_flips_at(
            patterns,
            prev.0,
            prev.1,
            order.last() as int,
        ) {
            1nat
        } else {
            0nat
        }
    }
}

pub open spec fn abs(x: int) -> int {
    if x < 0 {
        -x
    } else {
        x
    }
}

/// The largest `|q_mu|` over `mu < m`.
pub open spec fn max_abs_overlap(q: Seq<i32>, m: int) -> int
    decreases m,
{
    if m <= 0 {
        0
    } else {
        let a = abs(q[m - 1] as int);
        let r = max_abs_overlap(q, m - 1);
        if a > r {
            a
        } else {
            r
        }
    }
}

proof fn lemma_max_abs_overlap(q: Seq<i32>, m: int, mu: int)
    requires
        0 <= mu < m,
    ensures
        abs(q[mu] as int) <= max_abs_overlap(q, m),
        max_abs_overlap(q, m) >= 0,
    decreases m,
{
    if mu < m - 1 {
        lemma_max_abs_overlap(q, m - 1, mu);
    }
}

proof fn lemma_max_abs_nonneg(q: Seq<i32>, m: int)
    ensures
        max_abs_overlap(q, m) >= 0,
    decreases m,
{
    if m > 0 {
        lemma_max_abs_nonneg(q, m - 1);
    }
}

/// What a pass over `order` reads: the words of every visited neuron exist
/// in the state and in every pattern, and the overlaps cover the patterns.
pub open spec fn bit_pass_reads_ok(
    state: Seq<u64>,
    patterns: Seq<Vec<u64>>,
    q: Seq<i32>,
    order: Seq<usize>,
) -> bool {
    &&& forall|k: int|
        0 <= k < order.len() ==> (#[trigger] order[k]) / 64 < state.len() && forall|mu: int|
            0 <= mu < patterns.len() ==> order[k] / 64 < (#[trigger] patterns[mu])@.len()
    &&& order.len() > 0 ==> q.len() >= patterns.len()
}

/// The `i32` arithmetic of a pass over `len` neurons cannot overflow: every
/// overlap moves by at most 2 per update.
pub open spec fn bit_pass_fits(patterns: Seq<Vec<u64>>, q: Seq<i32>, len: int) -> bool {
    patterns.len() * (max_abs_overlap(q, patterns.len() as int) + 2 * len + 1) <= i32::MAX
}

proof fn lemma_product_bound(m: int, p: int, b: int, x: int)
    requires
        0 <= m <= p,
        0 <= b,
        -b <= x <= b,
    ensures
        -(m * b) <= m * x <= m * b,
        m * b <= p * b,
{
    assert(-(m * b) <= m * x <= m * b && m * b <= p * b) by (nonlinear_arith)
        requires
            0 <= m <= p,
            0 <= b,
            -b <= x <= b,
    ;
}

proof fn lemma_scale_le(p: int, x: int)
    requires
        1 <= p,
        0 <= x,
    ensures
        x <= p * x,
{
    assert(x <= p * x) by (nonlinear_arith)
        requires
            1 <= p,
            0 <= x,
    ;
}

proof fn lemma_le_times(p: int, x: int)
    requires
        0 <= p,
        1 <= x,
    ensures
        p <= p * x,
{
    assert(p <= p * x) by (nonlinear_arith)
        requires
            0 <= p,
            1 <= x,
    ;
}

proof fn lemma_distrib(p: int, a: int, c: int)
    ensures
        p * (a + c) == p * a + p * c,
        (a + c) * p == a * p + c * p,
{
    assert(p * (a + c) == p * a + p * c && (a + c) * p == a * p + c * p) by (nonlinear_arith);
}

proof fn lemma_bound_mono(p: int, a: int, b: int)
    requires
        0 <= p,
        a <= b,
    ensures
        p * a <= p * b,
{
    assert(p * a <= p * b) by (nonlinear_arith)
        requires
            0 <= p,
            a <= b,
    ;
}

/// `sum_{i < k} xi_i s_i` with both spins read from packed bits.
pub open spec fn bits_overlap(pattern: Seq<u64>, bits: Seq<u64>, k: int) -> int
    decreases k,
{
    if k <= 0 {
        0
    } else {
        bits_overlap(pattern, bits, k - 1) + spin_of_bit(bit_at(pattern, k - 1)) * spin_of_bit(
            bit_at(bits, k - 1),
        )
    }
}

/// The overlaps are those of the packed state over its first `n` neurons
/// with every packed pattern.
pub open spec fn overlaps_consistent(patterns: Seq<Vec<u64>>, bits: Seq<u64>, q: Seq<i32>, n: int) -> bool {
    &&& 0 <= n <= 64 * bits.len()
    &&& q.len() >= patterns.len()
    &&& forall|mu: int|
        0 <= mu < patterns.len() ==> n <= 64 * (#[trigger] patterns[mu])@.len() && q[mu]
            == bits_overlap(patterns[mu]@, bits, n)
}

/// A pass over neurons below `n` whose overlaps are consistent with the
/// state cannot overflow once `P (n + 1)` fits: every overlap stays within
/// `[-n, n]`.
pub open spec fn consistent_pass_fits(
    patterns: Seq<Vec<u64>>,
    bits: Seq<u64>,
    q: Seq<i32>,
    order: Seq<usize>,
    n: int,
) -> bool {
    &&& overlaps_consistent(patterns, bits, q, n)
    &&& forall|k: int| 0 <= k < order.len() ==> #[trigger] order[k] < n
    &&& patterns.len() * (n + 1) <= i32::MAX
}

proof fn lemma_bits_overlap_bound(pattern: Seq<u64>, bits: Seq<u64>, k: int)
    requires
        0 <= k,
    ensures
        -k <= bits_overlap(pattern, bits, k) <= k,
    decreases k,
{
    if k > 0 {
        lemma_bits_overlap_bound(pattern, bits, k - 1);
        let x = spin_of_bit(bit_at(pattern, k - 1));
        let y = spin_of_bit(bit_at(bits, k - 1));
        assert(-1 <= x * y <= 1) by (nonlinear_arith)
            requires
                x == 1 || x == -1,
                y == 1 || y == -1,
        ;
    }
}

/// Writing bit `i` moves the overlap by `xi_i` times the change of spin.
proof fn lemma_bits_overlap_write(pattern: Seq<u64>, bits: Seq<u64>, i: int, b: bool, k: int)
    requires
        0 <= i,
        i / 64 < bits.len(),
        0 <= k <= 64 * bits.len(),
    ensures
        ({
            let wi = i / 64;
            let mask = 1u64 << ((i % 64) as u64);
            let nb = bits.update(
                wi,
                if b {
                    bits[wi] | mask
                } else {
                    bits[wi] & !mask
                },
            );
            bits_overlap(pattern, nb, k) == bits_overlap(pattern, bits, k) + if i < k {
                spin_of_bit(bit_at(pattern, i)) * (spin_of_bit(b) - spin_of_bit(bit_at(bits, i)))
            } else {
                0
            }
        }),
    decreases k,
{
    if k > 0 {
        lemma_bits_overlap_write(pattern, bits, i, b, k - 1);
        lemma_write_bit(bits, i, b, k - 1);
        let x = spin_of_bit(bit_at(pattern, i));
        let y = spin_of_bit(bit_at(bits, i));
        let z = spin_of_bit(b);
        assert(x * z == x * y + x * (z - y)) by (nonlinear_arith);
    }
}

/// One update keeps the overlaps consistent with the packed state.
pub proof fn lemma_bit_update_consistent(
    patterns: Seq<Vec<u64>>,
    bits: Seq<u64>,
    q: Seq<i32>,
    i: int,
    n: int,
)
    requires
        overlaps_consistent(patterns, bits, q, n),
        0 <= i < n,
        patterns.len() > 0 ==> n <= i32::MAX,
    ensures
        overlaps_consistent(
            patterns,
            bit_update(patterns, bits, q, i).0,
            bit_update(patterns, bits, q, i).1,
            n,
        ),
        bit_update(patterns, bits, q, i).0.len() == bits.len(),
{
    let s = spin_of_bit(bit_at(bits, i));
    let new_s = sign_update(scaled_field(patterns, q, bits, i), s);
    if new_s != s {
        let (nb, nq) = bit_update(patterns, bits, q, i);
        assert(i / 64 < bits.len());
        assert(spin_of_bit(new_s == -1) == new_s);
        assert forall|mu: int| 0 <= mu < patterns.len() implies n <= 64 * (#[trigger] patterns[mu])@.len()
            && nq[mu] == bits_overlap(patterns[mu]@, nb, n) by {
            lemma_bits_overlap_write(patterns[mu]@, bits, i, new_s == -1, n);
            lemma_bits_overlap_bound(patterns[mu]@, nb, n);
        }
    }
}

/// The incremental update of the overlaps is exact: along a pass over
/// neurons below `n`, overlaps that start as those of the packed state with
/// every pattern stay those of the current packed state.
pub proof fn bit_pass_keeps_overlaps_consistent(
    patterns: Seq<Vec<u64>>,
    bits: Seq<u64>,
    q: Seq<i32>,
    order: Seq<usize>,
    n: int,
)
    requires
        overlaps_consistent(patterns, bits, q, n),
        forall|k: int| 0 <= k < order.len() ==> #[trigger] order[k] < n,
        patterns.len() > 0 ==> n <= i32::MAX,
    ensures
        overlaps_consistent(
            patterns,
            bit_pass(patterns, bits, q, order).0,
            bit_pass(patterns, bits, q, order).1,
            n,
        ),
        bit_pass(patterns, bits, q, order).0.len() == bits.len(),
    decreases order.len(),
{
    if order.len() > 0 {
        let prefix = order.drop_last();
        assert forall|k: int| 0 <= k < prefix.len() implies #[trigger] prefix[k] < n by {
            assert(prefix[k] == order[k]);
        }
        bit_pass_keeps_overlaps_consistent(patterns, bits, q, prefix, n);
        let (pb, pq) = bit_pass(patterns, bits, q, prefix);
        lemma_bit_update_consistent(patterns, pb, pq, order.last() as int, n);
    }
}

/// A pass over neurons below `n` keeps the number of words, the number of
/// overlaps, and every bit from `n` on.
pub proof fn bit_pass_keeps_bits_past(
    patterns: Seq<Vec<u64>>,
    bits: Seq<u64>,
    q: Seq<i32>,
    order: Seq<usize>,
    n: int,
)
    requires
        0 <= n <= 64 * bits.len(),
        forall|k: int| 0 <= k < order.len() ==> #[trigger] order[k] < n,
    ensures
        bit_pass(patterns, bits, q, order).0.len() == bits.len(),
        bit_pass(patterns, bits, q, order).1.len() == q.len(),
        forall|j: int|
            n <= j < 64 * bits.len() ==> #[trigger] bit_at(bit_pass(patterns, bits, q, order).0, j)
                == bit_at(bits, j),
    decreases order.len(),
{
    if order.len() > 0 {
        let prefix = order.drop_last();
        assert forall|k: int| 0 <= k < prefix.len() implies #[trigger] prefix[k] < n by {
            assert(prefix[k] == order[k]);
        }
        bit_pass_keeps_bits_past(patterns, bits, q, prefix, n);
        let (pb, pq) = bit_pass(patterns, bits, q, prefix);
        let i = order.last() as int;
        assert(order[order.len() - 1] < n);
        let s0 = spin_of_bit(bit_at(pb, i));
        let new_s = sign_update(scaled_field(patterns, pq, pb, i), s0);
        if new_s != s0 {
            assert forall|j: int| n <= j < 64 * bits.len() implies #[trigger] bit_at(
                bit_pass(patterns, bits, q, order).0,
                j,
            ) == bit_at(bits, j) by {
                lemma_write_bit(pb, i, new_s == -1, j);
                assert(bit_at(pb, j) == bit_at(bits, j));
            }
        }
    }
}

/// `sum_{mu < m} q_mu^2`.
pub open spec fn squared_overlaps(q: Seq<i32>, m: int) -> int
    decreases m,
{
    if m <= 0 {
        0
    } else {
        squared_overlaps(q, m - 1) + q[m - 1] * q[m - 1]
    }
}

proof fn lemma_squared_shift(patterns: Seq<Vec<u64>>, q: Seq<i32>, nq: Seq<i32>, i: int, d: int, m: int)
    requires
        d == 2 || d == -2,
        0 <= m <= q.len(),
        m <= nq.len(),
        m <= patterns.len(),
        forall|mu: int| 0 <= mu < m ==> #[trigger] nq[mu] == q[mu] + pattern_spin(patterns, mu, i) * d,
    ensures
        squared_overlaps(nq, m) == squared_overlaps(q, m) + 2 * d * overlap_field(patterns, q, i, m)
            + 4 * m,
    decreases m,
{
    if m > 0 {
        lemma_squared_shift(patterns, q, nq, i, d, m - 1);
        let x = pattern_spin(patterns, m - 1, i);
        let a = q[m - 1] as int;
        assert(x == 1 || x == -1);
        assert(nq[m - 1] == a + x * d);
        assert((a + x * d) * (a + x * d) == a * a + 2 * d * (x * a) + 4) by (nonlinear_arith)
            requires
                x == 1 || x == -1,
                d == 2 || d == -2,
        ;
    }
}

/// One update from consistent overlaps never lowers the sum of squared
/// overlaps, and a change raises it by at least 4.
proof fn lemma_update_squared(patterns: Seq<Vec<u64>>, bits: Seq<u64>, q: Seq<i32>, i: int, n: int)
    requires
        overlaps_consistent(patterns, bits, q, n),
        0 <= i < n,
        patterns.len() > 0 ==> n <= i32::MAX,
    ensures
        squared_overlaps(bit_update(patterns, bits, q, i).1, patterns.len() as int) >= squared_overlaps(
            q,
            patterns.len() as int,
        ) + if bit_flips_at(patterns, bits, q, i) {
            4int
        } else {
            0int
        },
{
    let np = patterns.len() as int;
    let s = spin_of_bit(bit_at(bits, i));
    let h = scaled_field(patterns, q, bits, i);
    let new_s = sign_update(h, s);
    if new_s != s {
        let (nb, nq) = bit_update(patterns, bits, q, i);
        let d = new_s - s;
        lemma_bit_update_consistent(patterns, bits, q, i, n);
        assert(i / 64 < bits.len());
        assert(spin_of_bit(new_s == -1) == new_s);
        assert forall|mu: int| 0 <= mu < np implies #[trigger] nq[mu] == q[mu] + pattern_spin(
            patterns,
            mu,
            i,
        ) * d by {
            lemma_bits_overlap_write(patterns[mu]@, bits, i, new_s == -1, n);
        }
        assert(d == 2 || d == -2);
        lemma_squared_shift(patterns, q, nq, i, d, np);
        let f = overlap_field(patterns, q, i, np);
        assert(h == f - np * s);
        assert(2 * d * f + 4 * np >= 4) by (nonlinear_arith)
            requires
                h == f - np * s,
                s == 1 || s == -1,
                d == new_s - s,
                new_s == (if h > 0 {
                    1
                } else if h < 0 {
                    -1
                } else {
                    s
                }),
                new_s != s,
        ;
    }
}

/// The packed engine's energy is `-(sum_mu q_mu^2 - P N) / (2 N)`: along a
/// pass over neurons below `n` from overlaps consistent with the packed
/// state, the sum of squared overlaps never falls, and every change of a
/// neuron raises it by at least 4.
pub proof fn squared_overlaps_never_fall(
    patterns: Seq<Vec<u64>>,
    bits: Seq<u64>,
    q: Seq<i32>,
    order: Seq<usize>,
    n: int,
)
    requires
        overlaps_consistent(patterns, bits, q, n),
        forall|k: int| 0 <= k < order.len() ==> #[trigger] order[k] < n,
        patterns.len() > 0 ==> n <= i32::MAX,
    ensures
        squared_overlaps(bit_pass(patterns, bits, q, order).1, patterns.len() as int) >= squared_overlaps(
            q,
            patterns.len() as int,
        ) + 4 * bit_flips_in_pass(patterns, bits, q, order),
    decreases order.len(),
{
    if order.len() > 0 {
        let prefix = order.drop_last();
        assert forall|k: int| 0 <= k < prefix.len() implies #[trigger] prefix[k] < n by {
            assert(prefix[k] == order[k]);
        }
        squared_overlaps_never_fall(patterns, bits, q, prefix, n);
        bit_pass_keeps_overlaps_consistent(patterns, bits, q, prefix, n);
        let (pb, pq) = bit_pass(patterns, bits, q, prefix);
        assert(order[order.len() - 1] < n);
        lemma_update_squared(patterns, pb, pq, order.last() as int, n);
    }
}

/// One asynchronous pass of the packed engine over the neurons of `order`:
/// each takes the sign of `H_i` (keeping its state on zero); on a change the
/// bit is written and every overlap moves by `xi^mu_i * (s_new - s_old)`.
/// Returns how many neurons changed. The `i32` arithmetic cannot overflow
/// either when every overlap may move by 2 per update and still fits, or
/// when the overlaps are those of the state over `n` neurons that `order`
/// stays below and `P (n + 1)` fits.
pub fn neuron_fix_bit_in_order(
    state: &mut [u64],
    patterns: &[Vec<u64>],
    q_overlaps: &mut [i32],
    order: &[usize],
) -> (changed: usize)
    requires
        bit_pass_reads_ok(old(state)@, patterns@, old(q_overlaps)@, order@),
        bit_pass_fits(patterns@, old(q_overlaps)@, order@.len() as int) || exists|n: int|
            consistent_pass_fits(patterns@, old(state)@, old(q_overlaps)@, order@, n),
    ensures
        (final(state)@, final(q_overlaps)@) == bit_pass(
            patterns@,
            old(state)@,
            old(q_overlaps)@,
            order@,
        ),
        changed == bit_flips_in_pass(patterns@, old(state)@, old(q_overlaps)@, order@),
{
    let ghost bits0 = state@;
    let ghost q0 = q_overlaps@;
    let ghost pats = patterns@;
    let ghost bound = max_abs_overlap(q0, pats.len() as int);
    let ghost loose = bit_pass_fits(pats, q0, order@.len() as int);
    let ghost n: int = if loose {
        0
    } else {
        choose|n: int| consistent_pass_fits(pats, bits0, q0, order@, n)
    };
    proof {
        lemma_max_abs_nonneg(q0, pats.len() as int);
    }
    let np = patterns.len();
    let len = order.len();
    proof {
        if len > 0 {
            if loose {
                lemma_le_times(np as int, bound + 2 * len + 1);
            } else {
                assert(order@[0] < n);
                lemma_le_times(np as int, n + 1);
            }
        }
        assert forall|mu: int| 0 <= mu < np && len > 0 implies -bound <= #[trigger] q0[mu] <= bound by {
            lemma_max_abs_overlap(q0, np as int, mu);
        }
    }
    let p: i32 = if np <= i32::MAX as usize {
        np as i32
    } else {
        0
    };
    let mut changed: usize = 0;
    let mut k: usize = 0;
    while k < order.len()
        invariant
            pats == patterns@,
            np == pats.len(),
            bound == max_abs_overlap(q0, np as int),
            bound >= 0,
            bit_pass_reads_ok(bits0, pats, q0, order@),
            loose == bit_pass_fits(pats, q0, order@.len() as int),
            !loose ==> consistent_pass_fits(pats, bits0, q0, order@, n),
            !loose ==> overlaps_consistent(pats, state@, q_overlaps@, n),
            order@.len() > 0 ==> p == np,
            state@.len() == bits0.len(),
            q_overlaps@.len() == q0.len(),
            k <= order@.len(),
            changed <= k,
            (state@, q_overlaps@) == bit_pass(pats, bits0, q0, order@.take(k as int)),
            changed == bit_flips_in_pass(pats, bits0, q0, order@.take(k as int)),
            loose && order@.len() > 0 ==> forall|mu: int|
                0 <= mu < np ==> -(bound + 2 * changed) <= #[trigger] q_overlaps@[mu] <= bound + 2
                    * changed,
        decreases order@.len() - k,
    {
        assert(order@.take(k + 1).drop_last() =~= order@.take(k as int));
        let i = order[k];
        let word_idx = i / 64;
        let shift = (i % 64) as u64;
        let bit_mask = 1u64 << shift;
        proof {
            lemma_test_bit(state@[word_idx as int], shift);
            lemma_bit_is_zero_or_one(state@[word_idx as int], shift);
        }
        let s_i_is_minus = (state[word_idx] & bit_mask) != 0;
        let s_i: i32 = if s_i_is_minus {
            -1
        } else {
            1
        };
        assert(s_i == spin_of_bit(bit_at(state@, i as int)));

        let ghost cur_q = q_overlaps@;
        let ghost cur_bits = state@;
        let ghost b: int = if loose {
            bound + 2 * changed
        } else {
            n
        };
        proof {
            if loose {
                lemma_bound_mono(np as int, bound + 2 * changed, bound + 2 * order@.len());
                lemma_distrib(np as int, bound + 2 * order@.len(), 1);
            } else {
                assert(i < n);
                assert forall|m: int| 0 <= m < np implies -b <= #[trigger] cur_q[m] <= b by {
                    lemma_bits_overlap_bound(pats[m]@, cur_bits, n);
                }
                lemma_distrib(np as int, n, 1);
            }
        }
        let mut h_i_scaled: i32 = 0;
        let mut mu: usize = 0;
        while mu < np
            invariant
                pats == patterns@,
                np == pats.len(),
                k < order@.len(),
                p == np,
                i == order@[k as int],
                word_idx == i / 64,
                shift == i % 64,
                bit_mask == 1u64 << shift,
                bit_pass_reads_ok(bits0, pats, q0, order@),
                q_overlaps@ == cur_q,
                cur_q.len() >= np,
                b >= 0,
                np * b + np <= i32::MAX,
                forall|m: int| 0 <= m < np ==> -b <= #[trigger] cur_q[m] <= b,
                mu <= np,
                h_i_scaled == overlap_field(pats, cur_q, i as int, mu as int),
                -(mu * b) <= h_i_scaled <= mu * b,
            decreases np - mu,
        {
            proof {
                lemma_test_bit(pats[mu as int]@[word_idx as int], shift);
                lemma_bit_is_zero_or_one(pats[mu as int]@[word_idx as int], shift);
                lemma_product_bound(mu + 1, np as int, b, 0);
                lemma_distrib(b, mu as int, 1);
            }
            let xi_is_minus = (patterns[mu][word_idx] & bit_mask) != 0;
            let xi_i: i32 = if xi_is_minus {
                -1
            } else {
                1
            };
            assert(xi_i == pattern_spin(pats, mu as int, i as int));
            assert(xi_i * q_overlaps@[mu as int] == if xi_is_minus {
                -q_overlaps@[mu as int]
            } else {
                q_overlaps@[mu as int] as int
            });
            h_i_scaled = h_i_scaled + xi_i * q_overlaps[mu];
            mu = mu + 1;
        }
        proof {
            lemma_product_bound(np as int, np as int, b, 0);
        }
        assert(p * s_i == if s_i_is_minus {
            -p
        } else {
            p as int
        });
        h_i_scaled = h_i_scaled - p * s_i;
        assert(h_i_scaled == scaled_field(pats, cur_q, state@, i as int));

        let new_s_i: i32 = if h_i_scaled > 0 {
            1
        } else if h_i_scaled < 0 {
            -1
        } else {
            s_i
        };

        let ghost expected = bit_update(pats, cur_bits, cur_q, i as int);
        proof {
            if !loose {
                if np > 0 {
                    lemma_scale_le(np as int, n + 1);
                }
                lemma_bit_update_consistent(pats, cur_bits, cur_q, i as int, n);
            }
        }
        if new_s_i != s_i {
            assert(np > 0);
            let delta = new_s_i - s_i;
            proof {
                if loose {
                    lemma_scale_le(np as int, bound + 2 * order@.len() + 1);
                }
                assert forall|t: int| 0 <= t < np implies i32::MIN <= #[trigger] cur_q[t]
                    + pattern_spin(pats, t, i as int) * delta <= i32::MAX by {
                    if !loose {
                        lemma_bits_overlap_write(pats[t]@, cur_bits, i as int, new_s_i == -1, n);
                        assert(spin_of_bit(new_s_i == -1) == new_s_i);
                        lemma_bits_overlap_bound(pats[t]@, expected.0, n);
                        lemma_scale_le(np as int, n + 1);
                    }
                }
            }
            if new_s_i == -1 {
                state[word_idx] = state[word_idx] | bit_mask;
            } else {
                state[word_idx] = state[word_idx] & !bit_mask;
            }
            let mut m: usize = 0;
            while m < np
                invariant
                    pats == patterns@,
                    np == pats.len(),
                    k < order@.len(),
                    i == order@[k as int],
                    word_idx == i / 64,
                    shift == i % 64,
                    bit_mask == 1u64 << shift,
                    bit_pass_reads_ok(bits0, pats, q0, order@),
                    delta == new_s_i - s_i,
                    delta == 2 || delta == -2,
                    cur_q.len() >= np,
                    q_overlaps@.len() == cur_q.len(),
                    forall|t: int|
                        0 <= t < np ==> i32::MIN <= #[trigger] cur_q[t] + pattern_spin(
                            pats,
                            t,
                            i as int,
                        ) * delta <= i32::MAX,
                    m <= np,
                    forall|t: int|
                        0 <= t < m ==> #[trigger] q_overlaps@[t] == (cur_q[t] + pattern_spin(
                            pats,
                            t,
                            i as int,
                        ) * delta) as i32,
                    forall|t: int| m <= t < q_overlaps@.len() ==> #[trigger] q_overlaps@[t] == cur_q[t],
                decreases np - m,
            {
                proof {
                    lemma_test_bit(pats[m as int]@[word_idx as int], shift);
                    lemma_bit_is_zero_or_one(pats[m as int]@[word_idx as int], shift);
                }
                let xi_is_minus = (patterns[m][word_idx] & bit_mask) != 0;
                let xi_i: i32 = if xi_is_minus {
                    -1
                } else {
                    1
                };
                assert(xi_i == pattern_spin(pats, m as int, i as int));
                assert(xi_i * delta == if xi_is_minus {
                    -delta
                } else {
                    delta as int
                });
                q_overlaps[m] = q_overlaps[m] + xi_i * delta;
                m = m + 1;
            }
            assert(state@ =~= expected.0);
            assert(q_overlaps@ =~= expected.1);
            proof {
                if loose {
                    assert forall|t: int| 0 <= t < np implies -(bound + 2 * (changed + 1))
                        <= #[trigger] q_overlaps@[t] <= bound + 2 * (changed + 1) by {
                        let x = pattern_spin(pats, t, i as int);
                        assert(x == 1 || x == -1);
                        assert(x * delta == 2 || x * delta == -2) by (nonlinear_arith)
                            requires
                                x == 1 || x == -1,
                                delta == 2 || delta == -2,
                        ;
                        assert(-(bound + 2 * changed) <= cur_q[t] <= bound + 2 * changed);
                        assert(q_overlaps@[t] == cur_q[t] + x * delta);
                    }
                }
            }
            changed = changed + 1;
        }
        k = k + 1;
    }
    assert(order@.take(order@.len() as int) =~= order@);
    changed
}

} // verus!
