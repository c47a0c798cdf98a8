//! The packed engine runs the same dynamics as the weight-matrix engine with
//! the Hebbian matrix of the same patterns: the field `H_i` that it computes
//! from the overlaps is the local field, and a pass over any order of neurons
//! gives the same states, the same number of changes, and overlaps that stay
//! equal to the overlaps of the new state.

use vstd::prelude::*;
use crate::dynamics::{
    async_pass, async_update, flips_at, flips_in_pass, is_spin_vector, lemma_spin_dot_update,
    local_field, next_spin, spin_dot, weighted_sum,
};
use crate::weights::{hebbian_sum, hebbian_weight, is_hebbian_matrix};
use crate::bit_engine::{
    bit_pass_keeps_bits_past, bit_pass_keeps_overlaps_consistent, bit_flips_at, bit_flips_in_pass, bit_pass, bit_update, bits_overlap, overlap_field,
    overlaps_consistent, pattern_spin, scaled_field, sign_update,
};
use crate::recall::{active_indices, is_active, lemma_active_indices, lemma_permutation_facts};
use crate::rng::{is_permutation_of, seeded_shuffle};
use crate::packed::{bit_at, spin_of_bit, lemma_write_bit, packs, packed_overlap, packed_overlap_fits, packed_overlap_is_spin_overlap, words_for};

verus! {

/// The packed patterns hold the spin patterns of `n` neurons.
pub open spec fn packs_patterns(packed: Seq<Vec<u64>>, patterns: Seq<Vec<i8>>, n: int) -> bool {
    &&& packed.len() == patterns.len()
    &&& forall|mu: int|
        0 <= mu < patterns.len() ==> {
            &&& (#[trigger] patterns[mu])@.len() == n
            &&& is_spin_vector(patterns[mu]@)
            &&& n <= 64 * packed[mu]@.len()
            &&& forall|i: int| 0 <= i < n ==> #[trigger] bit_at(packed[mu]@, i) == (patterns[mu]@[i] < 0)
        }
}

/// The packed state `bits` holds the spin state `s` of `n` neurons, and `q`
/// holds the overlaps of `s` with every pattern.
pub open spec fn engine_states_agree(
    patterns: Seq<Vec<i8>>,
    bits: Seq<u64>,
    q: Seq<i32>,
    s: Seq<i8>,
    n: int,
) -> bool {
    &&& s.len() == n
    &&& is_spin_vector(s)
    &&& n <= 64 * bits.len()
    &&& forall|i: int| 0 <= i < n ==> #[trigger] bit_at(bits, i) == (s[i] < 0)
    &&& q.len() >= patterns.len()
    &&& forall|mu: int| 0 <= mu < patterns.len() ==> #[trigger] q[mu] == spin_dot(patterns[mu]@, s, n)
}

/// `sum_{j < k} (sum_{mu < m} p[mu][i] p[mu][j]) s[j]`.
pub open spec fn hebbian_field(patterns: Seq<Vec<i8>>, s: Seq<i8>, i: int, m: int, k: int) -> int
    decreases k,
{
    if k <= 0 {
        0
    } else {
        hebbian_field(patterns, s, i, m, k - 1) + hebbian_sum(patterns, i, k - 1, m) * s[k - 1]
    }
}

/// `sum_{mu < m} p[mu][i] * (sum_{j < n} p[mu][j] s[j])`.
pub open spec fn overlap_sum(patterns: Seq<Vec<i8>>, s: Seq<i8>, i: int, m: int, n: int) -> int
    decreases m,
{
    if m <= 0 {
        0
    } else {
        overlap_sum(patterns, s, i, m - 1, n) + patterns[m - 1]@[i] * spin_dot(
            patterns[m - 1]@,
            s,
            n,
        )
    }
}

proof fn lemma_spin_square(x: i8)
    requires
        x == 1 || x == -1,
    ensures
        x * x == 1,
{
    assert(x * x == 1) by (nonlinear_arith)
        requires
            x == 1 || x == -1,
    ;
}

proof fn lemma_spin_dot_bound(a: Seq<i8>, b: Seq<i8>, k: int)
    requires
        is_spin_vector(a),
        is_spin_vector(b),
        0 <= k <= a.len(),
        k <= b.len(),
    ensures
        -k <= spin_dot(a, b, k) <= k,
    decreases k,
{
    if k > 0 {
        lemma_spin_dot_bound(a, b, k - 1);
        let x = a[k - 1];
        let y = b[k - 1];
        assert(x == 1 || x == -1);
        assert(y == 1 || y == -1);
        assert(-1 <= x * y <= 1) by (nonlinear_arith)
            requires
                x == 1 || x == -1,
                y == 1 || y == -1,
        ;
    }
}

/// `sum_mu p_i (sum_j p_j s_j) = sum_j (sum_mu p_i p_j) s_j`, one pattern at
/// a time.
proof fn lemma_hebbian_field_step(patterns: Seq<Vec<i8>>, s: Seq<i8>, i: int, m: int, k: int)
    requires
        1 <= m,
        0 <= k,
    ensures
        hebbian_field(patterns, s, i, m, k) == hebbian_field(patterns, s, i, m - 1, k)
            + patterns[m - 1]@[i] * spin_dot(patterns[m - 1]@, s, k),
    decreases k,
{
    if k > 0 {
        lemma_hebbian_field_step(patterns, s, i, m, k - 1);
        let xi = patterns[m - 1]@[i] as int;
        let xj = patterns[m - 1]@[k - 1] as int;
        let sj = s[k - 1] as int;
        let h0 = hebbian_sum(patterns, i, k - 1, m - 1);
        let d0 = spin_dot(patterns[m - 1]@, s, k - 1);
        assert((h0 + xi * xj) * sj == h0 * sj + xi * (xj * sj)) by (nonlinear_arith);
        assert(xi * (d0 + xj * sj) == xi * d0 + xi * (xj * sj)) by (nonlinear_arith);
    }
}

pub proof fn lemma_overlap_sum_is_hebbian_field(patterns: Seq<Vec<i8>>, s: Seq<i8>, i: int, m: int, n: int)
    requires
        0 <= m,
        0 <= n,
    ensures
        overlap_sum(patterns, s, i, m, n) == hebbian_field(patterns, s, i, m, n),
    decreases m,
{
    if m > 0 {
        lemma_overlap_sum_is_hebbian_field(patterns, s, i, m - 1, n);
        lemma_hebbian_field_step(patterns, s, i, m, n);
    } else {
        lemma_hebbian_field_zero(patterns, s, i, n);
    }
}

proof fn lemma_hebbian_field_zero(patterns: Seq<Vec<i8>>, s: Seq<i8>, i: int, k: int)
    ensures
        hebbian_field(patterns, s, i, 0, k) == 0,
    decreases k,
{
    if k > 0 {
        lemma_hebbian_field_zero(patterns, s, i, k - 1);
    }
}

/// `sum_mu p_i p_i = m` for spin patterns.
pub proof fn lemma_hebbian_diagonal(patterns: Seq<Vec<i8>>, i: int, m: int, n: int)
    requires
        0 <= i < n,
        0 <= m <= patterns.len(),
        forall|mu: int|
            0 <= mu < patterns.len() ==> (#[trigger] patterns[mu])@.len() == n && is_spin_vector(
                patterns[mu]@,
            ),
    ensures
        hebbian_sum(patterns, i, i, m) == m,
    decreases m,
{
    if m > 0 {
        lemma_hebbian_diagonal(patterns, i, m - 1, n);
        let x = patterns[m - 1]@[i];
        assert(is_spin_vector(patterns[m - 1]@));
        assert(x == 1 || x == -1);
        lemma_spin_square(x);
    }
}

/// The local field of a Hebbian matrix is the full Hebbian sum minus the
/// diagonal term.
pub proof fn lemma_local_field_hebbian(w: Seq<Vec<i64>>, patterns: Seq<Vec<i8>>, s: Seq<i8>, i: int, k: int)
    requires
        is_hebbian_matrix(w, patterns, s.len() as int),
        0 <= i < s.len(),
        0 <= k <= s.len(),
    ensures
        weighted_sum(w[i]@, s, k) == hebbian_field(patterns, s, i, patterns.len() as int, k) - if i
            < k {
            hebbian_sum(patterns, i, i, patterns.len() as int) * s[i]
        } else {
            0
        },
    decreases k,
{
    if k > 0 {
        lemma_local_field_hebbian(w, patterns, s, i, k - 1);
        assert(w[i]@[k - 1] == hebbian_weight(patterns, i, k - 1));
    }
}

/// The overlap sum that the packed engine forms equals the Hebbian sum.
proof fn lemma_overlap_field_matches(
    packed: Seq<Vec<u64>>,
    patterns: Seq<Vec<i8>>,
    q: Seq<i32>,
    s: Seq<i8>,
    i: int,
    m: int,
    n: int,
)
    requires
        packs_patterns(packed, patterns, n),
        0 <= i < n,
        0 <= m <= patterns.len(),
        q.len() >= patterns.len(),
        forall|mu: int| 0 <= mu < patterns.len() ==> #[trigger] q[mu] == spin_dot(patterns[mu]@, s, n),
    ensures
        overlap_field(packed, q, i, m) == overlap_sum(patterns, s, i, m, n),
    decreases m,
{
    if m > 0 {
        lemma_overlap_field_matches(packed, patterns, q, s, i, m - 1, n);
        let mu = m - 1;
        assert(patterns[mu]@.len() == n);
        assert(is_spin_vector(patterns[mu]@));
        assert(bit_at(packed[mu]@, i) == (patterns[mu]@[i] < 0));
        assert(patterns[mu]@[i] == 1 || patterns[mu]@[i] == -1);
        assert(pattern_spin(packed, mu, i) == patterns[mu]@[i]);
        assert(q[mu] == spin_dot(patterns[mu]@, s, n));
    }
}

/// The field `H_i` of the packed engine is the local field of the Hebbian
/// matrix.
pub proof fn packed_field_is_local_field(
    packed: Seq<Vec<u64>>,
    patterns: Seq<Vec<i8>>,
    w: Seq<Vec<i64>>,
    bits: Seq<u64>,
    q: Seq<i32>,
    s: Seq<i8>,
    i: int,
)
    requires
        packs_patterns(packed, patterns, s.len() as int),
        is_hebbian_matrix(w, patterns, s.len() as int),
        engine_states_agree(patterns, bits, q, s, s.len() as int),
        0 <= i < s.len(),
    ensures
        scaled_field(packed, q, bits, i) == local_field(w, s, i),
{
    let n = s.len() as int;
    let np = patterns.len() as int;
    lemma_overlap_field_matches(packed, patterns, q, s, i, np, n);
    lemma_overlap_sum_is_hebbian_field(patterns, s, i, np, n);
    lemma_local_field_hebbian(w, patterns, s, i, n);
    lemma_hebbian_diagonal(patterns, i, np, n);
    assert(s[i] == 1 || s[i] == -1);
    assert(spin_of_bit(bit_at(bits, i)) == s[i]);
    assert(np * s[i] == hebbian_sum(patterns, i, i, np) * s[i]);
}

/// One update of both engines keeps them in agreement and changes a neuron
/// in one exactly when it changes it in the other.
pub proof fn packed_update_matches(
    packed: Seq<Vec<u64>>,
    patterns: Seq<Vec<i8>>,
    w: Seq<Vec<i64>>,
    bits: Seq<u64>,
    q: Seq<i32>,
    s: Seq<i8>,
    i: int,
)
    requires
        s.len() <= i32::MAX,
        packs_patterns(packed, patterns, s.len() as int),
        is_hebbian_matrix(w, patterns, s.len() as int),
        engine_states_agree(patterns, bits, q, s, s.len() as int),
        0 <= i < s.len(),
    ensures
        ({
            let (nb, nq) = bit_update(packed, bits, q, i);
            &&& engine_states_agree(patterns, nb, nq, async_update(w, s, i), s.len() as int)
            &&& nb.len() == bits.len()
            &&& forall|j: int|
                s.len() <= j < 64 * bits.len() ==> #[trigger] bit_at(nb, j) == bit_at(bits, j)
        }),
        bit_flips_at(packed, bits, q, i) == flips_at(w, s, i),
{
    let n = s.len() as int;
    packed_field_is_local_field(packed, patterns, w, bits, q, s, i);
    let h = local_field(w, s, i);
    assert(s[i] == 1 || s[i] == -1);
    let sb = spin_of_bit(bit_at(bits, i));
    assert(sb == s[i]);
    let v = next_spin(h, s[i]);
    assert(sign_update(h, sb) == v);
    let t = async_update(w, s, i);
    let (nb, nq) = bit_update(packed, bits, q, i);
    assert forall|j: int| 0 <= j < t.len() implies #[trigger] t[j] == 1 || t[j] == -1 by {
        if j != i {
            assert(t[j] == s[j]);
        }
    }
    if v == s[i] {
        assert(t =~= s);
    } else {
        let d = v - s[i];
        assert(i < 64 * bits.len());
        assert(i / 64 < bits.len());
        assert forall|j: int| 0 <= j < 64 * bits.len() implies #[trigger] bit_at(nb, j) == if j == i {
            v == -1
        } else {
            bit_at(bits, j)
        } by {
            lemma_write_bit(bits, i, v == -1, j);
        }
        assert forall|j: int| 0 <= j < n implies #[trigger] bit_at(nb, j) == (t[j] < 0) by {
            if j != i {
                assert(t[j] == s[j]);
            }
        }
        assert forall|mu: int| 0 <= mu < patterns.len() implies #[trigger] nq[mu] == spin_dot(
            patterns[mu]@,
            t,
            n,
        ) by {
            assert(patterns[mu]@.len() == n);
            assert(is_spin_vector(patterns[mu]@));
            assert(bit_at(packed[mu]@, i) == (patterns[mu]@[i] < 0));
            assert(patterns[mu]@[i] == 1 || patterns[mu]@[i] == -1);
            assert(pattern_spin(packed, mu, i) == patterns[mu]@[i]);
            lemma_spin_dot_update(patterns[mu]@, s, i, v, n);
            lemma_spin_dot_bound(patterns[mu]@, t, n);
            assert(q[mu] == spin_dot(patterns[mu]@, s, n));
        }
    }
}

/// A pass of the packed engine over any order of neurons, started from the
/// packed form of a spin state and its overlaps with the stored patterns,
/// ends in the packed form of the state that a pass of the Hebbian matrix
/// engine over the same order reaches, with the overlaps of that state, and
/// changes as many neurons.
pub proof fn packed_engine_matches_matrix_engine(
    packed: Seq<Vec<u64>>,
    patterns: Seq<Vec<i8>>,
    w: Seq<Vec<i64>>,
    bits: Seq<u64>,
    q: Seq<i32>,
    s: Seq<i8>,
    order: Seq<usize>,
)
    requires
        s.len() <= i32::MAX,
        packs_patterns(packed, patterns, s.len() as int),
        is_hebbian_matrix(w, patterns, s.len() as int),
        engine_states_agree(patterns, bits, q, s, s.len() as int),
        forall|k: int| 0 <= k < order.len() ==> #[trigger] order[k] < s.len(),
    ensures
        ({
            let (nb, nq) = bit_pass(packed, bits, q, order);
            &&& engine_states_agree(patterns, nb, nq, async_pass(w, s, order), s.len() as int)
            &&& nb.len() == bits.len()
            &&& forall|j: int|
                s.len() <= j < 64 * bits.len() ==> #[trigger] bit_at(nb, j) == bit_at(bits, j)
        }),
        bit_flips_in_pass(packed, bits, q, order) == flips_in_pass(w, s, order),
    decreases order.len(),
{
    if order.len() > 0 {
        let prefix = order.drop_last();
        assert forall|k: int| 0 <= k < prefix.len() implies #[trigger] prefix[k] < s.len() by {
            assert(prefix[k] == order[k]);
        }
        packed_engine_matches_matrix_engine(packed, patterns, w, bits, q, s, prefix);
        let (pb, pq) = bit_pass(packed, bits, q, prefix);
        let ps = async_pass(w, s, prefix);
        packed_update_matches(packed, patterns, w, pb, pq, ps, order.last() as int);
        let (nb, nq) = bit_update(packed, pb, pq, order.last() as int);
        assert forall|j: int| s.len() <= j < 64 * bits.len() implies #[trigger] bit_at(nb, j) == bit_at(
            bits,
            j,
        ) by {
            assert(bit_at(nb, j) == bit_at(pb, j));
        }
    }
}

proof fn lemma_bits_overlap_is_spin_dot(pattern: Seq<u64>, bits: Seq<u64>, xi: Seq<i8>, s: Seq<i8>, k: int)
    requires
        is_spin_vector(xi),
        is_spin_vector(s),
        0 <= k <= xi.len(),
        k <= s.len(),
        forall|i: int| 0 <= i < xi.len() ==> #[trigger] bit_at(pattern, i) == (xi[i] < 0),
        forall|i: int| 0 <= i < s.len() ==> #[trigger] bit_at(bits, i) == (s[i] < 0),
    ensures
        bits_overlap(pattern, bits, k) == spin_dot(xi, s, k),
    decreases k,
{
    if k > 0 {
        lemma_bits_overlap_is_spin_dot(pattern, bits, xi, s, k - 1);
        assert(xi[k - 1] == 1 || xi[k - 1] == -1);
        assert(s[k - 1] == 1 || s[k - 1] == -1);
        assert(spin_of_bit(bit_at(pattern, k - 1)) == xi[k - 1]);
        assert(spin_of_bit(bit_at(bits, k - 1)) == s[k - 1]);
    }
}

/// The overlaps that `calculate_initial_overlaps` computes from packed spin
/// vectors are the overlaps of the state with the patterns and are
/// consistent with the packed state, so a recall pass of the packed engine
/// may start from them.
pub proof fn initial_overlaps_are_consistent(
    packed: Seq<Vec<u64>>,
    patterns: Seq<Vec<i8>>,
    bits: Seq<u64>,
    s: Seq<i8>,
    q: Seq<i32>,
)
    requires
        is_spin_vector(s),
        2 * s.len() <= i32::MAX,
        packs(bits, s),
        packed.len() == patterns.len(),
        forall|mu: int|
            0 <= mu < patterns.len() ==> (#[trigger] patterns[mu])@.len() == s.len() && is_spin_vector(
                patterns[mu]@,
            ) && packs(packed[mu]@, patterns[mu]@),
        q.len() == packed.len(),
        forall|mu: int|
            0 <= mu < packed.len() ==> #[trigger] q[mu] as int == packed_overlap(
                bits,
                packed[mu]@,
                s.len() as usize,
            ),
    ensures
        overlaps_consistent(packed, bits, q, s.len() as int),
        engine_states_agree(patterns, bits, q, s, s.len() as int),
        packs_patterns(packed, patterns, s.len() as int),
{
    let n = s.len() as int;
    assert(n <= 64 * words_for(n));
    assert forall|mu: int| 0 <= mu < packed.len() implies n <= 64 * (#[trigger] packed[mu])@.len() && q[mu]
        == bits_overlap(packed[mu]@, bits, n) && q[mu] == spin_dot(patterns[mu]@, s, n) by {
        assert(patterns[mu]@.len() == n);
        packed_overlap_is_spin_overlap(bits, packed[mu]@, s, patterns[mu]@);
        lemma_bits_overlap_is_spin_dot(packed[mu]@, bits, patterns[mu]@, s, n);
    }
    assert forall|mu: int| 0 <= mu < patterns.len() implies #[trigger] q[mu] == spin_dot(patterns[mu]@, s, n) by {
        assert(q[mu] == spin_dot(patterns[mu]@, s, n));
    }
}

/// With the same seed and the same mask, a recall pass of the packed engine
/// (`neuron_fix_bit`) and one of the Hebbian matrix engine (`neuron_fix`)
/// visit the same neurons in the same order: started from the packed form
/// of a spin state with its overlaps, the packed pass ends in the packed
/// form of the state that the matrix pass reaches, with that state's
/// overlaps, and both change as many neurons.
pub proof fn same_seed_passes_agree(
    packed: Seq<Vec<u64>>,
    patterns: Seq<Vec<i8>>,
    w: Seq<Vec<i64>>,
    bits: Seq<u64>,
    q: Seq<i32>,
    s: Seq<i8>,
    mask: Option<Seq<bool>>,
    seed: u64,
)
    requires
        s.len() <= i32::MAX,
        packs_patterns(packed, patterns, s.len() as int),
        is_hebbian_matrix(w, patterns, s.len() as int),
        engine_states_agree(patterns, bits, q, s, s.len() as int),
        is_permutation_of(
            seeded_shuffle(active_indices(s.len() as int, mask), seed),
            active_indices(s.len() as int, mask),
        ),
    ensures
        ({
            let order = seeded_shuffle(active_indices(s.len() as int, mask), seed);
            let (nb, nq) = bit_pass(packed, bits, q, order);
            &&& engine_states_agree(patterns, nb, nq, async_pass(w, s, order), s.len() as int)
            &&& bit_flips_in_pass(packed, bits, q, order) == flips_in_pass(w, s, order)
        }),
{
    let n = s.len() as int;
    let order = seeded_shuffle(active_indices(n, mask), seed);
    lemma_active_indices(n, mask);
    lemma_permutation_facts(order, active_indices(n, mask));
    assert forall|k: int| 0 <= k < order.len() implies #[trigger] order[k] < s.len() by {
        assert(order.contains(order[k]));
        let m = choose|m: int| 0 <= m < active_indices(n, mask).len() && active_indices(n, mask)[m] == order[k];
        assert(is_active(n, mask, active_indices(n, mask)[m] as int));
    }
    packed_engine_matches_matrix_engine(packed, patterns, w, bits, q, s, order);
}

/// Calls of the packed engine can be chained: after a pass over neurons
/// below `n`, started from a state packed as `pack_bits` packs a spin
/// vector and from the overlaps that `calculate_initial_overlaps` computes
/// for it, the state is still the packing of a spin vector (the bits from
/// `n` on stay clear), and the overlaps are those that
/// `calculate_initial_overlaps` would compute afresh from it.
pub proof fn packed_pass_keeps_fresh_overlaps(
    packed: Seq<Vec<u64>>,
    patterns: Seq<Vec<i8>>,
    bits: Seq<u64>,
    s: Seq<i8>,
    q: Seq<i32>,
    order: Seq<usize>,
)
    requires
        is_spin_vector(s),
        2 * s.len() <= i32::MAX,
        packs(bits, s),
        packed.len() == patterns.len(),
        forall|mu: int|
            0 <= mu < patterns.len() ==> (#[trigger] patterns[mu])@.len() == s.len() && is_spin_vector(
                patterns[mu]@,
            ) && packs(packed[mu]@, patterns[mu]@),
        q.len() == packed.len(),
        forall|mu: int|
            0 <= mu < packed.len() ==> #[trigger] q[mu] as int == packed_overlap(
                bits,
                packed[mu]@,
                s.len() as usize,
            ),
        forall|k: int| 0 <= k < order.len() ==> #[trigger] order[k] < s.len(),
    ensures
        ({
            let (nb, nq) = bit_pass(packed, bits, q, order);
            let t = Seq::new(s.len(), |i: int| spin_of_bit(bit_at(nb, i)) as i8);
            &&& is_spin_vector(t)
            &&& packs(nb, t)
            &&& nq.len() == q.len()
            &&& forall|mu: int|
                0 <= mu < packed.len() ==> #[trigger] nq[mu] as int == packed_overlap(
                    nb,
                    packed[mu]@,
                    s.len() as usize,
                ) && packed_overlap_fits(nb, packed[mu]@, s.len() as usize)
        }),
{
    let n = s.len() as int;
    initial_overlaps_are_consistent(packed, patterns, bits, s, q);
    assert(n <= 64 * words_for(n));
    bit_pass_keeps_overlaps_consistent(packed, bits, q, order, n);
    bit_pass_keeps_bits_past(packed, bits, q, order, n);
    let (nb, nq) = bit_pass(packed, bits, q, order);
    let t = Seq::new(s.len(), |i: int| spin_of_bit(bit_at(nb, i)) as i8);
    assert(is_spin_vector(t));
    assert forall|i: int| 0 <= i < t.len() implies #[trigger] bit_at(nb, i) == (t[i] < 0) by {}
    assert forall|i: int| t.len() <= i < 64 * nb.len() implies !#[trigger] bit_at(nb, i) by {
        assert(bit_at(nb, i) == bit_at(bits, i));
    }
    assert(packs(nb, t));
    assert forall|mu: int| 0 <= mu < packed.len() implies #[trigger] nq[mu] as int == packed_overlap(
        nb,
        packed[mu]@,
        s.len() as usize,
    ) && packed_overlap_fits(nb, packed[mu]@, s.len() as usize) by {
        packed_overlap_is_spin_overlap(nb, packed[mu]@, t, patterns[mu]@);
        lemma_bits_overlap_is_spin_dot(packed[mu]@, nb, patterns[mu]@, t, n);
    }
}

/// The state after recall passes of the matrix engine over the first `n`
/// neurons, the pass number `t` shuffled with `seeds[t]`.
pub open spec fn passes_with_seeds(
    w: Seq<Vec<i64>>,
    s: Seq<i8>,
    n: int,
    mask: Option<Seq<bool>>,
    seeds: Seq<u64>,
) -> Seq<i8>
    decreases seeds.len(),
{
    if seeds.len() == 0 {
        s
    } else {
        async_pass(
            w,
            passes_with_seeds(w, s, n, mask, seeds.drop_last()),
            seeded_shuffle(active_indices(n, mask), seeds.last()),
        )
    }
}

/// The packed state and overlaps after recall passes of the packed engine
/// over the first `n` neurons, the pass number `t` shuffled with `seeds[t]`.
pub open spec fn bit_passes_with_seeds(
    packed: Seq<Vec<u64>>,
    bits: Seq<u64>,
    q: Seq<i32>,
    n: int,
    mask: Option<Seq<bool>>,
    seeds: Seq<u64>,
) -> (Seq<u64>, Seq<i32>)
    decreases seeds.len(),
{
    if seeds.len() == 0 {
        (bits, q)
    } else {
        let prev = bit_passes_with_seeds(packed, bits, q, n, mask, seeds.drop_last());
        bit_pass(packed, prev.0, prev.1, seeded_shuffle(active_indices(n, mask), seeds.last()))
    }
}

/// Repeated passes stay in step: passes of the packed engine and of the
/// Hebbian matrix engine with the same seeds, one after another, keep the
/// packed state the packing of the matrix engine's state and the overlaps
/// that state's overlaps.
pub proof fn same_seeds_runs_agree(
    packed: Seq<Vec<u64>>,
    patterns: Seq<Vec<i8>>,
    w: Seq<Vec<i64>>,
    bits: Seq<u64>,
    q: Seq<i32>,
    s: Seq<i8>,
    mask: Option<Seq<bool>>,
    seeds: Seq<u64>,
)
    requires
        s.len() <= i32::MAX,
        packs_patterns(packed, patterns, s.len() as int),
        is_hebbian_matrix(w, patterns, s.len() as int),
        engine_states_agree(patterns, bits, q, s, s.len() as int),
        forall|t: int|
            0 <= t < seeds.len() ==> is_permutation_of(
                #[trigger] seeded_shuffle(active_indices(s.len() as int, mask), seeds[t]),
                active_indices(s.len() as int, mask),
            ),
    ensures
        ({
            let (nb, nq) = bit_passes_with_seeds(packed, bits, q, s.len() as int, mask, seeds);
            engine_states_agree(
                patterns,
                nb,
                nq,
                passes_with_seeds(w, s, s.len() as int, mask, seeds),
                s.len() as int,
            )
        }),
    decreases seeds.len(),
{
    if seeds.len() > 0 {
        let n = s.len() as int;
        let prefix = seeds.drop_last();
        assert forall|t: int| 0 <= t < prefix.len() implies is_permutation_of(
            #[trigger] seeded_shuffle(active_indices(n, mask), prefix[t]),
            active_indices(n, mask),
        ) by {
            assert(prefix[t] == seeds[t]);
            assert(is_permutation_of(seeded_shuffle(active_indices(n, mask), seeds[t]), active_indices(n, mask)));
        }
        same_seeds_runs_agree(packed, patterns, w, bits, q, s, mask, prefix);
        let (pb, pq) = bit_passes_with_seeds(packed, bits, q, n, mask, prefix);
        let ps = passes_with_seeds(w, s, n, mask, prefix);
        assert(is_permutation_of(seeded_shuffle(active_indices(n, mask), seeds[seeds.len() - 1]), active_indices(n, mask)));
        same_seed_passes_agree(packed, patterns, w, pb, pq, ps, mask, seeds.last());
    }
}

} // verus!
