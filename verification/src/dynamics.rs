//! The classical Hopfield dynamics on a weight matrix: asynchronous and
//! synchronous sign updates, and the network energy.
//!
//! Neuron states are `i8` values (a stored pattern holds `1` and `-1`) and
//! weights are integers. The Hebbian matrix of this crate keeps the sums
//! `sum_mu xi_i xi_j` without the `1 / N` factor: dividing every weight by the
//! same positive number changes no sign, so the dynamics are the same.

use vstd::prelude::*;

verus! {

/// Every entry is a spin, `1` or `-1`.
pub open spec fn is_spin_vector(v: Seq<i8>) -> bool {
    forall|i: int| 0 <= i < v.len() ==> #[trigger] v[i] == 1 || v[i] == -1
}

/// Every entry negated.
pub open spec fn negate_all(v: Seq<i8>) -> Seq<i8> {
    Seq::new(v.len(), |i: int| (-v[i]) as i8)
}

/// `sum_{j < k} a[j] * b[j]`: for two spin vectors of `k` neurons, their
/// overlap times `k`.
pub open spec fn spin_dot(a: Seq<i8>, b: Seq<i8>, k: int) -> int
    decreases k,
{
    if k <= 0 {
        0
    } else {
        spin_dot(a, b, k - 1) + a[k - 1] * b[k - 1]
    }
}

/// A spin vector's dot product with itself over `k` neurons is `k`.
pub proof fn lemma_self_dot(a: Seq<i8>, k: int)
    requires
        is_spin_vector(a),
        0 <= k <= a.len(),
    ensures
        spin_dot(a, a, k) == k,
    decreases k,
{
    if k > 0 {
        lemma_self_dot(a, k - 1);
        let x = a[k - 1];
        assert(x * x == 1) by (nonlinear_arith)
            requires
                x == 1 || x == -1,
        ;
    }
}

/// The overlap of two spin vectors over `k` neurons lies in `[-k, k]`, has
/// the parity of `k`, and equals `k` exactly when they agree on all `k`
/// neurons.
pub proof fn spin_overlap_bounds(a: Seq<i8>, b: Seq<i8>, k: int)
    requires
        is_spin_vector(a),
        is_spin_vector(b),
        0 <= k <= a.len(),
        k <= b.len(),
    ensures
        -k <= spin_dot(a, b, k) <= k,
        (spin_dot(a, b, k) - k) % 2 == 0,
        (spin_dot(a, b, k) == k) == (forall|i: int| 0 <= i < k ==> #[trigger] a[i] == b[i]),
    decreases k,
{
    if k > 0 {
        spin_overlap_bounds(a, b, k - 1);
        let x = a[k - 1];
        let y = b[k - 1];
        assert(x == 1 || x == -1);
        assert(y == 1 || y == -1);
        let t = x * y;
        assert(t == 1 || t == -1) by (nonlinear_arith)
            requires
                x == 1 || x == -1,
                y == 1 || y == -1,
                t == x * y,
        ;
        assert((t == 1) == (x == y)) by (nonlinear_arith)
            requires
                x == 1 || x == -1,
                y == 1 || y == -1,
                t == x * y,
        ;
        let d = spin_dot(a, b, k - 1);
        assert((d + t - k) % 2 == 0) by (nonlinear_arith)
            requires
                (d - (k - 1)) % 2 == 0,
                t == 1 || t == -1,
        ;
        if spin_dot(a, b, k) == k {
            assert(d == k - 1 && t == 1);
            assert forall|i: int| 0 <= i < k implies #[trigger] a[i] == b[i] by {
                if i < k - 1 {
                    assert(a[i] == b[i]);
                }
            }
        }
        if forall|i: int| 0 <= i < k ==> #[trigger] a[i] == b[i] {
            assert(a[k - 1] == b[k - 1]);
            assert(forall|i: int| 0 <= i < k - 1 ==> #[trigger] a[i] == b[i]);
        }
    }
}

/// Changing `s[i]` to `v` moves a dot product by `a[i] (v - s[i])`.
pub proof fn lemma_spin_dot_update(a: Seq<i8>, s: Seq<i8>, i: int, v: i8, k: int)
    requires
        0 <= i < s.len(),
        0 <= k <= s.len(),
    ensures
        spin_dot(a, s.update(i, v), k) == spin_dot(a, s, k) + if i < k {
            a[i] * (v - s[i])
        } else {
            0
        },
    decreases k,
{
    if k > 0 {
        lemma_spin_dot_update(a, s, i, v, k - 1);
        if k - 1 == i {
            let x = a[i] as int;
            let y = s[i] as int;
            assert(x * v == x * y + x * (v - y)) by (nonlinear_arith);
        }
    }
}

/// `sum_{j < k} row[j] * s[j]`.
pub open spec fn weighted_sum(row: Seq<i64>, s: Seq<i8>, k: int) -> int
    decreases k,
{
    if k <= 0 {
        0
    } else {
        weighted_sum(row, s, k - 1) + row[k - 1] * s[k - 1]
    }
}

/// The local field `h_i = sum_j w[i][j] * s[j]` over all neurons of `s`.
pub open spec fn local_field(w: Seq<Vec<i64>>, s: Seq<i8>, i: int) -> int {
    weighted_sum(w[i]@, s, s.len() as int)
}

/// The sign rule: a positive field gives `1`, a negative one `-1`, and a zero
/// field keeps the current state.
pub open spec fn next_spin(h: int, current: i8) -> i8 {
    if h > 0 {
        1i8
    } else if h < 0 {
        -1i8
    } else {
        current
    }
}

/// The state after neuron `i` alone has been updated by the sign rule.
pub open spec fn async_update(w: Seq<Vec<i64>>, s: Seq<i8>, i: int) -> Seq<i8> {
    s.update(i, next_spin(local_field(w, s, i), s[i]))
}

/// The state after the neurons of `order` have been updated one after
/// another, in that order, each seeing the updates made before it.
pub open spec fn async_pass(w: Seq<Vec<i64>>, s: Seq<i8>, order: Seq<usize>) -> Seq<i8>
    decreases order.len(),
{
    if order.len() == 0 {
        s
    } else {
        async_update(w, async_pass(w, s, order.drop_last()), order.last() as int)
    }
}

/// Whether updating neuron `i` of `s` changes its state.
pub open spec fn flips_at(w: Seq<Vec<i64>>, s: Seq<i8>, i: int) -> bool {
    next_spin(local_field(w, s, i), s[i]) != s[i]
}

/// How many of the updates of `async_pass(w, s, order)` changed a state.
pub open spec fn flips_in_pass(w: Seq<Vec<i64>>, s: Seq<i8>, order: Seq<usize>) -> nat
    decreases order.len(),
{
    if order.len() == 0 {
        0
    } else {
        flips_in_pass(w, s, order.drop_last()) + if flips_at(
            w,
            async_pass(w, s, order.drop_last()),
            order.last() as int,
        ) {
            1nat
        } else {
            0nat
        }
    }
}

/// The state after every neuron has been updated at once from the old state.
pub open spec fn sync_update(w: Seq<Vec<i64>>, s: Seq<i8>) -> Seq<i8> {
    Seq::new(s.len(), |i: int| next_spin(local_field(w, s, i), s[i]))
}

/// `sum_i s[i] * h_i` over the first `k` neurons: the quadratic form
/// `sum_i sum_j w[i][j] s[i] s[j]` when `k` is the number of neurons.
pub open spec fn quadratic_prefix(w: Seq<Vec<i64>>, s: Seq<i8>, k: int) -> int
    decreases k,
{
    if k <= 0 {
        0
    } else {
        quadratic_prefix(w, s, k - 1) + s[k - 1] * local_field(w, s, k - 1)
    }
}

/// Twice the energy `E = -1/2 sum_i sum_j w[i][j] s[i] s[j]` of state `s`.
pub open spec fn double_energy(w: Seq<Vec<i64>>, s: Seq<i8>) -> int {
    -quadratic_prefix(w, s, s.len() as int)
}

/// The rows that neuron `i` reads exist and cover every neuron.
pub open spec fn row_covers(w: Seq<Vec<i64>>, i: int, n: int) -> bool {
    0 <= i < w.len() && w[i]@.len() >= n
}

/// Every row up to `n` covers `n` neurons.
pub open spec fn square_covers(w: Seq<Vec<i64>>, n: int) -> bool {
    forall|i: int| 0 <= i < n ==> #[trigger] row_covers(w, i, n)
}

proof fn lemma_term_bound(a: i64, b: i8)
    ensures
        -0x40_0000_0000_0000_0000 <= a * b <= 0x40_0000_0000_0000_0000,
{
    assert(-0x40_0000_0000_0000_0000 <= a * b <= 0x40_0000_0000_0000_0000) by (nonlinear_arith)
        requires
            -0x8000_0000_0000_0000 <= a <= 0x7FFF_FFFF_FFFF_FFFF,
            -128 <= b <= 127,
    ;
}

/// The field of one neuron, computed in `i128`.
fn field_of(row: &Vec<i64>, states: &[i8]) -> (h: i128)
    requires
        row@.len() >= states@.len(),
        states@.len() <= 0xFF_FFFF_FFFF_FFFF,
    ensures
        h == weighted_sum(row@, states@, states@.len() as int),
        -(states@.len() as int) * 0x40_0000_0000_0000_0000 <= h <= (states@.len() as int)
            * 0x40_0000_0000_0000_0000,
{
    let n = states.len();
    let mut h: i128 = 0;
    let mut j: usize = 0;
    while j < n
        invariant
            n == states@.len(),
            row@.len() >= n,
            n <= 0xFF_FFFF_FFFF_FFFF,
            j <= n,
            h == weighted_sum(row@, states@, j as int),
            -(j as int) * 0x40_0000_0000_0000_0000 <= h <= (j as int) * 0x40_0000_0000_0000_0000,
        decreases n - j,
    {
        proof {
            lemma_term_bound(row@[j as int], states@[j as int]);
        }
        h = h + (row[j] as i128) * (states[j] as i128);
        j = j + 1;
    }
    h
}

/// A copy of a state vector.
pub fn copy_states(states: &[i8]) -> (copy: Vec<i8>)
    ensures
        copy@ == states@,
{
    let mut copy: Vec<i8> = Vec::with_capacity(states.len());
    let mut i: usize = 0;
    while i < states.len()
        invariant
            i <= states@.len(),
            copy@ == states@.take(i as int),
        decreases states@.len() - i,
    {
        copy.push(states[i]);
        i = i + 1;
        assert(copy@ =~= states@.take(i as int));
    }
    assert(states@.take(states@.len() as int) =~= states@);
    copy
}

fn sign_rule(h: i128, current: i8) -> (r: i8)
    ensures
        r == next_spin(h as int, current),
{
    if h > 0 {
        1
    } else if h < 0 {
        -1
    } else {
        current
    }
}

/// One asynchronous pass over the neurons of `order`, in that order: each
/// takes the sign of its local field (and keeps its state on a zero field).
/// Returns how many neurons changed their state.
pub fn neuron_fix_in_order(states: &mut [i8], weight_matrix: &[Vec<i64>], order: &[usize]) -> (changed: usize)
    requires
        old(states)@.len() <= 0xFF_FFFF_FFFF_FFFF,
        forall|k: int|
            0 <= k < order@.len() ==> order@[k] < old(states)@.len() && row_covers(
                weight_matrix@,
                order@[k] as int,
                old(states)@.len() as int,
            ),
    ensures
        final(states)@ == async_pass(weight_matrix@, old(states)@, order@),
        changed == flips_in_pass(weight_matrix@, old(states)@, order@),
{
    let ghost s0 = states@;
    let ghost w = weight_matrix@;
    let mut changed: usize = 0;
    let mut k: usize = 0;
    while k < order.len()
        invariant
            w == weight_matrix@,
            states@.len() == s0.len(),
            s0.len() <= 0xFF_FFFF_FFFF_FFFF,
            k <= order@.len(),
            forall|t: int|
                0 <= t < order@.len() ==> order@[t] < s0.len() && row_covers(
                    w,
                    order@[t] as int,
                    s0.len() as int,
                ),
            states@ == async_pass(w, s0, order@.take(k as int)),
            changed == flips_in_pass(w, s0, order@.take(k as int)),
            changed <= k,
        decreases order@.len() - k,
    {
        let i = order[k];
        assert(row_covers(w, i as int, s0.len() as int));
        let h = field_of(&weight_matrix[i], states);
        let new_val = sign_rule(h, states[i]);
        assert(order@.take(k + 1).drop_last() =~= order@.take(k as int));
        if new_val != states[i] {
            states[i] = new_val;
            changed = changed + 1;
        } else {
            assert(states@ =~= states@.update(i as int, new_val));
        }
        k = k + 1;
    }
    assert(order@.take(order@.len() as int) =~= order@);
    changed
}

/// A synchronous step: every neuron takes the sign of its local field,
/// computed from the state before the step; a zero field keeps the state.
pub fn neuron_fix_sync(states: &mut [i8], weight_matrix: &[Vec<i64>])
    requires
        old(states)@.len() <= 0xFF_FFFF_FFFF_FFFF,
        square_covers(weight_matrix@, old(states)@.len() as int),
    ensures
        final(states)@ == sync_update(weight_matrix@, old(states)@),
{
    let n = states.len();
    let old_states: Vec<i8> = copy_states(states);
    let ghost s0 = old_states@;
    let mut i: usize = 0;
    while i < n
        invariant
            n == states@.len(),
            s0.len() == n,
            old_states@ == s0,
            n <= 0xFF_FFFF_FFFF_FFFF,
            square_covers(weight_matrix@, n as int),
            i <= n,
            forall|t: int| 0 <= t < i ==> states@[t] == sync_update(weight_matrix@, s0)[t],
            forall|t: int| i <= t < n ==> states@[t] == s0[t],
        decreases n - i,
    {
        assert(row_covers(weight_matrix@, i as int, n as int));
        let h = field_of(&weight_matrix[i], old_states.as_slice());
        if h > 0 {
            states[i] = 1;
        } else if h < 0 {
            states[i] = -1;
        }
        i = i + 1;
    }
    assert(states@ =~= sync_update(weight_matrix@, s0));
}

/// Twice the network energy, `-sum_i sum_j w[i][j] s[i] s[j]`, in the
/// integer units of the weights (the energy itself is half of it).
pub fn calculate_energy(states: &[i8], weight_matrix: &[Vec<i64>]) -> (energy: i128)
    requires
        states@.len() <= 0x100_0000,
        square_covers(weight_matrix@, states@.len() as int),
    ensures
        energy == double_energy(weight_matrix@, states@),
{
    let n = states.len();
    let mut sum: i128 = 0;
    let mut i: usize = 0;
    while i < n
        invariant
            n == states@.len(),
            n <= 0x100_0000,
            square_covers(weight_matrix@, n as int),
            i <= n,
            sum == quadratic_prefix(weight_matrix@, states@, i as int),
            -(i as int) * 0x40_0000_0000_0000_0000_0000_0000 <= sum <= (i as int)
                * 0x40_0000_0000_0000_0000_0000_0000,
        decreases n - i,
    {
        assert(row_covers(weight_matrix@, i as int, n as int));
        let h = field_of(&weight_matrix[i], states);
        proof {
            let hi = h as int;
            let si = states@[i as int] as int;
            assert(-0x40_0000_0000_0000_0000_0000_0000 <= si * hi <= 0x40_0000_0000_0000_0000_0000_0000)
                by (nonlinear_arith)
                requires
                    -128 <= si <= 127,
                    -(n as int) * 0x40_0000_0000_0000_0000 <= hi <= (n as int) * 0x40_0000_0000_0000_0000,
                    n <= 0x100_0000,
            ;
        }
        sum = sum + (states[i] as i128) * h;
        i = i + 1;
    }
    -sum
}

} // verus!
