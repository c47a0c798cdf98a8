//! The energy function of the network is a Lyapunov function of the
//! asynchronous dynamics: with symmetric weights and a zero diagonal, no
//! update raises it and every change of state lowers it.

use vstd::prelude::*;
use crate::dynamics::{
    async_pass, async_update, double_energy, flips_at, flips_in_pass, is_spin_vector, negate_all,
    local_field, next_spin, quadratic_prefix, row_covers, square_covers, weighted_sum,
};

verus! {

/// `w` is an `n x n` symmetric matrix with a zero diagonal.
pub open spec fn is_symmetric_zero_diagonal(w: Seq<Vec<i64>>, n: int) -> bool {
    &&& square_covers(w, n)
    &&& forall|i: int, j: int| 0 <= i < n && 0 <= j < n ==> #[trigger] w[i]@[j] == w[j]@[i]
    &&& forall|i: int| 0 <= i < n ==> #[trigger] w[i]@[i] == 0
}

/// `sum_{a < k} s[a] * w[a][i]`: the field that neuron `i` sends out.
pub open spec fn column_sum(w: Seq<Vec<i64>>, s: Seq<i8>, i: int, k: int) -> int
    decreases k,
{
    if k <= 0 {
        0
    } else {
        column_sum(w, s, i, k - 1) + s[k - 1] * w[k - 1]@[i]
    }
}

proof fn lemma_mul_split(a: int, b: int, d: int)
    ensures
        a * (b + d) == a * b + a * d,
        (b + d) * a == b * a + d * a,
{
    assert(a * (b + d) == a * b + a * d && (b + d) * a == b * a + d * a) by (nonlinear_arith);
}

/// Changing `s[i]` moves a weighted sum by `row[i]` times the change.
proof fn lemma_weighted_sum_update(row: Seq<i64>, s: Seq<i8>, i: int, v: i8, k: int)
    requires
        0 <= i < s.len(),
        0 <= k <= s.len(),
    ensures
        weighted_sum(row, s.update(i, v), k) == weighted_sum(row, s, k) + if i < k {
            row[i] * (v - s[i])
        } else {
            0
        },
    decreases k,
{
    if k > 0 {
        lemma_weighted_sum_update(row, s, i, v, k - 1);
        if k - 1 == i {
            lemma_mul_split(row[i] as int, s[i] as int, v - s[i]);
        }
    }
}

/// With a symmetric matrix the outgoing field equals the local field.
proof fn lemma_column_is_row(w: Seq<Vec<i64>>, s: Seq<i8>, i: int, k: int)
    requires
        is_symmetric_zero_diagonal(w, s.len() as int),
        0 <= i < s.len(),
        0 <= k <= s.len(),
    ensures
        column_sum(w, s, i, k) == weighted_sum(w[i]@, s, k),
    decreases k,
{
    if k > 0 {
        lemma_column_is_row(w, s, i, k - 1);
        assert(w[k - 1]@[i] == w[i]@[k - 1]);
        assert(s[k - 1] * w[k - 1]@[i] == w[i]@[k - 1] * s[k - 1]) by (nonlinear_arith)
            requires
                w[k - 1]@[i] == w[i]@[k - 1],
        ;
    }
}

/// How the quadratic form moves when one spin changes by `d`.
proof fn lemma_quadratic_update(w: Seq<Vec<i64>>, s: Seq<i8>, i: int, v: i8, k: int)
    requires
        is_symmetric_zero_diagonal(w, s.len() as int),
        0 <= i < s.len(),
        0 <= k <= s.len(),
    ensures
        quadratic_prefix(w, s.update(i, v), k) == quadratic_prefix(w, s, k) + (v - s[i])
            * column_sum(w, s, i, k) + if i < k {
            (v - s[i]) * local_field(w, s, i)
        } else {
            0
        },
    decreases k,
{
    let t = s.update(i, v);
    let d = v - s[i];
    if k > 0 {
        lemma_quadratic_update(w, s, i, v, k - 1);
        let a = k - 1;
        assert(row_covers(w, a, s.len() as int));
        lemma_weighted_sum_update(w[a]@, s, i, v, s.len() as int);
        assert(local_field(w, t, a) == local_field(w, s, a) + w[a]@[i] * d);
        let lf = local_field(w, s, a);
        let wai = w[a]@[i] as int;
        if a == i {
            assert(wai == 0);
            assert(t[a] == v);
            assert(v * (lf + wai * d) == s[i] * lf + d * (s[i] * wai) + d * lf) by (nonlinear_arith)
                requires
                    wai == 0,
                    d == v - s[i],
            ;
        } else {
            assert(t[a] == s[a]);
            assert(s[a] * (lf + wai * d) == s[a] * lf + d * (s[a] * wai)) by (nonlinear_arith);
        }
        lemma_mul_split(d, column_sum(w, s, i, k - 1), s[a] * wai);
    }
}

/// A single update changes twice the energy by `-2 (s_new - s_old) h_i`.
pub proof fn lemma_update_energy_change(w: Seq<Vec<i64>>, s: Seq<i8>, i: int)
    requires
        is_symmetric_zero_diagonal(w, s.len() as int),
        0 <= i < s.len(),
    ensures
        double_energy(w, async_update(w, s, i)) == double_energy(w, s) - 2 * (next_spin(
            local_field(w, s, i),
            s[i],
        ) - s[i]) * local_field(w, s, i),
{
    let v = next_spin(local_field(w, s, i), s[i]);
    lemma_quadratic_update(w, s, i, v, s.len() as int);
    lemma_column_is_row(w, s, i, s.len() as int);
    let d = v - s[i];
    let h = local_field(w, s, i);
    assert(d * h + d * h == 2 * d * h) by (nonlinear_arith);
}

/// An update of a spin by the sign rule never raises the energy, and a
/// change of state lowers twice the energy by at least 4.
pub proof fn energy_never_rises_on_update(w: Seq<Vec<i64>>, s: Seq<i8>, i: int)
    requires
        is_symmetric_zero_diagonal(w, s.len() as int),
        is_spin_vector(s),
        0 <= i < s.len(),
    ensures
        double_energy(w, async_update(w, s, i)) <= double_energy(w, s),
        flips_at(w, s, i) ==> double_energy(w, async_update(w, s, i)) + 4 <= double_energy(w, s),
        is_spin_vector(async_update(w, s, i)),
{
    lemma_update_energy_change(w, s, i);
    let h = local_field(w, s, i);
    let v = next_spin(h, s[i]);
    let d = v - s[i];
    assert(s[i] == 1 || s[i] == -1);
    if h > 0 {
        assert(d >= 0);
        assert(d * h >= 0) by (nonlinear_arith)
            requires
                d >= 0,
                h > 0,
        ;
        if d != 0 {
            assert(d == 2);
            assert(2 * d * h >= 4) by (nonlinear_arith)
                requires
                    d == 2,
                    h >= 1,
            ;
        }
    } else if h < 0 {
        assert(d <= 0);
        assert(d * h >= 0) by (nonlinear_arith)
            requires
                d <= 0,
                h < 0,
        ;
        if d != 0 {
            assert(d == -2);
            assert(2 * d * h >= 4) by (nonlinear_arith)
                requires
                    d == -2,
                    h <= -1,
            ;
        }
    } else {
        assert(d == 0);
    }
    assert(2 * d * h >= 0) by (nonlinear_arith)
        requires
            d * h >= 0,
    ;
    let t = async_update(w, s, i);
    assert forall|j: int| 0 <= j < t.len() implies #[trigger] t[j] == 1 || t[j] == -1 by {
        if j != i {
            assert(t[j] == s[j]);
        }
    }
}

/// Along an asynchronous pass with a symmetric, zero-diagonal weight matrix,
/// the energy never rises, and every neuron that changes lowers twice the
/// energy by at least 4: `E2(after) + 4 * changes <= E2(before)`.
pub proof fn energy_never_rises_along_pass(w: Seq<Vec<i64>>, s: Seq<i8>, order: Seq<usize>)
    requires
        is_symmetric_zero_diagonal(w, s.len() as int),
        is_spin_vector(s),
        forall|k: int| 0 <= k < order.len() ==> #[trigger] order[k] < s.len(),
    ensures
        double_energy(w, async_pass(w, s, order)) + 4 * flips_in_pass(w, s, order) <= double_energy(
            w,
            s,
        ),
        is_spin_vector(async_pass(w, s, order)),
        async_pass(w, s, order).len() == s.len(),
    decreases order.len(),
{
    if order.len() > 0 {
        let prefix = order.drop_last();
        assert forall|k: int| 0 <= k < prefix.len() implies #[trigger] prefix[k] < s.len() by {
            assert(prefix[k] == order[k]);
        }
        energy_never_rises_along_pass(w, s, prefix);
        let prev = async_pass(w, s, prefix);
        energy_never_rises_on_update(w, prev, order.last() as int);
    }
}

/// `sum_{j < k} |row[j]|`.
pub open spec fn abs_row_sum(row: Seq<i64>, k: int) -> int
    decreases k,
{
    if k <= 0 {
        0
    } else {
        abs_row_sum(row, k - 1) + if row[k - 1] < 0 {
            -row[k - 1]
        } else {
            row[k - 1] as int
        }
    }
}

/// `sum_{i < k} sum_{j < n} |w[i][j]|`.
pub open spec fn magnitude_prefix(w: Seq<Vec<i64>>, n: int, k: int) -> int
    decreases k,
{
    if k <= 0 {
        0
    } else {
        magnitude_prefix(w, n, k - 1) + abs_row_sum(w[k - 1]@, n)
    }
}

/// The total magnitude `sum_i sum_j |w[i][j]|` of an `n x n` weight matrix.
pub open spec fn weight_magnitude(w: Seq<Vec<i64>>, n: int) -> int {
    magnitude_prefix(w, n, n)
}

/// A field of spins is at most the magnitude of its row.
proof fn lemma_weighted_sum_bound(row: Seq<i64>, s: Seq<i8>, k: int)
    requires
        is_spin_vector(s),
        0 <= k <= s.len(),
        k <= row.len(),
    ensures
        -abs_row_sum(row, k) <= weighted_sum(row, s, k) <= abs_row_sum(row, k),
    decreases k,
{
    if k > 0 {
        lemma_weighted_sum_bound(row, s, k - 1);
        let r = row[k - 1] as int;
        let x = s[k - 1] as int;
        assert(x == 1 || x == -1);
        let a = if r < 0 {
            -r
        } else {
            r
        };
        assert(-a <= r * x <= a) by (nonlinear_arith)
            requires
                x == 1 || x == -1,
                a == if r < 0 {
                    -r
                } else {
                    r
                },
        ;
    }
}

/// The quadratic form of a spin state is at most the weight magnitude.
proof fn lemma_quadratic_bound(w: Seq<Vec<i64>>, s: Seq<i8>, k: int)
    requires
        is_spin_vector(s),
        square_covers(w, s.len() as int),
        0 <= k <= s.len(),
    ensures
        quadratic_prefix(w, s, k) <= magnitude_prefix(w, s.len() as int, k),
    decreases k,
{
    if k > 0 {
        lemma_quadratic_bound(w, s, k - 1);
        let i = k - 1;
        assert(row_covers(w, i, s.len() as int));
        lemma_weighted_sum_bound(w[i]@, s, s.len() as int);
        let h = local_field(w, s, i);
        let m = abs_row_sum(w[i]@, s.len() as int);
        let x = s[i] as int;
        assert(x == 1 || x == -1);
        assert(x * h <= m) by (nonlinear_arith)
            requires
                x == 1 || x == -1,
                -m <= h <= m,
        ;
    }
}

/// The energy of a spin state is bounded below: twice the energy is at
/// least minus the total weight magnitude.
pub proof fn energy_is_bounded_below(w: Seq<Vec<i64>>, s: Seq<i8>)
    requires
        is_spin_vector(s),
        square_covers(w, s.len() as int),
    ensures
        double_energy(w, s) >= -weight_magnitude(w, s.len() as int),
{
    lemma_quadratic_bound(w, s, s.len() as int);
}

/// No entry is `i8::MIN`, so every entry has a negation.
pub open spec fn negatable(s: Seq<i8>) -> bool {
    forall|i: int| 0 <= i < s.len() ==> #[trigger] s[i] != i8::MIN
}

proof fn lemma_weighted_sum_negated(row: Seq<i64>, s: Seq<i8>, k: int)
    requires
        negatable(s),
        0 <= k <= s.len(),
    ensures
        weighted_sum(row, negate_all(s), k) == -weighted_sum(row, s, k),
    decreases k,
{
    if k > 0 {
        lemma_weighted_sum_negated(row, s, k - 1);
        let x = s[k - 1] as int;
        assert(x != i8::MIN);
        assert(negate_all(s)[k - 1] == -x);
        let r = row[k - 1] as int;
        assert(r * (-x) == -(r * x)) by (nonlinear_arith);
    }
}

proof fn lemma_quadratic_negated(w: Seq<Vec<i64>>, s: Seq<i8>, k: int)
    requires
        negatable(s),
        0 <= k <= s.len(),
    ensures
        quadratic_prefix(w, negate_all(s), k) == quadratic_prefix(w, s, k),
    decreases k,
{
    if k > 0 {
        lemma_quadratic_negated(w, s, k - 1);
        lemma_weighted_sum_negated(w[k - 1]@, s, s.len() as int);
        let x = s[k - 1] as int;
        assert(x != i8::MIN);
        assert(negate_all(s)[k - 1] == -x);
        let h = local_field(w, s, k - 1);
        assert(local_field(w, negate_all(s), k - 1) == -h);
        assert((-x) * (-h) == x * h) by (nonlinear_arith);
    }
}

/// Flipping every spin changes no energy: a state and its negation are
/// equally deep, for any weights and any state whose entries all have a
/// negation (every spin state among them).
pub proof fn energy_is_unchanged_by_global_flip(w: Seq<Vec<i64>>, s: Seq<i8>)
    requires
        negatable(s),
    ensures
        double_energy(w, negate_all(s)) == double_energy(w, s),
        is_spin_vector(s) ==> is_spin_vector(negate_all(s)),
{
    lemma_quadratic_negated(w, s, s.len() as int);
    if is_spin_vector(s) {
        assert forall|i: int| 0 <= i < negate_all(s).len() implies #[trigger] negate_all(s)[i] == 1
            || negate_all(s)[i] == -1 by {
            assert(s[i] == 1 || s[i] == -1);
        }
    }
}

} // verus!
