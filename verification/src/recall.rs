//! One asynchronous recall pass in a seeded random order, for the weight
//! matrix engine and for the packed engine, with clamped neurons left out.

use vstd::prelude::*;
use crate::dynamics::{async_pass, async_update, double_energy, flips_at, flips_in_pass, is_spin_vector, local_field, next_spin, neuron_fix_in_order, row_covers};
use crate::bit_engine::{bit_flips_at, bit_flips_in_pass, bit_pass, bit_pass_fits, consistent_pass_fits, neuron_fix_bit_in_order, overlaps_consistent};
use crate::rng::{is_permutation_of, seeded_shuffle, shuffle_with_seed};
use crate::energy::{energy_is_bounded_below, energy_never_rises_along_pass, is_symmetric_zero_diagonal, weight_magnitude};

verus! {

broadcast use vstd::seq_lib::group_to_multiset_ensures;

/// The mask as a sequence, when there is one.
pub open spec fn mask_view(mask: Option<&[bool]>) -> Option<Seq<bool>> {
    match mask {
        Some(m) => Some(m@),
        None => None,
    }
}

/// The mask, when there is one, covers the first `n` neurons.
pub open spec fn mask_covers(mask: Option<Seq<bool>>, n: int) -> bool {
    match mask {
        Some(m) => m.len() >= n,
        None => true,
    }
}

/// Neuron `i` is one of the first `n` and is not clamped (`true` in the
/// mask means clamped).
pub open spec fn is_active(n: int, mask: Option<Seq<bool>>, i: int) -> bool {
    0 <= i < n && match mask {
        Some(m) => !m[i],
        None => true,
    }
}

/// The unclamped neurons among the first `n`, in increasing order.
pub open spec fn active_indices(n: int, mask: Option<Seq<bool>>) -> Seq<usize>
    decreases n,
{
    if n <= 0 {
        Seq::empty()
    } else {
        let prev = active_indices(n - 1, mask);
        if is_active(n, mask, n - 1) {
            prev.push((n - 1) as usize)
        } else {
            prev
        }
    }
}

pub proof fn lemma_active_indices(n: int, mask: Option<Seq<bool>>)
    requires
        n <= usize::MAX,
    ensures
        active_indices(n, mask).no_duplicates(),
        active_indices(n, mask).len() <= if n < 0 {
            0
        } else {
            n
        },
        forall|k: int|
            0 <= k < active_indices(n, mask).len() ==> is_active(
                n,
                mask,
                #[trigger] active_indices(n, mask)[k] as int,
            ),
        forall|i: int| is_active(n, mask, i) ==> active_indices(n, mask).contains(i as usize),
    decreases n,
{
    if n > 0 {
        lemma_active_indices(n - 1, mask);
        let prev = active_indices(n - 1, mask);
        let cur = active_indices(n, mask);
        assert forall|i: int| is_active(n, mask, i) implies cur.contains(i as usize) by {
            if i < n - 1 {
                assert(is_active(n - 1, mask, i));
                let k = choose|k: int| 0 <= k < prev.len() && prev[k] == i as usize;
                assert(cur[k] == i as usize);
            } else {
                assert(cur[cur.len() - 1] == i as usize);
            }
        }
        assert forall|k: int| 0 <= k < cur.len() implies is_active(n, mask, #[trigger] cur[k] as int) by {
            if k < prev.len() {
                assert(cur[k] == prev[k]);
                assert(is_active(n - 1, mask, prev[k] as int));
            }
        }
        assert forall|k: int| 0 <= k < prev.len() implies (#[trigger] prev[k]) < n - 1 by {
            assert(is_active(n - 1, mask, prev[k] as int));
        }
        assert(cur.no_duplicates());
    }
}

/// Rearrangements keep the items, the length, and the absence of repeats.
pub proof fn lemma_permutation_facts(a: Seq<usize>, b: Seq<usize>)
    requires
        is_permutation_of(a, b),
    ensures
        a.len() == b.len(),
        forall|x: usize| a.contains(x) <==> b.contains(x),
        b.no_duplicates() ==> a.no_duplicates(),
{
    assert(a.to_multiset().len() == b.to_multiset().len());
    assert forall|x: usize| a.contains(x) <==> b.contains(x) by {
        assert(a.to_multiset().count(x) == b.to_multiset().count(x));
    }
    if b.no_duplicates() {
        b.lemma_multiset_has_no_duplicates();
        a.lemma_multiset_has_no_duplicates_conv();
    }
}

/// The unclamped neurons among the first `n`, in increasing order.
pub(crate) fn unclamped_indices(n: usize, clamped_mask: Option<&[bool]>) -> (indices: Vec<usize>)
    requires
        mask_covers(mask_view(clamped_mask), n as int),
    ensures
        indices@ == active_indices(n as int, mask_view(clamped_mask)),
{
    let ghost mask = mask_view(clamped_mask);
    let mut indices: Vec<usize> = Vec::new();
    let mut i: usize = 0;
    while i < n
        invariant
            mask == mask_view(clamped_mask),
            mask_covers(mask, n as int),
            i <= n,
            indices@ == active_indices(i as int, mask),
        decreases n - i,
    {
        let keep = match clamped_mask {
            Some(m) => !m[i],
            None => true,
        };
        assert(keep == is_active(i + 1, mask, i as int));
        if keep {
            indices.push(i);
        }
        i = i + 1;
    }
    indices
}

/// No neuron of a pass changed: the state is unchanged and every visited
/// neuron is stable under the sign rule.
pub proof fn lemma_no_flips(w: Seq<Vec<i64>>, s: Seq<i8>, order: Seq<usize>)
    requires
        flips_in_pass(w, s, order) == 0,
        forall|k: int| 0 <= k < order.len() ==> #[trigger] order[k] < s.len(),
    ensures
        async_pass(w, s, order) == s,
        forall|k: int| 0 <= k < order.len() ==> !flips_at(w, s, #[trigger] order[k] as int),
    decreases order.len(),
{
    if order.len() > 0 {
        let prefix = order.drop_last();
        lemma_no_flips(w, s, prefix);
        let i = order.last() as int;
        assert(async_update(w, s, i) =~= s);
        assert forall|k: int| 0 <= k < order.len() implies !flips_at(w, s, #[trigger] order[k] as int) by {
            if k < order.len() - 1 {
                assert(order[k] == prefix[k]);
            }
        }
    }
}

/// The number of positions `j < k` at which two state vectors differ.
pub open spec fn differing_count(a: Seq<i8>, b: Seq<i8>, k: int) -> nat
    decreases k,
{
    if k <= 0 {
        0
    } else {
        differing_count(a, b, k - 1) + if a[k - 1] != b[k - 1] {
            1nat
        } else {
            0nat
        }
    }
}

proof fn lemma_differing_count_update(a: Seq<i8>, t: Seq<i8>, i: int, v: i8, k: int)
    requires
        0 <= i < t.len(),
        t[i] == a[i],
        0 <= k <= t.len(),
    ensures
        differing_count(a, t.update(i, v), k) == differing_count(a, t, k) + if i < k && v != a[i] {
            1nat
        } else {
            0nat
        },
    decreases k,
{
    if k > 0 {
        lemma_differing_count_update(a, t, i, v, k - 1);
    }
}

/// In a pass that visits each neuron at most once, the number of changes is
/// the number of neurons whose state differs afterwards.
pub proof fn changes_are_differing_neurons(w: Seq<Vec<i64>>, s: Seq<i8>, order: Seq<usize>)
    requires
        order.no_duplicates(),
        forall|k: int| 0 <= k < order.len() ==> #[trigger] order[k] < s.len(),
    ensures
        flips_in_pass(w, s, order) == differing_count(s, async_pass(w, s, order), s.len() as int),
        async_pass(w, s, order).len() == s.len(),
        forall|j: int|
            0 <= j < s.len() && !order.contains(j as usize) ==> #[trigger] async_pass(w, s, order)[j]
                == s[j],
    decreases order.len(),
{
    if order.len() == 0 {
        lemma_differing_count_self(s, s.len() as int);
    } else {
        let prefix = order.drop_last();
        assert forall|k: int| 0 <= k < prefix.len() implies #[trigger] prefix[k] < s.len() by {
            assert(prefix[k] == order[k]);
        }
        changes_are_differing_neurons(w, s, prefix);
        let i = order.last() as int;
        let prev = async_pass(w, s, prefix);
        assert(!prefix.contains(i as usize)) by {
            if prefix.contains(i as usize) {
                let k = choose|k: int| 0 <= k < prefix.len() && prefix[k] == i as usize;
                assert(order[k] == order[order.len() - 1]);
            }
        }
        assert(prev[i] == s[i]);
        let v = next_spin(local_field(w, prev, i), prev[i]);
        lemma_differing_count_update(s, prev, i, v, s.len() as int);
        assert forall|j: int|
            0 <= j < s.len() && !order.contains(j as usize) implies #[trigger] async_pass(w, s, order)[j]
            == s[j] by {
            assert(j != i);
            if prefix.contains(j as usize) {
                let k = choose|k: int| 0 <= k < prefix.len() && prefix[k] == j as usize;
                assert(order[k] == j as usize);
            }
        }
    }
}

proof fn lemma_differing_count_self(a: Seq<i8>, k: int)
    ensures
        differing_count(a, a, k) == 0,
    decreases k,
{
    if k > 0 {
        lemma_differing_count_self(a, k - 1);
    }
}

/// A pass over neurons that would none of them change leaves the state
/// unchanged and changes nothing.
proof fn lemma_stable_order(w: Seq<Vec<i64>>, s: Seq<i8>, order: Seq<usize>)
    requires
        forall|k: int|
            0 <= k < order.len() ==> #[trigger] order[k] < s.len() && !flips_at(w, s, order[k] as int),
    ensures
        async_pass(w, s, order) == s,
        flips_in_pass(w, s, order) == 0,
    decreases order.len(),
{
    if order.len() > 0 {
        let prefix = order.drop_last();
        assert forall|k: int| 0 <= k < prefix.len() implies #[trigger] prefix[k] < s.len() && !flips_at(
            w,
            s,
            prefix[k] as int,
        ) by {
            assert(prefix[k] == order[k]);
        }
        lemma_stable_order(w, s, prefix);
        let i = order.last() as int;
        assert(!flips_at(w, s, order[order.len() - 1] as int));
        assert(async_update(w, s, i) =~= s);
    }
}

/// The neurons of a shuffled order are the active ones.
proof fn lemma_shuffled_members(n: int, mask: Option<Seq<bool>>, seed: u64)
    requires
        0 <= n <= usize::MAX,
        is_permutation_of(seeded_shuffle(active_indices(n, mask), seed), active_indices(n, mask)),
    ensures
        forall|k: int|
            0 <= k < seeded_shuffle(active_indices(n, mask), seed).len() ==> is_active(
                n,
                mask,
                #[trigger] seeded_shuffle(active_indices(n, mask), seed)[k] as int,
            ),
        forall|i: int| is_active(n, mask, i) ==> seeded_shuffle(active_indices(n, mask), seed).contains(i as usize),
{
    let order = seeded_shuffle(active_indices(n, mask), seed);
    lemma_active_indices(n, mask);
    lemma_permutation_facts(order, active_indices(n, mask));
    assert forall|k: int| 0 <= k < order.len() implies is_active(n, mask, #[trigger] order[k] as int) by {
        assert(order.contains(order[k]));
        let m = choose|m: int| 0 <= m < active_indices(n, mask).len() && active_indices(n, mask)[m] == order[k];
        assert(is_active(n, mask, active_indices(n, mask)[m] as int));
    }
}

/// Being a fixed point does not depend on the seed: a state in which a
/// recall pass changes no neuron is left unchanged, with no change, by a
/// pass with any other seed and the same mask.
pub proof fn fixed_point_for_every_seed(
    w: Seq<Vec<i64>>,
    s: Seq<i8>,
    mask: Option<Seq<bool>>,
    seed1: u64,
    seed2: u64,
)
    requires
        s.len() <= usize::MAX,
        is_permutation_of(seeded_shuffle(active_indices(s.len() as int, mask), seed1), active_indices(s.len() as int, mask)),
        is_permutation_of(seeded_shuffle(active_indices(s.len() as int, mask), seed2), active_indices(s.len() as int, mask)),
        flips_in_pass(w, s, seeded_shuffle(active_indices(s.len() as int, mask), seed1)) == 0,
    ensures
        flips_in_pass(w, s, seeded_shuffle(active_indices(s.len() as int, mask), seed2)) == 0,
        async_pass(w, s, seeded_shuffle(active_indices(s.len() as int, mask), seed2)) == s,
{
    let n = s.len() as int;
    let o1 = seeded_shuffle(active_indices(n, mask), seed1);
    let o2 = seeded_shuffle(active_indices(n, mask), seed2);
    lemma_shuffled_members(n, mask, seed1);
    lemma_shuffled_members(n, mask, seed2);
    assert forall|k: int| 0 <= k < o1.len() implies #[trigger] o1[k] < s.len() by {
        assert(is_active(n, mask, o1[k] as int));
    }
    lemma_no_flips(w, s, o1);
    assert forall|k: int| 0 <= k < o2.len() implies #[trigger] o2[k] < s.len() && !flips_at(
        w,
        s,
        o2[k] as int,
    ) by {
        assert(is_active(n, mask, o2[k] as int));
        assert(o1.contains(o2[k]));
        let m = choose|m: int| 0 <= m < o1.len() && o1[m] == o2[k];
        assert(!flips_at(w, s, o1[m] as int));
    }
    lemma_stable_order(w, s, o2);
}

/// A packed pass without a change leaves every visited neuron stable.
proof fn lemma_no_bit_flips_each(patterns: Seq<Vec<u64>>, bits: Seq<u64>, q: Seq<i32>, order: Seq<usize>)
    requires
        bit_flips_in_pass(patterns, bits, q, order) == 0,
    ensures
        forall|k: int| 0 <= k < order.len() ==> !bit_flips_at(patterns, bits, q, #[trigger] order[k] as int),
    decreases order.len(),
{
    if order.len() > 0 {
        let prefix = order.drop_last();
        lemma_no_bit_flips_each(patterns, bits, q, prefix);
        lemma_no_bit_flips(patterns, bits, q, prefix);
        assert forall|k: int| 0 <= k < order.len() implies !bit_flips_at(patterns, bits, q, #[trigger] order[k] as int) by {
            if k < prefix.len() {
                assert(order[k] == prefix[k]);
            }
        }
    }
}

/// A packed pass over neurons that would none of them change keeps the
/// state and the overlaps and changes nothing.
proof fn lemma_bit_stable_order(patterns: Seq<Vec<u64>>, bits: Seq<u64>, q: Seq<i32>, order: Seq<usize>)
    requires
        forall|k: int| 0 <= k < order.len() ==> !bit_flips_at(patterns, bits, q, #[trigger] order[k] as int),
    ensures
        bit_pass(patterns, bits, q, order) == (bits, q),
        bit_flips_in_pass(patterns, bits, q, order) == 0,
    decreases order.len(),
{
    if order.len() > 0 {
        let prefix = order.drop_last();
        assert forall|k: int| 0 <= k < prefix.len() implies !bit_flips_at(patterns, bits, q, #[trigger] prefix[k] as int) by {
            assert(prefix[k] == order[k]);
        }
        lemma_bit_stable_order(patterns, bits, q, prefix);
        assert(!bit_flips_at(patterns, bits, q, order[order.len() - 1] as int));
    }
}

/// Being a fixed point of the packed engine does not depend on the seed: a
/// packed state and overlaps in which a pass changes no neuron are kept,
/// with no change, by a pass with any other seed and the same mask.
pub proof fn packed_fixed_point_for_every_seed(
    patterns: Seq<Vec<u64>>,
    bits: Seq<u64>,
    q: Seq<i32>,
    n: int,
    mask: Option<Seq<bool>>,
    seed1: u64,
    seed2: u64,
)
    requires
        0 <= n <= usize::MAX,
        is_permutation_of(seeded_shuffle(active_indices(n, mask), seed1), active_indices(n, mask)),
        is_permutation_of(seeded_shuffle(active_indices(n, mask), seed2), active_indices(n, mask)),
        bit_flips_in_pass(patterns, bits, q, seeded_shuffle(active_indices(n, mask), seed1)) == 0,
    ensures
        bit_flips_in_pass(patterns, bits, q, seeded_shuffle(active_indices(n, mask), seed2)) == 0,
        bit_pass(patterns, bits, q, seeded_shuffle(active_indices(n, mask), seed2)) == (bits, q),
{
    let o1 = seeded_shuffle(active_indices(n, mask), seed1);
    let o2 = seeded_shuffle(active_indices(n, mask), seed2);
    lemma_shuffled_members(n, mask, seed1);
    lemma_shuffled_members(n, mask, seed2);
    lemma_no_bit_flips_each(patterns, bits, q, o1);
    assert forall|k: int| 0 <= k < o2.len() implies !bit_flips_at(patterns, bits, q, #[trigger] o2[k] as int) by {
        assert(is_active(n, mask, o2[k] as int));
        assert(o1.contains(o2[k]));
        let m = choose|m: int| 0 <= m < o1.len() && o1[m] == o2[k];
        assert(!bit_flips_at(patterns, bits, q, o1[m] as int));
    }
    lemma_bit_stable_order(patterns, bits, q, o2);
}

/// The unclamped neurons among the first `n`, in the order of a shuffle
/// seeded with `seed`.
pub open spec fn shuffled_order(n: int, mask: Option<Seq<bool>>, seed: u64) -> Seq<usize> {
    seeded_shuffle(active_indices(n, mask), seed)
}

/// A pass visits the unclamped neurons in the order of the shuffle that a
/// generator seeded with the caller's seed makes of them.
pub proof fn pass_order_is_the_seeded_shuffle(n: int, mask: Option<Seq<bool>>, seed: u64)
    ensures
        shuffled_order(n, mask, seed) == seeded_shuffle(active_indices(n, mask), seed),
{
}

/// Without a mask a pass covers every one of the first `n` neurons: before
/// the shuffle they are `0, 1, ..., n - 1`.
pub proof fn unmasked_pass_covers_every_neuron(n: int)
    requires
        0 <= n <= usize::MAX,
    ensures
        active_indices(n, None) == Seq::new(n as nat, |i: int| i as usize),
    decreases n,
{
    if n > 0 {
        unmasked_pass_covers_every_neuron(n - 1);
        assert(active_indices(n, None) =~= Seq::new(n as nat, |i: int| i as usize));
    }
}

/// Clamping only removes neurons before the same seeded shuffle: the
/// neurons that a pass shuffles under a mask are those it shuffles without
/// one, less the clamped ones, in the same order; so a mask that clamps none
/// of the first `n` neurons gives, for every seed, the order of no mask.
pub proof fn clamping_only_removes_neurons(n: int, m: Seq<bool>, seed: u64)
    requires
        0 <= n <= usize::MAX,
    ensures
        active_indices(n, Some(m)) == active_indices(n, None).filter(|i: usize| !m[i as int]),
        (forall|i: int| 0 <= i < n ==> !#[trigger] m[i]) ==> shuffled_order(n, Some(m), seed)
            == shuffled_order(n, None, seed),
    decreases n,
{
    let pred = |i: usize| !m[i as int];
    if n > 0 {
        clamping_only_removes_neurons(n - 1, m, seed);
        let all = active_indices(n, None);
        assert(all.drop_last() =~= active_indices(n - 1, None));
        assert(all.last() == (n - 1) as usize);
        reveal(Seq::filter);
        assert(all.filter(pred) == if pred(all.last()) {
            all.drop_last().filter(pred).push(all.last())
        } else {
            all.drop_last().filter(pred)
        });
        assert(active_indices(n, Some(m)) == all.filter(pred));
    } else {
        reveal(Seq::filter);
        assert(active_indices(n, None).len() == 0);
    }
    if forall|i: int| 0 <= i < n ==> !#[trigger] m[i] {
        lemma_no_clamp_keeps_all(n, m);
    }
}

proof fn lemma_no_clamp_keeps_all(n: int, m: Seq<bool>)
    requires
        forall|i: int| 0 <= i < n ==> !#[trigger] m[i],
    ensures
        active_indices(n, Some(m)) == active_indices(n, None),
    decreases n,
{
    if n > 0 {
        assert forall|i: int| 0 <= i < n - 1 implies !#[trigger] m[i] by {
            assert(!m[i]);
        }
        lemma_no_clamp_keeps_all(n - 1, m);
        assert(!m[n - 1]);
    }
}

/// The unclamped neurons among the first `n`, shuffled with `seed`.
pub(crate) fn shuffled_unclamped(n: usize, clamped_mask: Option<&[bool]>, seed: u64) -> (order: Vec<usize>)
    requires
        n <= usize::MAX,
        mask_covers(mask_view(clamped_mask), n as int),
    ensures
        order@ == seeded_shuffle(active_indices(n as int, mask_view(clamped_mask)), seed),
        is_permutation_of(order@, active_indices(n as int, mask_view(clamped_mask))),
        order@.no_duplicates(),
        forall|k: int|
            0 <= k < order@.len() ==> is_active(
                n as int,
                mask_view(clamped_mask),
                #[trigger] order@[k] as int,
            ),
        forall|i: int| is_active(n as int, mask_view(clamped_mask), i) ==> order@.contains(i as usize),
{
    let ghost mask = mask_view(clamped_mask);
    let mut order = unclamped_indices(n, clamped_mask);
    let ghost sorted = order@;
    shuffle_with_seed(&mut order, seed);
    proof {
        lemma_active_indices(n as int, mask);
        lemma_permutation_facts(order@, sorted);
        assert forall|k: int| 0 <= k < order@.len() implies is_active(
            n as int,
            mask,
            #[trigger] order@[k] as int,
        ) by {
            assert(order@.contains(order@[k]));
            assert(sorted.contains(order@[k]));
            let m = choose|m: int| 0 <= m < sorted.len() && sorted[m] == order@[k];
            assert(is_active(n as int, mask, sorted[m] as int));
        }
        assert forall|i: int| is_active(n as int, mask, i) implies order@.contains(i as usize) by {
            assert(sorted.contains(i as usize));
        }
    }
    order
}

/// One asynchronous recall pass: the unclamped neurons are visited once
/// each, in the order of a shuffle of them seeded with `seed`
/// (`seeded_shuffle` of `active_indices`), and each takes the
/// sign of its local field (keeping its state on zero). Clamped neurons
/// (`true` in the mask) keep their state. Returns how many neurons changed.
pub fn neuron_fix(
    states: &mut [i8],
    weight_matrix: &[Vec<i64>],
    seed: u64,
    clamped_mask: Option<&[bool]>,
) -> (changed: usize)
    requires
        old(states)@.len() <= 0xFF_FFFF_FFFF_FFFF,
        mask_covers(mask_view(clamped_mask), old(states)@.len() as int),
        forall|i: int|
            is_active(old(states)@.len() as int, mask_view(clamped_mask), i) ==> row_covers(
                weight_matrix@,
                i,
                old(states)@.len() as int,
            ),
    ensures
        final(states)@ == async_pass(
            weight_matrix@,
            old(states)@,
            seeded_shuffle(active_indices(old(states)@.len() as int, mask_view(clamped_mask)), seed),
        ),
        changed == flips_in_pass(
            weight_matrix@,
            old(states)@,
            seeded_shuffle(active_indices(old(states)@.len() as int, mask_view(clamped_mask)), seed),
        ),
        is_permutation_of(
            seeded_shuffle(active_indices(old(states)@.len() as int, mask_view(clamped_mask)), seed),
            active_indices(old(states)@.len() as int, mask_view(clamped_mask)),
        ),
        changed == differing_count(old(states)@, final(states)@, old(states)@.len() as int),
        final(states)@.len() == old(states)@.len(),
        forall|j: int|
            0 <= j < old(states)@.len() && !is_active(
                old(states)@.len() as int,
                mask_view(clamped_mask),
                j,
            ) ==> #[trigger] final(states)@[j] == old(states)@[j],
        changed == 0 ==> final(states)@ == old(states)@ && forall|i: int|
            is_active(old(states)@.len() as int, mask_view(clamped_mask), i) ==> !flips_at(
                weight_matrix@,
                old(states)@,
                i,
            ),
{
    let n = states.len();
    let ghost mask = mask_view(clamped_mask);
    let ghost s0 = states@;
    let order = shuffled_unclamped(n, clamped_mask, seed);
    proof {
        assert forall|k: int| 0 <= k < order@.len() implies order@[k] < s0.len() && row_covers(
            weight_matrix@,
            order@[k] as int,
            s0.len() as int,
        ) by {
            assert(is_active(n as int, mask, order@[k] as int));
        }
    }
    let changed = neuron_fix_in_order(states, weight_matrix, order.as_slice());
    proof {
        changes_are_differing_neurons(weight_matrix@, s0, order@);
        assert forall|j: int|
            0 <= j < n && !is_active(n as int, mask, j) implies #[trigger] states@[j] == s0[j] by {
            if order@.contains(j as usize) {
                let k = choose|k: int| 0 <= k < order@.len() && order@[k] == j as usize;
                assert(is_active(n as int, mask, order@[k] as int));
            }
        }
        if changed == 0 {
            lemma_no_flips(weight_matrix@, s0, order@);
            assert forall|i: int| is_active(n as int, mask, i) implies !flips_at(weight_matrix@, s0, i) by {
                assert(order@.contains(i as usize));
                let k = choose|k: int| 0 <= k < order@.len() && order@[k] == i as usize;
                assert(!flips_at(weight_matrix@, s0, order@[k] as int));
            }
        }
    }
    changed
}

/// No neuron of a packed pass changed: the packed state and the overlaps
/// are unchanged.
pub proof fn lemma_no_bit_flips(patterns: Seq<Vec<u64>>, bits: Seq<u64>, q: Seq<i32>, order: Seq<usize>)
    requires
        bit_flips_in_pass(patterns, bits, q, order) == 0,
    ensures
        bit_pass(patterns, bits, q, order) == (bits, q),
    decreases order.len(),
{
    if order.len() > 0 {
        lemma_no_bit_flips(patterns, bits, q, order.drop_last());
    }
}

/// Recall by passes until one changes nothing, making at most `passes`
/// passes, the first shuffled with `seed` and each next one with the seed
/// after it: the final state, how many passes were made, and whether the
/// last one changed nothing.
pub open spec fn recall_run(
    w: Seq<Vec<i64>>,
    s: Seq<i8>,
    mask: Option<Seq<bool>>,
    seed: int,
    passes: nat,
) -> (Seq<i8>, nat, bool)
    decreases passes,
{
    if passes == 0 {
        (s, 0nat, false)
    } else {
        let order = seeded_shuffle(active_indices(s.len() as int, mask), seed as u64);
        let next = async_pass(w, s, order);
        if flips_in_pass(w, s, order) == 0 {
            (next, 1nat, true)
        } else {
            let rest = recall_run(w, next, mask, seed + 1, (passes - 1) as nat);
            (rest.0, rest.1 + 1, rest.2)
        }
    }
}

/// A run with `t` more passes counted before it.
pub open spec fn after_passes(run: (Seq<i8>, nat, bool), t: nat) -> (Seq<i8>, nat, bool) {
    (run.0, run.1 + t, run.2)
}

/// Recall by asynchronous passes until a pass changes nothing, making at
/// most `max_passes` passes; pass `t` (from 0) shuffles with the seed
/// `first_seed + t` (the run that `recall_run` describes). Returns how many
/// passes were made and whether the last one changed nothing, in which case
/// the state is a fixed point of every unclamped neuron. Clamped neurons
/// keep their state. With a symmetric zero-diagonal matrix and a spin state
/// the energy never rises, every pass that changes something lowers twice
/// the energy by at least 4, and so the recall settles within
/// `(2 E + sum_ij |w_ij|) / 4 + 1` passes: it never cycles.
pub fn recall_until_stable(
    states: &mut [i8],
    weight_matrix: &[Vec<i64>],
    first_seed: u64,
    max_passes: u64,
    clamped_mask: Option<&[bool]>,
) -> (result: (u64, bool))
    requires
        old(states)@.len() <= 0xFF_FFFF_FFFF_FFFF,
        first_seed + max_passes <= u64::MAX,
        mask_covers(mask_view(clamped_mask), old(states)@.len() as int),
        forall|i: int|
            is_active(old(states)@.len() as int, mask_view(clamped_mask), i) ==> row_covers(
                weight_matrix@,
                i,
                old(states)@.len() as int,
            ),
    ensures
        (final(states)@, result.0 as nat, result.1) == recall_run(
            weight_matrix@,
            old(states)@,
            mask_view(clamped_mask),
            first_seed as int,
            max_passes as nat,
        ),
        final(states)@.len() == old(states)@.len(),
        result.0 <= max_passes,
        !result.1 ==> result.0 == max_passes,
        result.1 ==> forall|i: int|
            is_active(old(states)@.len() as int, mask_view(clamped_mask), i) ==> !flips_at(
                weight_matrix@,
                final(states)@,
                i,
            ),
        forall|j: int|
            0 <= j < old(states)@.len() && !is_active(
                old(states)@.len() as int,
                mask_view(clamped_mask),
                j,
            ) ==> #[trigger] final(states)@[j] == old(states)@[j],
        is_symmetric_zero_diagonal(weight_matrix@, old(states)@.len() as int) && is_spin_vector(
            old(states)@,
        ) ==> double_energy(weight_matrix@, final(states)@) <= double_energy(
            weight_matrix@,
            old(states)@,
        ),
        is_symmetric_zero_diagonal(weight_matrix@, old(states)@.len() as int) && is_spin_vector(
            old(states)@,
        ) && 4 * max_passes > double_energy(weight_matrix@, old(states)@) + weight_magnitude(
            weight_matrix@,
            old(states)@.len() as int,
        ) ==> result.1,
{
    let ghost s0 = states@;
    let ghost n = s0.len() as int;
    let ghost mask = mask_view(clamped_mask);
    let ghost w = weight_matrix@;
    let len = states.len();
    let mut t: u64 = 0;
    while t < max_passes
        invariant
            states@.len() == n,
            n == len,
            s0 == old(states)@,
            n == s0.len(),
            n <= 0xFF_FFFF_FFFF_FFFF,
            w == weight_matrix@,
            mask == mask_view(clamped_mask),
            first_seed + max_passes <= u64::MAX,
            mask_covers(mask, n),
            forall|i: int| is_active(n, mask, i) ==> row_covers(w, i, n),
            t <= max_passes,
            forall|j: int| 0 <= j < n && !is_active(n, mask, j) ==> #[trigger] states@[j] == s0[j],
            is_symmetric_zero_diagonal(w, n) && is_spin_vector(s0) ==> is_spin_vector(states@)
                && double_energy(w, states@) + 4 * t <= double_energy(w, s0),
            recall_run(w, s0, mask, first_seed as int, max_passes as nat) == after_passes(
                recall_run(w, states@, mask, first_seed + t, (max_passes - t) as nat),
                t as nat,
            ),
        decreases max_passes - t,
    {
        let ghost before = states@;
        let changed = neuron_fix(states, weight_matrix, first_seed + t, clamped_mask);
        proof {
            if is_symmetric_zero_diagonal(w, n) && is_spin_vector(s0) {
                let order = seeded_shuffle(active_indices(n, mask), (first_seed + t) as u64);
                lemma_active_indices(n, mask);
                lemma_permutation_facts(order, active_indices(n, mask));
                assert forall|k: int| 0 <= k < order.len() implies #[trigger] order[k] < before.len() by {
                    assert(order.contains(order[k]));
                    assert(active_indices(n, mask).contains(order[k]));
                    let m = choose|m: int|
                        0 <= m < active_indices(n, mask).len() && active_indices(n, mask)[m]
                            == order[k];
                    assert(is_active(n, mask, active_indices(n, mask)[m] as int));
                }
                energy_never_rises_along_pass(w, before, order);
            }
        }
        t = t + 1;
        if changed == 0 {
            return (t, true);
        }
    }
    proof {
        if is_symmetric_zero_diagonal(w, n) && is_spin_vector(s0) {
            energy_is_bounded_below(w, states@);
        }
    }
    (t, false)
}

/// What the packed engine reads on a pass over the unclamped neurons:
/// their words exist in the state and in every pattern, and the overlaps
/// cover the patterns.
pub open spec fn packed_pass_reads_ok(
    state: Seq<u64>,
    patterns: Seq<Vec<u64>>,
    q: Seq<i32>,
    n: int,
    mask: Option<Seq<bool>>,
) -> bool {
    &&& forall|i: int|
        is_active(n, mask, i) ==> i / 64 < state.len() && forall|mu: int|
            0 <= mu < patterns.len() ==> i / 64 < (#[trigger] patterns[mu])@.len()
    &&& active_indices(n, mask).len() > 0 ==> q.len() >= patterns.len()
}

/// One asynchronous recall pass of the packed engine: the unclamped
/// neurons among the first `n` are visited once each, in the order of a
/// shuffle of them seeded with `seed` (`seeded_shuffle` of
/// `active_indices`); each takes the sign of
/// `H_i = sum_mu xi^mu_i q_mu - P s_i`, and on a change its bit is written and
/// the overlaps are moved. Returns how many neurons changed.
pub fn neuron_fix_bit(
    state: &mut [u64],
    patterns: &[Vec<u64>],
    q_overlaps: &mut [i32],
    n: usize,
    seed: u64,
    clamped_mask: Option<&[bool]>,
) -> (changed: usize)
    requires
        mask_covers(mask_view(clamped_mask), n as int),
        packed_pass_reads_ok(
            old(state)@,
            patterns@,
            old(q_overlaps)@,
            n as int,
            mask_view(clamped_mask),
        ),
        bit_pass_fits(
            patterns@,
            old(q_overlaps)@,
            active_indices(n as int, mask_view(clamped_mask)).len() as int,
        ) || (overlaps_consistent(patterns@, old(state)@, old(q_overlaps)@, n as int)
            && patterns@.len() * (n + 1) <= i32::MAX),
    ensures
        (final(state)@, final(q_overlaps)@) == bit_pass(
            patterns@,
            old(state)@,
            old(q_overlaps)@,
            seeded_shuffle(active_indices(n as int, mask_view(clamped_mask)), seed),
        ),
        changed == bit_flips_in_pass(
            patterns@,
            old(state)@,
            old(q_overlaps)@,
            seeded_shuffle(active_indices(n as int, mask_view(clamped_mask)), seed),
        ),
        is_permutation_of(
            seeded_shuffle(active_indices(n as int, mask_view(clamped_mask)), seed),
            active_indices(n as int, mask_view(clamped_mask)),
        ),
        changed == 0 ==> final(state)@ == old(state)@ && final(q_overlaps)@ == old(q_overlaps)@,
{
    let ghost mask = mask_view(clamped_mask);
    let order = shuffled_unclamped(n, clamped_mask, seed);
    proof {
        lemma_active_indices(n as int, mask);
        lemma_permutation_facts(order@, active_indices(n as int, mask));
        assert forall|k: int| 0 <= k < order@.len() implies (#[trigger] order@[k]) / 64 < state@.len()
            && forall|mu: int|
            0 <= mu < patterns@.len() ==> order@[k] / 64 < (#[trigger] patterns@[mu])@.len() by {
            assert(is_active(n as int, mask, order@[k] as int));
        }
        if !bit_pass_fits(patterns@, q_overlaps@, order@.len() as int) {
            assert forall|k: int| 0 <= k < order@.len() implies #[trigger] order@[k] < n by {
                assert(is_active(n as int, mask, order@[k] as int));
            }
            assert(consistent_pass_fits(patterns@, state@, q_overlaps@, order@, n as int));
        }
    }
    let ghost bits0 = state@;
    let ghost q0 = q_overlaps@;
    let changed = neuron_fix_bit_in_order(state, patterns, q_overlaps, order.as_slice());
    if changed == 0 {
        proof {
            lemma_no_bit_flips(patterns@, bits0, q0, order@);
        }
    }
    changed
}

} // verus!
