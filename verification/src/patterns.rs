//! Making patterns: random spin patterns, noise, corruption of the lower
//! half of an image, binarized images, and the clamping mask of the upper
//! half.

use vstd::prelude::*;
use crate::dynamics::{copy_states, is_spin_vector, lemma_self_dot, lemma_spin_dot_update, spin_dot};
use crate::recall::{active_indices, is_active, lemma_permutation_facts, shuffled_unclamped};
use crate::rng::{coins_with_seed, is_permutation_of, seeded_shuffle, random_in_range_seeded, seeded_ratio_draws, seeded_usize_in_range};

verus! {

/// The spin that a coin stands for: `1` for heads (`true`), `-1` for tails.
pub open spec fn coin_spin(heads: bool) -> i8 {
    if heads {
        1i8
    } else {
        -1i8
    }
}

/// The fair coins (`gen_ratio(1, 2)`) that a generator seeded with `seed`
/// gives first, `count` of them.
pub open spec fn fair_coins(seed: u64, count: int) -> Seq<bool> {
    seeded_ratio_draws(seed, 1, 2, count as usize)
}

proof fn lemma_row_index(mu: int, p: int, n: int, i: int)
    requires
        0 <= mu < p,
        0 <= i < n,
    ensures
        0 <= mu * n,
        mu * n + i < p * n,
        (mu + 1) * n <= p * n,
        mu * n + n == (mu + 1) * n,
{
    assert(0 <= mu * n && mu * n + i < p * n && (mu + 1) * n <= p * n && mu * n + n == (mu + 1) * n)
        by (nonlinear_arith)
        requires
            0 <= mu < p,
            0 <= i < n,
    ;
}

/// `p` random spin patterns of `n` neurons each, drawn from a generator
/// seeded with `seed`, pattern after pattern: neuron `i` of pattern `mu` is
/// the spin of fair coin `mu * n + i`.
pub fn generate_states(p: usize, n: usize, seed: u64) -> (states: Vec<Vec<i8>>)
    requires
        p * n <= usize::MAX,
    ensures
        states@.len() == p,
        forall|mu: int|
            0 <= mu < p ==> (#[trigger] states@[mu])@.len() == n && is_spin_vector(states@[mu]@),
        forall|mu: int, i: int|
            0 <= mu < p && 0 <= i < n ==> #[trigger] states@[mu]@[i] == coin_spin(
                fair_coins(seed, p * n)[mu * n + i],
            ),
{
    let total = p * n;
    let coins = coins_with_seed(seed, 1, 2, total);
    let ghost draws = fair_coins(seed, p * n);
    let mut states_vector: Vec<Vec<i8>> = Vec::with_capacity(p);
    let mut mu: usize = 0;
    let mut base: usize = 0;
    while mu < p
        invariant
            total == p * n,
            coins@ == draws,
            coins@.len() == total,
            mu <= p,
            base == mu * n,
            states_vector@.len() == mu,
            forall|m: int|
                0 <= m < mu ==> (#[trigger] states_vector@[m])@.len() == n && is_spin_vector(
                    states_vector@[m]@,
                ),
            forall|m: int, i: int|
                0 <= m < mu && 0 <= i < n ==> #[trigger] states_vector@[m]@[i] == coin_spin(
                    draws[m * n + i],
                ),
        decreases p - mu,
    {
        let mut states: Vec<i8> = Vec::with_capacity(n);
        let mut i: usize = 0;
        while i < n
            invariant
                total == p * n,
                coins@.len() == total,
                mu < p,
                base == mu * n,
                i <= n,
                states@.len() == i,
                is_spin_vector(states@),
                forall|t: int| 0 <= t < i ==> #[trigger] states@[t] == coin_spin(coins@[mu * n + t]),
            decreases n - i,
        {
            proof {
                lemma_row_index(mu as int, p as int, n as int, i as int);
            }
            let val: i8 = if coins[base + i] {
                1
            } else {
                -1
            };
            states.push(val);
            i = i + 1;
        }
        proof {
            if n > 0 {
                lemma_row_index(mu as int, p as int, n as int, 0);
            } else {
                assert(mu * n == 0) by (nonlinear_arith)
                    requires
                        n == 0,
                ;
                assert((mu + 1) * n == 0) by (nonlinear_arith)
                    requires
                        n == 0,
                ;
            }
        }
        states_vector.push(states);
        mu = mu + 1;
        base = base + n;
    }
    states_vector
}

proof fn lemma_all_indices(n: int)
    requires
        0 <= n <= usize::MAX,
    ensures
        active_indices(n, None).len() == n,
    decreases n,
{
    if n > 0 {
        lemma_all_indices(n - 1);
    }
}

/// `v` with the entries at the positions in `idx` negated.
pub open spec fn negate_at(v: Seq<i8>, idx: Seq<usize>) -> Seq<i8> {
    Seq::new(
        v.len(),
        |i: int|
            if idx.contains(i as usize) {
                (-v[i]) as i8
            } else {
                v[i]
            },
    )
}

/// The smaller of two counts.
pub open spec fn min_count(a: int, b: int) -> int {
    if a <= b {
        a
    } else {
        b
    }
}

/// A noisy copy of `pattern`: the neurons at the first `flip_count`
/// positions (all of them when there are fewer) of the shuffle of
/// `0 .. N` that a generator seeded with `seed` makes are negated. For a spin pattern of `N`
/// neurons the overlap with the copy is `N - 2 min(flip_count, N)`.
pub fn apply_noise(pattern: &[i8], flip_count: usize, seed: u64) -> (noisy_state: Vec<i8>)
    requires
        forall|i: int| 0 <= i < pattern@.len() ==> #[trigger] pattern@[i] != i8::MIN,
    ensures
        noisy_state@ == negate_at(
            pattern@,
            seeded_shuffle(active_indices(pattern@.len() as int, None), seed).take(
                min_count(flip_count as int, pattern@.len() as int),
            ),
        ),
        is_permutation_of(
            seeded_shuffle(active_indices(pattern@.len() as int, None), seed),
            active_indices(pattern@.len() as int, None),
        ),
        is_spin_vector(pattern@) ==> is_spin_vector(noisy_state@) && spin_dot(
            pattern@,
            noisy_state@,
            pattern@.len() as int,
        ) == pattern@.len() - 2 * min_count(flip_count as int, pattern@.len() as int),
{
    let mut noisy_state = copy_states(pattern);
    let n = noisy_state.len();
    let ghost p = pattern@;
    let indices = shuffled_unclamped(n, None, seed);
    proof {
        lemma_all_indices(n as int);
        lemma_permutation_facts(indices@, active_indices(n as int, None));
        if is_spin_vector(p) {
            lemma_self_dot(p, n as int);
        }
        assert(noisy_state@ =~= negate_at(p, indices@.take(0)));
    }
    let take = if flip_count <= n {
        flip_count
    } else {
        n
    };
    let mut k: usize = 0;
    while k < take
        invariant
            p == pattern@,
            n == p.len(),
            noisy_state@.len() == n,
            take <= n,
            indices@.len() == n,
            indices@.no_duplicates(),
            forall|t: int| 0 <= t < indices@.len() ==> is_active(n as int, None, #[trigger] indices@[t] as int),
            forall|i: int| 0 <= i < n ==> #[trigger] p[i] != i8::MIN,
            k <= take,
            noisy_state@ == negate_at(p, indices@.take(k as int)),
            is_spin_vector(p) ==> is_spin_vector(noisy_state@) && spin_dot(p, noisy_state@, n as int)
                == n - 2 * k,
        decreases take - k,
    {
        let idx = indices[k];
        assert(is_active(n as int, None, indices@[k as int] as int));
        assert(idx < n);
        assert(!indices@.take(k as int).contains(idx));
        let ghost before = noisy_state@;
        assert(before[idx as int] == p[idx as int]);
        let v = noisy_state[idx];
        noisy_state.set(idx, -v);
        proof {
            let next = indices@.take(k + 1);
            assert(next =~= indices@.take(k as int).push(idx));
            assert forall|i: int| 0 <= i < n implies #[trigger] noisy_state@[i] == negate_at(p, next)[i] by {
                if i == idx {
                    assert(next[k as int] == idx);
                    assert(next.contains(idx));
                } else {
                    assert(next.contains(i as usize) == indices@.take(k as int).contains(i as usize));
                }
            }
            assert(noisy_state@ =~= negate_at(p, next));
            if is_spin_vector(p) {
                lemma_spin_dot_update(p, before, idx as int, (-v) as i8, n as int);
                assert(p[idx as int] == 1 || p[idx as int] == -1);
                assert forall|i: int| 0 <= i < n implies #[trigger] noisy_state@[i] == 1 || noisy_state@[i] == -1 by {
                    if i != idx {
                        assert(noisy_state@[i] == before[i]);
                    }
                }
            }
        }
        k = k + 1;
    }
    noisy_state
}

/// A copy of `pattern` whose lower half (the neurons from `N / 2` on) is
/// replaced by random spins drawn from a generator seeded with `seed`:
/// neuron `N / 2 + k` becomes the spin of fair coin `k`.
pub fn corrupt_lower_half(pattern: &[i8], seed: u64) -> (corrupted: Vec<i8>)
    ensures
        corrupted@.len() == pattern@.len(),
        forall|i: int| 0 <= i < pattern@.len() / 2 ==> #[trigger] corrupted@[i] == pattern@[i],
        forall|i: int|
            pattern@.len() / 2 <= i < pattern@.len() ==> #[trigger] corrupted@[i] == coin_spin(
                fair_coins(seed, pattern@.len() - pattern@.len() / 2)[i - pattern@.len() / 2],
            ),
        forall|i: int|
            pattern@.len() / 2 <= i < pattern@.len() ==> #[trigger] corrupted@[i] == 1
                || corrupted@[i] == -1,
{
    let mut corrupted = copy_states(pattern);
    let n = corrupted.len();
    let half = n / 2;
    let coins = coins_with_seed(seed, 1, 2, n - half);
    let ghost draws = fair_coins(seed, n - half);
    let mut i: usize = half;
    while i < n
        invariant
            n == pattern@.len(),
            half == n / 2,
            coins@ == draws,
            coins@.len() == n - half,
            corrupted@.len() == n,
            half <= i <= n,
            forall|t: int| 0 <= t < half ==> #[trigger] corrupted@[t] == pattern@[t],
            forall|t: int| half <= t < i ==> #[trigger] corrupted@[t] == coin_spin(draws[t - half]),
        decreases n - i,
    {
        let val: i8 = if coins[i - half] {
            1
        } else {
            -1
        };
        corrupted.set(i, val);
        i = i + 1;
    }
    corrupted
}

/// A random number of neurons between 500 and 1000: the first value that a
/// generator seeded with `seed` draws from that range.
pub fn generate_n(seed: u64) -> (n: usize)
    ensures
        500 <= n <= 1000,
        n == seeded_usize_in_range(seed, 500, 1000, usize::BITS),
{
    random_in_range_seeded(seed, 500, 1000)
}

/// The number of pixels of one image: 28 x 28.
pub const IMAGE_PIXELS: usize = 784;

/// Pixel `c` of image `t`, binarized: `1` above 127, `-1` otherwise.
pub open spec fn binarized_pixel(pixels: Seq<u8>, t: int, c: int) -> i8 {
    if pixels[IMAGE_PIXELS * t + c] > 127 {
        1i8
    } else {
        -1i8
    }
}

/// The images of a pixel buffer, `IMAGE_PIXELS` pixels each (the last one
/// may be shorter), with every pixel above 127 made `1` and every other one
/// `-1`.
pub fn binarize_images(pixels: &[u8]) -> (images: Vec<Vec<i8>>)
    ensures
        images@.len() == (pixels@.len() + IMAGE_PIXELS - 1) / (IMAGE_PIXELS as int),
        forall|t: int|
            0 <= t < images@.len() ==> {
                &&& (#[trigger] images@[t])@.len() == if pixels@.len() - IMAGE_PIXELS * t
                    >= IMAGE_PIXELS {
                    IMAGE_PIXELS as int
                } else {
                    pixels@.len() - IMAGE_PIXELS * t
                }
                &&& forall|c: int|
                    0 <= c < images@[t]@.len() ==> #[trigger] images@[t]@[c] == binarized_pixel(
                        pixels@,
                        t,
                        c,
                    )
            },
{
    let total = pixels.len();
    let count = total / IMAGE_PIXELS + if total % IMAGE_PIXELS != 0 {
        1
    } else {
        0
    };
    let mut images: Vec<Vec<i8>> = Vec::with_capacity(count);
    let mut t: usize = 0;
    while t < count
        invariant
            total == pixels@.len(),
            count == (total + IMAGE_PIXELS - 1) / (IMAGE_PIXELS as int),
            t <= count,
            images@.len() == t,
            forall|u: int|
                0 <= u < t ==> {
                    &&& (#[trigger] images@[u])@.len() == if total - IMAGE_PIXELS * u >= IMAGE_PIXELS {
                        IMAGE_PIXELS as int
                    } else {
                        total - IMAGE_PIXELS * u
                    }
                    &&& forall|c: int|
                        0 <= c < images@[u]@.len() ==> #[trigger] images@[u]@[c] == binarized_pixel(
                            pixels@,
                            u,
                            c,
                        )
                },
        decreases count - t,
    {
        let start = IMAGE_PIXELS * t;
        let len = if total - start >= IMAGE_PIXELS {
            IMAGE_PIXELS
        } else {
            total - start
        };
        let mut binarized: Vec<i8> = Vec::with_capacity(len);
        let mut c: usize = 0;
        while c < len
            invariant
                total == pixels@.len(),
                start == IMAGE_PIXELS * t,
                start + len <= total,
                c <= len,
                binarized@.len() == c,
                forall|d: int| 0 <= d < c ==> #[trigger] binarized@[d] == binarized_pixel(pixels@, t as int, d),
            decreases len - c,
        {
            let pixel = pixels[start + c];
            binarized.push(if pixel > 127 {
                1
            } else {
                -1
            });
            c = c + 1;
        }
        images.push(binarized);
        t = t + 1;
    }
    images
}

/// The clamping mask that freezes the upper half of `n` neurons: `true` for
/// the first `n / 2`, `false` for the rest.
pub fn upper_half_mask(n: usize) -> (mask: Vec<bool>)
    ensures
        mask@.len() == n,
        forall|i: int| 0 <= i < n ==> #[trigger] mask@[i] == (i < n / 2),
{
    let mut mask: Vec<bool> = Vec::with_capacity(n);
    let mut i: usize = 0;
    while i < n
        invariant
            i <= n,
            mask@.len() == i,
            forall|t: int| 0 <= t < i ==> #[trigger] mask@[t] == (t < n / 2),
        decreases n - i,
    {
        mask.push(i < n / 2);
        i = i + 1;
    }
    mask
}

} // verus!
