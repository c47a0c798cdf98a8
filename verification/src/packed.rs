//! Bit-packed spin vectors: a set bit stands for a `-1` neuron, a clear bit
//! for a `+1` neuron; neuron `i` is bit `i % 64` of word `i / 64`.

use vstd::prelude::*;
use crate::dynamics::{is_spin_vector, spin_dot};

verus! {

/// Bit `i` of a packed vector: bit `i % 64` of word `i / 64`.
pub open spec fn bit_at(words: Seq<u64>, i: int) -> bool {
    (words[i / 64] >> ((i % 64) as u64)) & 1u64 == 1u64
}

/// The spin that a bit stands for.
pub open spec fn spin_of_bit(b: bool) -> int {
    if b {
        -1
    } else {
        1
    }
}

/// The number of words that hold `n` bits.
pub open spec fn words_for(n: int) -> int {
    (n + 63) / 64
}

/// `words` holds exactly the signs of `v`: bit `i` is set iff `v[i] < 0`,
/// and the bits past `v.len()` in the last word are clear.
pub open spec fn packs(words: Seq<u64>, v: Seq<i8>) -> bool {
    &&& words.len() == words_for(v.len() as int)
    &&& forall|i: int| 0 <= i < v.len() ==> #[trigger] bit_at(words, i) == (v[i] < 0)
    &&& forall|i: int| v.len() <= i < 64 * words.len() ==> !#[trigger] bit_at(words, i)
}

/// The number of set bits of `x` among its bits `0 .. c`.
pub open spec fn ones_below(x: u64, c: int) -> nat
    decreases c,
{
    if c <= 0 {
        0
    } else {
        ones_below(x, c - 1) + if (x >> ((c - 1) as u64)) & 1u64 == 1u64 {
            1nat
        } else {
            0nat
        }
    }
}

/// The number of ones in the binary representation of `x`.
pub open spec fn popcount(x: u64) -> nat {
    ones_below(x, 64)
}

/// Wraps `u64::count_ones`, which std documents as the number of ones in the
/// binary representation of the value.
#[verifier::external_body]
fn count_ones(x: u64) -> (r: u32)
    ensures
        r == popcount(x),
{
    x.count_ones()
}

pub proof fn lemma_set_bit(w: u64, b: u64, c: u64)
    requires
        b < 64,
        c < 64,
    ensures
        ((w | (1u64 << b)) >> c) & 1u64 == if c == b {
            1u64
        } else {
            (w >> c) & 1u64
        },
{
    assert(((w | (1u64 << b)) >> c) & 1u64 == if c == b {
        1u64
    } else {
        (w >> c) & 1u64
    }) by (bit_vector)
        requires
            b < 64,
            c < 64,
    ;
}

pub proof fn lemma_clear_bit(w: u64, b: u64, c: u64)
    requires
        b < 64,
        c < 64,
    ensures
        ((w & !(1u64 << b)) >> c) & 1u64 == if c == b {
            0u64
        } else {
            (w >> c) & 1u64
        },
{
    assert(((w & !(1u64 << b)) >> c) & 1u64 == if c == b {
        0u64
    } else {
        (w >> c) & 1u64
    }) by (bit_vector)
        requires
            b < 64,
            c < 64,
    ;
}

pub proof fn lemma_bit_is_zero_or_one(w: u64, c: u64)
    ensures
        (w >> c) & 1u64 == 0u64 || (w >> c) & 1u64 == 1u64,
        (0u64 >> c) & 1u64 == 0u64,
{
    assert((w >> c) & 1u64 == 0u64 || (w >> c) & 1u64 == 1u64) by (bit_vector);
    assert((0u64 >> c) & 1u64 == 0u64) by (bit_vector);
}

pub proof fn lemma_test_bit(w: u64, b: u64)
    requires
        b < 64,
    ensures
        (w & (1u64 << b) != 0u64) == ((w >> b) & 1u64 == 1u64),
{
    assert((w & (1u64 << b) != 0u64) == ((w >> b) & 1u64 == 1u64)) by (bit_vector)
        requires
            b < 64,
    ;
}

pub proof fn lemma_xor_bit(a: u64, b: u64, c: u64)
    ensures
        ((a ^ b) >> c) & 1u64 == if (a >> c) & 1u64 == (b >> c) & 1u64 {
            0u64
        } else {
            1u64
        },
{
    assert(((a ^ b) >> c) & 1u64 == if (a >> c) & 1u64 == (b >> c) & 1u64 {
        0u64
    } else {
        1u64
    }) by (bit_vector);
}

/// Splitting an index into its word and its bit.
pub proof fn lemma_index_split(k: int, c: int)
    requires
        0 <= c < 64,
        0 <= k,
    ensures
        (64 * k + c) / 64 == k,
        (64 * k + c) % 64 == c,
{
    assert((64 * k + c) / 64 == k && (64 * k + c) % 64 == c) by (nonlinear_arith)
        requires
            0 <= c < 64,
            0 <= k,
    ;
}

/// Bit `j` after bit `i` has been written with `b`.
pub proof fn lemma_write_bit(bits: Seq<u64>, i: int, b: bool, j: int)
    requires
        0 <= i,
        i / 64 < bits.len(),
        0 <= j < 64 * bits.len(),
    ensures
        ({
            let wi = i / 64;
            let mask = 1u64 << ((i % 64) as u64);
            let nb = bits.update(
                wi,
                if b {
                    bits[wi] | mask
                } else {
                    bits[wi] & !mask
                },
            );
            bit_at(nb, j) == if j == i {
                b
            } else {
                bit_at(bits, j)
            }
        }),
{
    let wi = i / 64;
    let ci = (i % 64) as u64;
    let wj = j / 64;
    let cj = (j % 64) as u64;
    if wj == wi {
        lemma_set_bit(bits[wi], ci, cj);
        lemma_clear_bit(bits[wi], ci, cj);
        if cj == ci {
            assert(j == 64 * wj + (j % 64));
            assert(i == 64 * wi + (i % 64));
            assert(j == i);
        } else {
            assert(j != i);
        }
    } else {
        assert(j != i);
    }
}

/// The word of packed vector `vec` that holds neurons `64 k .. 64 k + 64`.
fn pack_word(vec: &[i8], k: usize) -> (w: u64)
    requires
        64 * k < vec@.len(),
    ensures
        forall|c: u64|
            c < 64 ==> ((#[trigger] (w >> c) & 1u64) == 1u64) == (64 * k + c < vec@.len() && vec@[64
                * k + c] < 0),
{
    let n = vec.len();
    let mut w: u64 = 0;
    let mut b: u64 = 0;
    assert forall|c: u64| 0 <= c < 64 implies (#[trigger] (w >> c) & 1u64) == 0u64 by {
        lemma_bit_is_zero_or_one(0u64, c);
    }
    while b < 64
        invariant
            n == vec@.len(),
            64 * k < n,
            b <= 64,
            forall|c: u64|
                c < b ==> ((#[trigger] (w >> c) & 1u64) == 1u64) == (64 * k + c < n && vec@[64 * k
                    + c] < 0),
            forall|c: u64| b <= c < 64 ==> (#[trigger] (w >> c) & 1u64) == 0u64,
        decreases 64 - b,
    {
        let idx = 64 * k + (b as usize);
        let old_w = w;
        if idx < n && vec[idx] < 0 {
            w = w | (1u64 << b);
            assert forall|c: u64| c < 64 implies (#[trigger] (w >> c) & 1u64) == if c == b {
                1u64
            } else {
                (old_w >> c) & 1u64
            } by {
                lemma_set_bit(old_w, b, c);
            }
        }
        b = b + 1;
    }
    w
}

/// Packs a state vector into bits: bit `i` is set iff `vec[i] < 0`.
pub fn pack_bits(vec: &[i8]) -> (packed: Vec<u64>)
    ensures
        packs(packed@, vec@),
{
    let n = vec.len();
    let words = n / 64 + if n % 64 != 0 {
        1
    } else {
        0
    };
    assert(words == words_for(n as int));
    let mut packed: Vec<u64> = Vec::with_capacity(words);
    let mut k: usize = 0;
    while k < words
        invariant
            n == vec@.len(),
            words == words_for(n as int),
            k <= words,
            packed@.len() == k,
            forall|t: int, c: u64|
                0 <= t < k && c < 64 ==> ((#[trigger] (packed@[t] >> c) & 1u64) == 1u64) == (64 * t
                    + c < n && vec@[64 * t + c] < 0),
        decreases words - k,
    {
        let w = pack_word(vec, k);
        packed.push(w);
        k = k + 1;
    }
    assert forall|i: int| 0 <= i < 64 * packed@.len() implies #[trigger] bit_at(packed@, i) == (i < n
        && vec@[i] < 0) by {
        let t = i / 64;
        let c = (i % 64) as u64;
        assert(64 * t + c == i);
        assert(0 <= t < words);
        assert(((packed@[t] >> c) & 1u64 == 1u64) == (64 * t + c < n && vec@[64 * t + c] < 0));
    }
    assert forall|i: int| 0 <= i < n implies #[trigger] bit_at(packed@, i) == (vec@[i] < 0) by {
        assert(i < 64 * packed@.len());
    }
    packed
}

/// Unpacks the first `n` bits into a state vector: `-1` for a set bit, `1`
/// for a clear one.
pub fn unpack_bits(packed: &[u64], n: usize) -> (vec: Vec<i8>)
    requires
        n <= 64 * packed@.len(),
    ensures
        vec@.len() == n,
        forall|i: int| 0 <= i < n ==> #[trigger] vec@[i] as int == spin_of_bit(bit_at(packed@, i)),
{
    let mut vec: Vec<i8> = Vec::with_capacity(n);
    let mut i: usize = 0;
    while i < n
        invariant
            n <= 64 * packed@.len(),
            i <= n,
            vec@.len() == i,
            forall|t: int| 0 <= t < i ==> #[trigger] vec@[t] as int == spin_of_bit(bit_at(packed@, t)),
        decreases n - i,
    {
        let bit = (packed[i / 64] >> ((i % 64) as u64)) & 1;
        vec.push(if bit == 1 {
            -1
        } else {
            1
        });
        i = i + 1;
    }
    vec
}

/// `sum_{k < m} popcount(a[k] ^ b[k])`: the number of differing bits in the
/// first `m` words.
pub open spec fn differing_bits(a: Seq<u64>, b: Seq<u64>, m: int) -> nat
    decreases m,
{
    if m <= 0 {
        0
    } else {
        differing_bits(a, b, m - 1) + popcount(a[m - 1] ^ b[m - 1])
    }
}

/// The words that a state and a pattern have in common (the shorter length).
pub open spec fn common_words(a: Seq<u64>, b: Seq<u64>) -> int {
    if a.len() <= b.len() {
        a.len() as int
    } else {
        b.len() as int
    }
}

/// The overlap of a packed state with a packed pattern, computed as
/// `n - 2 * (number of differing bits)` in `i32` (with `n as i32`).
pub open spec fn packed_overlap(state: Seq<u64>, pattern: Seq<u64>, n: usize) -> int {
    (n as i32) - 2 * differing_bits(state, pattern, common_words(state, pattern))
}

/// The overlap computation cannot overflow for this pattern.
pub open spec fn packed_overlap_fits(state: Seq<u64>, pattern: Seq<u64>, n: usize) -> bool {
    &&& 2 * differing_bits(state, pattern, common_words(state, pattern)) <= i32::MAX
    &&& packed_overlap(state, pattern, n) >= i32::MIN
}

proof fn lemma_differing_bits_monotone(a: Seq<u64>, b: Seq<u64>, k: int, m: int)
    requires
        0 <= k <= m,
    ensures
        differing_bits(a, b, k) <= differing_bits(a, b, m),
    decreases m - k,
{
    if k < m {
        lemma_differing_bits_monotone(a, b, k, m - 1);
    }
}

/// For every pattern, `n - 2 * popcount(state ^ pattern)`: the overlap
/// `sum_i xi_i s_i` of the state with the pattern when both pack spin
/// vectors of `n` neurons.
pub fn calculate_initial_overlaps(state: &[u64], patterns: &[Vec<u64>], n: usize) -> (overlaps: Vec<i32>)
    requires
        forall|mu: int|
            0 <= mu < patterns@.len() ==> packed_overlap_fits(state@, (#[trigger] patterns@[mu])@, n),
    ensures
        overlaps@.len() == patterns@.len(),
        forall|mu: int|
            0 <= mu < patterns@.len() ==> #[trigger] overlaps@[mu] as int == packed_overlap(
                state@,
                patterns@[mu]@,
                n,
            ),
{
    let n_i32 = n as i32;
    let mut overlaps: Vec<i32> = Vec::with_capacity(patterns.len());
    let mut mu: usize = 0;
    while mu < patterns.len()
        invariant
            n_i32 == n as i32,
            forall|m: int|
                0 <= m < patterns@.len() ==> packed_overlap_fits(state@, (#[trigger] patterns@[m])@, n),
            mu <= patterns@.len(),
            overlaps@.len() == mu,
            forall|m: int|
                0 <= m < mu ==> #[trigger] overlaps@[m] as int == packed_overlap(
                    state@,
                    patterns@[m]@,
                    n,
                ),
        decreases patterns@.len() - mu,
    {
        let pat = &patterns[mu];
        let ghost total = common_words(state@, pat@);
        assert(packed_overlap_fits(state@, patterns@[mu as int]@, n));
        let mut popcnt: u32 = 0;
        let mut k: usize = 0;
        while k < state.len() && k < pat.len()
            invariant
                total == common_words(state@, pat@),
                k <= total,
                popcnt == differing_bits(state@, pat@, k as int),
                2 * differing_bits(state@, pat@, total) <= i32::MAX,
            decreases total - k,
        {
            proof {
                lemma_differing_bits_monotone(state@, pat@, k + 1, total);
            }
            let c = count_ones(state[k] ^ pat[k]);
            popcnt = popcnt + c;
            k = k + 1;
        }
        overlaps.push(n_i32 - 2 * (popcnt as i32));
        mu = mu + 1;
    }
    overlaps
}


/// The number of positions `j < k` at which two packed vectors differ.
pub open spec fn differing_prefix(a: Seq<u64>, b: Seq<u64>, k: int) -> nat
    decreases k,
{
    if k <= 0 {
        0
    } else {
        differing_prefix(a, b, k - 1) + if bit_at(a, k - 1) != bit_at(b, k - 1) {
            1nat
        } else {
            0nat
        }
    }
}

proof fn lemma_word_popcount(a: Seq<u64>, b: Seq<u64>, k: int, c: int)
    requires
        0 <= k,
        0 <= c <= 64,
    ensures
        ones_below(a[k] ^ b[k], c) + differing_prefix(a, b, 64 * k) == differing_prefix(
            a,
            b,
            64 * k + c,
        ),
    decreases c,
{
    if c > 0 {
        lemma_word_popcount(a, b, k, c - 1);
        let j = 64 * k + c - 1;
        lemma_index_split(k, c - 1);
        lemma_xor_bit(a[k], b[k], (c - 1) as u64);
        lemma_bit_is_zero_or_one(a[k], (c - 1) as u64);
        lemma_bit_is_zero_or_one(b[k], (c - 1) as u64);
        assert(j / 64 == k);
        assert(j % 64 == c - 1);
    }
}

proof fn lemma_differing_bits_prefix(a: Seq<u64>, b: Seq<u64>, m: int)
    requires
        0 <= m,
    ensures
        differing_bits(a, b, m) == differing_prefix(a, b, 64 * m),
    decreases m,
{
    if m > 0 {
        lemma_differing_bits_prefix(a, b, m - 1);
        lemma_word_popcount(a, b, m - 1, 64);
    }
}

proof fn lemma_differing_tail(a: Seq<u64>, b: Seq<u64>, n: int, k: int)
    requires
        0 <= n <= k,
        forall|j: int| n <= j < k ==> !#[trigger] bit_at(a, j) && !bit_at(b, j),
    ensures
        differing_prefix(a, b, k) == differing_prefix(a, b, n),
    decreases k,
{
    if k > n {
        lemma_differing_tail(a, b, n, k - 1);
    }
}

proof fn lemma_spin_dot_differing(a: Seq<u64>, b: Seq<u64>, u: Seq<i8>, v: Seq<i8>, k: int)
    requires
        is_spin_vector(u),
        is_spin_vector(v),
        0 <= k <= u.len(),
        k <= v.len(),
        forall|i: int| 0 <= i < u.len() ==> #[trigger] bit_at(a, i) == (u[i] < 0),
        forall|i: int| 0 <= i < v.len() ==> #[trigger] bit_at(b, i) == (v[i] < 0),
    ensures
        spin_dot(u, v, k) == k - 2 * differing_prefix(a, b, k),
    decreases k,
{
    if k > 0 {
        lemma_spin_dot_differing(a, b, u, v, k - 1);
        let x = u[k - 1];
        let y = v[k - 1];
        assert(x == 1 || x == -1);
        assert(y == 1 || y == -1);
        assert(bit_at(a, k - 1) == (x < 0));
        assert(bit_at(b, k - 1) == (y < 0));
        assert(x * y == if x == y {
            1int
        } else {
            -1int
        }) by (nonlinear_arith)
            requires
                x == 1 || x == -1,
                y == 1 || y == -1,
        ;
    }
}

proof fn lemma_words_for(n: int)
    requires
        0 <= n,
    ensures
        n <= 64 * words_for(n),
        words_for(n) >= 0,
{
}

/// The overlap that the packed engine starts from: for spin vectors packed
/// over `n` neurons, `n - 2 * popcount(state ^ pattern)` is the overlap
/// `sum_i xi_i s_i`, and computing it cannot overflow when `2 n` fits.
pub proof fn packed_overlap_is_spin_overlap(state: Seq<u64>, pattern: Seq<u64>, s: Seq<i8>, xi: Seq<i8>)
    requires
        is_spin_vector(s),
        is_spin_vector(xi),
        s.len() == xi.len(),
        2 * s.len() <= i32::MAX,
        packs(state, s),
        packs(pattern, xi),
    ensures
        packed_overlap(state, pattern, s.len() as usize) == spin_dot(xi, s, s.len() as int),
        packed_overlap_fits(state, pattern, s.len() as usize),
{
    let n = s.len() as int;
    let m = words_for(n);
    lemma_words_for(n);
    assert(common_words(state, pattern) == m);
    lemma_differing_bits_prefix(state, pattern, m);
    lemma_differing_tail(state, pattern, n, 64 * m);
    lemma_spin_dot_differing(pattern, state, xi, s, n);
    lemma_differing_symmetric(state, pattern, n);
    lemma_differing_bound(state, pattern, n);
}

proof fn lemma_differing_symmetric(a: Seq<u64>, b: Seq<u64>, k: int)
    ensures
        differing_prefix(a, b, k) == differing_prefix(b, a, k),
    decreases k,
{
    if k > 0 {
        lemma_differing_symmetric(a, b, k - 1);
    }
}

proof fn lemma_differing_bound(a: Seq<u64>, b: Seq<u64>, k: int)
    requires
        0 <= k,
    ensures
        differing_prefix(a, b, k) <= k,
    decreases k,
{
    if k > 0 {
        lemma_differing_bound(a, b, k - 1);
    }
}

proof fn lemma_differing_bits_symmetric(a: Seq<u64>, b: Seq<u64>, m: int)
    ensures
        differing_bits(a, b, m) == differing_bits(b, a, m),
    decreases m,
{
    if m > 0 {
        lemma_differing_bits_symmetric(a, b, m - 1);
        let x = a[m - 1];
        let y = b[m - 1];
        assert(x ^ y == y ^ x) by (bit_vector);
    }
}

/// The popcount overlap is symmetric: a state's overlap with a pattern is
/// the pattern's overlap with the state, and one fits exactly when the
/// other does.
pub proof fn packed_overlap_is_symmetric(a: Seq<u64>, b: Seq<u64>, n: usize)
    ensures
        packed_overlap(a, b, n) == packed_overlap(b, a, n),
        packed_overlap_fits(a, b, n) == packed_overlap_fits(b, a, n),
{
    lemma_differing_bits_symmetric(a, b, common_words(a, b));
    assert(common_words(a, b) == common_words(b, a));
}

/// Unpacking a packed spin vector gives it back.
pub proof fn unpack_inverts_pack(words: Seq<u64>, v: Seq<i8>)
    requires
        is_spin_vector(v),
        packs(words, v),
    ensures
        forall|i: int| 0 <= i < v.len() ==> spin_of_bit(#[trigger] bit_at(words, i)) == v[i],
        v.len() <= 64 * words.len(),
{
    lemma_words_for(v.len() as int);
    assert forall|i: int| 0 <= i < v.len() implies spin_of_bit(#[trigger] bit_at(words, i)) == v[i] by {
        assert(v[i] == 1 || v[i] == -1);
    }
}

/// Packing the unpacked first `n` bits gives the words back, when they are
/// as many as `n` bits need and the bits past `n` are clear.
pub proof fn pack_inverts_unpack(words: Seq<u64>, n: int, v: Seq<i8>)
    requires
        0 <= n,
        words.len() == words_for(n),
        forall|i: int| n <= i < 64 * words.len() ==> !#[trigger] bit_at(words, i),
        v.len() == n,
        forall|i: int| 0 <= i < n ==> #[trigger] v[i] as int == spin_of_bit(bit_at(words, i)),
    ensures
        packs(words, v),
        is_spin_vector(v),
        forall|words2: Seq<u64>| packs(words2, v) ==> words2 == words,
{
    assert forall|i: int| 0 <= i < n implies #[trigger] bit_at(words, i) == (v[i] < 0) by {
        assert(v[i] as int == spin_of_bit(bit_at(words, i)));
    }
    assert forall|i: int| 0 <= i < v.len() implies #[trigger] v[i] == 1 || v[i] == -1 by {
        assert(v[i] as int == spin_of_bit(bit_at(words, i)));
    }
    assert forall|words2: Seq<u64>| packs(words2, v) implies words2 == words by {
        assert forall|k: int| 0 <= k < words.len() implies #[trigger] words2[k] == words[k] by {
            assert forall|c: u64| c < 64 implies #[trigger] ((words2[k] >> c) & 1u64) == ((words[k]
                >> c) & 1u64) by {
                let j = 64 * k + c;
                lemma_index_split(k, c as int);
                lemma_bit_is_zero_or_one(words2[k], c);
                lemma_bit_is_zero_or_one(words[k], c);
                assert(bit_at(words2, j) == bit_at(words, j));
            }
            lemma_word_from_bits(words2[k], words[k]);
        }
        assert(words2 =~= words);
    }
}

/// Two words with the same 64 bits are equal.
proof fn lemma_word_from_bits(x: u64, y: u64)
    requires
        forall|c: u64| c < 64 ==> #[trigger] ((x >> c) & 1u64) == ((y >> c) & 1u64),
    ensures
        x == y,
{
    assert((x >> 63u64) & 1u64 == (y >> 63u64) & 1u64);
    assert(x >> 63u64 == y >> 63u64) by (bit_vector)
        requires
            (x >> 63u64) & 1u64 == (y >> 63u64) & 1u64,
    ;
    lemma_equal_from_shift(x, y, 63);
    assert(x >> 0u64 == x && y >> 0u64 == y) by (bit_vector);
}

proof fn lemma_equal_from_shift(x: u64, y: u64, k: u64)
    requires
        k < 64,
        x >> k == y >> k,
        forall|c: u64| c < 64 ==> #[trigger] ((x >> c) & 1u64) == ((y >> c) & 1u64),
    ensures
        x >> 0u64 == y >> 0u64,
    decreases k,
{
    if k > 0 {
        let j = (k - 1) as u64;
        assert((x >> j) & 1u64 == (y >> j) & 1u64);
        assert(x >> j == y >> j) by (bit_vector)
            requires
                j < 63,
                k == j + 1,
                x >> k == y >> k,
                (x >> j) & 1u64 == (y >> j) & 1u64,
        ;
        lemma_equal_from_shift(x, y, j);
    }
}

} // verus!
