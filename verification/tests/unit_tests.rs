use rand::{Rng, SeedableRng};
use hopfield::bit_engine::neuron_fix_bit_in_order;
use hopfield::dynamics::{calculate_energy, copy_states, neuron_fix_in_order, neuron_fix_sync};
use hopfield::overlap::{calculate_overlap, calculate_pairwise_overlap};
use hopfield::packed::{calculate_initial_overlaps, pack_bits, unpack_bits};
use hopfield::patterns::{
    apply_noise, binarize_images, corrupt_lower_half, generate_n, generate_states, upper_half_mask,
};
use hopfield::recall::{neuron_fix, neuron_fix_bit, recall_until_stable};
use hopfield::weights::weight_matrix_calculate;

#[test]
fn pack_bits_sets_the_negative_positions() {
    let v: Vec<i8> = vec![-1, 1, 1, -1];
    assert_eq!(pack_bits(&v), vec![9u64]);
}

#[test]
fn pack_bits_spans_words() {
    let mut v: Vec<i8> = vec![1; 70];
    v[0] = -1;
    v[63] = -1;
    v[64] = -1;
    v[69] = -1;
    let packed = pack_bits(&v);
    assert_eq!(packed, vec![1u64 | (1u64 << 63), 1u64 | (1u64 << 5)]);
}

#[test]
fn pack_bits_of_nothing_is_empty() {
    let v: Vec<i8> = vec![];
    assert_eq!(pack_bits(&v), Vec::<u64>::new());
}

#[test]
fn unpack_bits_reads_spins() {
    assert_eq!(unpack_bits(&[9u64], 4), vec![-1i8, 1, 1, -1]);
    assert_eq!(unpack_bits(&[9u64], 0), Vec::<i8>::new());
}

#[test]
fn unpack_inverts_pack_on_spins() {
    let states = generate_states(3, 130, 7);
    for s in &states {
        let packed = pack_bits(s);
        assert_eq!(packed.len(), 3);
        assert_eq!(&unpack_bits(&packed, s.len()), s);
        assert_eq!(pack_bits(&unpack_bits(&packed, s.len())), packed);
    }
}

#[test]
fn initial_overlaps_count_differing_bits() {
    let s: Vec<i8> = vec![1, -1, 1, 1, -1];
    let a: Vec<i8> = vec![1, -1, 1, 1, -1];
    let b: Vec<i8> = vec![-1, 1, -1, -1, 1];
    let c: Vec<i8> = vec![1, 1, 1, 1, 1];
    let packed: Vec<Vec<u64>> = vec![pack_bits(&a), pack_bits(&b), pack_bits(&c)];
    let q = calculate_initial_overlaps(&pack_bits(&s), &packed, 5);
    assert_eq!(q, vec![5, -5, 1]);
}

#[test]
fn initial_overlaps_equal_dot_products() {
    let states = generate_states(6, 200, 3);
    let state = apply_noise(&states[0], 30, 11);
    let packed: Vec<Vec<u64>> = states.iter().map(|p| pack_bits(p)).collect();
    let q = calculate_initial_overlaps(&pack_bits(&state), &packed, 200);
    for (mu, p) in states.iter().enumerate() {
        assert_eq!(q[mu] as i128, calculate_overlap(&state, p));
    }
    assert_eq!(q[0], 200 - 2 * 30);
}

#[test]
fn hebbian_weights_of_two_patterns() {
    let patterns: Vec<Vec<i8>> = vec![vec![1, -1, 1], vec![1, 1, -1]];
    let w = weight_matrix_calculate(&patterns);
    assert_eq!(w, vec![vec![0i64, 0, 0], vec![0, 0, -2], vec![0, -2, 0]]);
}

#[test]
fn hebbian_weights_of_no_patterns_are_empty() {
    let patterns: Vec<Vec<i8>> = vec![];
    assert!(weight_matrix_calculate(&patterns).is_empty());
}

#[test]
fn hebbian_weights_are_symmetric() {
    let patterns = generate_states(4, 20, 5);
    let w = weight_matrix_calculate(&patterns);
    for i in 0..20 {
        assert_eq!(w[i][i], 0);
        for j in 0..20 {
            assert_eq!(w[i][j], w[j][i]);
        }
    }
}

#[test]
fn energy_of_a_small_network() {
    let w: Vec<Vec<i64>> = vec![vec![0, 2, -1], vec![2, 0, 3], vec![-1, 3, 0]];
    let s: Vec<i8> = vec![1, -1, 1];
    // sum_ij w_ij s_i s_j = 2 * (2 * -1 + -1 * 1 + 3 * -1) = -12
    assert_eq!(calculate_energy(&s, &w), 12);
}

#[test]
fn single_pattern_is_a_fixed_point() {
    let patterns = generate_states(1, 50, 9);
    let w = weight_matrix_calculate(&patterns);
    let mut s = patterns[0].clone();
    assert_eq!(neuron_fix(&mut s, &w, 1, None), 0);
    assert_eq!(s, patterns[0]);
}

#[test]
fn recall_repairs_noise_with_one_pattern() {
    let patterns = generate_states(1, 64, 21);
    let w = weight_matrix_calculate(&patterns);
    let mut s = apply_noise(&patterns[0], 10, 4);
    let first = neuron_fix(&mut s, &w, 2, None);
    assert_eq!(first, 10);
    assert_eq!(s, patterns[0]);
    assert_eq!(neuron_fix(&mut s, &w, 3, None), 0);
}

#[test]
fn changed_count_is_the_hamming_distance() {
    let patterns = generate_states(5, 100, 31);
    let w = weight_matrix_calculate(&patterns);
    let mut s = apply_noise(&patterns[2], 25, 32);
    let before = s.clone();
    let changed = neuron_fix(&mut s, &w, 33, None);
    let differing = before.iter().zip(s.iter()).filter(|(a, b)| a != b).count();
    assert_eq!(changed, differing);
}

#[test]
fn energy_does_not_rise_during_a_pass() {
    let patterns = generate_states(10, 80, 41);
    let w = weight_matrix_calculate(&patterns);
    let mut s = apply_noise(&patterns[0], 20, 42);
    let mut e = calculate_energy(&s, &w);
    for i in 0..80usize {
        let changed = neuron_fix_in_order(&mut s, &w, &[i]);
        let e2 = calculate_energy(&s, &w);
        assert!(e2 <= e);
        if changed == 1 {
            assert!(e2 + 4 <= e);
        } else {
            assert_eq!(e2, e);
        }
        e = e2;
    }
}

#[test]
fn clamped_neurons_keep_their_state() {
    let patterns = generate_states(3, 40, 51);
    let w = weight_matrix_calculate(&patterns);
    let mut s = corrupt_lower_half(&patterns[0], 52);
    let before = s.clone();
    let mask = upper_half_mask(40);
    neuron_fix(&mut s, &w, 53, Some(&mask));
    assert_eq!(&s[..20], &before[..20]);
}

#[test]
fn neuron_fix_in_order_follows_the_order() {
    let w: Vec<Vec<i64>> = vec![vec![0, 1], vec![1, 0]];
    let mut s: Vec<i8> = vec![1, -1];
    assert_eq!(neuron_fix_in_order(&mut s, &w, &[0]), 1);
    assert_eq!(s, vec![-1, -1]);
    let mut t: Vec<i8> = vec![1, -1];
    assert_eq!(neuron_fix_in_order(&mut t, &w, &[1, 0]), 1);
    assert_eq!(t, vec![1, 1]);
}

#[test]
fn zero_field_keeps_the_state() {
    let w: Vec<Vec<i64>> = vec![vec![0, 0], vec![0, 0]];
    let mut s: Vec<i8> = vec![1, -1];
    assert_eq!(neuron_fix_in_order(&mut s, &w, &[0, 1]), 0);
    assert_eq!(s, vec![1, -1]);
    neuron_fix_sync(&mut s, &w);
    assert_eq!(s, vec![1, -1]);
}

#[test]
fn sync_oscillates_where_async_settles() {
    let w: Vec<Vec<i64>> = vec![vec![0, 1], vec![1, 0]];
    let mut s: Vec<i8> = vec![1, -1];
    neuron_fix_sync(&mut s, &w);
    assert_eq!(s, vec![-1, 1]);
    neuron_fix_sync(&mut s, &w);
    assert_eq!(s, vec![1, -1]);
    let mut a: Vec<i8> = vec![1, -1];
    neuron_fix(&mut a, &w, 0, None);
    assert_eq!(neuron_fix(&mut a, &w, 1, None), 0);
    assert_eq!(a[0], a[1]);
}

#[test]
fn bit_engine_in_order_matches_matrix_engine() {
    let patterns = generate_states(7, 150, 61);
    let w = weight_matrix_calculate(&patterns);
    let noisy = apply_noise(&patterns[1], 40, 62);
    let packed: Vec<Vec<u64>> = patterns.iter().map(|p| pack_bits(p)).collect();
    let mut bits = pack_bits(&noisy);
    let mut q = calculate_initial_overlaps(&bits, &packed, 150);
    let mut s = noisy.clone();
    let order: Vec<usize> = (0..150).rev().collect();
    let a = neuron_fix_in_order(&mut s, &w, &order);
    let b = neuron_fix_bit_in_order(&mut bits, &packed, &mut q, &order);
    assert_eq!(a, b);
    assert_eq!(unpack_bits(&bits, 150), s);
    assert_eq!(q, calculate_initial_overlaps(&pack_bits(&s), &packed, 150));
}

#[test]
fn bit_engine_with_a_mask_keeps_clamped_bits() {
    let patterns = generate_states(3, 100, 71);
    let packed: Vec<Vec<u64>> = patterns.iter().map(|p| pack_bits(p)).collect();
    let start = corrupt_lower_half(&patterns[0], 72);
    let mut bits = pack_bits(&start);
    let mut q = calculate_initial_overlaps(&bits, &packed, 100);
    let mask = upper_half_mask(100);
    neuron_fix_bit(&mut bits, &packed, &mut q, 100, 73, Some(&mask));
    let after = unpack_bits(&bits, 100);
    assert_eq!(&after[..50], &start[..50]);
}

#[test]
fn overlap_of_state_and_pattern() {
    let s: Vec<i8> = vec![1, -1, 1, 1];
    let p: Vec<i8> = vec![1, 1, 1, -1];
    assert_eq!(calculate_overlap(&s, &p), 0);
    assert_eq!(calculate_overlap(&s, &s), 4);
    assert_eq!(calculate_overlap(&s, &p[..3]), 1);
}

#[test]
fn pairwise_overlap_sums_all_pairs() {
    let patterns: Vec<Vec<i8>> = vec![vec![1, 1, 1, 1], vec![1, 1, -1, -1], vec![1, -1, 1, -1]];
    // pairs: (0,1) = 0, (0,2) = 0, (1,2) = 0
    assert_eq!(calculate_pairwise_overlap(&patterns), Some((0, 3)));
    let twins: Vec<Vec<i8>> = vec![vec![1, -1, 1], vec![1, -1, 1], vec![-1, 1, -1]];
    // (0,1) = 3, (0,2) = -3, (1,2) = -3
    assert_eq!(calculate_pairwise_overlap(&twins), Some((-3, 3)));
}

#[test]
fn pairwise_overlap_needs_two_patterns() {
    let one: Vec<Vec<i8>> = vec![vec![1, -1]];
    assert_eq!(calculate_pairwise_overlap(&one), None);
    let none: Vec<Vec<i8>> = vec![];
    assert_eq!(calculate_pairwise_overlap(&none), None);
}

#[test]
fn noise_flips_exactly_the_requested_count() {
    let pattern: Vec<i8> = vec![1; 100];
    let noisy = apply_noise(&pattern, 10, 5);
    assert_eq!(noisy.iter().filter(|&&x| x == -1).count(), 10);
    assert_eq!(calculate_overlap(&pattern, &noisy), 80);
    // the shuffled order is not the identity: not only the first ten flip
    assert!(noisy[10..].iter().any(|&x| x == -1));
}

#[test]
fn noise_beyond_the_size_flips_everything() {
    let pattern: Vec<i8> = vec![1, -1, 1];
    assert_eq!(apply_noise(&pattern, 10, 1), vec![-1, 1, -1]);
    assert_eq!(apply_noise(&pattern, 0, 1), pattern);
}

#[test]
fn corrupt_lower_half_keeps_the_upper_half() {
    let pattern: Vec<i8> = vec![1; 11];
    let c = corrupt_lower_half(&pattern, 8);
    assert_eq!(c.len(), 11);
    assert_eq!(&c[..5], &pattern[..5]);
    assert!(c[5..].iter().all(|&x| x == 1 || x == -1));
}

#[test]
fn random_states_are_spins_of_both_signs() {
    let states = generate_states(4, 300, 1000);
    assert_eq!(states.len(), 4);
    for s in &states {
        assert_eq!(s.len(), 300);
        assert!(s.iter().all(|&x| x == 1 || x == -1));
        assert!(s.iter().any(|&x| x == 1));
        assert!(s.iter().any(|&x| x == -1));
    }
    assert_eq!(generate_states(4, 300, 1000), states);
    assert!(generate_states(0, 5, 1).is_empty());
}

#[test]
fn random_size_is_in_range() {
    let mut seen_other = false;
    for seed in 0..50u64 {
        let n = generate_n(seed);
        assert!(n >= 500 && n <= 1000);
        if n != 500 && n != 1000 {
            seen_other = true;
        }
    }
    assert!(seen_other);
}

#[test]
fn binarize_splits_images_and_thresholds() {
    let mut pixels: Vec<u8> = vec![0; 784 + 3];
    pixels[0] = 128;
    pixels[1] = 127;
    pixels[784] = 255;
    let images = binarize_images(&pixels);
    assert_eq!(images.len(), 2);
    assert_eq!(images[0].len(), 784);
    assert_eq!(images[0][0], 1);
    assert_eq!(images[0][1], -1);
    assert_eq!(images[1], vec![1, -1, -1]);
    assert!(binarize_images(&[]).is_empty());
}

#[test]
fn upper_half_mask_freezes_the_first_half() {
    assert_eq!(upper_half_mask(5), vec![true, true, false, false, false]);
    assert_eq!(upper_half_mask(0), Vec::<bool>::new());
}

#[test]
fn copy_states_copies() {
    let s: Vec<i8> = vec![3, -4, 0];
    assert_eq!(copy_states(&s), s);
}

#[test]
fn orthogonal_patterns_are_fixed_points() {
    // rows of an 8 x 8 Hadamard matrix: pairwise orthogonal spin patterns
    let patterns: Vec<Vec<i8>> = vec![
        vec![1, 1, 1, 1, 1, 1, 1, 1],
        vec![1, -1, 1, -1, 1, -1, 1, -1],
        vec![1, 1, -1, -1, 1, 1, -1, -1],
        vec![1, -1, -1, 1, 1, -1, -1, 1],
    ];
    assert_eq!(calculate_pairwise_overlap(&patterns), Some((0, 6)));
    let w = weight_matrix_calculate(&patterns);
    for (mu, p) in patterns.iter().enumerate() {
        let mut s = p.clone();
        assert_eq!(neuron_fix(&mut s, &w, mu as u64, None), 0);
        assert_eq!(&s, p);
    }
}

#[test]
fn recall_until_stable_reaches_a_fixed_point() {
    let patterns = generate_states(5, 120, 81);
    let w = weight_matrix_calculate(&patterns);
    let mut s = apply_noise(&patterns[0], 12, 82);
    let e0 = calculate_energy(&s, &w);
    let (passes, stable) = recall_until_stable(&mut s, &w, 500, 100, None);
    assert!(stable);
    assert!(passes >= 1 && passes <= 100);
    assert!(calculate_energy(&s, &w) <= e0);
    let mut again = s.clone();
    assert_eq!(neuron_fix(&mut again, &w, 9, None), 0);
    assert_eq!(again, s);
}

#[test]
fn recall_until_stable_stops_after_the_budget() {
    let w: Vec<Vec<i64>> = vec![vec![0, 1], vec![1, 0]];
    let mut s: Vec<i8> = vec![1, -1];
    assert_eq!(recall_until_stable(&mut s, &w, 0, 0, None), (0, false));
    assert_eq!(s, vec![1, -1]);
    let (passes, stable) = recall_until_stable(&mut s, &w, 0, 10, None);
    assert!(stable);
    assert_eq!(passes, 2);
    assert_eq!(s[0], s[1]);
}

#[test]
fn bit_pass_without_changes_keeps_state_and_overlaps() {
    let patterns = generate_states(3, 64, 91);
    let packed: Vec<Vec<u64>> = patterns.iter().map(|p| pack_bits(p)).collect();
    let mut bits = pack_bits(&patterns[2]);
    let mut q = calculate_initial_overlaps(&bits, &packed, 64);
    let q0 = q.clone();
    let bits0 = bits.clone();
    assert_eq!(neuron_fix_bit(&mut bits, &packed, &mut q, 64, 5, None), 0);
    assert_eq!(bits, bits0);
    assert_eq!(q, q0);
}

#[test]
fn same_seed_gives_the_same_pass_in_both_engines_with_a_mask() {
    let n = 130;
    let patterns = generate_states(6, n, 301);
    let w = weight_matrix_calculate(&patterns);
    let packed: Vec<Vec<u64>> = patterns.iter().map(|p| pack_bits(p)).collect();
    let noisy = apply_noise(&patterns[1], 30, 302);
    let mask: Vec<bool> = (0..n).map(|i| i % 3 == 0).collect();
    let mut a = noisy.clone();
    let mut bits = pack_bits(&noisy);
    let mut q = calculate_initial_overlaps(&bits, &packed, n);
    for t in 0..10u64 {
        let ca = neuron_fix(&mut a, &w, 700 + t, Some(&mask));
        let cb = neuron_fix_bit(&mut bits, &packed, &mut q, n, 700 + t, Some(&mask));
        assert_eq!(ca, cb);
        assert_eq!(unpack_bits(&bits, n), a);
        assert_eq!(q, calculate_initial_overlaps(&bits, &packed, n));
        if ca == 0 {
            break;
        }
    }
    for i in (0..n).step_by(3) {
        assert_eq!(a[i], noisy[i]);
    }
}

#[test]
fn a_seeded_pass_is_repeatable() {
    let patterns = generate_states(8, 90, 311);
    let w = weight_matrix_calculate(&patterns);
    let noisy = apply_noise(&patterns[0], 25, 312);
    let mut a = noisy.clone();
    let mut b = noisy.clone();
    assert_eq!(neuron_fix(&mut a, &w, 4, None), neuron_fix(&mut b, &w, 4, None));
    assert_eq!(a, b);
    assert_eq!(apply_noise(&patterns[0], 25, 312), noisy);
}

#[test]
fn recall_until_stable_is_the_loop_of_passes() {
    let patterns = generate_states(12, 100, 321);
    let w = weight_matrix_calculate(&patterns);
    let noisy = apply_noise(&patterns[0], 20, 322);
    let mut a = noisy.clone();
    let result = recall_until_stable(&mut a, &w, 40, 30, None);
    let mut b = noisy.clone();
    let mut passes = 0u64;
    let mut stable = false;
    for t in 0..30u64 {
        passes += 1;
        if neuron_fix(&mut b, &w, 40 + t, None) == 0 {
            stable = true;
            break;
        }
    }
    assert_eq!(result, (passes, stable));
    assert_eq!(a, b);
}

#[test]
fn recall_settles_within_the_energy_bound() {
    for seed in 0..4u64 {
        let patterns = generate_states(15, 60, 400 + seed);
        let w = weight_matrix_calculate(&patterns);
        let magnitude: i128 = w.iter().flatten().map(|&x| (x as i128).abs()).sum();
        let mut s = apply_noise(&patterns[0], 25, 410 + seed);
        let e2 = calculate_energy(&s, &w);
        assert!(e2 >= -magnitude);
        let budget = ((e2 + magnitude) / 4 + 1) as u64;
        let (passes, stable) = recall_until_stable(&mut s, &w, 420 + seed, budget, None);
        assert!(stable);
        assert!(passes <= budget);
        assert!(calculate_energy(&s, &w) >= -magnitude);
    }
}

#[test]
fn random_states_follow_the_seeded_fair_coins() {
    let (p, n, seed) = (3usize, 70usize, 1234u64);
    let states = generate_states(p, n, seed);
    let mut rng = rand::rngs::StdRng::seed_from_u64(seed);
    for mu in 0..p {
        for i in 0..n {
            let expected: i8 = if rng.gen_bool(0.5) { 1 } else { -1 };
            assert_eq!(states[mu][i], expected);
        }
    }
    assert_eq!(generate_states(p, n, seed), states);
    assert_ne!(generate_states(p, n, seed + 1), states);
}

#[test]
fn corrupted_lower_half_follows_the_seeded_fair_coins() {
    let pattern: Vec<i8> = vec![1; 41];
    let c = corrupt_lower_half(&pattern, 77);
    let mut rng = rand::rngs::StdRng::seed_from_u64(77);
    for i in 20..41 {
        let expected: i8 = if rng.gen_bool(0.5) { 1 } else { -1 };
        assert_eq!(c[i], expected);
    }
    assert!(c[20..].iter().any(|&x| x == -1));
}

#[test]
fn a_fixed_point_is_fixed_for_every_seed() {
    let patterns = generate_states(6, 90, 501);
    let w = weight_matrix_calculate(&patterns);
    let packed: Vec<Vec<u64>> = patterns.iter().map(|p| pack_bits(p)).collect();
    let mask: Vec<bool> = (0..90).map(|i| i % 4 == 1).collect();
    let mut s = apply_noise(&patterns[2], 15, 502);
    let (_, stable) = recall_until_stable(&mut s, &w, 10, 100, Some(&mask));
    assert!(stable);
    let mut bits = pack_bits(&s);
    let mut q = calculate_initial_overlaps(&bits, &packed, 90);
    let (bits0, q0) = (bits.clone(), q.clone());
    for seed in 0..12u64 {
        let mut t = s.clone();
        assert_eq!(neuron_fix(&mut t, &w, seed, Some(&mask)), 0);
        assert_eq!(t, s);
        assert_eq!(neuron_fix_bit(&mut bits, &packed, &mut q, 90, seed, Some(&mask)), 0);
        assert_eq!(bits, bits0);
        assert_eq!(q, q0);
    }
}

#[test]
fn popcount_overlaps_are_symmetric_and_per_pattern() {
    let states = generate_states(4, 100, 511);
    let packed: Vec<Vec<u64>> = states.iter().map(|p| pack_bits(p)).collect();
    let a = &packed[0];
    let b = &packed[1];
    assert_eq!(
        calculate_initial_overlaps(a, &[b.clone()], 100),
        calculate_initial_overlaps(b, &[a.clone()], 100)
    );
    let all = calculate_initial_overlaps(a, &packed, 100);
    let first = calculate_initial_overlaps(a, &packed[..2], 100);
    let rest = calculate_initial_overlaps(a, &packed[2..], 100);
    assert_eq!(all, [first, rest].concat());
}

#[test]
fn overlaps_are_bounded_with_the_parity_of_n() {
    let states = generate_states(5, 101, 521);
    for x in &states {
        for y in &states {
            let d = calculate_overlap(x, y);
            assert!(-101 <= d && d <= 101);
            assert_eq!((d - 101).rem_euclid(2), 0);
            assert_eq!(d == 101, x == y);
        }
    }
}

#[test]
fn chained_bit_passes_keep_fresh_overlaps_and_clear_padding() {
    let n = 130;
    let patterns = generate_states(9, n, 531);
    let packed: Vec<Vec<u64>> = patterns.iter().map(|p| pack_bits(p)).collect();
    let mut bits = pack_bits(&apply_noise(&patterns[0], 35, 532));
    let mut q = calculate_initial_overlaps(&bits, &packed, n);
    for seed in 0..6u64 {
        let before: i64 = q.iter().map(|&x| (x as i64) * (x as i64)).sum();
        let changed = neuron_fix_bit(&mut bits, &packed, &mut q, n, 540 + seed, None);
        let after: i64 = q.iter().map(|&x| (x as i64) * (x as i64)).sum();
        assert!(after >= before + 4 * changed as i64);
        assert_eq!(q, calculate_initial_overlaps(&bits, &packed, n));
        assert_eq!(bits.len(), 3);
        assert_eq!(bits[2] >> 2, 0);
    }
}

#[test]
fn negating_every_spin_keeps_the_energy() {
    let patterns = generate_states(5, 70, 551);
    let w = weight_matrix_calculate(&patterns);
    let s = apply_noise(&patterns[0], 20, 552);
    let neg: Vec<i8> = s.iter().map(|&x| -x).collect();
    assert_eq!(calculate_energy(&neg, &w), calculate_energy(&s, &w));
}

#[test]
fn weights_ignore_the_order_and_signs_of_patterns() {
    let patterns = generate_states(5, 40, 561);
    let w = weight_matrix_calculate(&patterns);
    let mut reordered = patterns.clone();
    reordered.reverse();
    assert_eq!(weight_matrix_calculate(&reordered), w);
    let mut signed = patterns.clone();
    signed[1] = signed[1].iter().map(|&x| -x).collect();
    signed[3] = signed[3].iter().map(|&x| -x).collect();
    assert_eq!(weight_matrix_calculate(&signed), w);
}

#[test]
fn random_size_is_the_seeded_draw() {
    for seed in 0..20u64 {
        let expected: usize = rand::rngs::StdRng::seed_from_u64(seed).gen_range(500..=1000);
        assert_eq!(generate_n(seed), expected);
        assert_eq!(generate_n(seed), generate_n(seed));
    }
}

#[test]
fn negating_any_state_keeps_the_energy() {
    let w: Vec<Vec<i64>> = vec![vec![0, 3, -2], vec![5, 1, 4], vec![-7, 2, 0]];
    let s: Vec<i8> = vec![3, -7, 0];
    let neg: Vec<i8> = s.iter().map(|&x| -x).collect();
    assert_eq!(calculate_energy(&neg, &w), calculate_energy(&s, &w));
    assert_eq!(calculate_energy(&s, &w), 119);
}
