use hopfield::overlap::calculate_overlap;
use hopfield::packed::{calculate_initial_overlaps, pack_bits, unpack_bits};
use hopfield::patterns::{apply_noise, generate_n, generate_states};
use hopfield::recall::{neuron_fix, neuron_fix_bit};
use hopfield::dynamics::neuron_fix_sync;
use hopfield::weights::weight_matrix_calculate;

fn flips(n: usize, ratio: f64) -> usize {
    ((n as f64) * ratio).round() as usize
}

fn matches(a: &[i8], b: &[i8]) -> usize {
    a.iter().zip(b.iter()).filter(|(x, y)| x == y).count()
}

#[test]
fn stored_patterns_are_fixed_points_at_low_load() {
    for seed in 0..5u64 {
        let n = 200;
        let p = 4;
        let states = generate_states(p, n, seed + 1000);
        let weights = weight_matrix_calculate(&states);
        for pattern in &states {
            let mut state = pattern.clone();
            neuron_fix(&mut state, &weights, seed + 2000, None);
            assert_eq!(&state, pattern);
        }
    }
}

#[test]
fn ten_percent_noise_is_repaired() {
    for seed in 0..2u64 {
        let n = generate_n(seed);
        let p = 10;
        let states = generate_states(p, n, seed + 1000);
        let weights = weight_matrix_calculate(&states);
        for pattern in states.iter().take(3) {
            let mut noisy = apply_noise(pattern, flips(n, 0.1), seed + 2000);
            for iter in 0..15u64 {
                if neuron_fix(&mut noisy, &weights, seed + iter + 3000, None) == 0 {
                    break;
                }
            }
            let accuracy = matches(pattern, &noisy) as f64 / n as f64;
            assert!(accuracy >= 0.99);
        }
    }
}

#[test]
fn recall_degrades_above_capacity() {
    let n = 200;
    let evaluate = |p: usize, seed: u64| -> f64 {
        let states = generate_states(p, n, seed + 1000);
        let weights = weight_matrix_calculate(&states);
        let mut total = 0;
        for (idx, pattern) in states.iter().take(3).enumerate() {
            let mut noisy = apply_noise(pattern, flips(n, 0.05), seed + 2000 + idx as u64);
            for iter in 0..15u64 {
                if neuron_fix(&mut noisy, &weights, seed + iter + 3000, None) == 0 {
                    break;
                }
            }
            total += matches(pattern, &noisy);
        }
        total as f64 / (3 * n) as f64
    };
    for seed in 0..3u64 {
        assert!(evaluate(10, seed) >= 0.95);
        assert!(evaluate(60, seed) <= 0.85);
    }
}

#[test]
fn async_settles_where_sync_oscillates() {
    let mut found = false;
    for seed in 0..300u64 {
        let n = 100;
        let p = 14;
        let states = generate_states(p, n, seed + 1000);
        let weights = weight_matrix_calculate(&states);
        let initial = apply_noise(&states[0], flips(n, 0.2), seed + 2000);
        let mut sync_state = initial.clone();
        let mut history: Vec<Vec<i8>> = vec![sync_state.clone()];
        let mut oscillating = false;
        for _ in 0..30 {
            neuron_fix_sync(&mut sync_state, &weights);
            let len = history.len();
            if len >= 2 && sync_state == history[len - 2] && sync_state != history[len - 1] {
                oscillating = true;
                break;
            }
            history.push(sync_state.clone());
        }
        if oscillating {
            let mut async_state = initial.clone();
            let mut converged = false;
            for iter in 0..50u64 {
                if neuron_fix(&mut async_state, &weights, seed + iter + 3000, None) == 0 {
                    converged = true;
                    break;
                }
            }
            assert!(converged);
            found = true;
            break;
        }
    }
    assert!(found);
}

#[test]
fn bit_engine_follows_the_matrix_engine() {
    let n = 256;
    let p = 12;
    for run in 0..4u64 {
        let states = generate_states(p, n, run + 1000);
        let noisy = apply_noise(&states[0], flips(n, 0.1), run + 2000);
        let weights = weight_matrix_calculate(&states);
        let mut base_state = noisy.clone();
        let packed: Vec<Vec<u64>> = states.iter().map(|s| pack_bits(s)).collect();
        let mut bit_state = pack_bits(&noisy);
        let mut overlaps = calculate_initial_overlaps(&bit_state, &packed, n);
        for iter in 0..20u64 {
            let iter_seed = run + 3000 + iter;
            let base_changed = neuron_fix(&mut base_state, &weights, iter_seed, None);
            let bit_changed =
                neuron_fix_bit(&mut bit_state, &packed, &mut overlaps, n, iter_seed, None);
            assert_eq!(base_changed, bit_changed);
            assert_eq!(base_state, unpack_bits(&bit_state, n));
            for (mu, s) in states.iter().enumerate() {
                assert_eq!(overlaps[mu] as i128, calculate_overlap(&base_state, s));
            }
            if base_changed == 0 {
                break;
            }
        }
    }
}
