use hopfield::{
    apply_noise, calculate_initial_overlaps, generate_n, generate_states, neuron_fix,
    neuron_fix_bit, neuron_fix_sync, pack_bits, unpack_bits, weight_matrix_calculate,
};

fn flip_count(n: usize, ratio: f64) -> usize {
    ((n as f64) * ratio).round() as usize
}

#[test]
pub fn test_fixed_point() {
    for iter in 0..50 {
        let seed = iter;
        let n = generate_n(seed);
        let p = 10;

        let states = generate_states(p, n, seed + 1000);
        let weights = weight_matrix_calculate(&states);

        for (i, states) in states.iter().enumerate() {
            let mut state = states.clone();
            neuron_fix(&mut state, &weights, seed + 2000, None);
            assert_eq!(
                &state, states,
                "pattern {} should stay a fixed point; seed {}",
                i, seed
            );
        }
    }
}

#[test]
pub fn test_noise_10() {
    for seed_iter in 0..50 {
        let seed = seed_iter;
        let n = generate_n(seed);
        let p = 10;
        let states = generate_states(p, n, seed + 1000);
        let weights = weight_matrix_calculate(&states);

        for states in &states {
            let mut noisy_state = apply_noise(states, flip_count(n, 0.1), seed + 2000);

            for iter in 0..15 {
                let changed = neuron_fix(&mut noisy_state, &weights, seed + iter + 3000, None);
                if changed == 0 {
                    break;
                }
            }

            let matches = states
                .iter()
                .zip(noisy_state.iter())
                .filter(|(a, b)| a == b)
                .count();

            let accuracy = matches as f64 / n as f64;
            assert!(
                accuracy >= 0.99,
                "recall accuracy should be >= 99%, got {:.2}%",
                accuracy * 100.0
            );
        }
    }
}

#[test]
pub fn sync_vs_async_test() {
    let mut found_oscillation = false;
    for seed in 0..1000 {
        let n = 500;
        let p = 60;

        let states = generate_states(p, n, seed + 1000);
        let weights = weight_matrix_calculate(&states);
        let initial_noisy = apply_noise(&states[0], flip_count(n, 0.2), seed + 2000);

        let mut sync_state = initial_noisy.clone();
        let mut history: Vec<Vec<i8>> = vec![sync_state.clone()];
        let mut is_oscillating = false;

        for _ in 0..30 {
            neuron_fix_sync(&mut sync_state, &weights);

            let len = history.len();
            if len >= 2 && sync_state == history[len - 2] && sync_state != history[len - 1] {
                is_oscillating = true;
                break;
            }
            history.push(sync_state.clone());
        }

        if is_oscillating {
            let mut async_state = initial_noisy.clone();
            let mut async_converged = false;

            for iter in 0..50 {
                let changed =
                    neuron_fix(&mut async_state, &weights, seed + iter as u64 + 3000, None);
                if changed == 0 {
                    async_converged = true;
                    break;
                }
            }

            assert!(async_converged, "the asynchronous mode should have converged");
            found_oscillation = true;
            break;
        }
    }

    assert!(found_oscillation, "no oscillating case found in 1000 seeds");
}

#[test]
pub fn test_bit_vs_standart_equivalence() {
    let n = 1024;
    let p = 50;
    let num_runs = 20;
    for run in 0..num_runs {
        let run_seed = run as u64;

        let states = generate_states(p, n, run_seed + 1000);
        let noisy = apply_noise(&states[0], flip_count(n, 0.10), run_seed + 2000);

        let weights = weight_matrix_calculate(&states);
        let mut base_state = noisy.clone();

        let packed_patterns: Vec<Vec<u64>> = states.iter().map(|p| pack_bits(p)).collect();
        let mut bit_state = pack_bits(&noisy);
        let mut m_overlaps = calculate_initial_overlaps(&bit_state, &packed_patterns, n);

        for iter in 0..20 {
            let iter_seed = run_seed + 3000 + (iter as u64);

            let base_changed = neuron_fix(&mut base_state, &weights, iter_seed, None);
            let bit_changed = neuron_fix_bit(
                &mut bit_state,
                &packed_patterns,
                &mut m_overlaps,
                n,
                iter_seed,
                None,
            );

            assert_eq!(
                base_changed, bit_changed,
                "run {run}, iteration {iter}: changed counts differ"
            );

            let unpacked_bit_state = unpack_bits(&bit_state, n);
            assert_eq!(
                base_state, unpacked_bit_state,
                "run {run}, iteration {iter}: the two engines diverged"
            );

            if base_changed == 0 {
                break;
            }
        }
    }
}
