//! A Hopfield network: Hebbian weights, asynchronous and synchronous
//! recall, energy, and a bit-packed engine that runs the same dynamics on
//! pattern overlaps.
//!
//! Neuron states are `i8` spins (`1` or `-1`); weights are the integer
//! Hebbian sums `sum_mu xi_i xi_j`, without the `1 / N` factor, which changes
//! no sign of any local field; overlaps and energies are returned as exact
//! integers in the same units.

pub mod dynamics;
pub mod weights;
pub mod packed;
pub mod bit_engine;
pub mod rng;
pub mod recall;
pub mod energy;
pub mod equivalence;
pub mod overlap;
pub mod patterns;
pub mod stability;

pub use dynamics::{calculate_energy, neuron_fix_sync};
pub use overlap::{calculate_overlap, calculate_pairwise_overlap};
pub use packed::{calculate_initial_overlaps, pack_bits, unpack_bits};
pub use patterns::{apply_noise, corrupt_lower_half, generate_n, generate_states};
pub use recall::{neuron_fix, neuron_fix_bit};
pub use weights::weight_matrix_calculate;
