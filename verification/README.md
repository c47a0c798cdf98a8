# hopfield

A Hopfield network with its behaviour proved in Verus: Hebbian weights,
asynchronous and synchronous recall, the network energy, and a bit-packed
engine that recalls from pattern overlaps without a weight matrix.

Neuron states are `i8` spins (`1` or `-1`). Weights are the integer Hebbian
sums `sum_mu xi_i xi_j` (the textbook weights times `N`, which changes no sign
of any field); overlaps and energies are exact integers in the same units.

## Layout

- `src/dynamics.rs`: local fields, the sign rule, an asynchronous pass over a
  given order, the synchronous step, the energy.
- `src/weights.rs`: the Hebbian matrix.
- `src/packed.rs`: packing spins into `u64` words, unpacking, and the initial
  overlaps by XOR and popcount.
- `src/bit_engine.rs`: the packed engine over a given order.
- `src/recall.rs`: recall passes in a seeded shuffled order, with clamped
  neurons, for both engines; recall until a pass changes nothing.
- `src/energy.rs`: the energy never rises along a pass and is bounded below.
- `src/equivalence.rs`: the packed engine runs the same dynamics as the
  matrix engine.
- `src/stability.rs`: when stored patterns are fixed points.
- `src/overlap.rs`, `src/patterns.rs`: overlaps, random patterns, noise,
  corruption, binarized images.
- `src/rng.rs`: the calls into `rand`, with the contracts they are trusted for.
- `app/`: the demonstration program and the experiments, which read MNIST,
  write CSV files and print.
