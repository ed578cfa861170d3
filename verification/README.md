# sdf — Symbolic Dynamic Filtering, verified core

Symbolic Dynamic Filtering detects anomalies in signals: a signal is
transformed with wavelets, partitioned into regions, encoded as a sequence of
symbols, modelled with a D-Markov machine, and the model is compared with a
nominal one.

This crate has two parts.

- `src/` is the library, verified with Verus. It holds the discrete half of
  the pipeline: alphabets and their symbols, symbol counts and transition
  counts of a symbol sequence, phase space reconstruction by delay embedding,
  sliding words and smoothing windows, the states of a D-Markov machine
  (every word of `D` letters, in lexicographic order) and the transitions a
  sequence makes between them, state bookkeeping, code-indexed transition
  counts and matrix restriction, integer wavelet scales and the layout of a
  scale series, and the kinds of wavelet, partition scheme and anomaly
  measure. Each public function states its result in its contract; proof
  functions state the laws that tie them together (states are exactly the
  words, each row of transition counts adds up to its departures, symbol
  counts add up to the sequence length, `index_of` undoes `symbol`).
- `app/` is the program around it: the command-line entry point, the
  floating-point half of the pipeline (wavelet values and transforms,
  partitions of the real line, probabilities, entropies and anomaly scores),
  the serde and `Display` forms of the library's types, and the Python
  bindings. It calls the library for every discrete step.

The tests under `tests/` exercise the library with concrete values.
