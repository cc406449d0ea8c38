# grayscott_wasm

A Gray-Scott reaction-diffusion toolkit whose integer core is proved with
Verus.

- `src/grid.rs` — geometry of the periodic lattice: row-major cell indices,
  wrap-around neighbours, the clipped seeding square, and the lemmas that
  indices are a bijection onto `0..width*height`.
- `src/solver.rs` — the double-buffered stepping engine. The per-cell rule is
  a closure, so the same proved engine runs the `f32` solver and its
  dual-number derivative. Contracts state exactly which cells a step reads
  and writes; `run` is proved to be `steps` repetitions of `step`. The
  vectorised entry point takes a second rule for the cells that the four-wide
  kernel computes (interior rows, whole chunks of four columns); with the
  scalar rule in its lanes it is proved to end where `run` ends.
- `src/rng.rs` — the SplitMix64 generator behind the noise helper, with the
  closed form of its state after `n` draws.
- `src/cli.rs` — decimal and comma-list parsing with the standard error
  kinds, flag/value reading, and the full argument parser of the forward
  benchmark.
- `app/` — floating-point physics (the reaction terms and their four-wide
  lane form, dual numbers,
  losses, gradients, grid search, gradient descent), the browser bindings
  and the experiment programs.
- `tests/` — scenarios for every module, including the float regression
  values of the solver run through the proved engine.
