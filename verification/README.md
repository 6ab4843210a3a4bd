# ternary_quantize

Quantization of single-precision numbers to the ternary values -1, 0 and +1, and the
way back: by a fixed threshold, by stochastic rounding, by a learned threshold, and row
by row with a scale for each row; with metrics of what is lost. Every function is
verified with [Verus](https://github.com/verus-lang/verus), and nothing is trusted but
Verus and its standard library.

## Layout

- `src/rounding.rs`, `src/powers.rs`: what it means to round an exact quotient to the
  nearest single-precision number, and the one function that does it.
- `src/binary32.rs`: `Binary32`, IEEE 754 single precision by its bit pattern. A finite
  number is a whole number of units of 2^-149; each operation is specified as the
  rounding of the exact result.
- `src/trit.rs`: `Trit`.
- `src/rng.rs`: `SimpleRng`, the xoshiro128** generator.
- `src/quantize.rs`: thresholds, stochastic rounding, dequantization.
- `src/learn.rs`: the threshold that minimizes the mean squared error, by gradient
  descent on it. Since the error is a step function of the threshold, which changes only
  at the sizes of the numbers, each step is held against the best of these, found once by
  trying every distinct size.
- `src/channel.rs`: matrices, row by row.
- `src/metrics.rs`, `src/report.rs`, `src/decimal.rs`: errors, distributions, the report
  and its text.
- `app/`: the same functions on the machine's floats, and `Display`.

A contract names the exact result of a function through spec functions on bit patterns,
sequences and integers. Proof functions named `law_...` state what holds of several
functions together: that quantizing dequantized trits gives them back, that stochastic
rounding is unbiased, that no threshold beats the learned one, that a greater threshold
never lowers the sparsity, and more.

The generator takes every seed. Seed zero, whose halves would give the state of all
zeros in which xoshiro128** stands still, has another state; no seed ever leads to all
zeros, of the first five draws two always differ, and the draws never stop varying.

Two corners of IEEE 754 are fixed here where the standard leaves a choice. An operation
without a numerical result gives one particular quiet NaN. A sum starts from -0, which
is neutral for addition.
