# fastnum

Fixed-size unsigned decimal numbers, with their arithmetic, rounding,
formatting and parsing verified with Verus.

A number is a coefficient of `N` 64-bit limbs and a scale (the number of
digits after the decimal point), with the signals its operations raised and
the context (rounding mode and trapped signals) it carries. Every operation
states, in its contract, the exact number it returns: arithmetic results are
the exact results fitted to the coefficient by one rounding (integer
powers round each product of the binary method).

The library has no non-integer powers, exponential or logarithms (`pow`,
`exp`, `ln`, `ln_1p`, `log`, `log2`, `log10`): their results are not
rational, and a correctly rounded result would need arbitrary-precision
evaluation with proven error bounds, which this library does not hold.
Integer powers (`powi`) and square roots (`sqrt`) are here.

Layout of `src/`:

- `uint`: unsigned big integers (their arithmetic is `bnum`'s), `sint`:
  signed ones in two's complement and the casts between widths, `powers`:
  powers of ten and digit counts.
- `round`, `context`, `decimal`, `num`: rounding modes, signals and contexts,
  the model of a decimal number, and the fitting of exact results.
- `udec`: the unsigned decimal type and its operations; `quot` (division),
  `root` (square root) and `fused` (multiply-add) hold the longer
  algorithms.
- `parse`: the grammar of decimal literals; `ascii` and `format`: digit
  strings and the plain, exponential, scientific and engineering notations.
- `fixed`: fixed-capacity strings and byte vectors (`arrayvec`) for builds
  without an allocator.
- `laws`: what holds across the operations (the order of comparison,
  commutativity, round trips, exact powers and roots).

`app/` holds what plain Rust needs around the library: the standard
formatting and error traits of the parse error, and `to_string`.
