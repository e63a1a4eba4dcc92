# multiplierless_rs

Design of multiplierless FIR lowpass filters: an ellipsoid-method search for
the autocorrelation of the filter under pass-band and stop-band constraints,
spectral factorization, canonical-signed-digit (CSD) quantization of the
coefficients, and generation of a transpose-form Verilog module.

- `src/` is the verified library (Verus):
  - `defaults` — the integer, boolean and text defaults of a design
    specification;
  - `bands` — the pass-band, stop-band and transition rows of the frequency
    grid;
  - `retry` — the retry policy of the quantized oracle;
  - `decimal` — decimal rendering of integers into a `String`;
  - `verilog` — the shifted-input expression of a CSD string and the
    transpose-form module, each equal to a specification of its text.
- `app/` is the command-line program and the floating-point numerics (the
  cutting-plane oracles, spectral factorization, quantization), which the
  verified library cannot hold; it reads a JSON specification and prints the
  coefficients, their CSD strings and the optional Verilog module.
- `tests/` exercises the library.
