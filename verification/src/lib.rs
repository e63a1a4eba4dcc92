//! Multiplierless FIR lowpass filter design: the configuration defaults, the
//! selection of the pass-band, stop-band and transition rows of the frequency
//! grid, the retry policy of the quantized oracle, and the generation of a
//! transpose-form Verilog module from the canonical-signed-digit (CSD)
//! strings of the filter coefficients.

pub mod defaults;
pub mod decimal;
pub mod verilog;
pub mod bands;
pub mod retry;
