//! Default values of the design specification fields that are not
//! floating point.

use vstd::prelude::*;
use vstd::string::StringExecFns;

verus! {

/// Default filter order (number of taps).
pub fn default_filter_order() -> (n: usize)
    ensures
        n == 32,
{
    32
}

/// Default number of non-zero digits of each CSD coefficient.
pub fn default_csd_nnz() -> (nnz: u32)
    ensures
        nnz == 7,
{
    7
}

/// Default number of frequency-grid points per tap.
pub fn default_discretization_factor() -> (k: usize)
    ensures
        k == 15,
{
    15
}

/// Default iteration limit of the cutting-plane solver.
pub fn default_max_iters() -> (k: usize)
    ensures
        k == 50000,
{
    50000
}

/// Parallel cuts are used unless the specification says otherwise.
pub fn default_parallel_cut() -> (b: bool)
    ensures
        b,
{
    true
}

/// Default spectral factorization method.
pub fn default_spectral_method() -> (s: String)
    ensures
        s@ == "fft"@,
{
    String::from_str("fft")
}

/// Default bit width of the filter input in the generated Verilog.
pub fn default_input_width() -> (w: i32)
    ensures
        w == 16,
{
    16
}

/// Default name of the generated Verilog module.
pub fn default_module_name() -> (s: String)
    ensures
        s@ == "fir_filter"@,
{
    String::from_str("fir_filter")
}

/// Default form of the generated Verilog filter.
pub fn default_verilog_form() -> (s: String)
    ensures
        s@ == "transpose"@,
{
    String::from_str("transpose")
}

} // verus!
