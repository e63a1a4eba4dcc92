//! The retry policy of the quantized lowpass oracle: a fresh quantization of
//! a shrinking point starts the count of re-assessments again, each retry
//! adds one, and the solver may ask for another alternative while fewer than
//! `MAX_RETRIES` re-assessments were made.

use vstd::prelude::*;

verus! {

/// Re-assessments allowed after one quantization.
pub const MAX_RETRIES: u32 = 15;

/// The count after an assessment of the quantized point (`0` after a fresh
/// quantization, one more after a retry), and whether more alternatives
/// remain.
pub fn retry_step(retry: bool, num_retries: u32) -> (r: (u32, bool))
    requires
        retry ==> num_retries < u32::MAX,
    ensures
        r.0 == if retry {
            num_retries + 1
        } else {
            0
        },
        r.1 == (r.0 < MAX_RETRIES),
{
    let count: u32 = if retry {
        num_retries + 1
    } else {
        0
    };
    (count, count < MAX_RETRIES)
}

} // verus!
