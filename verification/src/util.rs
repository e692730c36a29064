//! Small shared numeric helpers.

use vstd::prelude::*;

verus! {

/// Quotient and remainder of `x / y` in one call.
pub fn div_rem(x: usize, y: usize) -> (r: (usize, usize))
    requires
        y != 0,
    ensures
        r.0 == x as int / y as int,
        r.1 == x as int % y as int,
        r.0 * y + r.1 == x,
{
    let quot = x / y;
    let rem = x % y;
    proof {
        assert(quot * y + rem == x) by (nonlinear_arith)
            requires
                y != 0,
                quot == x as int / y as int,
                rem == x as int % y as int,
        ;
    }
    (quot, rem)
}

/// The piecewise-linear approximation of `2^(log_gain / 128)` used for gain
/// dequantization, written out as a spec-level formula.
///
/// The integer part of the exponent selects `i = 2 * (log_gain / 128)`; the
/// fractional part `f` contributes one quadratic correction term. The ceiling
/// division expresses the arithmetic right shift of the negated product.
pub open spec fn spec_log2lin(log_gain: int) -> int {
    let i = 2 * (log_gain / 128);
    let f = log_gain % 128;
    let correction = (174 * f * (128 - f) + 65535) / 65536;
    i + (f - correction) * (i / 128)
}

/// Convert a logarithmic-scale gain to a linear scale.
pub fn log2lin(log_gain: u32) -> (r: u32)
    ensures
        r == spec_log2lin(log_gain as int),
{
    let i: u32 = (log_gain / 128) * 2;
    let f: u32 = log_gain % 128;
    let fc: u32 = 128 - f;
    proof {
        assert((174 * f) * fc <= 174 * 127 * 128) by (nonlinear_arith)
            requires
                f < 128,
                fc == 128 - f,
        ;
    }
    let t: u32 = 174 * f * fc;
    proof {
        assert(t <= 65536 * f) by (nonlinear_arith)
            requires
                t == 174 * f * (128 - f),
                f < 128,
        ;
        assert((t + 65535) / 65536 <= f) by (nonlinear_arith)
            requires
                t <= 65536 * f,
        ;
    }
    let correction: u32 = (t + 65535) / 65536;
    let fractional: u32 = f - correction;
    proof {
        assert(fractional * (i / 128) <= 127 * 0x80000) by (nonlinear_arith)
            requires
                fractional <= 127,
                i <= 0x4000000u32,
        ;
    }
    i + fractional * (i / 128)
}

} // verus!
