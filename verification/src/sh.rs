//! Layout of spherical-harmonic colour coefficients.
use vstd::prelude::*;

verus! {

/// Coefficients per colour channel at harmonic degree 3.
pub const SH_COEFFS_PER_CHANNEL: usize = 16;

/// Coefficients per splat: three colour channels.
pub const SH_COEFFS_PER_SPLAT: usize = 48;

/// The place of the higher-order coefficient number `val`: the channel is
/// `val / 16`, the coefficient is `val % 15 + 1`, and the place is three times
/// the coefficient plus the channel.
///
/// The channel counts in steps of 16 and the coefficient in steps of 15, so
/// the numbers do not all get places of their own: 0 and 15 both go to
/// place 3, 16 and 31 both to place 7.
pub open spec fn interleaved_index(val: int) -> int {
    (val % 15 + 1) * 3 + val / 16
}

/// Where the higher-order coefficient number `val` of a channel-major file
/// stands in the interleaved array of a splat, in which the three channels
/// of one coefficient stand side by side behind the constant term. Two
/// numbers may get the same place; see [`interleaved_index`].
pub fn to_interleaved_idx(val: usize) -> (idx: usize)
    ensures
        idx == interleaved_index(val as int),
        3 <= idx,
{
    let channel = val / SH_COEFFS_PER_CHANNEL;
    let coeff = (val % (SH_COEFFS_PER_CHANNEL - 1)) + 1;
    coeff * 3 + channel
}

} // verus!
