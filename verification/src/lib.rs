//! Wavelet transforms: packet, stationary and dual-tree complex decompositions
//! and the spectral steps of the fast continuous wavelet transform, generic
//! over the coefficient type, with their shapes, refusals and coefficient
//! values specified and verified.
use vstd::prelude::*;

pub mod basis_selection;
pub mod discrete;
pub mod dual_tree_complex;
pub mod fcwt;
pub mod field;
pub mod filter_bank;
pub mod math;
pub mod sample;
pub mod scales;
pub mod stationary;
pub mod sums;
pub mod wavelet_packet;

pub use basis_selection::{BasisSelectionCriterion, TransformKind, coarsest_detail};
pub use discrete::TransformError;
pub use dual_tree_complex::{
    DtcwtFilters, DtcwtLevel, DtcwtTree, DualTreeComplexWaveletTransform,
};
pub use fcwt::Fcwt;
pub use filter_bank::{DiscreteWavelet, WaveletFilterBank};
pub use sample::ComplexSample;
pub use scales::{ScaleError, ScaleType, Scales};
pub use stationary::{StationaryWaveletTransform, SwtCoefficients, SwtLevel};
pub use wavelet_packet::{PacketBand, WaveletPacketNode, WaveletPacketTransform, WaveletPacketTree};

use crate::math::is_power_of_two;

verus! {

/// The FFT length used for a signal of `n` samples: the smallest power of two
/// that is at least `n` (and at least 1).
pub fn next_power_of_two_len(n: usize) -> (r: usize)
    requires
        n <= usize::MAX / 2 + 1,
    ensures
        is_power_of_two(r as nat),
        r >= n,
        r == 1 || r / 2 < n,
{
    let mut p: usize = 1;
    while p < n
        invariant
            n <= usize::MAX / 2 + 1,
            is_power_of_two(p as nat),
            p == 1 || p / 2 < n,
            p >= 1,
        decreases usize::MAX - p,
    {
        proof {
            assert((2 * p) as nat / 2 == p as nat);
        }
        p = p * 2;
    }
    p
}

} // verus!
