//! The part of wavelet basis selection that does not depend on floating-point
//! statistics: which transform a candidate is scored with, and which band of
//! it the score is taken from.
use crate::discrete::{TransformError, power_of_two_check};
use crate::filter_bank::{FilterBankModel, WaveletFilterBank};
use crate::math::two_pow;
use crate::sample::{
    Sample, all_finite, all_finite_values, copy_slice, exact_arithmetic, total_arithmetic,
};
use crate::stationary::{StationaryWaveletTransform, periodic_filter, swt_input};
use crate::wavelet_packet::{
    PacketBand, WaveletPacketTransform, band_of, packet_coefficients, packet_path,
};
use vstd::prelude::*;

verus! {

/// The transform a candidate basis is scored with.
#[derive(Clone, Copy, Debug, PartialEq, Eq, Structural)]
pub enum TransformKind {
    WaveletPacket,
    Stationary,
}

/// How candidate bases are compared.
#[derive(Clone, Copy, Debug, PartialEq, Eq, Structural)]
pub enum BasisSelectionCriterion {
    CoarsestDetailPdfShape,
}

/// The path of the leftmost detail node at depth `depth`: `depth - 1`
/// approximation steps followed by one detail step (just a detail step at
/// depth zero).
pub open spec fn coarsest_detail_path(depth: nat) -> Seq<PacketBand> {
    Seq::new((if depth == 0 { 0 } else { depth - 1 }) as nat, |i: int| PacketBand::Approximation).push(
        PacketBand::Detail,
    )
}

proof fn lemma_leftmost_path(depth: nat)
    ensures
        packet_path(depth, 0) == Seq::new(depth, |i: int| PacketBand::Approximation),
    decreases depth,
{
    if depth > 0 {
        lemma_leftmost_path((depth - 1) as nat);
        assert(packet_path(depth, 0) =~= Seq::new(depth, |i: int| PacketBand::Approximation));
    }
}

fn same_path(a: &[PacketBand], b: &[PacketBand]) -> (r: bool)
    ensures
        r == (a@ == b@),
{
    if a.len() != b.len() {
        return false;
    }
    let mut i: usize = 0;
    while i < a.len()
        invariant
            a.len() == b.len(),
            i <= a.len(),
            a@.subrange(0, i as int) == b@.subrange(0, i as int),
        decreases a.len() - i,
    {
        if a[i] != b[i] {
            assert(a@[i as int] != b@[i as int]);
            return false;
        }
        i = i + 1;
        assert(a@.subrange(0, i as int) =~= b@.subrange(0, i as int));
    }
    assert(a@ =~= a@.subrange(0, a.len() as int));
    assert(b@ =~= b@.subrange(0, b.len() as int));
    true
}

/// The coarsest detail band of `input` under a candidate basis: with the
/// packet transform, the leaf on the path `A...AD` of depth `levels`; with the
/// stationary transform, the detail band of the last level. Refused like the
/// transform refuses the input; also refused when `levels` is zero (the packet
/// tree then has no detail leaf; the stationary transform has no level).
pub fn coarsest_detail<T: Sample>(
    input: &[T],
    levels: usize,
    filter_bank: &WaveletFilterBank<T>,
    transform_kind: TransformKind,
) -> (r: Result<Vec<T>, TransformError>)
    requires
        total_arithmetic::<T>(),
    ensures
        power_of_two_check(input.len(), levels) matches Err(e) ==> r == Err::<
            Vec<T>,
            TransformError,
        >(e),
        power_of_two_check(input.len(), levels) is Ok && levels == 0 ==> r == Err::<
            Vec<T>,
            TransformError,
        >(
            match transform_kind {
                TransformKind::WaveletPacket => TransformError::InvalidCoefficientTree,
                TransformKind::Stationary => TransformError::LevelTooDeep {
                    levels: 0,
                    max_levels: 0,
                },
            },
        ),
        power_of_two_check(input.len(), levels) is Ok && levels > 0 ==> (r matches Ok(v) && match
            transform_kind {
            TransformKind::WaveletPacket => {
                &&& v.len() == (input.len() as nat) / two_pow(levels as nat)
                &&& exact_arithmetic::<T>() ==> v@ == packet_coefficients(
                    input@,
                    filter_bank@,
                    levels as nat,
                    1,
                )
            },
            TransformKind::Stationary => {
                &&& v.len() == input.len()
                &&& exact_arithmetic::<T>() ==> v@ == periodic_filter(
                    swt_input(input@, filter_bank@, (levels - 1) as nat),
                    filter_bank@.analysis_high,
                    two_pow((levels - 1) as nat),
                )
            },
        }),
{
    match transform_kind {
        TransformKind::WaveletPacket => {
            let transform = WaveletPacketTransform::with_filter_bank(levels, filter_bank.clone());
            let tree = transform.decompose(input)?;
            let ghost leaves = tree@.leaves;
            let mut path: Vec<PacketBand> = Vec::new();
            let approximations = if levels >= 1 {
                levels - 1
            } else {
                0
            };
            let mut i: usize = 0;
            while i < approximations
                invariant
                    i <= approximations,
                    path@ == Seq::new(i as nat, |j: int| PacketBand::Approximation),
                decreases approximations - i,
            {
                path.push(PacketBand::Approximation);
                i = i + 1;
                assert(path@ =~= Seq::new(i as nat, |j: int| PacketBand::Approximation));
            }
            path.push(PacketBand::Detail);
            let ghost n = input.len() as nat;
            proof {
                assert(path@ =~= coarsest_detail_path(levels as nat));
                if levels > 0 {
                    lemma_leftmost_path((levels - 1) as nat);
                    assert(packet_path(levels as nat, 1) =~= coarsest_detail_path(levels as nat));
                    lemma_leftmost_path(levels as nat);
                    assert(two_pow(levels as nat) == 2 * two_pow((levels - 1) as nat));
                    crate::math::lemma_two_pow_positive((levels - 1) as nat);
                    assert(leaves[1].path@ == packet_path(levels as nat, 1));
                    assert(leaves[0].path@ == packet_path(levels as nat, 0));
                } else {
                    assert forall|j: int| 0 <= j < leaves.len() implies #[trigger] leaves[j].path@.len()
                        == 0 by {
                        assert(leaves[j].path@ == packet_path(0, j as nat));
                    }
                }
            }
            let leaves_ref = tree.leaves();
            let mut k: usize = 0;
            while k < leaves_ref.len()
                invariant
                    leaves_ref@ == leaves,
                    k <= leaves.len(),
                    transform_kind == TransformKind::WaveletPacket,
                    n == input.len(),
                    power_of_two_check(input.len(), levels) is Ok,
                    path@ == coarsest_detail_path(levels as nat),
                    levels > 0 ==> {
                        &&& leaves.len() >= 2
                        &&& leaves[1].path@ == path@
                        &&& leaves[0].path@ == Seq::new(
                            levels as nat,
                            |i: int| PacketBand::Approximation,
                        )
                        &&& leaves[1].coefficients.len() == n / two_pow(levels as nat)
                        &&& exact_arithmetic::<T>() ==> leaves[1].coefficients@
                            == packet_coefficients(input@, filter_bank@, levels as nat, 1)
                    },
                    levels == 0 ==> forall|j: int|
                        0 <= j < leaves.len() ==> #[trigger] leaves[j].path@.len() == 0,
                    forall|j: int| 0 <= j < k ==> #[trigger] leaves[j].path@ != path@,
                decreases leaves_ref.len() - k,
            {
                if same_path(leaves_ref[k].path.as_slice(), path.as_slice()) {
                    proof {
                        if levels > 0 {
                            assert(k == 1) by {
                                if k == 0 {
                                    assert(leaves[0].path@[levels - 1] != path@[levels - 1]);
                                }
                            }
                        } else {
                            assert(leaves[k as int].path@.len() == 0);
                        }
                    }
                    return Ok(copy_slice(leaves_ref[k].coefficients.as_slice()));
                }
                k = k + 1;
            }
            proof {
                if levels > 0 {
                    assert(leaves[1].path@ == path@);
                }
            }
            Err(TransformError::InvalidCoefficientTree)
        },
        TransformKind::Stationary => {
            let transform = StationaryWaveletTransform::with_filter_bank(
                levels,
                filter_bank.clone(),
            );
            let coefficients = transform.decompose(input)?;
            let bands = coefficients.levels();
            if bands.len() == 0 {
                return Err(TransformError::LevelTooDeep { levels, max_levels: 0 });
            }
            let last = bands.len() - 1;
            Ok(copy_slice(bands[last].detail.as_slice()))
        },
    }
}

/// The candidate a selection picks, given each candidate's score as a key in
/// the scores' total order: the last of the candidates with the greatest key.
/// Refused, as an invalid filter bank, when there is no candidate.
pub fn best_candidate(keys: &[i32]) -> (r: Result<usize, TransformError>)
    ensures
        keys@.len() == 0 ==> r == Err::<usize, TransformError>(
            TransformError::InvalidWaveletFilterBank,
        ),
        keys@.len() > 0 ==> (r matches Ok(best) && {
            &&& best < keys@.len()
            &&& forall|j: int| 0 <= j < keys@.len() ==> #[trigger] keys@[j] <= keys@[best as int]
            &&& forall|j: int| best < j < keys@.len() ==> #[trigger] keys@[j] < keys@[best as int]
        }),
{
    if keys.len() == 0 {
        return Err(TransformError::InvalidWaveletFilterBank);
    }
    let mut best: usize = 0;
    let mut j: usize = 1;
    while j < keys.len()
        invariant
            0 < j <= keys@.len(),
            best < j,
            forall|i: int| 0 <= i < j ==> #[trigger] keys@[i] <= keys@[best as int],
            forall|i: int| best < i < j ==> #[trigger] keys@[i] < keys@[best as int],
        decreases keys@.len() - j,
    {
        if keys[j] >= keys[best] {
            best = j;
        }
        j = j + 1;
    }
    Ok(best)
}

/// Whether a coarsest detail band can be scored: it needs at least four
/// coefficients, all finite; otherwise it is refused as an invalid
/// coefficient tree.
pub fn validate_detail_band<T: Sample>(detail: &[T]) -> (r: Result<(), TransformError>)
    requires
        total_arithmetic::<T>(),
    ensures
        detail.len() < 4 ==> r == Err::<(), TransformError>(TransformError::InvalidCoefficientTree),
        r is Err ==> r == Err::<(), TransformError>(TransformError::InvalidCoefficientTree),
        exact_arithmetic::<T>() ==> (r is Ok <==> detail.len() >= 4 && all_finite_values(detail@)),
{
    if detail.len() < 4 || !all_finite(detail) {
        Err(TransformError::InvalidCoefficientTree)
    } else {
        Ok(())
    }
}

} // verus!
