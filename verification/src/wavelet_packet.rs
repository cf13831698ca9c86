//! The wavelet packet transform: every band, approximation and detail alike,
//! is split again at each level, giving a full binary tree of sub-bands.
use crate::discrete::{
    TransformError, circular_dot, circular_downsample, circular_upsample, power_of_two_check,
    upsample_acc, validate_power_of_two,
};
use crate::field::{
    field_laws, lemma_one_times, lemma_plus_assoc, lemma_plus_comm, lemma_plus_negated,
    lemma_times_comm, lemma_times_zero, lemma_zero_plus, one,
};
use crate::filter_bank::{
    FilterBankModel, WaveletFilterBank, autocorrelation, lemma_autocorrelation_parts,
    lemma_qmf_parity_autocorrelation, orthonormal_bank, parity_autocorrelation,
};
use crate::math::{
    is_power_of_two, lemma_log2_below_bits, lemma_power_of_two_log2, lemma_two_pow_add,
    lemma_two_pow_div, lemma_two_pow_monotonic, lemma_two_pow_positive, log2, shift_pow2, two_pow,
};
use crate::sample::{Sample, copy_slice, exact_arithmetic, plus, times, total_arithmetic, zero};
use crate::stationary::{
    lag_term, lagged, lemma_inverse_term, lemma_inverse_term_by_lag, periodic_filter,
};
use crate::sums::{
    lemma_sum_add, lemma_sum_congruent, lemma_sum_scale, lemma_sum_single, lemma_sum_swap,
    lemma_sum_zero, sum,
};
use vstd::prelude::*;

verus! {

/// Which half of a split a packet node came from.
#[derive(Clone, Copy, Debug, PartialEq, Eq, Structural)]
pub enum PacketBand {
    Approximation,
    Detail,
}

/// One sub-band of a packet decomposition: the sequence of splits that leads
/// to it from the root, and its coefficients.
#[derive(Debug, PartialEq)]
pub struct WaveletPacketNode<T> {
    pub path: Vec<PacketBand>,
    pub coefficients: Vec<T>,
}

/// The band that an even (approximation) or odd (detail) child index denotes.
pub open spec fn band_of(index: nat) -> PacketBand {
    if index % 2 == 0 {
        PacketBand::Approximation
    } else {
        PacketBand::Detail
    }
}

/// The path of the `index`-th node, counted from the left, at depth `depth`:
/// the binary digits of `index`, most significant first, with 0 read as
/// approximation and 1 as detail.
pub open spec fn packet_path(depth: nat, index: nat) -> Seq<PacketBand>
    decreases depth,
{
    if depth == 0 {
        Seq::empty()
    } else {
        packet_path((depth - 1) as nat, index / 2).push(band_of(index))
    }
}

/// One analysis half of a periodic filter bank step: `filter` applied at every
/// even position of `x`.
pub open spec fn analysis_half<T: Sample>(x: Seq<T>, filter: Seq<T>) -> Seq<T> {
    Seq::new(x.len() / 2, |o: int| circular_dot(x, filter, 2 * o, 1, filter.len()))
}

/// The coefficients of the packet node at (`depth`, `index`) of the
/// decomposition of `x` with `bank`.
pub open spec fn packet_coefficients<T: Sample>(
    x: Seq<T>,
    bank: FilterBankModel<T>,
    depth: nat,
    index: nat,
) -> Seq<T>
    decreases depth,
{
    if depth == 0 {
        x
    } else {
        let parent = packet_coefficients(x, bank, (depth - 1) as nat, index / 2);
        if index % 2 == 0 {
            analysis_half(parent, bank.analysis_low)
        } else {
            analysis_half(parent, bank.analysis_high)
        }
    }
}

/// The shape of a packet decomposition of an `input_len`-sample signal over
/// `levels` levels: 2^levels leaves, leaf `i` on the path `packet_path(levels, i)`,
/// each holding `input_len / 2^levels` coefficients.
pub open spec fn packet_shape<T>(
    input_len: nat,
    levels: nat,
    leaves: Seq<WaveletPacketNode<T>>,
) -> bool {
    &&& leaves.len() == two_pow(levels)
    &&& forall|i: int|
        #![trigger leaves[i]]
        0 <= i < leaves.len() ==> {
            &&& leaves[i].path@ == packet_path(levels, i as nat)
            &&& leaves[i].coefficients.len() == input_len / two_pow(levels)
        }
}

/// The leaves can be merged back into one signal: 2^levels of them, leaf `i`
/// on the path `packet_path(levels, i)`, all holding the same number of
/// coefficients. A tree of zero levels only needs a leaf.
pub open spec fn packet_reconstructible<T>(levels: nat, leaves: Seq<WaveletPacketNode<T>>) -> bool {
    if levels == 0 {
        leaves.len() > 0
    } else {
        &&& leaves.len() == two_pow(levels)
        &&& forall|i: int|
            #![trigger leaves[i]]
            0 <= i < leaves.len() ==> {
                &&& leaves[i].path@ == packet_path(levels, i as nat)
                &&& leaves[i].coefficients.len() == leaves[0].coefficients.len()
            }
    }
}

/// One synthesis step as a sequence: the two halves up-sampled, filtered and
/// summed.
pub open spec fn synthesis_merge<T: Sample>(a: Seq<T>, d: Seq<T>, low: Seq<T>, high: Seq<T>) -> Seq<
    T,
> {
    Seq::new(2 * a.len(), |j: int| upsample_acc(a, d, low, high, j, a.len(), 0))
}

/// The coefficients that merging a packet tree's leaves gives at node
/// (`depth`, `index`), for a tree of `levels` levels.
pub open spec fn packet_synthesis<T: Sample>(
    leaves: Seq<WaveletPacketNode<T>>,
    bank: FilterBankModel<T>,
    levels: nat,
    depth: nat,
    index: nat,
) -> Seq<T>
    decreases levels - depth,
{
    if depth >= levels {
        leaves[index as int].coefficients@
    } else {
        synthesis_merge(
            packet_synthesis(leaves, bank, levels, depth + 1, 2 * index),
            packet_synthesis(leaves, bank, levels, depth + 1, 2 * index + 1),
            bank.synthesis_low,
            bank.synthesis_high,
        )
    }
}

/// What a packet tree holds, as mathematical values.
pub struct PacketTreeModel<T> {
    pub levels: nat,
    pub filter_bank: FilterBankModel<T>,
    pub leaves: Seq<WaveletPacketNode<T>>,
}

/// The leaves of a packet decomposition, with the filter bank that merges them.
#[derive(Debug, PartialEq)]
pub struct WaveletPacketTree<T> {
    levels: usize,
    filter_bank: WaveletFilterBank<T>,
    leaves: Vec<WaveletPacketNode<T>>,
}

impl<T> View for WaveletPacketTree<T> {
    type V = PacketTreeModel<T>;

    closed spec fn view(&self) -> PacketTreeModel<T> {
        PacketTreeModel {
            levels: self.levels as nat,
            filter_bank: self.filter_bank@,
            leaves: self.leaves@,
        }
    }
}

/// A packet transform: the depth of the tree and the filter bank that splits.
#[derive(Debug)]
pub struct WaveletPacketTransform<T> {
    levels: usize,
    filter_bank: WaveletFilterBank<T>,
}

impl<T: Sample> WaveletPacketTransform<T> {
    /// The filter bank whose model this transform splits with.
    pub closed spec fn bank(&self) -> FilterBankModel<T> {
        self.filter_bank@
    }

    pub closed spec fn depth(&self) -> nat {
        self.levels as nat
    }

    pub fn with_filter_bank(levels: usize, filter_bank: WaveletFilterBank<T>) -> (r: Self)
        ensures
            r.depth() == levels,
            r.bank() == filter_bank@,
    {
        WaveletPacketTransform { levels, filter_bank }
    }

    pub fn levels(&self) -> (r: usize)
        ensures
            r == self.depth(),
    {
        self.levels
    }

    pub fn filter_bank(&self) -> (r: &WaveletFilterBank<T>)
        ensures
            r@ == self.bank(),
    {
        &self.filter_bank
    }

    /// Splits `input` `levels` times into the 2^levels leaves of a packet tree,
    /// ordered by path (approximation before detail at every split). Refused
    /// when the input's length is not a power of two of at least 2^levels.
    pub fn decompose(&self, input: &[T]) -> (r: Result<WaveletPacketTree<T>, TransformError>)
        requires
            total_arithmetic::<T>(),
        ensures
            power_of_two_check(input.len(), self.depth() as usize) matches Err(e) ==> r == Err::<
                WaveletPacketTree<T>,
                TransformError,
            >(e),
            power_of_two_check(input.len(), self.depth() as usize) is Ok ==> r is Ok,
            r matches Ok(tree) ==> {
                &&& tree@.levels == self.depth()
                &&& tree@.filter_bank == self.bank()
                &&& packet_shape(input.len() as nat, self.depth(), tree@.leaves)
                &&& exact_arithmetic::<T>() ==> forall|i: int|
                    0 <= i < tree@.leaves.len() ==> #[trigger] tree@.leaves[i].coefficients@
                        == packet_coefficients(input@, self.bank(), self.depth(), i as nat)
            },
    {
        let max_levels = validate_power_of_two(input.len(), self.levels)?;
        let ghost n = input.len() as nat;
        let ghost bank = self.filter_bank@;
        let low = self.filter_bank.analysis_low();
        let high = self.filter_bank.analysis_high();
        let mut nodes: Vec<WaveletPacketNode<T>> = Vec::new();
        nodes.push(WaveletPacketNode { path: Vec::new(), coefficients: copy_slice(input) });
        proof {
            assert(nodes@[0].path@ =~= packet_path(0, 0));
            lemma_two_pow_div(max_levels as nat, 0);
        }
        let mut depth: usize = 0;
        while depth < self.levels
            invariant
                total_arithmetic::<T>(),
                depth <= self.levels <= max_levels,
                two_pow(max_levels as nat) == n,
                n == input.len(),
                low@ == bank.analysis_low,
                high@ == bank.analysis_high,
                bank.well_formed(),
                nodes.len() == two_pow(depth as nat),
                forall|i: int|
                    #![trigger nodes@[i]]
                    0 <= i < nodes.len() ==> {
                        &&& nodes@[i].path@ == packet_path(depth as nat, i as nat)
                        &&& nodes@[i].coefficients.len() == two_pow((max_levels - depth) as nat)
                        &&& exact_arithmetic::<T>() ==> nodes@[i].coefficients@
                            == packet_coefficients(input@, bank, depth as nat, i as nat)
                    },
            decreases self.levels - depth,
        {
            let mut next: Vec<WaveletPacketNode<T>> = Vec::new();
            let mut k: usize = 0;
            proof {
                lemma_two_pow_positive((max_levels - depth - 1) as nat);
            }
            while k < nodes.len()
                invariant
                    total_arithmetic::<T>(),
                    depth < self.levels <= max_levels,
                    low@ == bank.analysis_low,
                    high@ == bank.analysis_high,
                    bank.well_formed(),
                    nodes.len() == two_pow(depth as nat),
                    forall|i: int|
                        #![trigger nodes@[i]]
                        0 <= i < nodes.len() ==> {
                            &&& nodes@[i].path@ == packet_path(depth as nat, i as nat)
                            &&& nodes@[i].coefficients.len() == two_pow(
                                (max_levels - depth) as nat,
                            )
                            &&& exact_arithmetic::<T>() ==> nodes@[i].coefficients@
                                == packet_coefficients(input@, bank, depth as nat, i as nat)
                        },
                    k <= nodes.len(),
                    next.len() == 2 * k,
                    forall|i: int|
                        #![trigger next@[i]]
                        0 <= i < next.len() ==> {
                            &&& next@[i].path@ == packet_path(
                                (depth + 1) as nat,
                                i as nat,
                            )
                            &&& next@[i].coefficients.len() == two_pow(
                                (max_levels - depth - 1) as nat,
                            )
                            &&& exact_arithmetic::<T>() ==> next@[i].coefficients@
                                == packet_coefficients(input@, bank, (depth + 1) as nat, i as nat)
                        },
                decreases nodes.len() - k,
            {
                let node = &nodes[k];
                let (approx, detail) = circular_downsample(node.coefficients.as_slice(), low, high);
                let mut approx_path = copy_slice(node.path.as_slice());
                approx_path.push(PacketBand::Approximation);
                let mut detail_path = copy_slice(node.path.as_slice());
                detail_path.push(PacketBand::Detail);
                proof {
                    let parent = nodes@[k as int];
                    assert(two_pow((max_levels - depth) as nat) == 2 * two_pow(
                        (max_levels - depth - 1) as nat,
                    ));
                    assert((2 * k) / 2 == k);
                    assert((2 * k + 1) / 2 == k);
                    assert(approx_path@ =~= packet_path((depth + 1) as nat, (2 * k) as nat));
                    assert(detail_path@ =~= packet_path((depth + 1) as nat, (2 * k + 1) as nat));
                    if exact_arithmetic::<T>() {
                        assert(approx@ =~= packet_coefficients(
                            input@,
                            bank,
                            (depth + 1) as nat,
                            (2 * k) as nat,
                        ));
                        assert(detail@ =~= packet_coefficients(
                            input@,
                            bank,
                            (depth + 1) as nat,
                            (2 * k + 1) as nat,
                        ));
                    }
                }
                next.push(WaveletPacketNode { path: approx_path, coefficients: approx });
                next.push(WaveletPacketNode { path: detail_path, coefficients: detail });
                k = k + 1;
            }
            nodes = next;
            depth = depth + 1;
        }
        proof {
            lemma_two_pow_div(max_levels as nat, self.levels as nat);
        }
        Ok(
            WaveletPacketTree {
                levels: self.levels,
                filter_bank: self.filter_bank.clone(),
                leaves: nodes,
            },
        )
    }
}

/// Nodes at depth `depth` that can be merged up to the root: node `i` sits on
/// `packet_path(depth, i)` and all hold as many coefficients as node 0.
pub open spec fn nodes_mergeable<T>(depth: nat, nodes: Seq<WaveletPacketNode<T>>) -> bool {
    forall|i: int|
        #![trigger nodes[i]]
        0 <= i < nodes.len() ==> {
            &&& nodes[i].path@ == packet_path(depth, i as nat)
            &&& nodes[i].coefficients.len() == nodes[0].coefficients.len()
        }
}

fn copy_node<T: Copy>(node: &WaveletPacketNode<T>) -> (r: WaveletPacketNode<T>)
    ensures
        r.path@ == node.path@,
        r.coefficients@ == node.coefficients@,
{
    WaveletPacketNode {
        path: copy_slice(node.path.as_slice()),
        coefficients: copy_slice(node.coefficients.as_slice()),
    }
}

/// Whether `a` and `b` agree on their first `n` elements.
fn agree_before(a: &[PacketBand], b: &[PacketBand], n: usize) -> (r: bool)
    requires
        n <= a.len(),
        n <= b.len(),
    ensures
        r == (a@.subrange(0, n as int) == b@.subrange(0, n as int)),
{
    let mut i: usize = 0;
    while i < n
        invariant
            i <= n <= a.len(),
            n <= b.len(),
            a@.subrange(0, i as int) == b@.subrange(0, i as int),
        decreases n - i,
    {
        if a[i] != b[i] {
            assert(a@.subrange(0, n as int)[i as int] != b@.subrange(0, n as int)[i as int]);
            return false;
        }
        i = i + 1;
        assert(a@.subrange(0, i as int) =~= b@.subrange(0, i as int));
    }
    true
}

proof fn lemma_packet_path_len(depth: nat, index: nat)
    ensures
        packet_path(depth, index).len() == depth,
    decreases depth,
{
    if depth > 0 {
        lemma_packet_path_len((depth - 1) as nat, index / 2);
    }
}

/// Children (2j, 2j+1) of a parent on the canonical path `packet_path(d, j)`.
proof fn lemma_children_paths(d: nat, j: nat)
    ensures
        packet_path(d + 1, 2 * j) == packet_path(d, j).push(PacketBand::Approximation),
        packet_path(d + 1, 2 * j + 1) == packet_path(d, j).push(PacketBand::Detail),
{
    assert((2 * j) / 2 == j);
    assert((2 * j + 1) / 2 == j);
    assert((2 * j) % 2 == 0);
    assert((2 * j + 1) % 2 == 1);
}

impl<T: Sample> WaveletPacketTree<T> {
    /// A tree from its parts, for reconstruction after its leaves were changed.
    pub fn from_leaves_with_filter_bank(
        levels: usize,
        leaves: Vec<WaveletPacketNode<T>>,
        filter_bank: WaveletFilterBank<T>,
    ) -> (r: Self)
        ensures
            r@ == (PacketTreeModel { levels: levels as nat, filter_bank: filter_bank@, leaves: leaves@ }),
    {
        WaveletPacketTree { levels, filter_bank, leaves }
    }

    pub fn levels(&self) -> (r: usize)
        ensures
            r == self@.levels,
    {
        self.levels
    }

    pub fn leaves(&self) -> (r: &[WaveletPacketNode<T>])
        ensures
            r@ == self@.leaves,
    {
        self.leaves.as_slice()
    }

    pub fn into_leaves(self) -> (r: Vec<WaveletPacketNode<T>>)
        ensures
            r@ == self@.leaves,
    {
        self.leaves
    }

    pub fn filter_bank(&self) -> (r: &WaveletFilterBank<T>)
        ensures
            r@ == self@.filter_bank,
    {
        &self.filter_bank
    }

    /// Merges the leaves back into one signal with the synthesis filters,
    /// level by level up to the root. A tree of zero levels gives its first
    /// leaf. Refused (as an invalid coefficient tree) unless the leaves are the
    /// 2^levels canonical sub-bands, all of one length.
    pub fn reconstruct(&self) -> (r: Result<Vec<T>, TransformError>)
        requires
            total_arithmetic::<T>(),
            self@.levels < usize::BITS,
            forall|i: int|
                0 <= i < self@.leaves.len() ==> #[trigger] self@.leaves[i].coefficients.len()
                    * two_pow(self@.levels) <= usize::MAX,
        ensures
            r is Ok <==> packet_reconstructible(self@.levels, self@.leaves),
            r is Err ==> r == Err::<Vec<T>, TransformError>(TransformError::InvalidCoefficientTree),
            self@.levels == 0 ==> (r matches Ok(v) ==> v@ == self@.leaves[0].coefficients@),
            r matches Ok(v) ==> {
                &&& v.len() == self@.leaves[0].coefficients.len() * two_pow(self@.levels)
                &&& exact_arithmetic::<T>() ==> v@ == packet_synthesis(
                    self@.leaves,
                    self@.filter_bank,
                    self@.levels,
                    0,
                    0,
                )
            },
    {
        let ghost leaves = self@.leaves;
        let ghost bank = self@.filter_bank;
        let ghost big_l = self@.levels;
        if self.levels == 0 {
            if self.leaves.len() == 0 {
                return Err(TransformError::InvalidCoefficientTree);
            }
            return Ok(copy_slice(self.leaves[0].coefficients.as_slice()));
        }
        let expected_leaves = shift_pow2(self.levels);
        if self.leaves.len() != expected_leaves {
            return Err(TransformError::InvalidCoefficientTree);
        }
        let low = self.filter_bank.synthesis_low();
        let high = self.filter_bank.synthesis_high();
        let mut nodes: Vec<WaveletPacketNode<T>> = Vec::new();
        let mut c: usize = 0;
        while c < self.leaves.len()
            invariant
                c <= self.leaves.len(),
                leaves == self@.leaves,
                nodes.len() == c,
                forall|i: int|
                    #![trigger nodes@[i]]
                    0 <= i < c ==> nodes@[i].path@ == leaves[i].path@
                        && nodes@[i].coefficients@ == leaves[i].coefficients@,
            decreases self.leaves.len() - c,
        {
            nodes.push(copy_node(&self.leaves[c]));
            c = c + 1;
        }
        proof {
            assert forall|i: int|
                #![trigger nodes@[i]]
                0 <= i < nodes.len() implies nodes@[i].coefficients.len() * two_pow(
                big_l,
            ) <= usize::MAX by {
                assert(leaves[i].coefficients.len() * two_pow(big_l) <= usize::MAX);
            }
            if packet_reconstructible(big_l, leaves) {
                assert forall|i: int|
                    #![trigger nodes@[i]]
                    0 <= i < nodes.len() implies nodes@[i].coefficients.len()
                    == leaves[0].coefficients.len() * two_pow((big_l - big_l) as nat) by {
                    assert(leaves[i].coefficients.len() == leaves[0].coefficients.len());
                    assert(two_pow((big_l - big_l) as nat) == 1);
                }
            }
            assert forall|i: int|
                #![trigger nodes@[i]]
                0 <= i < nodes.len() implies exact_arithmetic::<T>()
                ==> nodes@[i].coefficients@ == packet_synthesis(leaves, bank, big_l, big_l, i as nat) by {}
            assert(packet_reconstructible(big_l, leaves) <==> nodes_mergeable(big_l, nodes@)) by {
                if nodes_mergeable(big_l, nodes@) {
                    assert forall|i: int|
                        #![trigger leaves[i]]
                        0 <= i < leaves.len() implies leaves[i].path@ == packet_path(big_l, i as nat)
                        && leaves[i].coefficients.len() == leaves[0].coefficients.len() by {
                        assert(nodes@[i].path@ == leaves[i].path@);
                    }
                }
                if packet_reconstructible(big_l, leaves) {
                    assert forall|i: int|
                        #![trigger nodes@[i]]
                        0 <= i < nodes.len() implies nodes@[i].path@ == packet_path(big_l, i as nat)
                        && nodes@[i].coefficients.len() == nodes@[0].coefficients.len() by {
                        assert(leaves[i].path@ == nodes@[i].path@);
                        assert(leaves[0].coefficients@ == nodes@[0].coefficients@);
                    }
                }
            }
        }
        let mut level: usize = self.levels;
        while level > 0
            invariant
                total_arithmetic::<T>(),
                leaves == self@.leaves,
                bank == self@.filter_bank,
                big_l == self@.levels,
                0 < big_l < usize::BITS,
                leaves.len() == two_pow(big_l),
                level <= big_l,
                low@ == bank.synthesis_low,
                high@ == bank.synthesis_high,
                bank.well_formed(),
                nodes.len() == two_pow(level as nat),
                level < big_l ==> forall|i: int|
                    #![trigger nodes@[i]]
                    0 <= i < nodes.len() ==> nodes@[i].path.len() == level,
                forall|i: int|
                    #![trigger nodes@[i]]
                    0 <= i < nodes.len() ==> nodes@[i].coefficients.len() * two_pow(level as nat)
                        <= usize::MAX,
                packet_reconstructible(big_l, leaves) <==> nodes_mergeable(level as nat, nodes@),
                packet_reconstructible(big_l, leaves) ==> forall|i: int|
                    #![trigger nodes@[i]]
                    0 <= i < nodes.len() ==> nodes@[i].coefficients.len()
                        == leaves[0].coefficients.len() * two_pow((big_l - level) as nat),
                forall|i: int|
                    #![trigger nodes@[i]]
                    0 <= i < nodes.len() ==> (exact_arithmetic::<T>()
                        ==> nodes@[i].coefficients@ == packet_synthesis(
                        leaves,
                        bank,
                        big_l,
                        level as nat,
                        i as nat,
                    )),
            decreases level,
        {
            let lv = level - 1;
            let half = nodes.len() / 2;
            let mut parents: Vec<WaveletPacketNode<T>> = Vec::new();
            let mut k: usize = 0;
            proof {
                assert(two_pow(level as nat) == 2 * two_pow(lv as nat));
            }
            while k < half
                invariant
                    total_arithmetic::<T>(),
                    leaves == self@.leaves,
                    bank == self@.filter_bank,
                    big_l == self@.levels,
                    0 < big_l < usize::BITS,
                    leaves.len() == two_pow(big_l),
                    lv + 1 == level,
                    level <= big_l,
                    low@ == bank.synthesis_low,
                    high@ == bank.synthesis_high,
                    bank.well_formed(),
                    nodes.len() == two_pow(level as nat),
                    half == two_pow(lv as nat),
                    nodes.len() == 2 * half,
                    forall|i: int|
                        #![trigger nodes@[i]]
                        0 <= i < nodes.len() ==> nodes@[i].coefficients.len() * two_pow(
                            level as nat,
                        ) <= usize::MAX,
                    packet_reconstructible(big_l, leaves) <==> nodes_mergeable(
                        level as nat,
                        nodes@,
                    ),
                    forall|i: int|
                        #![trigger nodes@[i]]
                        0 <= i < nodes.len() ==> (exact_arithmetic::<T>()
                            ==> nodes@[i].coefficients@ == packet_synthesis(
                            leaves,
                            bank,
                            big_l,
                            level as nat,
                            i as nat,
                        )),
                    k <= half,
                    parents.len() == k,
                    forall|j: int|
                        #![trigger parents@[j]]
                        0 <= j < k ==> {
                            &&& parents@[j].path.len() == lv
                            &&& nodes@[2 * j].path@ == parents@[j].path@.push(
                                PacketBand::Approximation,
                            )
                            &&& nodes@[2 * j + 1].path@ == parents@[j].path@.push(
                                PacketBand::Detail,
                            )
                            &&& parents@[j].coefficients.len() == 2 * nodes@[2
                                * j].coefficients.len()
                            &&& parents@[j].coefficients.len() == 2 * nodes@[2 * j
                                + 1].coefficients.len()
                            &&& exact_arithmetic::<T>() ==> parents@[j].coefficients@
                                == synthesis_merge(
                                nodes@[2 * j].coefficients@,
                                nodes@[2 * j + 1].coefficients@,
                                bank.synthesis_low,
                                bank.synthesis_high,
                            )
                        },
                decreases half - k,
            {
                let left = &nodes[2 * k];
                let right = &nodes[2 * k + 1];
                proof {
                    lemma_children_paths(lv as nat, k as nat);
                    lemma_packet_path_len(lv as nat, k as nat);
                    lemma_packet_path_len(level as nat, (2 * k) as nat);
                    lemma_packet_path_len(level as nat, (2 * k + 1) as nat);
                }
                if left.path.len() != level || right.path.len() != level || !agree_before(
                    left.path.as_slice(),
                    right.path.as_slice(),
                    lv,
                ) || left.path[lv] != PacketBand::Approximation || right.path[lv]
                    != PacketBand::Detail {
                    proof {
                        if nodes_mergeable(level as nat, nodes@) {
                            assert(nodes@[2 * k as int].path@ == packet_path(
                                level as nat,
                                (2 * k) as nat,
                            ));
                            assert(nodes@[2 * k + 1].path@ == packet_path(
                                level as nat,
                                (2 * k + 1) as nat,
                            ));
                            assert(left.path@.subrange(0, lv as int) =~= packet_path(
                                lv as nat,
                                k as nat,
                            ));
                            assert(right.path@.subrange(0, lv as int) =~= packet_path(
                                lv as nat,
                                k as nat,
                            ));
                        }
                    }
                    return Err(TransformError::InvalidCoefficientTree);
                }
                proof {
                    assert(nodes@[2 * k as int].coefficients.len() * two_pow(level as nat)
                        <= usize::MAX);
                    lemma_two_pow_positive(lv as nat);
                    let a = nodes@[2 * k as int].coefficients.len();
                    let p = two_pow(lv as nat);
                    assert(a * (2 * p) == 2 * (a * p)) by (nonlinear_arith);
                    assert(a * 2 <= a * (2 * p)) by (nonlinear_arith)
                        requires
                            p >= 1,
                    ;
                }
                let merged = circular_upsample(
                    left.coefficients.as_slice(),
                    right.coefficients.as_slice(),
                    low,
                    high,
                );
                let coefficients = match merged {
                    Ok(v) => v,
                    Err(e) => {
                        proof {
                            if nodes_mergeable(level as nat, nodes@) {
                                assert(nodes@[2 * k as int].coefficients.len()
                                    == nodes@[0].coefficients.len());
                                assert(nodes@[2 * k + 1].coefficients.len()
                                    == nodes@[0].coefficients.len());
                            }
                        }
                        return Err(e);
                    },
                };
                let mut path = copy_slice(left.path.as_slice());
                path.pop();
                proof {
                    assert(path@ =~= left.path@.subrange(0, lv as int));
                    assert(left.path@ =~= path@.push(PacketBand::Approximation));
                    assert(right.path@ =~= path@.push(PacketBand::Detail)) by {
                        assert(right.path@.subrange(0, lv as int) == left.path@.subrange(
                            0,
                            lv as int,
                        ));
                    }
                    if exact_arithmetic::<T>() {
                        assert(coefficients@ =~= synthesis_merge(
                            left.coefficients@,
                            right.coefficients@,
                            bank.synthesis_low,
                            bank.synthesis_high,
                        ));
                    }
                }
                parents.push(WaveletPacketNode { path, coefficients });
                k = k + 1;
            }
            proof {
                // Merging preserves mergeability in both directions.
                if nodes_mergeable(level as nat, nodes@) {
                    assert forall|j: int|
                        #![trigger parents@[j]]
                        0 <= j < parents.len() implies parents@[j].path@ == packet_path(
                            lv as nat,
                            j as nat,
                        ) && parents@[j].coefficients.len() == parents@[0].coefficients.len() by {
                        lemma_children_paths(lv as nat, j as nat);
                        assert(nodes@[2 * j].path@ == packet_path(level as nat, (2 * j) as nat));
                        assert(nodes@[2 * j].path@.drop_last() =~= parents@[j].path@);
                        assert(packet_path(level as nat, (2 * j) as nat).drop_last() =~= packet_path(
                            lv as nat,
                            j as nat,
                        ));
                        assert(nodes@[2 * j].coefficients.len() == nodes@[0].coefficients.len());
                        assert(nodes@[0].coefficients.len() == nodes@[2 * 0int].coefficients.len());
                    }
                }
                if nodes_mergeable(lv as nat, parents@) {
                    assert forall|i: int|
                        #![trigger nodes@[i]]
                        0 <= i < nodes.len() implies nodes@[i].path@ == packet_path(
                            level as nat,
                            i as nat,
                        ) && nodes@[i].coefficients.len() == nodes@[0].coefficients.len() by {
                        let j = i / 2;
                        lemma_children_paths(lv as nat, j as nat);
                        assert(parents@[j].path@ == packet_path(lv as nat, j as nat));
                        assert(parents@[j].coefficients.len() == parents@[0].coefficients.len());
                        assert(nodes@[2 * 0int].coefficients.len() == nodes@[0].coefficients.len());
                        if i % 2 == 0 {
                            assert(i == 2 * j);
                        } else {
                            assert(i == 2 * j + 1);
                        }
                    }
                }
                assert forall|j: int|
                    #![trigger parents@[j]]
                    0 <= j < parents.len() implies parents@[j].coefficients.len() * two_pow(
                        lv as nat,
                    ) <= usize::MAX by {
                    let a = nodes@[2 * j].coefficients.len();
                    let p = two_pow(lv as nat);
                    assert(a * two_pow(level as nat) <= usize::MAX);
                    assert((2 * a) * p == a * (2 * p)) by (nonlinear_arith);
                }
                assert forall|j: int|
                    #![trigger parents@[j]]
                    0 <= j < parents.len() implies parents@[j].path.len() == lv by {}
                if packet_reconstructible(big_l, leaves) {
                    assert forall|j: int|
                        #![trigger parents@[j]]
                        0 <= j < parents.len() implies parents@[j].coefficients.len()
                        == leaves[0].coefficients.len() * two_pow((big_l - lv) as nat) by {
                        let a = leaves[0].coefficients.len();
                        let p = two_pow((big_l - level) as nat);
                        assert(nodes@[2 * j].coefficients.len() == a * p);
                        assert(two_pow((big_l - lv) as nat) == 2 * p);
                        assert(2 * (a * p) == a * (2 * p)) by (nonlinear_arith);
                    }
                }
                assert forall|j: int|
                    #![trigger parents@[j]]
                    0 <= j < parents.len() implies (exact_arithmetic::<T>()
                        ==> parents@[j].coefficients@ == packet_synthesis(
                        leaves,
                        bank,
                        big_l,
                        lv as nat,
                        j as nat,
                    )) by {
                    if exact_arithmetic::<T>() {
                        assert(nodes@[2 * j].coefficients@ == packet_synthesis(
                            leaves,
                            bank,
                            big_l,
                            level as nat,
                            (2 * j) as nat,
                        ));
                        assert(nodes@[2 * j + 1].coefficients@ == packet_synthesis(
                            leaves,
                            bank,
                            big_l,
                            level as nat,
                            (2 * j + 1) as nat,
                        ));
                    }
                }
            }
            nodes = parents;
            level = lv;
        }
        if nodes.len() != 1 || nodes[0].path.len() != 0 {
            return Err(TransformError::InvalidCoefficientTree);
        }
        proof {
            assert(nodes@[0].path@ =~= packet_path(0, 0));
            assert(nodes_mergeable(0, nodes@));
        }
        let root = nodes.remove(0);
        Ok(root.coefficients)
    }
}

/// A packet decomposition can always be merged back: for every tree that
/// `decompose` can return for a signal of `input_len` samples, `reconstruct`'s
/// preconditions hold, the tree is reconstructible, and the merged signal has
/// `input_len` samples again.
pub proof fn lemma_packet_decomposition_reconstructible<T>(
    input_len: nat,
    levels: nat,
    leaves: Seq<WaveletPacketNode<T>>,
)
    requires
        is_power_of_two(input_len),
        input_len <= usize::MAX,
        levels <= log2(input_len),
        packet_shape(input_len, levels, leaves),
    ensures
        packet_reconstructible(levels, leaves),
        levels < usize::BITS,
        forall|i: int|
            #![trigger leaves[i]]
            0 <= i < leaves.len() ==> leaves[i].coefficients.len() * two_pow(levels) == input_len,
{
    lemma_power_of_two_log2(input_len);
    lemma_log2_below_bits(input_len);
    lemma_two_pow_positive(levels);
    lemma_two_pow_div(log2(input_len), levels);
    lemma_two_pow_add((log2(input_len) - levels) as nat, levels);
    assert(leaves[0].coefficients.len() == input_len / two_pow(levels));
}

impl<T: Copy> Clone for WaveletPacketNode<T> {
    fn clone(&self) -> (r: Self)
        ensures
            r.path@ == self.path@,
            r.coefficients@ == self.coefficients@,
    {
        copy_node(self)
    }
}

impl<T: Sample> Clone for WaveletPacketTransform<T> {
    fn clone(&self) -> (r: Self)
        ensures
            r.depth() == self.depth(),
            r.bank() == self.bank(),
    {
        WaveletPacketTransform { levels: self.levels, filter_bank: self.filter_bank.clone() }
    }
}

impl<T: Sample> Clone for WaveletPacketTree<T> {
    fn clone(&self) -> (r: Self)
        ensures
            r@.levels == self@.levels,
            r@.filter_bank == self@.filter_bank,
            r@.leaves.len() == self@.leaves.len(),
            forall|i: int|
                #![trigger r@.leaves[i]]
                0 <= i < self@.leaves.len() ==> r@.leaves[i].path@ == self@.leaves[i].path@
                    && r@.leaves[i].coefficients@ == self@.leaves[i].coefficients@,
    {
        let mut leaves: Vec<WaveletPacketNode<T>> = Vec::new();
        let mut i: usize = 0;
        while i < self.leaves.len()
            invariant
                i <= self.leaves.len(),
                leaves.len() == i,
                forall|j: int|
                    #![trigger leaves@[j]]
                    0 <= j < i ==> leaves@[j].path@ == self.leaves@[j].path@
                        && leaves@[j].coefficients@ == self.leaves@[j].coefficients@,
            decreases self.leaves.len() - i,
        {
            leaves.push(copy_node(&self.leaves[i]));
            i = i + 1;
        }
        WaveletPacketTree { levels: self.levels, filter_bank: self.filter_bank.clone(), leaves }
    }
}

proof fn lemma_packet_coefficients_len<T: Sample>(
    x: Seq<T>,
    bank: FilterBankModel<T>,
    k: nat,
    depth: nat,
    index: nat,
)
    requires
        x.len() == two_pow(k),
        depth <= k,
    ensures
        packet_coefficients(x, bank, depth, index).len() == two_pow((k - depth) as nat),
    decreases depth,
{
    if depth > 0 {
        lemma_packet_coefficients_len(x, bank, k, (depth - 1) as nat, index / 2);
        assert(two_pow((k - depth + 1) as nat) == 2 * two_pow((k - depth) as nat));
    }
}

/// What coefficient pair `i` adds, through tap `t`, to output sample `j` of
/// a synthesis step: its filtered approximation and detail when the tap
/// lands on `j`, zero otherwise.
spec fn merge_contribution<T: Sample>(
    a: Seq<T>,
    d: Seq<T>,
    low: Seq<T>,
    high: Seq<T>,
    j: int,
    i: int,
    t: int,
) -> T {
    if (2 * i + t) % (2 * a.len() as int) == j {
        plus(times(low[t], a[i]), times(high[t], d[i]))
    } else {
        zero::<T>()
    }
}

/// The synthesis step's accumulation as a double sum of contributions.
proof fn lemma_upsample_acc_sum<T: Sample>(
    a: Seq<T>,
    d: Seq<T>,
    low: Seq<T>,
    high: Seq<T>,
    j: int,
    i: nat,
    tap: nat,
)
    requires
        field_laws::<T>(),
        tap <= low.len(),
        i <= a.len(),
        tap > 0 ==> i < a.len(),
    ensures
        upsample_acc(a, d, low, high, j, i, tap) == plus(
            sum(
                |i2: int|
                    sum(
                        |t: int| merge_contribution(a, d, low, high, j, i2, t),
                        0,
                        low.len() as int,
                    ),
                0,
                i as int,
            ),
            sum(|t: int| merge_contribution(a, d, low, high, j, i as int, t), 0, tap as int),
        ),
    decreases i, tap,
{
    let rows = |i2: int|
        sum(|t: int| merge_contribution(a, d, low, high, j, i2, t), 0, low.len() as int);
    let row = |t: int| merge_contribution(a, d, low, high, j, i as int, t);
    if tap == 0 {
        if i == 0 {
            lemma_zero_plus(zero::<T>());
        } else {
            lemma_upsample_acc_sum(a, d, low, high, j, (i - 1) as nat, low.len());
            assert((|t: int| merge_contribution(a, d, low, high, j, (i - 1) as int, t)) =~= (|t: int|
                merge_contribution(a, d, low, high, j, (i - 1) as nat as int, t)));
            lemma_zero_plus(sum(rows, 0, i as int));
        }
    } else {
        let t = (tap - 1) as nat;
        lemma_upsample_acc_sum(a, d, low, high, j, i, t);
        let before = sum(rows, 0, i as int);
        let partial = sum(row, 0, t as int);
        lemma_plus_assoc(before, partial, row(t as int));
        lemma_zero_plus(partial);
        lemma_zero_plus(plus(before, partial));
    }
}

/// `x + t` lands on `j` modulo `n` exactly when `x` is `j - t` modulo `n`.
proof fn lemma_lands_on(x: int, t: int, j: int, n: int)
    requires
        n > 0,
        0 <= x < n,
        0 <= j < n,
    ensures
        ((x + t) % n == j) == (x == (j - t) % n),
{
    vstd::arithmetic::div_mod::lemma_small_mod(x as nat, n as nat);
    vstd::arithmetic::div_mod::lemma_small_mod(j as nat, n as nat);
    crate::math::lemma_mod_step(x, t, n);
    crate::math::lemma_mod_step(j - t, t, n);
    crate::math::lemma_mod_step(x + t, -t, n);
    vstd::arithmetic::div_mod::lemma_mod_bound(j - t, n);
}

/// Reducing modulo an even number keeps the parity.
proof fn lemma_even_modulus_parity(x: int, n: int)
    requires
        n > 0,
        n % 2 == 0,
    ensures
        (x % n) % 2 == x % 2,
{
    let q = x / n;
    let h = n / 2;
    vstd::arithmetic::div_mod::lemma_fundamental_div_mod(x, n);
    assert(n * q == 2 * (h * q)) by (nonlinear_arith)
        requires
            n == 2 * h,
    ;
    vstd::arithmetic::div_mod::lemma_mod_multiples_vanish(h * q, x % n, 2);
}

/// Over all coefficient pairs, tap `t` adds to output sample `j` only
/// through the pair whose tap lands on `j`, which exists when `j - t` is
/// even.
proof fn lemma_tap_column<T: Sample>(
    a: Seq<T>,
    d: Seq<T>,
    low: Seq<T>,
    high: Seq<T>,
    j: int,
    t: int,
)
    requires
        field_laws::<T>(),
        0 <= j < 2 * a.len(),
    ensures
        sum(|i: int| merge_contribution(a, d, low, high, j, i, t), 0, a.len() as int) == (if (j
            - t) % 2 == 0 {
            plus(
                times(low[t], a[((j - t) % (2 * a.len() as int)) / 2]),
                times(high[t], d[((j - t) % (2 * a.len() as int)) / 2]),
            )
        } else {
            zero::<T>()
        }),
{
    let m = a.len() as int;
    let n = 2 * m;
    let r = (j - t) % n;
    let f = |i: int| merge_contribution(a, d, low, high, j, i, t);
    vstd::arithmetic::div_mod::lemma_mod_bound(j - t, n);
    lemma_even_modulus_parity(j - t, n);
    assert forall|i: int| 0 <= i < m implies (#[trigger] f(i) != zero::<T>() ==> 2 * i == r) by {
        lemma_lands_on(2 * i, t, j, n);
    }
    if (j - t) % 2 == 0 {
        let i0 = r / 2;
        assert(2 * i0 == r);
        lemma_lands_on(2 * i0, t, j, n);
        assert forall|i: int| 0 <= i < m && i != i0 implies #[trigger] f(i) == zero::<T>() by {
            lemma_lands_on(2 * i, t, j, n);
        }
        lemma_sum_single(f, 0, m, i0);
    } else {
        assert forall|i: int| 0 <= i < m implies #[trigger] f(i) == zero::<T>() by {
            lemma_lands_on(2 * i, t, j, n);
        }
        lemma_sum_zero(f, 0, m);
    }
}

/// The lag-`c` sum of a synthesis pair against an analysis pair over the
/// taps `t` of parity `p`: `syn_low[t] ana_low[t + c] + syn_high[t] ana_high[t + c]`
/// for the taps of that parity for which both taps exist.
pub open spec fn cross_parity_lag_product<T: Sample>(
    syn_low: Seq<T>,
    syn_high: Seq<T>,
    ana_low: Seq<T>,
    ana_high: Seq<T>,
    c: int,
    p: int,
) -> T {
    sum(
        |t: int|
            if t % 2 == p && 0 <= t + c < ana_low.len() {
                plus(times(syn_low[t], ana_low[t + c]), times(syn_high[t], ana_high[t + c]))
            } else {
                zero::<T>()
            },
        0,
        ana_low.len() as int,
    )
}

/// The lag-`c` sum of a pair of filters over the taps `t` of parity `p`:
/// `low[t] low[t + c] + high[t] high[t + c]` for the taps of that parity for
/// which both taps exist.
pub open spec fn parity_lag_product<T: Sample>(low: Seq<T>, high: Seq<T>, c: int, p: int) -> T {
    cross_parity_lag_product(low, high, low, high, c, p)
}

/// A filter bank whose synthesis filters are dual to its analysis filters for
/// the decimated (packet) transform: all four of one non-zero length, and the
/// lag sums of the synthesis pair against the analysis pair, over the taps of
/// either parity, are one at lag zero and zero at every other lag. Orthonormal
/// banks are such banks, and so are biorthogonal ones.
pub open spec fn packet_dual_bank<T: Sample>(bank: FilterBankModel<T>) -> bool {
    &&& bank.analysis_low.len() > 0
    &&& bank.analysis_high.len() == bank.analysis_low.len()
    &&& bank.synthesis_low.len() == bank.analysis_low.len()
    &&& bank.synthesis_high.len() == bank.analysis_low.len()
    &&& forall|c: int, p: int|
        (p == 0 || p == 1) ==> #[trigger] cross_parity_lag_product(
            bank.synthesis_low,
            bank.synthesis_high,
            bank.analysis_low,
            bank.analysis_high,
            c,
            p,
        ) == (if c == 0 {
            one::<T>()
        } else {
            zero::<T>()
        })
}

/// In an orthonormal filter bank, the lag sums over the taps of either parity
/// are one at lag zero and zero at every other lag.
proof fn lemma_orthonormal_parity_lags<T: Sample>(bank: FilterBankModel<T>, c: int, p: int)
    requires
        field_laws::<T>(),
        orthonormal_bank(bank),
        p == 0 || p == 1,
    ensures
        parity_lag_product(bank.analysis_low, bank.analysis_high, c, p) == (if c == 0 {
            one::<T>()
        } else {
            zero::<T>()
        }),
{
    let low = bank.analysis_low;
    let high = bank.analysis_high;
    let n = low.len() as int;
    let fl = |t: int|
        if t % 2 == p && 0 <= t + c < low.len() {
            times(low[t], low[t + c])
        } else {
            zero::<T>()
        };
    let fh = |t: int|
        if t % 2 == p && 0 <= t + c < high.len() {
            times(high[t], high[t + c])
        } else {
            zero::<T>()
        };
    let both = |t: int|
        if t % 2 == p && 0 <= t + c < low.len() {
            plus(times(low[t], low[t + c]), times(high[t], high[t + c]))
        } else {
            zero::<T>()
        };
    lemma_sum_add(fl, fh, 0, n);
    lemma_zero_plus(zero::<T>());
    lemma_sum_congruent(both, |t: int| plus(fl(t), fh(t)), 0, n);
    lemma_qmf_parity_autocorrelation(low, c, p);
    lemma_autocorrelation_parts(low, c);
    if c % 2 == 0 {
        let m = c / 2;
        assert(c == 2 * m);
        assert(autocorrelation(low, 2 * m) == (if m == 0 {
            one::<T>()
        } else {
            zero::<T>()
        }));
        if p == 1 {
            lemma_plus_comm(parity_autocorrelation(low, c, 1), parity_autocorrelation(low, c, 0));
        }
    } else {
        lemma_plus_negated(parity_autocorrelation(low, c, p));
    }
}

/// An orthonormal filter bank is dual to itself for the packet transform.
pub proof fn lemma_orthonormal_bank_packet_dual<T: Sample>(bank: FilterBankModel<T>)
    requires
        field_laws::<T>(),
        orthonormal_bank(bank),
    ensures
        packet_dual_bank(bank),
{
    assert(bank.analysis_high.len() == bank.analysis_low.len());
    assert forall|c: int, p: int|
        (p == 0 || p == 1) implies #[trigger] cross_parity_lag_product(
        bank.synthesis_low,
        bank.synthesis_high,
        bank.analysis_low,
        bank.analysis_high,
        c,
        p,
    ) == (if c == 0 {
        one::<T>()
    } else {
        zero::<T>()
    }) by {
        lemma_orthonormal_parity_lags(bank, c, p);
    }
}

/// Over a field, with synthesis filters dual to the analysis filters, one
/// synthesis step rebuilds sample `j` of the signal that the analysis step
/// split.
proof fn lemma_merge_sample<T: Sample>(y: Seq<T>, bank: FilterBankModel<T>, j: int)
    requires
        field_laws::<T>(),
        packet_dual_bank(bank),
        y.len() % 2 == 0,
        0 <= j < y.len(),
    ensures
        synthesis_merge(
            analysis_half(y, bank.analysis_low),
            analysis_half(y, bank.analysis_high),
            bank.synthesis_low,
            bank.synthesis_high,
        )[j] == y[j],
{
    let low = bank.analysis_low;
    let high = bank.analysis_high;
    let sl = bank.synthesis_low;
    let sh = bank.synthesis_high;
    let n = y.len() as int;
    let half = n / 2;
    let len = low.len() as int;
    let a = analysis_half(y, low);
    let d = analysis_half(y, high);
    // The accumulation as a double sum over coefficient pairs and taps.
    lemma_upsample_acc_sum(a, d, sl, sh, j, half as nat, 0);
    assert(sum(|t: int| merge_contribution(a, d, sl, sh, j, half, t), 0, 0) == zero::<T>());
    let rows = |i: int| sum(|t: int| merge_contribution(a, d, sl, sh, j, i, t), 0, len);
    lemma_zero_plus(sum(rows, 0, half));
    let contribution = |i: int, t: int| merge_contribution(a, d, sl, sh, j, i, t);
    lemma_sum_swap(contribution, 0, half, 0, len);
    assert forall|i: int| #[trigger] rows(i) == sum(|t: int| contribution(i, t), 0, len) by {
        assert((|t: int| contribution(i, t)) =~= (|t: int|
            merge_contribution(a, d, sl, sh, j, i, t)));
    }
    assert((|i: int| sum(|t: int| contribution(i, t), 0, len)) =~= rows);
    // Each tap adds its pair's filtered values when `j - t` is even: a sum
    // over lags of the tap products times the input.
    let pa = periodic_filter(y, low, 1);
    let pd = periodic_filter(y, high, 1);
    let by_tap = |t: int| sum(|i: int| contribution(i, t), 0, half);
    let guarded = |t: int, c: int|
        if (j - t) % 2 == 0 {
            lag_term(y, sl, sh, low, high, 1, j, t, c)
        } else {
            zero::<T>()
        };
    let by_tap_lags = |t: int| sum(|c: int| guarded(t, c), 1 - len, len);
    assert forall|t: int| 0 <= t < len implies #[trigger] by_tap(t) == by_tap_lags(t) by {
        assert((|i: int| contribution(i, t)) =~= (|i: int|
            merge_contribution(a, d, sl, sh, j, i, t)));
        lemma_tap_column(a, d, sl, sh, j, t);
        if (j - t) % 2 == 0 {
            let r = (j - t) % n;
            vstd::arithmetic::div_mod::lemma_mod_bound(j - t, n);
            lemma_even_modulus_parity(j - t, n);
            assert(2 * (r / 2) == r);
            assert(a[r / 2] == pa[r]);
            assert(d[r / 2] == pd[r]);
            assert((j - t * 1) % n == r);
            lemma_inverse_term(y, sl, sh, low, high, 1, j, t);
            lemma_inverse_term_by_lag(y, sl, sh, low, high, 1, j, t);
            assert((|c: int| guarded(t, c)) =~= (|c: int|
                lag_term(y, sl, sh, low, high, 1, j, t, c)));
        } else {
            lemma_sum_zero(|c: int| guarded(t, c), 1 - len, len);
        }
    }
    lemma_sum_congruent(by_tap, by_tap_lags, 0, len);
    // Lags outside, taps inside: each lag weighs the input by its parity lag
    // sum, one at lag zero and zero elsewhere.
    lemma_sum_swap(guarded, 0, len, 1 - len, len);
    assert((|t: int| sum(|c: int| guarded(t, c), 1 - len, len)) =~= by_tap_lags);
    let p = j % 2;
    let by_lag = |c: int| sum(|t: int| guarded(t, c), 0, len);
    let weighted = |c: int|
        times(cross_parity_lag_product(sl, sh, low, high, c, p), lagged(y, j, 1, c));
    assert forall|c: int| 1 - len <= c < len implies #[trigger] by_lag(c) == weighted(c) by {
        let yc = lagged(y, j, 1, c);
        let k = |t: int|
            if t % 2 == p && 0 <= t + c < low.len() {
                plus(times(sl[t], low[t + c]), times(sh[t], high[t + c]))
            } else {
                zero::<T>()
            };
        lemma_sum_scale(yc, k, 0, len);
        assert forall|t: int| 0 <= t < len implies #[trigger] guarded(t, c) == times(k(t), yc) by {
            lemma_times_zero(yc);
            lemma_times_comm(yc, zero::<T>());
            assert(((j - t) % 2 == 0) == (t % 2 == p));
        }
        lemma_sum_congruent(|t: int| guarded(t, c), |t: int| times(k(t), yc), 0, len);
        assert(cross_parity_lag_product(sl, sh, low, high, c, p) == sum(k, 0, len));
    }
    lemma_sum_congruent(by_lag, weighted, 1 - len, len);
    assert forall|c: int| 1 - len <= c < len && c != 0 implies #[trigger] weighted(c) == zero::<
        T,
    >() by {
        assert(cross_parity_lag_product(sl, sh, low, high, c, p) == zero::<T>());
        lemma_times_zero(lagged(y, j, 1, c));
        lemma_times_comm(lagged(y, j, 1, c), zero::<T>());
    }
    lemma_sum_single(weighted, 1 - len, len, 0);
    assert(cross_parity_lag_product(sl, sh, low, high, 0, p) == one::<T>());
    vstd::arithmetic::div_mod::lemma_small_mod(j as nat, n as nat);
    assert(lagged(y, j, 1, 0) == y[j]);
    lemma_one_times(y[j]);
}

/// Over a coefficient type whose operations obey the laws of a field, with an
/// orthonormal filter bank (an orthogonal bank built from an even-length
/// low-pass filter orthonormal to its even shifts), one synthesis step undoes
/// one analysis step: merging the approximation and detail halves of a
/// signal of even length gives the signal back.
pub proof fn lemma_split_merge<T: Sample>(y: Seq<T>, bank: FilterBankModel<T>)
    requires
        field_laws::<T>(),
        orthonormal_bank(bank),
        y.len() % 2 == 0,
    ensures
        synthesis_merge(
            analysis_half(y, bank.analysis_low),
            analysis_half(y, bank.analysis_high),
            bank.synthesis_low,
            bank.synthesis_high,
        ) == y,
{
    lemma_orthonormal_bank_packet_dual(bank);
    lemma_dual_split_merge(y, bank);
}

/// Over a coefficient type whose operations obey the laws of a field, with
/// any filter bank whose synthesis filters are dual to its analysis filters
/// (a biorthogonal bank, such as a Haar pair analysed with `[1, 1]`,
/// `[1, -1]` and synthesised with `[1/2, 1/2]`, `[1/2, -1/2]`, not only an
/// orthonormal one), one synthesis step with the synthesis filters undoes one
/// analysis step with the analysis filters: merging the approximation and
/// detail halves of a signal of even length gives the signal back.
pub proof fn lemma_dual_split_merge<T: Sample>(y: Seq<T>, bank: FilterBankModel<T>)
    requires
        field_laws::<T>(),
        packet_dual_bank(bank),
        y.len() % 2 == 0,
    ensures
        synthesis_merge(
            analysis_half(y, bank.analysis_low),
            analysis_half(y, bank.analysis_high),
            bank.synthesis_low,
            bank.synthesis_high,
        ) == y,
{
    let merged = synthesis_merge(
        analysis_half(y, bank.analysis_low),
        analysis_half(y, bank.analysis_high),
        bank.synthesis_low,
        bank.synthesis_high,
    );
    assert forall|j: int| 0 <= j < y.len() implies #[trigger] merged[j] == y[j] by {
        lemma_merge_sample(y, bank, j);
    }
    assert(merged =~= y);
}

proof fn lemma_packet_synthesis_from<T: Sample>(
    x: Seq<T>,
    bank: FilterBankModel<T>,
    levels: nat,
    leaves: Seq<WaveletPacketNode<T>>,
    depth: nat,
    index: nat,
)
    requires
        field_laws::<T>(),
        packet_dual_bank(bank),
        is_power_of_two(x.len()),
        levels <= log2(x.len()),
        depth <= levels,
        index < two_pow(depth),
        leaves.len() == two_pow(levels),
        forall|i: int|
            #![trigger leaves[i]]
            0 <= i < leaves.len() ==> leaves[i].coefficients@ == packet_coefficients(
                x,
                bank,
                levels,
                i as nat,
            ),
    ensures
        packet_synthesis(leaves, bank, levels, depth, index) == packet_coefficients(
            x,
            bank,
            depth,
            index,
        ),
    decreases levels - depth,
{
    if depth < levels {
        let k = log2(x.len());
        lemma_power_of_two_log2(x.len());
        assert(two_pow(depth + 1) == 2 * two_pow(depth));
        lemma_packet_synthesis_from(x, bank, levels, leaves, depth + 1, 2 * index);
        lemma_packet_synthesis_from(x, bank, levels, leaves, depth + 1, 2 * index + 1);
        let parent = packet_coefficients(x, bank, depth, index);
        assert((2 * index) / 2 == index && (2 * index) % 2 == 0);
        assert((2 * index + 1) / 2 == index && (2 * index + 1) % 2 == 1);
        lemma_packet_coefficients_len(x, bank, k, depth, index);
        assert(two_pow((k - depth) as nat) == 2 * two_pow((k - depth - 1) as nat));
        lemma_dual_split_merge(parent, bank);
    } else {
        lemma_two_pow_monotonic(depth, levels);
    }
}

/// Packet decomposition splits every node with the bank's analysis filters:
/// the children of node (`depth`, `index`) are its coefficients filtered at
/// every even position with the analysis low-pass (child `2 index`) and the
/// analysis high-pass (child `2 index + 1`).
pub proof fn lemma_packet_decomposition_steps<T: Sample>(
    x: Seq<T>,
    bank: FilterBankModel<T>,
    depth: nat,
    index: nat,
)
    ensures
        packet_coefficients(x, bank, 0, index) == x,
        packet_coefficients(x, bank, depth + 1, 2 * index) == analysis_half(
            packet_coefficients(x, bank, depth, index),
            bank.analysis_low,
        ),
        packet_coefficients(x, bank, depth + 1, 2 * index + 1) == analysis_half(
            packet_coefficients(x, bank, depth, index),
            bank.analysis_high,
        ),
{
    assert((2 * index) / 2 == index && (2 * index) % 2 == 0);
    assert((2 * index + 1) / 2 == index && (2 * index + 1) % 2 == 1);
}

/// Packet decomposition reads only the analysis filters: banks with the same
/// analysis filters give every node the same coefficients.
pub proof fn lemma_packet_decomposition_analysis_only<T: Sample>(
    x: Seq<T>,
    bank: FilterBankModel<T>,
    other: FilterBankModel<T>,
    depth: nat,
    index: nat,
)
    requires
        bank.analysis_low == other.analysis_low,
        bank.analysis_high == other.analysis_high,
    ensures
        packet_coefficients(x, bank, depth, index) == packet_coefficients(x, other, depth, index),
    decreases depth,
{
    if depth > 0 {
        lemma_packet_decomposition_analysis_only(x, bank, other, (depth - 1) as nat, index / 2);
    }
}

/// Packet reconstruction of any leaves merges each pair of sibling nodes with
/// the tree's synthesis filters: a node above the leaves is its two children
/// (approximation `2 index`, detail `2 index + 1`) up-sampled and filtered with
/// the synthesis low-pass and high-pass; a node at the leaves' depth is the
/// leaf itself.
pub proof fn lemma_packet_synthesis_steps<T: Sample>(
    leaves: Seq<WaveletPacketNode<T>>,
    bank: FilterBankModel<T>,
    levels: nat,
    depth: nat,
    index: nat,
)
    ensures
        depth >= levels ==> packet_synthesis(leaves, bank, levels, depth, index)
            == leaves[index as int].coefficients@,
        depth < levels ==> packet_synthesis(leaves, bank, levels, depth, index) == synthesis_merge(
            packet_synthesis(leaves, bank, levels, depth + 1, 2 * index),
            packet_synthesis(leaves, bank, levels, depth + 1, 2 * index + 1),
            bank.synthesis_low,
            bank.synthesis_high,
        ),
{
}

/// Packet reconstruction reads only the leaves and the synthesis filters:
/// banks with the same synthesis filters merge the same leaves into the same
/// coefficients at every node, whatever their analysis filters.
pub proof fn lemma_packet_synthesis_synthesis_only<T: Sample>(
    leaves: Seq<WaveletPacketNode<T>>,
    bank: FilterBankModel<T>,
    other: FilterBankModel<T>,
    levels: nat,
    depth: nat,
    index: nat,
)
    requires
        bank.synthesis_low == other.synthesis_low,
        bank.synthesis_high == other.synthesis_high,
    ensures
        packet_synthesis(leaves, bank, levels, depth, index) == packet_synthesis(
            leaves,
            other,
            levels,
            depth,
            index,
        ),
    decreases levels - depth,
{
    if depth < levels {
        lemma_packet_synthesis_synthesis_only(leaves, bank, other, levels, depth + 1, 2 * index);
        lemma_packet_synthesis_synthesis_only(
            leaves,
            bank,
            other,
            levels,
            depth + 1,
            2 * index + 1,
        );
    }
}

/// Over a field, one synthesis step is an up-sampling followed by filtering:
/// output sample `j` of merging `a` and `d` sums, over the taps `t` for which
/// `j - t` is even, `low[t]` times the approximation and `high[t]` times the
/// detail at position `((j - t) mod 2n) / 2`.
pub proof fn lemma_synthesis_merge_sample<T: Sample>(
    a: Seq<T>,
    d: Seq<T>,
    low: Seq<T>,
    high: Seq<T>,
    j: int,
)
    requires
        field_laws::<T>(),
        0 <= j < 2 * a.len(),
    ensures
        synthesis_merge(a, d, low, high)[j] == sum(
            |t: int|
                if (j - t) % 2 == 0 {
                    plus(
                        times(low[t], a[((j - t) % (2 * a.len() as int)) / 2]),
                        times(high[t], d[((j - t) % (2 * a.len() as int)) / 2]),
                    )
                } else {
                    zero::<T>()
                },
            0,
            low.len() as int,
        ),
{
    let half = a.len() as int;
    let len = low.len() as int;
    lemma_upsample_acc_sum(a, d, low, high, j, half as nat, 0);
    assert(sum(|t: int| merge_contribution(a, d, low, high, j, half, t), 0, 0) == zero::<T>());
    let rows = |i: int| sum(|t: int| merge_contribution(a, d, low, high, j, i, t), 0, len);
    lemma_zero_plus(sum(rows, 0, half));
    let contribution = |i: int, t: int| merge_contribution(a, d, low, high, j, i, t);
    lemma_sum_swap(contribution, 0, half, 0, len);
    assert forall|i: int| #[trigger] rows(i) == sum(|t: int| contribution(i, t), 0, len) by {
        assert((|t: int| contribution(i, t)) =~= (|t: int|
            merge_contribution(a, d, low, high, j, i, t)));
    }
    assert((|i: int| sum(|t: int| contribution(i, t), 0, len)) =~= rows);
    let by_tap = |t: int| sum(|i: int| contribution(i, t), 0, half);
    let formula = |t: int|
        if (j - t) % 2 == 0 {
            plus(
                times(low[t], a[((j - t) % (2 * a.len() as int)) / 2]),
                times(high[t], d[((j - t) % (2 * a.len() as int)) / 2]),
            )
        } else {
            zero::<T>()
        };
    assert forall|t: int| 0 <= t < len implies #[trigger] by_tap(t) == formula(t) by {
        assert((|i: int| contribution(i, t)) =~= (|i: int|
            merge_contribution(a, d, low, high, j, i, t)));
        lemma_tap_column(a, d, low, high, j, t);
    }
    lemma_sum_congruent(by_tap, formula, 0, len);
}

/// Over a coefficient type whose operations obey the laws of a field, with an
/// orthonormal filter bank, packet reconstruction inverts decomposition:
/// merging the leaves that a decomposition of `x` over `levels` levels
/// produces (leaf `i` holding the coefficients of node `i` at depth `levels`)
/// rebuilds `x` exactly.
pub proof fn lemma_packet_perfect_reconstruction<T: Sample>(
    x: Seq<T>,
    bank: FilterBankModel<T>,
    levels: nat,
    leaves: Seq<WaveletPacketNode<T>>,
)
    requires
        field_laws::<T>(),
        orthonormal_bank(bank),
        is_power_of_two(x.len()),
        levels <= log2(x.len()),
        leaves.len() == two_pow(levels),
        forall|i: int|
            #![trigger leaves[i]]
            0 <= i < leaves.len() ==> leaves[i].coefficients@ == packet_coefficients(
                x,
                bank,
                levels,
                i as nat,
            ),
    ensures
        packet_synthesis(leaves, bank, levels, 0, 0) == x,
{
    lemma_orthonormal_bank_packet_dual(bank);
    lemma_packet_synthesis_from(x, bank, levels, leaves, 0, 0);
}

/// Over a coefficient type whose operations obey the laws of a field, with
/// any filter bank whose synthesis filters are dual to its analysis filters
/// (biorthogonal banks as well as orthonormal ones), packet reconstruction
/// inverts decomposition: merging the leaves that a decomposition of `x` over
/// `levels` levels produces rebuilds `x` exactly.
pub proof fn lemma_packet_dual_perfect_reconstruction<T: Sample>(
    x: Seq<T>,
    bank: FilterBankModel<T>,
    levels: nat,
    leaves: Seq<WaveletPacketNode<T>>,
)
    requires
        field_laws::<T>(),
        packet_dual_bank(bank),
        is_power_of_two(x.len()),
        levels <= log2(x.len()),
        leaves.len() == two_pow(levels),
        forall|i: int|
            #![trigger leaves[i]]
            0 <= i < leaves.len() ==> leaves[i].coefficients@ == packet_coefficients(
                x,
                bank,
                levels,
                i as nat,
            ),
    ensures
        packet_synthesis(leaves, bank, levels, 0, 0) == x,
{
    lemma_packet_synthesis_from(x, bank, levels, leaves, 0, 0);
}

} // verus!
