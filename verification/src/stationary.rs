//! The stationary (undecimated) wavelet transform: each level filters the
//! previous approximation without down-sampling, with the filters dilated by
//! 2^level, so every band keeps the input's length.
use crate::discrete::{
    TransformError, circular_convolve_same, circular_dot, power_of_two_check, validate_power_of_two,
    wrap_sub,
};
use crate::field::{
    field_laws, lemma_distribute, lemma_halve_double, lemma_negated_negated, lemma_one_times,
    lemma_plus_negated, lemma_times_assoc, lemma_times_comm, lemma_times_negated, lemma_times_zero,
    lemma_zero_plus, one,
};
use crate::sums::{
    lemma_sum_add, lemma_sum_congruent, lemma_sum_scale, lemma_sum_shift, lemma_sum_single,
    lemma_sum_swap, lemma_sum_widen, sum,
};
use crate::filter_bank::{
    FilterBankModel, WaveletFilterBank, autocorrelation, lemma_qmf_autocorrelation, orthonormal,
    orthonormal_bank, qmf_of,
};
use crate::math::{
    is_power_of_two, lemma_log2_below_bits, lemma_stride_step_back, log2, shift_pow2, two_pow,
};
use crate::sample::{
    Sample, copy_slice, exact_arithmetic, halve, negated, plus, times, total_arithmetic, two_value,
    zero, zero_value,
};
use vstd::prelude::*;

verus! {

/// The approximation and detail bands of one level.
#[derive(Debug, PartialEq)]
pub struct SwtLevel<T> {
    pub approximation: Vec<T>,
    pub detail: Vec<T>,
}

/// What a set of stationary coefficients holds, as mathematical values.
pub struct SwtCoefficientsModel<T> {
    pub input_len: nat,
    pub levels: Seq<SwtLevel<T>>,
}

/// The bands of a stationary decomposition, finest level first.
#[derive(Debug, PartialEq)]
pub struct SwtCoefficients<T> {
    input_len: usize,
    levels: Vec<SwtLevel<T>>,
}

/// Two sequences of level bands hold the same coefficients, level by level.
pub open spec fn same_bands<T>(a: Seq<SwtLevel<T>>, b: Seq<SwtLevel<T>>) -> bool {
    &&& a.len() == b.len()
    &&& forall|k: int|
        #![trigger a[k]]
        0 <= k < a.len() ==> {
            &&& a[k].approximation@ == b[k].approximation@
            &&& a[k].detail@ == b[k].detail@
        }
}

impl<T: Copy> Clone for SwtLevel<T> {
    fn clone(&self) -> (r: Self)
        ensures
            r.approximation@ == self.approximation@,
            r.detail@ == self.detail@,
    {
        SwtLevel {
            approximation: copy_slice(self.approximation.as_slice()),
            detail: copy_slice(self.detail.as_slice()),
        }
    }
}

impl<T: Copy> Clone for SwtCoefficients<T> {
    /// A copy holding the same input length and the same bands.
    fn clone(&self) -> (r: Self)
        ensures
            r@.input_len == self@.input_len,
            same_bands(r@.levels, self@.levels),
    {
        let mut levels: Vec<SwtLevel<T>> = Vec::new();
        let mut k: usize = 0;
        while k < self.levels.len()
            invariant
                k <= self.levels.len(),
                levels.len() == k,
                forall|j: int|
                    #![trigger levels@[j]]
                    0 <= j < k ==> {
                        &&& levels@[j].approximation@ == self.levels@[j].approximation@
                        &&& levels@[j].detail@ == self.levels@[j].detail@
                    },
            decreases self.levels.len() - k,
        {
            levels.push(self.levels[k].clone());
            k = k + 1;
        }
        SwtCoefficients { input_len: self.input_len, levels }
    }
}

proof fn lemma_same_bands_synthesis<T: Sample>(
    a: Seq<SwtLevel<T>>,
    b: Seq<SwtLevel<T>>,
    bank: FilterBankModel<T>,
    k: nat,
)
    requires
        same_bands(a, b),
        a.len() > 0,
    ensures
        swt_synthesis(a, bank, k) == swt_synthesis(b, bank, k),
    decreases a.len() - k,
{
    if k < a.len() {
        lemma_same_bands_synthesis(a, b, bank, k + 1);
        assert(a[k as int].detail@ == b[k as int].detail@);
    } else {
        assert(a[a.len() - 1].approximation@ == b[b.len() - 1].approximation@);
    }
}

/// Coefficients taken apart and put back together (`from_levels(c.input_len(),
/// c.clone().into_levels())`) hold the input length and the bands of `c`, so
/// a stationary transform accepts and reconstructs them exactly as it does `c`.
pub proof fn lemma_swt_levels_round_trip<T: Sample>(
    c: SwtCoefficientsModel<T>,
    rebuilt: SwtCoefficientsModel<T>,
    bank: FilterBankModel<T>,
    levels: nat,
)
    requires
        rebuilt.input_len == c.input_len,
        same_bands(rebuilt.levels, c.levels),
    ensures
        swt_reconstructible(levels, rebuilt) == swt_reconstructible(levels, c),
        c.levels.len() > 0 ==> swt_synthesis(rebuilt.levels, bank, 0) == swt_synthesis(
            c.levels,
            bank,
            0,
        ),
{
    if swt_reconstructible(levels, c) {
        assert forall|k: int| 0 <= k < rebuilt.levels.len() implies #[trigger] rebuilt.levels[k].approximation.len()
            == rebuilt.input_len && rebuilt.levels[k].detail.len() == rebuilt.input_len by {
            assert(c.levels[k].approximation.len() == c.input_len);
            assert(c.levels[k].detail.len() == c.input_len);
        }
        assert(swt_shape(rebuilt.input_len, levels, rebuilt.levels));
        assert(power_of_two_check(rebuilt.input_len as usize, levels as usize) is Ok);
    }
    if swt_reconstructible(levels, rebuilt) {
        assert forall|k: int| 0 <= k < c.levels.len() implies #[trigger] c.levels[k].approximation.len()
            == c.input_len && c.levels[k].detail.len() == c.input_len by {
            assert(rebuilt.levels[k].approximation.len() == rebuilt.input_len);
            assert(rebuilt.levels[k].detail.len() == rebuilt.input_len);
        }
    }
    if c.levels.len() > 0 {
        lemma_same_bands_synthesis(rebuilt.levels, c.levels, bank, 0);
    }
}

impl<T> View for SwtCoefficients<T> {
    type V = SwtCoefficientsModel<T>;

    closed spec fn view(&self) -> SwtCoefficientsModel<T> {
        SwtCoefficientsModel { input_len: self.input_len as nat, levels: self.levels@ }
    }
}

impl<T> SwtCoefficients<T> {
    pub fn input_len(&self) -> (r: usize)
        ensures
            r == self@.input_len,
    {
        self.input_len
    }

    pub fn levels(&self) -> (r: &[SwtLevel<T>])
        ensures
            r@ == self@.levels,
    {
        self.levels.as_slice()
    }

    pub fn into_levels(self) -> (r: Vec<SwtLevel<T>>)
        ensures
            r@ == self@.levels,
    {
        self.levels
    }

    /// Coefficients from their parts, for reconstruction after the bands were
    /// changed.
    pub fn from_levels(input_len: usize, levels: Vec<SwtLevel<T>>) -> (r: Self)
        ensures
            r@ == (SwtCoefficientsModel { input_len: input_len as nat, levels: levels@ }),
    {
        SwtCoefficients { input_len, levels }
    }
}

/// `x` filtered periodically with `filter`, taps `stride` samples apart.
pub open spec fn periodic_filter<T: Sample>(x: Seq<T>, filter: Seq<T>, stride: nat) -> Seq<T> {
    Seq::new(x.len(), |i: int| circular_dot(x, filter, i, stride as int, filter.len()))
}

/// The signal that level `k` of a stationary decomposition of `x` filters: `x`
/// itself at level 0, then the previous level's approximation.
pub open spec fn swt_input<T: Sample>(x: Seq<T>, bank: FilterBankModel<T>, k: nat) -> Seq<T>
    decreases k,
{
    if k == 0 {
        x
    } else {
        periodic_filter(
            swt_input(x, bank, (k - 1) as nat),
            bank.analysis_low,
            two_pow((k - 1) as nat),
        )
    }
}

/// The bands of a stationary decomposition: `levels` levels, each with an
/// approximation and a detail band of `input_len` coefficients.
pub open spec fn swt_shape<T>(input_len: nat, levels: nat, bands: Seq<SwtLevel<T>>) -> bool {
    &&& bands.len() == levels
    &&& forall|k: int|
        #![trigger bands[k]]
        0 <= k < bands.len() ==> {
            &&& bands[k].approximation.len() == input_len
            &&& bands[k].detail.len() == input_len
        }
}

/// Undoing one stationary level at output sample `i`: the sum over the first
/// `count` taps of `low[t] * a[i - t stride] + high[t] * d[i - t stride]`
/// (indices taken modulo the length), from zero.
pub open spec fn inverse_sum<T: Sample>(
    a: Seq<T>,
    d: Seq<T>,
    low: Seq<T>,
    high: Seq<T>,
    i: int,
    stride: int,
    count: nat,
) -> T
    decreases count,
{
    if count == 0 {
        zero::<T>()
    } else {
        let t = count - 1;
        let s = (i - t * stride) % (a.len() as int);
        plus(
            inverse_sum(a, d, low, high, i, stride, t as nat),
            plus(times(low[t], a[s]), times(high[t], d[s])),
        )
    }
}

/// One inverse stationary level as a sequence: every sample's inverse sum, halved.
pub open spec fn inverse_level<T: Sample>(
    a: Seq<T>,
    d: Seq<T>,
    low: Seq<T>,
    high: Seq<T>,
    stride: nat,
) -> Seq<T> {
    Seq::new(
        a.len(),
        |i: int| halve(inverse_sum(a, d, low, high, i, stride as int, low.len())),
    )
}

/// The signal that inverting levels `k..levels` of `bands` gives, starting
/// from the coarsest approximation.
pub open spec fn swt_synthesis<T: Sample>(
    bands: Seq<SwtLevel<T>>,
    bank: FilterBankModel<T>,
    k: nat,
) -> Seq<T>
    decreases bands.len() - k,
{
    if k >= bands.len() {
        bands[bands.len() - 1].approximation@
    } else {
        inverse_level(
            swt_synthesis(bands, bank, k + 1),
            bands[k as int].detail@,
            bank.synthesis_low,
            bank.synthesis_high,
            two_pow(k),
        )
    }
}

/// Undoes one stationary level: each output sample sums the synthesis filters
/// applied backwards over the approximation and detail, halved.
fn inverse_swt_level<T: Sample>(
    approximation: &[T],
    detail: &[T],
    low: &[T],
    high: &[T],
    stride: usize,
) -> (r: Vec<T>)
    requires
        total_arithmetic::<T>(),
        approximation.len() == detail.len(),
        low.len() == high.len(),
    ensures
        r.len() == approximation.len(),
        exact_arithmetic::<T>() ==> r@ == inverse_level(
            approximation@,
            detail@,
            low@,
            high@,
            stride as nat,
        ),
{
    let len = approximation.len();
    let two = two_value::<T>();
    let mut output: Vec<T> = Vec::new();
    let mut i: usize = 0;
    while i < len
        invariant
            total_arithmetic::<T>(),
            len == approximation.len(),
            len == detail.len(),
            low.len() == high.len(),
            i <= len,
            output.len() == i,
            exact_arithmetic::<T>() ==> two == crate::sample::two::<T>(),
            exact_arithmetic::<T>() ==> forall|o: int|
                0 <= o < i ==> #[trigger] output@[o] == inverse_level(
                    approximation@,
                    detail@,
                    low@,
                    high@,
                    stride as nat,
                )[o],
        decreases len - i,
    {
        let mut acc = zero_value::<T>();
        let mut idx = i;
        let mut tap: usize = 0;
        proof {
            assert(i as int - 0 * stride as int == i as int);
            vstd::arithmetic::div_mod::lemma_small_mod(i as nat, len as nat);
        }
        while tap < low.len()
            invariant
                total_arithmetic::<T>(),
                len == approximation.len(),
                len == detail.len(),
                low.len() == high.len(),
                i < len,
                tap <= low.len(),
                idx < len,
                idx as int == (i as int - tap as int * stride as int) % (len as int),
                exact_arithmetic::<T>() ==> acc == inverse_sum(
                    approximation@,
                    detail@,
                    low@,
                    high@,
                    i as int,
                    stride as int,
                    tap as nat,
                ),
            decreases low.len() - tap,
        {
            let term = low[tap] * approximation[idx] + high[tap] * detail[idx];
            acc = acc + term;
            proof {
                lemma_stride_step_back(i as int, tap as int, stride as int, len as int);
            }
            idx = wrap_sub(idx, stride, len);
            tap = tap + 1;
        }
        let value = acc / two;
        output.push(value);
        i = i + 1;
    }
    proof {
        if exact_arithmetic::<T>() {
            assert(output@ =~= inverse_level(
                approximation@,
                detail@,
                low@,
                high@,
                stride as nat,
            ));
        }
    }
    output
}

/// A stationary transform: the number of levels and the filter bank.
#[derive(Debug)]
pub struct StationaryWaveletTransform<T> {
    levels: usize,
    filter_bank: WaveletFilterBank<T>,
}

impl<T: Sample> Clone for StationaryWaveletTransform<T> {
    fn clone(&self) -> (r: Self)
        ensures
            r.depth() == self.depth(),
            r.bank() == self.bank(),
    {
        StationaryWaveletTransform { levels: self.levels, filter_bank: self.filter_bank.clone() }
    }
}

impl<T: Sample> StationaryWaveletTransform<T> {
    pub closed spec fn bank(&self) -> FilterBankModel<T> {
        self.filter_bank@
    }

    pub closed spec fn depth(&self) -> nat {
        self.levels as nat
    }

    pub fn with_filter_bank(levels: usize, filter_bank: WaveletFilterBank<T>) -> (r: Self)
        ensures
            r.depth() == levels,
            r.bank() == filter_bank@,
    {
        StationaryWaveletTransform { levels, filter_bank }
    }

    pub fn levels(&self) -> (r: usize)
        ensures
            r == self.depth(),
    {
        self.levels
    }

    pub fn filter_bank(&self) -> (r: &WaveletFilterBank<T>)
        ensures
            r@ == self.bank(),
    {
        &self.filter_bank
    }

    /// Filters `input` over `levels` levels; level `k` applies the analysis
    /// filters dilated by 2^k to the previous approximation (the input at level
    /// 0). Refused when the input's length is not a power of two of at least
    /// 2^levels.
    pub fn decompose(&self, input: &[T]) -> (r: Result<SwtCoefficients<T>, TransformError>)
        requires
            total_arithmetic::<T>(),
        ensures
            power_of_two_check(input.len(), self.depth() as usize) matches Err(e) ==> r == Err::<
                SwtCoefficients<T>,
                TransformError,
            >(e),
            power_of_two_check(input.len(), self.depth() as usize) is Ok ==> r is Ok,
            r matches Ok(c) ==> {
                &&& c@.input_len == input.len()
                &&& swt_shape(input.len() as nat, self.depth(), c@.levels)
                &&& exact_arithmetic::<T>() ==> forall|k: int|
                    #![trigger c@.levels[k]]
                    0 <= k < c@.levels.len() ==> {
                        &&& c@.levels[k].approximation@ == swt_input(
                            input@,
                            self.bank(),
                            (k + 1) as nat,
                        )
                        &&& c@.levels[k].detail@ == periodic_filter(
                            swt_input(input@, self.bank(), k as nat),
                            self.bank().analysis_high,
                            two_pow(k as nat),
                        )
                    }
            },
    {
        let max_levels = validate_power_of_two(input.len(), self.levels)?;
        let ghost bank = self.filter_bank@;
        let low = self.filter_bank.analysis_low();
        let high = self.filter_bank.analysis_high();
        proof {
            lemma_log2_below_bits(input.len() as nat);
        }
        let mut current = copy_slice(input);
        let mut levels: Vec<SwtLevel<T>> = Vec::new();
        let mut level: usize = 0;
        while level < self.levels
            invariant
                total_arithmetic::<T>(),
                level <= self.levels <= max_levels,
                max_levels < usize::BITS,
                low@ == bank.analysis_low,
                high@ == bank.analysis_high,
                current.len() == input.len(),
                levels.len() == level,
                exact_arithmetic::<T>() ==> current@ == swt_input(input@, bank, level as nat),
                forall|k: int|
                    #![trigger levels@[k]]
                    0 <= k < level ==> {
                        &&& levels@[k].approximation.len() == input.len()
                        &&& levels@[k].detail.len() == input.len()
                        &&& exact_arithmetic::<T>() ==> levels@[k].approximation@ == swt_input(
                            input@,
                            bank,
                            (k + 1) as nat,
                        )
                        &&& exact_arithmetic::<T>() ==> levels@[k].detail@ == periodic_filter(
                            swt_input(input@, bank, k as nat),
                            bank.analysis_high,
                            two_pow(k as nat),
                        )
                    },
            decreases self.levels - level,
        {
            let stride = shift_pow2(level);
            let approximation = circular_convolve_same(current.as_slice(), low, stride);
            let detail = circular_convolve_same(current.as_slice(), high, stride);
            proof {
                if exact_arithmetic::<T>() {
                    assert(approximation@ =~= swt_input(input@, bank, (level + 1) as nat));
                    assert(detail@ =~= periodic_filter(
                        swt_input(input@, bank, level as nat),
                        bank.analysis_high,
                        two_pow(level as nat),
                    ));
                }
            }
            current = copy_slice(approximation.as_slice());
            levels.push(SwtLevel { approximation, detail });
            level = level + 1;
        }
        Ok(SwtCoefficients { input_len: input.len(), levels })
    }

    /// Inverts the levels from the coarsest down, starting from the coarsest
    /// approximation (a signal of zeros when there are no levels). Refused when
    /// the number of levels differs from the transform's, when the recorded
    /// input length is not a power of two allowing them, or when a band does
    /// not have the recorded input length.
    pub fn reconstruct(&self, coefficients: &SwtCoefficients<T>) -> (r: Result<Vec<T>, TransformError>)
        requires
            total_arithmetic::<T>(),
        ensures
            coefficients@.levels.len() != self.depth() ==> r == Err::<Vec<T>, TransformError>(
                TransformError::InvalidCoefficientTree,
            ),
            coefficients@.levels.len() == self.depth() ==> (power_of_two_check(
                coefficients@.input_len as usize,
                self.depth() as usize,
            ) matches Err(e) ==> r == Err::<Vec<T>, TransformError>(e)),
            coefficients@.levels.len() == self.depth() && power_of_two_check(
                coefficients@.input_len as usize,
                self.depth() as usize,
            ) is Ok && !swt_shape(coefficients@.input_len, self.depth(), coefficients@.levels)
                ==> r == Err::<Vec<T>, TransformError>(TransformError::InvalidCoefficientTree),
            swt_reconstructible(self.depth(), coefficients@) ==> r is Ok,
            r matches Ok(v) ==> {
                &&& v.len() == coefficients@.input_len
                &&& exact_arithmetic::<T>() ==> v@ == (if self.depth() == 0 {
                    Seq::new(coefficients@.input_len, |i: int| zero::<T>())
                } else {
                    swt_synthesis(coefficients@.levels, self.bank(), 0)
                })
            },
    {
        let ghost bands = coefficients@.levels;
        let ghost bank = self.filter_bank@;
        if coefficients.levels.len() != self.levels {
            return Err(TransformError::InvalidCoefficientTree);
        }
        let max_levels = validate_power_of_two(coefficients.input_len, self.levels)?;
        proof {
            lemma_log2_below_bits(coefficients.input_len as nat);
        }
        let n = coefficients.input_len;
        let mut current: Vec<T> = Vec::new();
        if coefficients.levels.len() > 0 {
            let last = coefficients.levels.len() - 1;
            current = copy_slice(coefficients.levels[last].approximation.as_slice());
        } else {
            while current.len() < n
                invariant
                    current.len() <= n,
                    exact_arithmetic::<T>() ==> forall|i: int|
                        0 <= i < current.len() ==> #[trigger] current@[i] == zero::<T>(),
                decreases n - current.len(),
            {
                let z = zero_value::<T>();
                current.push(z);
            }
            proof {
                if exact_arithmetic::<T>() {
                    assert(current@ =~= Seq::new(n as nat, |i: int| zero::<T>()));
                }
            }
        }
        if self.levels == 0 {
            return Ok(current);
        }
        let low = self.filter_bank.synthesis_low();
        let high = self.filter_bank.synthesis_high();
        let big_l = self.levels;
        let mut level_index: usize = big_l;
        while level_index > 0
            invariant
                total_arithmetic::<T>(),
                bands == coefficients@.levels,
                bands.len() == big_l,
                big_l == self.depth(),
                0 < big_l <= max_levels < usize::BITS,
                n == coefficients@.input_len,
                power_of_two_check(n, big_l) == Ok::<usize, TransformError>(max_levels),
                level_index <= big_l,
                low@ == bank.synthesis_low,
                high@ == bank.synthesis_high,
                bank == self.bank(),
                bank.well_formed(),
                level_index < big_l ==> current.len() == n,
                level_index == big_l ==> current@ == bands[big_l - 1].approximation@,
                level_index < big_l ==> (exact_arithmetic::<T>() ==> current@ == swt_synthesis(
                    bands,
                    bank,
                    level_index as nat,
                )),
                forall|k: int|
                    #![trigger bands[k]]
                    level_index <= k < big_l ==> {
                        &&& bands[k].approximation.len() == n
                        &&& bands[k].detail.len() == n
                    },
            decreases level_index,
        {
            let li = level_index - 1;
            let level = &coefficients.levels[li];
            if level.approximation.len() != n || level.detail.len() != n || current.len() != n {
                return Err(TransformError::InvalidCoefficientTree);
            }
            let stride = shift_pow2(li);
            let next = inverse_swt_level(current.as_slice(), level.detail.as_slice(), low, high, stride);
            proof {
                if exact_arithmetic::<T>() {
                    assert(current@ == swt_synthesis(bands, bank, level_index as nat));
                    assert(next@ == swt_synthesis(bands, bank, li as nat));
                }
            }
            current = next;
            level_index = li;
        }
        Ok(current)
    }
}

/// Coefficients that a stationary transform of `levels` levels inverts: one
/// band pair per level, a recorded input length that is a power of two
/// allowing the levels, and every band as long as the input.
pub open spec fn swt_reconstructible<T>(levels: nat, c: SwtCoefficientsModel<T>) -> bool {
    &&& c.levels.len() == levels
    &&& power_of_two_check(c.input_len as usize, levels as usize) is Ok
    &&& swt_shape(c.input_len, levels, c.levels)
}

/// A stationary decomposition can always be inverted by the same transform:
/// the coefficients that `decompose` returns for a signal of `input_len`
/// samples are reconstructible, and the reconstruction is `input_len` long.
pub proof fn lemma_swt_decomposition_reconstructible<T>(
    input_len: usize,
    levels: usize,
    c: SwtCoefficientsModel<T>,
)
    requires
        power_of_two_check(input_len, levels) is Ok,
        c.input_len == input_len,
        swt_shape(input_len as nat, levels as nat, c.levels),
    ensures
        swt_reconstructible(levels as nat, c),
{
}

/// Each level of a stationary decomposition filters the signal that the level
/// before it left (the input itself at level 0): its approximation with the
/// bank's analysis low-pass and its detail with the analysis high-pass, both
/// dilated by `2^k`. Stated over the bands that `decompose` returns.
pub proof fn lemma_swt_decomposition_steps<T: Sample>(
    x: Seq<T>,
    bank: FilterBankModel<T>,
    bands: Seq<SwtLevel<T>>,
)
    requires
        forall|k: int|
            #![trigger bands[k]]
            0 <= k < bands.len() ==> {
                &&& bands[k].approximation@ == swt_input(x, bank, (k + 1) as nat)
                &&& bands[k].detail@ == periodic_filter(
                    swt_input(x, bank, k as nat),
                    bank.analysis_high,
                    two_pow(k as nat),
                )
            },
    ensures
        bands.len() > 0 ==> {
            &&& bands[0].approximation@ == periodic_filter(x, bank.analysis_low, 1)
            &&& bands[0].detail@ == periodic_filter(x, bank.analysis_high, 1)
        },
        forall|k: int|
            #![trigger bands[k]]
            1 <= k < bands.len() ==> {
                &&& bands[k].approximation@ == periodic_filter(
                    bands[k - 1].approximation@,
                    bank.analysis_low,
                    two_pow(k as nat),
                )
                &&& bands[k].detail@ == periodic_filter(
                    bands[k - 1].approximation@,
                    bank.analysis_high,
                    two_pow(k as nat),
                )
            },
{
    if bands.len() > 0 {
        assert(bands[0].approximation@ == swt_input(x, bank, 1));
        assert(two_pow(0) == 1);
        assert(swt_input(x, bank, 0) == x);
    }
    assert forall|k: int|
        #![trigger bands[k]]
        1 <= k < bands.len() implies {
        &&& bands[k].approximation@ == periodic_filter(
            bands[k - 1].approximation@,
            bank.analysis_low,
            two_pow(k as nat),
        )
        &&& bands[k].detail@ == periodic_filter(
            bands[k - 1].approximation@,
            bank.analysis_high,
            two_pow(k as nat),
        )
    } by {
        assert(bands[k - 1].approximation@ == swt_input(x, bank, k as nat));
        assert(swt_input(x, bank, (k + 1) as nat) == periodic_filter(
            swt_input(x, bank, k as nat),
            bank.analysis_low,
            two_pow(k as nat),
        ));
    }
}

/// A stationary decomposition reads only the analysis filters: banks with the
/// same analysis low-pass give every level the same input, whatever their
/// synthesis filters.
pub proof fn lemma_swt_input_analysis_only<T: Sample>(
    x: Seq<T>,
    bank: FilterBankModel<T>,
    other: FilterBankModel<T>,
    k: nat,
)
    requires
        bank.analysis_low == other.analysis_low,
    ensures
        swt_input(x, bank, k) == swt_input(x, other, k),
    decreases k,
{
    if k > 0 {
        lemma_swt_input_analysis_only(x, bank, other, (k - 1) as nat);
    }
}

/// Stationary reconstruction of any set of bands, modified or not, starts
/// from the coarsest approximation and undoes the levels from the coarsest to
/// the finest, each applied to the running result with that level's detail
/// band and the synthesis filters dilated by `2^k`.
pub proof fn lemma_swt_synthesis_steps<T: Sample>(
    bands: Seq<SwtLevel<T>>,
    bank: FilterBankModel<T>,
    k: nat,
)
    requires
        0 < bands.len(),
        k <= bands.len(),
    ensures
        k == bands.len() ==> swt_synthesis(bands, bank, k) == bands[bands.len() - 1].approximation@,
        k < bands.len() ==> swt_synthesis(bands, bank, k) == inverse_level(
            swt_synthesis(bands, bank, k + 1),
            bands[k as int].detail@,
            bank.synthesis_low,
            bank.synthesis_high,
            two_pow(k),
        ),
{
}

/// Stationary reconstruction reads only the detail bands, the coarsest
/// approximation and the synthesis filters: band sets that agree on those
/// give the same signal, whatever their finer approximations, and so do banks
/// with the same synthesis filters.
pub proof fn lemma_swt_synthesis_reads<T: Sample>(
    a: Seq<SwtLevel<T>>,
    b: Seq<SwtLevel<T>>,
    bank: FilterBankModel<T>,
    other: FilterBankModel<T>,
    k: nat,
)
    requires
        0 < a.len(),
        a.len() == b.len(),
        a[a.len() - 1].approximation@ == b[b.len() - 1].approximation@,
        forall|j: int| #![trigger a[j]] 0 <= j < a.len() ==> a[j].detail@ == b[j].detail@,
        bank.synthesis_low == other.synthesis_low,
        bank.synthesis_high == other.synthesis_high,
    ensures
        swt_synthesis(a, bank, k) == swt_synthesis(b, other, k),
    decreases a.len() - k,
{
    if k < a.len() {
        lemma_swt_synthesis_reads(a, b, bank, other, k + 1);
        assert(a[k as int].detail@ == b[k as int].detail@);
    }
}

/// `x` rotated right by `r` samples: sample `i` is `x[i - r]`, the index
/// taken modulo the length.
pub open spec fn rotated<T>(x: Seq<T>, r: int) -> Seq<T> {
    Seq::new(x.len(), |i: int| x[(i - r) % (x.len() as int)])
}

proof fn lemma_circular_dot_rotated<T: Sample>(
    x: Seq<T>,
    filter: Seq<T>,
    i: int,
    stride: int,
    count: nat,
    r: int,
)
    requires
        x.len() > 0,
    ensures
        circular_dot(rotated(x, r), filter, i, stride, count) == circular_dot(
            x,
            filter,
            (i - r) % (x.len() as int),
            stride,
            count,
        ),
    decreases count,
{
    if count > 0 {
        let t = (count - 1) as int;
        let n = x.len() as int;
        lemma_circular_dot_rotated(x, filter, i, stride, (count - 1) as nat, r);
        let a = i + t * stride;
        vstd::arithmetic::div_mod::lemma_mod_bound(a, n);
        vstd::arithmetic::div_mod::lemma_sub_mod_noop(a, r, n);
        vstd::arithmetic::div_mod::lemma_mod_twice(r, n);
        vstd::arithmetic::div_mod::lemma_sub_mod_noop(a % n, r, n);
        vstd::arithmetic::div_mod::lemma_mod_twice(a, n);
        assert((a % n - r) % n == (a - r) % n);
        vstd::arithmetic::div_mod::lemma_add_mod_noop(i - r, t * stride, n);
        vstd::arithmetic::div_mod::lemma_mod_twice(i - r, n);
        vstd::arithmetic::div_mod::lemma_add_mod_noop((i - r) % n, t * stride, n);
        assert(((i - r) % n + t * stride) % n == (a - r) % n);
        assert(rotated(x, r)[a % n] == x[(a - r) % n]);
    }
}

proof fn lemma_periodic_filter_rotated<T: Sample>(x: Seq<T>, filter: Seq<T>, stride: nat, r: int)
    requires
        x.len() > 0,
    ensures
        periodic_filter(rotated(x, r), filter, stride) == rotated(
            periodic_filter(x, filter, stride),
            r,
        ),
{
    let n = x.len() as int;
    assert forall|i: int| 0 <= i < n implies #[trigger] periodic_filter(
        rotated(x, r),
        filter,
        stride,
    )[i] == rotated(periodic_filter(x, filter, stride), r)[i] by {
        lemma_circular_dot_rotated(x, filter, i, stride as int, filter.len(), r);
        vstd::arithmetic::div_mod::lemma_mod_bound(i - r, n);
    }
    assert(periodic_filter(rotated(x, r), filter, stride) =~= rotated(
        periodic_filter(x, filter, stride),
        r,
    ));
}

proof fn lemma_swt_input_rotated<T: Sample>(x: Seq<T>, bank: FilterBankModel<T>, k: nat, r: int)
    requires
        x.len() > 0,
    ensures
        swt_input(x, bank, k).len() == x.len(),
        swt_input(rotated(x, r), bank, k) == rotated(swt_input(x, bank, k), r),
    decreases k,
{
    if k > 0 {
        let previous = swt_input(x, bank, (k - 1) as nat);
        lemma_swt_input_rotated(x, bank, (k - 1) as nat, r);
        lemma_periodic_filter_rotated(
            previous,
            bank.analysis_low,
            two_pow((k - 1) as nat),
            r,
        );
    }
}

/// The stationary transform commutes with circular shifts: rotating a
/// signal by `r` samples rotates the approximation and the detail band of
/// every level `k` by `r` samples.
pub proof fn lemma_swt_shift_equivariant<T: Sample>(
    x: Seq<T>,
    bank: FilterBankModel<T>,
    k: nat,
    r: int,
)
    requires
        x.len() > 0,
    ensures
        swt_input(rotated(x, r), bank, k + 1) == rotated(swt_input(x, bank, k + 1), r),
        periodic_filter(swt_input(rotated(x, r), bank, k), bank.analysis_high, two_pow(k))
            == rotated(periodic_filter(swt_input(x, bank, k), bank.analysis_high, two_pow(k)), r),
{
    lemma_swt_input_rotated(x, bank, k + 1, r);
    lemma_swt_input_rotated(x, bank, k, r);
    lemma_periodic_filter_rotated(swt_input(x, bank, k), bank.analysis_high, two_pow(k), r);
}

/// The lag-`c` sum of a pair of filters: `low[t] low[t + c] + high[t] high[t + c]`
/// summed over the taps `t` for which both taps exist.
pub open spec fn lag_product<T: Sample>(low: Seq<T>, high: Seq<T>, c: int) -> T {
    cross_lag_product(low, high, low, high, c)
}

/// A pair of equally long filters is power-complementary: their lag sums are
/// two at lag zero and zero at every other lag. An orthonormal low-pass
/// filter and its quadrature mirror are.
pub open spec fn power_complementary<T: Sample>(low: Seq<T>, high: Seq<T>) -> bool {
    &&& low.len() == high.len()
    &&& low.len() > 0
    &&& forall|c: int|
        #[trigger] lag_product(low, high, c) == (if c == 0 {
            plus(one::<T>(), one::<T>())
        } else {
            zero::<T>()
        })
}

proof fn lemma_circular_dot_sum<T: Sample>(
    x: Seq<T>,
    filter: Seq<T>,
    start: int,
    stride: int,
    count: nat,
)
    ensures
        circular_dot(x, filter, start, stride, count) == sum(
            |u: int| times(filter[u], x[(start + u * stride) % (x.len() as int)]),
            0,
            count as int,
        ),
    decreases count,
{
    if count > 0 {
        lemma_circular_dot_sum(x, filter, start, stride, (count - 1) as nat);
    }
}

proof fn lemma_inverse_sum_sum<T: Sample>(
    a: Seq<T>,
    d: Seq<T>,
    low: Seq<T>,
    high: Seq<T>,
    i: int,
    stride: int,
    count: nat,
)
    ensures
        inverse_sum(a, d, low, high, i, stride, count) == sum(
            |t: int|
                plus(
                    times(low[t], a[(i - t * stride) % (a.len() as int)]),
                    times(high[t], d[(i - t * stride) % (a.len() as int)]),
                ),
            0,
            count as int,
        ),
    decreases count,
{
    if count > 0 {
        lemma_inverse_sum_sum(a, d, low, high, i, stride, (count - 1) as nat);
    }
}

/// Sample `i + c s` of `y`, the index taken modulo the length.
pub open spec fn lagged<T>(y: Seq<T>, i: int, s: int, c: int) -> T {
    y[(i + c * s) % (y.len() as int)]
}

/// The products of synthesis tap `t` with every analysis tap `u`:
/// `syn_low[t] ana_low[u] + syn_high[t] ana_high[u]`.
pub open spec fn tap_product<T: Sample>(
    syn_low: Seq<T>,
    syn_high: Seq<T>,
    ana_low: Seq<T>,
    ana_high: Seq<T>,
    t: int,
    u: int,
) -> T {
    plus(times(syn_low[t], ana_low[u]), times(syn_high[t], ana_high[u]))
}

/// Term `t` of the inverse sum at sample `i` (synthesis taps `syn_low`,
/// `syn_high` over the bands that the analysis filters `ana_low`, `ana_high`
/// produce), rewritten as a sum over the analysis taps `u` of the tap products
/// times the lagged input.
pub(crate) proof fn lemma_inverse_term<T: Sample>(
    y: Seq<T>,
    syn_low: Seq<T>,
    syn_high: Seq<T>,
    ana_low: Seq<T>,
    ana_high: Seq<T>,
    s: int,
    i: int,
    t: int,
)
    requires
        field_laws::<T>(),
        y.len() > 0,
        ana_low.len() == ana_high.len(),
        s >= 0,
    ensures
        ({
            let n = y.len() as int;
            let a = periodic_filter(y, ana_low, s as nat);
            let d = periodic_filter(y, ana_high, s as nat);
            let j = (i - t * s) % n;
            plus(times(syn_low[t], a[j]), times(syn_high[t], d[j])) == sum(
                |u: int|
                    times(
                        tap_product(syn_low, syn_high, ana_low, ana_high, t, u),
                        lagged(y, i, s, u - t),
                    ),
                0,
                ana_low.len() as int,
            )
        }),
{
    let n = y.len() as int;
    let m = ana_low.len() as int;
    let a = periodic_filter(y, ana_low, s as nat);
    let d = periodic_filter(y, ana_high, s as nat);
    let j = (i - t * s) % n;
    vstd::arithmetic::div_mod::lemma_mod_bound(i - t * s, n);
    lemma_circular_dot_sum(y, ana_low, j, s, ana_low.len());
    lemma_circular_dot_sum(y, ana_high, j, s, ana_high.len());
    let fa = |u: int| times(ana_low[u], y[(j + u * s) % n]);
    let fd = |u: int| times(ana_high[u], y[(j + u * s) % n]);
    assert(a[j] == sum(fa, 0, m));
    assert(d[j] == sum(fd, 0, m));
    lemma_sum_scale(syn_low[t], fa, 0, m);
    lemma_sum_scale(syn_high[t], fd, 0, m);
    let ga = |u: int| times(syn_low[t], fa(u));
    let gd = |u: int| times(syn_high[t], fd(u));
    lemma_sum_add(ga, gd, 0, m);
    let target = |u: int|
        times(tap_product(syn_low, syn_high, ana_low, ana_high, t, u), lagged(y, i, s, u - t));
    assert forall|u: int| 0 <= u < m implies #[trigger] plus(ga(u), gd(u)) == target(u) by {
        crate::math::lemma_mod_step(i - t * s, u * s, n);
        assert(i - t * s + u * s == i + (u - t) * s) by (nonlinear_arith);
        let yu = y[(j + u * s) % n];
        assert(yu == lagged(y, i, s, u - t));
        lemma_times_assoc(syn_low[t], ana_low[u], yu);
        lemma_times_assoc(syn_high[t], ana_high[u], yu);
        lemma_distribute(yu, times(syn_low[t], ana_low[u]), times(syn_high[t], ana_high[u]));
        lemma_times_comm(yu, tap_product(syn_low, syn_high, ana_low, ana_high, t, u));
        lemma_times_comm(yu, times(syn_low[t], ana_low[u]));
        lemma_times_comm(yu, times(syn_high[t], ana_high[u]));
    }
    lemma_sum_congruent(|u: int| plus(ga(u), gd(u)), target, 0, m);
}

/// The terms of the double sum over synthesis taps `t` and lags `c`: tap
/// `t`'s product with analysis tap `t + c` times the input `c` strides away
/// (zero when tap `t + c` does not exist).
pub open spec fn lag_term<T: Sample>(
    y: Seq<T>,
    syn_low: Seq<T>,
    syn_high: Seq<T>,
    ana_low: Seq<T>,
    ana_high: Seq<T>,
    s: int,
    i: int,
    t: int,
    c: int,
) -> T {
    if 0 <= t + c < ana_low.len() {
        times(tap_product(syn_low, syn_high, ana_low, ana_high, t, t + c), lagged(y, i, s, c))
    } else {
        zero::<T>()
    }
}

/// Term `t` of the inverse sum, as a sum over all lags `1 - L .. L`.
pub(crate) proof fn lemma_inverse_term_by_lag<T: Sample>(
    y: Seq<T>,
    syn_low: Seq<T>,
    syn_high: Seq<T>,
    ana_low: Seq<T>,
    ana_high: Seq<T>,
    s: int,
    i: int,
    t: int,
)
    requires
        field_laws::<T>(),
        y.len() > 0,
        s >= 0,
        0 <= t < ana_low.len(),
    ensures
        sum(
            |u: int|
                times(
                    tap_product(syn_low, syn_high, ana_low, ana_high, t, u),
                    lagged(y, i, s, u - t),
                ),
            0,
            ana_low.len() as int,
        ) == sum(
            |c: int| lag_term(y, syn_low, syn_high, ana_low, ana_high, s, i, t, c),
            1 - ana_low.len(),
            ana_low.len() as int,
        ),
{
    let m = ana_low.len() as int;
    let f = |u: int|
        times(tap_product(syn_low, syn_high, ana_low, ana_high, t, u), lagged(y, i, s, u - t));
    let g = |c: int| lag_term(y, syn_low, syn_high, ana_low, ana_high, s, i, t, c);
    lemma_sum_shift(f, 0, m, t);
    assert forall|c: int| -t <= c < m - t implies #[trigger] f(c + t) == g(c) by {
        assert(c + t - t == c);
    }
    lemma_sum_congruent(|x: int| f(x + t), g, -t, m - t);
    lemma_sum_widen(g, -t, m - t, 1 - m, m);
}

/// The lag-`c` sum of a synthesis pair against an analysis pair:
/// `syn_low[t] ana_low[t + c] + syn_high[t] ana_high[t + c]` summed over the
/// taps `t` for which both taps exist.
pub open spec fn cross_lag_product<T: Sample>(
    syn_low: Seq<T>,
    syn_high: Seq<T>,
    ana_low: Seq<T>,
    ana_high: Seq<T>,
    c: int,
) -> T {
    sum(
        |t: int|
            if 0 <= t + c < ana_low.len() {
                plus(times(syn_low[t], ana_low[t + c]), times(syn_high[t], ana_high[t + c]))
            } else {
                zero::<T>()
            },
        0,
        ana_low.len() as int,
    )
}

/// The terms of one lag, summed over the taps, give the lag sum times the
/// lagged input.
proof fn lemma_lag_column<T: Sample>(
    y: Seq<T>,
    syn_low: Seq<T>,
    syn_high: Seq<T>,
    ana_low: Seq<T>,
    ana_high: Seq<T>,
    s: int,
    i: int,
    c: int,
)
    requires
        field_laws::<T>(),
    ensures
        sum(
            |t: int| lag_term(y, syn_low, syn_high, ana_low, ana_high, s, i, t, c),
            0,
            ana_low.len() as int,
        ) == times(
            cross_lag_product(syn_low, syn_high, ana_low, ana_high, c),
            lagged(y, i, s, c),
        ),
{
    let m = ana_low.len() as int;
    let yc = lagged(y, i, s, c);
    let k = |t: int|
        if 0 <= t + c < ana_low.len() {
            plus(times(syn_low[t], ana_low[t + c]), times(syn_high[t], ana_high[t + c]))
        } else {
            zero::<T>()
        };
    lemma_sum_scale(yc, k, 0, m);
    assert forall|t: int| 0 <= t < m implies #[trigger] lag_term(
        y,
        syn_low,
        syn_high,
        ana_low,
        ana_high,
        s,
        i,
        t,
        c,
    ) == times(k(t), yc) by {
        lemma_times_zero(yc);
        lemma_times_comm(yc, zero::<T>());
    }
    lemma_sum_congruent(
        |t: int| lag_term(y, syn_low, syn_high, ana_low, ana_high, s, i, t, c),
        |t: int| times(k(t), yc),
        0,
        m,
    );
    assert(cross_lag_product(syn_low, syn_high, ana_low, ana_high, c) == sum(k, 0, m));
}

/// Synthesis filters dual to analysis filters for the undecimated transform:
/// all four of one non-zero length, and the lag sums of the synthesis pair
/// against the analysis pair are two at lag zero and zero at every other lag.
pub open spec fn dual_pairs<T: Sample>(
    syn_low: Seq<T>,
    syn_high: Seq<T>,
    ana_low: Seq<T>,
    ana_high: Seq<T>,
) -> bool {
    &&& ana_low.len() > 0
    &&& ana_high.len() == ana_low.len()
    &&& syn_low.len() == ana_low.len()
    &&& syn_high.len() == ana_low.len()
    &&& forall|c: int|
        #[trigger] cross_lag_product(syn_low, syn_high, ana_low, ana_high, c) == (if c == 0 {
            plus(one::<T>(), one::<T>())
        } else {
            zero::<T>()
        })
}

/// Over a field, with synthesis filters dual to the analysis filters, one
/// inverse stationary level rebuilds sample `i` of the level's input.
proof fn lemma_swt_sample<T: Sample>(
    y: Seq<T>,
    syn_low: Seq<T>,
    syn_high: Seq<T>,
    ana_low: Seq<T>,
    ana_high: Seq<T>,
    s: nat,
    i: int,
)
    requires
        field_laws::<T>(),
        dual_pairs(syn_low, syn_high, ana_low, ana_high),
        0 <= i < y.len(),
    ensures
        inverse_level(
            periodic_filter(y, ana_low, s),
            periodic_filter(y, ana_high, s),
            syn_low,
            syn_high,
            s,
        )[i] == y[i],
{
    let n = y.len() as int;
    let m = ana_low.len() as int;
    let si = s as int;
    let a = periodic_filter(y, ana_low, s);
    let d = periodic_filter(y, ana_high, s);
    // The inverse sum as a sum over taps, each a sum over analysis taps.
    lemma_inverse_sum_sum(a, d, syn_low, syn_high, i, si, syn_low.len());
    let by_tap = |t: int|
        plus(
            times(syn_low[t], a[(i - t * si) % (a.len() as int)]),
            times(syn_high[t], d[(i - t * si) % (a.len() as int)]),
        );
    let double = |t: int|
        sum(|c: int| lag_term(y, syn_low, syn_high, ana_low, ana_high, si, i, t, c), 1 - m, m);
    assert forall|t: int| 0 <= t < m implies #[trigger] by_tap(t) == double(t) by {
        lemma_inverse_term(y, syn_low, syn_high, ana_low, ana_high, si, i, t);
        lemma_inverse_term_by_lag(y, syn_low, syn_high, ana_low, ana_high, si, i, t);
    }
    lemma_sum_congruent(by_tap, double, 0, m);
    // Exchange the sums: lags outside, taps inside.
    let term = |t: int, c: int| lag_term(y, syn_low, syn_high, ana_low, ana_high, si, i, t, c);
    lemma_sum_swap(term, 0, m, 1 - m, m);
    assert forall|t: int| sum(|c: int| term(t, c), 1 - m, m) == #[trigger] double(t) by {
        assert((|c: int| term(t, c)) =~= (|c: int|
            lag_term(y, syn_low, syn_high, ana_low, ana_high, si, i, t, c)));
    }
    assert((|t: int| sum(|c: int| term(t, c), 1 - m, m)) =~= double);
    let by_lag = |c: int| sum(|t: int| term(t, c), 0, m);
    let weighted = |c: int|
        times(
            cross_lag_product(syn_low, syn_high, ana_low, ana_high, c),
            lagged(y, i, s as int, c),
        );
    assert forall|c: int| 1 - m <= c < m implies #[trigger] by_lag(c) == weighted(c) by {
        lemma_lag_column(y, syn_low, syn_high, ana_low, ana_high, si, i, c);
        assert((|t: int| term(t, c)) =~= (|t: int|
            lag_term(y, syn_low, syn_high, ana_low, ana_high, si, i, t, c)));
    }
    lemma_sum_congruent(by_lag, weighted, 1 - m, m);
    // Only lag zero remains: twice the sample.
    assert forall|c: int| 1 - m <= c < m && c != 0 implies #[trigger] weighted(c) == zero::<T>() by {
        lemma_times_zero(lagged(y, i, si, c));
        lemma_times_comm(lagged(y, i, si, c), zero::<T>());
    }
    lemma_sum_single(weighted, 1 - m, m, 0);
    vstd::arithmetic::div_mod::lemma_small_mod(i as nat, n as nat);
    assert(lagged(y, i, si, 0) == y[i]);
    lemma_distribute(y[i], one::<T>(), one::<T>());
    lemma_one_times(y[i]);
    lemma_halve_double(y[i]);
}

/// The filter bank's synthesis filters are its analysis filters, and these
/// are power-complementary: the orthogonal filter banks.
pub open spec fn power_complementary_bank<T: Sample>(bank: FilterBankModel<T>) -> bool {
    &&& bank.synthesis_low == bank.analysis_low
    &&& bank.synthesis_high == bank.analysis_high
    &&& power_complementary(bank.analysis_low, bank.analysis_high)
}

/// The bank's synthesis filters are dual to its analysis filters for the
/// undecimated transform (the biorthogonal banks that it inverts exactly,
/// orthogonal ones among them).
pub open spec fn swt_dual_bank<T: Sample>(bank: FilterBankModel<T>) -> bool {
    dual_pairs(bank.synthesis_low, bank.synthesis_high, bank.analysis_low, bank.analysis_high)
}

/// An orthogonal (power-complementary) bank is its own dual.
pub proof fn lemma_power_complementary_bank_dual<T: Sample>(bank: FilterBankModel<T>)
    requires
        power_complementary_bank(bank),
    ensures
        swt_dual_bank(bank),
{
    let low = bank.analysis_low;
    let high = bank.analysis_high;
    assert forall|c: int| #[trigger] cross_lag_product(low, high, low, high, c) == (if c == 0 {
        plus(one::<T>(), one::<T>())
    } else {
        zero::<T>()
    }) by {
        assert(lag_product(low, high, c) == cross_lag_product(low, high, low, high, c));
    }
}

proof fn lemma_swt_level<T: Sample>(y: Seq<T>, bank: FilterBankModel<T>, s: nat)
    requires
        field_laws::<T>(),
        swt_dual_bank(bank),
    ensures
        inverse_level(
            periodic_filter(y, bank.analysis_low, s),
            periodic_filter(y, bank.analysis_high, s),
            bank.synthesis_low,
            bank.synthesis_high,
            s,
        ) == y,
{
    let rebuilt = inverse_level(
        periodic_filter(y, bank.analysis_low, s),
        periodic_filter(y, bank.analysis_high, s),
        bank.synthesis_low,
        bank.synthesis_high,
        s,
    );
    assert forall|i: int| 0 <= i < y.len() implies #[trigger] rebuilt[i] == y[i] by {
        lemma_swt_sample(
            y,
            bank.synthesis_low,
            bank.synthesis_high,
            bank.analysis_low,
            bank.analysis_high,
            s,
            i,
        );
    }
    assert(rebuilt =~= y);
}

proof fn lemma_swt_synthesis_from<T: Sample>(
    x: Seq<T>,
    bank: FilterBankModel<T>,
    bands: Seq<SwtLevel<T>>,
    k: nat,
)
    requires
        field_laws::<T>(),
        swt_dual_bank(bank),
        0 < bands.len(),
        k <= bands.len(),
        forall|j: int|
            #![trigger bands[j]]
            0 <= j < bands.len() ==> {
                &&& bands[j].approximation@ == swt_input(x, bank, (j + 1) as nat)
                &&& bands[j].detail@ == periodic_filter(
                    swt_input(x, bank, j as nat),
                    bank.analysis_high,
                    two_pow(j as nat),
                )
            },
    ensures
        swt_synthesis(bands, bank, k) == swt_input(x, bank, k),
    decreases bands.len() - k,
{
    if k < bands.len() {
        lemma_swt_synthesis_from(x, bank, bands, k + 1);
        assert(bands[k as int].detail@ == periodic_filter(
            swt_input(x, bank, k),
            bank.analysis_high,
            two_pow(k),
        ));
        lemma_swt_level(swt_input(x, bank, k), bank, two_pow(k));
    } else {
        assert(bands[bands.len() - 1].approximation@ == swt_input(x, bank, bands.len() as nat));
    }
}

/// Over a coefficient type whose operations obey the laws of a field, with an
/// orthogonal filter bank (synthesis filters equal to power-complementary
/// analysis filters), stationary reconstruction inverts decomposition: from
/// the bands that a decomposition of `x` produces (level `k`'s approximation
/// is the input of level `k + 1`, its detail the high-pass band of level
/// `k`'s input), the synthesis rebuilds `x` exactly.
pub proof fn lemma_swt_perfect_reconstruction<T: Sample>(
    x: Seq<T>,
    bank: FilterBankModel<T>,
    bands: Seq<SwtLevel<T>>,
)
    requires
        field_laws::<T>(),
        power_complementary_bank(bank),
        bands.len() > 0,
        forall|k: int|
            #![trigger bands[k]]
            0 <= k < bands.len() ==> {
                &&& bands[k].approximation@ == swt_input(x, bank, (k + 1) as nat)
                &&& bands[k].detail@ == periodic_filter(
                    swt_input(x, bank, k as nat),
                    bank.analysis_high,
                    two_pow(k as nat),
                )
            },
    ensures
        swt_synthesis(bands, bank, 0) == x,
{
    lemma_power_complementary_bank_dual(bank);
    lemma_swt_synthesis_from(x, bank, bands, 0);
}

/// Over a coefficient type whose operations obey the laws of a field, with
/// any filter bank whose synthesis filters are dual to its analysis filters
/// (biorthogonal banks such as a Haar pair analysed with `[1, 1]`, `[1, -1]`
/// and synthesised with `[1/2, 1/2]`, `[1/2, -1/2]`, not only orthogonal
/// ones), stationary reconstruction inverts decomposition: the synthesis of
/// the bands that a decomposition of `x` produces rebuilds `x` exactly.
pub proof fn lemma_swt_dual_perfect_reconstruction<T: Sample>(
    x: Seq<T>,
    bank: FilterBankModel<T>,
    bands: Seq<SwtLevel<T>>,
)
    requires
        field_laws::<T>(),
        swt_dual_bank(bank),
        bands.len() > 0,
        forall|k: int|
            #![trigger bands[k]]
            0 <= k < bands.len() ==> {
                &&& bands[k].approximation@ == swt_input(x, bank, (k + 1) as nat)
                &&& bands[k].detail@ == periodic_filter(
                    swt_input(x, bank, k as nat),
                    bank.analysis_high,
                    two_pow(k as nat),
                )
            },
    ensures
        swt_synthesis(bands, bank, 0) == x,
{
    lemma_swt_synthesis_from(x, bank, bands, 0);
}

proof fn lemma_lag_product_split<T: Sample>(low: Seq<T>, high: Seq<T>, c: int)
    requires
        field_laws::<T>(),
        low.len() == high.len(),
    ensures
        lag_product(low, high, c) == plus(autocorrelation(low, c), autocorrelation(high, c)),
{
    let n = low.len() as int;
    let fl = |t: int|
        if 0 <= t + c < low.len() {
            times(low[t], low[t + c])
        } else {
            zero::<T>()
        };
    let fh = |t: int|
        if 0 <= t + c < high.len() {
            times(high[t], high[t + c])
        } else {
            zero::<T>()
        };
    let both = |t: int|
        if 0 <= t + c < low.len() {
            plus(times(low[t], low[t + c]), times(high[t], high[t + c]))
        } else {
            zero::<T>()
        };
    lemma_sum_add(fl, fh, 0, n);
    lemma_zero_plus(zero::<T>());
    lemma_sum_congruent(both, |t: int| plus(fl(t), fh(t)), 0, n);
}

/// A low-pass filter orthonormal to its even shifts and its quadrature mirror
/// are power-complementary.
pub proof fn lemma_orthonormal_power_complementary<T: Sample>(low: Seq<T>)
    requires
        field_laws::<T>(),
        orthonormal(low),
        low.len() > 0,
    ensures
        power_complementary(low, qmf_of(low)),
{
    let high = qmf_of(low);
    assert forall|c: int| #[trigger] lag_product(low, high, c) == (if c == 0 {
        plus(one::<T>(), one::<T>())
    } else {
        zero::<T>()
    }) by {
        lemma_lag_product_split(low, high, c);
        lemma_qmf_autocorrelation(low, c);
        if c % 2 == 0 {
            let m = c / 2;
            assert(c == 2 * m);
            assert(autocorrelation(low, 2 * m) == (if m == 0 {
                one::<T>()
            } else {
                zero::<T>()
            }));
            lemma_zero_plus(zero::<T>());
        } else {
            lemma_plus_negated(autocorrelation(low, c));
        }
    }
}

/// An orthonormal filter bank is power-complementary, so the stationary
/// transform reconstructs exactly with it.
pub proof fn lemma_orthonormal_bank_power_complementary<T: Sample>(bank: FilterBankModel<T>)
    requires
        field_laws::<T>(),
        orthonormal_bank(bank),
    ensures
        power_complementary_bank(bank),
{
    lemma_orthonormal_power_complementary(bank.analysis_low);
}

} // verus!
