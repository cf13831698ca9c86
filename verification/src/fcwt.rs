//! The fast continuous wavelet transform: its configuration, and the spectral
//! steps taken between the forward FFT of the signal and the inverse FFT of
//! each scale's product (mirroring a real signal's spectrum, multiplying by the
//! daughter wavelet, normalising).
use crate::sample::{
    ComplexSample, Sample, exact_arithmetic, negated, quotient, times, total_arithmetic, zero, zero_value,
};
use std::ops::Neg;
use vstd::prelude::*;

verus! {

/// A fast continuous wavelet transform over the wavelet `W`.
#[derive(Clone, Debug)]
pub struct Fcwt<W> {
    wavelet: W,
    normalize: bool,
}

impl<W> Fcwt<W> {
    pub closed spec fn mother(&self) -> W {
        self.wavelet
    }

    pub closed spec fn normalizes(&self) -> bool {
        self.normalize
    }

    /// A transform over `wavelet`, normalising its output.
    pub fn new(wavelet: W) -> (r: Self)
        ensures
            r.mother() == wavelet,
            r.normalizes(),
    {
        Fcwt { wavelet, normalize: true }
    }

    /// The same transform, normalising its output or not.
    pub fn with_normalization(self, normalize: bool) -> (r: Self)
        ensures
            r.mother() == self.mother(),
            r.normalizes() == normalize,
    {
        let mut s = self;
        s.normalize = normalize;
        s
    }

    pub fn wavelet(&self) -> (r: &W)
        ensures
            *r == self.mother(),
    {
        &self.wavelet
    }

    pub fn wavelet_mut(&mut self) -> (r: &mut W)
        ensures
            *r == old(self).mother(),
            final(self).mother() == *final(r),
            final(self).normalizes() == old(self).normalizes(),
    {
        &mut self.wavelet
    }

    /// Whether the inverse FFT output is divided by the FFT length.
    pub fn normalization(&self) -> (r: bool)
        ensures
            r == self.normalizes(),
    {
        self.normalize
    }
}

/// `x`, negated when `negate` holds.
pub open spec fn signed<T: Sample>(x: T, negate: bool) -> T {
    if negate {
        negated(x)
    } else {
        x
    }
}

/// The complex conjugate of `c`.
pub open spec fn conjugate<T: Sample>(c: ComplexSample<T>) -> ComplexSample<T> {
    ComplexSample { re: c.re, im: negated(c.im) }
}

/// The complex zero.
pub open spec fn complex_zero<T: Sample>() -> ComplexSample<T> {
    ComplexSample { re: zero::<T>(), im: zero::<T>() }
}

/// Bin `k` of a spectrum multiplied by a daughter wavelet whose samples are
/// `mother[mother_indices[q]]` for the frequency bins `q < e` (`e` the number
/// of indices): the positive bins `k < e` take sample `k`; a double-sided
/// wavelet also covers the mirrored bins `n - 1 - q`; every other bin is zero.
/// With an imaginary wavelet the imaginary part of a positive bin, and the
/// real part of a mirrored one, change sign.
pub open spec fn daughter_coefficient<T: Sample>(
    input: Seq<ComplexSample<T>>,
    mother: Seq<T>,
    mother_indices: Seq<usize>,
    imaginary: bool,
    double_sided: bool,
    k: int,
) -> ComplexSample<T> {
    let n = input.len() as int;
    let e = mother_indices.len() as int;
    if 0 <= k < e {
        let w = mother[mother_indices[k] as int];
        ComplexSample { re: times(input[k].re, w), im: signed(times(input[k].im, w), imaginary) }
    } else if double_sided && n - e <= k < n {
        let w = mother[mother_indices[n - 1 - k] as int];
        ComplexSample { re: signed(times(input[k].re, w), imaginary), im: times(input[k].im, w) }
    } else {
        complex_zero::<T>()
    }
}

/// How the daughter-wavelet product treats each bin, stated on its own: a
/// positive bin `k` below the endpoint is the input bin scaled by its mother
/// sample, and conjugated when the wavelet is imaginary, whether or not the
/// wavelet is double-sided; a mirrored bin `n - 1 - q` is filled only for a
/// double-sided wavelet (scaled by the sample of `q`, its real part negated
/// when the wavelet is imaginary); every other bin is zero.
pub proof fn lemma_daughter_bins<T: Sample>(
    input: Seq<ComplexSample<T>>,
    mother: Seq<T>,
    mother_indices: Seq<usize>,
    imaginary: bool,
    double_sided: bool,
    k: int,
)
    requires
        mother_indices.len() <= input.len() / 2,
        0 <= k < input.len(),
    ensures
        k < mother_indices.len() ==> {
            let w = mother[mother_indices[k] as int];
            let scaled = ComplexSample { re: times(input[k].re, w), im: times(input[k].im, w) };
            &&& daughter_coefficient(input, mother, mother_indices, imaginary, double_sided, k)
                == daughter_coefficient(input, mother, mother_indices, imaginary, !double_sided, k)
            &&& !imaginary ==> daughter_coefficient(
                input,
                mother,
                mother_indices,
                imaginary,
                double_sided,
                k,
            ) == scaled
            &&& imaginary ==> daughter_coefficient(
                input,
                mother,
                mother_indices,
                imaginary,
                double_sided,
                k,
            ) == conjugate(scaled)
        },
        input.len() - mother_indices.len() <= k ==> {
            let q = input.len() - 1 - k;
            let w = mother[mother_indices[q] as int];
            &&& !double_sided ==> daughter_coefficient(
                input,
                mother,
                mother_indices,
                imaginary,
                double_sided,
                k,
            ) == complex_zero::<T>()
            &&& double_sided ==> daughter_coefficient(
                input,
                mother,
                mother_indices,
                imaginary,
                double_sided,
                k,
            ) == (ComplexSample {
                re: signed(times(input[k].re, w), imaginary),
                im: times(input[k].im, w),
            })
        },
        mother_indices.len() <= k < input.len() - mother_indices.len() ==> daughter_coefficient(
            input,
            mother,
            mother_indices,
            imaginary,
            double_sided,
            k,
        ) == complex_zero::<T>(),
{
}

fn complex_zero_value<T: Sample>() -> (r: ComplexSample<T>)
    ensures
        exact_arithmetic::<T>() ==> r == complex_zero::<T>(),
{
    ComplexSample { re: zero_value::<T>(), im: zero_value::<T>() }
}

/// Multiplies the spectrum `input` by the daughter wavelet of one scale into
/// `output`: the frequency bins `q` below the endpoint (one per entry of
/// `mother_indices`, which picks the mother wavelet's sample for that bin)
/// and, for a double-sided wavelet, their mirrors `n - 1 - q`; all other bins
/// are zero. An imaginary wavelet flips the sign of the imaginary part of the
/// positive bins and of the real part of the mirrored ones.
pub fn daughter_wavelet_multiply<T: Sample>(
    input: &[ComplexSample<T>],
    output: &mut [ComplexSample<T>],
    mother: &[T],
    mother_indices: &[usize],
    imaginary: bool,
    double_sided: bool,
)
    requires
        total_arithmetic::<T>(),
        old(output)@.len() == input@.len(),
        mother_indices@.len() <= input@.len() / 2,
        forall|q: int|
            0 <= q < mother_indices@.len() ==> #[trigger] mother_indices@[q] < mother@.len(),
    ensures
        final(output)@.len() == input@.len(),
        exact_arithmetic::<T>() ==> forall|k: int|
            0 <= k < input@.len() ==> #[trigger] final(output)@[k] == daughter_coefficient(
                input@,
                mother@,
                mother_indices@,
                imaginary,
                double_sided,
                k,
            ),
{
    let n = input.len();
    let e = mother_indices.len();
    let mut k: usize = 0;
    while k < n
        invariant
            n == input@.len(),
            output@.len() == n,
            k <= n,
            exact_arithmetic::<T>() ==> forall|j: int|
                0 <= j < k ==> #[trigger] output@[j] == complex_zero::<T>(),
        decreases n - k,
    {
        output[k] = complex_zero_value::<T>();
        k = k + 1;
    }
    let mut q: usize = 0;
    while q < e
        invariant
            total_arithmetic::<T>(),
            n == input@.len(),
            e == mother_indices@.len(),
            e <= n / 2,
            output@.len() == n,
            q <= e,
            forall|j: int| 0 <= j < e ==> #[trigger] mother_indices@[j] < mother@.len(),
            exact_arithmetic::<T>() ==> forall|j: int|
                0 <= j < n ==> #[trigger] output@[j] == (if j < q {
                    daughter_coefficient(input@, mother@, mother_indices@, imaginary, double_sided, j)
                } else {
                    complex_zero::<T>()
                }),
        decreases e - q,
    {
        let w = mother[mother_indices[q]];
        let x = input[q];
        let re = x.re * w;
        let product = x.im * w;
        let im = if imaginary {
            product.neg()
        } else {
            product
        };
        output[q] = ComplexSample { re, im };
        q = q + 1;
    }
    if double_sided {
        let mut q: usize = 0;
        while q < e
            invariant
                total_arithmetic::<T>(),
                double_sided,
                n == input@.len(),
                e == mother_indices@.len(),
                e <= n / 2,
                output@.len() == n,
                q <= e,
                forall|j: int| 0 <= j < e ==> #[trigger] mother_indices@[j] < mother@.len(),
                exact_arithmetic::<T>() ==> forall|j: int|
                    0 <= j < n ==> #[trigger] output@[j] == (if j < e || n - q <= j {
                        daughter_coefficient(input@, mother@, mother_indices@, imaginary, double_sided, j)
                    } else {
                        complex_zero::<T>()
                    }),
            decreases e - q,
        {
            let dest = n - 1 - q;
            let w = mother[mother_indices[q]];
            let x = input[dest];
            let product = x.re * w;
            let re = if imaginary {
                product.neg()
            } else {
                product
            };
            let im = x.im * w;
            output[dest] = ComplexSample { re, im };
            q = q + 1;
        }
    }
}

/// Completes the spectrum of a real signal from its first half: bin `n - i`
/// becomes the conjugate of bin `i` for `0 < i < n / 2`; the other bins are
/// kept.
pub fn mirror_real_spectrum<T: Sample>(values: &mut [ComplexSample<T>])
    requires
        total_arithmetic::<T>(),
    ensures
        final(values)@.len() == old(values)@.len(),
        forall|k: int|
            #![trigger final(values)@[k]]
            0 <= k < old(values)@.len() ==> {
                let n = old(values)@.len() as int;
                if n - n / 2 < k {
                    &&& final(values)@[k].re == old(values)@[n - k].re
                    &&& exact_arithmetic::<T>() ==> final(values)@[k] == conjugate(
                        old(values)@[n - k],
                    )
                } else {
                    final(values)@[k] == old(values)@[k]
                }
            },
{
    let n = values.len();
    let ghost initial = values@;
    let mut i: usize = 1;
    while i < n / 2
        invariant
            total_arithmetic::<T>(),
            n == initial.len(),
            values@.len() == n,
            1 <= i,
            i <= n / 2 || i == 1,
            forall|k: int|
                #![trigger values@[k]]
                0 <= k < n ==> {
                    if n - i < k {
                        &&& values@[k].re == initial[n - k].re
                        &&& exact_arithmetic::<T>() ==> values@[k] == conjugate(initial[n - k])
                    } else {
                        values@[k] == initial[k]
                    }
                },
        decreases n - i,
    {
        let source = values[i];
        values[n - i] = ComplexSample { re: source.re, im: source.im.neg() };
        i = i + 1;
    }
}

/// Divides every value by `size` (the FFT length), as an unnormalised inverse
/// FFT requires.
pub fn normalize_inverse_fft<T: Sample>(out: &mut [ComplexSample<T>], size: T)
    requires
        total_arithmetic::<T>(),
    ensures
        final(out)@.len() == old(out)@.len(),
        exact_arithmetic::<T>() ==> forall|k: int|
            0 <= k < old(out)@.len() ==> #[trigger] final(out)@[k] == (ComplexSample {
                re: quotient(old(out)@[k].re, size),
                im: quotient(old(out)@[k].im, size),
            }),
{
    let ghost initial = out@;
    let mut k: usize = 0;
    while k < out.len()
        invariant
            total_arithmetic::<T>(),
            out@.len() == initial.len(),
            k <= out@.len(),
            forall|j: int| k <= j < out@.len() ==> #[trigger] out@[j] == initial[j],
            exact_arithmetic::<T>() ==> forall|j: int|
                0 <= j < k ==> #[trigger] out@[j] == (ComplexSample {
                    re: quotient(initial[j].re, size),
                    im: quotient(initial[j].im, size),
                }),
        decreases out@.len() - k,
    {
        let value = out[k];
        out[k] = ComplexSample { re: value.re / size, im: value.im / size };
        k = k + 1;
    }
}

/// Stores the first `size` samples of one scale's inverse transform as row
/// `scale_index` of the scale-major output: sample `j` of the row goes to
/// `output[scale_index * size + j]`; the other rows are kept.
pub fn store_scale_row<T: Copy>(
    output: &mut [ComplexSample<T>],
    scale_index: usize,
    size: usize,
    row: &[ComplexSample<T>],
)
    requires
        size <= row@.len(),
        (scale_index + 1) * size <= old(output)@.len(),
    ensures
        final(output)@.len() == old(output)@.len(),
        forall|k: int|
            0 <= k < old(output)@.len() ==> #[trigger] final(output)@[k] == (if scale_index
                * size <= k < (scale_index + 1) * size {
                row@[k - scale_index * size]
            } else {
                old(output)@[k]
            }),
{
    let ghost initial = output@;
    let total = output.len();
    proof {
        assert((scale_index + 1) * size == scale_index * size + size) by (nonlinear_arith);
    }
    let start = scale_index * size;
    let mut j: usize = 0;
    while j < size
        invariant
            start == scale_index * size,
            (scale_index + 1) * size == start + size,
            start + size <= total,
            total == initial.len(),
            size <= row@.len(),
            output@.len() == initial.len(),
            j <= size,
            forall|k: int|
                0 <= k < initial.len() ==> #[trigger] output@[k] == (if start <= k < start + j {
                    row@[k - start]
                } else {
                    initial[k]
                }),
        decreases size - j,
    {
        output[start + j] = row[j];
        j = j + 1;
    }
}

} // verus!
