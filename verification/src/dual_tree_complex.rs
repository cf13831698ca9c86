//! The dual-tree complex wavelet transform (one-dimensional): a near-symmetric
//! first level followed by quarter-shift levels, whose two real trees are read
//! as the real and imaginary parts of complex detail coefficients.
use crate::discrete::{TransformError, power_of_two_check, reflect_index, symmetric_index,
    validate_power_of_two};
use crate::math::{
    is_power_of_two, lemma_log2_below_bits, lemma_power_of_two_log2, lemma_two_pow_div,
    lemma_two_pow_monotonic, lemma_two_pow_positive, log2, two_pow,
};
use crate::sample::{ComplexSample, Sample, copy_slice, exact_arithmetic, is_positive, plus, times,
    total_arithmetic, zero, zero_value};
use vstd::prelude::*;

verus! {

/// The full convolution of `input` with `filter` at position `full_index`,
/// over the first `count` taps: `filter[t] * input[full_index - t]` for the
/// taps whose sample lies inside `input`, summed in tap order from zero.
pub open spec fn centered_sum<T: Sample>(
    input: Seq<T>,
    filter: Seq<T>,
    full_index: int,
    count: nat,
) -> T
    decreases count,
{
    if count == 0 {
        zero::<T>()
    } else {
        let t = count - 1;
        let prev = centered_sum(input, filter, full_index, t as nat);
        if 0 <= full_index - t < input.len() {
            plus(prev, times(filter[t], input[full_index - t]))
        } else {
            prev
        }
    }
}

/// The number of samples of the centred ("valid"-sized) convolution of an
/// `n`-sample signal with an `m`-tap filter: `|n - m| + 1`.
pub open spec fn centered_len(n: nat, m: nat) -> nat {
    if n >= m {
        (n - m + 1) as nat
    } else {
        (m - n + 1) as nat
    }
}

/// The first full-convolution position that the centred convolution keeps.
pub open spec fn centered_start(n: nat, m: nat) -> nat {
    (((n + m - 1) - centered_len(n, m)) / 2) as nat
}

/// The centred convolution of `x` with `f`: the middle `|n - m| + 1` samples
/// of their full convolution.
pub open spec fn centered_convolution<T: Sample>(x: Seq<T>, f: Seq<T>) -> Seq<T> {
    Seq::new(
        centered_len(x.len(), f.len()),
        |o: int| centered_sum(x, f, centered_start(x.len(), f.len()) + o, f.len()),
    )
}

/// The taps of `f` at even positions.
pub open spec fn even_part<T>(f: Seq<T>) -> Seq<T> {
    Seq::new((f.len() + 1) / 2, |i: int| f[2 * i])
}

/// The taps of `f` at odd positions.
pub open spec fn odd_part<T>(f: Seq<T>) -> Seq<T> {
    Seq::new(f.len() / 2, |i: int| f[2 * i + 1])
}

/// Elementwise sums over the shorter length.
pub open spec fn pointwise_sum<T: Sample>(a: Seq<T>, b: Seq<T>) -> Seq<T> {
    Seq::new(
        if a.len() <= b.len() {
            a.len()
        } else {
            b.len()
        },
        |i: int| plus(a[i], b[i]),
    )
}

/// `x[start + step * i + offset]` for `i < count`.
pub open spec fn stepped_pick<T>(x: Seq<T>, start: int, step: int, count: nat, offset: int) -> Seq<
    T,
> {
    Seq::new(count, |i: int| x[start + step * i + offset])
}

/// Consecutive pairs of samples as complex numbers.
pub open spec fn complex_pairs<T>(x: Seq<T>) -> Seq<ComplexSample<T>> {
    Seq::new(x.len() / 2, |i: int| ComplexSample { re: x[2 * i], im: x[2 * i + 1] })
}

/// Complex numbers laid out as consecutive (real, imaginary) samples.
pub open spec fn pair_samples<T>(c: Seq<ComplexSample<T>>) -> Seq<T> {
    Seq::new(
        2 * c.len(),
        |i: int|
            if i % 2 == 0 {
                c[i / 2].re
            } else {
                c[i / 2].im
            },
    )
}

/// The centred part of the full convolution of `input` with `filter`: its
/// middle `|n - m| + 1` samples.
fn column_convolve_centered<T: Sample>(input: &[T], filter: &[T]) -> (r: Vec<T>)
    requires
        total_arithmetic::<T>(),
        input.len() > 0,
        filter.len() > 0,
        input.len() + filter.len() <= usize::MAX,
    ensures
        r.len() == centered_len(input.len() as nat, filter.len() as nat),
        exact_arithmetic::<T>() ==> r@ == centered_convolution(input@, filter@),
{
    let n = input.len();
    let m = filter.len();
    let output_len = if n >= m {
        n - m + 1
    } else {
        m - n + 1
    };
    let full_len = n + m - 1;
    let start = (full_len - output_len) / 2;
    let mut output: Vec<T> = Vec::new();
    let mut out: usize = 0;
    while out < output_len
        invariant
            total_arithmetic::<T>(),
            n == input.len(),
            m == filter.len(),
            n > 0,
            m > 0,
            output_len == centered_len(n as nat, m as nat),
            start == centered_start(n as nat, m as nat),
            start + output_len <= full_len,
            full_len == n + m - 1,
            out <= output_len,
            output.len() == out,
            exact_arithmetic::<T>() ==> forall|o: int|
                0 <= o < out ==> #[trigger] output@[o] == centered_sum(
                    input@,
                    filter@,
                    start + o,
                    m as nat,
                ),
        decreases output_len - out,
    {
        let full_index = start + out;
        let mut acc = zero_value::<T>();
        let mut tap: usize = 0;
        while tap < m
            invariant
                total_arithmetic::<T>(),
                n == input.len(),
                m == filter.len(),
                tap <= m,
                exact_arithmetic::<T>() ==> acc == centered_sum(
                    input@,
                    filter@,
                    full_index as int,
                    tap as nat,
                ),
            decreases m - tap,
        {
            if tap <= full_index && full_index - tap < n {
                let term = filter[tap] * input[full_index - tap];
                acc = acc + term;
            }
            tap = tap + 1;
        }
        output.push(acc);
        out = out + 1;
    }
    proof {
        if exact_arithmetic::<T>() {
            assert(output@ =~= centered_convolution(input@, filter@));
        }
    }
    output
}

/// `index + offset`, for a result that is not negative.
fn shift_index(index: usize, offset: isize) -> (r: usize)
    requires
        0 <= index + offset <= usize::MAX,
    ensures
        r == index + offset,
{
    if offset >= 0 {
        index + offset as usize
    } else {
        let back = (-(offset + 1)) as usize + 1;
        index - back
    }
}

/// `input[indices[i] + offset]` for every `i`.
fn select_by_offsets<T: Copy>(input: &[T], indices: &[usize], offset: isize) -> (r: Vec<T>)
    requires
        forall|i: int|
            0 <= i < indices.len() ==> 0 <= #[trigger] indices@[i] + offset < input.len(),
    ensures
        r.len() == indices.len(),
        forall|i: int|
            0 <= i < indices.len() ==> #[trigger] r@[i] == input@[indices@[i] + offset],
{
    let mut r: Vec<T> = Vec::new();
    let mut i: usize = 0;
    while i < indices.len()
        invariant
            i <= indices.len(),
            r.len() == i,
            forall|j: int|
                0 <= j < indices.len() ==> 0 <= #[trigger] indices@[j] + offset < input.len(),
            forall|j: int| 0 <= j < i ==> #[trigger] r@[j] == input@[indices@[j] + offset],
        decreases indices.len() - i,
    {
        let position = shift_index(indices[i], offset);
        r.push(input[position]);
        i = i + 1;
    }
    r
}

/// Every index moved by `offset`.
pub fn offset_values(indices: &[usize], offset: isize) -> (r: Vec<usize>)
    requires
        forall|i: int|
            0 <= i < indices.len() ==> 0 <= #[trigger] indices@[i] + offset <= isize::MAX,
    ensures
        r.len() == indices.len(),
        forall|i: int| 0 <= i < indices.len() ==> #[trigger] r@[i] == indices@[i] + offset,
{
    let mut r: Vec<usize> = Vec::new();
    let mut i: usize = 0;
    while i < indices.len()
        invariant
            i <= indices.len(),
            r.len() == i,
            forall|j: int|
                0 <= j < indices.len() ==> 0 <= #[trigger] indices@[j] + offset <= isize::MAX,
            forall|j: int| 0 <= j < i ==> #[trigger] r@[j] == indices@[j] + offset,
        decreases indices.len() - i,
    {
        let value = shift_index(indices[i], offset);
        r.push(value);
        i = i + 1;
    }
    r
}

/// The taps at even positions: `filter[0], filter[2], ...`.
fn even_taps<T: Copy>(filter: &[T]) -> (r: Vec<T>)
    ensures
        r@ == even_part(filter@),
{
    let count = if filter.len() % 2 == 0 {
        filter.len() / 2
    } else {
        filter.len() / 2 + 1
    };
    let mut r: Vec<T> = Vec::new();
    let mut k: usize = 0;
    while k < count
        invariant
            count == (filter.len() + 1) / 2,
            k <= count,
            r.len() == k,
            forall|j: int| 0 <= j < r.len() ==> #[trigger] r@[j] == filter@[2 * j],
        decreases count - k,
    {
        r.push(filter[2 * k]);
        k = k + 1;
    }
    assert(r@ =~= even_part(filter@));
    r
}

/// The taps at odd positions: `filter[1], filter[3], ...`.
fn odd_taps<T: Copy>(filter: &[T]) -> (r: Vec<T>)
    ensures
        r@ == odd_part(filter@),
{
    let count = filter.len() / 2;
    let mut r: Vec<T> = Vec::new();
    let mut k: usize = 0;
    while k < count
        invariant
            count == filter.len() / 2,
            k <= count,
            r.len() == k,
            forall|j: int| 0 <= j < r.len() ==> #[trigger] r@[j] == filter@[2 * j + 1],
        decreases count - k,
    {
        r.push(filter[2 * k + 1]);
        k = k + 1;
    }
    assert(r@ =~= odd_part(filter@));
    r
}

/// `left[0] * right[0] + left[1] * right[1] + ...` over the shorter length,
/// summed left to right from zero.
pub open spec fn dot_sum<T: Sample>(left: Seq<T>, right: Seq<T>, count: nat) -> T
    decreases count,
{
    if count == 0 {
        zero::<T>()
    } else {
        let t = count - 1;
        plus(dot_sum(left, right, t as nat), times(left[t], right[t]))
    }
}

fn dot<T: Sample>(left: &[T], right: &[T]) -> (r: T)
    requires
        total_arithmetic::<T>(),
    ensures
        exact_arithmetic::<T>() ==> r == dot_sum(
            left@,
            right@,
            if left.len() <= right.len() {
                left.len() as nat
            } else {
                right.len() as nat
            },
        ),
{
    let n = if left.len() <= right.len() {
        left.len()
    } else {
        right.len()
    };
    let mut acc = zero_value::<T>();
    let mut i: usize = 0;
    while i < n
        invariant
            total_arithmetic::<T>(),
            n <= left.len(),
            n <= right.len(),
            i <= n,
            exact_arithmetic::<T>() ==> acc == dot_sum(left@, right@, i as nat),
        decreases n - i,
    {
        let term = left[i] * right[i];
        acc = acc + term;
        i = i + 1;
    }
    acc
}

/// Elementwise sums over the shorter length.
fn add_plain<T: Sample>(left: &[T], right: &[T]) -> (r: Vec<T>)
    requires
        total_arithmetic::<T>(),
    ensures
        r.len() == (if left.len() <= right.len() {
            left.len()
        } else {
            right.len()
        }),
        exact_arithmetic::<T>() ==> r@ == pointwise_sum(left@, right@),
{
    let n = if left.len() <= right.len() {
        left.len()
    } else {
        right.len()
    };
    let mut r: Vec<T> = Vec::new();
    let mut i: usize = 0;
    while i < n
        invariant
            total_arithmetic::<T>(),
            n <= left.len(),
            n <= right.len(),
            i <= n,
            r.len() == i,
            exact_arithmetic::<T>() ==> forall|j: int|
                0 <= j < i ==> #[trigger] r@[j] == plus(left@[j], right@[j]),
        decreases n - i,
    {
        let value = left[i] + right[i];
        r.push(value);
        i = i + 1;
    }
    proof {
        if exact_arithmetic::<T>() {
            assert(r@ =~= pointwise_sum(left@, right@));
        }
    }
    r
}

/// Elementwise sums of two equally long signals; refused for unequal lengths.
fn add_vectors<T: Sample>(left: &[T], right: &[T]) -> (r: Result<Vec<T>, TransformError>)
    requires
        total_arithmetic::<T>(),
    ensures
        left.len() != right.len() ==> r == Err::<Vec<T>, TransformError>(
            TransformError::InvalidCoefficientTree,
        ),
        left.len() == right.len() ==> r is Ok,
        r matches Ok(v) ==> {
            &&& v.len() == left.len()
            &&& exact_arithmetic::<T>() ==> v@ == pointwise_sum(left@, right@)
        },
{
    if left.len() != right.len() {
        return Err(TransformError::InvalidCoefficientTree);
    }
    Ok(add_plain(left, right))
}

/// The signal without its first and last samples.
fn trim_ends<T: Copy>(input: &[T]) -> (r: Vec<T>)
    requires
        input.len() >= 2,
    ensures
        r@ == input@.subrange(1, input.len() - 1),
{
    let mut output: Vec<T> = Vec::new();
    let mut i: usize = 1;
    while i < input.len() - 1
        invariant
            1 <= i <= input.len() - 1,
            output@ == input@.subrange(1, i as int),
        decreases input.len() - 1 - i,
    {
        output.push(input[i]);
        i = i + 1;
        assert(output@ =~= input@.subrange(1, i as int));
    }
    output
}

/// The signal with its first and last samples repeated once at each end.
fn extend_once<T: Copy>(input: &[T]) -> (r: Vec<T>)
    requires
        input.len() > 0,
    ensures
        r@ == seq![input@[0]] + input@ + seq![input@[input.len() - 1]],
{
    let mut output: Vec<T> = Vec::new();
    output.push(input[0]);
    let mut i: usize = 0;
    while i < input.len()
        invariant
            i <= input.len(),
            output@ == seq![input@[0]] + input@.subrange(0, i as int),
        decreases input.len() - i,
    {
        output.push(input[i]);
        i = i + 1;
        assert(output@ =~= seq![input@[0]] + input@.subrange(0, i as int));
    }
    output.push(input[input.len() - 1]);
    assert(output@ =~= seq![input@[0]] + input@ + seq![input@[input.len() - 1]]);
    output
}

/// Consecutive pairs of samples read as complex numbers (a trailing odd
/// sample is dropped).
fn real_to_complex_quads<T: Copy>(input: &[T]) -> (r: Vec<ComplexSample<T>>)
    ensures
        r@ == complex_pairs(input@),
{
    let mut r: Vec<ComplexSample<T>> = Vec::new();
    let mut i: usize = 0;
    while i < input.len() / 2
        invariant
            i <= input.len() / 2,
            r.len() == i,
            forall|j: int|
                0 <= j < i ==> #[trigger] r@[j] == (ComplexSample {
                    re: input@[2 * j],
                    im: input@[2 * j + 1],
                }),
        decreases input.len() / 2 - i,
    {
        r.push(ComplexSample { re: input[2 * i], im: input[2 * i + 1] });
        i = i + 1;
    }
    assert(r@ =~= complex_pairs(input@));
    r
}

/// Complex numbers laid out as consecutive (real, imaginary) samples.
fn complex_quads_to_real<T: Copy>(input: &[ComplexSample<T>]) -> (r: Vec<T>)
    requires
        input.len() <= usize::MAX / 2,
    ensures
        r@ == pair_samples(input@),
{
    let mut r: Vec<T> = Vec::new();
    let mut i: usize = 0;
    while i < input.len()
        invariant
            i <= input.len() <= usize::MAX / 2,
            r.len() == 2 * i,
            forall|j: int|
                #![trigger input@[j]]
                0 <= j < i ==> r@[2 * j] == input@[j].re && r@[2 * j + 1] == input@[j].im,
        decreases input.len() - i,
    {
        r.push(input[i].re);
        r.push(input[i].im);
        i = i + 1;
    }
    assert forall|j: int| 0 <= j < 2 * input.len() implies #[trigger] r@[j] == pair_samples(
        input@,
    )[j] by {
        let h = j / 2;
        assert(input@[h] == input@[h]);
        assert(j == 2 * h || j == 2 * h + 1);
    }
    assert(r@ =~= pair_samples(input@));
    r
}

/// How many values `start, start + step, ...` lie below `end`.
pub open spec fn stepped_count(start: nat, end: nat, step: nat) -> nat {
    if start < end {
        ((end - start - 1) / (step as int) + 1) as nat
    } else {
        0
    }
}

/// `start, start + step, start + 2 step, ...` while below `end`.
fn stepped_range(start: usize, end: usize, step: usize) -> (r: Vec<usize>)
    requires
        step > 0,
        end + step <= usize::MAX,
    ensures
        r.len() == stepped_count(start as nat, end as nat, step as nat),
        forall|i: int| 0 <= i < r.len() ==> #[trigger] r@[i] == start + step * i,
{
    let mut r: Vec<usize> = Vec::new();
    let mut value = start;
    let ghost mut k: int = 0;
    assert(step * 0 == 0) by (nonlinear_arith);
    while value < end
        invariant
            step > 0,
            end + step <= usize::MAX,
            k == r.len(),
            value == start + step * k,
            start < end ==> value <= end - 1 + step,
            start >= end ==> r.len() == 0 && value == start,
            forall|i: int| 0 <= i < r.len() ==> #[trigger] r@[i] == start + step * i,
        decreases end + step - value,
    {
        r.push(value);
        value = value + step;
        proof {
            assert(step * (k + 1) == step * k + step) by (nonlinear_arith);
            k = k + 1;
        }
    }
    proof {
        if start < end {
            let k = r.len() as int;
            assert(start + step * k >= end);
            assert(start + step * (k - 1) < end) by {
                if k == 0 {
                } else {
                    assert(step * (k - 1) == step * k - step) by (nonlinear_arith);
                }
            }
            assert(k >= 1);
            let q = (end - start - 1) / (step as int);
            vstd::arithmetic::div_mod::lemma_fundamental_div_mod(end - start - 1, step as int);
            vstd::arithmetic::div_mod::lemma_mod_bound(end - start - 1, step as int);
            assert(k == q + 1) by (nonlinear_arith)
                requires
                    start + step * k >= end,
                    start + step * (k - 1) < end,
                    end - start - 1 == step * q + (end - start - 1) % (step as int),
                    0 <= (end - start - 1) % (step as int) < step,
                    step > 0,
            ;
        }
    }
    r
}

/// The half-sample symmetric extension of `x` by `before` samples in front
/// and `after` behind.
pub open spec fn extension_of<T>(x: Seq<T>, before: nat, after: nat) -> Seq<T> {
    Seq::new(
        before + x.len() + after,
        |e: int| x[symmetric_index(e - before, x.len() as int)],
    )
}

fn symmetric_extension<T: Copy>(input: &[T], before: usize, after: usize) -> (r: Vec<T>)
    requires
        input.len() > 0,
        before + input.len() + after <= isize::MAX,
    ensures
        r@ == extension_of(input@, before as nat, after as nat),
{
    let n = input.len();
    let total = before + n + after;
    let mut r: Vec<T> = Vec::new();
    let mut e: usize = 0;
    while e < total
        invariant
            n == input.len(),
            n > 0,
            total == before + n + after,
            total <= isize::MAX,
            e <= total,
            r.len() == e,
            forall|j: int|
                0 <= j < e ==> #[trigger] r@[j] == input@[symmetric_index(j - before, n as int)],
        decreases total - e,
    {
        let index = e as isize - before as isize;
        let source = reflect_index(index, n);
        r.push(input[source]);
        e = e + 1;
    }
    assert(r@ =~= extension_of(input@, before as nat, after as nat));
    r
}

/// `x` filtered with a centred filter `f`, after extending it symmetrically
/// by half the filter's length at each end.
pub open spec fn column_filter<T: Sample>(x: Seq<T>, f: Seq<T>) -> Seq<T> {
    centered_convolution(extension_of(x, f.len() / 2, f.len() / 2), f)
}

/// Filters every sample with a (normally odd-length, centred) filter, the
/// signal extended symmetrically by half the filter's length at each end.
pub fn colfilter<T: Sample>(input: &[T], filter: &[T]) -> (r: Vec<T>)
    requires
        total_arithmetic::<T>(),
        input.len() > 0,
        filter.len() > 0,
        input.len() + 2 * filter.len() <= isize::MAX,
    ensures
        r.len() == centered_len(
            (input.len() + 2 * (filter.len() / 2)) as nat,
            filter.len() as nat,
        ),
        filter.len() % 2 == 1 ==> r.len() == input.len(),
        exact_arithmetic::<T>() ==> r@ == column_filter(input@, filter@),
{
    let half = filter.len() / 2;
    let extension = symmetric_extension(input, half, half);
    column_convolve_centered(extension.as_slice(), filter)
}

/// The shorter of two lengths.
pub open spec fn shorter(a: nat, b: nat) -> nat {
    if a <= b {
        a
    } else {
        b
    }
}

/// `len` samples taken alternately from `a` and `b` (`a` first when `a_first`),
/// the `i`-th of each at positions `2 i` and `2 i + 1`.
pub open spec fn alternate<T>(a: Seq<T>, b: Seq<T>, a_first: bool, len: nat) -> Seq<T> {
    Seq::new(
        len,
        |i: int|
            if (i % 2 == 0) == a_first {
                a[i / 2]
            } else {
                b[i / 2]
            },
    )
}

/// The two trees' filters `ha` and `hb` agree in sign: their dot product is
/// positive.
pub open spec fn trees_aligned<T: Sample>(ha: Seq<T>, hb: Seq<T>) -> bool {
    is_positive(dot_sum(ha, hb, shorter(ha.len(), hb.len())))
}

/// One quarter-shift analysis level of `x`: extend it symmetrically by the
/// filter length `m` at each end; at the positions `t = 5, 9, 13, ...` below
/// `n + 2 m - 2`, tree a filters `ext[t - 1]` with the even taps of `ha` and
/// `ext[t - 3]` with its odd taps, tree b filters `ext[t]` with the even taps
/// of `hb` and `ext[t - 2]` with its odd taps; the two trees' outputs are
/// interleaved, tree a first when the filters agree in sign.
pub open spec fn qshift_analysis<T: Sample>(x: Seq<T>, ha: Seq<T>, hb: Seq<T>) -> Seq<T> {
    let n = x.len();
    let m = ha.len();
    let ext = extension_of(x, m, m);
    let count = stepped_count(5, (n + 2 * m - 2) as nat, 4);
    let ya = pointwise_sum(
        centered_convolution(stepped_pick(ext, 5, 4, count, -1), even_part(ha)),
        centered_convolution(stepped_pick(ext, 5, 4, count, -3), odd_part(ha)),
    );
    let yb = pointwise_sum(
        centered_convolution(stepped_pick(ext, 5, 4, count, 0), even_part(hb)),
        centered_convolution(stepped_pick(ext, 5, 4, count, -2), odd_part(hb)),
    );
    alternate(ya, yb, trees_aligned(ha, hb), n / 2)
}

/// One quarter-shift analysis level: the two trees' filters, split into even
/// and odd taps, are applied at every fourth position of the extended signal
/// and interleaved, halving the length. Refused unless the length is a
/// multiple of four and the filters are of one even length.
fn coldfilt<T: Sample>(input: &[T], ha: &[T], hb: &[T]) -> (r: Result<Vec<T>, TransformError>)
    requires
        total_arithmetic::<T>(),
        input.len() > 0,
        ha.len() > 0,
        input.len() + 2 * ha.len() + 4 <= isize::MAX,
    ensures
        (input.len() % 4 != 0 || ha.len() != hb.len() || ha.len() % 2 != 0) ==> r
            == Err::<Vec<T>, TransformError>(TransformError::InvalidCoefficientTree),
        !(input.len() % 4 != 0 || ha.len() != hb.len() || ha.len() % 2 != 0) ==> r is Ok,
        r matches Ok(v) ==> {
            &&& v.len() == input.len() / 2
            &&& exact_arithmetic::<T>() ==> v@ == qshift_analysis(input@, ha@, hb@)
        },
{
    if input.len() % 4 != 0 || ha.len() != hb.len() || ha.len() % 2 != 0 {
        return Err(TransformError::InvalidCoefficientTree);
    }
    let n = input.len();
    let m = ha.len();
    let extension = symmetric_extension(input, m, m);
    let hao = even_taps(ha);
    let hae = odd_taps(ha);
    let hbo = even_taps(hb);
    let hbe = odd_taps(hb);
    let product = dot(ha, hb);
    let z = zero_value::<T>();
    let dot_positive = product > z;
    let t = stepped_range(5, n + 2 * m - 2, 4);
    proof {
        let q = (n / 4) as int;
        let h = (m / 2) as int;
        assert(t.len() == q + h - 1);
        assert(forall|i: int| 0 <= i < t.len() ==> 5 <= #[trigger] t@[i] <= n + 2 * m - 3);
    }
    let a_odd = select_by_offsets(extension.as_slice(), t.as_slice(), -1);
    let a_even = select_by_offsets(extension.as_slice(), t.as_slice(), -3);
    let b_odd = select_by_offsets(extension.as_slice(), t.as_slice(), 0);
    let b_even = select_by_offsets(extension.as_slice(), t.as_slice(), -2);
    let ya = add_plain(
        column_convolve_centered(a_odd.as_slice(), hao.as_slice()).as_slice(),
        column_convolve_centered(a_even.as_slice(), hae.as_slice()).as_slice(),
    );
    let yb = add_plain(
        column_convolve_centered(b_odd.as_slice(), hbo.as_slice()).as_slice(),
        column_convolve_centered(b_even.as_slice(), hbe.as_slice()).as_slice(),
    );
    let ghost ext = extension_of(input@, m as nat, m as nat);
    let ghost count = t@.len();
    let ghost spec_ya = pointwise_sum(
        centered_convolution(stepped_pick(ext, 5, 4, count, -1), even_part(ha@)),
        centered_convolution(stepped_pick(ext, 5, 4, count, -3), odd_part(ha@)),
    );
    let ghost spec_yb = pointwise_sum(
        centered_convolution(stepped_pick(ext, 5, 4, count, 0), even_part(hb@)),
        centered_convolution(stepped_pick(ext, 5, 4, count, -2), odd_part(hb@)),
    );
    let ghost aligned = trees_aligned(ha@, hb@);
    proof {
        assert(a_odd@ =~= stepped_pick(ext, 5, 4, count, -1));
        assert(a_even@ =~= stepped_pick(ext, 5, 4, count, -3));
        assert(b_odd@ =~= stepped_pick(ext, 5, 4, count, 0));
        assert(b_even@ =~= stepped_pick(ext, 5, 4, count, -2));
        if exact_arithmetic::<T>() {
            assert(ya@ == spec_ya);
            assert(yb@ == spec_yb);
            assert(dot_positive == aligned);
        }
    }
    let mut output: Vec<T> = Vec::new();
    let mut pair: usize = 0;
    while pair < ya.len()
        invariant
            pair <= ya.len(),
            ya.len() == n / 4,
            yb.len() == n / 4,
            output.len() == 2 * pair,
            exact_arithmetic::<T>() ==> {
                &&& ya@ == spec_ya
                &&& yb@ == spec_yb
                &&& dot_positive == aligned
            },
            exact_arithmetic::<T>() ==> output@ == alternate(
                spec_ya,
                spec_yb,
                aligned,
                (2 * pair) as nat,
            ),
        decreases ya.len() - pair,
    {
        if dot_positive {
            output.push(ya[pair]);
            output.push(yb[pair]);
        } else {
            output.push(yb[pair]);
            output.push(ya[pair]);
        }
        pair = pair + 1;
        proof {
            if exact_arithmetic::<T>() {
                assert(output@ =~= alternate(spec_ya, spec_yb, aligned, (2 * pair) as nat));
            }
        }
    }
    Ok(output)
}

/// The four phases of one quarter-shift synthesis level of `x`, from the
/// symmetric extension of `x` by half the filter length `m / 2` at each end,
/// sampled every second position. When `m / 2` is even, the phases filter
/// (from tree b's positions, then tree a's) the samples two before each
/// position with the odd taps and those at each position with the even
/// taps; when it is odd, the samples at each position with the even taps,
/// then with the odd taps. Tree a's positions start one later than tree b's
/// when the filters agree in sign, one earlier otherwise.
pub open spec fn qshift_phases<T: Sample>(x: Seq<T>, ha: Seq<T>, hb: Seq<T>) -> Seq<Seq<T>> {
    let n = x.len();
    let half = ha.len() / 2;
    let ext = extension_of(x, half, half);
    let count = (n / 2 + half - 1) as nat;
    let aligned = trees_aligned(ha, hb);
    if half % 2 == 0 {
        let sa: int = if aligned {
            3
        } else {
            2
        };
        let sb: int = if aligned {
            2
        } else {
            3
        };
        seq![
            centered_convolution(stepped_pick(ext, sb, 2, count, -2), odd_part(ha)),
            centered_convolution(stepped_pick(ext, sa, 2, count, -2), odd_part(hb)),
            centered_convolution(stepped_pick(ext, sb, 2, count, 0), even_part(ha)),
            centered_convolution(stepped_pick(ext, sa, 2, count, 0), even_part(hb)),
        ]
    } else {
        let sa: int = if aligned {
            2
        } else {
            1
        };
        let sb: int = if aligned {
            1
        } else {
            2
        };
        seq![
            centered_convolution(stepped_pick(ext, sb, 2, count, 0), even_part(ha)),
            centered_convolution(stepped_pick(ext, sa, 2, count, 0), even_part(hb)),
            centered_convolution(stepped_pick(ext, sb, 2, count, 0), odd_part(ha)),
            centered_convolution(stepped_pick(ext, sa, 2, count, 0), odd_part(hb)),
        ]
    }
}

/// One quarter-shift synthesis level of `x`: its four phases interleaved,
/// sample `i` of the result being sample `i / 4` of phase `i % 4`.
pub open spec fn qshift_synthesis<T: Sample>(x: Seq<T>, ha: Seq<T>, hb: Seq<T>) -> Seq<T> {
    let y = qshift_phases(x, ha, hb);
    Seq::new(2 * x.len(), |i: int| y[i % 4][i / 4])
}

/// One quarter-shift synthesis level: the two trees' filters, split into even
/// and odd taps, are applied to the symmetrically extended signal and the four
/// results interleaved, doubling the length. Refused unless the length is even
/// and the filters are of one even length.
#[verifier::rlimit(40)]
fn colifilt<T: Sample>(input: &[T], ha: &[T], hb: &[T]) -> (r: Result<Vec<T>, TransformError>)
    requires
        total_arithmetic::<T>(),
        input.len() > 0,
        ha.len() > 0,
        input.len() + 2 * ha.len() + 4 <= isize::MAX,
    ensures
        (input.len() % 2 != 0 || ha.len() != hb.len() || ha.len() % 2 != 0) ==> r
            == Err::<Vec<T>, TransformError>(TransformError::InvalidCoefficientTree),
        !(input.len() % 2 != 0 || ha.len() != hb.len() || ha.len() % 2 != 0) ==> r is Ok,
        r matches Ok(v) ==> {
            &&& v.len() == 2 * input.len()
            &&& exact_arithmetic::<T>() ==> v@ == qshift_synthesis(input@, ha@, hb@)
        },
{
    if input.len() % 2 != 0 || ha.len() != hb.len() || ha.len() % 2 != 0 {
        return Err(TransformError::InvalidCoefficientTree);
    }
    let n = input.len();
    let m = ha.len();
    let half = m / 2;
    let extension = symmetric_extension(input, half, half);
    let hao = even_taps(ha);
    let hae = odd_taps(ha);
    let hbo = even_taps(hb);
    let hbe = odd_taps(hb);
    let product = dot(ha, hb);
    let z = zero_value::<T>();
    let dot_positive = product > z;
    let ghost p = (n / 2) as int;
    let ghost h = half as int;
    let ghost ext = extension@;
    let ghost count = (n / 2 + half - 1) as nat;
    let ghost phases = qshift_phases(input@, ha@, hb@);
    proof {
        if exact_arithmetic::<T>() {
            assert(dot_positive == trees_aligned(ha@, hb@));
        }
    }
    let y0: Vec<T>;
    let y1: Vec<T>;
    let y2: Vec<T>;
    let y3: Vec<T>;
    if half % 2 == 0 {
        let t = stepped_range(3, n + m, 2);
        proof {
            assert(t.len() == p + h - 1);
            assert(forall|i: int| 0 <= i < t.len() ==> 3 <= #[trigger] t@[i] <= n + m - 1);
        }
        let shifted = offset_values(t.as_slice(), -1);
        let (ta, tb) = if dot_positive {
            (copy_slice(t.as_slice()), shifted)
        } else {
            (shifted, copy_slice(t.as_slice()))
        };
        let ghost sa: int = if dot_positive {
            3
        } else {
            2
        };
        let ghost sb: int = if dot_positive {
            2
        } else {
            3
        };
        let b_back = select_by_offsets(extension.as_slice(), tb.as_slice(), -2);
        let a_back = select_by_offsets(extension.as_slice(), ta.as_slice(), -2);
        let b_here = select_by_offsets(extension.as_slice(), tb.as_slice(), 0);
        let a_here = select_by_offsets(extension.as_slice(), ta.as_slice(), 0);
        proof {
            assert(b_back@ =~= stepped_pick(ext, sb, 2, count, -2));
            assert(a_back@ =~= stepped_pick(ext, sa, 2, count, -2));
            assert(b_here@ =~= stepped_pick(ext, sb, 2, count, 0));
            assert(a_here@ =~= stepped_pick(ext, sa, 2, count, 0));
        }
        y0 = column_convolve_centered(b_back.as_slice(), hae.as_slice());
        y1 = column_convolve_centered(a_back.as_slice(), hbe.as_slice());
        y2 = column_convolve_centered(b_here.as_slice(), hao.as_slice());
        y3 = column_convolve_centered(a_here.as_slice(), hbo.as_slice());
    } else {
        let t = stepped_range(2, n + m - 1, 2);
        proof {
            assert(t.len() == p + h - 1);
            assert(forall|i: int| 0 <= i < t.len() ==> 2 <= #[trigger] t@[i] <= n + m - 2);
        }
        let shifted = offset_values(t.as_slice(), -1);
        let (ta, tb) = if dot_positive {
            (copy_slice(t.as_slice()), shifted)
        } else {
            (shifted, copy_slice(t.as_slice()))
        };
        let ghost sa: int = if dot_positive {
            2
        } else {
            1
        };
        let ghost sb: int = if dot_positive {
            1
        } else {
            2
        };
        let b_here = select_by_offsets(extension.as_slice(), tb.as_slice(), 0);
        let a_here = select_by_offsets(extension.as_slice(), ta.as_slice(), 0);
        proof {
            assert(b_here@ =~= stepped_pick(ext, sb, 2, count, 0));
            assert(a_here@ =~= stepped_pick(ext, sa, 2, count, 0));
        }
        y0 = column_convolve_centered(b_here.as_slice(), hao.as_slice());
        y1 = column_convolve_centered(a_here.as_slice(), hbo.as_slice());
        y2 = column_convolve_centered(b_here.as_slice(), hae.as_slice());
        y3 = column_convolve_centered(a_here.as_slice(), hbe.as_slice());
    }
    let output = interleave_four(y0.as_slice(), y1.as_slice(), y2.as_slice(), y3.as_slice());
    proof {
        if exact_arithmetic::<T>() {
            assert(seq![y0@, y1@, y2@, y3@] =~= phases);
            assert(output@ =~= qshift_synthesis(input@, ha@, hb@));
        }
    }
    Ok(output)
}

/// Four equally long signals interleaved: sample `i` of the result is sample
/// `i / 4` of signal `i % 4`.
fn interleave_four<T: Copy>(y0: &[T], y1: &[T], y2: &[T], y3: &[T]) -> (r: Vec<T>)
    requires
        y1.len() == y0.len(),
        y2.len() == y0.len(),
        y3.len() == y0.len(),
        4 * y0.len() <= usize::MAX,
    ensures
        r@ == Seq::new(4 * y0.len() as nat, |i: int| seq![y0@, y1@, y2@, y3@][i % 4][i / 4]),
{
    let ghost y = seq![y0@, y1@, y2@, y3@];
    let mut output: Vec<T> = Vec::new();
    let mut idx: usize = 0;
    while idx < y0.len()
        invariant
            y == seq![y0@, y1@, y2@, y3@],
            y1.len() == y0.len(),
            y2.len() == y0.len(),
            y3.len() == y0.len(),
            idx <= y0.len(),
            output.len() == 4 * idx,
            forall|i: int| 0 <= i < 4 * idx ==> #[trigger] output@[i] == y[i % 4][i / 4],
        decreases y0.len() - idx,
    {
        output.push(y0[idx]);
        output.push(y1[idx]);
        output.push(y2[idx]);
        output.push(y3[idx]);
        proof {
            assert forall|i: int| 4 * idx <= i < 4 * idx + 4 implies #[trigger] output@[i]
                == y[i % 4][i / 4] by {
                let j = i - 4 * idx;
                assert(i % 4 == j && i / 4 == idx) by (nonlinear_arith)
                    requires
                        i == 4 * idx + j,
                        0 <= j < 4,
                ;
            }
        }
        idx = idx + 1;
    }
    assert(output@ =~= Seq::new(4 * y0.len() as nat, |i: int| y[i % 4][i / 4]));
    output
}

/// The filters of a dual-tree transform, as mathematical values: the
/// near-symmetric first-level pair (analysis `h0o`, `h1o`; synthesis `g0o`,
/// `g1o`) and the quarter-shift pairs of the later levels (trees a and b).
pub struct DtcwtFiltersModel<T> {
    pub h0o: Seq<T>,
    pub h1o: Seq<T>,
    pub g0o: Seq<T>,
    pub g1o: Seq<T>,
    pub h0a: Seq<T>,
    pub h0b: Seq<T>,
    pub h1a: Seq<T>,
    pub h1b: Seq<T>,
    pub g0a: Seq<T>,
    pub g0b: Seq<T>,
    pub g1a: Seq<T>,
    pub g1b: Seq<T>,
}

impl<T> DtcwtFiltersModel<T> {
    /// The first-level filters have odd lengths; the eight quarter-shift
    /// filters share one even length of at least two.
    pub open spec fn valid(self) -> bool {
        &&& self.h0o.len() % 2 == 1
        &&& self.h1o.len() % 2 == 1
        &&& self.g0o.len() % 2 == 1
        &&& self.g1o.len() % 2 == 1
        &&& self.h0a.len() >= 2
        &&& self.h0a.len() % 2 == 0
        &&& self.h0b.len() == self.h0a.len()
        &&& self.h1a.len() == self.h0a.len()
        &&& self.h1b.len() == self.h0a.len()
        &&& self.g0a.len() == self.h0a.len()
        &&& self.g0b.len() == self.h0a.len()
        &&& self.g1a.len() == self.h0a.len()
        &&& self.g1b.len() == self.h0a.len()
    }

    /// The length of the longest filter.
    pub open spec fn span(self) -> nat {
        let a = if self.h0o.len() >= self.h1o.len() {
            self.h0o.len()
        } else {
            self.h1o.len()
        };
        let b = if self.g0o.len() >= self.g1o.len() {
            self.g0o.len()
        } else {
            self.g1o.len()
        };
        let c = if a >= b {
            a
        } else {
            b
        };
        if c >= self.h0a.len() {
            c
        } else {
            self.h0a.len()
        }
    }
}

/// The filters of a dual-tree transform.
#[derive(Debug)]
pub struct DtcwtFilters<T> {
    h0o: Vec<T>,
    h1o: Vec<T>,
    g0o: Vec<T>,
    g1o: Vec<T>,
    h0a: Vec<T>,
    h0b: Vec<T>,
    h1a: Vec<T>,
    h1b: Vec<T>,
    g0a: Vec<T>,
    g0b: Vec<T>,
    g1a: Vec<T>,
    g1b: Vec<T>,
}

impl<T> View for DtcwtFilters<T> {
    type V = DtcwtFiltersModel<T>;

    closed spec fn view(&self) -> DtcwtFiltersModel<T> {
        DtcwtFiltersModel {
            h0o: self.h0o@,
            h1o: self.h1o@,
            g0o: self.g0o@,
            g1o: self.g1o@,
            h0a: self.h0a@,
            h0b: self.h0b@,
            h1a: self.h1a@,
            h1b: self.h1b@,
            g0a: self.g0a@,
            g0b: self.g0b@,
            g1a: self.g1a@,
            g1b: self.g1b@,
        }
    }
}

impl<T> DtcwtFilters<T> {
    #[verifier::type_invariant]
    spec fn lengths_fit(self) -> bool {
        self@.valid()
    }

    /// The filter set from its twelve filters; refused (as an invalid filter
    /// bank) unless the first-level filters have odd lengths and the
    /// quarter-shift filters share one even length of at least two.
    pub fn new(
        h0o: Vec<T>,
        h1o: Vec<T>,
        g0o: Vec<T>,
        g1o: Vec<T>,
        h0a: Vec<T>,
        h0b: Vec<T>,
        h1a: Vec<T>,
        h1b: Vec<T>,
        g0a: Vec<T>,
        g0b: Vec<T>,
        g1a: Vec<T>,
        g1b: Vec<T>,
    ) -> (r: Result<Self, TransformError>)
        ensures
            ({
                let model = DtcwtFiltersModel {
                    h0o: h0o@,
                    h1o: h1o@,
                    g0o: g0o@,
                    g1o: g1o@,
                    h0a: h0a@,
                    h0b: h0b@,
                    h1a: h1a@,
                    h1b: h1b@,
                    g0a: g0a@,
                    g0b: g0b@,
                    g1a: g1a@,
                    g1b: g1b@,
                };
                &&& model.valid() ==> (r matches Ok(f) && f@ == model)
                &&& !model.valid() ==> r == Err::<Self, TransformError>(
                    TransformError::InvalidWaveletFilterBank,
                )
            }),
    {
        let q = h0a.len();
        if h0o.len() % 2 == 1 && h1o.len() % 2 == 1 && g0o.len() % 2 == 1 && g1o.len() % 2 == 1
            && q >= 2 && q % 2 == 0 && h0b.len() == q && h1a.len() == q && h1b.len() == q
            && g0a.len() == q && g0b.len() == q && g1a.len() == q && g1b.len() == q {
            Ok(DtcwtFilters { h0o, h1o, g0o, g1o, h0a, h0b, h1a, h1b, g0a, g0b, g1a, g1b })
        } else {
            Err(TransformError::InvalidWaveletFilterBank)
        }
    }

    /// The model of these filters, which is always valid.
    fn parts(&self) -> (r: (
        &[T],
        &[T],
        &[T],
        &[T],
        &[T],
        &[T],
        &[T],
        &[T],
        &[T],
        &[T],
        &[T],
        &[T],
    ))
        ensures
            self@.valid(),
            r.0@ == self@.h0o,
            r.1@ == self@.h1o,
            r.2@ == self@.g0o,
            r.3@ == self@.g1o,
            r.4@ == self@.h0a,
            r.5@ == self@.h0b,
            r.6@ == self@.h1a,
            r.7@ == self@.h1b,
            r.8@ == self@.g0a,
            r.9@ == self@.g0b,
            r.10@ == self@.g1a,
            r.11@ == self@.g1b,
    {
        proof {
            use_type_invariant(self);
        }
        (
            self.h0o.as_slice(),
            self.h1o.as_slice(),
            self.g0o.as_slice(),
            self.g1o.as_slice(),
            self.h0a.as_slice(),
            self.h0b.as_slice(),
            self.h1a.as_slice(),
            self.h1b.as_slice(),
            self.g0a.as_slice(),
            self.g0b.as_slice(),
            self.g1a.as_slice(),
            self.g1b.as_slice(),
        )
    }
}

/// The complex detail coefficients of one level.
#[derive(Debug, PartialEq)]
pub struct DtcwtLevel<T> {
    pub detail: Vec<ComplexSample<T>>,
}

impl<T: Copy> Clone for DtcwtLevel<T> {
    fn clone(&self) -> (r: Self)
        ensures
            r.detail@ == self.detail@,
    {
        DtcwtLevel { detail: copy_slice(self.detail.as_slice()) }
    }
}

/// The length of the signal a dual-tree decomposition came from: the
/// lowpass's length when there are no levels, else twice the number of
/// first-level complex details.
pub open spec fn dtcwt_signal_len<T>(lowpass_len: nat, highpasses: Seq<DtcwtLevel<T>>) -> nat {
    if highpasses.len() == 0 {
        lowpass_len
    } else {
        (2 * highpasses[0].detail.len()) as nat
    }
}

/// The shape of a dual-tree decomposition of an `input_len`-sample signal over
/// `levels` levels: level `j` holds `input_len / 2^(j+1)` complex details, and
/// the lowpass keeps `input_len / 2^(levels-1)` samples (the whole input when
/// there are no levels).
pub open spec fn dtcwt_shape<T>(
    input_len: nat,
    levels: nat,
    lowpass_len: nat,
    highpasses: Seq<DtcwtLevel<T>>,
) -> bool {
    &&& highpasses.len() == levels
    &&& forall|j: int|
        0 <= j < levels ==> #[trigger] highpasses[j].detail.len() == input_len / two_pow(
            (j + 1) as nat,
        )
    &&& lowpass_len == (if levels == 0 {
        input_len
    } else {
        input_len / two_pow((levels - 1) as nat)
    })
}

/// What a dual-tree decomposition holds, as mathematical values.
pub struct DtcwtTreeModel<T> {
    pub lowpass: Seq<T>,
    pub highpasses: Seq<DtcwtLevel<T>>,
}

/// The coefficients of a dual-tree decomposition: the final lowpass and the
/// complex details of every level, finest first.
#[derive(Debug, PartialEq)]
pub struct DtcwtTree<T> {
    lowpass: Vec<T>,
    highpasses: Vec<DtcwtLevel<T>>,
}

impl<T> View for DtcwtTree<T> {
    type V = DtcwtTreeModel<T>;

    closed spec fn view(&self) -> DtcwtTreeModel<T> {
        DtcwtTreeModel { lowpass: self.lowpass@, highpasses: self.highpasses@ }
    }
}

impl<T> DtcwtTreeModel<T> {
    /// The length of the signal this decomposition came from.
    pub open spec fn signal_len(self) -> nat {
        dtcwt_signal_len(self.lowpass.len(), self.highpasses)
    }

    /// The shape that only a decomposition can have.
    pub open spec fn well_shaped(self) -> bool {
        &&& is_power_of_two(self.signal_len())
        &&& self.signal_len() <= usize::MAX
        &&& self.highpasses.len() <= log2(self.signal_len())
        &&& dtcwt_shape(
            self.signal_len(),
            self.highpasses.len(),
            self.lowpass.len(),
            self.highpasses,
        )
    }
}

impl<T> DtcwtTree<T> {
    #[verifier::type_invariant]
    spec fn shaped(self) -> bool {
        self@.well_shaped()
    }

    pub fn lowpass(&self) -> (r: &[T])
        ensures
            r@ == self@.lowpass,
            self@.well_shaped(),
    {
        proof {
            use_type_invariant(self);
        }
        self.lowpass.as_slice()
    }

    pub fn highpasses(&self) -> (r: &[DtcwtLevel<T>])
        ensures
            r@ == self@.highpasses,
            self@.well_shaped(),
    {
        proof {
            use_type_invariant(self);
        }
        self.highpasses.as_slice()
    }
}

impl<T: Sample> Clone for DtcwtTree<T> {
    fn clone(&self) -> (r: Self)
        ensures
            r@.lowpass == self@.lowpass,
            r@.highpasses.len() == self@.highpasses.len(),
            forall|j: int|
                0 <= j < self@.highpasses.len() ==> #[trigger] r@.highpasses[j].detail@
                    == self@.highpasses[j].detail@,
    {
        proof {
            use_type_invariant(self);
        }
        let mut highpasses: Vec<DtcwtLevel<T>> = Vec::new();
        let mut j: usize = 0;
        while j < self.highpasses.len()
            invariant
                j <= self.highpasses.len(),
                highpasses.len() == j,
                forall|i: int|
                    0 <= i < j ==> #[trigger] highpasses@[i].detail@
                        == self.highpasses@[i].detail@,
            decreases self.highpasses.len() - j,
        {
            highpasses.push(DtcwtLevel { detail: copy_slice(self.highpasses[j].detail.as_slice()) });
            j = j + 1;
        }
        proof {
            assert forall|i: int|
                0 <= i < self.highpasses.len() implies #[trigger] highpasses@[i].detail.len()
                == self.highpasses@[i].detail.len() by {
                assert(highpasses@[i].detail@ == self.highpasses@[i].detail@);
            }
        }
        DtcwtTree { lowpass: copy_slice(self.lowpass.as_slice()), highpasses }
    }
}

/// The lowpass after `level` levels (at least one) of the dual-tree
/// decomposition of `x`: the near-symmetric lowpass filter at level one, then
/// the quarter-shift analysis with tree b's lowpass filter first.
pub open spec fn dtcwt_lowpass<T: Sample>(x: Seq<T>, f: DtcwtFiltersModel<T>, level: nat) -> Seq<
    T,
>
    decreases level,
{
    if level <= 1 {
        column_filter(x, f.h0o)
    } else {
        qshift_analysis(dtcwt_lowpass(x, f, (level - 1) as nat), f.h0b, f.h0a)
    }
}

/// The complex details of level `j` (finest first) of the dual-tree
/// decomposition of `x`: the near-symmetric highpass of `x` at level zero,
/// later the quarter-shift highpass of the lowpass of the level above, read
/// in consecutive pairs.
pub open spec fn dtcwt_detail<T: Sample>(x: Seq<T>, f: DtcwtFiltersModel<T>, j: nat) -> Seq<
    ComplexSample<T>,
> {
    if j == 0 {
        complex_pairs(column_filter(x, f.h1o))
    } else {
        complex_pairs(qshift_analysis(dtcwt_lowpass(x, f, j), f.h1b, f.h1a))
    }
}

/// The lowpass that the synthesis of `tree` has reached at level `level`:
/// the stored lowpass at the coarsest level; below it, the lowpass and the
/// details of the level above through the quarter-shift synthesis filters
/// (tree b's first), summed.
pub open spec fn dtcwt_synthesis_lowpass<T: Sample>(
    tree: DtcwtTreeModel<T>,
    f: DtcwtFiltersModel<T>,
    level: nat,
) -> Seq<T>
    decreases tree.highpasses.len() - level,
{
    if level + 1 >= tree.highpasses.len() {
        tree.lowpass
    } else {
        pointwise_sum(
            qshift_synthesis(dtcwt_synthesis_lowpass(tree, f, level + 1), f.g0b, f.g0a),
            qshift_synthesis(pair_samples(tree.highpasses[level + 1int].detail@), f.g1b, f.g1a),
        )
    }
}

/// The signal rebuilt from a dual-tree decomposition of at least one level:
/// the finest lowpass and details through the near-symmetric synthesis
/// filters, summed.
pub open spec fn dtcwt_synthesis<T: Sample>(tree: DtcwtTreeModel<T>, f: DtcwtFiltersModel<T>) -> Seq<
    T,
> {
    pointwise_sum(
        column_filter(dtcwt_synthesis_lowpass(tree, f, 0), f.g0o),
        column_filter(pair_samples(tree.highpasses[0].detail@), f.g1o),
    )
}

/// A dual-tree complex wavelet transform of a given number of levels.
#[derive(Clone, Debug)]
pub struct DualTreeComplexWaveletTransform {
    levels: usize,
}

impl DualTreeComplexWaveletTransform {
    pub closed spec fn depth(&self) -> nat {
        self.levels as nat
    }

    pub fn new(levels: usize) -> (r: Self)
        ensures
            r.depth() == levels,
    {
        DualTreeComplexWaveletTransform { levels }
    }

    pub fn levels(&self) -> (r: usize)
        ensures
            r == self.depth(),
    {
        self.levels
    }

    /// Decomposes `input` over `levels` levels: the near-symmetric filters at
    /// level one (no down-sampling), then quarter-shift levels that halve the
    /// lowpass; each level's highpass is read as complex details. Refused when
    /// the input's length is not a power of two of at least 2^levels.
    pub fn decompose<T: Sample>(&self, input: &[T], filters: &DtcwtFilters<T>) -> (r: Result<
        DtcwtTree<T>,
        TransformError,
    >)
        requires
            total_arithmetic::<T>(),
            input.len() + 2 * filters@.span() + 4 <= isize::MAX,
        ensures
            power_of_two_check(input.len(), self.depth() as usize) matches Err(e) ==> r == Err::<
                DtcwtTree<T>,
                TransformError,
            >(e),
            power_of_two_check(input.len(), self.depth() as usize) is Ok ==> r is Ok,
            r matches Ok(tree) ==> {
                &&& tree@.signal_len() == input.len()
                &&& dtcwt_shape(
                    input.len() as nat,
                    self.depth(),
                    tree@.lowpass.len(),
                    tree@.highpasses,
                )
                &&& self.depth() == 0 ==> tree@.lowpass == input@
                &&& exact_arithmetic::<T>() && self.depth() > 0 ==> tree@.lowpass == dtcwt_lowpass(
                    input@,
                    filters@,
                    self.depth(),
                )
                &&& exact_arithmetic::<T>() ==> forall|j: int|
                    0 <= j < self.depth() ==> #[trigger] tree@.highpasses[j].detail@
                        == dtcwt_detail(input@, filters@, j as nat)
            },
    {
        let max_levels = validate_power_of_two(input.len(), self.levels)?;
        let ghost n = input.len() as nat;
        proof {
            lemma_log2_below_bits(n);
        }
        if self.levels == 0 {
            let tree = DtcwtTree { lowpass: copy_slice(input), highpasses: Vec::new() };
            return Ok(tree);
        }
        let (h0o, h1o, _g0o, _g1o, h0a, h0b, h1a, h1b, _g0a, _g0b, _g1a, _g1b) = filters.parts();
        let hi = colfilter(input, h1o);
        let mut lo = colfilter(input, h0o);
        let mut highpasses: Vec<DtcwtLevel<T>> = Vec::new();
        highpasses.push(DtcwtLevel { detail: real_to_complex_quads(hi.as_slice()) });
        proof {
            lemma_two_pow_div(max_levels as nat, 0);
            lemma_two_pow_div(max_levels as nat, 1);
            assert(two_pow(0) == 1);
        }
        let mut level: usize = 1;
        while level < self.levels
            invariant
                total_arithmetic::<T>(),
                1 <= level <= self.levels <= max_levels,
                two_pow(max_levels as nat) == n,
                n == input.len(),
                n + 2 * filters@.span() + 4 <= isize::MAX,
                filters@.valid(),
                h0a@ == filters@.h0a,
                h0b@ == filters@.h0b,
                h1a@ == filters@.h1a,
                h1b@ == filters@.h1b,
                lo.len() == two_pow((max_levels - level + 1) as nat),
                highpasses.len() == level,
                forall|j: int|
                    0 <= j < level ==> #[trigger] highpasses@[j].detail.len() == two_pow(
                        (max_levels - j - 1) as nat,
                    ),
                exact_arithmetic::<T>() ==> lo@ == dtcwt_lowpass(input@, filters@, level as nat),
                exact_arithmetic::<T>() ==> forall|j: int|
                    0 <= j < level ==> #[trigger] highpasses@[j].detail@ == dtcwt_detail(
                        input@,
                        filters@,
                        j as nat,
                    ),
            decreases self.levels - level,
        {
            proof {
                let e = (max_levels - level + 1) as nat;
                assert(two_pow(e) == 2 * two_pow((e - 1) as nat));
                assert(two_pow((e - 1) as nat) == 2 * two_pow((e - 2) as nat));
                lemma_two_pow_monotonic(e, max_levels as nat);
                lemma_two_pow_positive((e - 2) as nat);
                lemma_two_pow_div(max_levels as nat, (level - 1) as nat);
                assert(lo.len() == 4 * two_pow((e - 2) as nat));
            }
            if lo.len() % 4 != 0 {
                lo = extend_once(lo.as_slice());
            }
            let hi = match coldfilt(lo.as_slice(), h1b, h1a) {
                Ok(v) => v,
                Err(e) => {
                    return Err(e);
                },
            };
            lo = match coldfilt(lo.as_slice(), h0b, h0a) {
                Ok(v) => v,
                Err(e) => {
                    return Err(e);
                },
            };
            highpasses.push(DtcwtLevel { detail: real_to_complex_quads(hi.as_slice()) });
            level = level + 1;
        }
        proof {
            assert forall|j: int|
                0 <= j < self.levels implies #[trigger] highpasses@[j].detail.len() == n / two_pow(
                (j + 1) as nat,
            ) by {
                lemma_two_pow_div(max_levels as nat, (j + 1) as nat);
            }
            lemma_two_pow_div(max_levels as nat, (self.levels - 1) as nat);
            lemma_two_pow_div(max_levels as nat, 1);
        }
        Ok(DtcwtTree { lowpass: lo, highpasses })
    }

    /// Rebuilds the signal from a decomposition: quarter-shift synthesis from
    /// the coarsest level down, then the near-symmetric synthesis filters.
    /// Refused (as an invalid coefficient tree) when the tree's number of levels
    /// differs from the transform's; any decomposition with as many levels is
    /// accepted and gives a signal of the decomposed length.
    pub fn reconstruct<T: Sample>(&self, tree: &DtcwtTree<T>, filters: &DtcwtFilters<T>) -> (r:
        Result<Vec<T>, TransformError>)
        requires
            total_arithmetic::<T>(),
            tree@.signal_len() + 2 * filters@.span() + 4 <= isize::MAX,
        ensures
            tree@.highpasses.len() != self.depth() ==> r == Err::<Vec<T>, TransformError>(
                TransformError::InvalidCoefficientTree,
            ),
            tree@.highpasses.len() == self.depth() ==> r is Ok,
            r matches Ok(v) ==> {
                &&& v.len() == tree@.signal_len()
                &&& self.depth() == 0 ==> v@ == tree@.lowpass
                &&& exact_arithmetic::<T>() && self.depth() > 0 ==> v@ == dtcwt_synthesis(
                    tree@,
                    filters@,
                )
            },
    {
        proof {
            use_type_invariant(tree);
        }
        let ghost n = tree@.signal_len();
        if tree.highpasses.len() != self.levels {
            return Err(TransformError::InvalidCoefficientTree);
        }
        if self.levels == 0 {
            let _ = validate_power_of_two(tree.lowpass.len(), 0)?;
            return Ok(copy_slice(tree.lowpass.as_slice()));
        }
        let ghost k = log2(n);
        proof {
            lemma_power_of_two_log2(n);
            assert forall|j: int|
                0 <= j < self.levels implies #[trigger] tree.highpasses@[j].detail.len() == two_pow(
                (k - j - 1) as nat,
            ) by {
                lemma_two_pow_div(k, (j + 1) as nat);
            }
            lemma_two_pow_div(k, (self.levels - 1) as nat);
        }
        let (_h0o, _h1o, g0o, g1o, _h0a, _h0b, _h1a, _h1b, g0a, g0b, g1a, g1b) = filters.parts();
        let mut lo = copy_slice(tree.lowpass.as_slice());
        let mut level: usize = self.levels - 1;
        while level > 0
            invariant
                total_arithmetic::<T>(),
                tree@.well_shaped(),
                n == tree@.signal_len(),
                two_pow(k) == n,
                tree.highpasses.len() == self.levels,
                0 < self.levels <= k,
                level < self.levels,
                n + 2 * filters@.span() + 4 <= isize::MAX,
                filters@.valid(),
                n <= usize::MAX,
                g0o@ == filters@.g0o,
                g1o@ == filters@.g1o,
                g0a@ == filters@.g0a,
                g0b@ == filters@.g0b,
                g1a@ == filters@.g1a,
                g1b@ == filters@.g1b,
                forall|j: int|
                    0 <= j < self.levels ==> #[trigger] tree.highpasses@[j].detail.len() == two_pow(
                        (k - j - 1) as nat,
                    ),
                lo.len() == two_pow((k - level) as nat),
                exact_arithmetic::<T>() ==> lo@ == dtcwt_synthesis_lowpass(
                    tree@,
                    filters@,
                    level as nat,
                ),
            decreases level,
        {
            proof {
                lemma_two_pow_monotonic((k - level) as nat, k);
                lemma_two_pow_monotonic((k - level - 1) as nat, k);
                assert(two_pow((k - level) as nat) == 2 * two_pow((k - level - 1) as nat));
                lemma_two_pow_positive((k - level - 1) as nat);
                assert(two_pow((k - level + 1) as nat) == 2 * two_pow((k - level) as nat));
                assert(tree.highpasses@[level as int].detail.len() == two_pow(
                    (k - level - 1) as nat,
                ));
                assert(tree.highpasses@[level - 1].detail.len() == two_pow((k - level) as nat));
            }
            let hi = complex_quads_to_real(tree.highpasses[level].detail.as_slice());
            if hi.len() != lo.len() {
                return Err(TransformError::InvalidCoefficientTree);
            }
            let a = colifilt(lo.as_slice(), g0b, g0a)?;
            let b = colifilt(hi.as_slice(), g1b, g1a)?;
            lo = add_vectors(a.as_slice(), b.as_slice())?;
            let previous_high_len = tree.highpasses[level - 1].detail.len() * 2;
            if lo.len() != previous_high_len {
                if lo.len() < 2 {
                    return Err(TransformError::InvalidCoefficientTree);
                }
                lo = trim_ends(lo.as_slice());
            }
            if lo.len() != previous_high_len {
                return Err(TransformError::InvalidCoefficientTree);
            }
            level = level - 1;
        }
        proof {
            assert(tree.highpasses@[0].detail.len() == two_pow((k - 0 - 1) as nat));
            assert(two_pow(k) == 2 * two_pow((k - 1) as nat));
        }
        let hi = complex_quads_to_real(tree.highpasses[0].detail.as_slice());
        if hi.len() != lo.len() {
            return Err(TransformError::InvalidCoefficientTree);
        }
        proof {
            assert(two_pow((k - 0) as nat) == n);
        }
        let low_part = colfilter(lo.as_slice(), g0o);
        let high_part = colfilter(hi.as_slice(), g1o);
        add_vectors(low_part.as_slice(), high_part.as_slice())
    }
}


/// Every level's complex details are the consecutive (real, imaginary) pairs
/// of one real highpass band, nothing else: at level zero the near-symmetric
/// highpass (`h1o`) of the signal; at each later level `j` the quarter-shift
/// highpass (tree b's `h1b` first, then `h1a`) of the level-`j` lowpass, the
/// very signal that the next lowpass step filters with `h0b` and `h0a`.
pub proof fn lemma_dtcwt_details_pair_highpass<T: Sample>(
    x: Seq<T>,
    f: DtcwtFiltersModel<T>,
    j: nat,
)
    ensures
        j == 0 ==> dtcwt_detail(x, f, j).len() == column_filter(x, f.h1o).len() / 2,
        j == 0 ==> forall|i: int|
            0 <= i < column_filter(x, f.h1o).len() / 2 ==> {
                &&& #[trigger] dtcwt_detail(x, f, j)[i].re == column_filter(x, f.h1o)[2 * i]
                &&& dtcwt_detail(x, f, j)[i].im == column_filter(x, f.h1o)[2 * i + 1]
            },
        j >= 1 ==> dtcwt_detail(x, f, j).len() == qshift_analysis(
            dtcwt_lowpass(x, f, j),
            f.h1b,
            f.h1a,
        ).len() / 2,
        j >= 1 ==> forall|i: int|
            0 <= i < qshift_analysis(dtcwt_lowpass(x, f, j), f.h1b, f.h1a).len() / 2 ==> {
                &&& #[trigger] dtcwt_detail(x, f, j)[i].re == qshift_analysis(
                    dtcwt_lowpass(x, f, j),
                    f.h1b,
                    f.h1a,
                )[2 * i]
                &&& dtcwt_detail(x, f, j)[i].im == qshift_analysis(
                    dtcwt_lowpass(x, f, j),
                    f.h1b,
                    f.h1a,
                )[2 * i + 1]
            },
        j >= 1 ==> dtcwt_lowpass(x, f, j + 1) == qshift_analysis(
            dtcwt_lowpass(x, f, j),
            f.h0b,
            f.h0a,
        ),
        dtcwt_lowpass(x, f, 1) == column_filter(x, f.h0o),
{
}

/// The decomposition reads only the analysis filters: two filter sets with
/// the same analysis filters give the same lowpass and the same details at
/// every level, whatever their synthesis filters.
pub proof fn lemma_dtcwt_analysis_filters_only<T: Sample>(
    x: Seq<T>,
    f: DtcwtFiltersModel<T>,
    g: DtcwtFiltersModel<T>,
    j: nat,
)
    requires
        f.h0o == g.h0o,
        f.h1o == g.h1o,
        f.h0a == g.h0a,
        f.h0b == g.h0b,
        f.h1a == g.h1a,
        f.h1b == g.h1b,
    ensures
        dtcwt_lowpass(x, f, j) == dtcwt_lowpass(x, g, j),
        dtcwt_detail(x, f, j) == dtcwt_detail(x, g, j),
    decreases j,
{
    if j > 1 {
        lemma_dtcwt_analysis_filters_only(x, f, g, (j - 1) as nat);
    }
}

/// Dual-tree reconstruction of any tree, modified or not, starts from the
/// stored lowpass at the coarsest level and works down: each quarter-shift
/// level sums the running lowpass through `g0b`, `g0a` and the level's details,
/// unpaired into consecutive real samples, through `g1b`, `g1a`; the finest
/// level sums the result through `g0o` and the first details through `g1o`.
pub proof fn lemma_dtcwt_synthesis_steps<T: Sample>(
    tree: DtcwtTreeModel<T>,
    f: DtcwtFiltersModel<T>,
    level: nat,
)
    ensures
        level + 1 >= tree.highpasses.len() ==> dtcwt_synthesis_lowpass(tree, f, level)
            == tree.lowpass,
        level + 1 < tree.highpasses.len() ==> dtcwt_synthesis_lowpass(tree, f, level)
            == pointwise_sum(
            qshift_synthesis(dtcwt_synthesis_lowpass(tree, f, level + 1), f.g0b, f.g0a),
            qshift_synthesis(pair_samples(tree.highpasses[level + 1int].detail@), f.g1b, f.g1a),
        ),
        dtcwt_synthesis(tree, f) == pointwise_sum(
            column_filter(dtcwt_synthesis_lowpass(tree, f, 0), f.g0o),
            column_filter(pair_samples(tree.highpasses[0].detail@), f.g1o),
        ),
{
}

/// Dual-tree reconstruction reads only the synthesis filters: two filter sets
/// with the same synthesis filters rebuild every tree identically, whatever
/// their analysis filters.
pub proof fn lemma_dtcwt_synthesis_filters_only<T: Sample>(
    tree: DtcwtTreeModel<T>,
    f: DtcwtFiltersModel<T>,
    g: DtcwtFiltersModel<T>,
    level: nat,
)
    requires
        f.g0o == g.g0o,
        f.g1o == g.g1o,
        f.g0a == g.g0a,
        f.g0b == g.g0b,
        f.g1a == g.g1a,
        f.g1b == g.g1b,
    ensures
        dtcwt_synthesis_lowpass(tree, f, level) == dtcwt_synthesis_lowpass(tree, g, level),
        dtcwt_synthesis(tree, f) == dtcwt_synthesis(tree, g),
{
    lemma_dtcwt_synthesis_lowpass_filters_only(tree, f, g, level);
    lemma_dtcwt_synthesis_lowpass_filters_only(tree, f, g, 0);
}

proof fn lemma_dtcwt_synthesis_lowpass_filters_only<T: Sample>(
    tree: DtcwtTreeModel<T>,
    f: DtcwtFiltersModel<T>,
    g: DtcwtFiltersModel<T>,
    level: nat,
)
    requires
        f.g0a == g.g0a,
        f.g0b == g.g0b,
        f.g1a == g.g1a,
        f.g1b == g.g1b,
    ensures
        dtcwt_synthesis_lowpass(tree, f, level) == dtcwt_synthesis_lowpass(tree, g, level),
    decreases tree.highpasses.len() - level,
{
    if level + 1 < tree.highpasses.len() {
        lemma_dtcwt_synthesis_lowpass_filters_only(tree, f, g, level + 1);
    }
}

/// A dual-tree decomposition is always accepted by a transform of the same
/// depth: the tree that `decompose` returns for an `input_len`-sample signal
/// has as many levels as the transform (so `reconstruct` returns `Ok`) and
/// records `input_len` as its signal length (the length `reconstruct` gives).
pub proof fn lemma_dtcwt_decomposition_reconstructible<T>(
    input_len: nat,
    levels: nat,
    tree: DtcwtTreeModel<T>,
)
    requires
        tree.signal_len() == input_len,
        dtcwt_shape(input_len, levels, tree.lowpass.len(), tree.highpasses),
    ensures
        tree.highpasses.len() == levels,
        tree.signal_len() == input_len,
{
}

} // verus!
