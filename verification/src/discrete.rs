//! Shared pieces of the discrete transforms: input validation, periodic
//! (circular) filtering with and without down/up-sampling, and symmetric
//! boundary extension.
use crate::math::{
    is_power_of_two, lemma_mod_step, lemma_power_of_two_log2, lemma_stride_step, log2, two_pow,
};
use crate::sample::{Sample, exact_arithmetic, plus, times, total_arithmetic, zero, zero_value};
use vstd::prelude::*;

verus! {

/// Why a discrete transform refused its input.
#[derive(Clone, Copy, Debug, PartialEq, Eq, Structural)]
pub enum TransformError {
    EmptyInput,
    NonPowerOfTwo { len: usize },
    LevelTooDeep { levels: usize, max_levels: usize },
    InvalidCoefficientTree,
    InvalidWaveletFilterBank,
}

/// The outcome of checking that a signal of `input_len` samples can be
/// decomposed over `levels` levels: it must be non-empty, a power of two, and
/// at least 2^levels long. On success, the number of levels the length allows.
pub open spec fn power_of_two_check(input_len: usize, levels: usize) -> Result<
    usize,
    TransformError,
> {
    if input_len == 0 {
        Err(TransformError::EmptyInput)
    } else if !is_power_of_two(input_len as nat) {
        Err(TransformError::NonPowerOfTwo { len: input_len })
    } else if levels > log2(input_len as nat) {
        Err(TransformError::LevelTooDeep { levels, max_levels: log2(input_len as nat) as usize })
    } else {
        Ok(log2(input_len as nat) as usize)
    }
}

/// Checks that `input_len` is a non-zero power of two that allows `levels`
/// levels, and returns log2 of it.
pub fn validate_power_of_two(input_len: usize, levels: usize) -> (r: Result<usize, TransformError>)
    ensures
        r == power_of_two_check(input_len, levels),
        r matches Ok(max_levels) ==> two_pow(max_levels as nat) == input_len && levels
            <= max_levels,
{
    if input_len == 0 {
        return Err(TransformError::EmptyInput);
    }
    let mut m = input_len;
    let mut k: usize = 0;
    while m % 2 == 0
        invariant
            0 < m <= input_len,
            k + m <= input_len,
            is_power_of_two(input_len as nat) == is_power_of_two(m as nat),
            is_power_of_two(m as nat) ==> log2(input_len as nat) == log2(m as nat) + k,
        decreases m,
    {
        m = m / 2;
        k = k + 1;
    }
    if m != 1 {
        return Err(TransformError::NonPowerOfTwo { len: input_len });
    }
    proof {
        lemma_power_of_two_log2(input_len as nat);
    }
    if levels > k {
        return Err(TransformError::LevelTooDeep { levels, max_levels: k });
    }
    Ok(k)
}

/// `(base + step) % len` computed without overflow.
pub fn wrap_add(base: usize, step: usize, len: usize) -> (r: usize)
    requires
        base < len,
    ensures
        r as int == (base as int + step as int) % (len as int),
        r < len,
{
    let s = step % len;
    proof {
        vstd::arithmetic::div_mod::lemma_add_mod_noop_right(base as int, step as int, len as int);
    }
    if base < len - s {
        proof {
            vstd::arithmetic::div_mod::lemma_small_mod((base + s) as nat, len as nat);
        }
        base + s
    } else {
        proof {
            vstd::arithmetic::div_mod::lemma_mod_sub_multiples_vanish(
                base as int + s as int,
                len as int,
            );
            vstd::arithmetic::div_mod::lemma_small_mod((base + s - len) as nat, len as nat);
        }
        base - (len - s)
    }
}

/// `(base - step)` reduced into `0..len` (Euclidean remainder), computed
/// without overflow.
pub fn wrap_sub(base: usize, step: usize, len: usize) -> (r: usize)
    requires
        base < len,
    ensures
        r as int == (base as int - step as int) % (len as int),
        r < len,
{
    let s = step % len;
    proof {
        vstd::arithmetic::div_mod::lemma_sub_mod_noop_right(base as int, step as int, len as int);
    }
    if base >= s {
        proof {
            vstd::arithmetic::div_mod::lemma_small_mod((base - s) as nat, len as nat);
        }
        base - s
    } else {
        proof {
            vstd::arithmetic::div_mod::lemma_mod_add_multiples_vanish(
                base as int - s as int,
                len as int,
            );
            vstd::arithmetic::div_mod::lemma_small_mod((base + len - s) as nat, len as nat);
        }
        base + (len - s)
    }
}

/// `filter[0] * x[start] + filter[1] * x[start + stride] + ...` over the first
/// `count` taps, with every sample index taken modulo `x.len()`, summed left to
/// right from zero.
pub open spec fn circular_dot<T: Sample>(
    x: Seq<T>,
    filter: Seq<T>,
    start: int,
    stride: int,
    count: nat,
) -> T
    decreases count,
{
    if count == 0 {
        zero::<T>()
    } else {
        let t = count - 1;
        plus(
            circular_dot(x, filter, start, stride, t as nat),
            times(filter[t], x[(start + t * stride) % (x.len() as int)]),
        )
    }
}

/// The periodic filter sum used by every output sample: `filter` applied to
/// `x` from `start` with the given stride.
fn circular_filter_at<T: Sample>(x: &[T], filter: &[T], start: usize, stride: usize) -> (r: T)
    requires
        total_arithmetic::<T>(),
        start < x.len(),
    ensures
        exact_arithmetic::<T>() ==> r == circular_dot(
            x@,
            filter@,
            start as int,
            stride as int,
            filter.len() as nat,
        ),
{
    let len = x.len();
    let mut acc = zero_value::<T>();
    let mut idx = start;
    let mut tap: usize = 0;
    proof {
        assert(start as int + 0 * stride as int == start as int);
        vstd::arithmetic::div_mod::lemma_small_mod(start as nat, len as nat);
    }
    while tap < filter.len()
        invariant
            total_arithmetic::<T>(),
            len == x.len(),
            tap <= filter.len(),
            idx < len,
            idx as int == (start as int + tap as int * stride as int) % (len as int),
            exact_arithmetic::<T>() ==> acc == circular_dot(
                x@,
                filter@,
                start as int,
                stride as int,
                tap as nat,
            ),
        decreases filter.len() - tap,
    {
        let term = filter[tap] * x[idx];
        acc = acc + term;
        proof {
            lemma_stride_step(start as int, tap as int, stride as int, len as int);
        }
        idx = wrap_add(idx, stride, len);
        tap = tap + 1;
    }
    acc
}

/// Periodic filtering without down-sampling: output sample `i` is `filter`
/// applied to `input` from `i`, taps `stride` samples apart.
pub fn circular_convolve_same<T: Sample>(input: &[T], filter: &[T], stride: usize) -> (r: Vec<T>)
    requires
        total_arithmetic::<T>(),
    ensures
        r.len() == input.len(),
        exact_arithmetic::<T>() ==> forall|i: int|
            0 <= i < input.len() ==> #[trigger] r@[i] == circular_dot(
                input@,
                filter@,
                i,
                stride as int,
                filter.len() as nat,
            ),
{
    let len = input.len();
    let mut output: Vec<T> = Vec::new();
    let mut sample: usize = 0;
    while sample < len
        invariant
            total_arithmetic::<T>(),
            len == input.len(),
            sample <= len,
            output.len() == sample,
            exact_arithmetic::<T>() ==> forall|i: int|
                0 <= i < sample ==> #[trigger] output@[i] == circular_dot(
                    input@,
                    filter@,
                    i,
                    stride as int,
                    filter.len() as nat,
                ),
        decreases len - sample,
    {
        let value = circular_filter_at(input, filter, sample, stride);
        output.push(value);
        sample = sample + 1;
    }
    output
}

/// One analysis step of a periodic two-channel filter bank: `low` and `high`
/// applied at every even position, giving approximation and detail halves.
pub fn circular_downsample<T: Sample>(input: &[T], low: &[T], high: &[T]) -> (r: (Vec<T>, Vec<T>))
    requires
        total_arithmetic::<T>(),
        low.len() == high.len(),
    ensures
        r.0.len() == input.len() / 2,
        r.1.len() == input.len() / 2,
        exact_arithmetic::<T>() ==> forall|o: int|
            0 <= o < input.len() / 2 ==> #[trigger] r.0@[o] == circular_dot(
                input@,
                low@,
                2 * o,
                1,
                low.len() as nat,
            ),
        exact_arithmetic::<T>() ==> forall|o: int|
            0 <= o < input.len() / 2 ==> #[trigger] r.1@[o] == circular_dot(
                input@,
                high@,
                2 * o,
                1,
                high.len() as nat,
            ),
{
    let len = input.len();
    let out_len = len / 2;
    let mut approx: Vec<T> = Vec::new();
    let mut detail: Vec<T> = Vec::new();
    let mut out: usize = 0;
    while out < out_len
        invariant
            total_arithmetic::<T>(),
            len == input.len(),
            out_len == len / 2,
            low.len() == high.len(),
            out <= out_len,
            approx.len() == out,
            detail.len() == out,
            exact_arithmetic::<T>() ==> forall|o: int|
                0 <= o < out ==> #[trigger] approx@[o] == circular_dot(
                    input@,
                    low@,
                    2 * o,
                    1,
                    low.len() as nat,
                ),
            exact_arithmetic::<T>() ==> forall|o: int|
                0 <= o < out ==> #[trigger] detail@[o] == circular_dot(
                    input@,
                    high@,
                    2 * o,
                    1,
                    high.len() as nat,
                ),
        decreases out_len - out,
    {
        let a = circular_filter_at(input, low, 2 * out, 1);
        let d = circular_filter_at(input, high, 2 * out, 1);
        approx.push(a);
        detail.push(d);
        out = out + 1;
    }
    (approx, detail)
}

/// The value a synthesis step has accumulated into output sample `j` once it
/// has handled every (coefficient, tap) pair before `(i, tap)`, in the order
/// coefficient-major, tap-minor: each pair adds `low[tap] * a[i] + high[tap] * d[i]`
/// to sample `(2 i + tap) mod 2 len(a)`.
pub open spec fn upsample_acc<T: Sample>(
    a: Seq<T>,
    d: Seq<T>,
    low: Seq<T>,
    high: Seq<T>,
    j: int,
    i: nat,
    tap: nat,
) -> T
    decreases i, tap,
{
    if tap == 0 {
        if i == 0 {
            zero::<T>()
        } else {
            upsample_acc(a, d, low, high, j, (i - 1) as nat, low.len())
        }
    } else {
        let t = tap - 1;
        let prev = upsample_acc(a, d, low, high, j, i, t as nat);
        if (2 * i + t) % (2 * a.len() as int) == j {
            plus(prev, plus(times(low[t], a[i as int]), times(high[t], d[i as int])))
        } else {
            prev
        }
    }
}

/// One synthesis step of a periodic two-channel filter bank: the approximation
/// and detail halves are up-sampled and filtered back into a signal twice as long.
pub fn circular_upsample<T: Sample>(approx: &[T], detail: &[T], low: &[T], high: &[T]) -> (r: Result<
    Vec<T>,
    TransformError,
>)
    requires
        total_arithmetic::<T>(),
        low.len() == high.len(),
        approx.len() <= usize::MAX / 2,
    ensures
        approx.len() != detail.len() ==> r == Err::<Vec<T>, TransformError>(
            TransformError::InvalidCoefficientTree,
        ),
        approx.len() == detail.len() ==> r is Ok,
        r matches Ok(v) ==> {
            &&& v.len() == 2 * approx.len()
            &&& exact_arithmetic::<T>() ==> forall|j: int|
                0 <= j < v.len() ==> #[trigger] v@[j] == upsample_acc(
                    approx@,
                    detail@,
                    low@,
                    high@,
                    j,
                    approx.len() as nat,
                    0,
                )
        },
{
    if approx.len() != detail.len() {
        return Err(TransformError::InvalidCoefficientTree);
    }
    let n = approx.len();
    let len = n * 2;
    let mut output: Vec<T> = Vec::new();
    while output.len() < len
        invariant
            output.len() <= len,
            len == 2 * approx.len(),
            exact_arithmetic::<T>() ==> forall|j: int|
                0 <= j < output.len() ==> #[trigger] output@[j] == zero::<T>(),
        decreases len - output.len(),
    {
        let z = zero_value::<T>();
        output.push(z);
    }
    let mut i: usize = 0;
    while i < n
        invariant
            total_arithmetic::<T>(),
            n == approx.len(),
            n == detail.len(),
            len == 2 * n,
            low.len() == high.len(),
            i <= n,
            output.len() == len,
            exact_arithmetic::<T>() ==> forall|j: int|
                0 <= j < len ==> #[trigger] output@[j] == upsample_acc(
                    approx@,
                    detail@,
                    low@,
                    high@,
                    j,
                    i as nat,
                    0,
                ),
        decreases n - i,
    {
        let mut tap: usize = 0;
        let mut idx = 2 * i;
        proof {
            vstd::arithmetic::div_mod::lemma_small_mod((2 * i) as nat, len as nat);
        }
        while tap < low.len()
            invariant
                total_arithmetic::<T>(),
                n == approx.len(),
                n == detail.len(),
                len == 2 * n,
                low.len() == high.len(),
                i < n,
                tap <= low.len(),
                idx < len,
                idx as int == (2 * i as int + tap as int) % (len as int),
                output.len() == len,
                exact_arithmetic::<T>() ==> forall|j: int|
                    0 <= j < len ==> #[trigger] output@[j] == upsample_acc(
                        approx@,
                        detail@,
                        low@,
                        high@,
                        j,
                        i as nat,
                        tap as nat,
                    ),
            decreases low.len() - tap,
        {
            let term = low[tap] * approx[i] + high[tap] * detail[i];
            let updated = output[idx] + term;
            output.set(idx, updated);
            proof {
                lemma_mod_step(2 * i as int + tap as int, 1, len as int);
            }
            idx = wrap_add(idx, 1, len);
            tap = tap + 1;
        }
        i = i + 1;
    }
    Ok(output)
}

/// Half-sample symmetric extension of a signal of `len` samples: the sample
/// that position `i` (possibly outside `0..len`) mirrors to.
pub open spec fn symmetric_index(i: int, len: int) -> int {
    let p = i % (2 * len);
    if p < len {
        p
    } else {
        2 * len - 1 - p
    }
}

proof fn lemma_symmetric_mirror(v: int, w: int, k: int, len: int)
    requires
        len > 0,
        w == 2 * len * k - 1 - v,
    ensures
        symmetric_index(w, len) == symmetric_index(v, len),
{
    let m = 2 * len;
    let p = v % m;
    let q = v / m;
    vstd::arithmetic::div_mod::lemma_fundamental_div_mod(v, m);
    vstd::arithmetic::div_mod::lemma_mod_bound(v, m);
    assert(w == m * (k - q - 1) + (m - 1 - p)) by (nonlinear_arith)
        requires
            v == m * q + p,
            w == m * k - 1 - v,
    ;
    vstd::arithmetic::div_mod::lemma_mod_multiples_vanish(k - q - 1, m - 1 - p, m);
    vstd::arithmetic::div_mod::lemma_small_mod((m - 1 - p) as nat, m as nat);
}

/// Where position `index` of the half-sample symmetric extension of a signal of
/// `len` samples reads from: positions are reflected about -1/2 and
/// `len - 1/2` until they fall inside the signal.
pub fn reflect_index(index: isize, len: usize) -> (r: usize)
    requires
        0 < len <= isize::MAX,
    ensures
        r < len,
        r as int == symmetric_index(index as int, len as int),
{
    let l = len as isize;
    let mut v = index;
    loop
        invariant
            l == len,
            0 < len <= isize::MAX,
            symmetric_index(v as int, len as int) == symmetric_index(index as int, len as int),
        decreases (if v < 0 {
            -v
        } else {
            v as int
        }),
    {
        if v < 0 {
            proof {
                lemma_symmetric_mirror(v as int, -1 - v as int, 0, len as int);
            }
            v = -1 - v;
        } else if v >= l {
            let d = v - l;
            proof {
                lemma_symmetric_mirror(v as int, (l - 1) as int - d as int, 1, len as int);
            }
            v = (l - 1) - d;
        } else {
            proof {
                vstd::arithmetic::div_mod::lemma_small_mod(v as nat, (2 * len) as nat);
            }
            return v as usize;
        }
    }
}

} // verus!
