//! Discrete wavelet names and two-channel filter banks.
use crate::discrete::TransformError;
use crate::field::{
    field_laws, lemma_negated_negated, lemma_plus_comm, lemma_times_comm, lemma_times_negated,
    lemma_zero_plus, one,
};
use crate::sums::{
    lemma_negation_of_zero, lemma_sum_add, lemma_sum_congruent, lemma_sum_negate,
    lemma_sum_reverse, lemma_sum_shift, lemma_sum_widen, sum,
};
use crate::sample::{
    Sample, all_finite, all_finite_values, copy_slice, exact_arithmetic, negated, plus, times,
    total_arithmetic, zero,
};
use std::ops::Neg;
use vstd::prelude::*;
use vstd::string::StringExecFns;

verus! {

/// A built-in discrete wavelet family, with its order where it has one.
#[derive(Clone, Copy, Debug, PartialEq, Eq, Structural)]
pub enum DiscreteWavelet {
    Haar,
    Daubechies(usize),
    Symlet(usize),
}

/// The decimal digit `d` (for `d < 10`).
pub open spec fn digit_char(d: nat) -> char {
    seq!['0', '1', '2', '3', '4', '5', '6', '7', '8', '9'][d as int]
}

/// The decimal representation of `n`, most significant digit first, without
/// leading zeros.
pub open spec fn decimal(n: nat) -> Seq<char>
    decreases n,
{
    if n < 10 {
        seq![digit_char(n)]
    } else {
        decimal(n / 10).push(digit_char(n % 10))
    }
}

/// The conventional short name of a wavelet: `haar`, `db<order>`, `sym<order>`.
pub open spec fn wavelet_name(w: DiscreteWavelet) -> Seq<char> {
    match w {
        DiscreteWavelet::Haar => "haar"@,
        DiscreteWavelet::Daubechies(n) => "db"@ + decimal(n as nat),
        DiscreteWavelet::Symlet(n) => "sym"@ + decimal(n as nat),
    }
}

fn digit_str(d: usize) -> (r: &'static str)
    requires
        d < 10,
    ensures
        r@ == seq![digit_char(d as nat)],
{
    proof {
        reveal_strlit("0");
        reveal_strlit("1");
        reveal_strlit("2");
        reveal_strlit("3");
        reveal_strlit("4");
        reveal_strlit("5");
        reveal_strlit("6");
        reveal_strlit("7");
        reveal_strlit("8");
        reveal_strlit("9");
    }
    let r = if d == 0 {
        "0"
    } else if d == 1 {
        "1"
    } else if d == 2 {
        "2"
    } else if d == 3 {
        "3"
    } else if d == 4 {
        "4"
    } else if d == 5 {
        "5"
    } else if d == 6 {
        "6"
    } else if d == 7 {
        "7"
    } else if d == 8 {
        "8"
    } else {
        "9"
    };
    assert(r@ =~= seq![digit_char(d as nat)]);
    r
}

fn push_decimal(s: &mut String, n: usize)
    ensures
        final(s)@ == old(s)@ + decimal(n as nat),
    decreases n,
{
    if n >= 10 {
        push_decimal(s, n / 10);
    }
    let ghost before = s@;
    s.append(digit_str(n % 10));
    proof {
        if n >= 10 {
            assert(s@ =~= old(s)@ + decimal(n as nat));
        } else {
            assert(s@ =~= old(s)@ + decimal(n as nat));
        }
    }
}

/// The wavelets with a built-in filter: Haar, and the Daubechies and Symlet
/// wavelets of orders 2, 4, 6 and 8.
pub open spec fn supported_wavelet(w: DiscreteWavelet) -> bool {
    match w {
        DiscreteWavelet::Haar => true,
        DiscreteWavelet::Daubechies(n) => n == 2 || n == 4 || n == 6 || n == 8,
        DiscreteWavelet::Symlet(n) => n == 2 || n == 4 || n == 6 || n == 8,
    }
}

/// The number of vanishing moments of a wavelet: one for Haar, the order for
/// the Daubechies and Symlet wavelets.
pub open spec fn wavelet_order(w: DiscreteWavelet) -> nat {
    match w {
        DiscreteWavelet::Haar => 1,
        DiscreteWavelet::Daubechies(n) => n as nat,
        DiscreteWavelet::Symlet(n) => n as nat,
    }
}

impl DiscreteWavelet {
    /// The wavelet's short name, such as `haar`, `db4` or `sym8`.
    pub fn name(self) -> (r: String)
        ensures
            r@ == wavelet_name(self),
    {
        match self {
            DiscreteWavelet::Haar => String::from_str("haar"),
            DiscreteWavelet::Daubechies(n) => {
                let mut s = String::from_str("db");
                push_decimal(&mut s, n);
                s
            },
            DiscreteWavelet::Symlet(n) => {
                let mut s = String::from_str("sym");
                push_decimal(&mut s, n);
                s
            },
        }
    }
}

impl DiscreteWavelet {
    /// The wavelet's orthogonal filter bank, built from its low-pass filter
    /// `analysis_low`, named after the wavelet and with its order as the
    /// number of vanishing moments. Refused (as an invalid filter bank) for a
    /// wavelet without a built-in filter, and like `orthogonal` refuses the
    /// filter.
    pub fn filter_bank_from_lowpass<T: Sample>(self, analysis_low: &[T]) -> (r: Result<
        WaveletFilterBank<T>,
        TransformError,
    >)
        requires
            total_arithmetic::<T>(),
        ensures
            !supported_wavelet(self) ==> r == Err::<WaveletFilterBank<T>, TransformError>(
                TransformError::InvalidWaveletFilterBank,
            ),
            r is Err ==> r == Err::<WaveletFilterBank<T>, TransformError>(
                TransformError::InvalidWaveletFilterBank,
            ),
            supported_wavelet(self) && exact_arithmetic::<T>() ==> (r is Ok <==> {
                &&& analysis_low.len() > 0
                &&& all_finite_values(analysis_low@)
                &&& all_finite_values(qmf_of(analysis_low@))
            }),
            r matches Ok(bank) ==> supported_wavelet(self) && orthogonal_model(
                bank@,
                wavelet_name(self),
                wavelet_order(self),
                analysis_low@,
            ),
    {
        let order = match self {
            DiscreteWavelet::Haar => 1,
            DiscreteWavelet::Daubechies(n) => n,
            DiscreteWavelet::Symlet(n) => n,
        };
        let supported = match self {
            DiscreteWavelet::Haar => true,
            _ => order == 2 || order == 4 || order == 6 || order == 8,
        };
        if !supported {
            return Err(TransformError::InvalidWaveletFilterBank);
        }
        let name = self.name();
        WaveletFilterBank::orthogonal(name.as_str(), order, analysis_low)
    }
}

/// What a filter bank holds, as mathematical values.
pub struct FilterBankModel<T> {
    pub name: Seq<char>,
    pub vanishing_moments: nat,
    pub support_len: nat,
    pub analysis_low: Seq<T>,
    pub analysis_high: Seq<T>,
    pub synthesis_low: Seq<T>,
    pub synthesis_high: Seq<T>,
}

impl<T> FilterBankModel<T> {
    /// The four filters are non-empty and have the bank's support length.
    pub open spec fn well_formed(self) -> bool {
        &&& self.support_len > 0
        &&& self.analysis_low.len() == self.support_len
        &&& self.analysis_high.len() == self.support_len
        &&& self.synthesis_low.len() == self.support_len
        &&& self.synthesis_high.len() == self.support_len
    }
}

/// The analysis and synthesis filters of a two-channel wavelet filter bank.
#[derive(Debug, PartialEq)]
pub struct WaveletFilterBank<T> {
    name: String,
    vanishing_moments: usize,
    support_len: usize,
    analysis_low: Vec<T>,
    analysis_high: Vec<T>,
    synthesis_low: Vec<T>,
    synthesis_high: Vec<T>,
}

impl<T> View for WaveletFilterBank<T> {
    type V = FilterBankModel<T>;

    closed spec fn view(&self) -> FilterBankModel<T> {
        FilterBankModel {
            name: self.name@,
            vanishing_moments: self.vanishing_moments as nat,
            support_len: self.support_len as nat,
            analysis_low: self.analysis_low@,
            analysis_high: self.analysis_high@,
            synthesis_low: self.synthesis_low@,
            synthesis_high: self.synthesis_high@,
        }
    }
}

/// The quadrature-mirror high-pass filter of `low`: `low` reversed, with every
/// other coefficient (the odd positions of the result) negated.
pub open spec fn qmf_of<T: Sample>(low: Seq<T>) -> Seq<T> {
    Seq::new(
        low.len(),
        |i: int|
            if i % 2 == 0 {
                low[low.len() - 1 - i]
            } else {
                negated(low[low.len() - 1 - i])
            },
    )
}

/// The quadrature-mirror high-pass filter matching the low-pass filter `low`.
fn qmf_highpass<T: Sample>(low: &[T]) -> (r: Vec<T>)
    requires
        total_arithmetic::<T>(),
    ensures
        r.len() == low.len(),
        forall|i: int|
            0 <= i < low.len() && i % 2 == 0 ==> #[trigger] r@[i] == low@[low.len() - 1 - i],
        exact_arithmetic::<T>() ==> r@ == qmf_of(low@),
{
    let n = low.len();
    let mut r: Vec<T> = Vec::new();
    let mut index: usize = 0;
    while index < n
        invariant
            total_arithmetic::<T>(),
            n == low.len(),
            index <= n,
            r.len() == index,
            forall|i: int|
                0 <= i < index && i % 2 == 0 ==> #[trigger] r@[i] == low@[n - 1 - i],
            exact_arithmetic::<T>() ==> forall|i: int|
                0 <= i < index ==> #[trigger] r@[i] == qmf_of(low@)[i],
        decreases n - index,
    {
        let value = low[n - 1 - index];
        if index % 2 == 0 {
            r.push(value);
        } else {
            r.push(value.neg());
        }
        index = index + 1;
    }
    proof {
        if exact_arithmetic::<T>() {
            assert(r@ =~= qmf_of(low@));
        }
    }
    r
}

/// `bank` is the orthogonal filter bank named `name` with `vanishing_moments`
/// vanishing moments built from the low-pass filter `low`: both low-pass
/// filters are `low` and both high-pass filters are its quadrature mirror
/// (whose even positions are `low` reversed).
pub open spec fn orthogonal_model<T: Sample>(
    bank: FilterBankModel<T>,
    name: Seq<char>,
    vanishing_moments: nat,
    low: Seq<T>,
) -> bool {
    &&& bank.name == name
    &&& bank.vanishing_moments == vanishing_moments
    &&& bank.support_len == low.len()
    &&& bank.analysis_low == low
    &&& bank.synthesis_low == low
    &&& bank.analysis_high == bank.synthesis_high
    &&& bank.analysis_high.len() == low.len()
    &&& forall|i: int|
        0 <= i < low.len() && i % 2 == 0 ==> #[trigger] bank.analysis_high[i] == low[low.len() - 1
            - i]
    &&& exact_arithmetic::<T>() ==> bank.analysis_high == qmf_of(low)
}

/// The autocorrelation of `f` at lag `c`: `f[t] f[t + c]` summed over the
/// taps `t` for which both taps exist.
pub open spec fn autocorrelation<T: Sample>(f: Seq<T>, c: int) -> T {
    sum(
        |t: int|
            if 0 <= t + c < f.len() {
                times(f[t], f[t + c])
            } else {
                zero::<T>()
            },
        0,
        f.len() as int,
    )
}

/// `f` is orthonormal to its even shifts: its autocorrelation is one at lag
/// zero and zero at every other even lag. The low-pass filters of orthogonal
/// wavelets (Haar, Daubechies, Symlets) are.
pub open spec fn orthonormal<T: Sample>(f: Seq<T>) -> bool {
    forall|m: int|
        #[trigger] autocorrelation(f, 2 * m) == (if m == 0 {
            one::<T>()
        } else {
            zero::<T>()
        })
}

/// The quadrature mirror of a filter has the filter's autocorrelation at
/// even lags and its negation at odd lags.
pub proof fn lemma_qmf_autocorrelation<T: Sample>(low: Seq<T>, c: int)
    requires
        field_laws::<T>(),
    ensures
        autocorrelation(qmf_of(low), c) == (if c % 2 == 0 {
            autocorrelation(low, c)
        } else {
            negated(autocorrelation(low, c))
        }),
{
    let n = low.len() as int;
    let high = qmf_of(low);
    let odd = c % 2 != 0;
    let phi_h = |t: int|
        if 0 <= t + c < high.len() {
            times(high[t], high[t + c])
        } else {
            zero::<T>()
        };
    let psi = |t: int|
        if 0 <= t + c < n {
            times(low[n - 1 - t], low[n - 1 - t - c])
        } else {
            zero::<T>()
        };
    // Term by term, the mirror's products are the reversed filter's products,
    // negated at odd lags.
    lemma_negation_of_zero::<T>();
    assert forall|t: int| 0 <= t < n implies #[trigger] phi_h(t) == (if odd {
        negated(psi(t))
    } else {
        psi(t)
    }) by {
        if 0 <= t + c < n {
            let a = low[n - 1 - t];
            let b = low[n - 1 - t - c];
            lemma_times_negated(a, b);
            lemma_times_negated(b, a);
            lemma_times_comm(b, a);
            lemma_times_negated(negated(a), b);
            lemma_times_comm(negated(a), b);
            lemma_times_comm(negated(a), negated(b));
            lemma_negated_negated(times(a, b));
            assert((t % 2 == (t + c) % 2) == !odd);
        }
    }
    if odd {
        lemma_sum_congruent(phi_h, |t: int| negated(psi(t)), 0, n);
        lemma_sum_negate(psi, 0, n);
    } else {
        lemma_sum_congruent(phi_h, psi, 0, n);
    }
    // Reversed, the products are those of the autocorrelation, indexed by the
    // later tap; both sums range over the same non-zero terms.
    lemma_sum_reverse(psi, 0, n);
    let phi = |r: int|
        if 0 <= r < n && 0 <= r - c < n {
            times(low[r - c], low[r])
        } else {
            zero::<T>()
        };
    assert forall|r: int| 0 <= r < n implies #[trigger] psi(0 + n - 1 - r) == phi(r) by {
        lemma_times_comm(low[r], low[r - c]);
    }
    lemma_sum_congruent(|r: int| psi(0 + n - 1 - r), phi, 0, n);
    let auto = |t: int|
        if 0 <= t + c < n {
            times(low[t], low[t + c])
        } else {
            zero::<T>()
        };
    lemma_sum_shift(auto, 0, n, -c);
    lemma_sum_congruent(|x: int| auto(x + -c), phi, 0 - -c, n - -c);
    let wide_lo = if c < 0 {
        c
    } else {
        0
    };
    let wide_hi = if c > 0 {
        n + c
    } else {
        n
    };
    lemma_sum_widen(phi, 0, n, wide_lo, wide_hi);
    lemma_sum_widen(phi, c, n + c, wide_lo, wide_hi);
}

/// An orthogonal filter bank built from a low-pass filter of even length
/// orthonormal to its even shifts: the high-pass filter is its quadrature
/// mirror, and the synthesis filters are the analysis filters.
pub open spec fn orthonormal_bank<T: Sample>(bank: FilterBankModel<T>) -> bool {
    &&& bank.analysis_low.len() > 0
    &&& bank.analysis_low.len() % 2 == 0
    &&& orthonormal(bank.analysis_low)
    &&& bank.analysis_high == qmf_of(bank.analysis_low)
    &&& bank.synthesis_low == bank.analysis_low
    &&& bank.synthesis_high == bank.analysis_high
}

/// The part of the autocorrelation of `f` at lag `c` taken over the taps `t`
/// of parity `p`.
pub open spec fn parity_autocorrelation<T: Sample>(f: Seq<T>, c: int, p: int) -> T {
    sum(
        |t: int|
            if t % 2 == p && 0 <= t + c < f.len() {
                times(f[t], f[t + c])
            } else {
                zero::<T>()
            },
        0,
        f.len() as int,
    )
}

/// The autocorrelation is the sum of its even-tap and odd-tap parts.
pub proof fn lemma_autocorrelation_parts<T: Sample>(f: Seq<T>, c: int)
    requires
        field_laws::<T>(),
    ensures
        autocorrelation(f, c) == plus(
            parity_autocorrelation(f, c, 0),
            parity_autocorrelation(f, c, 1),
        ),
{
    let n = f.len() as int;
    let even = |t: int|
        if t % 2 == 0 && 0 <= t + c < f.len() {
            times(f[t], f[t + c])
        } else {
            zero::<T>()
        };
    let odd = |t: int|
        if t % 2 == 1 && 0 <= t + c < f.len() {
            times(f[t], f[t + c])
        } else {
            zero::<T>()
        };
    let all = |t: int|
        if 0 <= t + c < f.len() {
            times(f[t], f[t + c])
        } else {
            zero::<T>()
        };
    lemma_sum_add(even, odd, 0, n);
    assert forall|t: int| 0 <= t < n implies #[trigger] all(t) == plus(even(t), odd(t)) by {
        lemma_zero_plus(zero::<T>());
        if 0 <= t + c < n {
            lemma_zero_plus(times(f[t], f[t + c]));
            if t % 2 == 0 {
                lemma_plus_comm(times(f[t], f[t + c]), zero::<T>());
            }
        }
    }
    lemma_sum_congruent(all, |t: int| plus(even(t), odd(t)), 0, n);
}

/// The parity parts of the autocorrelation of the quadrature mirror of an
/// even-length filter: at an even lag, the filter's part of the other parity;
/// at an odd lag, the negation of the filter's part of the same parity.
pub proof fn lemma_qmf_parity_autocorrelation<T: Sample>(low: Seq<T>, c: int, p: int)
    requires
        field_laws::<T>(),
        low.len() % 2 == 0,
        p == 0 || p == 1,
    ensures
        parity_autocorrelation(qmf_of(low), c, p) == (if c % 2 == 0 {
            parity_autocorrelation(low, c, 1 - p)
        } else {
            negated(parity_autocorrelation(low, c, p))
        }),
{
    let n = low.len() as int;
    let high = qmf_of(low);
    let odd = c % 2 != 0;
    let q = if odd {
        p
    } else {
        1 - p
    };
    let phi_h = |t: int|
        if t % 2 == p && 0 <= t + c < high.len() {
            times(high[t], high[t + c])
        } else {
            zero::<T>()
        };
    let psi = |t: int|
        if t % 2 == p && 0 <= t + c < n {
            times(low[n - 1 - t], low[n - 1 - t - c])
        } else {
            zero::<T>()
        };
    lemma_negation_of_zero::<T>();
    assert forall|t: int| 0 <= t < n implies #[trigger] phi_h(t) == (if odd {
        negated(psi(t))
    } else {
        psi(t)
    }) by {
        if t % 2 == p && 0 <= t + c < n {
            let a = low[n - 1 - t];
            let b = low[n - 1 - t - c];
            lemma_times_negated(a, b);
            lemma_times_negated(b, a);
            lemma_times_comm(b, a);
            lemma_times_negated(negated(a), b);
            lemma_times_comm(negated(a), b);
            lemma_times_comm(negated(a), negated(b));
            lemma_negated_negated(times(a, b));
            assert((t % 2 == (t + c) % 2) == !odd);
        }
    }
    if odd {
        lemma_sum_congruent(phi_h, |t: int| negated(psi(t)), 0, n);
        lemma_sum_negate(psi, 0, n);
    } else {
        lemma_sum_congruent(phi_h, psi, 0, n);
    }
    lemma_sum_reverse(psi, 0, n);
    let phi = |r: int|
        if 0 <= r < n && 0 <= r - c < n && r % 2 == 1 - p {
            times(low[r - c], low[r])
        } else {
            zero::<T>()
        };
    assert forall|r: int| 0 <= r < n implies #[trigger] psi(0 + n - 1 - r) == phi(r) by {
        lemma_times_comm(low[r], low[r - c]);
        assert(((n - 1 - r) % 2 == p) == (r % 2 == 1 - p));
    }
    lemma_sum_congruent(|r: int| psi(0 + n - 1 - r), phi, 0, n);
    let part = |t: int|
        if t % 2 == q && 0 <= t + c < n {
            times(low[t], low[t + c])
        } else {
            zero::<T>()
        };
    lemma_sum_shift(part, 0, n, -c);
    assert forall|x: int| 0 - -c <= x < n - -c implies #[trigger] part(x + -c) == phi(x) by {
        assert(((x - c) % 2 == q) == (x % 2 == 1 - p));
    }
    lemma_sum_congruent(|x: int| part(x + -c), phi, 0 - -c, n - -c);
    let wide_lo = if c < 0 {
        c
    } else {
        0
    };
    let wide_hi = if c > 0 {
        n + c
    } else {
        n
    };
    lemma_sum_widen(phi, 0, n, wide_lo, wide_hi);
    lemma_sum_widen(phi, c, n + c, wide_lo, wide_hi);
}

/// An orthogonal filter bank (as `orthogonal` builds it) from an even-length
/// low-pass filter orthonormal to its even shifts is an orthonormal bank.
pub proof fn lemma_orthogonal_bank_orthonormal<T: Sample>(
    bank: FilterBankModel<T>,
    name: Seq<char>,
    vanishing_moments: nat,
    low: Seq<T>,
)
    requires
        exact_arithmetic::<T>(),
        orthogonal_model(bank, name, vanishing_moments, low),
        orthonormal(low),
        low.len() > 0,
        low.len() % 2 == 0,
    ensures
        orthonormal_bank(bank),
{
}

/// The Haar low-pass filter `[h, h]`, where `2 h^2 = 1`, is orthonormal to its
/// even shifts.
pub proof fn lemma_haar_orthonormal<T: Sample>(h: T)
    requires
        field_laws::<T>(),
        plus(times(h, h), times(h, h)) == one::<T>(),
    ensures
        orthonormal(seq![h, h]),
{
    let f = seq![h, h];
    assert forall|m: int| #[trigger] autocorrelation(f, 2 * m) == (if m == 0 {
        one::<T>()
    } else {
        zero::<T>()
    }) by {
        let c = 2 * m;
        let k = |t: int|
            if 0 <= t + c < f.len() {
                times(f[t], f[t + c])
            } else {
                zero::<T>()
            };
        assert(sum(k, 0, 0) == zero::<T>());
        assert(sum(k, 0, 1) == plus(zero::<T>(), k(0)));
        assert(sum(k, 0, 2) == plus(sum(k, 0, 1), k(1)));
        lemma_zero_plus(k(0));
        if m != 0 {
            assert(k(0) == zero::<T>());
            assert(k(1) == zero::<T>());
            lemma_zero_plus(zero::<T>());
        }
    }
}

impl<T> WaveletFilterBank<T> {
    #[verifier::type_invariant]
    spec fn filters_match(self) -> bool {
        self@.well_formed()
    }
}

impl<T: Sample> WaveletFilterBank<T> {
    /// A filter bank from its four filters. Refused when the analysis low-pass
    /// filter is empty, when the four filters do not all have its length, or
    /// when a coefficient is not finite.
    pub fn new(
        name: &str,
        vanishing_moments: usize,
        analysis_low: Vec<T>,
        analysis_high: Vec<T>,
        synthesis_low: Vec<T>,
        synthesis_high: Vec<T>,
    ) -> (r: Result<Self, TransformError>)
        requires
            total_arithmetic::<T>(),
        ensures
            ({
                let n = analysis_low.len();
                n == 0 || analysis_high.len() != n || synthesis_low.len() != n
                    || synthesis_high.len() != n
            }) ==> r == Err::<Self, TransformError>(TransformError::InvalidWaveletFilterBank),
            r is Err ==> r == Err::<Self, TransformError>(TransformError::InvalidWaveletFilterBank),
            exact_arithmetic::<T>() ==> (r is Ok <==> {
                let n = analysis_low.len();
                &&& n > 0
                &&& analysis_high.len() == n
                &&& synthesis_low.len() == n
                &&& synthesis_high.len() == n
                &&& all_finite_values(analysis_low@)
                &&& all_finite_values(analysis_high@)
                &&& all_finite_values(synthesis_low@)
                &&& all_finite_values(synthesis_high@)
            }),
            r matches Ok(bank) ==> bank@ == (FilterBankModel {
                name: name@,
                vanishing_moments: vanishing_moments as nat,
                support_len: analysis_low.len() as nat,
                analysis_low: analysis_low@,
                analysis_high: analysis_high@,
                synthesis_low: synthesis_low@,
                synthesis_high: synthesis_high@,
            }),
    {
        let support_len = analysis_low.len();
        if support_len == 0 || analysis_high.len() != support_len || synthesis_low.len()
            != support_len || synthesis_high.len() != support_len || !all_finite(
            analysis_low.as_slice(),
        ) || !all_finite(analysis_high.as_slice()) || !all_finite(synthesis_low.as_slice())
            || !all_finite(synthesis_high.as_slice()) {
            return Err(TransformError::InvalidWaveletFilterBank);
        }
        Ok(WaveletFilterBank {
            name: String::from_str(name),
            vanishing_moments,
            support_len,
            analysis_low,
            analysis_high,
            synthesis_low,
            synthesis_high,
        })
    }

    /// An orthogonal filter bank: both low-pass filters are `analysis_low` and
    /// both high-pass filters are its quadrature mirror. Refused when
    /// `analysis_low` is empty.
    pub fn orthogonal(name: &str, vanishing_moments: usize, analysis_low: &[T]) -> (r: Result<
        Self,
        TransformError,
    >)
        requires
            total_arithmetic::<T>(),
        ensures
            analysis_low.len() == 0 ==> r == Err::<Self, TransformError>(
                TransformError::InvalidWaveletFilterBank,
            ),
            r is Err ==> r == Err::<Self, TransformError>(TransformError::InvalidWaveletFilterBank),
            exact_arithmetic::<T>() ==> (r is Ok <==> {
                &&& analysis_low.len() > 0
                &&& all_finite_values(analysis_low@)
                &&& all_finite_values(qmf_of(analysis_low@))
            }),
            r matches Ok(bank) ==> orthogonal_model(
                bank@,
                name@,
                vanishing_moments as nat,
                analysis_low@,
            ),
    {
        let analysis_high = qmf_highpass(analysis_low);
        let synthesis_high = copy_slice(&analysis_high);
        Self::new(
            name,
            vanishing_moments,
            copy_slice(analysis_low),
            analysis_high,
            copy_slice(analysis_low),
            synthesis_high,
        )
    }

    pub fn name(&self) -> (r: &str)
        ensures
            r@ == self@.name,
    {
        self.name.as_str()
    }

    pub fn vanishing_moments(&self) -> (r: usize)
        ensures
            r == self@.vanishing_moments,
    {
        self.vanishing_moments
    }

    pub fn support_len(&self) -> (r: usize)
        ensures
            r == self@.support_len,
            self@.well_formed(),
    {
        proof {
            use_type_invariant(self);
        }
        self.support_len
    }

    pub fn analysis_low(&self) -> (r: &[T])
        ensures
            r@ == self@.analysis_low,
            self@.well_formed(),
    {
        proof {
            use_type_invariant(self);
        }
        self.analysis_low.as_slice()
    }

    pub fn analysis_high(&self) -> (r: &[T])
        ensures
            r@ == self@.analysis_high,
            self@.well_formed(),
    {
        proof {
            use_type_invariant(self);
        }
        self.analysis_high.as_slice()
    }

    pub fn synthesis_low(&self) -> (r: &[T])
        ensures
            r@ == self@.synthesis_low,
            self@.well_formed(),
    {
        proof {
            use_type_invariant(self);
        }
        self.synthesis_low.as_slice()
    }

    pub fn synthesis_high(&self) -> (r: &[T])
        ensures
            r@ == self@.synthesis_high,
            self@.well_formed(),
    {
        proof {
            use_type_invariant(self);
        }
        self.synthesis_high.as_slice()
    }
}

impl<T: Sample> Clone for WaveletFilterBank<T> {
    fn clone(&self) -> (r: Self)
        ensures
            r@ == self@,
    {
        proof {
            use_type_invariant(self);
        }
        WaveletFilterBank {
            name: self.name.clone(),
            vanishing_moments: self.vanishing_moments,
            support_len: self.support_len,
            analysis_low: copy_slice(self.analysis_low.as_slice()),
            analysis_high: copy_slice(self.analysis_high.as_slice()),
            synthesis_low: copy_slice(self.synthesis_low.as_slice()),
            synthesis_high: copy_slice(self.synthesis_high.as_slice()),
        }
    }
}

} // verus!
