//! Finite sums of coefficients, and the rearrangements that the laws of a
//! field allow.
use crate::field::{
    field_laws, lemma_distribute, lemma_negated_plus, lemma_plus_assoc, lemma_plus_comm,
    lemma_plus_negated, lemma_times_comm, lemma_times_zero, lemma_zero_plus,
};
use crate::sample::{Sample, negated, plus, times, zero};
use vstd::prelude::*;

verus! {

/// `f(lo) + f(lo + 1) + ... + f(hi - 1)`, summed from zero in that order.
pub open spec fn sum<T: Sample>(f: spec_fn(int) -> T, lo: int, hi: int) -> T
    decreases hi - lo,
{
    if hi <= lo {
        zero::<T>()
    } else {
        plus(sum(f, lo, hi - 1), f(hi - 1))
    }
}

/// Sums of functions that agree on the range are equal.
pub proof fn lemma_sum_congruent<T: Sample>(
    f: spec_fn(int) -> T,
    g: spec_fn(int) -> T,
    lo: int,
    hi: int,
)
    requires
        forall|x: int| lo <= x < hi ==> #[trigger] f(x) == g(x),
    ensures
        sum(f, lo, hi) == sum(g, lo, hi),
    decreases hi - lo,
{
    if hi > lo {
        lemma_sum_congruent(f, g, lo, hi - 1);
    }
}

/// `(a + b) + (c + d) = (a + c) + (b + d)`.
pub proof fn lemma_plus_exchange<T: Sample>(a: T, b: T, c: T, d: T)
    requires
        field_laws::<T>(),
    ensures
        plus(plus(a, b), plus(c, d)) == plus(plus(a, c), plus(b, d)),
{
    lemma_plus_assoc(a, b, plus(c, d));
    lemma_plus_assoc(b, c, d);
    lemma_plus_comm(b, c);
    lemma_plus_assoc(c, b, d);
    lemma_plus_assoc(a, c, plus(b, d));
}

/// A sum of zeros is zero.
pub proof fn lemma_sum_zero<T: Sample>(f: spec_fn(int) -> T, lo: int, hi: int)
    requires
        field_laws::<T>(),
        forall|x: int| lo <= x < hi ==> #[trigger] f(x) == zero::<T>(),
    ensures
        sum(f, lo, hi) == zero::<T>(),
    decreases hi - lo,
{
    if hi > lo {
        lemma_sum_zero(f, lo, hi - 1);
        lemma_zero_plus(zero::<T>());
    }
}

/// The sum of pointwise sums is the sum of the two sums.
pub proof fn lemma_sum_add<T: Sample>(f: spec_fn(int) -> T, g: spec_fn(int) -> T, lo: int, hi: int)
    requires
        field_laws::<T>(),
    ensures
        sum(|x: int| plus(f(x), g(x)), lo, hi) == plus(sum(f, lo, hi), sum(g, lo, hi)),
    decreases hi - lo,
{
    if hi > lo {
        lemma_sum_add(f, g, lo, hi - 1);
        lemma_plus_exchange(sum(f, lo, hi - 1), sum(g, lo, hi - 1), f(hi - 1), g(hi - 1));
    } else {
        lemma_zero_plus(zero::<T>());
    }
}

/// A factor on the left distributes over a sum.
pub proof fn lemma_sum_scale<T: Sample>(c: T, f: spec_fn(int) -> T, lo: int, hi: int)
    requires
        field_laws::<T>(),
    ensures
        times(c, sum(f, lo, hi)) == sum(|x: int| times(c, f(x)), lo, hi),
        times(sum(f, lo, hi), c) == sum(|x: int| times(f(x), c), lo, hi),
    decreases hi - lo,
{
    if hi > lo {
        lemma_sum_scale(c, f, lo, hi - 1);
        lemma_distribute(c, sum(f, lo, hi - 1), f(hi - 1));
        lemma_times_comm(c, sum(f, lo, hi));
        lemma_times_comm(c, f(hi - 1));
        lemma_times_comm(c, sum(f, lo, hi - 1));
    } else {
        lemma_times_zero(c);
        lemma_times_comm(c, zero::<T>());
    }
}

/// Shifting the summation variable by `k`.
pub proof fn lemma_sum_shift<T: Sample>(f: spec_fn(int) -> T, lo: int, hi: int, k: int)
    ensures
        sum(f, lo, hi) == sum(|x: int| f(x + k), lo - k, hi - k),
    decreases hi - lo,
{
    if hi > lo {
        lemma_sum_shift(f, lo, hi - 1, k);
    }
}

/// A sum splits at any point of its range.
pub proof fn lemma_sum_split<T: Sample>(f: spec_fn(int) -> T, lo: int, mid: int, hi: int)
    requires
        field_laws::<T>(),
        lo <= mid <= hi,
    ensures
        sum(f, lo, hi) == plus(sum(f, lo, mid), sum(f, mid, hi)),
    decreases hi - mid,
{
    if hi > mid {
        lemma_sum_split(f, lo, mid, hi - 1);
        lemma_plus_assoc(sum(f, lo, mid), sum(f, mid, hi - 1), f(hi - 1));
    } else {
        lemma_zero_plus(sum(f, lo, mid));
    }
}

/// A sum whose terms vanish outside `[lo, hi)` keeps its value over a wider
/// range.
pub proof fn lemma_sum_widen<T: Sample>(f: spec_fn(int) -> T, lo: int, hi: int, wide_lo: int, wide_hi: int)
    requires
        field_laws::<T>(),
        wide_lo <= lo <= hi <= wide_hi,
        forall|x: int| wide_lo <= x < lo ==> #[trigger] f(x) == zero::<T>(),
        forall|x: int| hi <= x < wide_hi ==> #[trigger] f(x) == zero::<T>(),
    ensures
        sum(f, wide_lo, wide_hi) == sum(f, lo, hi),
{
    lemma_sum_split(f, wide_lo, lo, wide_hi);
    lemma_sum_split(f, lo, hi, wide_hi);
    lemma_sum_zero(f, wide_lo, lo);
    lemma_sum_zero(f, hi, wide_hi);
    lemma_zero_plus(sum(f, lo, hi));
    lemma_zero_plus(plus(sum(f, lo, hi), zero::<T>()));
}

/// A sum with a single non-zero term is that term.
pub proof fn lemma_sum_single<T: Sample>(f: spec_fn(int) -> T, lo: int, hi: int, p: int)
    requires
        field_laws::<T>(),
        lo <= p < hi,
        forall|x: int| lo <= x < hi && x != p ==> #[trigger] f(x) == zero::<T>(),
    ensures
        sum(f, lo, hi) == f(p),
{
    lemma_sum_widen(f, p, p + 1, lo, hi);
    assert(sum(f, p, p) == zero::<T>());
    lemma_zero_plus(f(p));
}

/// The order of a double sum can be exchanged.
pub proof fn lemma_sum_swap<T: Sample>(
    f: spec_fn(int, int) -> T,
    lo1: int,
    hi1: int,
    lo2: int,
    hi2: int,
)
    requires
        field_laws::<T>(),
    ensures
        sum(|t: int| sum(|u: int| f(t, u), lo2, hi2), lo1, hi1) == sum(
            |u: int| sum(|t: int| f(t, u), lo1, hi1),
            lo2,
            hi2,
        ),
    decreases hi1 - lo1,
{
    if hi1 > lo1 {
        lemma_sum_swap(f, lo1, hi1 - 1, lo2, hi2);
        let last = hi1 - 1;
        let outer = |t: int| sum(|u: int| f(t, u), lo2, hi2);
        let a = |u: int| sum(|t: int| f(t, u), lo1, last);
        let b = |u: int| f(last, u);
        lemma_sum_add(a, b, lo2, hi2);
        assert(outer(last) == sum(b, lo2, hi2)) by {
            assert((|u: int| f(last, u)) =~= b);
        }
        assert(sum(outer, lo1, hi1) == plus(sum(outer, lo1, last), outer(last)));
        assert((|u: int| sum(|t: int| f(t, u), lo1, hi1)) =~= (|x: int| plus(a(x), b(x))));
    } else {
        lemma_sum_zero(|u: int| sum(|t: int| f(t, u), lo1, hi1), lo2, hi2);
    }
}

/// A sum read backwards: `f(hi - 1) + ... + f(lo)` has the same value.
pub proof fn lemma_sum_reverse<T: Sample>(f: spec_fn(int) -> T, lo: int, hi: int)
    requires
        field_laws::<T>(),
    ensures
        sum(f, lo, hi) == sum(|x: int| f(lo + hi - 1 - x), lo, hi),
    decreases hi - lo,
{
    if hi > lo {
        let g = |x: int| f(lo + hi - 1 - x);
        // The first term of f is the last of g; the rest of f, reversed, is
        // the rest of g.
        lemma_sum_split(f, lo, lo + 1, hi);
        assert(sum(f, lo, lo) == zero::<T>());
        lemma_zero_plus(f(lo));
        lemma_sum_reverse(f, lo + 1, hi);
        let rest = |x: int| f((lo + 1) + hi - 1 - x);
        lemma_sum_shift(rest, lo + 1, hi, 1);
        assert((|x: int| rest(x + 1)) =~= g);
        assert(g(hi - 1) == f(lo));
        lemma_plus_comm(f(lo), sum(f, lo + 1, hi));
    }
}

/// The sum of negations is the negation of the sum.
pub proof fn lemma_sum_negate<T: Sample>(f: spec_fn(int) -> T, lo: int, hi: int)
    requires
        field_laws::<T>(),
    ensures
        sum(|x: int| negated(f(x)), lo, hi) == negated(sum(f, lo, hi)),
    decreases hi - lo,
{
    if hi > lo {
        lemma_sum_negate(f, lo, hi - 1);
        lemma_negated_plus(sum(f, lo, hi - 1), f(hi - 1));
    } else {
        lemma_zero_plus(zero::<T>());
        lemma_plus_negated(zero::<T>());
        lemma_negation_of_zero::<T>();
    }
}

pub proof fn lemma_negation_of_zero<T: Sample>()
    requires
        field_laws::<T>(),
    ensures
        negated(zero::<T>()) == zero::<T>(),
{
    lemma_plus_negated(zero::<T>());
    lemma_zero_plus(negated(zero::<T>()));
}

} // verus!
