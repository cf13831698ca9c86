//! The laws of a field, stated of the specification functions of a
//! coefficient type, and the identities the reconstruction proofs use.
use crate::sample::{Sample, halve, negated, plus, times, zero};
use vstd::prelude::*;
use vstd::std_specs::convert::FromSpec;

verus! {

/// The coefficient one, as converted from the integer 1.
pub open spec fn one<T: Sample>() -> T {
    <T as FromSpec<u8>>::from_spec(1u8)
}

/// The specification functions of `T` obey the laws of a field (in which two
/// is invertible) that the reconstruction proofs use: `+` and `*` are
/// associative and commutative, zero and one are their units, every value
/// has a negation, `*` distributes over `+`, and halving undoes doubling.
#[verifier::opaque]
pub open spec fn field_laws<T: Sample>() -> bool {
    &&& forall|a: T, b: T| #[trigger] plus(a, b) == plus(b, a)
    &&& forall|a: T, b: T, c: T| #[trigger] plus(plus(a, b), c) == plus(a, plus(b, c))
    &&& forall|a: T| #[trigger] plus(zero::<T>(), a) == a
    &&& forall|a: T| #[trigger] plus(a, negated(a)) == zero::<T>()
    &&& forall|a: T, b: T| #[trigger] times(a, b) == times(b, a)
    &&& forall|a: T, b: T, c: T| #[trigger] times(times(a, b), c) == times(a, times(b, c))
    &&& forall|a: T| #[trigger] times(one::<T>(), a) == a
    &&& forall|a: T, b: T, c: T| #[trigger] times(a, plus(b, c)) == plus(times(a, b), times(a, c))
    &&& forall|a: T| #[trigger] halve(plus(a, a)) == a
}

pub proof fn lemma_plus_comm<T: Sample>(a: T, b: T)
    requires
        field_laws::<T>(),
    ensures
        plus(a, b) == plus(b, a),
{
    reveal(field_laws);
}

pub proof fn lemma_plus_assoc<T: Sample>(a: T, b: T, c: T)
    requires
        field_laws::<T>(),
    ensures
        plus(plus(a, b), c) == plus(a, plus(b, c)),
{
    reveal(field_laws);
}

pub proof fn lemma_zero_plus<T: Sample>(a: T)
    requires
        field_laws::<T>(),
    ensures
        plus(zero::<T>(), a) == a,
        plus(a, zero::<T>()) == a,
{
    reveal(field_laws);
    assert(plus(a, zero::<T>()) == plus(zero::<T>(), a));
}

pub proof fn lemma_plus_negated<T: Sample>(a: T)
    requires
        field_laws::<T>(),
    ensures
        plus(a, negated(a)) == zero::<T>(),
        plus(negated(a), a) == zero::<T>(),
{
    reveal(field_laws);
    assert(plus(negated(a), a) == plus(a, negated(a)));
}

pub proof fn lemma_times_comm<T: Sample>(a: T, b: T)
    requires
        field_laws::<T>(),
    ensures
        times(a, b) == times(b, a),
{
    reveal(field_laws);
}

pub proof fn lemma_times_assoc<T: Sample>(a: T, b: T, c: T)
    requires
        field_laws::<T>(),
    ensures
        times(times(a, b), c) == times(a, times(b, c)),
{
    reveal(field_laws);
}

pub proof fn lemma_one_times<T: Sample>(a: T)
    requires
        field_laws::<T>(),
    ensures
        times(one::<T>(), a) == a,
{
    reveal(field_laws);
}

pub proof fn lemma_distribute<T: Sample>(a: T, b: T, c: T)
    requires
        field_laws::<T>(),
    ensures
        times(a, plus(b, c)) == plus(times(a, b), times(a, c)),
        times(plus(b, c), a) == plus(times(b, a), times(c, a)),
{
    reveal(field_laws);
    assert(times(plus(b, c), a) == times(a, plus(b, c)));
    assert(times(b, a) == times(a, b));
    assert(times(c, a) == times(a, c));
}

pub proof fn lemma_halve_double<T: Sample>(a: T)
    requires
        field_laws::<T>(),
    ensures
        halve(plus(a, a)) == a,
{
    reveal(field_laws);
}

/// `x + y = x` forces `y = 0`.
proof fn lemma_cancel_to_zero<T: Sample>(x: T, y: T)
    requires
        field_laws::<T>(),
        plus(x, y) == x,
    ensures
        y == zero::<T>(),
{
    // y = 0 + y = (-x + x) + y = -x + (x + y) = -x + x = 0
    lemma_zero_plus(y);
    lemma_plus_negated(x);
    lemma_plus_assoc(negated(x), x, y);
}

pub proof fn lemma_times_zero<T: Sample>(a: T)
    requires
        field_laws::<T>(),
    ensures
        times(a, zero::<T>()) == zero::<T>(),
{
    // a 0 = a (0 + 0) = a 0 + a 0
    lemma_zero_plus(zero::<T>());
    lemma_distribute(a, zero::<T>(), zero::<T>());
    lemma_cancel_to_zero(times(a, zero::<T>()), times(a, zero::<T>()));
}

/// A value that added to `a` gives zero is the negation of `a`.
proof fn lemma_negation_unique<T: Sample>(a: T, b: T)
    requires
        field_laws::<T>(),
        plus(a, b) == zero::<T>(),
    ensures
        b == negated(a),
{
    // b = 0 + b = (-a + a) + b = -a + (a + b) = -a + 0 = -a
    lemma_zero_plus(b);
    lemma_plus_negated(a);
    lemma_plus_assoc(negated(a), a, b);
    lemma_zero_plus(negated(a));
}

pub proof fn lemma_times_negated<T: Sample>(a: T, b: T)
    requires
        field_laws::<T>(),
    ensures
        times(a, negated(b)) == negated(times(a, b)),
        times(negated(b), a) == negated(times(b, a)),
{
    // a b + a (-b) = a (b + -b) = a 0 = 0
    lemma_distribute(a, b, negated(b));
    lemma_plus_negated(b);
    lemma_times_zero(a);
    lemma_negation_unique(times(a, b), times(a, negated(b)));
    lemma_times_comm(a, negated(b));
    lemma_times_comm(a, b);
}

pub proof fn lemma_negated_plus<T: Sample>(a: T, b: T)
    requires
        field_laws::<T>(),
    ensures
        negated(plus(a, b)) == plus(negated(a), negated(b)),
{
    // (a + b) + (-a + -b) = 0
    let s = plus(a, b);
    let t = plus(negated(a), negated(b));
    lemma_plus_assoc(a, b, t);
    lemma_plus_assoc(b, negated(a), negated(b));
    lemma_plus_comm(b, negated(a));
    lemma_plus_assoc(negated(a), b, negated(b));
    lemma_plus_negated(b);
    lemma_zero_plus(negated(a));
    lemma_plus_negated(a);
    assert(plus(s, t) == zero::<T>());
    lemma_negation_unique(s, t);
}

pub proof fn lemma_negated_negated<T: Sample>(a: T)
    requires
        field_laws::<T>(),
    ensures
        negated(negated(a)) == a,
{
    lemma_plus_negated(a);
    lemma_negation_unique(negated(a), a);
}

} // verus!
