//! The coefficient type the transforms compute with.
//!
//! Every transform is written once for any coefficient type that has the
//! arithmetic of a real number type (f32 in practice). The contracts of this
//! crate state lengths, shapes and refusals for every coefficient type, and
//! the computed values for the coefficient types whose operations follow
//! their specification functions (`exact_arithmetic`). Verus does not model
//! floating-point arithmetic, so for `f32` the value clauses say nothing.
use std::ops::{Add, Div, Mul, Neg, Sub};
use vstd::prelude::*;
use vstd::std_specs::cmp::{PartialEqSpec, PartialOrdSpec};
use vstd::std_specs::convert::FromSpec;
use vstd::std_specs::ops::{AddSpec, DivSpec, MulSpec, NegSpec, SubSpec};

verus! {

/// A real coefficient: copyable, with a default (zero) value, an order, the
/// arithmetic operations, and the small integers.
pub trait Sample: Copy + Default + PartialOrd + Add<Output = Self> + Sub<Output = Self> + Mul<
    Output = Self,
> + Neg<Output = Self> + Div<Output = Self> + From<u8> {

}

impl<T> Sample for T where
    T: Copy + Default + PartialOrd + Add<Output = T> + Sub<Output = T> + Mul<Output = T> + Neg<
        Output = T,
    > + Div<Output = T> + From<u8>,
 {

}

/// `+`, binary and unary `-`, `*` and `/` accept every pair of operands. This
/// holds of `f32` and `f64`, whose operations never fail (they round, or give
/// an infinity or NaN).
pub open spec fn total_arithmetic<T: Sample>() -> bool {
    &&& forall|a: T, b: T| #[trigger] a.add_req(b)
    &&& forall|a: T, b: T| #[trigger] a.sub_req(b)
    &&& forall|a: T, b: T| #[trigger] a.mul_req(b)
    &&& forall|a: T, b: T| #[trigger] a.div_req(b)
    &&& forall|a: T| #[trigger] a.neg_req()
}

/// The coefficient type computes `+`, binary and unary `-`, `*`, `/`, the
/// conversion from `u8`, `==` and its comparisons by their specification
/// functions. Verus assumes this of no floating-point type (their rounding is
/// not modelled); where it holds, the value clauses of this crate's contracts
/// pin every computed coefficient.
pub open spec fn exact_arithmetic<T: Sample>() -> bool {
    &&& T::obeys_add_spec()
    &&& T::obeys_sub_spec()
    &&& T::obeys_mul_spec()
    &&& T::obeys_div_spec()
    &&& T::obeys_neg_spec()
    &&& <T as FromSpec<u8>>::obeys_from_spec()
    &&& T::obeys_eq_spec()
    &&& compares_by_spec::<T>()
}

/// The coefficient type's comparisons follow their specification function.
pub open spec fn compares_by_spec<T: Sample>() -> bool {
    T::obeys_partial_cmp_spec()
}

/// `x` compares greater than zero.
pub open spec fn is_positive<T: Sample>(x: T) -> bool {
    x.partial_cmp_spec(&zero::<T>()) == Some(core::cmp::Ordering::Greater)
}

/// The coefficient zero, as converted from the integer 0.
pub open spec fn zero<T: Sample>() -> T {
    <T as FromSpec<u8>>::from_spec(0u8)
}

/// The coefficient two, as converted from the integer 2.
pub open spec fn two<T: Sample>() -> T {
    <T as FromSpec<u8>>::from_spec(2u8)
}

/// `a + b`, as the type specifies it.
pub open spec fn plus<T: Sample>(a: T, b: T) -> T {
    a.add_spec(b)
}

/// `a * b`, as the type specifies it.
pub open spec fn times<T: Sample>(a: T, b: T) -> T {
    a.mul_spec(b)
}

/// `a / b`, as the type specifies it.
pub open spec fn quotient<T: Sample>(a: T, b: T) -> T {
    a.div_spec(b)
}

/// `a / 2`, as the type specifies it.
pub open spec fn halve<T: Sample>(a: T) -> T {
    a.div_spec(two::<T>())
}

/// `-a`, as the type specifies it.
pub open spec fn negated<T: Sample>(a: T) -> T {
    a.neg_spec()
}

/// A complex coefficient held as its real and imaginary parts.
#[derive(Clone, Copy, Debug, PartialEq)]
pub struct ComplexSample<T> {
    pub re: T,
    pub im: T,
}

/// The value zero of the coefficient type.
pub fn zero_value<T: Sample>() -> (z: T)
    ensures
        exact_arithmetic::<T>() ==> z == zero::<T>(),
{
    T::from(0u8)
}

/// The value two of the coefficient type.
pub fn two_value<T: Sample>() -> (z: T)
    ensures
        exact_arithmetic::<T>() ==> z == two::<T>(),
{
    T::from(2u8)
}

/// A fresh vector holding the elements of `s`.
pub fn copy_slice<T: Copy>(s: &[T]) -> (r: Vec<T>)
    ensures
        r@ == s@,
{
    let mut r: Vec<T> = Vec::new();
    let mut i: usize = 0;
    while i < s.len()
        invariant
            i <= s.len(),
            r@ == s@.subrange(0, i as int),
        decreases s.len() - i,
    {
        r.push(s[i]);
        i = i + 1;
        assert(r@ =~= s@.subrange(0, i as int));
    }
    assert(r@ =~= s@);
    r
}

/// `x` is finite: `x - x` equals zero. Of a floating-point type this holds
/// of every finite value and of no infinity or NaN (whose difference with
/// itself is NaN).
pub open spec fn finite_value<T: Sample>(x: T) -> bool {
    x.sub_spec(x).eq_spec(&zero::<T>())
}

/// Every value of `s` is finite.
pub open spec fn all_finite_values<T: Sample>(s: Seq<T>) -> bool {
    forall|i: int| 0 <= i < s.len() ==> finite_value(#[trigger] s[i])
}

/// Whether a coefficient is finite, tested as `x - x == 0`.
pub fn is_finite_sample<T: Sample>(x: T) -> (r: bool)
    requires
        total_arithmetic::<T>(),
    ensures
        exact_arithmetic::<T>() ==> r == finite_value(x),
{
    let difference = x - x;
    let z = zero_value::<T>();
    difference == z
}

/// Whether every coefficient of `values` passes `is_finite_sample`.
pub fn all_finite<T: Sample>(values: &[T]) -> (r: bool)
    requires
        total_arithmetic::<T>(),
    ensures
        exact_arithmetic::<T>() ==> r == all_finite_values(values@),
{
    let mut i: usize = 0;
    while i < values.len()
        invariant
            total_arithmetic::<T>(),
            i <= values.len(),
            exact_arithmetic::<T>() ==> forall|j: int|
                0 <= j < i ==> finite_value(#[trigger] values@[j]),
        decreases values.len() - i,
    {
        if !is_finite_sample(values[i]) {
            return false;
        }
        i = i + 1;
    }
    true
}

} // verus!
