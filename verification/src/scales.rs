//! The scales at which a continuous wavelet transform is evaluated.
use vstd::prelude::*;

verus! {

/// How a scale set is spaced between two frequencies.
#[derive(Clone, Copy, Debug, PartialEq, Eq, Structural)]
pub enum ScaleType {
    LinearScales,
    LogScales,
    LinearFrequencies,
}

/// Why a scale set was refused.
#[derive(Clone, Debug, PartialEq)]
pub enum ScaleError<T> {
    FrequencyAboveNyquist { frequency: T, sample_rate: usize },
    EmptyScaleSet,
}

/// A non-empty set of scales together with the sample rate they refer to.
#[derive(Debug, PartialEq)]
pub struct Scales<T> {
    sample_rate: usize,
    scales: Vec<T>,
}

impl<T> Scales<T> {
    #[verifier::type_invariant]
    spec fn non_empty(self) -> bool {
        self.scales.len() > 0
    }

    /// The scales, in order.
    pub closed spec fn values(&self) -> Seq<T> {
        self.scales@
    }

    pub closed spec fn rate(&self) -> nat {
        self.sample_rate as nat
    }
}

impl<T: Copy> Scales<T> {
    /// A scale set from explicit scales; refused when there are none.
    pub fn from_scales(sample_rate: usize, scales: Vec<T>) -> (r: Result<Self, ScaleError<T>>)
        ensures
            scales.len() == 0 <==> r == Err::<Self, ScaleError<T>>(ScaleError::EmptyScaleSet),
            r matches Ok(s) ==> s.values() == scales@ && s.rate() == sample_rate,
    {
        if scales.len() == 0 {
            return Err(ScaleError::EmptyScaleSet);
        }
        Ok(Scales { sample_rate, scales })
    }

    pub fn sample_rate(&self) -> (r: usize)
        ensures
            r == self.rate(),
    {
        self.sample_rate
    }

    pub fn len(&self) -> (r: usize)
        ensures
            r == self.values().len(),
            r > 0,
    {
        proof {
            use_type_invariant(self);
        }
        self.scales.len()
    }

    /// Always false: a scale set has at least one scale.
    pub fn is_empty(&self) -> (r: bool)
        ensures
            r == (self.values().len() == 0),
            !r,
    {
        proof {
            use_type_invariant(self);
        }
        self.scales.len() == 0
    }

    pub fn as_slice(&self) -> (r: &[T])
        ensures
            r@ == self.values(),
    {
        self.scales.as_slice()
    }
}

impl<T: Copy> Clone for Scales<T> {
    fn clone(&self) -> (r: Self)
        ensures
            r.values() == self.values(),
            r.rate() == self.rate(),
    {
        proof {
            use_type_invariant(self);
        }
        Scales { sample_rate: self.sample_rate, scales: crate::sample::copy_slice(self.scales.as_slice()) }
    }
}

} // verus!
