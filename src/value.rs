//! The base-independent magnitude that sits between decoding and encoding.
use vstd::prelude::*;

verus! {

/// A non-negative rational magnitude `whole + num / den`, held exactly.
///
/// The fraction is kept as decoded, over a power of the source base, and is
/// not reduced: `1/2` and `5/10` are the same magnitude but unequal values
/// under `==`. Encoding depends on the magnitude alone.
#[derive(Debug, Clone, Copy, PartialEq, Eq, Structural)]
pub struct CanonicalValue {
    pub whole: u64,
    pub num: u64,
    pub den: u64,
}

impl CanonicalValue {
    /// The fractional part is a proper fraction with a positive denominator.
    pub open spec fn wf(&self) -> bool {
        self.den >= 1 && self.num < self.den
    }

    /// The value of a whole number.
    pub open spec fn from_integer_spec(whole: u64) -> CanonicalValue {
        CanonicalValue { whole, num: 0, den: 1 }
    }

    /// A whole number with no fractional part.
    pub fn from_integer(whole: u64) -> (r: CanonicalValue)
        ensures
            r == CanonicalValue::from_integer_spec(whole),
            r.wf(),
    {
        CanonicalValue { whole, num: 0, den: 1 }
    }

    /// `whole + num / den`, when `num / den` is a proper fraction.
    pub fn new(whole: u64, num: u64, den: u64) -> (r: Option<CanonicalValue>)
        ensures
            r matches Some(v) ==> v == (CanonicalValue { whole, num, den }) && v.wf(),
            r is None <==> !(den >= 1 && num < den),
    {
        if den >= 1 && num < den {
            Some(CanonicalValue { whole, num, den })
        } else {
            None
        }
    }
}

} // verus!
