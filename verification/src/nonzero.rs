//! A non-zero 16-bit count, used for pattern change lengths and retrig
//! train lengths.

use vstd::prelude::*;

verus! {

/// A `u16` that is never zero.
#[derive(Clone, Copy, Debug, PartialEq, Eq, Hash)]
pub struct NonZeroU16 {
    value: u16,
}

impl NonZeroU16 {
    #[verifier::type_invariant]
    spec fn inv(self) -> bool {
        self.value >= 1
    }

    /// The number held.
    pub closed spec fn spec_get(self) -> u16 {
        self.value
    }

    /// `Some` holding `n`, or `None` when `n` is zero.
    pub fn new(n: u16) -> (r: Option<Self>)
        ensures
            r is Some <==> n != 0,
            r matches Some(x) ==> x.spec_get() == n,
    {
        if n == 0 {
            None
        } else {
            Some(NonZeroU16 { value: n })
        }
    }

    /// The smallest value, `1`.
    pub fn min_value() -> (r: Self)
        ensures
            r.spec_get() == 1,
    {
        NonZeroU16 { value: 1 }
    }

    /// The number held, never zero.
    pub fn get(self) -> (r: u16)
        ensures
            r == self.spec_get(),
            r >= 1,
    {
        proof {
            use_type_invariant(&self);
        }
        self.value
    }
}

} // verus!
