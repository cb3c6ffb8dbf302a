//! Closed integer ranges, used to bound colour channel levels.

use vstd::prelude::*;

verus! {

/// The closed range `[min, max]`. A range with `min > max` holds nothing.
#[derive(Clone, Copy, Debug, PartialEq, Eq, Structural)]
pub struct Interval {
    pub min: u32,
    pub max: u32,
}

impl Interval {
    /// Whether the range holds no value at all.
    pub open spec fn is_empty(&self) -> bool {
        self.min > self.max
    }

    /// `x` lies in the range, endpoints included.
    pub open spec fn spec_contains(&self, x: u32) -> bool {
        self.min <= x && x <= self.max
    }

    /// `x` lies strictly between the endpoints.
    pub open spec fn spec_surrounds(&self, x: u32) -> bool {
        self.min < x && x < self.max
    }

    /// Signed width of the range; negative when the endpoints are inverted.
    pub open spec fn spec_size(&self) -> int {
        self.max - self.min
    }

    /// `x` raised to at least `min`, then lowered to at most `max`.
    pub open spec fn spec_clamp(&self, x: u32) -> u32 {
        let raised = if x < self.min { self.min } else { x };
        if raised > self.max { self.max } else { raised }
    }

    /// The range from `min` to `max`, both included.
    pub fn new(min: u32, max: u32) -> (r: Interval)
        ensures
            r.min == min,
            r.max == max,
    {
        Interval { min, max }
    }

    /// Inclusive membership test.
    #[verifier::when_used_as_spec(spec_contains)]
    pub fn contains(&self, x: u32) -> (b: bool)
        ensures
            b == self.spec_contains(x),
    {
        self.min <= x && x <= self.max
    }

    /// Exclusive membership test: both endpoints are left out.
    #[verifier::when_used_as_spec(spec_surrounds)]
    pub fn surrounds(&self, x: u32) -> (b: bool)
        ensures
            b == self.spec_surrounds(x),
    {
        self.min < x && x < self.max
    }

    /// `max - min`, which is negative for inverted endpoints.
    pub fn size(&self) -> (d: i64)
        ensures
            d == self.spec_size(),
    {
        self.max as i64 - self.min as i64
    }

    /// Saturates `x` into the range.
    #[verifier::when_used_as_spec(spec_clamp)]
    pub fn clamp(&self, x: u32) -> (y: u32)
        ensures
            y == self.spec_clamp(x),
    {
        let raised: u32 = if x < self.min { self.min } else { x };
        if raised > self.max { self.max } else { raised }
    }

    /// Clamping a second time changes nothing.
    pub proof fn lemma_clamp_idempotent(self, x: u32)
        ensures
            self.spec_clamp(self.spec_clamp(x)) == self.spec_clamp(x),
    {
    }

    /// A range that is not empty contains both of its endpoints.
    pub proof fn lemma_endpoints_contained(self)
        requires
            !self.is_empty(),
        ensures
            self.spec_contains(self.min),
            self.spec_contains(self.max),
    {
    }

    /// Neither endpoint lies strictly inside the range.
    pub proof fn lemma_surrounds_excludes_endpoints(self)
        ensures
            !self.spec_surrounds(self.min),
            !self.spec_surrounds(self.max),
    {
    }

    /// On a range that is not empty, clamping lands inside it, and leaves
    /// exactly the values already inside untouched.
    pub proof fn lemma_clamp_contained(self, x: u32)
        requires
            !self.is_empty(),
        ensures
            self.spec_contains(self.spec_clamp(x)),
            self.spec_clamp(x) == x <==> self.spec_contains(x),
    {
    }
}

impl Default for Interval {
    /// The empty range, with its endpoints as far inverted as they go.
    fn default() -> (r: Interval)
        ensures
            r.min == u32::MAX,
            r.max == 0,
            r.is_empty(),
    {
        Interval { min: u32::MAX, max: 0 }
    }
}

} // verus!
