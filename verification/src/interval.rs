//! Intervals over order keys.
//!
//! A coordinate is carried as an order key: a signed 64-bit integer chosen by
//! the caller so that one key is below another exactly when the coordinate it
//! stands for is below the other's. Everything an interval decides by
//! comparison alone is decided here on the keys.

use vstd::prelude::*;

verus! {

/// The closed range of keys from `min` to `max`. It is empty when `min`
/// is above `max`.
#[derive(Clone, Copy, Debug, PartialEq, Eq, Structural)]
pub struct Interval {
    pub min: i64,
    pub max: i64,
}

/// The smaller of two keys.
pub open spec fn min_key(a: i64, b: i64) -> i64 {
    if a <= b {
        a
    } else {
        b
    }
}

/// The larger of two keys.
pub open spec fn max_key(a: i64, b: i64) -> i64 {
    if a >= b {
        a
    } else {
        b
    }
}

impl Interval {
    /// The interval that holds no key and leaves every union unchanged.
    pub open spec fn spec_empty() -> Interval {
        Interval { min: i64::MAX, max: i64::MIN }
    }

    /// The interval that holds every key.
    pub open spec fn spec_universe() -> Interval {
        Interval { min: i64::MIN, max: i64::MAX }
    }

    pub open spec fn spec_contains(self, x: i64) -> bool {
        self.min <= x && x <= self.max
    }

    pub open spec fn spec_surrounds(self, x: i64) -> bool {
        self.min < x && x < self.max
    }

    pub open spec fn spec_clamp(self, x: i64) -> i64 {
        if x < self.min {
            self.min
        } else if x > self.max {
            self.max
        } else {
            x
        }
    }

    /// The smallest interval that holds both `a` and `b`.
    pub open spec fn spec_union(a: Interval, b: Interval) -> Interval {
        Interval { min: min_key(a.min, b.min), max: max_key(a.max, b.max) }
    }

    /// Whether every key of `inner` is a key of `self`, read on the bounds.
    pub open spec fn encloses(self, inner: Interval) -> bool {
        self.min <= inner.min && inner.max <= self.max
    }

    pub fn new(min: i64, max: i64) -> (r: Interval)
        ensures
            r == (Interval { min, max }),
    {
        Interval { min, max }
    }

    pub fn empty() -> (r: Interval)
        ensures
            r == Interval::spec_empty(),
    {
        Interval { min: i64::MAX, max: i64::MIN }
    }

    pub fn universe() -> (r: Interval)
        ensures
            r == Interval::spec_universe(),
    {
        Interval { min: i64::MIN, max: i64::MAX }
    }

    /// Whether `x` lies in the interval, the bounds included.
    pub fn contains(&self, x: i64) -> (r: bool)
        ensures
            r == self.spec_contains(x),
    {
        self.min <= x && x <= self.max
    }

    /// Whether `x` lies strictly between the bounds.
    pub fn surrounds(&self, x: i64) -> (r: bool)
        ensures
            r == self.spec_surrounds(x),
    {
        self.min < x && x < self.max
    }

    /// `x` moved to the nearer bound if it lies outside; the lower bound is
    /// tested first.
    pub fn clamp(&self, x: i64) -> (r: i64)
        ensures
            r == self.spec_clamp(x),
    {
        if x < self.min {
            return self.min;
        }
        if x > self.max {
            return self.max;
        }
        x
    }

    /// The smallest interval that holds both `a` and `b`.
    pub fn union(a: Interval, b: Interval) -> (r: Interval)
        ensures
            r == Interval::spec_union(a, b),
    {
        let min = if a.min <= b.min {
            a.min
        } else {
            b.min
        };
        let max = if a.max >= b.max {
            a.max
        } else {
            b.max
        };
        Interval::new(min, max)
    }
}

/// The order in which two intervals are united does not matter.
pub proof fn lemma_union_commutative(a: Interval, b: Interval)
    ensures
        Interval::spec_union(a, b) == Interval::spec_union(b, a),
{
}

/// Uniting three intervals gives the same result however they are grouped.
pub proof fn lemma_union_associative(a: Interval, b: Interval, c: Interval)
    ensures
        Interval::spec_union(Interval::spec_union(a, b), c) == Interval::spec_union(
            a,
            Interval::spec_union(b, c),
        ),
{
}

/// The empty interval is the neutral element of the union.
pub proof fn lemma_union_empty(a: Interval)
    ensures
        Interval::spec_union(Interval::spec_empty(), a) == a,
        Interval::spec_union(a, Interval::spec_empty()) == a,
{
}

/// A union encloses both of its parts.
pub proof fn lemma_union_encloses(a: Interval, b: Interval)
    ensures
        Interval::spec_union(a, b).encloses(a),
        Interval::spec_union(a, b).encloses(b),
{
}

} // verus!
