//! Spans of simulated time.

use crate::random::RATIO_SCALE;
use vstd::prelude::*;

verus! {

/// The longest representable span: `u64::MAX` seconds and 999 999 999 nanoseconds.
pub const MAX_NANOS: u128 = 18_446_744_073_709_551_615_999_999_999;

/// A span of time with nanosecond resolution.
///
/// The view of a `Duration` is its length in nanoseconds.
#[derive(Debug, Clone, Copy, PartialEq, Eq, Structural, Hash)]
pub struct Duration {
    nanos: u128,
}

impl View for Duration {
    type V = nat;

    closed spec fn view(&self) -> nat {
        self.nanos as nat
    }
}

/// The sum of two lengths, cut off at the longest representable span.
pub open spec fn plus_nanos(a: nat, b: nat) -> nat {
    if a + b <= MAX_NANOS {
        a + b
    } else {
        MAX_NANOS as nat
    }
}

/// The difference of two lengths, cut off at zero.
pub open spec fn minus_nanos(a: nat, b: nat) -> nat {
    if a >= b {
        (a - b) as nat
    } else {
        0
    }
}

/// What `parts` of [`RATIO_SCALE`] are of a length, rounded down.
pub open spec fn share_nanos(span: nat, parts: nat) -> nat {
    span * parts / (RATIO_SCALE as nat)
}

/// A share of a time span is at most the whole.
pub proof fn lemma_share_nanos(span: nat, parts: nat)
    requires
        parts <= RATIO_SCALE,
    ensures
        share_nanos(span, parts) <= span,
{
    let d: int = RATIO_SCALE as int;
    assert(span * parts <= span * d) by (nonlinear_arith)
        requires
            0 <= span,
            0 <= parts <= d,
    ;
    vstd::arithmetic::div_mod::lemma_div_is_ordered((span * parts) as int, span * d, d);
    vstd::arithmetic::div_mod::lemma_div_multiples_vanish(span as int, d);
    assert(span * d == d * span) by (nonlinear_arith);
}

/// The larger of two lengths.
pub open spec fn max_nanos(a: nat, b: nat) -> nat {
    if a >= b {
        a
    } else {
        b
    }
}

impl Duration {
    /// The empty span.
    pub fn zero() -> (d: Duration)
        ensures
            d@ == 0,
    {
        Duration { nanos: 0 }
    }

    /// The longest span.
    pub fn max_value() -> (d: Duration)
        ensures
            d@ == MAX_NANOS,
    {
        Duration { nanos: MAX_NANOS }
    }

    /// A span of whole nanoseconds.
    pub fn from_nanos(nanos: u64) -> (d: Duration)
        ensures
            d@ == nanos,
    {
        Duration { nanos: nanos as u128 }
    }

    /// A span of whole nanoseconds, at most the longest span.
    pub fn from_nanos_wide(nanos: u128) -> (d: Duration)
        requires
            nanos <= MAX_NANOS,
        ensures
            d@ == nanos,
    {
        Duration { nanos }
    }

    /// A span of whole microseconds.
    pub fn from_micros(micros: u64) -> (d: Duration)
        ensures
            d@ == micros * 1_000,
    {
        Duration { nanos: micros as u128 * 1_000 }
    }

    /// A span of whole milliseconds.
    pub fn from_millis(millis: u64) -> (d: Duration)
        ensures
            d@ == millis * 1_000_000,
    {
        Duration { nanos: millis as u128 * 1_000_000 }
    }

    /// A span of whole seconds.
    pub fn from_secs(secs: u64) -> (d: Duration)
        ensures
            d@ == secs * 1_000_000_000,
    {
        Duration { nanos: secs as u128 * 1_000_000_000 }
    }

    /// The length in nanoseconds.
    pub fn as_nanos(&self) -> (nanos: u128)
        ensures
            nanos == self@,
    {
        self.nanos
    }

    /// The length in whole milliseconds, rounded down.
    pub fn as_millis(&self) -> (millis: u128)
        ensures
            millis == self@ / 1_000_000,
    {
        self.nanos / 1_000_000
    }

    /// The sum, or the longest span where the sum is longer than that.
    pub fn saturating_add(self, other: Duration) -> (d: Duration)
        ensures
            d@ == plus_nanos(self@, other@),
    {
        if self.nanos <= MAX_NANOS && other.nanos <= MAX_NANOS - self.nanos {
            Duration { nanos: self.nanos + other.nanos }
        } else {
            Duration { nanos: MAX_NANOS }
        }
    }

    /// The difference, or the empty span where `other` is longer.
    pub fn saturating_sub(self, other: Duration) -> (d: Duration)
        ensures
            d@ == minus_nanos(self@, other@),
    {
        if self.nanos >= other.nanos {
            Duration { nanos: self.nanos - other.nanos }
        } else {
            Duration { nanos: 0 }
        }
    }

    /// What `parts` of [`RATIO_SCALE`] are of this span, rounded down.
    pub fn share(self, parts: u64) -> (d: Duration)
        requires
            parts <= RATIO_SCALE,
        ensures
            d@ == share_nanos(self@, parts as nat),
            d@ <= self@,
    {
        let whole: u128 = self.nanos / 9_007_199_254_740_992;
        let rest: u128 = self.nanos % 9_007_199_254_740_992;
        proof {
            let d: int = 9_007_199_254_740_992;
            let r = parts as int;
            assert(whole * r <= whole * d && rest * r <= rest * d) by (nonlinear_arith)
                requires
                    0 <= whole,
                    0 <= rest,
                    0 <= r <= d,
            ;
            assert(rest * d <= d * d) by (nonlinear_arith)
                requires
                    0 <= rest <= d,
            ;
            assert(self.nanos as int * r == rest * r + (whole * r) * d) by (nonlinear_arith)
                requires
                    self.nanos as int == whole * d + rest,
            ;
            vstd::arithmetic::div_mod::lemma_hoist_over_denominator(
                rest * r,
                whole * r,
                d as nat,
            );
            assert((self.nanos as nat) * (parts as nat) == self.nanos as int * r);
            lemma_share_nanos(self.nanos as nat, parts as nat);
        }
        Duration {
            nanos: whole * (parts as u128) + rest * (parts as u128) / 9_007_199_254_740_992,
        }
    }

    /// An equal share of the span, rounded down to whole nanoseconds.
    pub fn div(self, parts: u64) -> (d: Duration)
        requires
            parts > 0,
        ensures
            d@ == self@ / parts as nat,
    {
        Duration { nanos: self.nanos / parts as u128 }
    }

    /// The longer of two spans.
    pub fn max(self, other: Duration) -> (d: Duration)
        ensures
            d@ == max_nanos(self@, other@),
    {
        if self.nanos >= other.nanos {
            self
        } else {
            other
        }
    }

    /// Whether this span is shorter than `other`.
    pub fn lt(&self, other: &Duration) -> (b: bool)
        ensures
            b == (self@ < other@),
    {
        self.nanos < other.nanos
    }

    /// Whether this span is at most as long as `other`.
    pub fn le(&self, other: &Duration) -> (b: bool)
        ensures
            b == (self@ <= other@),
    {
        self.nanos <= other.nanos
    }

    /// Spans of the same length are the same span.
    pub proof fn lemma_view_injective(a: Duration, b: Duration)
        ensures
            a@ == b@ ==> a == b,
    {
    }
}

/// A half-open range of spans, `start..end`.
#[derive(Debug, Clone, Copy, PartialEq, Eq, Structural)]
pub struct DurationRange {
    /// The shortest span in the range.
    pub start: Duration,
    /// The first span beyond the range.
    pub end: Duration,
}

} // verus!
