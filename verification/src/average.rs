//! Averages of whole milliseconds, kept exactly.

use vstd::prelude::*;
use crate::stats::Ratio;

verus! {

/// An average latency in milliseconds: a whole number and a proper fraction
/// of one more. Nothing is rounded.
///
/// Its view is the value as one fraction.
#[derive(Clone, Copy, Debug)]
pub struct Average {
    whole: u64,
    numerator: u64,
    denominator: u64,
}

/// The difference of two averages in milliseconds: a whole number, which may
/// be negative, and a proper fraction of one more.
///
/// Its view is the value as one fraction.
#[derive(Clone, Copy, Debug)]
pub struct Delta {
    whole: i128,
    numerator: u128,
    denominator: u128,
}

impl View for Average {
    type V = Ratio;

    closed spec fn view(&self) -> Ratio {
        Ratio { num: self.whole * self.denominator + self.numerator, den: self.denominator as int }
    }
}

impl View for Delta {
    type V = Ratio;

    closed spec fn view(&self) -> Ratio {
        Ratio { num: self.whole * self.denominator + self.numerator, den: self.denominator as int }
    }
}

impl Average {
    #[verifier::type_invariant]
    spec fn proper(self) -> bool {
        self.numerator < self.denominator
    }

    /// The average `whole + numerator / denominator`, where the fraction is
    /// less than one; none where it is not.
    pub fn new(whole: u64, numerator: u64, denominator: u64) -> (average: Option<Average>)
        ensures
            match average {
                Some(average) => numerator < denominator && average@ == (Ratio {
                    num: whole * denominator + numerator,
                    den: denominator as int,
                }),
                None => numerator >= denominator,
            },
    {
        if numerator < denominator {
            Some(Average { whole, numerator, denominator })
        } else {
            None
        }
    }

    /// The average `whole + numerator / denominator` of a fraction that is
    /// known to be less than one.
    pub(crate) fn from_parts(whole: u64, numerator: u64, denominator: u64) -> (average: Average)
        requires
            numerator < denominator,
        ensures
            average@ == (Ratio { num: whole * denominator + numerator, den: denominator as int }),
    {
        Average { whole, numerator, denominator }
    }

    /// The average that is a whole number of milliseconds.
    pub fn whole_number(whole: u64) -> (average: Average)
        ensures
            average@ == (Ratio { num: whole as int, den: 1 }),
    {
        Average { whole, numerator: 0, denominator: 1 }
    }

    /// The whole milliseconds, and the numerator and the denominator of the
    /// fraction that comes on top of them.
    pub fn parts(&self) -> (parts: (u64, u64, u64))
        ensures
            parts.1 < parts.2,
            self@ == (Ratio { num: parts.0 * parts.2 + parts.1, den: parts.2 as int }),
    {
        proof {
            use_type_invariant(self);
        }
        (self.whole, self.numerator, self.denominator)
    }

    /// Whether this average stays below an earlier one plus a tolerance.
    pub fn below_threshold(&self, earlier: &Average, tolerance: u128) -> (below: bool)
        ensures
            below == self@.below(earlier@.plus(tolerance as int)),
            self@.den > 0,
            earlier@.den > 0,
    {
        proof {
            use_type_invariant(self);
            use_type_invariant(earlier);
        }
        let ghost a = self.whole as int;
        let ghost x = self.numerator as int;
        let ghost y = self.denominator as int;
        let ghost b = earlier.whole as int;
        let ghost u = earlier.numerator as int;
        let ghost v = earlier.denominator as int;
        let ghost t = tolerance as int;
        let ghost left = (a * y + x) * v;
        let ghost right = ((b * v + u) + t * v) * y;
        if tolerance > u128::MAX - earlier.whole as u128 {
            proof {
                assert(left < right) by (nonlinear_arith)
                    requires
                        left == (a * y + x) * v,
                        right == ((b * v + u) + t * v) * y,
                        0 <= x < y,
                        0 <= u < v,
                        0 <= a < b + t,
                        b >= 0,
                ;
            }
            return true;
        }
        let limit: u128 = earlier.whole as u128 + tolerance;
        if (self.whole as u128) < limit {
            proof {
                assert(left < right) by (nonlinear_arith)
                    requires
                        left == (a * y + x) * v,
                        right == ((b * v + u) + t * v) * y,
                        0 <= x < y,
                        0 <= u < v,
                        0 <= a < b + t,
                        b >= 0,
                ;
            }
            true
        } else if (self.whole as u128) > limit {
            proof {
                assert(left >= right) by (nonlinear_arith)
                    requires
                        left == (a * y + x) * v,
                        right == ((b * v + u) + t * v) * y,
                        0 <= x < y,
                        0 <= u < v,
                        a > b + t,
                        b >= 0,
                        t >= 0,
                ;
            }
            false
        } else {
            proof {
                assert(x * v <= u64::MAX * u64::MAX && u * y <= u64::MAX * u64::MAX)
                    by (nonlinear_arith)
                    requires
                        0 <= x <= u64::MAX,
                        0 <= v <= u64::MAX,
                        0 <= u <= u64::MAX,
                        0 <= y <= u64::MAX,
                ;
                assert(left - right == x * v - u * y) by (nonlinear_arith)
                    requires
                        left == (a * y + x) * v,
                        right == ((b * v + u) + t * v) * y,
                        a == b + t,
                ;
            }
            (self.numerator as u128) * (earlier.denominator as u128) < (earlier.numerator as u128)
                * (self.denominator as u128)
        }
    }

    /// This average less an earlier one, exactly.
    pub fn minus(&self, earlier: &Average) -> (delta: Delta)
        ensures
            delta@.den == self@.den * earlier@.den,
            delta@.num == self@.num * earlier@.den - earlier@.num * self@.den,
            delta@.den > 0,
    {
        proof {
            use_type_invariant(self);
            use_type_invariant(earlier);
        }
        let ghost a = self.whole as int;
        let ghost x = self.numerator as int;
        let ghost y = self.denominator as int;
        let ghost b = earlier.whole as int;
        let ghost u = earlier.numerator as int;
        let ghost v = earlier.denominator as int;
        proof {
            assert(0 <= x * v < y * v && 0 <= u * y < y * v && 0 < y * v <= u64::MAX * u64::MAX)
                by (nonlinear_arith)
                requires
                    0 <= x < y <= u64::MAX,
                    0 <= u < v <= u64::MAX,
            ;
        }
        let whole: i128 = self.whole as i128 - earlier.whole as i128;
        let denominator: u128 = (self.denominator as u128) * (earlier.denominator as u128);
        let gained: u128 = (self.numerator as u128) * (earlier.denominator as u128);
        let lost: u128 = (earlier.numerator as u128) * (self.denominator as u128);
        let delta = if gained >= lost {
            Delta { whole, numerator: gained - lost, denominator }
        } else {
            Delta { whole: whole - 1, numerator: denominator - (lost - gained), denominator }
        };
        proof {
            let w = delta.whole as int;
            let n = delta.numerator as int;
            let d = y * v;
            assert(w * d + n == (a - b) * d + x * v - u * y) by (nonlinear_arith)
                requires
                    (w == a - b && n == x * v - u * y) || (w == a - b - 1 && n == d - (u * y - x
                        * v)),
            ;
            assert((a * y + x) * v - (b * v + u) * y == (a - b) * d + x * v - u * y)
                by (nonlinear_arith)
                requires
                    d == y * v,
            ;
        }
        delta
    }
}

impl Delta {
    #[verifier::type_invariant]
    spec fn proper(self) -> bool {
        self.numerator < self.denominator
    }

    /// The whole milliseconds, and the numerator and the denominator of the
    /// fraction that comes on top of them.
    pub fn parts(&self) -> (parts: (i128, u128, u128))
        ensures
            parts.1 < parts.2,
            self@ == (Ratio { num: parts.0 * parts.2 + parts.1, den: parts.2 as int }),
    {
        proof {
            use_type_invariant(self);
        }
        (self.whole, self.numerator, self.denominator)
    }
}

} // verus!
