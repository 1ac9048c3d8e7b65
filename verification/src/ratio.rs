use vstd::prelude::*;

verus! {

/// An exact fraction, used for thresholds and for the statistics of a rule.
/// A denominator of 0 stands for a value above every threshold.
#[derive(Copy, Clone, Debug, PartialEq, Eq, Structural)]
pub struct Ratio {
    pub numerator: u64,
    pub denominator: u64,
}

impl Ratio {
    /// Whether `part / whole` is at least this fraction, by cross
    /// multiplication.
    pub open spec fn reached_by(self, part: int, whole: int) -> bool {
        part * self.denominator >= self.numerator * whole
    }

    /// The fraction `numerator / denominator`.
    pub fn new(numerator: u64, denominator: u64) -> (ratio: Ratio)
        ensures
            ratio.numerator == numerator,
            ratio.denominator == denominator,
    {
        Ratio { numerator, denominator }
    }

    /// Whether `part / whole` is at least this fraction.
    pub fn is_reached_by(&self, part: u64, whole: u64) -> (reached: bool)
        ensures
            reached == self.reached_by(part as int, whole as int),
    {
        let limit: u128 = 0xffff_ffff_ffff_ffff;
        assert(part * self.denominator <= limit * limit) by (nonlinear_arith)
            requires
                0 <= part <= limit,
                0 <= self.denominator <= limit,
        ;
        assert(self.numerator * whole <= limit * limit) by (nonlinear_arith)
            requires
                0 <= self.numerator <= limit,
                0 <= whole <= limit,
        ;
        let left: u128 = (part as u128) * (self.denominator as u128);
        let right: u128 = (self.numerator as u128) * (whole as u128);
        left >= right
    }
}

} // verus!
