//! Boolean formulas over the two constants, conjunction and disjunction.

use vstd::prelude::*;

verus! {

/// A boolean formula.
pub enum Formula {
    True,
    False,
    And(Box<Formula>, Box<Formula>),
    Or(Box<Formula>, Box<Formula>),
}

impl Formula {
    /// The truth value that the formula denotes.
    pub open spec fn holds(self) -> bool
        decreases self,
    {
        match self {
            Formula::True => true,
            Formula::False => false,
            Formula::And(left, right) => left.holds() && right.holds(),
            Formula::Or(left, right) => left.holds() || right.holds(),
        }
    }

    /// Evaluates the formula.
    pub fn resolve(&self) -> (r: bool)
        ensures
            r == self.holds(),
        decreases *self,
    {
        match self {
            Formula::True => true,
            Formula::False => false,
            Formula::And(left, right) => left.resolve() && right.resolve(),
            Formula::Or(left, right) => left.resolve() || right.resolve(),
        }
    }
}

/// The conjunction of two formulas.
pub fn and(left: Formula, right: Formula) -> (f: Formula)
    ensures
        f == Formula::And(Box::new(left), Box::new(right)),
        f.holds() == (left.holds() && right.holds()),
{
    Formula::And(Box::new(left), Box::new(right))
}

/// The disjunction of two formulas.
pub fn or(left: Formula, right: Formula) -> (f: Formula)
    ensures
        f == Formula::Or(Box::new(left), Box::new(right)),
        f.holds() == (left.holds() || right.holds()),
{
    Formula::Or(Box::new(left), Box::new(right))
}

} // verus!
