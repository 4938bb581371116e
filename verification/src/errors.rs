//! The error kinds of the inference core.

use vstd::prelude::*;

verus! {

/// Everything the engine can refuse to do, and why.
#[derive(Clone, Copy, Debug, PartialEq, Eq, Structural)]
pub enum BeliefError {
    /// A predicate with a variable argument was offered as a proposition.
    NotGround,
    /// Backward expansion reached a non-existence proposition that no
    /// implication concludes, or the expansion cannot form a well-shaped
    /// graph for the target.
    UnresolvableProposition,
    /// A substitution through a role map could not fully ground a premise.
    InconsistentRoleMap,
    /// A belief-table read returned nothing where a value was required.
    MissingBelief,
    /// The external scoring model failed.
    FactorModelError,
    /// An exact rational result did not fit in a machine word.
    NumericOverflow,
}

impl BeliefError {
    /// A short rendered name, for drivers that report errors.
    pub fn label(&self) -> (r: String)
        ensures
            r@ == self.spec_label(),
    {
        match self {
            BeliefError::NotGround => String::from_str("not ground"),
            BeliefError::UnresolvableProposition => String::from_str("unresolvable proposition"),
            BeliefError::InconsistentRoleMap => String::from_str("inconsistent role map"),
            BeliefError::MissingBelief => String::from_str("missing belief"),
            BeliefError::FactorModelError => String::from_str("factor model error"),
            BeliefError::NumericOverflow => String::from_str("numeric overflow"),
        }
    }

    /// The rendered name of each kind.
    pub open spec fn spec_label(&self) -> Seq<char> {
        match self {
            BeliefError::NotGround => "not ground"@,
            BeliefError::UnresolvableProposition => "unresolvable proposition"@,
            BeliefError::InconsistentRoleMap => "inconsistent role map"@,
            BeliefError::MissingBelief => "missing belief"@,
            BeliefError::FactorModelError => "factor model error"@,
            BeliefError::NumericOverflow => "numeric overflow"@,
        }
    }
}

} // verus!
