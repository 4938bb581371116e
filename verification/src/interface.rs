//! The engine's interfaces to its collaborators.
//!
//! The factor-scoring model is pluggable: the engine hands it a
//! `FactorContext` — the ground factors feeding one conclusion and one
//! probability per premise group — and reads back the marginal
//! probability of the conclusion being true.  A model declares its own
//! answer as a spec function, so everything computed from its answers
//! stays a function of the model, the graph and the evidence.

use vstd::prelude::*;

use crate::errors::BeliefError;
use crate::factors::{GroundFactorView, PredicateGraph, PropositionInferenceFactor};
use crate::objects::Proposition;
use crate::rational::{Rational, qle};

verus! {

/// The answer of a factor model: the marginal of the conclusion.
#[derive(Clone, Copy, Debug)]
pub struct PredictStatistics {
    pub marginal: Rational,
}

/// The ground factors that feed one conclusion.
#[derive(Debug)]
pub struct Factor {
    pub conjuncts: Vec<PropositionInferenceFactor>,
    pub conclusion: Proposition,
}

/// What a factor model sees: one ground factor and one premise
/// probability per premise group, in the same order.
#[derive(Debug)]
pub struct FactorContext {
    pub factor: Vec<PropositionInferenceFactor>,
    pub probabilities: Vec<Rational>,
}

impl FactorContext {
    /// The premise probabilities.
    pub open spec fn probs(self) -> Seq<Rational> {
        self.probabilities@
    }

    /// The ground factor views.
    pub open spec fn factors(self) -> Seq<GroundFactorView> {
        self.factor@.map_values(|f: PropositionInferenceFactor| f@)
    }

    /// Well-formedness: every probability is a probability.
    pub open spec fn wf(self) -> bool {
        forall|i: int|
            0 <= i < self.probabilities@.len() ==> (#[trigger] self.probabilities@[i]).wf() && qle(
                self.probabilities@[i],
                Rational { num: 1, den: 1 },
            )
    }
}

/// A factor-scoring model.
///
/// `spec_predict` names the model's answer and `spec_predict_ok` the
/// inputs it answers at all; `predict` is held to both, and every answer
/// is a probability.  A lookup table, a learned scorer behind a table, or
/// a constant all fit.
pub trait FactorModel: Sized {
    /// The model's answer for a context.
    spec fn spec_predict(&self, probs: Seq<Rational>, factors: Seq<GroundFactorView>) -> Rational;

    /// Where the model answers.
    spec fn spec_predict_ok(&self, probs: Seq<Rational>, factors: Seq<GroundFactorView>) -> bool;

    /// Scores one context: the marginal of the conclusion being true
    /// given the premise assignment of the context.
    fn predict(&self, context: &FactorContext) -> (r: Result<PredictStatistics, BeliefError>)
        requires
            context.wf(),
        ensures
            (r is Ok) == self.spec_predict_ok(context.probs(), context.factors()),
            r matches Ok(ps) ==> ps.marginal == self.spec_predict(
                context.probs(),
                context.factors(),
            ) && ps.marginal.wf() && qle(ps.marginal, Rational { num: 1, den: 1 }),
    ;
}

/// A maker of worked scenarios: fills an implication store for a driver
/// or a test to run inference against.
pub trait ScenarioMaker {
    /// Sets the scenario up on the given store.
    fn setup_scenario(&self, graph: &mut PredicateGraph) -> Result<(), BeliefError>;
}

} // verus!
