//! A lookup-table factor model.
//!
//! The table maps premise-probability rows to the marginal the model
//! answers with; an unmatched context falls back to a default.  Rows are
//! matched by rational value, so `1/2` and `2/4` meet the same row.

use vstd::prelude::*;

use crate::errors::BeliefError;
use crate::factors::GroundFactorView;
use crate::interface::{FactorContext, FactorModel, PredictStatistics};
use crate::rational::{Rational, qeq, qle};

verus! {

/// Whether a table row's key matches the premise probabilities.
pub open spec fn row_matches(key: Seq<Rational>, probs: Seq<Rational>) -> bool {
    key.len() == probs.len() && forall|i: int|
        0 <= i < key.len() ==> qeq(#[trigger] key[i], probs[i])
}

/// The first matching row's value, or the fallback.
pub open spec fn spec_lookup(
    rows: Seq<(Vec<Rational>, Rational)>,
    probs: Seq<Rational>,
    fallback: Rational,
) -> Rational
    decreases rows.len(),
{
    if rows.len() == 0 {
        fallback
    } else if row_matches(rows[0].0@, probs) {
        rows[0].1
    } else {
        spec_lookup(rows.drop_first(), probs, fallback)
    }
}

/// A factor model backed by a lookup table over premise probabilities.
#[derive(Debug)]
pub struct TableFactorModel {
    pub rows: Vec<(Vec<Rational>, Rational)>,
    pub fallback: Rational,
}

impl TableFactorModel {
    /// Every answer in the table is a probability.
    pub open spec fn swf(self) -> bool {
        &&& self.fallback.wf()
        &&& qle(self.fallback, Rational { num: 1, den: 1 })
        &&& forall|i: int|
            0 <= i < self.rows@.len() ==> (#[trigger] self.rows@[i]).1.wf() && qle(
                self.rows@[i].1,
                Rational { num: 1, den: 1 },
            )
        &&& forall|i: int, k: int|
            0 <= i < self.rows@.len() && 0 <= k < self.rows@[i].0@.len() ==> (
            #[trigger] self.rows@[i].0@[k]).wf()
    }

    /// Checks that every answer in the table is a probability.
    pub fn check_wf(&self) -> (r: bool)
        ensures
            r == self.swf(),
    {
        if !(self.fallback.den >= 1 && self.fallback.le_one()) {
            return false;
        }
        let mut i: usize = 0;
        while i < self.rows.len()
            invariant
                i <= self.rows@.len(),
                self.fallback.wf(),
                qle(self.fallback, Rational { num: 1, den: 1 }),
                forall|j: int|
                    0 <= j < i ==> (#[trigger] self.rows@[j]).1.wf() && qle(
                        self.rows@[j].1,
                        Rational { num: 1, den: 1 },
                    ),
                forall|j: int, k: int|
                    0 <= j < i && 0 <= k < self.rows@[j].0@.len() ==> (
                    #[trigger] self.rows@[j].0@[k]).wf(),
            decreases self.rows@.len() - i,
        {
            if !(self.rows[i].1.den >= 1) {
                return false;
            }
            if !self.rows[i].1.le_one() {
                return false;
            }
            let mut k: usize = 0;
            while k < self.rows[i].0.len()
                invariant
                    i < self.rows@.len(),
                    k <= self.rows@[i as int].0@.len(),
                    forall|k2: int|
                        0 <= k2 < k ==> (#[trigger] self.rows@[i as int].0@[k2]).wf(),
                decreases self.rows@[i as int].0@.len() - k,
            {
                if !(self.rows[i].0[k].den >= 1) {
                    return false;
                }
                k += 1;
            }
            i += 1;
        }
        true
    }

    /// Whether one row key matches the probabilities, executably.
    fn key_matches(key: &Vec<Rational>, probs: &Vec<Rational>) -> (r: bool)
        requires
            forall|k: int| 0 <= k < key@.len() ==> (#[trigger] key@[k]).wf(),
            forall|k: int| 0 <= k < probs@.len() ==> (#[trigger] probs@[k]).wf(),
        ensures
            r == row_matches(key@, probs@),
    {
        if key.len() != probs.len() {
            return false;
        }
        let mut k: usize = 0;
        while k < key.len()
            invariant
                k <= key@.len(),
                key@.len() == probs@.len(),
                forall|k2: int| 0 <= k2 < key@.len() ==> (#[trigger] key@[k2]).wf(),
                forall|k2: int| 0 <= k2 < probs@.len() ==> (#[trigger] probs@[k2]).wf(),
                forall|k2: int| 0 <= k2 < k ==> qeq(#[trigger] key@[k2], probs@[k2]),
            decreases key@.len() - k,
        {
            if !key[k].eq_value(probs[k]) {
                return false;
            }
            k += 1;
        }
        true
    }
}

impl FactorModel for TableFactorModel {
    /// The first matching row's value, or the fallback.
    open spec fn spec_predict(&self, probs: Seq<Rational>, factors: Seq<GroundFactorView>) -> Rational {
        spec_lookup(self.rows@, probs, self.fallback)
    }

    /// The table answers whenever its entries are probabilities.
    open spec fn spec_predict_ok(
        &self,
        probs: Seq<Rational>,
        factors: Seq<GroundFactorView>,
    ) -> bool {
        self.swf()
    }

    /// Scores a context by table lookup.
    fn predict(&self, context: &FactorContext) -> (r: Result<PredictStatistics, BeliefError>) {
        if !self.check_wf() {
            return Err(BeliefError::FactorModelError);
        }
        let ghost rows = self.rows@;
        let ghost probs = context.probabilities@;
        let mut i: usize = 0;
        proof {
            assert(rows.skip(0) =~= rows);
        }
        loop
            invariant
                i <= rows.len(),
                rows == self.rows@,
                probs == context.probabilities@,
                self.swf(),
                context.wf(),
                spec_lookup(rows, probs, self.fallback) == spec_lookup(
                    rows.skip(i as int),
                    probs,
                    self.fallback,
                ),
            decreases rows.len() - i,
        {
            if i == self.rows.len() {
                proof {
                    assert(rows.skip(i as int).len() == 0);
                }
                return Ok(PredictStatistics { marginal: self.fallback });
            }
            proof {
                assert(rows.skip(i as int)[0] == rows[i as int]);
                assert(rows.skip(i as int).drop_first() =~= rows.skip(i as int + 1));
            }
            if Self::key_matches(&self.rows[i].0, &context.probabilities) {
                proof {
                    assert(row_matches(rows[i as int].0@, probs));
                }
                return Ok(PredictStatistics { marginal: self.rows[i].1 });
            }
            i += 1;
        }
    }
}

} // verus!
