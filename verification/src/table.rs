//! The belief store.
//!
//! Four tables keyed by vertex index: π-values, λ-values, π-messages and
//! λ-messages.  Messages live on edges: the slot `[child][k]` speaks of
//! the edge between a vertex and the `k`-th entry of its parent list — a
//! π-message flows down that edge, a λ-message back up it.  Every cell
//! holds the pair of belief values for the outcomes false and true, and
//! starts empty; the engine writes every cell it later reads.

use vstd::prelude::*;
use vstd::pervasive::VecAdditionalExecFns;

use crate::rational::Rational;

verus! {

/// One table cell: the belief pair for outcomes false and true.
pub type BeliefCell = (Option<Rational>, Option<Rational>);

/// The four belief tables of one inference run.
#[derive(Debug)]
pub struct BeliefStore {
    pub pi: Vec<BeliefCell>,
    pub lambda: Vec<BeliefCell>,
    pub pi_msg: Vec<Vec<BeliefCell>>,
    pub lambda_msg: Vec<Vec<BeliefCell>>,
}

/// Reads one side of a cell.
pub open spec fn cell_side(c: BeliefCell, outcome: int) -> Option<Rational> {
    if outcome == 0 {
        c.0
    } else {
        c.1
    }
}

/// Writes one side of a cell.
pub open spec fn cell_with(c: BeliefCell, outcome: int, v: Rational) -> BeliefCell {
    if outcome == 0 {
        (Some(v), c.1)
    } else {
        (c.0, Some(v))
    }
}

impl BeliefStore {
    /// Whether the tables are sized for a graph with these parent lists.
    pub open spec fn sized_for(self, parents: Seq<Seq<usize>>) -> bool {
        &&& self.pi@.len() == parents.len()
        &&& self.lambda@.len() == parents.len()
        &&& self.pi_msg@.len() == parents.len()
        &&& self.lambda_msg@.len() == parents.len()
        &&& forall|i: int|
            0 <= i < parents.len() ==> (#[trigger] self.pi_msg@[i])@.len() == parents[i].len()
        &&& forall|i: int|
            0 <= i < parents.len() ==> (#[trigger] self.lambda_msg@[i])@.len() == parents[i].len()
    }

    /// Fresh, empty tables shaped after the graph's parent lists.
    pub fn new(parents: &Vec<Vec<usize>>) -> (r: BeliefStore)
        ensures
            r.sized_for(parents@.map_values(|row: Vec<usize>| row@)),
            forall|i: int| 0 <= i < parents@.len() ==> (#[trigger] r.pi@[i]) == (
                None::<Rational>,
                None::<Rational>,
            ),
            forall|i: int| 0 <= i < parents@.len() ==> (#[trigger] r.lambda@[i]) == (
                None::<Rational>,
                None::<Rational>,
            ),
            forall|i: int, k: int|
                0 <= i < parents@.len() && 0 <= k < parents@[i]@.len() ==> (
                #[trigger] r.pi_msg@[i]@[k]) == (None::<Rational>, None::<Rational>),
            forall|i: int, k: int|
                0 <= i < parents@.len() && 0 <= k < parents@[i]@.len() ==> (
                #[trigger] r.lambda_msg@[i]@[k]) == (None::<Rational>, None::<Rational>),
    {
        let ghost pview = parents@.map_values(|row: Vec<usize>| row@);
        let n = parents.len();
        let mut pi: Vec<BeliefCell> = Vec::new();
        let mut lambda: Vec<BeliefCell> = Vec::new();
        let mut pi_msg: Vec<Vec<BeliefCell>> = Vec::new();
        let mut lambda_msg: Vec<Vec<BeliefCell>> = Vec::new();
        let mut i: usize = 0;
        while i < n
            invariant
                i <= n,
                n == parents@.len(),
                pview == parents@.map_values(|row: Vec<usize>| row@),
                pi@.len() == i,
                lambda@.len() == i,
                pi_msg@.len() == i,
                lambda_msg@.len() == i,
                forall|j: int| 0 <= j < i ==> (#[trigger] pi@[j]) == (
                    None::<Rational>,
                    None::<Rational>,
                ),
                forall|j: int| 0 <= j < i ==> (#[trigger] lambda@[j]) == (
                    None::<Rational>,
                    None::<Rational>,
                ),
                forall|j: int| 0 <= j < i ==> (#[trigger] pi_msg@[j])@.len() == pview[j].len(),
                forall|j: int| 0 <= j < i ==> (#[trigger] lambda_msg@[j])@.len() == pview[j].len(),
                forall|j: int, k: int|
                    0 <= j < i && 0 <= k < pview[j].len() ==> (#[trigger] pi_msg@[j]@[k]) == (
                        None::<Rational>,
                        None::<Rational>,
                    ),
                forall|j: int, k: int|
                    0 <= j < i && 0 <= k < pview[j].len() ==> (#[trigger] lambda_msg@[j]@[k]) == (
                        None::<Rational>,
                        None::<Rational>,
                    ),
            decreases n - i,
        {
            pi.push((None, None));
            lambda.push((None, None));
            let m = parents[i].len();
            let mut prow: Vec<BeliefCell> = Vec::new();
            let mut lrow: Vec<BeliefCell> = Vec::new();
            let mut k: usize = 0;
            while k < m
                invariant
                    k <= m,
                    prow@.len() == k,
                    lrow@.len() == k,
                    forall|k2: int| 0 <= k2 < k ==> (#[trigger] prow@[k2]) == (
                        None::<Rational>,
                        None::<Rational>,
                    ),
                    forall|k2: int| 0 <= k2 < k ==> (#[trigger] lrow@[k2]) == (
                        None::<Rational>,
                        None::<Rational>,
                    ),
                decreases m - k,
            {
                prow.push((None, None));
                lrow.push((None, None));
                k += 1;
            }
            proof {
                assert(pview[i as int] == parents@[i as int]@);
            }
            pi_msg.push(prow);
            lambda_msg.push(lrow);
            i += 1;
        }
        BeliefStore { pi, lambda, pi_msg, lambda_msg }
    }

    /// The stored π-value of a vertex for one outcome.
    pub fn get_pi_value(&self, node: usize, outcome: usize) -> (r: Option<Rational>)
        requires
            node < self.pi@.len(),
            outcome <= 1,
        ensures
            r == cell_side(self.pi@[node as int], outcome as int),
    {
        if outcome == 0 {
            self.pi[node].0
        } else {
            self.pi[node].1
        }
    }

    /// Stores the π-value of a vertex for one outcome.
    pub fn set_pi_value(&mut self, node: usize, outcome: usize, value: Rational)
        requires
            node < old(self).pi@.len(),
            outcome <= 1,
        ensures
            final(self).pi@ == old(self).pi@.update(
                node as int,
                cell_with(old(self).pi@[node as int], outcome as int, value),
            ),
            final(self).lambda == old(self).lambda,
            final(self).pi_msg == old(self).pi_msg,
            final(self).lambda_msg == old(self).lambda_msg,
    {
        let c = self.pi[node];
        if outcome == 0 {
            self.pi.set(node, (Some(value), c.1));
        } else {
            self.pi.set(node, (c.0, Some(value)));
        }
    }

    /// The stored λ-value of a vertex for one outcome.
    pub fn get_lambda_value(&self, node: usize, outcome: usize) -> (r: Option<Rational>)
        requires
            node < self.lambda@.len(),
            outcome <= 1,
        ensures
            r == cell_side(self.lambda@[node as int], outcome as int),
    {
        if outcome == 0 {
            self.lambda[node].0
        } else {
            self.lambda[node].1
        }
    }

    /// Stores the λ-value of a vertex for one outcome.
    pub fn set_lambda_value(&mut self, node: usize, outcome: usize, value: Rational)
        requires
            node < old(self).lambda@.len(),
            outcome <= 1,
        ensures
            final(self).lambda@ == old(self).lambda@.update(
                node as int,
                cell_with(old(self).lambda@[node as int], outcome as int, value),
            ),
            final(self).pi == old(self).pi,
            final(self).pi_msg == old(self).pi_msg,
            final(self).lambda_msg == old(self).lambda_msg,
    {
        let c = self.lambda[node];
        if outcome == 0 {
            self.lambda.set(node, (Some(value), c.1));
        } else {
            self.lambda.set(node, (c.0, Some(value)));
        }
    }

    /// The stored π-message on the edge to a vertex's `k`-th parent.
    pub fn get_pi_message(&self, node: usize, k: usize, outcome: usize) -> (r: Option<Rational>)
        requires
            node < self.pi_msg@.len(),
            k < self.pi_msg@[node as int]@.len(),
            outcome <= 1,
        ensures
            r == cell_side(self.pi_msg@[node as int]@[k as int], outcome as int),
    {
        if outcome == 0 {
            self.pi_msg[node][k].0
        } else {
            self.pi_msg[node][k].1
        }
    }

    /// Stores the π-message on the edge to a vertex's `k`-th parent.
    pub fn set_pi_message(&mut self, node: usize, k: usize, outcome: usize, value: Rational)
        requires
            node < old(self).pi_msg@.len(),
            k < old(self).pi_msg@[node as int]@.len(),
            outcome <= 1,
        ensures
            final(self).pi_msg@.len() == old(self).pi_msg@.len(),
            forall|i: int|
                0 <= i < old(self).pi_msg@.len() && i != node ==> final(self).pi_msg@[i] == old(
                    self,
                ).pi_msg@[i],
            final(self).pi_msg@[node as int]@ == old(self).pi_msg@[node as int]@.update(
                k as int,
                cell_with(old(self).pi_msg@[node as int]@[k as int], outcome as int, value),
            ),
            final(self).pi == old(self).pi,
            final(self).lambda == old(self).lambda,
            final(self).lambda_msg == old(self).lambda_msg,
    {
        let c = self.pi_msg[node][k];
        if outcome == 0 {
            self.pi_msg[node].set(k, (Some(value), c.1));
        } else {
            self.pi_msg[node].set(k, (c.0, Some(value)));
        }
    }

    /// The stored λ-message on the edge to a vertex's `k`-th parent.
    pub fn get_lambda_message(&self, node: usize, k: usize, outcome: usize) -> (r: Option<
        Rational,
    >)
        requires
            node < self.lambda_msg@.len(),
            k < self.lambda_msg@[node as int]@.len(),
            outcome <= 1,
        ensures
            r == cell_side(self.lambda_msg@[node as int]@[k as int], outcome as int),
    {
        if outcome == 0 {
            self.lambda_msg[node][k].0
        } else {
            self.lambda_msg[node][k].1
        }
    }

    /// Stores the λ-message on the edge to a vertex's `k`-th parent.
    pub fn set_lambda_message(&mut self, node: usize, k: usize, outcome: usize, value: Rational)
        requires
            node < old(self).lambda_msg@.len(),
            k < old(self).lambda_msg@[node as int]@.len(),
            outcome <= 1,
        ensures
            final(self).lambda_msg@.len() == old(self).lambda_msg@.len(),
            forall|i: int|
                0 <= i < old(self).lambda_msg@.len() && i != node ==> final(self).lambda_msg@[i]
                    == old(self).lambda_msg@[i],
            final(self).lambda_msg@[node as int]@ == old(self).lambda_msg@[node as int]@.update(
                k as int,
                cell_with(old(self).lambda_msg@[node as int]@[k as int], outcome as int, value),
            ),
            final(self).pi == old(self).pi,
            final(self).lambda == old(self).lambda,
            final(self).pi_msg == old(self).pi_msg,
    {
        let c = self.lambda_msg[node][k];
        if outcome == 0 {
            self.lambda_msg[node].set(k, (Some(value), c.1));
        } else {
            self.lambda_msg[node].set(k, (c.0, Some(value)));
        }
    }
}

} // verus!
