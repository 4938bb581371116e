//! The π-pass: causal support, roots toward target.
//!
//! Walking the propagation order, each vertex first gets its π-value —
//! pinned for roots, taken from evidence for observed Singles, otherwise
//! summed over every premise assignment — and then sends a π-message to
//! each child: its π-value times the λ-messages of the child's siblings.

use vstd::prelude::*;

use crate::errors::BeliefError;
use crate::factors::PropositionInferenceFactor;
use crate::graph::{GenericNodeType, PropositionGraph};
use crate::inference::{
    Inferencer, all_combos, cell_full, combo_prod_except, exec_combo_prod_except, exec_pi_group,
    exec_pi_single, compute_each_combination, pi_group_fits, pi_group_sums, pi_single_fits,
    pi_single_sums,
};
use crate::interface::{FactorContext, FactorModel};
use crate::rational::{Rational, pmul, qle};

verus! {

/// The index of `parent` in the parent list of `child`.
pub fn parent_slot(g: &PropositionGraph, child: usize, parent: usize) -> (k: usize)
    requires
        g.wf(),
        child < g.nodes@.len(),
        g.parents@[child as int]@.contains(parent),
    ensures
        k < g.parents@[child as int]@.len(),
        g.parents@[child as int]@[k as int] == parent,
{
    let row = &g.parents[child];
    let mut k: usize = 0;
    while k < row.len()
        invariant
            row == &g.parents[child as int],
            k <= row@.len(),
            forall|j: int| 0 <= j < k ==> row@[j] != parent,
        decreases row@.len() - k,
    {
        if row[k] == parent {
            return k;
        }
        k += 1;
    }
    proof {
        assert(!g.parents@[child as int]@.contains(parent));
    }
    vstd::pervasive::unreached()
}

/// The position of a vertex in a parent list.
pub open spec fn slot_in(row: Seq<usize>, u: usize) -> int {
    choose|k: int| 0 <= k < row.len() && row[k] == u
}

/// In a duplicate-free parent list, the slot of a vertex is the one
/// index holding it.
pub proof fn lemma_slot_is(row: Seq<usize>, u: usize, k: int)
    requires
        0 <= k < row.len(),
        row[k] == u,
        forall|k1: int, k2: int| 0 <= k1 < k2 < row.len() ==> row[k1] != row[k2],
    ensures
        slot_in(row, u) == k,
{
    assert(exists|j: int| 0 <= j < row.len() && row[j] == u);
    let k2 = slot_in(row, u);
    assert(0 <= k2 < row.len() && row[k2] == u);
    if k2 < k {
        assert(row[k2] != row[k]);
    } else if k < k2 {
        assert(row[k] != row[k2]);
    }
}

/// The model-facing spec values depend only on the model and the graph,
/// and the sibling messages only on those plus the λ-message table.
pub proof fn lemma_specs_stable<M: FactorModel>(a: Inferencer<M>, b: Inferencer<M>, i: int)
    requires
        a.model == b.model,
        a.proposition_graph == b.proposition_graph,
    ensures
        a.ctx_factors(i) == b.ctx_factors(i),
        a.preds_spec(i) == b.preds_spec(i),
        a.data.lambda_msg == b.data.lambda_msg ==> a.lam_sibling_msgs(i) == b.lam_sibling_msgs(i),
{
    assert(a.ctx_factors(i) =~= b.ctx_factors(i));
    assert(a.preds_spec(i) =~= b.preds_spec(i));
    if a.data.lambda_msg == b.data.lambda_msg {
        assert(a.lam_sibling_msgs(i) =~= b.lam_sibling_msgs(i));
    }
}

impl<M: FactorModel> Inferencer<M> {
    /// The π-messages arriving at a vertex, one pair per parent.
    pub open spec fn pmsgs(self, node: int) -> Seq<(Rational, Rational)> {
        Seq::new(
            self.proposition_graph.parents@[node]@.len(),
            |k: int| (self.data.pi_msg@[node]@[k].0->0, self.data.pi_msg@[node]@[k].1->0),
        )
    }

    /// Whether every π-message arriving at a vertex has been written.
    pub open spec fn pmsgs_ready(self, node: int) -> bool {
        forall|k: int|
            0 <= k < self.proposition_graph.parents@[node]@.len() ==> cell_full(
                #[trigger] self.data.pi_msg@[node]@[k],
            )
    }

    /// The λ-messages a vertex's children send it, one pair per child,
    /// read from the slots its edges occupy.
    pub open spec fn lam_sibling_msgs(self, node: int) -> Seq<(Rational, Rational)> {
        Seq::new(
            self.proposition_graph.children@[node]@.len(),
            |t: int|
                {
                    let c = self.proposition_graph.children@[node]@[t] as int;
                    let k = slot_in(self.proposition_graph.parents@[c]@, node as usize);
                    (self.data.lambda_msg@[c]@[k].0->0, self.data.lambda_msg@[c]@[k].1->0)
                },
        )
    }

    /// The premise probabilities a Boolean assignment encodes.
    pub open spec fn combo_probs(c: Seq<bool>) -> Seq<Rational> {
        Seq::new(
            c.len(),
            |j: int|
                if c[j] {
                    Rational { num: 1, den: 1 }
                } else {
                    Rational { num: 0, den: 1 }
                },
        )
    }

    /// The ground-factor views a Single vertex's context carries.
    pub open spec fn ctx_factors(self, node: int) -> Seq<crate::factors::GroundFactorView> {
        Seq::new(
            self.proposition_graph.parents@[node]@.len(),
            |k: int|
                crate::factors::GroundFactorView {
                    premise: self.proposition_graph.nodes@[self.proposition_graph.parents@[node]@[k] as int]@->Group_0,
                    conclusion: self.proposition_graph.nodes@[node]@->Single_0,
                    inference: self.proposition_graph.inferences@[self.proposition_graph.parents@[node]@[k] as int]->0@,
                },
        )
    }

    /// The model's marginals over every premise assignment of a vertex.
    pub open spec fn preds_spec(self, node: int) -> Seq<Rational> {
        Seq::new(
            all_combos(self.proposition_graph.parents@[node]@.len()).len(),
            |i: int|
                self.model.spec_predict(
                    Self::combo_probs(
                        all_combos(self.proposition_graph.parents@[node]@.len())[i],
                    ),
                    self.ctx_factors(node),
                ),
        )
    }

    /// Reads the π-messages arriving at a vertex.
    #[verifier::loop_isolation(false)]
    pub(crate) fn gather_parent_msgs(&self, node: usize) -> (res: Result<
        Vec<(Rational, Rational)>,
        BeliefError,
    >)
        requires
            self.inv(),
            node < self.gn(),
        ensures
            (res is Ok) == self.pmsgs_ready(node as int),
            res matches Ok(v) ==> v@ == self.pmsgs(node as int),
            res matches Err(e) ==> e == BeliefError::MissingBelief,
    {
        let row_len = self.proposition_graph.parents[node].len();
        let mut v: Vec<(Rational, Rational)> = Vec::new();
        let mut k: usize = 0;
        while k < row_len
            invariant
                k <= row_len,
                row_len == self.proposition_graph.parents@[node as int]@.len(),
                v@.len() == k,
                forall|j: int|
                    0 <= j < k ==> cell_full(#[trigger] self.data.pi_msg@[node as int]@[j]),
                forall|j: int| 0 <= j < k ==> v@[j] == self.pmsgs(node as int)[j],
            decreases row_len - k,
        {
            let m0 = match self.data.get_pi_message(node, k, 0) {
                Some(x) => x,
                None => {
                    return Err(BeliefError::MissingBelief);
                },
            };
            let m1 = match self.data.get_pi_message(node, k, 1) {
                Some(x) => x,
                None => {
                    return Err(BeliefError::MissingBelief);
                },
            };
            v.push((m0, m1));
            k += 1;
        }
        proof {
            assert(v@ =~= self.pmsgs(node as int));
        }
        Ok(v)
    }

    /// Builds the factor context of a Single vertex for one premise
    /// assignment.
    #[verifier::loop_isolation(false)]
    pub fn build_factor_context_for_assignment(&self, node: usize, combo: &Vec<bool>) -> (ctx:
        FactorContext)
        requires
            self.inv(),
            node < self.gn(),
            self.proposition_graph.single(node as int),
            combo@.len() == self.proposition_graph.parents@[node as int]@.len(),
        ensures
            ctx.wf(),
            ctx.probs() == Self::combo_probs(combo@),
            ctx.factors() == self.ctx_factors(node as int),
    {
        let row_len = self.proposition_graph.parents[node].len();
        let mut probabilities: Vec<Rational> = Vec::new();
        let mut factor: Vec<PropositionInferenceFactor> = Vec::new();
        let conclusion = self.proposition_graph.nodes[node].extract_single();
        let mut k: usize = 0;
        while k < row_len
            invariant
                k <= row_len,
                row_len == self.proposition_graph.parents@[node as int]@.len(),
                self.proposition_graph.nodes@[node as int]@ == crate::graph::NodeView::Single(
                    conclusion@,
                ),
                probabilities@.len() == k,
                factor@.len() == k,
                forall|j: int|
                    0 <= j < k ==> (#[trigger] probabilities@[j]) == Self::combo_probs(combo@)[j],
                forall|j: int|
                    0 <= j < k ==> (#[trigger] factor@[j])@ == self.ctx_factors(node as int)[j],
            decreases row_len - k,
        {
            if combo[k] {
                probabilities.push(Rational::one());
            } else {
                probabilities.push(Rational::zero());
            }
            let gid = self.proposition_graph.parents[node][k];
            proof {
                assert(!self.proposition_graph.single(gid as int));
                assert(self.proposition_graph.inferences@[gid as int] is Some);
            }
            let premise = self.proposition_graph.nodes[gid].extract_group();
            let inference = match &self.proposition_graph.inferences[gid] {
                Some(f) => f.clone(),
                None => vstd::pervasive::unreached(),
            };
            factor.push(
                PropositionInferenceFactor {
                    premise,
                    conclusion: conclusion.clone(),
                    inference,
                },
            );
            k += 1;
        }
        let ctx = FactorContext { factor, probabilities };
        proof {
            assert(ctx.probs() =~= Self::combo_probs(combo@));
            assert(ctx.factors() =~= self.ctx_factors(node as int));
            assert forall|i: int| 0 <= i < ctx.probabilities@.len() implies (
            #[trigger] ctx.probabilities@[i]).wf() && qle(
                ctx.probabilities@[i],
                Rational { num: 1, den: 1 },
            ) by {
                assert(ctx.probabilities@[i] == Self::combo_probs(combo@)[i]);
            }
        }
        ctx
    }

    /// Asks the model for its marginal at every premise assignment.
    #[verifier::loop_isolation(false)]
    pub(crate) fn collect_predictions(&self, node: usize, combos: &Vec<Vec<bool>>) -> (res: Result<
        Vec<Rational>,
        BeliefError,
    >)
        requires
            self.inv(),
            node < self.gn(),
            self.proposition_graph.single(node as int),
            combos@.map_values(|c: Vec<bool>| c@) == all_combos(
                self.proposition_graph.parents@[node as int]@.len(),
            ),
        ensures
            (res is Ok) == forall|i: int|
                0 <= i < all_combos(self.proposition_graph.parents@[node as int]@.len()).len()
                    ==> self.model.spec_predict_ok(
                    #[trigger] Self::combo_probs(
                        all_combos(self.proposition_graph.parents@[node as int]@.len())[i],
                    ),
                    self.ctx_factors(node as int),
                ),
            res matches Ok(v) ==> v@ == self.preds_spec(node as int) && crate::inference::preds_wf(
                v@,
            ),
    {
        let ghost k = self.proposition_graph.parents@[node as int]@.len();
        proof {
            crate::inference::lemma_all_combos_shape(k);
        }
        let mut v: Vec<Rational> = Vec::new();
        let mut i: usize = 0;
        while i < combos.len()
            invariant
                i <= combos@.len(),
                combos@.map_values(|c: Vec<bool>| c@) == all_combos(k),
                k == self.proposition_graph.parents@[node as int]@.len(),
                v@.len() == i,
                forall|j: int|
                    0 <= j < i ==> self.model.spec_predict_ok(
                        #[trigger] Self::combo_probs(all_combos(k)[j]),
                        self.ctx_factors(node as int),
                    ),
                forall|j: int| 0 <= j < i ==> (#[trigger] v@[j]) == self.preds_spec(node as int)[j],
                forall|j: int|
                    0 <= j < i ==> (#[trigger] v@[j]).wf() && qle(
                        v@[j],
                        Rational { num: 1, den: 1 },
                    ),
            decreases combos@.len() - i,
        {
            proof {
                assert(combos@[i as int]@ == all_combos(k)[i as int]);
                assert(all_combos(k)[i as int].len() == k);
            }
            let ctx = self.build_factor_context_for_assignment(node, &combos[i]);
            match self.model.predict(&ctx) {
                Ok(ps) => {
                    v.push(ps.marginal);
                },
                Err(e) => {
                    return Err(e);
                },
            }
            i += 1;
        }
        proof {
            assert(v@ =~= self.preds_spec(node as int));
        }
        Ok(v)
    }

    /// Pins a root's π-value: false gets nothing, true everything.
    pub fn pi_compute_root(&mut self, node: usize)
        requires
            old(self).inv(),
            node < old(self).gn(),
        ensures
            final(self).inv(),
            final(self).data.pi@ == old(self).data.pi@.update(
                node as int,
                (Some(Rational { num: 0, den: 1 }), Some(Rational { num: 1, den: 1 })),
            ),
            final(self).data.lambda == old(self).data.lambda,
            final(self).data.pi_msg == old(self).data.pi_msg,
            final(self).data.lambda_msg == old(self).data.lambda_msg,
            final(self).proposition_graph == old(self).proposition_graph,
            final(self).evidence == old(self).evidence,
            final(self).bfs_order == old(self).bfs_order,
            final(self).marginals == old(self).marginals,
            final(self).model == old(self).model,
            final(self).state == old(self).state,
    {
        self.data.set_pi_value(node, 1, Rational::one());
        self.data.set_pi_value(node, 0, Rational::zero());
        proof {
            assert(self.data.pi@ =~= old(self).data.pi@.update(
                node as int,
                (Some(Rational { num: 0, den: 1 }), Some(Rational { num: 1, den: 1 })),
            ));
        }
    }

    /// Pins an observed vertex's π-value from its evidence.
    pub fn pi_set_from_evidence(&mut self, node: usize)
        requires
            old(self).inv(),
            node < old(self).gn(),
            old(self).observed_spec(node as int),
        ensures
            final(self).inv(),
            final(self).data.pi@ == old(self).data.pi@.update(
                node as int,
                (
                    Some(
                        Rational {
                            num: (old(self).evidence@[node as int]->0.den
                                - old(self).evidence@[node as int]->0.num) as u64,
                            den: old(self).evidence@[node as int]->0.den,
                        },
                    ),
                    Some(old(self).evidence@[node as int]->0),
                ),
            ),
            final(self).data.lambda == old(self).data.lambda,
            final(self).data.pi_msg == old(self).data.pi_msg,
            final(self).data.lambda_msg == old(self).data.lambda_msg,
            final(self).proposition_graph == old(self).proposition_graph,
            final(self).evidence == old(self).evidence,
            final(self).bfs_order == old(self).bfs_order,
            final(self).marginals == old(self).marginals,
            final(self).model == old(self).model,
            final(self).state == old(self).state,
    {
        let probability = match self.evidence[node] {
            Some(p) => p,
            None => vstd::pervasive::unreached(),
        };
        let against = probability.complement();
        self.data.set_pi_value(node, 1, probability);
        self.data.set_pi_value(node, 0, against);
        proof {
            assert(against == Rational {
                num: (probability.den - probability.num) as u64,
                den: probability.den,
            });
            assert(self.data.pi@ =~= old(self).data.pi@.update(
                node as int,
                (Some(against), Some(probability)),
            ));
        }
    }

    /// Computes a non-observed Single's π-value from its parents'
    /// messages and the model.
    pub fn pi_compute_single(&mut self, node: usize) -> (res: Result<(), BeliefError>)
        requires
            old(self).inv(),
            node < old(self).gn(),
            old(self).proposition_graph.single(node as int),
        ensures
            final(self).inv(),
            old(self).proposition_graph.parents@[node as int]@.len() > 16 ==> res == Err::<
                (),
                BeliefError,
            >(BeliefError::UnresolvableProposition),
            old(self).proposition_graph.parents@[node as int]@.len() <= 16 && !old(
                self,
            ).pmsgs_ready(node as int) ==> res == Err::<(), BeliefError>(
                BeliefError::MissingBelief,
            ),
            ({
                let k = old(self).proposition_graph.parents@[node as int]@.len();
                &&& k <= 16
                &&& old(self).pmsgs_ready(node as int)
                &&& forall|i: int|
                    0 <= i < all_combos(k).len() ==> old(self).model.spec_predict_ok(
                        #[trigger] Self::combo_probs(all_combos(k)[i]),
                        old(self).ctx_factors(node as int),
                    )
                &&& pi_single_fits(
                    old(self).pmsgs(node as int),
                    all_combos(k),
                    old(self).preds_spec(node as int),
                    all_combos(k).len() as int,
                )
            }) ==> res is Ok,
            res is Ok ==> {
                let k = old(self).proposition_graph.parents@[node as int]@.len();
                let sums = pi_single_sums(
                    old(self).pmsgs(node as int),
                    all_combos(k),
                    old(self).preds_spec(node as int),
                    all_combos(k).len() as int,
                );
                &&& cell_full(final(self).data.pi@[node as int])
                &&& final(self).data.pi@[node as int].1->0.pv() == sums.0
                &&& final(self).data.pi@[node as int].0->0.pv() == sums.1
                &&& final(self).data.pi@ == old(self).data.pi@.update(
                    node as int,
                    final(self).data.pi@[node as int],
                )
            },
            final(self).data.lambda == old(self).data.lambda,
            final(self).data.pi_msg == old(self).data.pi_msg,
            final(self).data.lambda_msg == old(self).data.lambda_msg,
            res is Err ==> final(self).data.pi == old(self).data.pi,
            final(self).proposition_graph == old(self).proposition_graph,
            final(self).evidence == old(self).evidence,
            final(self).bfs_order == old(self).bfs_order,
            final(self).marginals == old(self).marginals,
            final(self).model == old(self).model,
            final(self).state == old(self).state,
    {
        let row_len = self.proposition_graph.parents[node].len();
        if row_len > 16 {
            return Err(BeliefError::UnresolvableProposition);
        }
        let msgs = match self.gather_parent_msgs(node) {
            Ok(v) => v,
            Err(e) => {
                return Err(e);
            },
        };
        let combos = compute_each_combination(row_len);
        proof {
            crate::inference::lemma_all_combos_shape(row_len as nat);
            assert forall|i: int|
                0 <= i < combos@.len() implies (#[trigger] combos@[i])@.len() == msgs@.len() by {
                assert(combos@[i]@ == all_combos(row_len as nat)[i]);
            }
        }
        let preds = match self.collect_predictions(node, &combos) {
            Ok(v) => v,
            Err(e) => {
                return Err(e);
            },
        };
        let (st, sf) = match exec_pi_single(&msgs, &combos, &preds) {
            Ok(p) => p,
            Err(e) => {
                return Err(e);
            },
        };
        self.data.set_pi_value(node, 1, st);
        self.data.set_pi_value(node, 0, sf);
        proof {
            assert(self.data.pi@ =~= old(self).data.pi@.update(
                node as int,
                (Some(sf), Some(st)),
            ));
        }
        Ok(())
    }

    /// Computes a Group's π-value: a deterministic conjunction of its
    /// premises.
    pub fn pi_compute_group(&mut self, node: usize) -> (res: Result<(), BeliefError>)
        requires
            old(self).inv(),
            node < old(self).gn(),
        ensures
            final(self).inv(),
            (res is Ok) == ({
                let k = old(self).proposition_graph.parents@[node as int]@.len();
                &&& k <= 16
                &&& old(self).pmsgs_ready(node as int)
                &&& pi_group_fits(
                    old(self).pmsgs(node as int),
                    all_combos(k),
                    all_combos(k).len() as int,
                )
            }),
            old(self).proposition_graph.parents@[node as int]@.len() > 16 ==> res == Err::<
                (),
                BeliefError,
            >(BeliefError::UnresolvableProposition),
            old(self).proposition_graph.parents@[node as int]@.len() <= 16 && !old(
                self,
            ).pmsgs_ready(node as int) ==> res == Err::<(), BeliefError>(
                BeliefError::MissingBelief,
            ),
            res is Ok ==> {
                let k = old(self).proposition_graph.parents@[node as int]@.len();
                let sums = pi_group_sums(
                    old(self).pmsgs(node as int),
                    all_combos(k),
                    all_combos(k).len() as int,
                );
                &&& cell_full(final(self).data.pi@[node as int])
                &&& final(self).data.pi@[node as int].1->0.pv() == sums.0
                &&& final(self).data.pi@[node as int].0->0.pv() == sums.1
                &&& final(self).data.pi@ == old(self).data.pi@.update(
                    node as int,
                    final(self).data.pi@[node as int],
                )
            },
            final(self).data.lambda == old(self).data.lambda,
            final(self).data.pi_msg == old(self).data.pi_msg,
            final(self).data.lambda_msg == old(self).data.lambda_msg,
            res is Err ==> final(self).data.pi == old(self).data.pi,
            final(self).proposition_graph == old(self).proposition_graph,
            final(self).evidence == old(self).evidence,
            final(self).bfs_order == old(self).bfs_order,
            final(self).marginals == old(self).marginals,
            final(self).model == old(self).model,
            final(self).state == old(self).state,
    {
        let row_len = self.proposition_graph.parents[node].len();
        if row_len > 16 {
            return Err(BeliefError::UnresolvableProposition);
        }
        let msgs = match self.gather_parent_msgs(node) {
            Ok(v) => v,
            Err(e) => {
                return Err(e);
            },
        };
        let combos = compute_each_combination(row_len);
        proof {
            crate::inference::lemma_all_combos_shape(row_len as nat);
            assert forall|i: int|
                0 <= i < combos@.len() implies (#[trigger] combos@[i])@.len() == msgs@.len() by {
                assert(combos@[i]@ == all_combos(row_len as nat)[i]);
            }
        }
        let (st, sf) = match exec_pi_group(&msgs, &combos) {
            Ok(p) => p,
            Err(e) => {
                return Err(e);
            },
        };
        self.data.set_pi_value(node, 1, st);
        self.data.set_pi_value(node, 0, sf);
        proof {
            assert(self.data.pi@ =~= old(self).data.pi@.update(
                node as int,
                (Some(sf), Some(st)),
            ));
        }
        Ok(())
    }

    /// Computes the π-value of a non-root, non-observed vertex: the
    /// assignment sums of a Single, the conjunction sums of a Group.
    pub fn pi_compute_generic(&mut self, node: usize) -> (res: Result<(), BeliefError>)
        requires
            old(self).inv(),
            node < old(self).gn(),
        ensures
            final(self).inv(),
            old(self).proposition_graph.parents@[node as int]@.len() > 16 ==> res == Err::<
                (),
                BeliefError,
            >(BeliefError::UnresolvableProposition),
            old(self).proposition_graph.parents@[node as int]@.len() <= 16 && !old(
                self,
            ).pmsgs_ready(node as int) ==> res == Err::<(), BeliefError>(
                BeliefError::MissingBelief,
            ),
            res is Ok && old(self).proposition_graph.single(node as int) ==> {
                let k = old(self).proposition_graph.parents@[node as int]@.len();
                let sums = pi_single_sums(
                    old(self).pmsgs(node as int),
                    all_combos(k),
                    old(self).preds_spec(node as int),
                    all_combos(k).len() as int,
                );
                &&& final(self).data.pi@[node as int].1 matches Some(m) && m.pv() == sums.0
                &&& final(self).data.pi@[node as int].0 matches Some(m) && m.pv() == sums.1
            },
            res is Ok && !old(self).proposition_graph.single(node as int) ==> {
                let k = old(self).proposition_graph.parents@[node as int]@.len();
                let sums = pi_group_sums(
                    old(self).pmsgs(node as int),
                    all_combos(k),
                    all_combos(k).len() as int,
                );
                &&& final(self).data.pi@[node as int].1 matches Some(m) && m.pv() == sums.0
                &&& final(self).data.pi@[node as int].0 matches Some(m) && m.pv() == sums.1
            },
            ({
                let k = old(self).proposition_graph.parents@[node as int]@.len();
                &&& k <= 16
                &&& old(self).pmsgs_ready(node as int)
                &&& (old(self).proposition_graph.single(node as int) ==> (forall|i: int|
                    0 <= i < all_combos(k).len() ==> old(self).model.spec_predict_ok(
                        #[trigger] Self::combo_probs(all_combos(k)[i]),
                        old(self).ctx_factors(node as int),
                    )) && pi_single_fits(
                    old(self).pmsgs(node as int),
                    all_combos(k),
                    old(self).preds_spec(node as int),
                    all_combos(k).len() as int,
                ))
                &&& (!old(self).proposition_graph.single(node as int) ==> pi_group_fits(
                    old(self).pmsgs(node as int),
                    all_combos(k),
                    all_combos(k).len() as int,
                ))
            }) ==> res is Ok,
            res is Ok ==> cell_full(final(self).data.pi@[node as int]) && final(self).data.pi@
                == old(self).data.pi@.update(node as int, final(self).data.pi@[node as int]),
            final(self).data.lambda == old(self).data.lambda,
            final(self).data.pi_msg == old(self).data.pi_msg,
            final(self).data.lambda_msg == old(self).data.lambda_msg,
            res is Err ==> final(self).data.pi == old(self).data.pi,
            final(self).proposition_graph == old(self).proposition_graph,
            final(self).evidence == old(self).evidence,
            final(self).bfs_order == old(self).bfs_order,
            final(self).marginals == old(self).marginals,
            final(self).model == old(self).model,
            final(self).state == old(self).state,
    {
        let is_single = match &self.proposition_graph.nodes[node].node {
            GenericNodeType::Single(_) => true,
            GenericNodeType::Group(_) => false,
        };
        if is_single {
            self.pi_compute_single(node)
        } else {
            self.pi_compute_group(node)
        }
    }

    /// Sends this vertex's π-messages to each child: the π-value for an
    /// outcome times the λ-messages of the child's siblings for it.
    #[verifier::loop_isolation(false)]
    #[verifier::rlimit(100)]
    fn pi_send_to_children(&mut self, node: usize) -> (res: Result<(), BeliefError>)
        requires
            old(self).inv(),
            node < old(self).gn(),
            cell_full(old(self).data.pi@[node as int]),
        ensures
            final(self).inv(),
            final(self).proposition_graph == old(self).proposition_graph,
            final(self).evidence == old(self).evidence,
            final(self).bfs_order == old(self).bfs_order,
            final(self).marginals == old(self).marginals,
            final(self).model == old(self).model,
            final(self).state == old(self).state,
            final(self).data.lambda == old(self).data.lambda,
            final(self).data.lambda_msg == old(self).data.lambda_msg,
            final(self).data.pi == old(self).data.pi,
            forall|r: int, k: int|
                0 <= r < old(self).gn() && 0 <= k < old(self).proposition_graph.parents@[r]@.len()
                    && (#[trigger] old(self).proposition_graph.parents@[r]@[k]) != node
                    ==> final(self).data.pi_msg@[r]@[k] == old(self).data.pi_msg@[r]@[k],
            res is Ok ==> forall|r: int, k: int|
                0 <= r < old(self).gn() && 0 <= k < old(self).proposition_graph.parents@[r]@.len()
                    && (#[trigger] old(self).proposition_graph.parents@[r]@[k]) == node
                    ==> cell_full(final(self).data.pi_msg@[r]@[k]),
            res is Ok ==> forall|t2: int|
                0 <= t2 < old(self).proposition_graph.children@[node as int]@.len() ==> {
                    let c = (#[trigger] old(self).proposition_graph.children@[node as int]@[t2]) as int;
                    let k = slot_in(old(self).proposition_graph.parents@[c]@, node);
                    let msgs = old(self).lam_sibling_msgs(node as int);
                    let w = msgs.len() as int;
                    &&& final(self).data.pi_msg@[c]@[k].0 matches Some(m) && m.pv() == pmul(
                        old(self).data.pi@[node as int].0->0.pv(),
                        combo_prod_except(msgs, Seq::new(w as nat, |j: int| false), t2, w),
                    )
                    &&& final(self).data.pi_msg@[c]@[k].1 matches Some(m) && m.pv() == pmul(
                        old(self).data.pi@[node as int].1->0.pv(),
                        combo_prod_except(msgs, Seq::new(w as nat, |j: int| true), t2, w),
                    )
                },
            old(self).proposition_graph.children@[node as int]@.len() == 0 ==> res is Ok,
    {
        let children_len = self.proposition_graph.children[node].len();
        let ghost smsgs = old(self).lam_sibling_msgs(node as int);
        let mut t: usize = 0;
        while t < children_len
            invariant
                self.inv(),
                node < self.gn(),
                t <= children_len,
                children_len == self.proposition_graph.children@[node as int]@.len(),
                self.proposition_graph == old(self).proposition_graph,
                self.evidence == old(self).evidence,
                self.bfs_order == old(self).bfs_order,
                self.marginals == old(self).marginals,
                self.model == old(self).model,
                self.state == old(self).state,
                self.data.lambda == old(self).data.lambda,
                self.data.lambda_msg == old(self).data.lambda_msg,
                self.data.pi == old(self).data.pi,
                cell_full(self.data.pi@[node as int]),
                forall|r: int, k: int|
                    0 <= r < self.gn() && 0 <= k < self.proposition_graph.parents@[r]@.len() && (
                    #[trigger] self.proposition_graph.parents@[r]@[k]) != node ==> self.data.pi_msg@[r]@[k]
                        == old(self).data.pi_msg@[r]@[k],
                forall|t2: int, k: int|
                    0 <= t2 < t && 0 <= k
                        < self.proposition_graph.parents@[self.proposition_graph.children@[node as int]@[t2] as int]@.len()
                        && (
                    #[trigger] self.proposition_graph.parents@[self.proposition_graph.children@[node as int]@[t2] as int]@[k])
                        == node ==> cell_full(
                        self.data.pi_msg@[self.proposition_graph.children@[node as int]@[t2] as int]@[k],
                    ),
                forall|t2: int|
                    0 <= t2 < t ==> {
                        let c = (#[trigger] self.proposition_graph.children@[node as int]@[t2]) as int;
                        let k = slot_in(self.proposition_graph.parents@[c]@, node);
                        let w = smsgs.len() as int;
                        &&& self.data.pi_msg@[c]@[k].0 matches Some(m) && m.pv() == pmul(
                            old(self).data.pi@[node as int].0->0.pv(),
                            combo_prod_except(smsgs, Seq::new(w as nat, |j: int| false), t2, w),
                        )
                        &&& self.data.pi_msg@[c]@[k].1 matches Some(m) && m.pv() == pmul(
                            old(self).data.pi@[node as int].1->0.pv(),
                            combo_prod_except(smsgs, Seq::new(w as nat, |j: int| true), t2, w),
                        )
                    },
            decreases children_len - t,
        {
            let ghost it0 = *self;
            let child = self.proposition_graph.children[node][t];
            proof {
                assert(child < self.gn());
                assert(self.proposition_graph.parents@[child as int]@.contains(node));
            }
            let mut lampairs: Vec<(Rational, Rational)> = Vec::new();
            let mut t2: usize = 0;
            while t2 < children_len
                invariant
                    t2 <= children_len,
                    node < self.gn(),
                    children_len == self.proposition_graph.children@[node as int]@.len(),
                    lampairs@.len() == t2,
                    crate::inference::msgs_wf(lampairs@),
                    forall|j: int| 0 <= j < t2 ==> (#[trigger] lampairs@[j]) == smsgs[j],
                decreases children_len - t2,
            {
                let sib = self.proposition_graph.children[node][t2];
                proof {
                    assert(sib < self.gn());
                    assert(self.proposition_graph.parents@[sib as int]@.contains(node));
                }
                let slot2 = parent_slot(&self.proposition_graph, sib, node);
                let a = match self.data.get_lambda_message(sib, slot2, 0) {
                    Some(x) => x,
                    None => {
                        return Err(BeliefError::MissingBelief);
                    },
                };
                let b = match self.data.get_lambda_message(sib, slot2, 1) {
                    Some(x) => x,
                    None => {
                        return Err(BeliefError::MissingBelief);
                    },
                };
                proof {
                    let row = self.proposition_graph.parents@[sib as int]@;
                    assert forall|k1: int, k2: int|
                        0 <= k1 < k2 < row.len() implies row[k1] != row[k2] by {
                        assert(self.proposition_graph.parents@[sib as int]@[k1]
                            != self.proposition_graph.parents@[sib as int]@[k2]);
                    }
                    lemma_slot_is(row, node, slot2 as int);
                    assert(self.data.lambda_msg@[sib as int]@[slot2 as int].0 == Some(a));
                    assert(self.data.lambda_msg@[sib as int]@[slot2 as int].1 == Some(b));
                    assert(smsgs[t2 as int] == (a, b));
                }
                lampairs.push((a, b));
                t2 += 1;
            }
            proof {
                assert(lampairs@ =~= smsgs);
            }
            let mut cfalse: Vec<bool> = Vec::new();
            let mut ctrue: Vec<bool> = Vec::new();
            let mut t3: usize = 0;
            while t3 < children_len
                invariant
                    t3 <= children_len,
                    cfalse@.len() == t3,
                    ctrue@.len() == t3,
                    forall|j: int| 0 <= j < t3 ==> !cfalse@[j],
                    forall|j: int| 0 <= j < t3 ==> ctrue@[j],
                decreases children_len - t3,
            {
                cfalse.push(false);
                ctrue.push(true);
                t3 += 1;
            }
            proof {
                assert(cfalse@ =~= Seq::new(children_len as nat, |j: int| false));
                assert(ctrue@ =~= Seq::new(children_len as nat, |j: int| true));
            }
            let prod0 = match exec_combo_prod_except(&lampairs, &cfalse, t) {
                Ok(p) => p,
                Err(e) => {
                    return Err(e);
                },
            };
            let prod1 = match exec_combo_prod_except(&lampairs, &ctrue, t) {
                Ok(p) => p,
                Err(e) => {
                    return Err(e);
                },
            };
            let pi0 = match self.data.get_pi_value(node, 0) {
                Some(x) => x,
                None => vstd::pervasive::unreached(),
            };
            let pi1 = match self.data.get_pi_value(node, 1) {
                Some(x) => x,
                None => vstd::pervasive::unreached(),
            };
            let m0 = match pi0.mul(prod0) {
                Some(x) => x,
                None => {
                    return Err(BeliefError::NumericOverflow);
                },
            };
            let m1 = match pi1.mul(prod1) {
                Some(x) => x,
                None => {
                    return Err(BeliefError::NumericOverflow);
                },
            };
            let slot = parent_slot(&self.proposition_graph, child, node);
            proof {
                let row = self.proposition_graph.parents@[child as int]@;
                assert forall|k1: int, k2: int|
                    0 <= k1 < k2 < row.len() implies row[k1] != row[k2] by {
                    assert(self.proposition_graph.parents@[child as int]@[k1]
                        != self.proposition_graph.parents@[child as int]@[k2]);
                }
                lemma_slot_is(row, node, slot as int);
            }
            self.data.set_pi_message(child, slot, 0, m0);
            self.data.set_pi_message(child, slot, 1, m1);
            proof {
                assert(cell_full(self.data.pi_msg@[child as int]@[slot as int]));
                assert forall|r: int, k: int|
                    0 <= r < self.gn() && 0 <= k < self.proposition_graph.parents@[r]@.len() && (
                #[trigger] self.proposition_graph.parents@[r]@[k])
                    != node implies self.data.pi_msg@[r]@[k] == old(self).data.pi_msg@[r]@[k] by {
                    if r == child as int {
                        assert(k != slot as int);
                    }
                    assert(it0.data.pi_msg@[r]@[k] == old(self).data.pi_msg@[r]@[k]);
                }
                assert forall|t2: int, k: int|
                    0 <= t2 < t + 1 && 0 <= k
                        < self.proposition_graph.parents@[self.proposition_graph.children@[node as int]@[t2] as int]@.len()
                        && (
                #[trigger] self.proposition_graph.parents@[self.proposition_graph.children@[node as int]@[t2] as int]@[k])
                    == node implies cell_full(
                    self.data.pi_msg@[self.proposition_graph.children@[node as int]@[t2] as int]@[k],
                ) by {
                    let c2 = self.proposition_graph.children@[node as int]@[t2] as int;
                    if t2 == t {
                        assert(c2 == child as int);
                        assert(k == slot as int);
                    } else {
                        if c2 == child as int {
                            assert(self.proposition_graph.children@[node as int]@[t2]
                                == self.proposition_graph.children@[node as int]@[t as int]);
                            assert(false);
                        }
                        assert(cell_full(it0.data.pi_msg@[c2]@[k]));
                        assert(self.data.pi_msg@[c2]@[k] == it0.data.pi_msg@[c2]@[k]);
                    }
                }
                let w = smsgs.len() as int;
                assert(m0.pv() == pmul(pi0.pv(), prod0.pv()));
                assert(pi0 == self.data.pi@[node as int].0->0);
                assert(pi1 == self.data.pi@[node as int].1->0);
                assert(self.data.pi@[node as int] == old(self).data.pi@[node as int]);
                assert(prod0.pv() == combo_prod_except(
                    smsgs,
                    Seq::new(w as nat, |j: int| false),
                    t as int,
                    w,
                ));
                assert(prod1.pv() == combo_prod_except(
                    smsgs,
                    Seq::new(w as nat, |j: int| true),
                    t as int,
                    w,
                ));
                assert forall|t2: int| 0 <= t2 < t + 1 implies {
                    let c = (#[trigger] self.proposition_graph.children@[node as int]@[t2]) as int;
                    let k = slot_in(self.proposition_graph.parents@[c]@, node);
                    &&& self.data.pi_msg@[c]@[k].0 matches Some(m) && m.pv() == pmul(
                        old(self).data.pi@[node as int].0->0.pv(),
                        combo_prod_except(smsgs, Seq::new(w as nat, |j: int| false), t2, w),
                    )
                    &&& self.data.pi_msg@[c]@[k].1 matches Some(m) && m.pv() == pmul(
                        old(self).data.pi@[node as int].1->0.pv(),
                        combo_prod_except(smsgs, Seq::new(w as nat, |j: int| true), t2, w),
                    )
                } by {
                    let c = self.proposition_graph.children@[node as int]@[t2] as int;
                    let k = slot_in(self.proposition_graph.parents@[c]@, node);
                    if t2 == t {
                        assert(c == child as int);
                        assert(k == slot as int);
                        assert(self.data.pi_msg@[c]@[k].0 == Some(m0));
                        assert(self.data.pi_msg@[c]@[k].1 == Some(m1));
                    } else {
                        if c == child as int {
                            assert(self.proposition_graph.children@[node as int]@[t2]
                                == self.proposition_graph.children@[node as int]@[t as int]);
                            assert(false);
                        }
                        assert(self.data.pi_msg@[c]@[k] == it0.data.pi_msg@[c]@[k]);
                    }
                }
            }
            t += 1;
        }
        proof {
            assert forall|r: int, k: int|
                0 <= r < old(self).gn() && 0 <= k < old(self).proposition_graph.parents@[r]@.len()
                    && (#[trigger] old(self).proposition_graph.parents@[r]@[k])
                    == node implies cell_full(self.data.pi_msg@[r]@[k]) by {
                assert(self.proposition_graph.children@[node as int]@.contains(r as usize));
                let t2 = choose|t2: int|
                    0 <= t2 < self.proposition_graph.children@[node as int]@.len()
                        && self.proposition_graph.children@[node as int]@[t2] == r as usize;
                assert(self.proposition_graph.children@[node as int]@[t2] == r as usize);
                assert(self.proposition_graph.parents@[self.proposition_graph.children@[node as int]@[t2] as int]@[k]
                    == node);
            }
        }
        Ok(())
    }

    /// One π-pass step: computes this vertex's π-value, then sends a
    /// π-message to each child.
    pub fn pi_visit_node(&mut self, node: usize) -> (res: Result<(), BeliefError>)
        requires
            old(self).inv(),
            node < old(self).gn(),
        ensures
            final(self).inv(),
            final(self).proposition_graph == old(self).proposition_graph,
            final(self).evidence == old(self).evidence,
            final(self).bfs_order == old(self).bfs_order,
            final(self).marginals == old(self).marginals,
            final(self).model == old(self).model,
            final(self).state == old(self).state,
            final(self).data.lambda == old(self).data.lambda,
            final(self).data.lambda_msg == old(self).data.lambda_msg,
            forall|i: int|
                0 <= i < old(self).gn() && i != node ==> final(self).data.pi@[i] == old(
                    self,
                ).data.pi@[i],
            forall|r: int, k: int|
                0 <= r < old(self).gn() && 0 <= k < old(self).proposition_graph.parents@[r]@.len()
                    && (#[trigger] old(self).proposition_graph.parents@[r]@[k]) != node
                    ==> final(self).data.pi_msg@[r]@[k] == old(self).data.pi_msg@[r]@[k],
            res is Ok ==> cell_full(final(self).data.pi@[node as int]),
            res is Ok && old(self).rooted(node as int) ==> final(self).data.pi@[node as int] == (
                Some(Rational { num: 0, den: 1 }),
                Some(Rational { num: 1, den: 1 }),
            ),
            res is Ok && !old(self).rooted(node as int) && old(self).observed_spec(node as int)
                ==> final(self).data.pi@[node as int] == (
                Some(
                    Rational {
                        num: (old(self).evidence@[node as int]->0.den
                            - old(self).evidence@[node as int]->0.num) as u64,
                        den: old(self).evidence@[node as int]->0.den,
                    },
                ),
                Some(old(self).evidence@[node as int]->0),
            ),
            res is Ok && !old(self).rooted(node as int) && !old(self).observed_spec(node as int)
                && old(self).proposition_graph.single(node as int) ==> {
                let k = old(self).proposition_graph.parents@[node as int]@.len();
                let sums = pi_single_sums(
                    old(self).pmsgs(node as int),
                    all_combos(k),
                    old(self).preds_spec(node as int),
                    all_combos(k).len() as int,
                );
                &&& final(self).data.pi@[node as int].1 matches Some(m) && m.pv() == sums.0
                &&& final(self).data.pi@[node as int].0 matches Some(m) && m.pv() == sums.1
            },
            res is Ok && !old(self).rooted(node as int) && !old(self).observed_spec(node as int)
                && !old(self).proposition_graph.single(node as int) ==> {
                let k = old(self).proposition_graph.parents@[node as int]@.len();
                let sums = pi_group_sums(
                    old(self).pmsgs(node as int),
                    all_combos(k),
                    all_combos(k).len() as int,
                );
                &&& final(self).data.pi@[node as int].1 matches Some(m) && m.pv() == sums.0
                &&& final(self).data.pi@[node as int].0 matches Some(m) && m.pv() == sums.1
            },
            res is Ok ==> forall|r: int, k: int|
                0 <= r < old(self).gn() && 0 <= k < old(self).proposition_graph.parents@[r]@.len()
                    && (#[trigger] old(self).proposition_graph.parents@[r]@[k]) == node
                    ==> cell_full(final(self).data.pi_msg@[r]@[k]),
            res is Ok ==> forall|t2: int|
                0 <= t2 < old(self).proposition_graph.children@[node as int]@.len() ==> {
                    let c = (#[trigger] old(self).proposition_graph.children@[node as int]@[t2]) as int;
                    let k = slot_in(old(self).proposition_graph.parents@[c]@, node);
                    let msgs = old(self).lam_sibling_msgs(node as int);
                    let w = msgs.len() as int;
                    &&& final(self).data.pi_msg@[c]@[k].0 matches Some(m) && m.pv() == pmul(
                        final(self).data.pi@[node as int].0->0.pv(),
                        combo_prod_except(msgs, Seq::new(w as nat, |j: int| false), t2, w),
                    )
                    &&& final(self).data.pi_msg@[c]@[k].1 matches Some(m) && m.pv() == pmul(
                        final(self).data.pi@[node as int].1->0.pv(),
                        combo_prod_except(msgs, Seq::new(w as nat, |j: int| true), t2, w),
                    )
                },
            old(self).rooted(node as int) && old(self).proposition_graph.children@[node as int]@.len()
                == 0 ==> res is Ok,
    {
        if self.is_root(node) {
            self.pi_compute_root(node);
        } else if self.is_observed(node) {
            self.pi_set_from_evidence(node);
        } else {
            match self.pi_compute_generic(node) {
                Ok(()) => {},
                Err(e) => {
                    return Err(e);
                },
            }
        }
        let ghost mid = *self;
        let res = self.pi_send_to_children(node);
        proof {
            assert(mid.lam_sibling_msgs(node as int) =~= old(self).lam_sibling_msgs(
                node as int,
            ));
        }
        res
    }

    /// The π-pass: visits every vertex in propagation order.  Afterward
    /// every root is pinned to certainty, every observed non-root Single
    /// carries its evidence, and every π-value and π-message is written.
    #[verifier::loop_isolation(false)]
    #[verifier::rlimit(100)]
    pub fn send_pi_messages(&mut self) -> (res: Result<(), BeliefError>)
        requires
            old(self).inv(),
        ensures
            final(self).inv(),
            final(self).proposition_graph == old(self).proposition_graph,
            final(self).evidence == old(self).evidence,
            final(self).bfs_order == old(self).bfs_order,
            final(self).marginals == old(self).marginals,
            final(self).model == old(self).model,
            final(self).state == old(self).state,
            final(self).data.lambda == old(self).data.lambda,
            final(self).data.lambda_msg == old(self).data.lambda_msg,
            res is Ok ==> forall|i: int|
                0 <= i < old(self).gn() ==> cell_full(#[trigger] final(self).data.pi@[i]),
            res is Ok ==> forall|i: int|
                0 <= i < old(self).gn() && old(self).rooted(i) ==> (#[trigger] final(self).data.pi@[i]) == (
                    Some(Rational { num: 0, den: 1 }),
                    Some(Rational { num: 1, den: 1 }),
                ),
            res is Ok ==> forall|i: int|
                0 <= i < old(self).gn() && !old(self).rooted(i) && old(self).observed_spec(i)
                    ==> (#[trigger] final(self).data.pi@[i]) == (
                    Some(
                        Rational {
                            num: (old(self).evidence@[i]->0.den
                                - old(self).evidence@[i]->0.num) as u64,
                            den: old(self).evidence@[i]->0.den,
                        },
                    ),
                    Some(old(self).evidence@[i]->0),
                ),
            res is Ok ==> forall|r: int, k: int|
                0 <= r < old(self).gn() && 0 <= k < old(self).proposition_graph.parents@[r]@.len()
                    ==> cell_full(#[trigger] final(self).data.pi_msg@[r]@[k]),
            res is Ok ==> forall|i: int|
                0 <= i < old(self).gn() && !old(self).rooted(i) && !old(self).observed_spec(i)
                    && old(self).proposition_graph.single(i) ==> {
                    let k = old(self).proposition_graph.parents@[i]@.len();
                    let sums = pi_single_sums(
                        final(self).pmsgs(i),
                        all_combos(k),
                        old(self).preds_spec(i),
                        all_combos(k).len() as int,
                    );
                    &&& (#[trigger] final(self).data.pi@[i]).1 matches Some(m) && m.pv()
                        == sums.0
                    &&& final(self).data.pi@[i].0 matches Some(m) && m.pv() == sums.1
                },
            res is Ok ==> forall|i: int|
                0 <= i < old(self).gn() && !old(self).rooted(i) && !old(self).observed_spec(i)
                    && !old(self).proposition_graph.single(i) ==> {
                    let k = old(self).proposition_graph.parents@[i]@.len();
                    let sums = pi_group_sums(
                        final(self).pmsgs(i),
                        all_combos(k),
                        all_combos(k).len() as int,
                    );
                    &&& (#[trigger] final(self).data.pi@[i]).1 matches Some(m) && m.pv()
                        == sums.0
                    &&& final(self).data.pi@[i].0 matches Some(m) && m.pv() == sums.1
                },
            res is Ok ==> forall|u: int, t2: int|
                0 <= u < old(self).gn() && 0 <= t2
                    < old(self).proposition_graph.children@[u]@.len() ==> {
                    let c = (#[trigger] old(self).proposition_graph.children@[u]@[t2]) as int;
                    let k = slot_in(old(self).proposition_graph.parents@[c]@, u as usize);
                    let msgs = old(self).lam_sibling_msgs(u);
                    let w = msgs.len() as int;
                    &&& final(self).data.pi_msg@[c]@[k].0 matches Some(m) && m.pv() == pmul(
                        final(self).data.pi@[u].0->0.pv(),
                        combo_prod_except(msgs, Seq::new(w as nat, |j: int| false), t2, w),
                    )
                    &&& final(self).data.pi_msg@[c]@[k].1 matches Some(m) && m.pv() == pmul(
                        final(self).data.pi@[u].1->0.pv(),
                        combo_prod_except(msgs, Seq::new(w as nat, |j: int| true), t2, w),
                    )
                },
            crate::inference::bare_chart(old(self).proposition_graph) ==> res is Ok,
    {
        let ghost g0 = *old(self);
        let order_len = self.bfs_order.len();
        let mut p: usize = 0;
        while p < order_len
            invariant
                self.inv(),
                order_len == self.bfs_order@.len(),
                p <= order_len,
                self.proposition_graph == g0.proposition_graph,
                self.evidence == g0.evidence,
                self.bfs_order == g0.bfs_order,
                self.marginals == g0.marginals,
                self.model == g0.model,
                self.state == g0.state,
                self.data.lambda == g0.data.lambda,
                self.data.lambda_msg == g0.data.lambda_msg,
                forall|q: int|
                    0 <= q < p ==> cell_full(
                        #[trigger] self.data.pi@[self.bfs_order@[q] as int],
                    ),
                forall|q: int|
                    0 <= q < p && g0.rooted(self.bfs_order@[q] as int)
                        ==> (#[trigger] self.data.pi@[self.bfs_order@[q] as int]) == (
                        Some(Rational { num: 0, den: 1 }),
                        Some(Rational { num: 1, den: 1 }),
                    ),
                forall|q: int|
                    0 <= q < p && !g0.rooted(self.bfs_order@[q] as int) && g0.observed_spec(
                        self.bfs_order@[q] as int,
                    ) ==> (#[trigger] self.data.pi@[self.bfs_order@[q] as int]) == (
                        Some(
                            Rational {
                                num: (g0.evidence@[self.bfs_order@[q] as int]->0.den
                                    - g0.evidence@[self.bfs_order@[q] as int]->0.num) as u64,
                                den: g0.evidence@[self.bfs_order@[q] as int]->0.den,
                            },
                        ),
                        Some(g0.evidence@[self.bfs_order@[q] as int]->0),
                    ),
                forall|q: int, r: int, k: int|
                    0 <= q < p && 0 <= r < self.gn() && 0 <= k
                        < self.proposition_graph.parents@[r]@.len() && (
                    #[trigger] self.proposition_graph.parents@[r]@[k]) == (
                    #[trigger] self.bfs_order@[q]) ==> cell_full(self.data.pi_msg@[r]@[k]),
                forall|q: int|
                    0 <= q < p && !g0.rooted(self.bfs_order@[q] as int) && !g0.observed_spec(
                        self.bfs_order@[q] as int,
                    ) && g0.proposition_graph.single(self.bfs_order@[q] as int) ==> {
                        let n2 = self.bfs_order@[q] as int;
                        let k = g0.proposition_graph.parents@[n2]@.len();
                        let sums = pi_single_sums(
                            self.pmsgs(n2),
                            all_combos(k),
                            g0.preds_spec(n2),
                            all_combos(k).len() as int,
                        );
                        &&& (#[trigger] self.data.pi@[self.bfs_order@[q] as int]).1 matches Some(
                            m,
                        ) && m.pv() == sums.0
                        &&& self.data.pi@[n2].0 matches Some(m) && m.pv() == sums.1
                    },
                forall|q: int|
                    0 <= q < p && !g0.rooted(self.bfs_order@[q] as int) && !g0.observed_spec(
                        self.bfs_order@[q] as int,
                    ) && !g0.proposition_graph.single(self.bfs_order@[q] as int) ==> {
                        let n2 = self.bfs_order@[q] as int;
                        let k = g0.proposition_graph.parents@[n2]@.len();
                        let sums = pi_group_sums(
                            self.pmsgs(n2),
                            all_combos(k),
                            all_combos(k).len() as int,
                        );
                        &&& (#[trigger] self.data.pi@[self.bfs_order@[q] as int]).1 matches Some(
                            m,
                        ) && m.pv() == sums.0
                        &&& self.data.pi@[n2].0 matches Some(m) && m.pv() == sums.1
                    },
                forall|q: int, t2: int|
                    0 <= q < p && 0 <= t2 < self.proposition_graph.children@[self.bfs_order@[q] as int]@.len()
                        ==> {
                        let u = (#[trigger] self.bfs_order@[q]) as int;
                        let c = (#[trigger] self.proposition_graph.children@[self.bfs_order@[q] as int]@[t2]) as int;
                        let k = slot_in(self.proposition_graph.parents@[c]@, self.bfs_order@[q]);
                        let msgs = g0.lam_sibling_msgs(u);
                        let w = msgs.len() as int;
                        &&& self.data.pi_msg@[c]@[k].0 matches Some(m) && m.pv() == pmul(
                            self.data.pi@[u].0->0.pv(),
                            combo_prod_except(msgs, Seq::new(w as nat, |j: int| false), t2, w),
                        )
                        &&& self.data.pi_msg@[c]@[k].1 matches Some(m) && m.pv() == pmul(
                            self.data.pi@[u].1->0.pv(),
                            combo_prod_except(msgs, Seq::new(w as nat, |j: int| true), t2, w),
                        )
                    },
            decreases order_len - p,
        {
            let node = self.bfs_order[p];
            proof {
                assert(node < self.gn());
            }
            let ghost pre = *self;
            match self.pi_visit_node(node) {
                Ok(()) => {},
                Err(e) => {
                    return Err(e);
                },
            }
            proof {
                assert forall|q: int|
                    0 <= q < p + 1 implies cell_full(
                    #[trigger] self.data.pi@[self.bfs_order@[q] as int],
                ) by {
                    if q < p {
                        assert(self.bfs_order@[q] != self.bfs_order@[p as int]);
                        assert(self.data.pi@[self.bfs_order@[q] as int] == pre.data.pi@[self.bfs_order@[q] as int]);
                    }
                }
                assert forall|q: int|
                    0 <= q < p + 1 && g0.rooted(self.bfs_order@[q] as int) implies (
                #[trigger] self.data.pi@[self.bfs_order@[q] as int]) == (
                    Some(Rational { num: 0, den: 1 }),
                    Some(Rational { num: 1, den: 1 }),
                ) by {
                    if q < p {
                        assert(self.bfs_order@[q] != self.bfs_order@[p as int]);
                        assert(self.data.pi@[self.bfs_order@[q] as int] == pre.data.pi@[self.bfs_order@[q] as int]);
                    }
                }
                assert forall|q: int|
                    0 <= q < p + 1 && !g0.rooted(self.bfs_order@[q] as int) && g0.observed_spec(
                        self.bfs_order@[q] as int,
                    ) implies (#[trigger] self.data.pi@[self.bfs_order@[q] as int]) == (
                    Some(
                        Rational {
                            num: (g0.evidence@[self.bfs_order@[q] as int]->0.den
                                - g0.evidence@[self.bfs_order@[q] as int]->0.num) as u64,
                            den: g0.evidence@[self.bfs_order@[q] as int]->0.den,
                        },
                    ),
                    Some(g0.evidence@[self.bfs_order@[q] as int]->0),
                ) by {
                    if q < p {
                        assert(self.bfs_order@[q] != self.bfs_order@[p as int]);
                        assert(self.data.pi@[self.bfs_order@[q] as int] == pre.data.pi@[self.bfs_order@[q] as int]);
                    }
                }
                assert forall|q: int, r: int, k: int|
                    0 <= q < p + 1 && 0 <= r < self.gn() && 0 <= k
                        < self.proposition_graph.parents@[r]@.len() && (
                #[trigger] self.proposition_graph.parents@[r]@[k]) == (
                #[trigger] self.bfs_order@[q]) implies cell_full(self.data.pi_msg@[r]@[k]) by {
                    if q < p {
                        assert(self.bfs_order@[q] != self.bfs_order@[p as int]);
                        assert(self.proposition_graph.parents@[r]@[k] != node);
                        assert(self.data.pi_msg@[r]@[k] == pre.data.pi_msg@[r]@[k]);
                    }
                }
                // a later vertex never rewrites the messages into an
                // earlier one: its children sit later in the order
                assert forall|q: int|
                    0 <= q < p + 1 implies self.pmsgs(self.bfs_order@[q] as int) == pre.pmsgs(
                    self.bfs_order@[q] as int,
                ) by {
                    let n2 = self.bfs_order@[q] as int;
                    assert forall|k2: int|
                        0 <= k2 < self.proposition_graph.parents@[n2]@.len() implies (
                    #[trigger] self.proposition_graph.parents@[n2]@[k2]) != node by {
                        if self.proposition_graph.parents@[n2]@[k2] == node {
                            assert(self.proposition_graph.children@[node as int]@.contains(
                                n2 as usize,
                            ));
                            assert(self.proposition_graph.edge(node as int, n2));
                            assert(self.bfs_order@[p as int] == node);
                            assert((p as int) < q);
                        }
                    }
                    assert forall|k2: int|
                        0 <= k2 < self.proposition_graph.parents@[n2]@.len() implies (
                    #[trigger] self.data.pi_msg@[n2]@[k2]) == pre.data.pi_msg@[n2]@[k2] by {
                        assert(pre.proposition_graph.parents@[n2]@[k2] != node);
                    }
                    assert(self.pmsgs(n2) =~= pre.pmsgs(n2));
                }
                assert forall|q: int|
                    0 <= q < p + 1 && !g0.rooted(self.bfs_order@[q] as int) && !g0.observed_spec(
                        self.bfs_order@[q] as int,
                    ) && g0.proposition_graph.single(self.bfs_order@[q] as int) implies {
                    let n2 = self.bfs_order@[q] as int;
                    let k = g0.proposition_graph.parents@[n2]@.len();
                    let sums = pi_single_sums(
                        self.pmsgs(n2),
                        all_combos(k),
                        g0.preds_spec(n2),
                        all_combos(k).len() as int,
                    );
                    &&& (#[trigger] self.data.pi@[self.bfs_order@[q] as int]).1 matches Some(m)
                        && m.pv() == sums.0
                    &&& self.data.pi@[n2].0 matches Some(m) && m.pv() == sums.1
                } by {
                    let n2 = self.bfs_order@[q] as int;
                    assert(self.pmsgs(n2) == pre.pmsgs(n2));
                    if q == p {
                        lemma_specs_stable::<M>(pre, g0, n2);
                    } else {
                        assert(self.bfs_order@[q] != self.bfs_order@[p as int]);
                        assert(self.data.pi@[n2] == pre.data.pi@[n2]);
                    }
                }
                assert forall|q: int|
                    0 <= q < p + 1 && !g0.rooted(self.bfs_order@[q] as int) && !g0.observed_spec(
                        self.bfs_order@[q] as int,
                    ) && !g0.proposition_graph.single(self.bfs_order@[q] as int) implies {
                    let n2 = self.bfs_order@[q] as int;
                    let k = g0.proposition_graph.parents@[n2]@.len();
                    let sums = pi_group_sums(
                        self.pmsgs(n2),
                        all_combos(k),
                        all_combos(k).len() as int,
                    );
                    &&& (#[trigger] self.data.pi@[self.bfs_order@[q] as int]).1 matches Some(m)
                        && m.pv() == sums.0
                    &&& self.data.pi@[n2].0 matches Some(m) && m.pv() == sums.1
                } by {
                    let n2 = self.bfs_order@[q] as int;
                    assert(self.pmsgs(n2) == pre.pmsgs(n2));
                    if q != p {
                        assert(self.bfs_order@[q] != self.bfs_order@[p as int]);
                        assert(self.data.pi@[n2] == pre.data.pi@[n2]);
                    }
                }
                assert forall|q: int, t2: int|
                    0 <= q < p + 1 && 0 <= t2
                        < self.proposition_graph.children@[self.bfs_order@[q] as int]@.len() implies {
                    let u = (#[trigger] self.bfs_order@[q]) as int;
                    let c = (
                    #[trigger] self.proposition_graph.children@[self.bfs_order@[q] as int]@[t2]) as int;
                    let k = slot_in(self.proposition_graph.parents@[c]@, self.bfs_order@[q]);
                    let msgs = g0.lam_sibling_msgs(u);
                    let w = msgs.len() as int;
                    &&& self.data.pi_msg@[c]@[k].0 matches Some(m) && m.pv() == pmul(
                        self.data.pi@[u].0->0.pv(),
                        combo_prod_except(msgs, Seq::new(w as nat, |j: int| false), t2, w),
                    )
                    &&& self.data.pi_msg@[c]@[k].1 matches Some(m) && m.pv() == pmul(
                        self.data.pi@[u].1->0.pv(),
                        combo_prod_except(msgs, Seq::new(w as nat, |j: int| true), t2, w),
                    )
                } by {
                    let u = self.bfs_order@[q] as int;
                    let c = self.proposition_graph.children@[u]@[t2] as int;
                    let row = self.proposition_graph.parents@[c]@;
                    assert(c < self.gn());
                    assert(row.contains(u as usize));
                    let k3 = slot_in(row, self.bfs_order@[q]);
                    assert(0 <= k3 < row.len() && row[k3] == self.bfs_order@[q]);
                    if q == p {
                        lemma_specs_stable::<M>(pre, g0, u);
                        assert(pre.lam_sibling_msgs(u) == g0.lam_sibling_msgs(u));
                    } else {
                        assert(self.bfs_order@[q] != self.bfs_order@[p as int]);
                        assert(row[k3] != node);
                        assert(self.data.pi_msg@[c]@[k3] == pre.data.pi_msg@[c]@[k3]);
                        assert(self.data.pi@[u] == pre.data.pi@[u]);
                    }
                }
            }
            p += 1;
        }
        proof {
            assert forall|i: int|
                0 <= i < g0.gn() implies cell_full(#[trigger] self.data.pi@[i]) by {
                assert(self.bfs_order@.contains(i as usize));
                let q = choose|q: int|
                    0 <= q < self.bfs_order@.len() && self.bfs_order@[q] == i as usize;
                assert(cell_full(self.data.pi@[self.bfs_order@[q] as int]));
            }
            assert forall|i: int|
                0 <= i < g0.gn() && g0.rooted(i) implies (#[trigger] self.data.pi@[i]) == (
                Some(Rational { num: 0, den: 1 }),
                Some(Rational { num: 1, den: 1 }),
            ) by {
                assert(self.bfs_order@.contains(i as usize));
                let q = choose|q: int|
                    0 <= q < self.bfs_order@.len() && self.bfs_order@[q] == i as usize;
                assert(g0.rooted(self.bfs_order@[q] as int));
            }
            assert forall|i: int|
                0 <= i < g0.gn() && !g0.rooted(i) && g0.observed_spec(i) implies (
            #[trigger] self.data.pi@[i]) == (
                Some(
                    Rational {
                        num: (g0.evidence@[i]->0.den - g0.evidence@[i]->0.num) as u64,
                        den: g0.evidence@[i]->0.den,
                    },
                ),
                Some(g0.evidence@[i]->0),
            ) by {
                assert(self.bfs_order@.contains(i as usize));
                let q = choose|q: int|
                    0 <= q < self.bfs_order@.len() && self.bfs_order@[q] == i as usize;
                assert(!g0.rooted(self.bfs_order@[q] as int));
                assert(g0.observed_spec(self.bfs_order@[q] as int));
            }
            assert forall|r: int, k: int|
                0 <= r < g0.gn() && 0 <= k
                    < self.proposition_graph.parents@[r]@.len() implies cell_full(
                #[trigger] self.data.pi_msg@[r]@[k],
            ) by {
                let u = self.proposition_graph.parents@[r]@[k];
                assert((u as int) < g0.gn());
                assert(self.bfs_order@.contains(((u as int) as usize)));
                assert(((u as int) as usize) == u);
                let q = choose|q: int|
                    0 <= q < self.bfs_order@.len() && self.bfs_order@[q] == u;
                assert(self.proposition_graph.parents@[r]@[k] == self.bfs_order@[q]);
            }
            assert forall|i: int|
                0 <= i < g0.gn() && !g0.rooted(i) && !g0.observed_spec(i)
                    && g0.proposition_graph.single(i) implies {
                let k = g0.proposition_graph.parents@[i]@.len();
                let sums = pi_single_sums(
                    self.pmsgs(i),
                    all_combos(k),
                    g0.preds_spec(i),
                    all_combos(k).len() as int,
                );
                &&& (#[trigger] self.data.pi@[i]).1 matches Some(m) && m.pv() == sums.0
                &&& self.data.pi@[i].0 matches Some(m) && m.pv() == sums.1
            } by {
                assert(self.bfs_order@.contains(i as usize));
                let q = choose|q: int|
                    0 <= q < self.bfs_order@.len() && self.bfs_order@[q] == i as usize;
                assert(!g0.rooted(self.bfs_order@[q] as int));
                assert(!g0.observed_spec(self.bfs_order@[q] as int));
                assert(g0.proposition_graph.single(self.bfs_order@[q] as int));
                assert(self.data.pi@[self.bfs_order@[q] as int] == self.data.pi@[i]);
            }
            assert forall|i: int|
                0 <= i < g0.gn() && !g0.rooted(i) && !g0.observed_spec(i)
                    && !g0.proposition_graph.single(i) implies {
                let k = g0.proposition_graph.parents@[i]@.len();
                let sums = pi_group_sums(self.pmsgs(i), all_combos(k), all_combos(k).len() as int);
                &&& (#[trigger] self.data.pi@[i]).1 matches Some(m) && m.pv() == sums.0
                &&& self.data.pi@[i].0 matches Some(m) && m.pv() == sums.1
            } by {
                assert(self.bfs_order@.contains(i as usize));
                let q = choose|q: int|
                    0 <= q < self.bfs_order@.len() && self.bfs_order@[q] == i as usize;
                assert(!g0.rooted(self.bfs_order@[q] as int));
                assert(!g0.observed_spec(self.bfs_order@[q] as int));
                assert(!g0.proposition_graph.single(self.bfs_order@[q] as int));
                assert(self.data.pi@[self.bfs_order@[q] as int] == self.data.pi@[i]);
            }
            assert forall|u: int, t2: int|
                0 <= u < g0.gn() && 0 <= t2
                    < g0.proposition_graph.children@[u]@.len() implies {
                let c = (#[trigger] g0.proposition_graph.children@[u]@[t2]) as int;
                let k = slot_in(g0.proposition_graph.parents@[c]@, u as usize);
                let msgs = g0.lam_sibling_msgs(u);
                let w = msgs.len() as int;
                &&& self.data.pi_msg@[c]@[k].0 matches Some(m) && m.pv() == pmul(
                    self.data.pi@[u].0->0.pv(),
                    combo_prod_except(msgs, Seq::new(w as nat, |j: int| false), t2, w),
                )
                &&& self.data.pi_msg@[c]@[k].1 matches Some(m) && m.pv() == pmul(
                    self.data.pi@[u].1->0.pv(),
                    combo_prod_except(msgs, Seq::new(w as nat, |j: int| true), t2, w),
                )
            } by {
                assert(self.bfs_order@.contains(((u as int) as usize)));
                assert(((u as int) as usize) == u as usize);
                let q = choose|q: int|
                    0 <= q < self.bfs_order@.len() && self.bfs_order@[q] == u as usize;
                assert(self.bfs_order@[q] as int == u);
                assert(self.proposition_graph.children@[self.bfs_order@[q] as int]@[t2]
                    == g0.proposition_graph.children@[u]@[t2]);
            }
        }
        Ok(())
    }

}

} // verus!
