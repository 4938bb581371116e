//! The λ-pass: diagnostic support, target toward roots.
//!
//! Initialization sets every λ-value and λ-message to one.  Walking the
//! propagation order backward, each vertex takes its λ-value — from
//! evidence when observed, otherwise the product of its children's
//! λ-messages — and then sends a λ-message up every backward edge: over
//! the assignments fixing that parent, its likelihood under the
//! assignment times the other parents' π-messages.

use vstd::prelude::*;

use crate::errors::BeliefError;
use crate::graph::GenericNodeType;
use crate::inference::{
    Inferencer, all_combos, and_all, cell_full, compute_each_combination, exec_lambda_send,
    exec_prod_list, lambda_send_fits, lambda_send_sums, preds_wf, prod_list, prod_list_fits,
};
use crate::interface::FactorModel;
use crate::pi::{lemma_specs_stable, parent_slot, slot_in};
use crate::rational::{Rational, qle};

verus! {

/// The conjunction weights of a Group: one where the assignment sets
/// every premise true, else zero.
pub open spec fn group_weights(combos: Seq<Seq<bool>>) -> Seq<Rational> {
    Seq::new(
        combos.len(),
        |i: int|
            if and_all(combos[i]) {
                Rational { num: 1, den: 1 }
            } else {
                Rational { num: 0, den: 1 }
            },
    )
}

/// Builds the conjunction weights of a Group, executably.
#[verifier::loop_isolation(false)]
fn exec_group_weights(combos: &Vec<Vec<bool>>) -> (r: Vec<Rational>)
    ensures
        r@ == group_weights(combos@.map_values(|c: Vec<bool>| c@)),
        preds_wf(r@),
{
    let ghost cv = combos@.map_values(|c: Vec<bool>| c@);
    let mut r: Vec<Rational> = Vec::new();
    let mut i: usize = 0;
    while i < combos.len()
        invariant
            i <= combos@.len(),
            cv == combos@.map_values(|c: Vec<bool>| c@),
            r@.len() == i,
            forall|j: int| 0 <= j < i ==> r@[j] == group_weights(cv)[j],
            forall|j: int|
                0 <= j < i ==> (#[trigger] r@[j]).wf() && qle(r@[j], Rational { num: 1, den: 1 }),
        decreases combos@.len() - i,
    {
        if crate::inference::all_true(&combos[i]) {
            r.push(Rational::one());
        } else {
            r.push(Rational::zero());
        }
        i += 1;
    }
    proof {
        assert(r@ =~= group_weights(cv));
    }
    r
}

impl<M: FactorModel> Inferencer<M> {
    /// The likelihood weights a vertex scores assignments with: the
    /// model's marginals for a Single, the conjunction indicator for a
    /// Group.
    pub open spec fn send_weights(self, node: int) -> Seq<Rational> {
        if self.proposition_graph.single(node) {
            self.preds_spec(node)
        } else {
            group_weights(all_combos(self.proposition_graph.parents@[node]@.len()))
        }
    }

    /// Whether every λ-message from this vertex's children has been
    /// written at the slots its edges occupy.
    pub open spec fn lmsgs_ready(self, node: int) -> bool {
        forall|t: int|
            0 <= t < self.proposition_graph.children@[node]@.len() ==> cell_full(
                self.data.lambda_msg@[(#[trigger] self.proposition_graph.children@[node]@[t]) as int]@[slot_in(
                    self.proposition_graph.parents@[self.proposition_graph.children@[node]@[t] as int]@,
                    node as usize,
                )],
            )
    }

    /// When sending λ-messages from a vertex is owed to succeed: no
    /// parents at all, or a capped fan-in with every incoming π-message
    /// written, the model answering every assignment of a Single, and
    /// every message sum fitting in machine words.
    pub open spec fn lambda_send_ok(self, node: int) -> bool {
        let k = self.proposition_graph.parents@[node]@.len();
        let lam = (self.data.lambda@[node].0->0, self.data.lambda@[node].1->0);
        k == 0 || ({
            &&& k <= 16
            &&& self.pmsgs_ready(node)
            &&& (self.proposition_graph.single(node) ==> forall|i: int|
                0 <= i < all_combos(k).len() ==> self.model.spec_predict_ok(
                    #[trigger] Self::combo_probs(all_combos(k)[i]),
                    self.ctx_factors(node),
                ))
            &&& forall|s2: int|
                0 <= s2 < k as int ==> lambda_send_fits(
                    self.pmsgs(node),
                    all_combos(k),
                    self.send_weights(node),
                    lam,
                    s2,
                    false,
                    all_combos(k).len() as int,
                ) && #[trigger] lambda_send_fits(
                    self.pmsgs(node),
                    all_combos(k),
                    self.send_weights(node),
                    lam,
                    s2,
                    true,
                    all_combos(k).len() as int,
                )
        })
    }

    /// Sets every λ-value and λ-message to one, the neutral diagnostic
    /// support.
    #[verifier::loop_isolation(false)]
    pub fn initialize_lambda(&mut self)
        requires
            old(self).inv(),
        ensures
            final(self).inv(),
            final(self).proposition_graph == old(self).proposition_graph,
            final(self).evidence == old(self).evidence,
            final(self).bfs_order == old(self).bfs_order,
            final(self).marginals == old(self).marginals,
            final(self).model == old(self).model,
            final(self).state == old(self).state,
            final(self).data.pi == old(self).data.pi,
            final(self).data.pi_msg == old(self).data.pi_msg,
            forall|i: int|
                0 <= i < old(self).gn() ==> (#[trigger] final(self).data.lambda@[i]) == (
                    Some(Rational { num: 1, den: 1 }),
                    Some(Rational { num: 1, den: 1 }),
                ),
            forall|r: int, k: int|
                0 <= r < old(self).gn() && 0 <= k < old(self).proposition_graph.parents@[r]@.len()
                    ==> (#[trigger] final(self).data.lambda_msg@[r]@[k]) == (
                    Some(Rational { num: 1, den: 1 }),
                    Some(Rational { num: 1, den: 1 }),
                ),
    {
        let n = self.proposition_graph.nodes.len();
        let mut i: usize = 0;
        while i < n
            invariant
                self.inv(),
                i <= n,
                n == self.gn(),
                self.proposition_graph == old(self).proposition_graph,
                self.evidence == old(self).evidence,
                self.bfs_order == old(self).bfs_order,
                self.marginals == old(self).marginals,
                self.model == old(self).model,
                self.state == old(self).state,
                self.data.pi == old(self).data.pi,
                self.data.pi_msg == old(self).data.pi_msg,
                forall|j: int|
                    0 <= j < i ==> (#[trigger] self.data.lambda@[j]) == (
                        Some(Rational { num: 1, den: 1 }),
                        Some(Rational { num: 1, den: 1 }),
                    ),
                forall|r: int, k: int|
                    0 <= r < i && 0 <= k < self.proposition_graph.parents@[r]@.len() ==> (
                    #[trigger] self.data.lambda_msg@[r]@[k]) == (
                        Some(Rational { num: 1, den: 1 }),
                        Some(Rational { num: 1, den: 1 }),
                    ),
            decreases n - i,
        {
            self.data.set_lambda_value(i, 0, Rational::one());
            self.data.set_lambda_value(i, 1, Rational::one());
            let row_len = self.proposition_graph.parents[i].len();
            let mut k: usize = 0;
            while k < row_len
                invariant
                    self.inv(),
                    i < n,
                    n == self.gn(),
                    k <= row_len,
                    row_len == self.proposition_graph.parents@[i as int]@.len(),
                    self.proposition_graph == old(self).proposition_graph,
                    self.evidence == old(self).evidence,
                    self.bfs_order == old(self).bfs_order,
                    self.marginals == old(self).marginals,
                    self.model == old(self).model,
                    self.state == old(self).state,
                    self.data.pi == old(self).data.pi,
                    self.data.pi_msg == old(self).data.pi_msg,
                    self.data.lambda@[i as int] == (
                        Some(Rational { num: 1, den: 1 }),
                        Some(Rational { num: 1, den: 1 }),
                    ),
                    forall|j: int|
                        0 <= j < i ==> (#[trigger] self.data.lambda@[j]) == (
                            Some(Rational { num: 1, den: 1 }),
                            Some(Rational { num: 1, den: 1 }),
                        ),
                    forall|r: int, k2: int|
                        0 <= r < i && 0 <= k2 < self.proposition_graph.parents@[r]@.len() ==> (
                        #[trigger] self.data.lambda_msg@[r]@[k2]) == (
                            Some(Rational { num: 1, den: 1 }),
                            Some(Rational { num: 1, den: 1 }),
                        ),
                    forall|k2: int|
                        0 <= k2 < k ==> (#[trigger] self.data.lambda_msg@[i as int]@[k2]) == (
                            Some(Rational { num: 1, den: 1 }),
                            Some(Rational { num: 1, den: 1 }),
                        ),
                decreases row_len - k,
            {
                self.data.set_lambda_message(i, k, 0, Rational::one());
                self.data.set_lambda_message(i, k, 1, Rational::one());
                k += 1;
            }
            i += 1;
        }
    }

    /// Pins an observed vertex's λ-value from its evidence.
    pub fn lambda_set_from_evidence(&mut self, node: usize)
        requires
            old(self).inv(),
            node < old(self).gn(),
            old(self).observed_spec(node as int),
        ensures
            final(self).inv(),
            final(self).data.lambda@ == old(self).data.lambda@.update(
                node as int,
                (
                    Some(
                        Rational {
                            num: (old(self).evidence@[node as int]->0.den
                                - old(self).evidence@[node as int]->0.num) as u64,
                            den: old(self).evidence@[node as int]->0.den,
                        },
                    ),
                    Some(old(self).evidence@[node as int]->0),
                ),
            ),
            final(self).data.pi == old(self).data.pi,
            final(self).data.pi_msg == old(self).data.pi_msg,
            final(self).data.lambda_msg == old(self).data.lambda_msg,
            final(self).proposition_graph == old(self).proposition_graph,
            final(self).evidence == old(self).evidence,
            final(self).bfs_order == old(self).bfs_order,
            final(self).marginals == old(self).marginals,
            final(self).model == old(self).model,
            final(self).state == old(self).state,
    {
        let probability = match self.evidence[node] {
            Some(p) => p,
            None => vstd::pervasive::unreached(),
        };
        let against = probability.complement();
        self.data.set_lambda_value(node, 1, probability);
        self.data.set_lambda_value(node, 0, against);
        proof {
            assert(against == Rational {
                num: (probability.den - probability.num) as u64,
                den: probability.den,
            });
            assert(self.data.lambda@ =~= old(self).data.lambda@.update(
                node as int,
                (Some(against), Some(probability)),
            ));
        }
    }

    /// Computes a non-observed vertex's λ-value: for each outcome, the
    /// product of its children's λ-messages — the diagnostic product
    /// rule.  A childless vertex keeps the neutral one.  Succeeds if and
    /// only if every child's message is written and both products fit.
    #[verifier::loop_isolation(false)]
    pub fn lambda_compute_generic(&mut self, node: usize) -> (res: Result<(), BeliefError>)
        requires
            old(self).inv(),
            node < old(self).gn(),
        ensures
            final(self).inv(),
            (res is Ok) == (old(self).lmsgs_ready(node as int) && prod_list_fits(
                old(self).lam_sibling_msgs(node as int).map_values(|q: (Rational, Rational)| q.0),
                old(self).lam_sibling_msgs(node as int).len() as int,
            ) && prod_list_fits(
                old(self).lam_sibling_msgs(node as int).map_values(|q: (Rational, Rational)| q.1),
                old(self).lam_sibling_msgs(node as int).len() as int,
            )),
            res is Ok ==> cell_full(final(self).data.lambda@[node as int]),
            res is Ok ==> {
                let msgs = old(self).lam_sibling_msgs(node as int);
                let w = msgs.len() as int;
                &&& final(self).data.lambda@[node as int].0 matches Some(m) && m.pv()
                    == prod_list(msgs.map_values(|q: (Rational, Rational)| q.0), w)
                &&& final(self).data.lambda@[node as int].1 matches Some(m) && m.pv()
                    == prod_list(msgs.map_values(|q: (Rational, Rational)| q.1), w)
            },
            res is Ok && old(self).proposition_graph.children@[node as int]@.len() == 0 ==> final(self).data.lambda@[node as int] == (
                Some(Rational { num: 1, den: 1 }),
                Some(Rational { num: 1, den: 1 }),
            ),
            forall|i: int|
                0 <= i < old(self).gn() && i != node ==> final(self).data.lambda@[i] == old(
                    self,
                ).data.lambda@[i],
            res is Err ==> final(self).data.lambda == old(self).data.lambda,
            final(self).data.pi == old(self).data.pi,
            final(self).data.pi_msg == old(self).data.pi_msg,
            final(self).data.lambda_msg == old(self).data.lambda_msg,
            final(self).proposition_graph == old(self).proposition_graph,
            final(self).evidence == old(self).evidence,
            final(self).bfs_order == old(self).bfs_order,
            final(self).marginals == old(self).marginals,
            final(self).model == old(self).model,
            final(self).state == old(self).state,
    {
        let ghost smsgs = old(self).lam_sibling_msgs(node as int);
        let children_len = self.proposition_graph.children[node].len();
        let mut vals0: Vec<Rational> = Vec::new();
        let mut vals1: Vec<Rational> = Vec::new();
        let mut t: usize = 0;
        while t < children_len
            invariant
                self.inv(),
                node < self.gn(),
                t <= children_len,
                children_len == self.proposition_graph.children@[node as int]@.len(),
                vals0@.len() == t,
                vals1@.len() == t,
                forall|j: int| 0 <= j < t ==> (#[trigger] vals0@[j]).wf(),
                forall|j: int| 0 <= j < t ==> (#[trigger] vals1@[j]).wf(),
                forall|j: int| 0 <= j < t ==> (#[trigger] vals0@[j]) == smsgs[j].0,
                forall|j: int| 0 <= j < t ==> (#[trigger] vals1@[j]) == smsgs[j].1,
                forall|j: int|
                    0 <= j < t ==> cell_full(
                        self.data.lambda_msg@[(
                        #[trigger] self.proposition_graph.children@[node as int]@[j]) as int]@[slot_in(
                            self.proposition_graph.parents@[self.proposition_graph.children@[node as int]@[j] as int]@,
                            node,
                        )],
                    ),
            decreases children_len - t,
        {
            let child = self.proposition_graph.children[node][t];
            proof {
                assert(child < self.gn());
                assert(self.proposition_graph.parents@[child as int]@.contains(node));
            }
            let slot = parent_slot(&self.proposition_graph, child, node);
            proof {
                let row = self.proposition_graph.parents@[child as int]@;
                assert forall|k1: int, k2: int|
                    0 <= k1 < k2 < row.len() implies row[k1] != row[k2] by {
                    assert(self.proposition_graph.parents@[child as int]@[k1]
                        != self.proposition_graph.parents@[child as int]@[k2]);
                }
                crate::pi::lemma_slot_is(row, node, slot as int);
            }
            let a = match self.data.get_lambda_message(child, slot, 0) {
                Some(x) => x,
                None => {
                    proof {
                        assert(!cell_full(
                            self.data.lambda_msg@[child as int]@[slot as int],
                        ));
                        assert(!self.lmsgs_ready(node as int));
                    }
                    return Err(BeliefError::MissingBelief);
                },
            };
            let b = match self.data.get_lambda_message(child, slot, 1) {
                Some(x) => x,
                None => {
                    proof {
                        assert(!cell_full(
                            self.data.lambda_msg@[child as int]@[slot as int],
                        ));
                        assert(!self.lmsgs_ready(node as int));
                    }
                    return Err(BeliefError::MissingBelief);
                },
            };
            proof {
                assert(smsgs[t as int] == (a, b));
                assert(cell_full(self.data.lambda_msg@[child as int]@[slot as int]));
            }
            vals0.push(a);
            vals1.push(b);
            t += 1;
        }
        proof {
            assert(vals0@ =~= smsgs.map_values(|q: (Rational, Rational)| q.0));
            assert(vals1@ =~= smsgs.map_values(|q: (Rational, Rational)| q.1));
            assert(self.lmsgs_ready(node as int));
        }
        let l0 = match exec_prod_list(&vals0) {
            Ok(p) => p,
            Err(e) => {
                return Err(e);
            },
        };
        let l1 = match exec_prod_list(&vals1) {
            Ok(p) => p,
            Err(e) => {
                return Err(e);
            },
        };
        proof {
            if children_len == 0 {
                assert(l0.pv() == (1int, 1int));
                assert(l0.num == 1 && l0.den == 1);
                assert(l1.num == 1 && l1.den == 1);
            }
        }
        self.data.set_lambda_value(node, 0, l0);
        self.data.set_lambda_value(node, 1, l1);
        Ok(())
    }

    /// Sends this vertex's λ-messages up every backward edge: over the
    /// assignments fixing one parent, the vertex's likelihood under the
    /// assignment times the other parents' π-messages.
    #[verifier::loop_isolation(false)]
    #[verifier::rlimit(100)]
    pub fn lambda_send_generic(&mut self, node: usize) -> (res: Result<(), BeliefError>)
        requires
            old(self).inv(),
            node < old(self).gn(),
            cell_full(old(self).data.lambda@[node as int]),
        ensures
            final(self).inv(),
            old(self).proposition_graph.parents@[node as int]@.len() == 0 ==> res is Ok,
            old(self).proposition_graph.parents@[node as int]@.len() > 16 ==> res == Err::<
                (),
                BeliefError,
            >(BeliefError::UnresolvableProposition),
            1 <= old(self).proposition_graph.parents@[node as int]@.len() <= 16 && !old(
                self,
            ).pmsgs_ready(node as int) ==> res == Err::<(), BeliefError>(
                BeliefError::MissingBelief,
            ),
            old(self).lambda_send_ok(node as int) ==> res is Ok,
            final(self).data.pi == old(self).data.pi,
            final(self).data.pi_msg == old(self).data.pi_msg,
            final(self).data.lambda == old(self).data.lambda,
            forall|r: int|
                0 <= r < old(self).gn() && r != node ==> final(self).data.lambda_msg@[r] == old(
                    self,
                ).data.lambda_msg@[r],
            res is Ok ==> forall|k: int|
                0 <= k < old(self).proposition_graph.parents@[node as int]@.len() ==> cell_full(
                    #[trigger] final(self).data.lambda_msg@[node as int]@[k],
                ),
            res is Ok ==> forall|k: int|
                0 <= k < old(self).proposition_graph.parents@[node as int]@.len() ==> {
                    let w = old(self).proposition_graph.parents@[node as int]@.len();
                    let lam = (
                        old(self).data.lambda@[node as int].0->0,
                        old(self).data.lambda@[node as int].1->0,
                    );
                    &&& (#[trigger] final(self).data.lambda_msg@[node as int]@[k]).0 matches Some(
                        m,
                    ) && m.pv() == lambda_send_sums(
                        old(self).pmsgs(node as int),
                        all_combos(w),
                        old(self).send_weights(node as int),
                        lam,
                        k,
                        false,
                        all_combos(w).len() as int,
                    )
                    &&& final(self).data.lambda_msg@[node as int]@[k].1 matches Some(m) && m.pv()
                        == lambda_send_sums(
                        old(self).pmsgs(node as int),
                        all_combos(w),
                        old(self).send_weights(node as int),
                        lam,
                        k,
                        true,
                        all_combos(w).len() as int,
                    )
                },
            final(self).proposition_graph == old(self).proposition_graph,
            final(self).evidence == old(self).evidence,
            final(self).bfs_order == old(self).bfs_order,
            final(self).marginals == old(self).marginals,
            final(self).model == old(self).model,
            final(self).state == old(self).state,
    {
        let row_len = self.proposition_graph.parents[node].len();
        if row_len == 0 {
            return Ok(());
        }
        if row_len > 16 {
            return Err(BeliefError::UnresolvableProposition);
        }
        let msgs = match self.gather_parent_msgs(node) {
            Ok(v) => v,
            Err(e) => {
                return Err(e);
            },
        };
        let combos = compute_each_combination(row_len);
        proof {
            crate::inference::lemma_all_combos_shape(row_len as nat);
            assert forall|i: int|
                0 <= i < combos@.len() implies (#[trigger] combos@[i])@.len() == msgs@.len() by {
                assert(combos@[i]@ == all_combos(row_len as nat)[i]);
            }
        }
        let is_single = match &self.proposition_graph.nodes[node].node {
            GenericNodeType::Single(_) => true,
            GenericNodeType::Group(_) => false,
        };
        let weights = if is_single {
            match self.collect_predictions(node, &combos) {
                Ok(v) => v,
                Err(e) => {
                    return Err(e);
                },
            }
        } else {
            exec_group_weights(&combos)
        };
        let lam0 = match self.data.get_lambda_value(node, 0) {
            Some(x) => x,
            None => vstd::pervasive::unreached(),
        };
        let lam1 = match self.data.get_lambda_value(node, 1) {
            Some(x) => x,
            None => vstd::pervasive::unreached(),
        };
        let ghost mid = *self;
        proof {
            assert(msgs@ == old(self).pmsgs(node as int));
            assert(weights@ == old(self).send_weights(node as int));
            assert(lam0 == old(self).data.lambda@[node as int].0->0);
            assert(lam1 == old(self).data.lambda@[node as int].1->0);
            assert(combos@.map_values(|c: Vec<bool>| c@) == all_combos(row_len as nat));
        }
        let mut s: usize = 0;
        while s < row_len
            invariant
                self.inv(),
                node < self.gn(),
                s <= row_len,
                row_len == self.proposition_graph.parents@[node as int]@.len(),
                msgs@.len() == row_len,
                combos@.len() == weights@.len(),
                forall|i: int|
                    0 <= i < combos@.len() ==> (#[trigger] combos@[i])@.len() == msgs@.len(),
                crate::inference::msgs_wf(msgs@),
                preds_wf(weights@),
                lam0.wf(),
                lam1.wf(),
                msgs@ == old(self).pmsgs(node as int),
                weights@ == old(self).send_weights(node as int),
                lam0 == old(self).data.lambda@[node as int].0->0,
                lam1 == old(self).data.lambda@[node as int].1->0,
                combos@.map_values(|c: Vec<bool>| c@) == all_combos(row_len as nat),
                self.proposition_graph == mid.proposition_graph,
                self.evidence == mid.evidence,
                self.bfs_order == mid.bfs_order,
                self.marginals == mid.marginals,
                self.model == mid.model,
                self.state == mid.state,
                self.data.pi == mid.data.pi,
                self.data.pi_msg == mid.data.pi_msg,
                self.data.lambda == mid.data.lambda,
                forall|r: int|
                    0 <= r < self.gn() && r != node ==> self.data.lambda_msg@[r]
                        == mid.data.lambda_msg@[r],
                forall|k: int|
                    0 <= k < s ==> cell_full(#[trigger] self.data.lambda_msg@[node as int]@[k]),
                forall|k: int|
                    0 <= k < s ==> {
                        &&& (#[trigger] self.data.lambda_msg@[node as int]@[k]).0 matches Some(m)
                            && m.pv() == lambda_send_sums(
                            old(self).pmsgs(node as int),
                            all_combos(row_len as nat),
                            old(self).send_weights(node as int),
                            (lam0, lam1),
                            k,
                            false,
                            all_combos(row_len as nat).len() as int,
                        )
                        &&& self.data.lambda_msg@[node as int]@[k].1 matches Some(m) && m.pv()
                            == lambda_send_sums(
                            old(self).pmsgs(node as int),
                            all_combos(row_len as nat),
                            old(self).send_weights(node as int),
                            (lam0, lam1),
                            k,
                            true,
                            all_combos(row_len as nat).len() as int,
                        )
                    },
            decreases row_len - s,
        {
            let ghost it0 = *self;
            let m0 = match exec_lambda_send(&msgs, &combos, &weights, (lam0, lam1), s, false) {
                Ok(x) => x,
                Err(e) => {
                    proof {
                        assert(lam0 == old(self).data.lambda@[node as int].0->0);
                        assert(lam1 == old(self).data.lambda@[node as int].1->0);
                        assert(!old(self).lambda_send_ok(node as int)) by {
                            if old(self).lambda_send_ok(node as int) {
                                assert(lambda_send_fits(
                                    old(self).pmsgs(node as int),
                                    all_combos(
                                        old(self).proposition_graph.parents@[node as int]@.len(),
                                    ),
                                    old(self).send_weights(node as int),
                                    (
                                        old(self).data.lambda@[node as int].0->0,
                                        old(self).data.lambda@[node as int].1->0,
                                    ),
                                    s as int,
                                    true,
                                    all_combos(
                                        old(self).proposition_graph.parents@[node as int]@.len(),
                                    ).len() as int,
                                ));
                                assert(false);
                            }
                        }
                    }
                    return Err(e);
                },
            };
            let m1 = match exec_lambda_send(&msgs, &combos, &weights, (lam0, lam1), s, true) {
                Ok(x) => x,
                Err(e) => {
                    proof {
                        assert(lam0 == old(self).data.lambda@[node as int].0->0);
                        assert(lam1 == old(self).data.lambda@[node as int].1->0);
                        assert(!old(self).lambda_send_ok(node as int)) by {
                            if old(self).lambda_send_ok(node as int) {
                                assert(lambda_send_fits(
                                    old(self).pmsgs(node as int),
                                    all_combos(
                                        old(self).proposition_graph.parents@[node as int]@.len(),
                                    ),
                                    old(self).send_weights(node as int),
                                    (
                                        old(self).data.lambda@[node as int].0->0,
                                        old(self).data.lambda@[node as int].1->0,
                                    ),
                                    s as int,
                                    true,
                                    all_combos(
                                        old(self).proposition_graph.parents@[node as int]@.len(),
                                    ).len() as int,
                                ));
                                assert(false);
                            }
                        }
                    }
                    return Err(e);
                },
            };
            self.data.set_lambda_message(node, s, 0, m0);
            self.data.set_lambda_message(node, s, 1, m1);
            proof {
                assert forall|k: int|
                    0 <= k < s + 1 implies cell_full(
                    #[trigger] self.data.lambda_msg@[node as int]@[k],
                ) by {
                    if k < s {
                        assert(self.data.lambda_msg@[node as int]@[k]
                            == it0.data.lambda_msg@[node as int]@[k]);
                    }
                }
            }
            s += 1;
        }
        Ok(())
    }

    /// One λ-pass step: takes the vertex's λ-value, then sends λ-messages
    /// to its parents.
    pub fn lambda_visit_node(&mut self, node: usize) -> (res: Result<(), BeliefError>)
        requires
            old(self).inv(),
            node < old(self).gn(),
        ensures
            final(self).inv(),
            final(self).data.pi == old(self).data.pi,
            final(self).data.pi_msg == old(self).data.pi_msg,
            forall|i: int|
                0 <= i < old(self).gn() && i != node ==> final(self).data.lambda@[i] == old(
                    self,
                ).data.lambda@[i],
            forall|r: int|
                0 <= r < old(self).gn() && r != node ==> final(self).data.lambda_msg@[r] == old(
                    self,
                ).data.lambda_msg@[r],
            res is Ok ==> cell_full(final(self).data.lambda@[node as int]),
            res is Ok && old(self).observed_spec(node as int) ==> final(self).data.lambda@[node as int] == (
                Some(
                    Rational {
                        num: (old(self).evidence@[node as int]->0.den
                            - old(self).evidence@[node as int]->0.num) as u64,
                        den: old(self).evidence@[node as int]->0.den,
                    },
                ),
                Some(old(self).evidence@[node as int]->0),
            ),
            res is Ok && !old(self).observed_spec(node as int) && old(
                self,
            ).proposition_graph.children@[node as int]@.len() == 0 ==> final(self).data.lambda@[node as int] == (
                Some(Rational { num: 1, den: 1 }),
                Some(Rational { num: 1, den: 1 }),
            ),
            res is Ok && !old(self).observed_spec(node as int) ==> {
                let msgs = old(self).lam_sibling_msgs(node as int);
                let w = msgs.len() as int;
                &&& final(self).data.lambda@[node as int].0 matches Some(m) && m.pv()
                    == prod_list(msgs.map_values(|q: (Rational, Rational)| q.0), w)
                &&& final(self).data.lambda@[node as int].1 matches Some(m) && m.pv()
                    == prod_list(msgs.map_values(|q: (Rational, Rational)| q.1), w)
            },
            res is Ok ==> forall|k: int|
                0 <= k < old(self).proposition_graph.parents@[node as int]@.len() ==> cell_full(
                    #[trigger] final(self).data.lambda_msg@[node as int]@[k],
                ),
            old(self).proposition_graph.parents@[node as int]@.len() == 0 && (old(
                self,
            ).observed_spec(node as int)
                || old(self).proposition_graph.children@[node as int]@.len() == 0) ==> res is Ok,
            res is Ok ==> forall|k: int|
                0 <= k < old(self).proposition_graph.parents@[node as int]@.len() ==> {
                    let w = old(self).proposition_graph.parents@[node as int]@.len();
                    let lam = (
                        final(self).data.lambda@[node as int].0->0,
                        final(self).data.lambda@[node as int].1->0,
                    );
                    &&& (#[trigger] final(self).data.lambda_msg@[node as int]@[k]).0 matches Some(
                        m,
                    ) && m.pv() == lambda_send_sums(
                        old(self).pmsgs(node as int),
                        all_combos(w),
                        old(self).send_weights(node as int),
                        lam,
                        k,
                        false,
                        all_combos(w).len() as int,
                    )
                    &&& final(self).data.lambda_msg@[node as int]@[k].1 matches Some(m) && m.pv()
                        == lambda_send_sums(
                        old(self).pmsgs(node as int),
                        all_combos(w),
                        old(self).send_weights(node as int),
                        lam,
                        k,
                        true,
                        all_combos(w).len() as int,
                    )
                },
            final(self).proposition_graph == old(self).proposition_graph,
            final(self).evidence == old(self).evidence,
            final(self).bfs_order == old(self).bfs_order,
            final(self).marginals == old(self).marginals,
            final(self).model == old(self).model,
            final(self).state == old(self).state,
    {
        if self.is_observed(node) {
            self.lambda_set_from_evidence(node);
        } else {
            match self.lambda_compute_generic(node) {
                Ok(()) => {},
                Err(e) => {
                    return Err(e);
                },
            }
        }
        let ghost mid = *self;
        let res = self.lambda_send_generic(node);
        proof {
            assert(mid.pmsgs(node as int) =~= old(self).pmsgs(node as int));
            assert(mid.ctx_factors(node as int) =~= old(self).ctx_factors(node as int));
            assert(mid.preds_spec(node as int) =~= old(self).preds_spec(node as int));
            assert(mid.send_weights(node as int) == old(self).send_weights(node as int));
        }
        res
    }

    /// The λ-pass: visits every vertex in reverse propagation order.
    /// Afterward every observed vertex carries its evidence as λ-value,
    /// every childless non-observed vertex keeps the neutral one, and
    /// every λ-value and λ-message is written.
    #[verifier::loop_isolation(false)]
    #[verifier::rlimit(100)]
    pub fn do_lambda_traversal(&mut self) -> (res: Result<(), BeliefError>)
        requires
            old(self).inv(),
        ensures
            final(self).inv(),
            final(self).proposition_graph == old(self).proposition_graph,
            final(self).evidence == old(self).evidence,
            final(self).bfs_order == old(self).bfs_order,
            final(self).marginals == old(self).marginals,
            final(self).model == old(self).model,
            final(self).state == old(self).state,
            final(self).data.pi == old(self).data.pi,
            final(self).data.pi_msg == old(self).data.pi_msg,
            res is Ok ==> forall|i: int|
                0 <= i < old(self).gn() ==> cell_full(#[trigger] final(self).data.lambda@[i]),
            res is Ok ==> forall|i: int|
                0 <= i < old(self).gn() && old(self).observed_spec(i) ==> (#[trigger] final(self).data.lambda@[i]) == (
                    Some(
                        Rational {
                            num: (old(self).evidence@[i]->0.den
                                - old(self).evidence@[i]->0.num) as u64,
                            den: old(self).evidence@[i]->0.den,
                        },
                    ),
                    Some(old(self).evidence@[i]->0),
                ),
            res is Ok ==> forall|i: int|
                0 <= i < old(self).gn() && !old(self).observed_spec(i) && old(
                    self,
                ).proposition_graph.children@[i]@.len() == 0 ==> (#[trigger] final(self).data.lambda@[i]) == (
                    Some(Rational { num: 1, den: 1 }),
                    Some(Rational { num: 1, den: 1 }),
                ),
            res is Ok ==> forall|i: int|
                0 <= i < old(self).gn() && !old(self).observed_spec(i) ==> {
                    let msgs = final(self).lam_sibling_msgs(i);
                    let w = msgs.len() as int;
                    &&& (#[trigger] final(self).data.lambda@[i]).0 matches Some(m) && m.pv()
                        == prod_list(msgs.map_values(|q2: (Rational, Rational)| q2.0), w)
                    &&& final(self).data.lambda@[i].1 matches Some(m) && m.pv() == prod_list(
                        msgs.map_values(|q2: (Rational, Rational)| q2.1),
                        w,
                    )
                },
            crate::inference::settled_chart(
                old(self).proposition_graph,
                old(self).evidence@,
            ) ==> res is Ok,
            res is Ok ==> forall|i: int, k: int|
                0 <= i < old(self).gn() && 0 <= k
                    < old(self).proposition_graph.parents@[i]@.len() ==> {
                    let w = old(self).proposition_graph.parents@[i]@.len();
                    let lam = (
                        final(self).data.lambda@[i].0->0,
                        final(self).data.lambda@[i].1->0,
                    );
                    &&& (#[trigger] final(self).data.lambda_msg@[i]@[k]).0 matches Some(m)
                        && m.pv() == lambda_send_sums(
                        final(self).pmsgs(i),
                        all_combos(w),
                        old(self).send_weights(i),
                        lam,
                        k,
                        false,
                        all_combos(w).len() as int,
                    )
                    &&& final(self).data.lambda_msg@[i]@[k].1 matches Some(m) && m.pv()
                        == lambda_send_sums(
                        final(self).pmsgs(i),
                        all_combos(w),
                        old(self).send_weights(i),
                        lam,
                        k,
                        true,
                        all_combos(w).len() as int,
                    )
                },
    {
        let ghost g0 = *old(self);
        let order_len = self.bfs_order.len();
        let mut p: usize = order_len;
        while p > 0
            invariant
                self.inv(),
                order_len == self.bfs_order@.len(),
                p <= order_len,
                self.proposition_graph == g0.proposition_graph,
                self.evidence == g0.evidence,
                self.bfs_order == g0.bfs_order,
                self.marginals == g0.marginals,
                self.model == g0.model,
                self.state == g0.state,
                self.data.pi == g0.data.pi,
                self.data.pi_msg == g0.data.pi_msg,
                forall|q: int|
                    p <= q < order_len ==> cell_full(
                        #[trigger] self.data.lambda@[self.bfs_order@[q] as int],
                    ),
                forall|q: int|
                    p <= q < order_len && g0.observed_spec(self.bfs_order@[q] as int) ==> (
                    #[trigger] self.data.lambda@[self.bfs_order@[q] as int]) == (
                        Some(
                            Rational {
                                num: (g0.evidence@[self.bfs_order@[q] as int]->0.den
                                    - g0.evidence@[self.bfs_order@[q] as int]->0.num) as u64,
                                den: g0.evidence@[self.bfs_order@[q] as int]->0.den,
                            },
                        ),
                        Some(g0.evidence@[self.bfs_order@[q] as int]->0),
                    ),
                forall|q: int|
                    p <= q < order_len && !g0.observed_spec(self.bfs_order@[q] as int)
                        && g0.proposition_graph.children@[self.bfs_order@[q] as int]@.len() == 0
                        ==> (#[trigger] self.data.lambda@[self.bfs_order@[q] as int]) == (
                        Some(Rational { num: 1, den: 1 }),
                        Some(Rational { num: 1, den: 1 }),
                    ),
                forall|q: int|
                    p <= q < order_len && !g0.observed_spec(self.bfs_order@[q] as int) ==> {
                        let n2 = self.bfs_order@[q] as int;
                        let msgs = self.lam_sibling_msgs(n2);
                        let w = msgs.len() as int;
                        &&& (#[trigger] self.data.lambda@[self.bfs_order@[q] as int]).0 matches Some(
                            m,
                        ) && m.pv() == prod_list(
                            msgs.map_values(|q2: (Rational, Rational)| q2.0),
                            w,
                        )
                        &&& self.data.lambda@[n2].1 matches Some(m) && m.pv() == prod_list(
                            msgs.map_values(|q2: (Rational, Rational)| q2.1),
                            w,
                        )
                    },
                forall|q: int, k: int|
                    p <= q < order_len && 0 <= k
                        < self.proposition_graph.parents@[self.bfs_order@[q] as int]@.len() ==> {
                        let n2 = (#[trigger] self.bfs_order@[q]) as int;
                        let w = g0.proposition_graph.parents@[n2]@.len();
                        let lam = (
                            self.data.lambda@[n2].0->0,
                            self.data.lambda@[n2].1->0,
                        );
                        &&& (#[trigger] self.data.lambda_msg@[self.bfs_order@[q] as int]@[k]).0 matches Some(m)
                            && m.pv() == lambda_send_sums(
                            self.pmsgs(n2),
                            all_combos(w),
                            g0.send_weights(n2),
                            lam,
                            k,
                            false,
                            all_combos(w).len() as int,
                        )
                        &&& self.data.lambda_msg@[n2]@[k].1 matches Some(m) && m.pv()
                            == lambda_send_sums(
                            self.pmsgs(n2),
                            all_combos(w),
                            g0.send_weights(n2),
                            lam,
                            k,
                            true,
                            all_combos(w).len() as int,
                        )
                    },
            decreases p,
        {
            p -= 1;
            let node = self.bfs_order[p];
            proof {
                assert(node < self.gn());
            }
            let ghost pre = *self;
            match self.lambda_visit_node(node) {
                Ok(()) => {},
                Err(e) => {
                    return Err(e);
                },
            }
            proof {
                assert forall|q: int|
                    p <= q < order_len implies cell_full(
                    #[trigger] self.data.lambda@[self.bfs_order@[q] as int],
                ) by {
                    if q > p {
                        assert(self.bfs_order@[q] != self.bfs_order@[p as int]);
                        assert(self.data.lambda@[self.bfs_order@[q] as int]
                            == pre.data.lambda@[self.bfs_order@[q] as int]);
                    }
                }
                assert forall|q: int|
                    p <= q < order_len && g0.observed_spec(self.bfs_order@[q] as int) implies (
                #[trigger] self.data.lambda@[self.bfs_order@[q] as int]) == (
                    Some(
                        Rational {
                            num: (g0.evidence@[self.bfs_order@[q] as int]->0.den
                                - g0.evidence@[self.bfs_order@[q] as int]->0.num) as u64,
                            den: g0.evidence@[self.bfs_order@[q] as int]->0.den,
                        },
                    ),
                    Some(g0.evidence@[self.bfs_order@[q] as int]->0),
                ) by {
                    if q > p {
                        assert(self.bfs_order@[q] != self.bfs_order@[p as int]);
                        assert(self.data.lambda@[self.bfs_order@[q] as int]
                            == pre.data.lambda@[self.bfs_order@[q] as int]);
                    }
                }
                assert forall|q: int|
                    p <= q < order_len && !g0.observed_spec(self.bfs_order@[q] as int)
                        && g0.proposition_graph.children@[self.bfs_order@[q] as int]@.len()
                        == 0 implies (#[trigger] self.data.lambda@[self.bfs_order@[q] as int])
                    == (Some(Rational { num: 1, den: 1 }), Some(Rational { num: 1, den: 1 })) by {
                    if q > p {
                        assert(self.bfs_order@[q] != self.bfs_order@[p as int]);
                        assert(self.data.lambda@[self.bfs_order@[q] as int]
                            == pre.data.lambda@[self.bfs_order@[q] as int]);
                    }
                }
                // a vertex visited later (earlier in the order) never
                // rewrites the messages its descendants already sent
                assert forall|q: int|
                    p <= q < order_len implies self.lam_sibling_msgs(self.bfs_order@[q] as int)
                    == pre.lam_sibling_msgs(self.bfs_order@[q] as int) by {
                    let n2 = self.bfs_order@[q] as int;
                    assert forall|t2: int|
                        0 <= t2 < self.proposition_graph.children@[n2]@.len() implies (
                    #[trigger] self.proposition_graph.children@[n2]@[t2]) != node by {
                        if self.proposition_graph.children@[n2]@[t2] == node {
                            assert(self.proposition_graph.edge(n2, node as int));
                            assert(self.bfs_order@[p as int] == node);
                            assert(q < p as int);
                        }
                    }
                    assert forall|t2: int|
                        0 <= t2 < self.proposition_graph.children@[n2]@.len() implies self.data.lambda_msg@[(
                    #[trigger] self.proposition_graph.children@[n2]@[t2]) as int]
                        == pre.data.lambda_msg@[self.proposition_graph.children@[n2]@[t2] as int] by {
                        assert(self.proposition_graph.children@[n2]@[t2] != node);
                    }
                    assert(self.lam_sibling_msgs(n2) =~= pre.lam_sibling_msgs(n2));
                }
                assert(self.pmsgs(node as int) =~= pre.pmsgs(node as int));
                assert(pre.send_weights(node as int) == g0.send_weights(node as int)) by {
                    lemma_specs_stable::<M>(pre, g0, node as int);
                }
                assert forall|q: int|
                    p <= q < order_len && !g0.observed_spec(self.bfs_order@[q] as int) implies {
                    let n2 = self.bfs_order@[q] as int;
                    let msgs = self.lam_sibling_msgs(n2);
                    let w = msgs.len() as int;
                    &&& (#[trigger] self.data.lambda@[self.bfs_order@[q] as int]).0 matches Some(
                        m,
                    ) && m.pv() == prod_list(msgs.map_values(|q2: (Rational, Rational)| q2.0), w)
                    &&& self.data.lambda@[n2].1 matches Some(m) && m.pv() == prod_list(
                        msgs.map_values(|q2: (Rational, Rational)| q2.1),
                        w,
                    )
                } by {
                    let n2 = self.bfs_order@[q] as int;
                    assert(self.lam_sibling_msgs(n2) == pre.lam_sibling_msgs(n2));
                    if q > p {
                        assert(self.bfs_order@[q] != self.bfs_order@[p as int]);
                        assert(self.data.lambda@[n2] == pre.data.lambda@[n2]);
                    }
                }
                assert forall|q: int, k: int|
                    p <= q < order_len && 0 <= k
                        < self.proposition_graph.parents@[self.bfs_order@[q] as int]@.len() implies {
                    let n2 = (#[trigger] self.bfs_order@[q]) as int;
                    let w = g0.proposition_graph.parents@[n2]@.len();
                    let lam = (self.data.lambda@[n2].0->0, self.data.lambda@[n2].1->0);
                    &&& (#[trigger] self.data.lambda_msg@[self.bfs_order@[q] as int]@[k]).0 matches Some(m) && m.pv()
                        == lambda_send_sums(
                        self.pmsgs(n2),
                        all_combos(w),
                        g0.send_weights(n2),
                        lam,
                        k,
                        false,
                        all_combos(w).len() as int,
                    )
                    &&& self.data.lambda_msg@[n2]@[k].1 matches Some(m) && m.pv()
                        == lambda_send_sums(
                        self.pmsgs(n2),
                        all_combos(w),
                        g0.send_weights(n2),
                        lam,
                        k,
                        true,
                        all_combos(w).len() as int,
                    )
} by {
                    let n2 = self.bfs_order@[q] as int;
                    assert(self.pmsgs(n2) =~= pre.pmsgs(n2));
                    if q > p {
                        assert(self.bfs_order@[q] != self.bfs_order@[p as int]);
                        assert(self.data.lambda@[n2] == pre.data.lambda@[n2]);
                        assert(self.data.lambda_msg@[n2] == pre.data.lambda_msg@[n2]);
                    }
                }
            }
        }
        proof {
            assert forall|i: int|
                0 <= i < g0.gn() implies cell_full(#[trigger] self.data.lambda@[i]) by {
                assert(self.bfs_order@.contains(i as usize));
                let q = choose|q: int|
                    0 <= q < self.bfs_order@.len() && self.bfs_order@[q] == i as usize;
                assert(cell_full(self.data.lambda@[self.bfs_order@[q] as int]));
            }
            assert forall|i: int|
                0 <= i < g0.gn() && g0.observed_spec(i) implies (
            #[trigger] self.data.lambda@[i]) == (
                Some(
                    Rational {
                        num: (g0.evidence@[i]->0.den - g0.evidence@[i]->0.num) as u64,
                        den: g0.evidence@[i]->0.den,
                    },
                ),
                Some(g0.evidence@[i]->0),
            ) by {
                assert(self.bfs_order@.contains(i as usize));
                let q = choose|q: int|
                    0 <= q < self.bfs_order@.len() && self.bfs_order@[q] == i as usize;
                assert(g0.observed_spec(self.bfs_order@[q] as int));
            }
            assert forall|i: int|
                0 <= i < g0.gn() && !g0.observed_spec(i)
                    && g0.proposition_graph.children@[i]@.len() == 0 implies (
            #[trigger] self.data.lambda@[i]) == (
                Some(Rational { num: 1, den: 1 }),
                Some(Rational { num: 1, den: 1 }),
            ) by {
                assert(self.bfs_order@.contains(i as usize));
                let q = choose|q: int|
                    0 <= q < self.bfs_order@.len() && self.bfs_order@[q] == i as usize;
                assert(!g0.observed_spec(self.bfs_order@[q] as int));
                assert(g0.proposition_graph.children@[self.bfs_order@[q] as int]@.len() == 0);
            }
            assert forall|i: int|
                0 <= i < g0.gn() && !g0.observed_spec(i) implies {
                let msgs = self.lam_sibling_msgs(i);
                let w = msgs.len() as int;
                &&& (#[trigger] self.data.lambda@[i]).0 matches Some(m) && m.pv() == prod_list(
                    msgs.map_values(|q2: (Rational, Rational)| q2.0),
                    w,
                )
                &&& self.data.lambda@[i].1 matches Some(m) && m.pv() == prod_list(
                    msgs.map_values(|q2: (Rational, Rational)| q2.1),
                    w,
                )
            } by {
                assert(self.bfs_order@.contains(i as usize));
                let q = choose|q: int|
                    0 <= q < self.bfs_order@.len() && self.bfs_order@[q] == i as usize;
                assert(!g0.observed_spec(self.bfs_order@[q] as int));
                assert(self.data.lambda@[self.bfs_order@[q] as int] == self.data.lambda@[i]);
            }
            assert forall|i: int, k: int|
                0 <= i < g0.gn() && 0 <= k
                    < g0.proposition_graph.parents@[i]@.len() implies {
                let w = g0.proposition_graph.parents@[i]@.len();
                let lam = (self.data.lambda@[i].0->0, self.data.lambda@[i].1->0);
                &&& (#[trigger] self.data.lambda_msg@[i]@[k]).0 matches Some(m) && m.pv()
                    == lambda_send_sums(
                    self.pmsgs(i),
                    all_combos(w),
                    g0.send_weights(i),
                    lam,
                    k,
                    false,
                    all_combos(w).len() as int,
                )
                &&& self.data.lambda_msg@[i]@[k].1 matches Some(m) && m.pv()
                    == lambda_send_sums(
                    self.pmsgs(i),
                    all_combos(w),
                    g0.send_weights(i),
                    lam,
                    k,
                    true,
                    all_combos(w).len() as int,
                )
            } by {
                assert(self.bfs_order@.contains(i as usize));
                let q = choose|q: int|
                    0 <= q < self.bfs_order@.len() && self.bfs_order@[q] == i as usize;
                assert(self.bfs_order@[q] as int == i);
                assert(self.data.lambda_msg@[self.bfs_order@[q] as int]@[k]
                    == self.data.lambda_msg@[i]@[k]);
            }
        }
        Ok(())
    }
}

} // verus!
