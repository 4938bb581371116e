//! Laws of the engine, stated and proved once for every run.
//!
//! Each proof function here is a statement about the engine's own spec
//! functions and invariants: what belief propagation guarantees on any
//! graph, any evidence and any model, not just on the inputs a test
//! happens to pick.

use vstd::prelude::*;

use crate::inference::{
    Inferencer, MarginalOutcome, all_combos, and_all, combo_prod, lemma_all_combos_last,
    lemma_all_combos_shape, pi_group_sums, pi_single_sums, sel,
};
use crate::interface::FactorModel;
use crate::rational::{Rational, padd, pdiv, pmul, qeq, qle};

verus! {

/// Nonnegativity of beliefs: every value a run's tables hold is at least
/// zero — π and λ never go negative, whatever passes have run.
pub proof fn lemma_beliefs_nonnegative<M: FactorModel>(inf: Inferencer<M>)
    requires
        inf.inv(),
    ensures
        forall|i: int|
            0 <= i < inf.gn() && (#[trigger] inf.data.pi@[i]).0 is Some ==> qle(
                Rational { num: 0, den: 1 },
                inf.data.pi@[i].0->0,
            ),
        forall|i: int|
            0 <= i < inf.gn() && (#[trigger] inf.data.pi@[i]).1 is Some ==> qle(
                Rational { num: 0, den: 1 },
                inf.data.pi@[i].1->0,
            ),
        forall|i: int|
            0 <= i < inf.gn() && (#[trigger] inf.data.lambda@[i]).0 is Some ==> qle(
                Rational { num: 0, den: 1 },
                inf.data.lambda@[i].0->0,
            ),
        forall|i: int|
            0 <= i < inf.gn() && (#[trigger] inf.data.lambda@[i]).1 is Some ==> qle(
                Rational { num: 0, den: 1 },
                inf.data.lambda@[i].1->0,
            ),
{
}

/// Whether the first `j` slots of an assignment are all true.
pub open spec fn prefix_true(c: Seq<bool>, j: int) -> bool
    decreases j,
{
    if j <= 0 {
        true
    } else {
        prefix_true(c, j - 1) && c[j - 1]
    }
}

/// The prefix form agrees with the quantified form.
proof fn lemma_prefix_true_iff(c: Seq<bool>, j: int)
    requires
        0 <= j <= c.len(),
    ensures
        prefix_true(c, j) == (forall|k: int| 0 <= k < j ==> c[k]),
    decreases j,
{
    if j > 0 {
        lemma_prefix_true_iff(c, j - 1);
        if prefix_true(c, j) {
            assert forall|k: int| 0 <= k < j implies c[k] by {
                if k < j - 1 {
                }
            }
        }
    }
}

/// A product of pinned-certain messages: one when the assignment sets
/// every premise true, zero otherwise.
proof fn lemma_combo_prod_pinned(msgs: Seq<(Rational, Rational)>, c: Seq<bool>, j: int)
    requires
        c.len() == msgs.len(),
        0 <= j <= msgs.len(),
        forall|k: int|
            0 <= k < msgs.len() ==> (#[trigger] msgs[k]).0 == (Rational { num: 0, den: 1 })
                && msgs[k].1 == (Rational { num: 1, den: 1 }),
    ensures
        combo_prod(msgs, c, j).0 == if prefix_true(c, j) {
            1int
        } else {
            0int
        },
        combo_prod(msgs, c, j).1 == 1,
    decreases j,
{
    if j > 0 {
        lemma_combo_prod_pinned(msgs, c, j - 1);
        let prev = combo_prod(msgs, c, j - 1);
        let m = sel(msgs[j - 1], c[j - 1]);
        assert(combo_prod(msgs, c, j).0 == prev.0 * m.pv().0);
        assert(combo_prod(msgs, c, j).1 == prev.1 * m.pv().1);
        assert(prev.1 == 1);
        if c[j - 1] {
            assert(m == Rational { num: 1, den: 1 });
            assert(combo_prod(msgs, c, j).0 == prev.0 * 1);
            assert(combo_prod(msgs, c, j).1 == 1 * 1);
        } else {
            assert(m == Rational { num: 0, den: 1 });
            assert(combo_prod(msgs, c, j).0 == prev.0 * 0);
            assert(combo_prod(msgs, c, j).1 == 1 * 1);
            assert(!prefix_true(c, j));
        }
    }
}

/// The Group sums under pinned-certain messages, over a prefix of the
/// assignments: nothing arrives until the all-true assignment, which is
/// the last one.
proof fn lemma_group_sums_pinned(msgs: Seq<(Rational, Rational)>, n: nat, i: int)
    requires
        msgs.len() == n,
        0 <= i <= all_combos(n).len(),
        forall|k: int|
            0 <= k < msgs.len() ==> (#[trigger] msgs[k]).0 == (Rational { num: 0, den: 1 })
                && msgs[k].1 == (Rational { num: 1, den: 1 }),
    ensures
        pi_group_sums(msgs, all_combos(n), i).0.0 == if i < all_combos(n).len() {
            0int
        } else {
            1int
        },
        pi_group_sums(msgs, all_combos(n), i).0.1 == 1,
        pi_group_sums(msgs, all_combos(n), i).1.0 == 0,
        pi_group_sums(msgs, all_combos(n), i).1.1 == 1,
    decreases i,
{
    lemma_all_combos_shape(n);
    lemma_all_combos_last(n);
    if i > 0 {
        lemma_group_sums_pinned(msgs, n, i - 1);
        let c = all_combos(n)[i - 1];
        assert(c.len() == n);
        lemma_combo_prod_pinned(msgs, c, n as int);
        lemma_prefix_true_iff(c, n as int);
        let prod = combo_prod(msgs, c, msgs.len() as int);
        if and_all(c) {
            assert(i - 1 == all_combos(n).len() - 1);
            assert(prefix_true(c, n as int));
            assert(prod.0 == 1 && prod.1 == 1);
            assert(padd((0int, 1int), prod).0 == 0 * prod.1 + prod.0 * 1);
            assert(padd((0int, 1int), prod).0 == 1 && padd((0int, 1int), prod).1 == 1);
        } else {
            let k = choose|k: int| 0 <= k < c.len() && !c[k];
            assert(!prefix_true(c, n as int));
            assert(prod.0 == 0 && prod.1 == 1);
            assert(padd((0int, 1int), prod).0 == 0 && padd((0int, 1int), prod).1 == 1);
        }
    }
}

/// Deterministic conjunction at Groups: when every premise's π-message
/// is pinned to certainty — false support zero, true support one — the
/// Group's π sums come out exactly one for true and zero for false.
pub proof fn lemma_deterministic_and(msgs: Seq<(Rational, Rational)>, n: nat)
    requires
        msgs.len() == n,
        forall|k: int|
            0 <= k < msgs.len() ==> (#[trigger] msgs[k]).0 == (Rational { num: 0, den: 1 })
                && msgs[k].1 == (Rational { num: 1, den: 1 }),
    ensures
        pi_group_sums(msgs, all_combos(n), all_combos(n).len() as int).0.0 == 1,
        pi_group_sums(msgs, all_combos(n), all_combos(n).len() as int).0.1 == 1,
        pi_group_sums(msgs, all_combos(n), all_combos(n).len() as int).1.0 == 0,
        pi_group_sums(msgs, all_combos(n), all_combos(n).len() as int).1.1 == 1,
{
    lemma_all_combos_shape(n);
    lemma_group_sums_pinned(msgs, n, all_combos(n).len() as int);
}

/// No-evidence neutrality, first half: a Single with one premise group
/// whose π-message is pinned certain sums to the model's premise-true
/// marginal for true and its complement for false.
pub proof fn lemma_chain_neutrality(q0: Rational, q1: Rational)
    requires
        q0.wf(),
        q1.wf(),
    ensures
        ({
            let msgs = seq![(Rational { num: 0, den: 1 }, Rational { num: 1, den: 1 })];
            let sums = pi_single_sums(
                msgs,
                all_combos(1),
                seq![q0, q1],
                all_combos(1).len() as int,
            );
            &&& sums.0.0 * q1.den == q1.num * sums.0.1
            &&& sums.0.1 >= 1
            &&& sums.1.0 * q1.den == (q1.den - q1.num) * sums.1.1
            &&& sums.1.1 >= 1
        }),
{
    let msgs = seq![(Rational { num: 0, den: 1 }, Rational { num: 1, den: 1 })];
    let preds = seq![q0, q1];
    assert(all_combos(0) == seq![Seq::<bool>::empty()]);
    assert(all_combos(1) =~= seq![seq![false], seq![true]]) by {
        assert(all_combos(1) == all_combos(0).map_values(|c: Seq<bool>| c.push(false))
            + all_combos(0).map_values(|c: Seq<bool>| c.push(true)));
        assert(all_combos(0).map_values(|c: Seq<bool>| c.push(false)).len() == 1);
        assert(all_combos(0).map_values(|c: Seq<bool>| c.push(false))[0] =~= seq![false]);
        assert(all_combos(0).map_values(|c: Seq<bool>| c.push(true))[0] =~= seq![true]);
    }
    let cs = all_combos(1);
    assert(cs.len() == 2);
    assert(cs[0] =~= seq![false]);
    assert(cs[1] =~= seq![true]);
    // the premise-false assignment contributes nothing
    assert(cs[0][0] == false);
    assert(sel(msgs[0], cs[0][0]) == Rational { num: 0, den: 1 });
    assert(combo_prod(msgs, cs[0], 0).0 == 1 && combo_prod(msgs, cs[0], 0).1 == 1);
    assert(combo_prod(msgs, cs[0], 1).0 == 1int * 0int);
    assert(combo_prod(msgs, cs[0], 1).1 == 1int * 1int);
    // the premise-true assignment carries full weight
    assert(cs[1][0] == true);
    assert(sel(msgs[1 - 1], cs[1][0]) == Rational { num: 1, den: 1 });
    assert(combo_prod(msgs, cs[1], 0).0 == 1 && combo_prod(msgs, cs[1], 0).1 == 1);
    assert(combo_prod(msgs, cs[1], 1).0 == 1int * 1int);
    assert(combo_prod(msgs, cs[1], 1).1 == 1int * 1int);
    let s0 = pi_single_sums(msgs, cs, preds, 0);
    let s1 = pi_single_sums(msgs, cs, preds, 1);
    let s2 = pi_single_sums(msgs, cs, preds, 2);
    let a0 = q0.num as int;
    let d0 = q0.den as int;
    let a1 = q1.num as int;
    let d1 = q1.den as int;
    let prod0 = combo_prod(msgs, cs[0], 1);
    let prod1 = combo_prod(msgs, cs[1], 1);
    assert(s0.0.0 == 0 && s0.0.1 == 1 && s0.1.0 == 0 && s0.1.1 == 1);
    assert(preds[0] == q0 && preds[1] == q1);
    assert(s1.0.0 == s0.0.0 * (d0 * prod0.1) + (a0 * prod0.0) * s0.0.1);
    assert(s1.0.1 == s0.0.1 * (d0 * prod0.1));
    assert(s1.0.0 == 0 && s1.0.1 == d0);
    assert(s1.1.0 == s0.1.0 * (d0 * prod0.1) + ((d0 - a0) * prod0.0) * s0.1.1);
    assert(s1.1.1 == s0.1.1 * (d0 * prod0.1));
    assert(s1.1.0 == 0 && s1.1.1 == d0);
    assert(s2.0.0 == s1.0.0 * (d1 * prod1.1) + (a1 * prod1.0) * s1.0.1);
    assert(s2.0.1 == s1.0.1 * (d1 * prod1.1));
    assert(s2.0.0 == (a1 * 1) * d0 && s2.0.1 == d0 * (d1 * 1));
    assert((a1 * 1) * d0 == a1 * d0) by (nonlinear_arith);
    assert(d0 * (d1 * 1) == d0 * d1) by (nonlinear_arith);
    assert(s2.0.0 == a1 * d0 && s2.0.1 == d0 * d1);
    assert(s2.1.0 == s1.1.0 * (d1 * prod1.1) + ((d1 - a1) * prod1.0) * s1.1.1);
    assert(s2.1.1 == s1.1.1 * (d1 * prod1.1));
    assert(s2.1.0 == ((d1 - a1) * 1) * d0);
    assert(((d1 - a1) * 1) * d0 == (d1 - a1) * d0) by (nonlinear_arith);
    assert(s2.1.0 == (d1 - a1) * d0 && s2.1.1 == d0 * d1);
    assert(s2.0.0 * d1 == a1 * s2.0.1) by (nonlinear_arith)
        requires
            s2.0.0 == a1 * d0,
            s2.0.1 == d0 * d1,
    ;
    assert(s2.1.0 * d1 == (d1 - a1) * s2.1.1) by (nonlinear_arith)
        requires
            s2.1.0 == (d1 - a1) * d0,
            s2.1.1 == d0 * d1,
    ;
    assert(s2.0.1 >= 1) by (nonlinear_arith)
        requires
            s2.0.1 == d0 * d1,
            d0 >= 1,
            d1 >= 1,
    ;
}

/// No-evidence neutrality, second half: normalizing a true support that
/// equals the marginal against a false support that equals its
/// complement recovers the marginal itself.
#[verifier::rlimit(100)]
pub proof fn lemma_normalization_recovers(st: Rational, sf: Rational, q: Rational, p1: Rational)
    requires
        st.wf(),
        sf.wf(),
        q.wf(),
        p1.wf(),
        st.num * q.den == q.num * st.den,
        sf.num * q.den == (q.den - q.num) * sf.den,
        p1.pv() == pdiv(st.pv(), padd(sf.pv(), st.pv())),
    ensures
        qeq(p1, q),
{
    let a = st.num as int;
    let b = st.den as int;
    let c = sf.num as int;
    let d = sf.den as int;
    let qn = q.num as int;
    let qd = q.den as int;
    assert(p1.num == a * (d * b) && p1.den == b * (c * b + a * d));
    assert(a * qd * ((qd - qn) * d) == qn * b * (c * qd)) by (nonlinear_arith)
        requires
            a * qd == qn * b,
            c * qd == (qd - qn) * d,
    ;
    assert(a * ((qd - qn) * d) == qn * b * c) by (nonlinear_arith)
        requires
            a * qd * ((qd - qn) * d) == qn * b * (c * qd),
            qd >= 1,
    ;
    assert(a * b * d * (qd - qn) == qn * b * c * b) by (nonlinear_arith)
        requires
            a * ((qd - qn) * d) == qn * b * c,
    ;
    assert(a * b * d * qn == qn * b * (a * d)) by (nonlinear_arith);
    assert(a * (d * b) * qd == a * b * d * (qd - qn) + a * b * d * qn) by (nonlinear_arith);
    assert(p1.num * q.den == q.num * p1.den) by (nonlinear_arith)
        requires
            p1.num == a * (d * b),
            p1.den == b * (c * b + a * d),
            a * b * d * (qd - qn) == qn * b * c * b,
            a * b * d * qn == qn * b * (a * d),
            a * (d * b) * qd == a * b * d * (qd - qn) + a * b * d * qn,
            q.num == qn,
            q.den == qd,
    ;
}


/// After a completed run, a root's reported marginal is certainty: its
/// π-value is pinned to true, so the false potential vanishes and
/// normalization returns one.
#[verifier::rlimit(100)]
pub proof fn lemma_root_marginal_certain<M: FactorModel>(
    before: Inferencer<M>,
    after: Inferencer<M>,
    i: int,
)
    requires
        0 <= i < before.gn(),
        after.pass_pinned(before),
        after.marginal_entry_ok(i),
        before.rooted(i),
        !after.observed_spec(i),
    ensures
        after.marginals@[i] matches Some(MarginalOutcome::Known(p0, p1)) ==> qeq(
            p1,
            Rational { num: 1, den: 1 },
        ),
{
    match after.marginals@[i] {
        Some(MarginalOutcome::Known(p0, p1)) => {
            let l0 = after.data.lambda@[i].0->0;
            let l1 = after.data.lambda@[i].1->0;
            assert(after.data.pi@[i].0->0 == Rational { num: 0, den: 1 });
            assert(after.data.pi@[i].1->0 == Rational { num: 1, den: 1 });
            let pot0 = pmul((0int, 1int), l0.pv());
            let pot1 = pmul((1int, 1int), l1.pv());
            assert(pot0.0 == 0 * l0.num);
            assert(0 * l0.num == 0) by (nonlinear_arith);
            assert(p1.pv() == pdiv(pot1, padd(pot0, pot1)));
            assert(p1.num * 1 == 1 * p1.den) by (nonlinear_arith)
                requires
                    p1.num == pot1.0 * (pot0.1 * pot1.1),
                    p1.den == pot1.1 * (pot0.0 * pot1.1 + pot1.0 * pot0.1),
                    pot0.0 == 0,
            ;
        },
        _ => {},
    }
}

/// Evidence pinning: after a readout, an observed vertex reports the
/// stored evidence itself — the pair (1 - p, p) — whatever the graph,
/// the model and the rest of the chart hold.
pub proof fn lemma_run_pins_evidence<M: FactorModel>(inf: Inferencer<M>, i: int)
    requires
        inf.inv(),
        0 <= i < inf.gn(),
        inf.observed_spec(i),
        inf.marginal_entry_ok(i),
    ensures
        inf.marginals@[i] matches Some(MarginalOutcome::Known(p0, p1)) && p1 == inf.evidence@[i]->0
            && p0.num + p1.num == p1.den,
{
}


/// Root-only certainty: a run over a chart of bare existence facts, with
/// no evidence, reports every proposition true with probability one.
pub proof fn lemma_bare_chart_certain<M: FactorModel>(
    before: Inferencer<M>,
    after: Inferencer<M>,
    i: int,
)
    requires
        0 <= i < before.gn(),
        after.chart_ok(before),
        crate::inference::bare_chart(before.proposition_graph),
        !after.observed_spec(i),
        after.marginal_entry_ok(i),
    ensures
        after.marginals@[i] matches Some(MarginalOutcome::Known(p0, p1)) ==> qeq(
            p1,
            Rational { num: 1, den: 1 },
        ),
{
    assert(before.rooted(i));
    lemma_root_marginal_certain(before, after, i);
}

} // verus!
