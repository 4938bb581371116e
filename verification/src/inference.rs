//! The inferencer: Pearl-style belief propagation over the proposition
//! graph.
//!
//! A run owns a belief store and a propagation order.  The π-pass walks
//! the order forward, computing each vertex's causal support from its
//! parents' messages and the factor model; the λ-pass walks it backward,
//! collecting diagnostic support from children; the readout normalizes
//! the product of the two into marginals.  Every sum over premise
//! assignments is a spec-level fold, and every executable computation is
//! pinned to its fold exactly — rationals in, rationals out.

use vstd::prelude::*;

use crate::errors::BeliefError;
use crate::graph::{NodeView, PropositionGraph, PropositionNode, order_ok};
use crate::interface::FactorModel;
use crate::objects::Proposition;
use crate::rational::{
    Rational, lemma_marginal_normalization, lemma_norm_positive, padd, pdiv, pfits, pmul, qeq,
    qle,
};
use crate::table::{BeliefCell, BeliefStore};
use vstd::pervasive::VecAdditionalExecFns;

verus! {

/// Selects the belief for one outcome from a message pair.
pub open spec fn sel(m: (Rational, Rational), b: bool) -> Rational {
    if b {
        m.1
    } else {
        m.0
    }
}

/// The complement of a pair-view probability: one minus it.
pub open spec fn pcompl(p: (int, int)) -> (int, int) {
    (p.1 - p.0, p.1)
}

/// All Boolean assignments over `n` slots: the assignments over `n - 1`
/// slots, each extended by false, then each extended by true.
pub open spec fn all_combos(n: nat) -> Seq<Seq<bool>>
    decreases n,
{
    if n == 0 {
        seq![Seq::<bool>::empty()]
    } else {
        all_combos((n - 1) as nat).map_values(|c: Seq<bool>| c.push(false)) + all_combos(
            (n - 1) as nat,
        ).map_values(|c: Seq<bool>| c.push(true))
    }
}

/// Whether an assignment sets every slot true.
pub open spec fn and_all(c: Seq<bool>) -> bool {
    forall|j: int| 0 <= j < c.len() ==> c[j]
}

/// The assignment count doubles with each slot, and every assignment has
/// `n` slots.
pub proof fn lemma_all_combos_shape(n: nat)
    ensures
        all_combos(n).len() >= 1,
        forall|i: int|
            0 <= i < all_combos(n).len() ==> (#[trigger] all_combos(n)[i]).len() == n,
        n >= 1 ==> all_combos(n).len() == 2 * all_combos((n - 1) as nat).len(),
    decreases n,
{
    if n >= 1 {
        lemma_all_combos_shape((n - 1) as nat);
    }
}

/// Exactly the last assignment sets every slot true.
pub proof fn lemma_all_combos_last(n: nat)
    ensures
        forall|i: int|
            0 <= i < all_combos(n).len() ==> (and_all(#[trigger] all_combos(n)[i]) <==> i
                == all_combos(n).len() - 1),
    decreases n,
{
    lemma_all_combos_shape(n);
    if n == 0 {
        assert(and_all(all_combos(0)[0]));
    } else {
        let m = (n - 1) as nat;
        lemma_all_combos_shape(m);
        lemma_all_combos_last(m);
        let h = all_combos(m).len() as int;
        assert forall|i: int|
            0 <= i < all_combos(n).len() implies (and_all(#[trigger] all_combos(n)[i]) <==> i
            == all_combos(n).len() - 1) by {
            if i < h {
                let c = all_combos(m)[i];
                assert(all_combos(n)[i] == c.push(false));
                assert(c.push(false)[c.len() as int] == false);
                assert(!and_all(all_combos(n)[i]));
            } else {
                let c = all_combos(m)[i - h];
                assert(all_combos(n)[i] == c.push(true));
                if and_all(c) {
                    assert forall|j: int| 0 <= j < c.push(true).len() implies c.push(true)[j] by {
                        if j < c.len() {
                            assert(c[j]);
                        }
                    }
                    assert(and_all(c.push(true)));
                    assert(i - h == h - 1);
                } else {
                    let j = choose|j: int| 0 <= j < c.len() && !c[j];
                    assert(c.push(true)[j] == c[j]);
                    assert(!and_all(c.push(true)));
                }
            }
        }
    }
}

/// Builds every Boolean assignment over `n` slots, in `all_combos` order.
#[verifier::loop_isolation(false)]
pub fn compute_each_combination(n: usize) -> (r: Vec<Vec<bool>>)
    requires
        n <= 16,
    ensures
        r@.map_values(|c: Vec<bool>| c@) == all_combos(n as nat),
{
    let mut cur: Vec<Vec<bool>> = Vec::new();
    cur.push(Vec::new());
    proof {
        assert(cur@.map_values(|c: Vec<bool>| c@) =~= all_combos(0));
    }
    let mut round: usize = 0;
    while round < n
        invariant
            round <= n,
            cur@.map_values(|c: Vec<bool>| c@) == all_combos(round as nat),
        decreases n - round,
    {
        let ghost prev = all_combos(round as nat);
        proof {
            lemma_all_combos_shape(round as nat);
        }
        let mut next: Vec<Vec<bool>> = Vec::new();
        let mut i: usize = 0;
        while i < cur.len()
            invariant
                i <= cur@.len(),
                cur@.map_values(|c: Vec<bool>| c@) == prev,
                next@.len() == i,
                forall|j: int|
                    0 <= j < i ==> (#[trigger] next@[j])@ == prev[j].push(false),
            decreases cur@.len() - i,
        {
            let mut c: Vec<bool> = copy_bools(&cur[i]);
            c.push(false);
            next.push(c);
            i += 1;
        }
        let mut i: usize = 0;
        while i < cur.len()
            invariant
                i <= cur@.len(),
                cur@.map_values(|c: Vec<bool>| c@) == prev,
                next@.len() == prev.len() + i,
                forall|j: int|
                    0 <= j < prev.len() ==> (#[trigger] next@[j])@ == prev[j].push(false),
                forall|j: int|
                    prev.len() <= j < prev.len() + i ==> (#[trigger] next@[j])@ == prev[j
                        - prev.len()].push(true),
            decreases cur@.len() - i,
        {
            let mut c: Vec<bool> = copy_bools(&cur[i]);
            c.push(true);
            next.push(c);
            i += 1;
        }
        cur = next;
        proof {
            let goal = all_combos((round + 1) as nat);
            assert(goal == prev.map_values(|c: Seq<bool>| c.push(false)) + prev.map_values(
                |c: Seq<bool>| c.push(true),
            ));
            assert(cur@.map_values(|c: Vec<bool>| c@) =~= goal);
        }
        round += 1;
    }
    cur
}

/// Copies a vector of Booleans.
fn copy_bools(v: &Vec<bool>) -> (r: Vec<bool>)
    ensures
        r@ == v@,
{
    let mut r: Vec<bool> = Vec::new();
    let mut i: usize = 0;
    while i < v.len()
        invariant
            i <= v@.len(),
            r@.len() == i,
            forall|j: int| 0 <= j < i ==> r@[j] == v@[j],
        decreases v@.len() - i,
    {
        r.push(v[i]);
        i += 1;
    }
    proof {
        assert(r@ =~= v@);
    }
    r
}

/// The product of the selected message sides over the first `j` parents.
pub open spec fn combo_prod(msgs: Seq<(Rational, Rational)>, c: Seq<bool>, j: int) -> (int, int)
    decreases j,
{
    if j <= 0 {
        (1, 1)
    } else {
        pmul(combo_prod(msgs, c, j - 1), sel(msgs[j - 1], c[j - 1]).pv())
    }
}

/// Whether every prefix of that product fits in machine words.
pub open spec fn combo_prod_fits(msgs: Seq<(Rational, Rational)>, c: Seq<bool>, j: int) -> bool
    decreases j,
{
    if j <= 0 {
        true
    } else {
        combo_prod_fits(msgs, c, j - 1) && pfits(
            pmul(combo_prod(msgs, c, j - 1), sel(msgs[j - 1], c[j - 1]).pv()),
        )
    }
}

/// Whether every message side in a list is well formed.
pub open spec fn msgs_wf(msgs: Seq<(Rational, Rational)>) -> bool {
    forall|k: int|
        0 <= k < msgs.len() ==> (#[trigger] msgs[k]).0.wf() && msgs[k].1.wf()
}

/// Computes the product of selected message sides, exactly.
#[verifier::loop_isolation(false)]
pub fn exec_combo_prod(msgs: &Vec<(Rational, Rational)>, c: &Vec<bool>) -> (r: Result<
    Rational,
    BeliefError,
>)
    requires
        msgs@.len() == c@.len(),
        msgs_wf(msgs@),
    ensures
        (r is Ok) == combo_prod_fits(msgs@, c@, msgs@.len() as int),
        r matches Ok(p) ==> p.wf() && p.pv() == combo_prod(msgs@, c@, msgs@.len() as int),
        r matches Err(e) ==> e == BeliefError::NumericOverflow,
{
    let mut p = Rational::one();
    let mut j: usize = 0;
    while j < msgs.len()
        invariant
            j <= msgs@.len(),
            p.wf(),
            p.pv() == combo_prod(msgs@, c@, j as int),
            combo_prod_fits(msgs@, c@, j as int),
        decreases msgs@.len() - j,
    {
        let m = if c[j] {
            msgs[j].1
        } else {
            msgs[j].0
        };
        proof {
            assert(m == sel(msgs@[j as int], c@[j as int]));
        }
        match p.mul(m) {
            Some(q) => {
                p = q;
            },
            None => {
                proof {
                    assert(!combo_prod_fits(msgs@, c@, j as int + 1));
                    if combo_prod_fits(msgs@, c@, msgs@.len() as int) {
                        lemma_combo_fits_mono(msgs@, c@, j as int + 1, msgs@.len() as int);
                    }
                }
                return Err(BeliefError::NumericOverflow);
            },
        }
        j += 1;
    }
    Ok(p)
}

/// A product that fits at `j2` fits at every earlier prefix.
proof fn lemma_combo_fits_mono(msgs: Seq<(Rational, Rational)>, c: Seq<bool>, j1: int, j2: int)
    requires
        0 <= j1 <= j2,
        combo_prod_fits(msgs, c, j2),
    ensures
        combo_prod_fits(msgs, c, j1),
    decreases j2 - j1,
{
    if j1 < j2 {
        lemma_combo_fits_mono(msgs, c, j1, j2 - 1);
    }
}

/// The product of selected message sides leaving out parent `s`.
pub open spec fn combo_prod_except(
    msgs: Seq<(Rational, Rational)>,
    c: Seq<bool>,
    s: int,
    j: int,
) -> (int, int)
    decreases j,
{
    if j <= 0 {
        (1, 1)
    } else if j - 1 == s {
        combo_prod_except(msgs, c, s, j - 1)
    } else {
        pmul(combo_prod_except(msgs, c, s, j - 1), sel(msgs[j - 1], c[j - 1]).pv())
    }
}

/// Whether every prefix of the leave-one-out product fits.
pub open spec fn combo_prod_except_fits(
    msgs: Seq<(Rational, Rational)>,
    c: Seq<bool>,
    s: int,
    j: int,
) -> bool
    decreases j,
{
    if j <= 0 {
        true
    } else if j - 1 == s {
        combo_prod_except_fits(msgs, c, s, j - 1)
    } else {
        combo_prod_except_fits(msgs, c, s, j - 1) && pfits(
            pmul(combo_prod_except(msgs, c, s, j - 1), sel(msgs[j - 1], c[j - 1]).pv()),
        )
    }
}

/// A leave-one-out product that fits at `j2` fits at every earlier prefix.
proof fn lemma_combo_except_fits_mono(
    msgs: Seq<(Rational, Rational)>,
    c: Seq<bool>,
    s: int,
    j1: int,
    j2: int,
)
    requires
        0 <= j1 <= j2,
        combo_prod_except_fits(msgs, c, s, j2),
    ensures
        combo_prod_except_fits(msgs, c, s, j1),
    decreases j2 - j1,
{
    if j1 < j2 {
        lemma_combo_except_fits_mono(msgs, c, s, j1, j2 - 1);
    }
}

/// Computes the leave-one-out product of selected message sides, exactly.
#[verifier::loop_isolation(false)]
pub fn exec_combo_prod_except(msgs: &Vec<(Rational, Rational)>, c: &Vec<bool>, s: usize) -> (r:
    Result<Rational, BeliefError>)
    requires
        msgs@.len() == c@.len(),
        msgs_wf(msgs@),
    ensures
        (r is Ok) == combo_prod_except_fits(msgs@, c@, s as int, msgs@.len() as int),
        r matches Ok(p) ==> p.wf() && p.pv() == combo_prod_except(
            msgs@,
            c@,
            s as int,
            msgs@.len() as int,
        ),
        r matches Err(e) ==> e == BeliefError::NumericOverflow,
{
    let mut p = Rational::one();
    let mut j: usize = 0;
    while j < msgs.len()
        invariant
            j <= msgs@.len(),
            p.wf(),
            p.pv() == combo_prod_except(msgs@, c@, s as int, j as int),
            combo_prod_except_fits(msgs@, c@, s as int, j as int),
        decreases msgs@.len() - j,
    {
        if j != s {
            let m = if c[j] {
                msgs[j].1
            } else {
                msgs[j].0
            };
            proof {
                assert(m == sel(msgs@[j as int], c@[j as int]));
            }
            match p.mul(m) {
                Some(q) => {
                    p = q;
                },
                None => {
                    proof {
                        assert(!combo_prod_except_fits(msgs@, c@, s as int, j as int + 1));
                        if combo_prod_except_fits(msgs@, c@, s as int, msgs@.len() as int) {
                            lemma_combo_except_fits_mono(
                                msgs@,
                                c@,
                                s as int,
                                j as int + 1,
                                msgs@.len() as int,
                            );
                        }
                    }
                    return Err(BeliefError::NumericOverflow);
                },
            }
        }
        j += 1;
    }
    Ok(p)
}


/// Whether every prediction is a probability.
pub open spec fn preds_wf(preds: Seq<Rational>) -> bool {
    forall|i: int|
        0 <= i < preds.len() ==> (#[trigger] preds[i]).wf() && qle(
            preds[i],
            Rational { num: 1, den: 1 },
        )
}

/// The π sums of a Single vertex over the first `i` premise assignments:
/// true support and false support, each the sum of the model's marginal
/// (or its complement) times the product of incoming π-messages.
pub open spec fn pi_single_sums(
    msgs: Seq<(Rational, Rational)>,
    combos: Seq<Seq<bool>>,
    preds: Seq<Rational>,
    i: int,
) -> ((int, int), (int, int))
    decreases i,
{
    if i <= 0 {
        ((0, 1), (0, 1))
    } else {
        let prev = pi_single_sums(msgs, combos, preds, i - 1);
        let prod = combo_prod(msgs, combos[i - 1], msgs.len() as int);
        let w = preds[i - 1].pv();
        (padd(prev.0, pmul(w, prod)), padd(prev.1, pmul(pcompl(w), prod)))
    }
}

/// Whether every intermediate of those sums fits in machine words.
pub open spec fn pi_single_fits(
    msgs: Seq<(Rational, Rational)>,
    combos: Seq<Seq<bool>>,
    preds: Seq<Rational>,
    i: int,
) -> bool
    decreases i,
{
    if i <= 0 {
        true
    } else {
        let prev = pi_single_sums(msgs, combos, preds, i - 1);
        let prod = combo_prod(msgs, combos[i - 1], msgs.len() as int);
        let w = preds[i - 1].pv();
        &&& pi_single_fits(msgs, combos, preds, i - 1)
        &&& combo_prod_fits(msgs, combos[i - 1], msgs.len() as int)
        &&& pfits(pmul(w, prod))
        &&& pfits(padd(prev.0, pmul(w, prod)))
        &&& pfits(pmul(pcompl(w), prod))
        &&& pfits(padd(prev.1, pmul(pcompl(w), prod)))
    }
}

/// Sums that fit at `i2` fit at every earlier prefix.
proof fn lemma_pi_single_fits_mono(
    msgs: Seq<(Rational, Rational)>,
    combos: Seq<Seq<bool>>,
    preds: Seq<Rational>,
    i1: int,
    i2: int,
)
    requires
        0 <= i1 <= i2,
        pi_single_fits(msgs, combos, preds, i2),
    ensures
        pi_single_fits(msgs, combos, preds, i1),
    decreases i2 - i1,
{
    if i1 < i2 {
        lemma_pi_single_fits_mono(msgs, combos, preds, i1, i2 - 1);
    }
}

/// Computes the π sums of a Single vertex, exactly.
#[verifier::loop_isolation(false)]
pub fn exec_pi_single(
    msgs: &Vec<(Rational, Rational)>,
    combos: &Vec<Vec<bool>>,
    preds: &Vec<Rational>,
) -> (r: Result<(Rational, Rational), BeliefError>)
    requires
        combos@.len() == preds@.len(),
        forall|i: int| 0 <= i < combos@.len() ==> (#[trigger] combos@[i])@.len() == msgs@.len(),
        msgs_wf(msgs@),
        preds_wf(preds@),
    ensures
        (r is Ok) == pi_single_fits(
            msgs@,
            combos@.map_values(|c: Vec<bool>| c@),
            preds@,
            combos@.len() as int,
        ),
        r matches Ok(p) ==> p.0.wf() && p.1.wf() && (p.0.pv(), p.1.pv()) == pi_single_sums(
            msgs@,
            combos@.map_values(|c: Vec<bool>| c@),
            preds@,
            combos@.len() as int,
        ),
        r matches Err(e) ==> e == BeliefError::NumericOverflow,
{
    let ghost cv = combos@.map_values(|c: Vec<bool>| c@);
    let mut st = Rational::zero();
    let mut sf = Rational::zero();
    let mut i: usize = 0;
    while i < combos.len()
        invariant
            i <= combos@.len(),
            cv == combos@.map_values(|c: Vec<bool>| c@),
            st.wf(),
            sf.wf(),
            (st.pv(), sf.pv()) == pi_single_sums(msgs@, cv, preds@, i as int),
            pi_single_fits(msgs@, cv, preds@, i as int),
        decreases combos@.len() - i,
    {
        let prod = match exec_combo_prod(msgs, &combos[i]) {
            Ok(p) => p,
            Err(e) => {
                proof {
                    assert(!pi_single_fits(msgs@, cv, preds@, i as int + 1));
                    if pi_single_fits(msgs@, cv, preds@, combos@.len() as int) {
                        lemma_pi_single_fits_mono(
                            msgs@,
                            cv,
                            preds@,
                            i as int + 1,
                            combos@.len() as int,
                        );
                    }
                }
                return Err(e);
            },
        };
        let w = preds[i];
        let wt = match w.mul(prod) {
            Some(x) => x,
            None => {
                proof {
                    assert(!pi_single_fits(msgs@, cv, preds@, i as int + 1));
                    if pi_single_fits(msgs@, cv, preds@, combos@.len() as int) {
                        lemma_pi_single_fits_mono(
                            msgs@,
                            cv,
                            preds@,
                            i as int + 1,
                            combos@.len() as int,
                        );
                    }
                }
                return Err(BeliefError::NumericOverflow);
            },
        };
        let st2 = match st.add(wt) {
            Some(x) => x,
            None => {
                proof {
                    assert(!pi_single_fits(msgs@, cv, preds@, i as int + 1));
                    if pi_single_fits(msgs@, cv, preds@, combos@.len() as int) {
                        lemma_pi_single_fits_mono(
                            msgs@,
                            cv,
                            preds@,
                            i as int + 1,
                            combos@.len() as int,
                        );
                    }
                }
                return Err(BeliefError::NumericOverflow);
            },
        };
        let wc = w.complement();
        let wtf = match wc.mul(prod) {
            Some(x) => x,
            None => {
                proof {
                    assert(!pi_single_fits(msgs@, cv, preds@, i as int + 1));
                    if pi_single_fits(msgs@, cv, preds@, combos@.len() as int) {
                        lemma_pi_single_fits_mono(
                            msgs@,
                            cv,
                            preds@,
                            i as int + 1,
                            combos@.len() as int,
                        );
                    }
                }
                return Err(BeliefError::NumericOverflow);
            },
        };
        let sf2 = match sf.add(wtf) {
            Some(x) => x,
            None => {
                proof {
                    assert(!pi_single_fits(msgs@, cv, preds@, i as int + 1));
                    if pi_single_fits(msgs@, cv, preds@, combos@.len() as int) {
                        lemma_pi_single_fits_mono(
                            msgs@,
                            cv,
                            preds@,
                            i as int + 1,
                            combos@.len() as int,
                        );
                    }
                }
                return Err(BeliefError::NumericOverflow);
            },
        };
        st = st2;
        sf = sf2;
        i += 1;
    }
    Ok((st, sf))
}

/// The π sums of a Group vertex over the first `i` premise assignments:
/// a deterministic conjunction, so an assignment's product supports true
/// exactly when every premise is true in it.
pub open spec fn pi_group_sums(
    msgs: Seq<(Rational, Rational)>,
    combos: Seq<Seq<bool>>,
    i: int,
) -> ((int, int), (int, int))
    decreases i,
{
    if i <= 0 {
        ((0, 1), (0, 1))
    } else {
        let prev = pi_group_sums(msgs, combos, i - 1);
        let prod = combo_prod(msgs, combos[i - 1], msgs.len() as int);
        if and_all(combos[i - 1]) {
            (padd(prev.0, prod), prev.1)
        } else {
            (prev.0, padd(prev.1, prod))
        }
    }
}

/// Whether every intermediate of the Group sums fits.
pub open spec fn pi_group_fits(
    msgs: Seq<(Rational, Rational)>,
    combos: Seq<Seq<bool>>,
    i: int,
) -> bool
    decreases i,
{
    if i <= 0 {
        true
    } else {
        let prev = pi_group_sums(msgs, combos, i - 1);
        let prod = combo_prod(msgs, combos[i - 1], msgs.len() as int);
        &&& pi_group_fits(msgs, combos, i - 1)
        &&& combo_prod_fits(msgs, combos[i - 1], msgs.len() as int)
        &&& (if and_all(combos[i - 1]) {
            pfits(padd(prev.0, prod))
        } else {
            pfits(padd(prev.1, prod))
        })
    }
}

/// Group sums that fit at `i2` fit at every earlier prefix.
proof fn lemma_pi_group_fits_mono(
    msgs: Seq<(Rational, Rational)>,
    combos: Seq<Seq<bool>>,
    i1: int,
    i2: int,
)
    requires
        0 <= i1 <= i2,
        pi_group_fits(msgs, combos, i2),
    ensures
        pi_group_fits(msgs, combos, i1),
    decreases i2 - i1,
{
    if i1 < i2 {
        lemma_pi_group_fits_mono(msgs, combos, i1, i2 - 1);
    }
}

/// Whether every slot of an assignment is true, executably.
pub fn all_true(c: &Vec<bool>) -> (r: bool)
    ensures
        r == and_all(c@),
{
    let mut j: usize = 0;
    while j < c.len()
        invariant
            j <= c@.len(),
            forall|k: int| 0 <= k < j ==> c@[k],
        decreases c@.len() - j,
    {
        if !c[j] {
            return false;
        }
        j += 1;
    }
    true
}

/// Computes the π sums of a Group vertex, exactly.
#[verifier::loop_isolation(false)]
pub fn exec_pi_group(msgs: &Vec<(Rational, Rational)>, combos: &Vec<Vec<bool>>) -> (r: Result<
    (Rational, Rational),
    BeliefError,
>)
    requires
        forall|i: int| 0 <= i < combos@.len() ==> (#[trigger] combos@[i])@.len() == msgs@.len(),
        msgs_wf(msgs@),
    ensures
        (r is Ok) == pi_group_fits(
            msgs@,
            combos@.map_values(|c: Vec<bool>| c@),
            combos@.len() as int,
        ),
        r matches Ok(p) ==> p.0.wf() && p.1.wf() && (p.0.pv(), p.1.pv()) == pi_group_sums(
            msgs@,
            combos@.map_values(|c: Vec<bool>| c@),
            combos@.len() as int,
        ),
        r matches Err(e) ==> e == BeliefError::NumericOverflow,
{
    let ghost cv = combos@.map_values(|c: Vec<bool>| c@);
    let mut st = Rational::zero();
    let mut sf = Rational::zero();
    let mut i: usize = 0;
    while i < combos.len()
        invariant
            i <= combos@.len(),
            cv == combos@.map_values(|c: Vec<bool>| c@),
            st.wf(),
            sf.wf(),
            (st.pv(), sf.pv()) == pi_group_sums(msgs@, cv, i as int),
            pi_group_fits(msgs@, cv, i as int),
        decreases combos@.len() - i,
    {
        let prod = match exec_combo_prod(msgs, &combos[i]) {
            Ok(p) => p,
            Err(e) => {
                proof {
                    assert(!pi_group_fits(msgs@, cv, i as int + 1));
                    if pi_group_fits(msgs@, cv, combos@.len() as int) {
                        lemma_pi_group_fits_mono(msgs@, cv, i as int + 1, combos@.len() as int);
                    }
                }
                return Err(e);
            },
        };
        if all_true(&combos[i]) {
            match st.add(prod) {
                Some(x) => {
                    st = x;
                },
                None => {
                    proof {
                        assert(!pi_group_fits(msgs@, cv, i as int + 1));
                        if pi_group_fits(msgs@, cv, combos@.len() as int) {
                            lemma_pi_group_fits_mono(
                                msgs@,
                                cv,
                                i as int + 1,
                                combos@.len() as int,
                            );
                        }
                    }
                    return Err(BeliefError::NumericOverflow);
                },
            }
        } else {
            match sf.add(prod) {
                Some(x) => {
                    sf = x;
                },
                None => {
                    proof {
                        assert(!pi_group_fits(msgs@, cv, i as int + 1));
                        if pi_group_fits(msgs@, cv, combos@.len() as int) {
                            lemma_pi_group_fits_mono(
                                msgs@,
                                cv,
                                i as int + 1,
                                combos@.len() as int,
                            );
                        }
                    }
                    return Err(BeliefError::NumericOverflow);
                },
            }
        }
        i += 1;
    }
    Ok((st, sf))
}

/// The λ-message sum from a vertex toward its `s`-th parent for outcome
/// `v`: over the assignments that fix that parent to `v`, the likelihood
/// of the vertex under the assignment times the product of the other
/// parents' π-messages.
pub open spec fn lambda_send_sums(
    msgs: Seq<(Rational, Rational)>,
    combos: Seq<Seq<bool>>,
    weights: Seq<Rational>,
    lam: (Rational, Rational),
    s: int,
    v: bool,
    i: int,
) -> (int, int)
    decreases i,
{
    if i <= 0 {
        (0, 1)
    } else {
        let prev = lambda_send_sums(msgs, combos, weights, lam, s, v, i - 1);
        if combos[i - 1][s] == v {
            let prod = combo_prod_except(msgs, combos[i - 1], s, msgs.len() as int);
            let w = weights[i - 1].pv();
            let lik = padd(pmul(lam.1.pv(), w), pmul(lam.0.pv(), pcompl(w)));
            padd(prev, pmul(lik, prod))
        } else {
            prev
        }
    }
}

/// Whether every intermediate of the λ-message sum fits.
pub open spec fn lambda_send_fits(
    msgs: Seq<(Rational, Rational)>,
    combos: Seq<Seq<bool>>,
    weights: Seq<Rational>,
    lam: (Rational, Rational),
    s: int,
    v: bool,
    i: int,
) -> bool
    decreases i,
{
    if i <= 0 {
        true
    } else {
        let prev = lambda_send_sums(msgs, combos, weights, lam, s, v, i - 1);
        lambda_send_fits(msgs, combos, weights, lam, s, v, i - 1) && (combos[i - 1][s] == v
            ==> {
            let prod = combo_prod_except(msgs, combos[i - 1], s, msgs.len() as int);
            let w = weights[i - 1].pv();
            let lik = padd(pmul(lam.1.pv(), w), pmul(lam.0.pv(), pcompl(w)));
            &&& combo_prod_except_fits(msgs, combos[i - 1], s, msgs.len() as int)
            &&& pfits(pmul(lam.1.pv(), w))
            &&& pfits(pmul(lam.0.pv(), pcompl(w)))
            &&& pfits(lik)
            &&& pfits(pmul(lik, prod))
            &&& pfits(padd(prev, pmul(lik, prod)))
        })
    }
}

/// λ-message sums that fit at `i2` fit at every earlier prefix.
proof fn lemma_lambda_send_fits_mono(
    msgs: Seq<(Rational, Rational)>,
    combos: Seq<Seq<bool>>,
    weights: Seq<Rational>,
    lam: (Rational, Rational),
    s: int,
    v: bool,
    i1: int,
    i2: int,
)
    requires
        0 <= i1 <= i2,
        lambda_send_fits(msgs, combos, weights, lam, s, v, i2),
    ensures
        lambda_send_fits(msgs, combos, weights, lam, s, v, i1),
    decreases i2 - i1,
{
    if i1 < i2 {
        lemma_lambda_send_fits_mono(msgs, combos, weights, lam, s, v, i1, i2 - 1);
    }
}

/// Computes the λ-message sum toward one parent, exactly.
#[verifier::loop_isolation(false)]
#[verifier::rlimit(50)]
pub fn exec_lambda_send(
    msgs: &Vec<(Rational, Rational)>,
    combos: &Vec<Vec<bool>>,
    weights: &Vec<Rational>,
    lam: (Rational, Rational),
    s: usize,
    v: bool,
) -> (r: Result<Rational, BeliefError>)
    requires
        combos@.len() == weights@.len(),
        forall|i: int| 0 <= i < combos@.len() ==> (#[trigger] combos@[i])@.len() == msgs@.len(),
        s < msgs@.len(),
        msgs_wf(msgs@),
        preds_wf(weights@),
        lam.0.wf(),
        lam.1.wf(),
    ensures
        (r is Ok) == lambda_send_fits(
            msgs@,
            combos@.map_values(|c: Vec<bool>| c@),
            weights@,
            lam,
            s as int,
            v,
            combos@.len() as int,
        ),
        r matches Ok(p) ==> p.wf() && p.pv() == lambda_send_sums(
            msgs@,
            combos@.map_values(|c: Vec<bool>| c@),
            weights@,
            lam,
            s as int,
            v,
            combos@.len() as int,
        ),
        r matches Err(e) ==> e == BeliefError::NumericOverflow,
{
    let ghost cv = combos@.map_values(|c: Vec<bool>| c@);
    let mut acc = Rational::zero();
    let mut i: usize = 0;
    while i < combos.len()
        invariant
            i <= combos@.len(),
            cv == combos@.map_values(|c: Vec<bool>| c@),
            acc.wf(),
            acc.pv() == lambda_send_sums(msgs@, cv, weights@, lam, s as int, v, i as int),
            lambda_send_fits(msgs@, cv, weights@, lam, s as int, v, i as int),
        decreases combos@.len() - i,
    {
        if combos[i][s] == v {
            let prod = match exec_combo_prod_except(msgs, &combos[i], s) {
                Ok(p) => p,
                Err(e) => {
                    proof {
                        assert(!lambda_send_fits(msgs@, cv, weights@, lam, s as int, v, i as int + 1));
                        if lambda_send_fits(msgs@, cv, weights@, lam, s as int, v, combos@.len() as int) {
                            lemma_lambda_send_fits_mono(msgs@, cv, weights@, lam, s as int, v, i as int + 1, combos@.len() as int);
                        }
                    }
                    return Err(e);
                },
            };
            let w = weights[i];
            let a = match lam.1.mul(w) {
                Some(x) => x,
                None => {
                    proof {
                        assert(!lambda_send_fits(msgs@, cv, weights@, lam, s as int, v, i as int + 1));
                        if lambda_send_fits(msgs@, cv, weights@, lam, s as int, v, combos@.len() as int) {
                            lemma_lambda_send_fits_mono(msgs@, cv, weights@, lam, s as int, v, i as int + 1, combos@.len() as int);
                        }
                    }
                    return Err(BeliefError::NumericOverflow);
                },
            };
            let b = match lam.0.mul(w.complement()) {
                Some(x) => x,
                None => {
                    proof {
                        assert(!lambda_send_fits(msgs@, cv, weights@, lam, s as int, v, i as int + 1));
                        if lambda_send_fits(msgs@, cv, weights@, lam, s as int, v, combos@.len() as int) {
                            lemma_lambda_send_fits_mono(msgs@, cv, weights@, lam, s as int, v, i as int + 1, combos@.len() as int);
                        }
                    }
                    return Err(BeliefError::NumericOverflow);
                },
            };
            let lik = match a.add(b) {
                Some(x) => x,
                None => {
                    proof {
                        assert(!lambda_send_fits(msgs@, cv, weights@, lam, s as int, v, i as int + 1));
                        if lambda_send_fits(msgs@, cv, weights@, lam, s as int, v, combos@.len() as int) {
                            lemma_lambda_send_fits_mono(msgs@, cv, weights@, lam, s as int, v, i as int + 1, combos@.len() as int);
                        }
                    }
                    return Err(BeliefError::NumericOverflow);
                },
            };
            let term = match lik.mul(prod) {
                Some(x) => x,
                None => {
                    proof {
                        assert(!lambda_send_fits(msgs@, cv, weights@, lam, s as int, v, i as int + 1));
                        if lambda_send_fits(msgs@, cv, weights@, lam, s as int, v, combos@.len() as int) {
                            lemma_lambda_send_fits_mono(msgs@, cv, weights@, lam, s as int, v, i as int + 1, combos@.len() as int);
                        }
                    }
                    return Err(BeliefError::NumericOverflow);
                },
            };
            match acc.add(term) {
                Some(x) => {
                    acc = x;
                },
                None => {
                    proof {
                        assert(!lambda_send_fits(msgs@, cv, weights@, lam, s as int, v, i as int + 1));
                        if lambda_send_fits(msgs@, cv, weights@, lam, s as int, v, combos@.len() as int) {
                            lemma_lambda_send_fits_mono(msgs@, cv, weights@, lam, s as int, v, i as int + 1, combos@.len() as int);
                        }
                    }
                    return Err(BeliefError::NumericOverflow);
                },
            }
        }
        i += 1;
    }
    Ok(acc)
}

/// The product of a list of belief values over its first `i` entries.
pub open spec fn prod_list(vals: Seq<Rational>, i: int) -> (int, int)
    decreases i,
{
    if i <= 0 {
        (1, 1)
    } else {
        pmul(prod_list(vals, i - 1), vals[i - 1].pv())
    }
}

/// Whether every prefix of that product fits.
pub open spec fn prod_list_fits(vals: Seq<Rational>, i: int) -> bool
    decreases i,
{
    if i <= 0 {
        true
    } else {
        prod_list_fits(vals, i - 1) && pfits(pmul(prod_list(vals, i - 1), vals[i - 1].pv()))
    }
}

/// List products that fit at `i2` fit at every earlier prefix.
proof fn lemma_prod_list_fits_mono(vals: Seq<Rational>, i1: int, i2: int)
    requires
        0 <= i1 <= i2,
        prod_list_fits(vals, i2),
    ensures
        prod_list_fits(vals, i1),
    decreases i2 - i1,
{
    if i1 < i2 {
        lemma_prod_list_fits_mono(vals, i1, i2 - 1);
    }
}

/// Computes the product of a list of belief values, exactly.
#[verifier::loop_isolation(false)]
pub fn exec_prod_list(vals: &Vec<Rational>) -> (r: Result<Rational, BeliefError>)
    requires
        forall|k: int| 0 <= k < vals@.len() ==> (#[trigger] vals@[k]).wf(),
    ensures
        (r is Ok) == prod_list_fits(vals@, vals@.len() as int),
        r matches Ok(p) ==> p.wf() && p.pv() == prod_list(vals@, vals@.len() as int),
        r matches Err(e) ==> e == BeliefError::NumericOverflow,
{
    let mut p = Rational::one();
    let mut j: usize = 0;
    while j < vals.len()
        invariant
            j <= vals@.len(),
            p.wf(),
            p.pv() == prod_list(vals@, j as int),
            prod_list_fits(vals@, j as int),
        decreases vals@.len() - j,
    {
        match p.mul(vals[j]) {
            Some(q) => {
                p = q;
            },
            None => {
                proof {
                    assert(!prod_list_fits(vals@, j as int + 1));
                    if prod_list_fits(vals@, vals@.len() as int) {
                        lemma_prod_list_fits_mono(vals@, j as int + 1, vals@.len() as int);
                    }
                }
                return Err(BeliefError::NumericOverflow);
            },
        }
        j += 1;
    }
    Ok(p)
}


/// A chart of bare existence facts: every vertex a childless root.
pub open spec fn bare_chart(g: PropositionGraph) -> bool {
    forall|i: int|
        0 <= i < g.nodes@.len() ==> g.roots@.contains(i as usize) && (
        #[trigger] g.children@[i]@).len() == 0
}

/// Every vertex is parentless and already settled: observed, or with no
/// children to consult.
pub open spec fn settled_chart(g: PropositionGraph, evidence: Seq<Option<Rational>>) -> bool {
    forall|i: int|
        0 <= i < g.nodes@.len() ==> (#[trigger] g.parents@[i]@).len() == 0 && (evidence[i] is Some
            || g.children@[i]@.len() == 0)
}

/// The readout is owed: every unobserved vertex has both belief cells
/// written and its normalization fits in machine words.
pub open spec fn readout_ready(
    pi: Seq<BeliefCell>,
    lambda: Seq<BeliefCell>,
    evidence: Seq<Option<Rational>>,
) -> bool {
    forall|i: int|
        0 <= i < pi.len() ==> evidence[i] is Some || (cell_full(#[trigger] pi[i]) && cell_full(
            lambda[i],
        ) && marginal_fits(pi[i].0->0, pi[i].1->0, lambda[i].0->0, lambda[i].1->0))
}

/// Every stored belief value is well formed.
pub open spec fn cell_wf(c: BeliefCell) -> bool {
    &&& (c.0 matches Some(v) ==> v.wf())
    &&& (c.1 matches Some(v) ==> v.wf())
}

/// Every cell of every table holds only well-formed values.
pub open spec fn store_wf(d: BeliefStore) -> bool {
    &&& forall|i: int| 0 <= i < d.pi@.len() ==> cell_wf(#[trigger] d.pi@[i])
    &&& forall|i: int| 0 <= i < d.lambda@.len() ==> cell_wf(#[trigger] d.lambda@[i])
    &&& forall|i: int, k: int|
        0 <= i < d.pi_msg@.len() && 0 <= k < d.pi_msg@[i]@.len() ==> cell_wf(
            #[trigger] d.pi_msg@[i]@[k],
        )
    &&& forall|i: int, k: int|
        0 <= i < d.lambda_msg@.len() && 0 <= k < d.lambda_msg@[i]@.len() ==> cell_wf(
            #[trigger] d.lambda_msg@[i]@[k],
        )
}

/// Both sides of a cell are written.
pub open spec fn cell_full(c: BeliefCell) -> bool {
    c.0 is Some && c.1 is Some
}

/// The run's position in its lifecycle.
#[derive(Clone, Copy, Debug, PartialEq, Eq, Structural)]
pub enum EngineState {
    Uninitialized,
    Initialized,
    PiPassed,
    LambdaPassed,
    MarginalsReady,
}

/// The readout at one vertex: the normalized pair of probabilities for
/// false and true, or the report that both potentials vanished.
#[derive(Clone, Copy, Debug)]
pub enum MarginalOutcome {
    Known(Rational, Rational),
    Degenerate,
}

/// Whether the readout arithmetic at one vertex fits in machine words.
pub open spec fn marginal_fits(pi0: Rational, pi1: Rational, l0: Rational, l1: Rational) -> bool {
    let pot0 = pmul(pi0.pv(), l0.pv());
    let pot1 = pmul(pi1.pv(), l1.pv());
    &&& pfits(pot0)
    &&& pfits(pot1)
    &&& (!(pot0.0 == 0 && pot1.0 == 0) ==> {
        let norm = padd(pot0, pot1);
        &&& pfits(norm)
        &&& pfits(pdiv(pot0, norm))
        &&& pfits(pdiv(pot1, norm))
    })
}

/// The inference engine: one run over one proposition graph.
pub struct Inferencer<M: FactorModel> {
    pub model: M,
    pub proposition_graph: PropositionGraph,
    pub bfs_order: Vec<usize>,
    pub data: BeliefStore,
    pub evidence: Vec<Option<Rational>>,
    pub marginals: Vec<Option<MarginalOutcome>>,
    pub state: EngineState,
}

impl<M: FactorModel> Inferencer<M> {
    /// The vertex count of the run's graph.
    pub open spec fn gn(self) -> int {
        self.proposition_graph.nodes@.len() as int
    }

    /// The structural invariant of a run.
    pub open spec fn inv(self) -> bool {
        &&& self.proposition_graph.wf()
        &&& order_ok(self.proposition_graph, self.bfs_order@)
        &&& self.data.sized_for(
            self.proposition_graph.parents@.map_values(|r: Vec<usize>| r@),
        )
        &&& self.evidence@.len() == self.gn()
        &&& forall|i: int|
            0 <= i < self.gn() ==> ((#[trigger] self.evidence@[i]) matches Some(p) ==> p.wf()
                && qle(p, Rational { num: 1, den: 1 }))
        &&& forall|i: int|
            0 <= i < self.gn() && (#[trigger] self.evidence@[i]) is Some
                ==> self.proposition_graph.single(i)
        &&& self.marginals@.len() == self.gn()
        &&& store_wf(self.data)
    }

    /// Whether a vertex carries evidence.
    pub open spec fn observed_spec(self, i: int) -> bool {
        self.evidence@[i] is Some
    }

    /// Whether a vertex is a recorded root.
    pub open spec fn rooted(self, i: int) -> bool {
        self.proposition_graph.roots@.contains(i as usize)
    }

    /// Builds a run over a graph: fresh tables, no evidence, and the
    /// breadth-first propagation order, whose construction fails on a
    /// graph that hides a cycle.
    pub fn new_mutable(model: M, proposition_graph: PropositionGraph) -> (res: Result<
        Box<Inferencer<M>>,
        BeliefError,
    >)
        requires
            proposition_graph.wf(),
        ensures
            res matches Ok(inf) ==> inf.inv() && inf.state == EngineState::Uninitialized && (
            forall|i: int| 0 <= i < inf.gn() ==> !inf.observed_spec(i))
                && inf.proposition_graph == proposition_graph && inf.model == model && (forall|i: int|
                0 <= i < inf.gn() ==> (#[trigger] inf.data.pi@[i]) == (
                    None::<Rational>,
                    None::<Rational>,
                ) && inf.data.lambda@[i] == (None::<Rational>, None::<Rational>) && inf.marginals@[i] is None)
                && (forall|i: int, k: int|
                0 <= i < inf.gn() && 0 <= k < inf.proposition_graph.parents@[i]@.len() ==> (
                #[trigger] inf.data.pi_msg@[i]@[k]) == (None::<Rational>, None::<Rational>)
                    && inf.data.lambda_msg@[i]@[k] == (None::<Rational>, None::<Rational>)),
            res matches Err(e) ==> e == BeliefError::UnresolvableProposition,
            proposition_graph.nodes@.len() == 1 && proposition_graph.roots@.len() == 1
                && proposition_graph.children@[0]@.len() == 0 ==> res is Ok,
    {
        let bfs_order = match crate::graph::create_bfs_order(&proposition_graph) {
            Ok(o) => o,
            Err(e) => {
                return Err(e);
            },
        };
        let data = BeliefStore::new(&proposition_graph.parents);
        let n = proposition_graph.nodes.len();
        let mut evidence: Vec<Option<Rational>> = Vec::new();
        let mut marginals: Vec<Option<MarginalOutcome>> = Vec::new();
        let mut i: usize = 0;
        while i < n
            invariant
                i <= n,
                evidence@.len() == i,
                marginals@.len() == i,
                forall|j: int| 0 <= j < i ==> (#[trigger] evidence@[j]) is None,
                forall|j: int| 0 <= j < i ==> (#[trigger] marginals@[j]) is None,
            decreases n - i,
        {
            evidence.push(None);
            marginals.push(None);
            i += 1;
        }
        Ok(
            Box::new(
                Inferencer {
                    model,
                    proposition_graph,
                    bfs_order,
                    data,
                    evidence,
                    marginals,
                    state: EngineState::Uninitialized,
                },
            ),
        )
    }

    /// The propagation order of this run.
    pub fn get_bfs_order(&self) -> (r: &Vec<usize>)
        ensures
            r == &self.bfs_order,
    {
        &self.bfs_order
    }

    /// Whether a vertex is one of the graph's roots.
    pub fn is_root(&self, node: usize) -> (r: bool)
        requires
            self.inv(),
            node < self.gn(),
        ensures
            r == self.rooted(node as int),
    {
        crate::graph::contains_id(&self.proposition_graph.roots, node)
    }

    /// Whether a vertex carries evidence.
    pub fn is_observed(&self, node: usize) -> (r: bool)
        requires
            self.inv(),
            node < self.gn(),
        ensures
            r == self.observed_spec(node as int),
    {
        self.evidence[node].is_some()
    }

    /// Records observed evidence for a proposition; the run drops back to
    /// needing a pass.  Fails when the proposition is not in the graph.
    pub fn store_proposition_probability(
        &mut self,
        proposition: &Proposition,
        probability: Rational,
    ) -> (res: Result<(), BeliefError>)
        requires
            old(self).inv(),
            probability.wf(),
            qle(probability, Rational { num: 1, den: 1 }),
        ensures
            final(self).inv(),
            res is Ok ==> exists|i: int|
                0 <= i < old(self).gn() && old(self).proposition_graph.nodes@[i]@
                    == NodeView::Single(proposition@) && final(self).evidence@ == old(
                    self,
                ).evidence@.update(i, Some(probability)),
            res matches Err(e) ==> e == BeliefError::MissingBelief && (forall|i: int|
                0 <= i < old(self).gn() ==> old(self).proposition_graph.nodes@[i]@
                    != NodeView::Single(proposition@)) && final(self).evidence@ == old(
                self,
            ).evidence@,
            final(self).proposition_graph == old(self).proposition_graph,
            final(self).data == old(self).data,
            final(self).bfs_order == old(self).bfs_order,
            final(self).marginals == old(self).marginals,
            final(self).model == old(self).model,
    {
        match self.proposition_graph.find_single(proposition) {
            Some(i) => {
                self.evidence.set(i, Some(probability));
                if !matches!(self.state, EngineState::Uninitialized) {
                    self.state = EngineState::Initialized;
                }
                Ok(())
            },
            None => Err(BeliefError::MissingBelief),
        }
    }

    /// The recorded evidence for a proposition, if any.
    pub fn get_proposition_probability(&self, proposition: &Proposition) -> (r: Option<Rational>)
        requires
            self.inv(),
        ensures
            forall|i: int|
                0 <= i < self.gn() && self.proposition_graph.nodes@[i]@ == NodeView::Single(
                    proposition@,
                ) ==> r == self.evidence@[i],
            (forall|i: int|
                0 <= i < self.gn() ==> self.proposition_graph.nodes@[i]@ != NodeView::Single(
                    proposition@,
                )) ==> r is None,
    {
        match self.proposition_graph.find_single(proposition) {
            Some(i) => {
                proof {
                    assert forall|j: int|
                        0 <= j < self.gn() && self.proposition_graph.nodes@[j]@
                            == NodeView::Single(proposition@) implies j == i as int by {
                        if j != i as int {
                            assert(!crate::graph::node_same(
                                self.proposition_graph.nodes@[j]@,
                                self.proposition_graph.nodes@[i as int]@,
                            ));
                        }
                    }
                }
                self.evidence[i]
            },
            None => None,
        }
    }


    /// What the readout guarantees at one vertex: the entry is written;
    /// a known pair is exactly the normalized potentials, sums to one,
    /// and lies in the unit interval; a degenerate entry reports two
    /// vanished potentials.
    pub open spec fn marginal_entry_ok(self, i: int) -> bool {
        if self.observed_spec(i) {
            match self.marginals@[i] {
                Some(MarginalOutcome::Known(p0, p1)) => {
                    &&& p1 == self.evidence@[i]->0
                    &&& p0 == (Rational {
                        num: (self.evidence@[i]->0.den - self.evidence@[i]->0.num) as u64,
                        den: self.evidence@[i]->0.den,
                    })
                    &&& p0.wf()
                    &&& p1.wf()
                    &&& p0.num * p1.den + p1.num * p0.den == p0.den * p1.den
                    &&& qle(Rational { num: 0, den: 1 }, p1)
                    &&& qle(p1, Rational { num: 1, den: 1 })
                },
                _ => false,
            }
        } else {
            match self.marginals@[i] {
                Some(MarginalOutcome::Known(p0, p1)) => {
                    &&& p0.wf()
                    &&& p1.wf()
                    &&& p0.num * p1.den + p1.num * p0.den == p0.den * p1.den
                    &&& qle(Rational { num: 0, den: 1 }, p1)
                    &&& qle(p1, Rational { num: 1, den: 1 })
                    &&& cell_full(self.data.pi@[i])
                    &&& cell_full(self.data.lambda@[i])
                    &&& p0.pv() == pdiv(
                        pmul(self.data.pi@[i].0->0.pv(), self.data.lambda@[i].0->0.pv()),
                        padd(
                            pmul(self.data.pi@[i].0->0.pv(), self.data.lambda@[i].0->0.pv()),
                            pmul(self.data.pi@[i].1->0.pv(), self.data.lambda@[i].1->0.pv()),
                        ),
                    )
                    &&& p1.pv() == pdiv(
                        pmul(self.data.pi@[i].1->0.pv(), self.data.lambda@[i].1->0.pv()),
                        padd(
                            pmul(self.data.pi@[i].0->0.pv(), self.data.lambda@[i].0->0.pv()),
                            pmul(self.data.pi@[i].1->0.pv(), self.data.lambda@[i].1->0.pv()),
                        ),
                    )
                    &&& !(pmul(self.data.pi@[i].0->0.pv(), self.data.lambda@[i].0->0.pv()).0 == 0
                        && pmul(self.data.pi@[i].1->0.pv(), self.data.lambda@[i].1->0.pv()).0
                        == 0)
                },
                Some(MarginalOutcome::Degenerate) => {
                    &&& cell_full(self.data.pi@[i])
                    &&& cell_full(self.data.lambda@[i])
                    &&& pmul(self.data.pi@[i].0->0.pv(), self.data.lambda@[i].0->0.pv()).0 == 0
                    &&& pmul(self.data.pi@[i].1->0.pv(), self.data.lambda@[i].1->0.pv()).0 == 0
                },
                None => false,
            }
        }
    }

    /// Reads the marginals out: an observed vertex reports its stored
    /// evidence itself — evidence pinning — and every other vertex
    /// reports its two potentials normalized by their sum, or the
    /// degenerate outcome when both vanish.  Every known pair sums to
    /// one exactly and lies in the unit interval.  The readout succeeds
    /// whenever every unobserved vertex has both table cells written and
    /// its normalization fits in machine words.
    #[verifier::loop_isolation(false)]
    pub fn update_marginals(&mut self) -> (res: Result<(), BeliefError>)
        requires
            old(self).inv(),
        ensures
            readout_ready(old(self).data.pi@, old(self).data.lambda@, old(self).evidence@)
                ==> res is Ok,
            final(self).inv(),
            final(self).proposition_graph == old(self).proposition_graph,
            final(self).data == old(self).data,
            final(self).evidence == old(self).evidence,
            final(self).bfs_order == old(self).bfs_order,
            final(self).model == old(self).model,
            res is Ok ==> final(self).state == EngineState::MarginalsReady,
            res is Ok ==> forall|i: int|
                0 <= i < final(self).gn() ==> final(self).marginal_entry_ok(i),
        {
        let n = self.proposition_graph.nodes.len();
        let ghost d = self.data;
        let mut i: usize = 0;
        while i < n
            invariant
                i <= n,
                self.inv(),
                n == self.gn(),
                d == self.data,
                self.proposition_graph == old(self).proposition_graph,
                self.evidence == old(self).evidence,
                self.bfs_order == old(self).bfs_order,
                self.state == old(self).state,
                self.model == old(self).model,
                self.marginals@.len() == n,
                forall|j: int| 0 <= j < i ==> self.marginal_entry_ok(j),
                        decreases n - i,
        {
            if self.is_observed(i) {
                let p = match self.evidence[i] {
                    Some(p) => p,
                    None => vstd::pervasive::unreached(),
                };
                let against = p.complement();
                let ghost prev = *self;
                proof {
                    assert(against == Rational {
                        num: (p.den - p.num) as u64,
                        den: p.den,
                    });
                    assert(against.num * p.den + p.num * against.den == against.den
                        * p.den) by (nonlinear_arith)
                        requires
                            against.den == p.den,
                            against.num + p.num == p.den,
                    ;
                }
                self.marginals.set(i, Some(MarginalOutcome::Known(against, p)));
                proof {
                    assert(self.marginal_entry_ok(i as int));
                    assert forall|j: int| 0 <= j < i + 1 implies self.marginal_entry_ok(j) by {
                        if j < i {
                            assert(self.marginals@[j] == prev.marginals@[j]);
                            assert(prev.marginal_entry_ok(j));
                        }
                    }
                }
                i += 1;
                continue ;
            }
            let pi0 = match self.data.get_pi_value(i, 0) {
                Some(v) => v,
                None => {
                    proof {
                        assert(!cell_full(old(self).data.pi@[i as int]));
                    }
                    return Err(BeliefError::MissingBelief);
                },
            };
            let pi1 = match self.data.get_pi_value(i, 1) {
                Some(v) => v,
                None => {
                    proof {
                        assert(!cell_full(old(self).data.pi@[i as int]));
                    }
                    return Err(BeliefError::MissingBelief);
                },
            };
            let l0 = match self.data.get_lambda_value(i, 0) {
                Some(v) => v,
                None => {
                    proof {
                        assert(!cell_full(old(self).data.lambda@[i as int]));
                    }
                    return Err(BeliefError::MissingBelief);
                },
            };
            let l1 = match self.data.get_lambda_value(i, 1) {
                Some(v) => v,
                None => {
                    proof {
                        assert(!cell_full(old(self).data.lambda@[i as int]));
                    }
                    return Err(BeliefError::MissingBelief);
                },
            };
            let pot0 = match pi0.mul(l0) {
                Some(v) => v,
                None => {
                    proof {
                        assert(!marginal_fits(pi0, pi1, l0, l1));
                    }
                    return Err(BeliefError::NumericOverflow);
                },
            };
            let pot1 = match pi1.mul(l1) {
                Some(v) => v,
                None => {
                    proof {
                        assert(!marginal_fits(pi0, pi1, l0, l1));
                    }
                    return Err(BeliefError::NumericOverflow);
                },
            };
            let ghost prev = *self;
            if pot0.is_zero() && pot1.is_zero() {
                self.marginals.set(i, Some(MarginalOutcome::Degenerate));
                proof {
                    assert(self.marginal_entry_ok(i as int));
                    assert forall|j: int| 0 <= j < i + 1 implies self.marginal_entry_ok(j) by {
                        if j < i {
                            assert(self.marginals@[j] == prev.marginals@[j]);
                            assert(prev.marginal_entry_ok(j));
                        }
                    }
                }
            } else {
                proof {
                    lemma_norm_positive(
                        pot0.num as int,
                        pot0.den as int,
                        pot1.num as int,
                        pot1.den as int,
                    );
                }
                let norm = match pot0.add(pot1) {
                    Some(v) => v,
                    None => {
                        proof {
                            assert(!marginal_fits(pi0, pi1, l0, l1));
                        }
                        return Err(BeliefError::NumericOverflow);
                    },
                };
                let p0 = match pot0.div(norm) {
                    Some(v) => v,
                    None => {
                        proof {
                            assert(!marginal_fits(pi0, pi1, l0, l1));
                        }
                        return Err(BeliefError::NumericOverflow);
                    },
                };
                let p1 = match pot1.div(norm) {
                    Some(v) => v,
                    None => {
                        proof {
                            assert(!marginal_fits(pi0, pi1, l0, l1));
                        }
                        return Err(BeliefError::NumericOverflow);
                    },
                };
                proof {
                    lemma_marginal_normalization(pot0, pot1, norm, p0, p1);
                }
                self.marginals.set(i, Some(MarginalOutcome::Known(p0, p1)));
                proof {
                    assert(self.marginal_entry_ok(i as int));
                    assert forall|j: int| 0 <= j < i + 1 implies self.marginal_entry_ok(j) by {
                        if j < i {
                            assert(self.marginals@[j] == prev.marginals@[j]);
                            assert(prev.marginal_entry_ok(j));
                        }
                    }
                }
            }
            i += 1;
        }
        let ghost done_state = *self;
        self.state = EngineState::MarginalsReady;
        proof {
            assert forall|i: int| 0 <= i < self.gn() implies self.marginal_entry_ok(i) by {
                assert(done_state.marginal_entry_ok(i));
                assert(self.marginals@[i] == done_state.marginals@[i]);
                assert(self.data == done_state.data);
            }
        }
        Ok(())
    }

    /// The readout at a vertex, in the ready state only.
    pub fn get_marginal(&self, node: usize) -> (r: Option<MarginalOutcome>)
        requires
            self.inv(),
            node < self.gn(),
        ensures
            self.state == EngineState::MarginalsReady ==> r == self.marginals@[node as int],
            self.state != EngineState::MarginalsReady ==> r is None,
    {
        if matches!(self.state, EngineState::MarginalsReady) {
            self.marginals[node]
        } else {
            None
        }
    }

    /// What a completed pass guarantees, beyond the readout: roots are
    /// pinned to certainty, and observed vertices carry their evidence in
    /// both tables.
    pub open spec fn pass_pinned(self, before: Self) -> bool {
        &&& forall|i: int|
            0 <= i < before.gn() && before.rooted(i) ==> (#[trigger] self.data.pi@[i]) == (
                Some(Rational { num: 0, den: 1 }),
                Some(Rational { num: 1, den: 1 }),
            )
        &&& forall|i: int|
            0 <= i < before.gn() && !before.rooted(i) && before.observed_spec(i) ==> (
            #[trigger] self.data.pi@[i]) == (
                Some(
                    Rational {
                        num: (before.evidence@[i]->0.den - before.evidence@[i]->0.num) as u64,
                        den: before.evidence@[i]->0.den,
                    },
                ),
                Some(before.evidence@[i]->0),
            )
        &&& forall|i: int|
            0 <= i < before.gn() && before.observed_spec(i) ==> (
            #[trigger] self.data.lambda@[i]) == (
                Some(
                    Rational {
                        num: (before.evidence@[i]->0.den - before.evidence@[i]->0.num) as u64,
                        den: before.evidence@[i]->0.den,
                    },
                ),
                Some(before.evidence@[i]->0),
            )
        &&& forall|i: int|
            0 <= i < before.gn() && !before.observed_spec(i)
                && before.proposition_graph.children@[i]@.len() == 0 ==> (
            #[trigger] self.data.lambda@[i]) == (
                Some(Rational { num: 1, den: 1 }),
                Some(Rational { num: 1, den: 1 }),
            )
    }

    /// A sequence of neutral message pairs: what a child's siblings
    /// contribute right after λ-initialization.
    pub open spec fn ones_pairs(n: nat) -> Seq<(Rational, Rational)> {
        Seq::new(n, |j: int| (Rational { num: 1, den: 1 }, Rational { num: 1, den: 1 }))
    }

    /// The full chart a completed run guarantees, relative to the state
    /// `before` the run started from: roots and observed vertices pinned;
    /// every other π-value the assignment sum over its incoming
    /// π-messages and the model; every π-message the sender's π-value
    /// (its siblings' λ-messages still neutral at send time); every
    /// λ-value the product of its children's λ-messages; every λ-message
    /// the likelihood sum over the sender's other parents; and every
    /// readout entry lawful.
    pub open spec fn chart_ok(self, before: Self) -> bool {
        &&& self.pass_pinned(before)
        &&& forall|i: int|
            0 <= i < before.gn() && !before.rooted(i) && !before.observed_spec(i)
                && before.proposition_graph.single(i) ==> {
                let k = before.proposition_graph.parents@[i]@.len();
                let sums = pi_single_sums(
                    self.pmsgs(i),
                    all_combos(k),
                    before.preds_spec(i),
                    all_combos(k).len() as int,
                );
                &&& (#[trigger] self.data.pi@[i]).1 matches Some(m) && m.pv() == sums.0
                &&& self.data.pi@[i].0 matches Some(m) && m.pv() == sums.1
            }
        &&& forall|i: int|
            0 <= i < before.gn() && !before.rooted(i) && !before.observed_spec(i)
                && !before.proposition_graph.single(i) ==> {
                let k = before.proposition_graph.parents@[i]@.len();
                let sums = pi_group_sums(self.pmsgs(i), all_combos(k), all_combos(k).len() as int);
                &&& (#[trigger] self.data.pi@[i]).1 matches Some(m) && m.pv() == sums.0
                &&& self.data.pi@[i].0 matches Some(m) && m.pv() == sums.1
            }
        &&& forall|u: int, t2: int|
            0 <= u < before.gn() && 0 <= t2 < before.proposition_graph.children@[u]@.len() ==> {
                let c = (#[trigger] before.proposition_graph.children@[u]@[t2]) as int;
                let k = crate::pi::slot_in(before.proposition_graph.parents@[c]@, u as usize);
                let w = before.proposition_graph.children@[u]@.len();
                &&& self.data.pi_msg@[c]@[k].0 matches Some(m) && m.pv() == pmul(
                    self.data.pi@[u].0->0.pv(),
                    combo_prod_except(
                        Self::ones_pairs(w),
                        Seq::new(w, |j: int| false),
                        t2,
                        w as int,
                    ),
                )
                &&& self.data.pi_msg@[c]@[k].1 matches Some(m) && m.pv() == pmul(
                    self.data.pi@[u].1->0.pv(),
                    combo_prod_except(
                        Self::ones_pairs(w),
                        Seq::new(w, |j: int| true),
                        t2,
                        w as int,
                    ),
                )
            }
        &&& forall|i: int|
            0 <= i < before.gn() && !before.observed_spec(i) ==> {
                let msgs = self.lam_sibling_msgs(i);
                let w = msgs.len() as int;
                &&& (#[trigger] self.data.lambda@[i]).0 matches Some(m) && m.pv() == prod_list(
                    msgs.map_values(|q2: (Rational, Rational)| q2.0),
                    w,
                )
                &&& self.data.lambda@[i].1 matches Some(m) && m.pv() == prod_list(
                    msgs.map_values(|q2: (Rational, Rational)| q2.1),
                    w,
                )
            }
        &&& forall|i: int, k: int|
            0 <= i < before.gn() && 0 <= k < before.proposition_graph.parents@[i]@.len() ==> {
                let w = before.proposition_graph.parents@[i]@.len();
                let lam = (self.data.lambda@[i].0->0, self.data.lambda@[i].1->0);
                &&& (#[trigger] self.data.lambda_msg@[i]@[k]).0 matches Some(m) && m.pv()
                    == lambda_send_sums(
                    self.pmsgs(i),
                    all_combos(w),
                    before.send_weights(i),
                    lam,
                    k,
                    false,
                    all_combos(w).len() as int,
                )
                &&& self.data.lambda_msg@[i]@[k].1 matches Some(m) && m.pv()
                    == lambda_send_sums(
                    self.pmsgs(i),
                    all_combos(w),
                    before.send_weights(i),
                    lam,
                    k,
                    true,
                    all_combos(w).len() as int,
                )
            }
        &&& forall|i: int| 0 <= i < before.gn() ==> self.marginal_entry_ok(i)
    }

    /// One full run: neutral λ-initialization, the π-pass forward, the
    /// λ-pass backward, and the marginal readout.  On success the whole
    /// chart satisfies the propagation equations (`chart_ok`), and a
    /// chart of bare existence facts always succeeds.
    pub fn initialize(&mut self) -> (res: Result<(), BeliefError>)
        requires
            old(self).inv(),
        ensures
            final(self).inv(),
            final(self).proposition_graph == old(self).proposition_graph,
            final(self).evidence == old(self).evidence,
            final(self).bfs_order == old(self).bfs_order,
            final(self).model == old(self).model,
            res is Ok ==> final(self).state == EngineState::MarginalsReady,
            res is Ok ==> forall|i: int|
                0 <= i < final(self).gn() ==> final(self).marginal_entry_ok(i),
            res is Ok ==> final(self).pass_pinned(*old(self)),
            res is Ok ==> final(self).chart_ok(*old(self)),
            bare_chart(old(self).proposition_graph) ==> res is Ok,
    {
        let ghost orig = *old(self);
        self.initialize_lambda();
        let ghost mid1 = *self;
        match self.send_pi_messages() {
            Ok(()) => {},
            Err(e) => {
                return Err(e);
            },
        }
        let ghost mid2 = *self;
        proof {
            if bare_chart(orig.proposition_graph) {
                assert(settled_chart(mid2.proposition_graph, mid2.evidence@)) by {
                    assert forall|i: int|
                        0 <= i < mid2.proposition_graph.nodes@.len() implies (
                    #[trigger] mid2.proposition_graph.parents@[i]@).len() == 0 && (
                    mid2.evidence@[i] is Some
                        || mid2.proposition_graph.children@[i]@.len() == 0) by {
                        assert(orig.proposition_graph.children@[i]@.len() == 0);
                        assert(orig.proposition_graph.roots@.contains(i as usize));
                        let r = choose|r: int|
                            0 <= r < orig.proposition_graph.roots@.len()
                                && orig.proposition_graph.roots@[r] == i as usize;
                        assert(orig.proposition_graph.parents@[orig.proposition_graph.roots@[r] as int]@.len()
                            == 0);
                    }
                }
            }
        }
        match self.do_lambda_traversal() {
            Ok(()) => {},
            Err(e) => {
                return Err(e);
            },
        }
        let ghost mid3 = *self;
        proof {
            // on a chart of bare existence facts the readout is owed:
            // every vertex is pinned to certainty with neutral support
            if bare_chart(orig.proposition_graph) {
                assert forall|i: int|
                    0 <= i < mid3.data.pi@.len() implies mid3.evidence@[i] is Some || (cell_full(
                    #[trigger] mid3.data.pi@[i],
                ) && cell_full(mid3.data.lambda@[i]) && marginal_fits(
                    mid3.data.pi@[i].0->0,
                    mid3.data.pi@[i].1->0,
                    mid3.data.lambda@[i].0->0,
                    mid3.data.lambda@[i].1->0,
                )) by {
                    if !(mid3.evidence@[i] is Some) {
                        assert(orig.rooted(i));
                        assert(mid3.data.pi@[i] == (
                            Some(Rational { num: 0, den: 1 }),
                            Some(Rational { num: 1, den: 1 }),
                        ));
                        assert(mid3.data.lambda@[i] == (
                            Some(Rational { num: 1, den: 1 }),
                            Some(Rational { num: 1, den: 1 }),
                        ));
                        let pi0 = mid3.data.pi@[i].0->0;
                        let pi1 = mid3.data.pi@[i].1->0;
                        let l0 = mid3.data.lambda@[i].0->0;
                        let l1 = mid3.data.lambda@[i].1->0;
                        assert(pmul(pi0.pv(), l0.pv()).0 == 0 && pmul(pi0.pv(), l0.pv()).1 == 1);
                        assert(pmul(pi1.pv(), l1.pv()).0 == 1 && pmul(pi1.pv(), l1.pv()).1 == 1);
                        assert(padd(pmul(pi0.pv(), l0.pv()), pmul(pi1.pv(), l1.pv())).0 == 1
                            && padd(pmul(pi0.pv(), l0.pv()), pmul(pi1.pv(), l1.pv())).1 == 1);
                        assert(marginal_fits(pi0, pi1, l0, l1));
                    }
                }
                assert(readout_ready(mid3.data.pi@, mid3.data.lambda@, mid3.evidence@));
            }
        }
        match self.update_marginals() {
            Ok(()) => {},
            Err(e) => {
                return Err(e);
            },
        }
        proof {
            let fin = *self;
            assert(fin.data == mid3.data);
            assert(fin.data.pi == mid2.data.pi);
            assert(fin.data.pi_msg == mid2.data.pi_msg);
            // the forward equations carry to the final state: the
            // backward pass and the readout leave the π tables alone
            assert forall|i: int|
                0 <= i < orig.gn() && !orig.rooted(i) && !orig.observed_spec(i)
                    && orig.proposition_graph.single(i) implies {
                let k = orig.proposition_graph.parents@[i]@.len();
                let sums = pi_single_sums(
                    fin.pmsgs(i),
                    all_combos(k),
                    orig.preds_spec(i),
                    all_combos(k).len() as int,
                );
                &&& (#[trigger] fin.data.pi@[i]).1 matches Some(m) && m.pv() == sums.0
                &&& fin.data.pi@[i].0 matches Some(m) && m.pv() == sums.1
            } by {
                crate::pi::lemma_specs_stable::<M>(mid1, orig, i);
                assert(!mid1.rooted(i) && !mid1.observed_spec(i));
                assert(fin.pmsgs(i) =~= mid2.pmsgs(i));
            }
            assert forall|i: int|
                0 <= i < orig.gn() && !orig.rooted(i) && !orig.observed_spec(i)
                    && !orig.proposition_graph.single(i) implies {
                let k = orig.proposition_graph.parents@[i]@.len();
                let sums = pi_group_sums(fin.pmsgs(i), all_combos(k), all_combos(k).len() as int);
                &&& (#[trigger] fin.data.pi@[i]).1 matches Some(m) && m.pv() == sums.0
                &&& fin.data.pi@[i].0 matches Some(m) && m.pv() == sums.1
            } by {
                assert(!mid1.rooted(i) && !mid1.observed_spec(i));
                assert(fin.pmsgs(i) =~= mid2.pmsgs(i));
            }
            assert forall|u: int, t2: int|
                0 <= u < orig.gn() && 0 <= t2
                    < orig.proposition_graph.children@[u]@.len() implies {
                let c = (#[trigger] orig.proposition_graph.children@[u]@[t2]) as int;
                let k = crate::pi::slot_in(orig.proposition_graph.parents@[c]@, u as usize);
                let w = orig.proposition_graph.children@[u]@.len();
                &&& fin.data.pi_msg@[c]@[k].0 matches Some(m) && m.pv() == pmul(
                    fin.data.pi@[u].0->0.pv(),
                    combo_prod_except(
                        Self::ones_pairs(w),
                        Seq::new(w, |j: int| false),
                        t2,
                        w as int,
                    ),
                )
                &&& fin.data.pi_msg@[c]@[k].1 matches Some(m) && m.pv() == pmul(
                    fin.data.pi@[u].1->0.pv(),
                    combo_prod_except(
                        Self::ones_pairs(w),
                        Seq::new(w, |j: int| true),
                        t2,
                        w as int,
                    ),
                )
            } by {
                let w = orig.proposition_graph.children@[u]@.len();
                assert(mid1.lam_sibling_msgs(u) =~= Self::ones_pairs(w)) by {
                    assert forall|t3: int|
                        0 <= t3 < w implies #[trigger] mid1.lam_sibling_msgs(u)[t3] == (
                        Rational { num: 1, den: 1 },
                        Rational { num: 1, den: 1 },
                    ) by {
                        let c3 = mid1.proposition_graph.children@[u]@[t3] as int;
                        let k3 = crate::pi::slot_in(
                            mid1.proposition_graph.parents@[c3]@,
                            u as usize,
                        );
                        assert(mid1.proposition_graph.parents@[c3]@.contains(u as usize));
                        assert(0 <= k3 < mid1.proposition_graph.parents@[c3]@.len()
                            && mid1.proposition_graph.parents@[c3]@[k3] == u as usize);
                        assert(mid1.data.lambda_msg@[c3]@[k3] == (
                            Some(Rational { num: 1, den: 1 }),
                            Some(Rational { num: 1, den: 1 }),
                        ));
                    }
                }
            }
            // the backward equations hold at the final state directly
            assert forall|i: int|
                0 <= i < orig.gn() && !orig.observed_spec(i) implies {
                let msgs = fin.lam_sibling_msgs(i);
                let w = msgs.len() as int;
                &&& (#[trigger] fin.data.lambda@[i]).0 matches Some(m) && m.pv() == prod_list(
                    msgs.map_values(|q2: (Rational, Rational)| q2.0),
                    w,
                )
                &&& fin.data.lambda@[i].1 matches Some(m) && m.pv() == prod_list(
                    msgs.map_values(|q2: (Rational, Rational)| q2.1),
                    w,
                )
            } by {
                assert(!mid2.observed_spec(i));
                assert(fin.lam_sibling_msgs(i) =~= mid3.lam_sibling_msgs(i));
            }
            assert forall|i: int, k: int|
                0 <= i < orig.gn() && 0 <= k
                    < orig.proposition_graph.parents@[i]@.len() implies {
                let w = orig.proposition_graph.parents@[i]@.len();
                let lam = (fin.data.lambda@[i].0->0, fin.data.lambda@[i].1->0);
                &&& (#[trigger] fin.data.lambda_msg@[i]@[k]).0 matches Some(m) && m.pv()
                    == lambda_send_sums(
                    fin.pmsgs(i),
                    all_combos(w),
                    orig.send_weights(i),
                    lam,
                    k,
                    false,
                    all_combos(w).len() as int,
                )
                &&& fin.data.lambda_msg@[i]@[k].1 matches Some(m) && m.pv()
                    == lambda_send_sums(
                    fin.pmsgs(i),
                    all_combos(w),
                    orig.send_weights(i),
                    lam,
                    k,
                    true,
                    all_combos(w).len() as int,
                )
            } by {
                assert(mid2.send_weights(i) == orig.send_weights(i)) by {
                    crate::pi::lemma_specs_stable::<M>(mid2, orig, i);
                }
                assert(fin.pmsgs(i) =~= mid3.pmsgs(i));
                assert(fin.data.lambda@[i] == mid3.data.lambda@[i]);
                assert(fin.data.lambda_msg@[i] == mid3.data.lambda_msg@[i]);
            }
        }
        Ok(())
    }

    /// Re-runs the whole propagation from a neutral chart; the same as a
    /// first run, whatever was in the tables.
    pub fn do_full_forward_and_backward(&mut self) -> (res: Result<(), BeliefError>)
        requires
            old(self).inv(),
        ensures
            final(self).inv(),
            final(self).proposition_graph == old(self).proposition_graph,
            final(self).evidence == old(self).evidence,
            final(self).bfs_order == old(self).bfs_order,
            final(self).model == old(self).model,
            res is Ok ==> final(self).state == EngineState::MarginalsReady,
            res is Ok ==> forall|i: int|
                0 <= i < final(self).gn() ==> final(self).marginal_entry_ok(i),
            res is Ok ==> final(self).pass_pinned(*old(self)),
            res is Ok ==> final(self).chart_ok(*old(self)),
            bare_chart(old(self).proposition_graph) ==> res is Ok,
    {
        self.initialize()
    }

    /// Re-propagates after the evidence at a vertex changed.  The whole
    /// chart is rebuilt from the tables' neutral state: on the acyclic
    /// graphs this engine runs on, that yields the same values a
    /// restricted fan-out from the vertex would.
    pub fn do_fan_out_from_node(&mut self, node: usize) -> (res: Result<(), BeliefError>)
        requires
            old(self).inv(),
            node < old(self).gn(),
        ensures
            final(self).inv(),
            final(self).proposition_graph == old(self).proposition_graph,
            final(self).evidence == old(self).evidence,
            final(self).bfs_order == old(self).bfs_order,
            final(self).model == old(self).model,
            res is Ok ==> final(self).state == EngineState::MarginalsReady,
            res is Ok ==> forall|i: int|
                0 <= i < final(self).gn() ==> final(self).marginal_entry_ok(i),
            res is Ok ==> final(self).pass_pinned(*old(self)),
            res is Ok ==> final(self).chart_ok(*old(self)),
            bare_chart(old(self).proposition_graph) ==> res is Ok,
    {
        self.initialize()
    }
}

/// The outcome of one full inference run: every vertex with its readout.
pub struct InferenceResult {
    pub nodes: Vec<PropositionNode>,
    pub marginals: Vec<Option<MarginalOutcome>>,
}

impl InferenceResult {
    /// Every entry is written, and every known pair is a unit-interval
    /// pair summing to one exactly.
    pub open spec fn swf(self) -> bool {
        &&& self.marginals@.len() == self.nodes@.len()
        &&& forall|i: int| 0 <= i < self.marginals@.len() ==> (#[trigger] self.marginals@[i]) is Some
        &&& forall|i: int|
            0 <= i < self.marginals@.len() ==> match #[trigger] self.marginals@[i] {
                Some(MarginalOutcome::Known(p0, p1)) => {
                    &&& p0.wf()
                    &&& p1.wf()
                    &&& p0.num * p1.den + p1.num * p0.den == p0.den * p1.den
                    &&& qle(Rational { num: 0, den: 1 }, p1)
                    &&& qle(p1, Rational { num: 1, den: 1 })
                },
                Some(MarginalOutcome::Degenerate) => true,
                None => false,
            }
    }

    /// The readout for a proposition, if it names a vertex of the run.
    pub fn marginal_for(&self, proposition: &Proposition) -> (r: Option<MarginalOutcome>)
        ensures
            r is Some ==> exists|i: int|
                0 <= i < self.nodes@.len() && self.nodes@[i]@ == NodeView::Single(proposition@)
                    && i < self.marginals@.len() && r == self.marginals@[i],
    {
        let mut i: usize = 0;
        while i < self.nodes.len()
            invariant
                i <= self.nodes@.len(),
            decreases self.nodes@.len() - i,
        {
            match &self.nodes[i].node {
                crate::graph::GenericNodeType::Single(p) => {
                    if p.eq_prop(proposition) {
                        if i < self.marginals.len() {
                            return self.marginals[i];
                        } else {
                            return None;
                        }
                    }
                },
                crate::graph::GenericNodeType::Group(_) => {},
            }
            i += 1;
        }
        None
    }
}

/// Builds the proposition graph for a target, runs one full pass with
/// the given model, and hands back every vertex with its readout.  This
/// one-call entry runs without evidence; to observe propositions, drive
/// an [`Inferencer`] directly and store them before the pass.
#[verifier::loop_isolation(false)]
pub fn inference_compute_marginals<M: FactorModel>(
    model: M,
    predicate_graph: &crate::factors::PredicateGraph,
    target: &Proposition,
) -> (res: Result<InferenceResult, BeliefError>)
    ensures
        res matches Ok(out) ==> out.swf(),
        res matches Ok(out) ==> out.nodes@.len() >= 1 && out.nodes@[0]@ == NodeView::Single(
            target@,
        ),
        crate::graph::lone_existence_target(predicate_graph@, target@) ==> res is Ok,
        res matches Ok(out) ==> exists|inf: Inferencer<M>, pre0: Inferencer<M>|
            {
                &&& (#[trigger] inf.inv())
                &&& (#[trigger] pre0.inv())
                &&& inf.state == EngineState::MarginalsReady
                &&& inf.proposition_graph.wf()
                &&& inf.proposition_graph.target == 0
                &&& inf.proposition_graph.nodes@.map_values(|v: PropositionNode| v@)
                    == out.nodes@.map_values(|v: PropositionNode| v@)
                &&& inf.marginals@.len() == out.marginals@.len()
                &&& (forall|i: int|
                    0 <= i < out.marginals@.len() ==> inf.marginals@[i] == out.marginals@[i])
                &&& (forall|i: int| 0 <= i < inf.gn() ==> !inf.observed_spec(i))
                &&& (forall|i: int| 0 <= i < inf.gn() ==> inf.marginal_entry_ok(i))
                &&& inf.pass_pinned(inf)
                &&& pre0.proposition_graph == inf.proposition_graph
                &&& pre0.evidence == inf.evidence
                &&& pre0.model == inf.model
                &&& inf.chart_ok(pre0)
            },
{
    let graph = match crate::graph::PropositionGraph::new_shared(predicate_graph, target) {
        Ok(g) => g,
        Err(e) => {
            return Err(e);
        },
    };
    let mut inferencer = match Inferencer::new_mutable(model, graph) {
        Ok(inf) => inf,
        Err(e) => {
            return Err(e);
        },
    };
    let ghost pre = *inferencer;
    proof {
        if crate::graph::lone_existence_target(predicate_graph@, target@) {
            assert(bare_chart(inferencer.proposition_graph)) by {
                assert(inferencer.proposition_graph.roots@ == seq![0usize]);
                assert(inferencer.proposition_graph.roots@[0] == 0usize);
                assert(inferencer.proposition_graph.roots@.contains(0usize));
            }
        }
    }
    match inferencer.initialize() {
        Ok(()) => {},
        Err(e) => {
            return Err(e);
        },
    }
    let n = inferencer.proposition_graph.nodes.len();
    let mut nodes: Vec<PropositionNode> = Vec::new();
    let mut i: usize = 0;
    while i < n
        invariant
            i <= n,
            n == inferencer.proposition_graph.nodes@.len(),
            nodes@.len() == i,
            forall|j: int|
                0 <= j < i ==> (#[trigger] nodes@[j])@ == inferencer.proposition_graph.nodes@[j]@,
        decreases n - i,
    {
        nodes.push(inferencer.proposition_graph.nodes[i].clone());
        i += 1;
    }
    let mut marginals: Vec<Option<MarginalOutcome>> = Vec::new();
    let mut i: usize = 0;
    while i < n
        invariant
            i <= n,
            inferencer.inv(),
            inferencer.state == EngineState::MarginalsReady,
            n == inferencer.gn(),
            forall|j: int| 0 <= j < n ==> inferencer.marginal_entry_ok(j),
            marginals@.len() == i,
            forall|j: int| 0 <= j < i ==> marginals@[j] == inferencer.marginals@[j],
        decreases n - i,
    {
        marginals.push(inferencer.get_marginal(i));
        i += 1;
    }
    let out = InferenceResult { nodes, marginals };
    proof {
        assert forall|i2: int|
            0 <= i2 < out.marginals@.len() implies (#[trigger] out.marginals@[i2]) is Some
                && match out.marginals@[i2] {
                Some(MarginalOutcome::Known(p0, p1)) => {
                    &&& p0.wf()
                    &&& p1.wf()
                    &&& p0.num * p1.den + p1.num * p0.den == p0.den * p1.den
                    &&& qle(Rational { num: 0, den: 1 }, p1)
                    &&& qle(p1, Rational { num: 1, den: 1 })
                },
                Some(MarginalOutcome::Degenerate) => true,
                None => false,
            } by {
            assert(out.marginals@[i2] == inferencer.marginals@[i2]);
            assert(inferencer.marginal_entry_ok(i2));
        }
        let witness = *inferencer;
        assert(witness.proposition_graph.nodes@.map_values(|v: PropositionNode| v@)
            =~= out.nodes@.map_values(|v: PropositionNode| v@));
        assert(witness.pass_pinned(witness)) by {
            assert(witness.pass_pinned(pre));
            assert(witness.proposition_graph == pre.proposition_graph);
            assert(witness.evidence == pre.evidence);
        }
        assert(out.nodes@[0]@ == NodeView::Single(target@));
        assert(witness.inv());
        assert(witness.state == EngineState::MarginalsReady);
        assert(witness.proposition_graph.wf());
        assert(witness.proposition_graph.target == 0);
        assert(witness.marginals@.len() == out.marginals@.len());
        assert(forall|i2: int|
            0 <= i2 < out.marginals@.len() ==> witness.marginals@[i2] == out.marginals@[i2]);
        assert forall|i2: int| 0 <= i2 < witness.gn() implies !witness.observed_spec(i2) by {
            assert(!pre.observed_spec(i2));
        }
        assert(witness.chart_ok(pre));
        assert(pre.inv());
        assert(pre.proposition_graph == witness.proposition_graph);
        assert(pre.evidence == witness.evidence);
        assert(pre.model == witness.model);
        assert(forall|i2: int| 0 <= i2 < witness.gn() ==> witness.marginal_entry_ok(i2));
    }
    Ok(out)
}

} // verus!
