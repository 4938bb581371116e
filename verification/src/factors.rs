//! Ground implication factors.
//!
//! A quantified implication concludes a predicate template.  Backward
//! expansion instantiates it against a ground proposition: every variable
//! argument of a premise term is routed through the term's role map to a
//! role of the conclusion and replaced by the proposition's constant there.
//! The result is a ground factor: a proposition group premise concluding
//! the proposition itself.
//!
//! Every step has a spec-level mirror, so the whole enumeration is a
//! deterministic function of the implication store and the proposition.

use vstd::prelude::*;

use crate::errors::BeliefError;
use crate::objects::{
    Argument, ArgumentView, FactorTemplateView, LabeledArgument, LabeledArgumentView, Predicate,
    PredicateInferenceFactor, PredicateView, Proposition, PropositionGroup, lookup_role,
    spec_is_fact,
};
use crate::text::str_eq;

verus! {

/// View of a ground factor.
pub struct GroundFactorView {
    pub premise: Seq<PredicateView>,
    pub conclusion: PredicateView,
    pub inference: FactorTemplateView,
}

/// A ground instance of an implication: a proposition group premise, the
/// proposition it concludes, and the implication it came from.
#[derive(Debug)]
pub struct PropositionInferenceFactor {
    pub premise: PropositionGroup,
    pub conclusion: Proposition,
    pub inference: PredicateInferenceFactor,
}

impl View for PropositionInferenceFactor {
    type V = GroundFactorView;

    open spec fn view(&self) -> GroundFactorView {
        GroundFactorView {
            premise: self.premise@,
            conclusion: self.conclusion@,
            inference: self.inference@,
        }
    }
}

impl Clone for PropositionInferenceFactor {
    /// An exact copy.
    fn clone(&self) -> (r: Self)
        ensures
            r@ == self@,
    {
        PropositionInferenceFactor {
            premise: self.premise.clone(),
            conclusion: self.conclusion.clone(),
            inference: self.inference.clone(),
        }
    }
}

/// First argument bound to a role name among labeled arguments.
pub open spec fn lookup_arg(roles: Seq<LabeledArgumentView>, r: Seq<char>) -> Option<ArgumentView>
    decreases roles.len(),
{
    if roles.len() == 0 {
        None
    } else if roles[0].role == r {
        Some(roles[0].arg)
    } else {
        lookup_arg(roles.drop_first(), r)
    }
}

/// Substitution of one premise role: constants stay; a variable is routed
/// through the role map to a conclusion role and takes its argument.
pub open spec fn spec_subst_role(
    l: LabeledArgumentView,
    m: Seq<(Seq<char>, Seq<char>)>,
    cr: Seq<LabeledArgumentView>,
) -> Result<LabeledArgumentView, BeliefError> {
    match l.arg {
        ArgumentView::Constant(_, _) => Ok(l),
        ArgumentView::Variable(_) => match lookup_role(m, l.role) {
            None => Err(BeliefError::InconsistentRoleMap),
            Some(target) => match lookup_arg(cr, target) {
                None => Err(BeliefError::InconsistentRoleMap),
                Some(a) => Ok(LabeledArgumentView { role: l.role, arg: a }),
            },
        },
    }
}

/// Substitution across a whole role list; the first failure wins.
pub open spec fn spec_subst_roles(
    roles: Seq<LabeledArgumentView>,
    m: Seq<(Seq<char>, Seq<char>)>,
    cr: Seq<LabeledArgumentView>,
) -> Result<Seq<LabeledArgumentView>, BeliefError>
    decreases roles.len(),
{
    if roles.len() == 0 {
        Ok(Seq::empty())
    } else {
        match spec_subst_role(roles[0], m, cr) {
            Err(e) => Err(e),
            Ok(h) => match spec_subst_roles(roles.drop_first(), m, cr) {
                Err(e) => Err(e),
                Ok(t) => Ok(seq![h] + t),
            },
        }
    }
}

/// Grounding one premise term: substitute every role, then require the
/// result to be fully ground.
pub open spec fn spec_ground_term(
    p: PredicateView,
    m: Seq<(Seq<char>, Seq<char>)>,
    cr: Seq<LabeledArgumentView>,
) -> Result<PredicateView, BeliefError> {
    match spec_subst_roles(p.roles, m, cr) {
        Err(e) => Err(e),
        Ok(rs) => {
            let q = PredicateView { function: p.function, roles: rs };
            if spec_is_fact(q) {
                Ok(q)
            } else {
                Err(BeliefError::NotGround)
            }
        },
    }
}

/// Grounding every premise term with its own role map.
pub open spec fn spec_ground_terms(
    terms: Seq<PredicateView>,
    maps: Seq<Seq<(Seq<char>, Seq<char>)>>,
    cr: Seq<LabeledArgumentView>,
) -> Result<Seq<PredicateView>, BeliefError>
    decreases terms.len(),
{
    if terms.len() == 0 {
        Ok(Seq::empty())
    } else if maps.len() == 0 {
        Err(BeliefError::InconsistentRoleMap)
    } else {
        match spec_ground_term(terms[0], maps[0], cr) {
            Err(e) => Err(e),
            Ok(h) => match spec_ground_terms(terms.drop_first(), maps.drop_first(), cr) {
                Err(e) => Err(e),
                Ok(t) => Ok(seq![h] + t),
            },
        }
    }
}

/// Whether an implication's conclusion matches a proposition by function
/// name and role shape.
pub open spec fn spec_matches(f: FactorTemplateView, prop: PredicateView) -> bool {
    &&& f.conclusion.function == prop.function
    &&& f.conclusion.roles.len() == prop.roles.len()
    &&& forall|j: int|
        0 <= j < f.conclusion.roles.len() ==> lookup_arg(
            prop.roles,
            f.conclusion.roles[j].role,
        ) is Some
}

/// The ground factor an implication yields for a proposition.
pub open spec fn spec_ground_factor(f: FactorTemplateView, prop: PredicateView) -> Result<
    GroundFactorView,
    BeliefError,
> {
    if f.role_maps.len() != f.premise.len() {
        Err(BeliefError::InconsistentRoleMap)
    } else {
        match spec_ground_terms(f.premise, f.role_maps, prop.roles) {
            Err(e) => Err(e),
            Ok(ts) => Ok(GroundFactorView { premise: ts, conclusion: prop, inference: f }),
        }
    }
}

/// All ground factors the implication store yields for a proposition, in
/// store order; the first grounding failure wins.
pub open spec fn spec_backward_factors(
    imps: Seq<FactorTemplateView>,
    prop: PredicateView,
) -> Result<Seq<GroundFactorView>, BeliefError>
    decreases imps.len(),
{
    if imps.len() == 0 {
        Ok(Seq::empty())
    } else if spec_matches(imps[0], prop) {
        match spec_ground_factor(imps[0], prop) {
            Err(e) => Err(e),
            Ok(g) => match spec_backward_factors(imps.drop_first(), prop) {
                Err(e) => Err(e),
                Ok(t) => Ok(seq![g] + t),
            },
        }
    } else {
        spec_backward_factors(imps.drop_first(), prop)
    }
}

/// First argument bound to a role name, executably.
fn lookup_arg_exec(roles: &Vec<LabeledArgument>, r: &str) -> (res: Option<Argument>)
    ensures
        res matches Some(a) ==> lookup_arg(
            roles@.map_values(|l: LabeledArgument| l@),
            r@,
        ) == Some(a@),
        res is None ==> lookup_arg(roles@.map_values(|l: LabeledArgument| l@), r@) is None,
{
    let ghost rv = roles@.map_values(|l: LabeledArgument| l@);
    let mut i: usize = 0;
    proof {
        assert(rv.skip(0) =~= rv);
    }
    loop
        invariant
            i <= roles@.len(),
            rv == roles@.map_values(|l: LabeledArgument| l@),
            rv.len() == roles@.len(),
            lookup_arg(rv, r@) == lookup_arg(rv.skip(i as int), r@),
        decreases roles@.len() - i,
    {
        if i == roles.len() {
            proof {
                assert(rv.skip(i as int).len() == 0);
            }
            return None;
        }
        proof {
            assert(rv.skip(i as int)[0] == rv[i as int]);
            assert(rv.skip(i as int).drop_first() =~= rv.skip(i as int + 1));
        }
        if str_eq(roles[i].role_name.as_str(), r) {
            proof {
                assert(rv[i as int].role == r@);
            }
            return Some(roles[i].argument.clone());
        }
        i += 1;
    }
}

/// Substitutes one premise role against a conclusion, executably.
fn subst_role_exec(l: &LabeledArgument, m: &crate::objects::RoleMap, concl: &Predicate) -> (res:
    Result<LabeledArgument, BeliefError>)
    ensures
        res matches Ok(x) ==> spec_subst_role(l@, m@, concl@.roles) == Ok::<
            LabeledArgumentView,
            BeliefError,
        >(x@),
        res matches Err(e) ==> spec_subst_role(l@, m@, concl@.roles) == Err::<
            LabeledArgumentView,
            BeliefError,
        >(e),
{
    if l.argument.is_constant() {
        return Ok(l.clone());
    }
    match m.get(l.role_name.as_str()) {
        None => Err(BeliefError::InconsistentRoleMap),
        Some(target) => match lookup_arg_exec(&concl.roles, target.as_str()) {
            None => Err(BeliefError::InconsistentRoleMap),
            Some(a) => Ok(LabeledArgument::new(l.role_name.clone(), a)),
        },
    }
}

/// With an all-successful prefix, a failure at `j` decides the whole list.
proof fn lemma_subst_roles_err(
    roles: Seq<LabeledArgumentView>,
    m: Seq<(Seq<char>, Seq<char>)>,
    cr: Seq<LabeledArgumentView>,
    j: int,
    e: BeliefError,
)
    requires
        0 <= j < roles.len(),
        forall|k: int| 0 <= k < j ==> spec_subst_role(roles[k], m, cr) is Ok,
        spec_subst_role(roles[j], m, cr) == Err::<LabeledArgumentView, BeliefError>(e),
    ensures
        spec_subst_roles(roles, m, cr) == Err::<Seq<LabeledArgumentView>, BeliefError>(e),
    decreases roles.len(),
{
    if j == 0 {
    } else {
        assert(forall|k: int|
            0 <= k < j - 1 ==> roles.drop_first()[k] == roles[k + 1]
                && spec_subst_role(roles.drop_first()[k], m, cr) is Ok);
        assert(roles.drop_first()[j - 1] == roles[j]);
        lemma_subst_roles_err(roles.drop_first(), m, cr, j - 1, e);
    }
}

/// With every role successful, the list result collects the successes.
proof fn lemma_subst_roles_ok(
    roles: Seq<LabeledArgumentView>,
    m: Seq<(Seq<char>, Seq<char>)>,
    cr: Seq<LabeledArgumentView>,
)
    requires
        forall|k: int| 0 <= k < roles.len() ==> spec_subst_role(roles[k], m, cr) is Ok,
    ensures
        spec_subst_roles(roles, m, cr) == Ok::<Seq<LabeledArgumentView>, BeliefError>(
            Seq::new(roles.len(), |k: int| spec_subst_role(roles[k], m, cr)->Ok_0),
        ),
    decreases roles.len(),
{
    let goal = Seq::new(roles.len(), |k: int| spec_subst_role(roles[k], m, cr)->Ok_0);
    if roles.len() == 0 {
        assert(goal =~= Seq::<LabeledArgumentView>::empty());
    } else {
        assert(forall|k: int|
            0 <= k < roles.len() - 1 ==> roles.drop_first()[k] == roles[k + 1]
                && spec_subst_role(roles.drop_first()[k], m, cr) is Ok);
        lemma_subst_roles_ok(roles.drop_first(), m, cr);
        let tgoal = Seq::new(
            roles.drop_first().len(),
            |k: int| spec_subst_role(roles.drop_first()[k], m, cr)->Ok_0,
        );
        assert(goal =~= seq![spec_subst_role(roles[0], m, cr)->Ok_0] + tgoal);
    }
}

/// Grounds one premise term against a conclusion, executably.
fn ground_term_exec(p: &Predicate, m: &crate::objects::RoleMap, concl: &Predicate) -> (res: Result<
    Proposition,
    BeliefError,
>)
    ensures
        res matches Ok(x) ==> spec_ground_term(p@, m@, concl@.roles) == Ok::<
            PredicateView,
            BeliefError,
        >(x@),
        res matches Err(e) ==> spec_ground_term(p@, m@, concl@.roles) == Err::<
            PredicateView,
            BeliefError,
        >(e),
{
    let ghost pv = p@;
    let mut roles: Vec<LabeledArgument> = Vec::new();
    let mut i: usize = 0;
    while i < p.roles.len()
        invariant
            i <= p.roles@.len(),
            pv == p@,
            pv.roles.len() == p.roles@.len(),
            roles@.len() == i,
            forall|k: int|
                0 <= k < i ==> (#[trigger] spec_subst_role(pv.roles[k], m@, concl@.roles)) is Ok
                    && roles@[k]@ == spec_subst_role(pv.roles[k], m@, concl@.roles)->Ok_0,
        decreases p.roles@.len() - i,
    {
        proof {
            assert(pv.roles[i as int] == p.roles@[i as int]@);
        }
        match subst_role_exec(&p.roles[i], m, concl) {
            Ok(x) => {
                let ghost xv = x@;
                proof {
                    assert(spec_subst_role(pv.roles[i as int], m@, concl@.roles) == Ok::<
                        LabeledArgumentView,
                        BeliefError,
                    >(xv));
                }
                roles.push(x);
                proof {
                    assert(roles@[i as int]@ == xv);
                }
            },
            Err(e) => {
                proof {
                    lemma_subst_roles_err(pv.roles, m@, concl@.roles, i as int, e);
                }
                return Err(e);
            },
        }
        i += 1;
    }
    proof {
        lemma_subst_roles_ok(pv.roles, m@, concl@.roles);
        assert(roles@.map_values(|l: LabeledArgument| l@) =~= Seq::new(
            pv.roles.len(),
            |k: int| spec_subst_role(pv.roles[k], m@, concl@.roles)->Ok_0,
        ));
    }
    let pred = Predicate::new(p.function.clone(), roles);
    proof {
        assert(pred@ == (PredicateView {
            function: pv.function,
            roles: spec_subst_roles(pv.roles, m@, concl@.roles)->Ok_0,
        }));
    }
    match Proposition::from(pred) {
        Ok(prop) => Ok(prop),
        Err(_) => Err(BeliefError::NotGround),
    }
}

/// With an all-successful prefix, a failing term decides the whole list.
proof fn lemma_ground_terms_err(
    terms: Seq<PredicateView>,
    maps: Seq<Seq<(Seq<char>, Seq<char>)>>,
    cr: Seq<LabeledArgumentView>,
    j: int,
    e: BeliefError,
)
    requires
        terms.len() == maps.len(),
        0 <= j < terms.len(),
        forall|k: int| 0 <= k < j ==> spec_ground_term(terms[k], maps[k], cr) is Ok,
        spec_ground_term(terms[j], maps[j], cr) == Err::<PredicateView, BeliefError>(e),
    ensures
        spec_ground_terms(terms, maps, cr) == Err::<Seq<PredicateView>, BeliefError>(e),
    decreases terms.len(),
{
    if j == 0 {
    } else {
        assert(forall|k: int|
            0 <= k < j - 1 ==> terms.drop_first()[k] == terms[k + 1] && maps.drop_first()[k]
                == maps[k + 1] && spec_ground_term(
                terms.drop_first()[k],
                maps.drop_first()[k],
                cr,
            ) is Ok);
        assert(terms.drop_first()[j - 1] == terms[j]);
        assert(maps.drop_first()[j - 1] == maps[j]);
        lemma_ground_terms_err(terms.drop_first(), maps.drop_first(), cr, j - 1, e);
    }
}

/// With every term successful, the list result collects the groundings.
proof fn lemma_ground_terms_ok(
    terms: Seq<PredicateView>,
    maps: Seq<Seq<(Seq<char>, Seq<char>)>>,
    cr: Seq<LabeledArgumentView>,
)
    requires
        terms.len() == maps.len(),
        forall|k: int| 0 <= k < terms.len() ==> spec_ground_term(terms[k], maps[k], cr) is Ok,
    ensures
        spec_ground_terms(terms, maps, cr) == Ok::<Seq<PredicateView>, BeliefError>(
            Seq::new(terms.len(), |k: int| spec_ground_term(terms[k], maps[k], cr)->Ok_0),
        ),
    decreases terms.len(),
{
    let goal = Seq::new(terms.len(), |k: int| spec_ground_term(terms[k], maps[k], cr)->Ok_0);
    if terms.len() == 0 {
        assert(goal =~= Seq::<PredicateView>::empty());
    } else {
        assert(forall|k: int|
            0 <= k < terms.len() - 1 ==> terms.drop_first()[k] == terms[k + 1]
                && maps.drop_first()[k] == maps[k + 1] && spec_ground_term(
                terms.drop_first()[k],
                maps.drop_first()[k],
                cr,
            ) is Ok);
        lemma_ground_terms_ok(terms.drop_first(), maps.drop_first(), cr);
        let tgoal = Seq::new(
            terms.drop_first().len(),
            |k: int| spec_ground_term(terms.drop_first()[k], maps.drop_first()[k], cr)->Ok_0,
        );
        assert(goal =~= seq![spec_ground_term(terms[0], maps[0], cr)->Ok_0] + tgoal);
    }
}

/// Instantiates an implication against a proposition it concludes.
pub fn proposition_implication_from(
    implication: &PredicateInferenceFactor,
    proposition: &Proposition,
) -> (res: Result<PropositionInferenceFactor, BeliefError>)
    ensures
        res matches Ok(g) ==> spec_ground_factor(implication@, proposition@) == Ok::<
            GroundFactorView,
            BeliefError,
        >(g@),
        res matches Err(e) ==> spec_ground_factor(implication@, proposition@) == Err::<
            GroundFactorView,
            BeliefError,
        >(e),
{
    let ghost fv = implication@;
    let ghost cv = proposition@;
    if implication.role_maps.role_maps.len() != implication.premise.terms.len() {
        return Err(BeliefError::InconsistentRoleMap);
    }
    let mut terms: Vec<Proposition> = Vec::new();
    let mut i: usize = 0;
    while i < implication.premise.terms.len()
        invariant
            i <= implication.premise.terms@.len(),
            fv == implication@,
            cv == proposition@,
            fv.premise.len() == implication.premise.terms@.len(),
            fv.role_maps.len() == implication.role_maps.role_maps@.len(),
            fv.role_maps.len() == fv.premise.len(),
            terms@.len() == i,
            forall|k: int|
                0 <= k < i ==> (#[trigger] spec_ground_term(
                    fv.premise[k],
                    fv.role_maps[k],
                    cv.roles,
                )) is Ok && terms@[k]@ == spec_ground_term(
                    fv.premise[k],
                    fv.role_maps[k],
                    cv.roles,
                )->Ok_0,
        decreases implication.premise.terms@.len() - i,
    {
        proof {
            assert(fv.premise[i as int] == implication.premise.terms@[i as int]@);
            assert(fv.role_maps[i as int] == implication.role_maps.role_maps@[i as int]@);
        }
        match ground_term_exec(
            &implication.premise.terms[i],
            &implication.role_maps.role_maps[i],
            &proposition.predicate,
        ) {
            Ok(t) => {
                terms.push(t);
            },
            Err(e) => {
                proof {
                    lemma_ground_terms_err(fv.premise, fv.role_maps, cv.roles, i as int, e);
                }
                return Err(e);
            },
        }
        i += 1;
    }
    proof {
        lemma_ground_terms_ok(fv.premise, fv.role_maps, cv.roles);
    }
    let premise = PropositionGroup::new(terms);
    let r = PropositionInferenceFactor {
        premise,
        conclusion: proposition.clone(),
        inference: implication.clone(),
    };
    proof {
        assert(r@.premise =~= spec_ground_terms(fv.premise, fv.role_maps, cv.roles)->Ok_0);
        assert(spec_ground_factor(fv, cv) == Ok::<GroundFactorView, BeliefError>(r@));
    }
    Ok(r)
}

/// Whether an implication's conclusion matches a proposition, executably.
fn matches_exec(implication: &PredicateInferenceFactor, proposition: &Proposition) -> (r: bool)
    ensures
        r == spec_matches(implication@, proposition@),
{
    let ghost fv = implication@;
    let ghost cv = proposition@;
    if !str_eq(implication.conclusion.function.as_str(), proposition.predicate.function.as_str()) {
        return false;
    }
    if implication.conclusion.roles.len() != proposition.predicate.roles.len() {
        return false;
    }
    let mut j: usize = 0;
    while j < implication.conclusion.roles.len()
        invariant
            j <= implication.conclusion.roles@.len(),
            fv == implication@,
            cv == proposition@,
            fv.conclusion.roles.len() == implication.conclusion.roles@.len(),
            forall|k: int| 0 <= k < j ==> lookup_arg(cv.roles, fv.conclusion.roles[k].role) is Some,
        decreases implication.conclusion.roles@.len() - j,
    {
        proof {
            assert(fv.conclusion.roles[j as int] == implication.conclusion.roles@[j as int]@);
        }
        match lookup_arg_exec(
            &proposition.predicate.roles,
            implication.conclusion.roles[j].role_name.as_str(),
        ) {
            Some(_) => {},
            None => {
                return false;
            },
        }
        j += 1;
    }
    true
}

/// The store of quantified implications the engine expands against.
#[derive(Debug)]
pub struct PredicateGraph {
    pub implications: Vec<PredicateInferenceFactor>,
}

impl View for PredicateGraph {
    type V = Seq<FactorTemplateView>;

    open spec fn view(&self) -> Seq<FactorTemplateView> {
        self.implications@.map_values(|f: PredicateInferenceFactor| f@)
    }
}

impl PredicateGraph {
    /// An empty store.
    pub fn new() -> (r: PredicateGraph)
        ensures
            r@ == Seq::<FactorTemplateView>::empty(),
    {
        let r = PredicateGraph { implications: Vec::new() };
        proof {
            assert(r@ =~= Seq::<FactorTemplateView>::empty());
        }
        r
    }

    /// Adds one implication at the end of the store.
    pub fn add_implication(&mut self, implication: PredicateInferenceFactor)
        ensures
            final(self)@ == old(self)@.push(implication@),
    {
        self.implications.push(implication);
        proof {
            assert(self@ =~= old(self)@.push(implication@));
        }
    }

    /// Every implication of the store, in order.
    pub fn all_implications(&self) -> (r: &Vec<PredicateInferenceFactor>)
        ensures
            r@.map_values(|f: PredicateInferenceFactor| f@) == self@,
    {
        &self.implications
    }

    /// Every ground factor the store yields for a proposition, in store
    /// order; fails exactly where a matching implication will not ground.
    pub fn backward_factors(&self, proposition: &Proposition) -> (res: Result<
        Vec<PropositionInferenceFactor>,
        BeliefError,
    >)
        ensures
            res matches Ok(v) ==> spec_backward_factors(self@, proposition@) == Ok::<
                Seq<GroundFactorView>,
                BeliefError,
            >(v@.map_values(|g: PropositionInferenceFactor| g@)),
            res matches Err(e) ==> spec_backward_factors(self@, proposition@) == Err::<
                Seq<GroundFactorView>,
                BeliefError,
            >(e),
    {
        let ghost sv = self@;
        let ghost cv = proposition@;
        let mut out: Vec<PropositionInferenceFactor> = Vec::new();
        let mut i: usize = 0;
        proof {
            assert(sv.skip(0) =~= sv);
            assert(out@.map_values(|g: PropositionInferenceFactor| g@) =~= Seq::<
                GroundFactorView,
            >::empty());
        }
        while i < self.implications.len()
            invariant
                i <= self.implications@.len(),
                sv == self@,
                cv == proposition@,
                sv.len() == self.implications@.len(),
                spec_backward_factors(sv.skip(i as int), cv) is Ok ==> spec_backward_factors(
                    sv,
                    cv,
                ) == Ok::<Seq<GroundFactorView>, BeliefError>(
                    out@.map_values(|g: PropositionInferenceFactor| g@) + spec_backward_factors(
                        sv.skip(i as int),
                        cv,
                    )->Ok_0,
                ),
                spec_backward_factors(sv.skip(i as int), cv) is Err ==> spec_backward_factors(
                    sv,
                    cv,
                ) == spec_backward_factors(sv.skip(i as int), cv),
            decreases self.implications@.len() - i,
        {
            let ghost ov = out@.map_values(|g: PropositionInferenceFactor| g@);
            proof {
                assert(sv.skip(i as int)[0] == sv[i as int]);
                assert(sv.skip(i as int).drop_first() =~= sv.skip(i as int + 1));
                assert(sv[i as int] == self.implications@[i as int]@);
            }
            if matches_exec(&self.implications[i], proposition) {
                match proposition_implication_from(&self.implications[i], proposition) {
                    Ok(g) => {
                        let ghost gv = g@;
                        out.push(g);
                        proof {
                            assert(out@.map_values(|g2: PropositionInferenceFactor| g2@) =~= ov
                                + seq![gv]);
                            if spec_backward_factors(sv.skip(i as int + 1), cv) is Ok {
                                let t = spec_backward_factors(sv.skip(i as int + 1), cv)->Ok_0;
                                assert(spec_backward_factors(sv.skip(i as int), cv) == Ok::<
                                    Seq<GroundFactorView>,
                                    BeliefError,
                                >(seq![gv] + t));
                                assert(ov + (seq![gv] + t) =~= (ov + seq![gv]) + t);
                            }
                        }
                    },
                    Err(e) => {
                        proof {
                            assert(spec_backward_factors(sv.skip(i as int), cv) == Err::<
                                Seq<GroundFactorView>,
                                BeliefError,
                            >(e));
                        }
                        return Err(e);
                    },
                }
            }
            i += 1;
        }
        proof {
            assert(sv.skip(sv.len() as int).len() == 0);
            assert(spec_backward_factors(sv.skip(sv.len() as int), cv) == Ok::<
                Seq<GroundFactorView>,
                BeliefError,
            >(Seq::empty()));
            assert(out@.map_values(|g: PropositionInferenceFactor| g@) + Seq::<
                GroundFactorView,
            >::empty() =~= out@.map_values(|g: PropositionInferenceFactor| g@));
        }
        Ok(out)
    }
}

} // verus!
