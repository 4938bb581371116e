//! The predicate and proposition value model.
//!
//! Predicates bind arguments by role name; a proposition is a fully ground
//! predicate.  Groups of predicates or propositions form the conjunctive
//! premise of an implication.  Every type has a view built from character
//! sequences, and a rendered hash string whose contract pins it to a
//! spec-level rendering of that view.

use vstd::prelude::*;

use crate::errors::BeliefError;
use crate::text::{join_strings, join_with, sort_seqs, sort_strings, str_eq, views_of};

verus! {

/// The two argument kinds.
#[derive(Clone, Copy, Debug, PartialEq, Eq, Structural)]
pub enum ArgumentType {
    Constant,
    Variable,
}

/// The closed enumeration of entity domains.
#[derive(Clone, Copy, Debug, PartialEq, Eq, Structural)]
pub enum Domain {
    Jack,
    Jill,
    Verb,
}

/// The rendered name of a domain.
pub open spec fn domain_chars(d: Domain) -> Seq<char> {
    match d {
        Domain::Jack => "Jack"@,
        Domain::Jill => "Jill"@,
        Domain::Verb => "Verb"@,
    }
}

/// Which domain a name denotes.
pub open spec fn spec_domain_from(s: Seq<char>) -> Option<Domain> {
    if s == "Jack"@ {
        Some(Domain::Jack)
    } else if s == "Jill"@ {
        Some(Domain::Jill)
    } else if s == "Verb"@ {
        Some(Domain::Verb)
    } else {
        None
    }
}

impl Domain {
    /// Parses a domain from its rendered name.
    pub fn from_str(s: &str) -> (r: Option<Domain>)
        ensures
            r == spec_domain_from(s@),
    {
        if str_eq(s, "Jack") {
            Some(Domain::Jack)
        } else if str_eq(s, "Jill") {
            Some(Domain::Jill)
        } else if str_eq(s, "Verb") {
            Some(Domain::Verb)
        } else {
            None
        }
    }

    /// The rendered name of this domain.
    pub fn label(&self) -> (r: String)
        ensures
            r@ == domain_chars(*self),
    {
        match self {
            Domain::Jack => String::from_str("Jack"),
            Domain::Jill => String::from_str("Jill"),
            Domain::Verb => String::from_str("Verb"),
        }
    }
}

/// View of an argument: a constant entity or a quantified variable.
pub enum ArgumentView {
    Constant(Domain, Seq<char>),
    Variable(Domain),
}

/// A constant argument: an entity of a domain.
#[derive(Debug, PartialEq, Eq)]
pub struct ConstantArgument {
    pub domain: Domain,
    pub entity_id: String,
}

impl View for ConstantArgument {
    type V = ArgumentView;

    open spec fn view(&self) -> ArgumentView {
        ArgumentView::Constant(self.domain, self.entity_id@)
    }
}

impl Clone for ConstantArgument {
    /// An exact copy.
    fn clone(&self) -> (r: Self)
        ensures
            r@ == self@,
    {
        ConstantArgument { domain: self.domain, entity_id: self.entity_id.clone() }
    }
}

impl ConstantArgument {
    /// Builds a constant argument.
    pub fn new(domain: Domain, entity_id: String) -> (r: ConstantArgument)
        ensures
            r@ == ArgumentView::Constant(domain, entity_id@),
    {
        ConstantArgument { domain, entity_id }
    }

    /// The hash rendering: the entity identifier itself.
    pub fn hash_string(&self) -> (r: String)
        ensures
            r@ == self.entity_id@,
    {
        self.entity_id.clone()
    }
}

/// A variable argument: a quantified slot of a domain.
#[derive(Clone, Copy, Debug, PartialEq, Eq)]
pub struct VariableArgument {
    pub domain: Domain,
}

impl View for VariableArgument {
    type V = ArgumentView;

    open spec fn view(&self) -> ArgumentView {
        ArgumentView::Variable(self.domain)
    }
}

impl VariableArgument {
    /// Builds a variable argument.
    pub fn new(domain: Domain) -> (r: VariableArgument)
        ensures
            r@ == ArgumentView::Variable(domain),
    {
        VariableArgument { domain }
    }

    /// The hash rendering: a question mark before the domain name.
    pub fn hash_string(&self) -> (r: String)
        ensures
            r@ == "?"@ + domain_chars(self.domain),
    {
        let mut r = String::from_str("?");
        r.append(self.domain.label().as_str());
        r
    }
}

/// An argument: constant or variable.
#[derive(Debug, PartialEq, Eq)]
pub enum Argument {
    Constant(ConstantArgument),
    Variable(VariableArgument),
}

impl View for Argument {
    type V = ArgumentView;

    open spec fn view(&self) -> ArgumentView {
        match self {
            Argument::Constant(a) => a@,
            Argument::Variable(a) => a@,
        }
    }
}

/// The hash rendering of an argument view.
pub open spec fn arg_chars(a: ArgumentView) -> Seq<char> {
    match a {
        ArgumentView::Constant(_, id) => id,
        ArgumentView::Variable(d) => "?"@ + domain_chars(d),
    }
}

impl Clone for Argument {
    /// An exact copy.
    fn clone(&self) -> (r: Self)
        ensures
            r@ == self@,
    {
        match self {
            Argument::Constant(a) => Argument::Constant(a.clone()),
            Argument::Variable(a) => Argument::Variable(VariableArgument { domain: a.domain }),
        }
    }
}

impl Argument {
    /// The hash rendering of this argument.
    pub fn hash_string(&self) -> (r: String)
        ensures
            r@ == arg_chars(self@),
    {
        match self {
            Argument::Constant(a) => a.hash_string(),
            Argument::Variable(a) => a.hash_string(),
        }
    }

    /// Replaces a constant by a variable of the same domain.
    pub fn convert_to_quantified(&self) -> (r: Argument)
        ensures
            r@ == ArgumentView::Variable(self.spec_domain()),
    {
        match self {
            Argument::Constant(a) => Argument::Variable(VariableArgument::new(a.domain)),
            Argument::Variable(a) => Argument::Variable(VariableArgument::new(a.domain)),
        }
    }

    /// The domain of the argument, whichever kind it is.
    pub open spec fn spec_domain(&self) -> Domain {
        match self@ {
            ArgumentView::Constant(d, _) => d,
            ArgumentView::Variable(d) => d,
        }
    }

    /// Whether the argument is a constant.
    pub fn is_constant(&self) -> (r: bool)
        ensures
            r == (self@ is Constant),
    {
        match self {
            Argument::Constant(_) => true,
            Argument::Variable(_) => false,
        }
    }

    /// Whether the argument is a variable.
    pub fn is_variable(&self) -> (r: bool)
        ensures
            r == (self@ is Variable),
    {
        !self.is_constant()
    }

    /// Structural equality of two arguments.
    pub fn eq_arg(&self, other: &Argument) -> (r: bool)
        ensures
            r == (self@ == other@),
    {
        match (self, other) {
            (Argument::Constant(a), Argument::Constant(b)) => {
                a.domain == b.domain && str_eq(a.entity_id.as_str(), b.entity_id.as_str())
            },
            (Argument::Variable(a), Argument::Variable(b)) => a.domain == b.domain,
            _ => {
                proof {
                    assert(self@ != other@);
                }
                false
            },
        }
    }
}

/// View of a role-labeled argument.
pub struct LabeledArgumentView {
    pub role: Seq<char>,
    pub arg: ArgumentView,
}

/// An argument bound to a role name.
#[derive(Debug, PartialEq, Eq)]
pub struct LabeledArgument {
    pub role_name: String,
    pub argument: Argument,
}

impl View for LabeledArgument {
    type V = LabeledArgumentView;

    open spec fn view(&self) -> LabeledArgumentView {
        LabeledArgumentView { role: self.role_name@, arg: self.argument@ }
    }
}

/// The hash rendering of a labeled argument view.
pub open spec fn larg_chars(l: LabeledArgumentView) -> Seq<char> {
    l.role + "="@ + arg_chars(l.arg)
}

impl Clone for LabeledArgument {
    /// An exact copy.
    fn clone(&self) -> (r: Self)
        ensures
            r@ == self@,
    {
        LabeledArgument { role_name: self.role_name.clone(), argument: self.argument.clone() }
    }
}

impl LabeledArgument {
    /// Builds a labeled argument.
    pub fn new(role_name: String, argument: Argument) -> (r: LabeledArgument)
        ensures
            r@ == (LabeledArgumentView { role: role_name@, arg: argument@ }),
    {
        LabeledArgument { role_name, argument }
    }

    /// The hash rendering `role=argument`.
    pub fn hash_string(&self) -> (r: String)
        ensures
            r@ == larg_chars(self@),
    {
        let mut r = self.role_name.clone();
        r.append("=");
        r.append(self.argument.hash_string().as_str());
        r
    }

    /// The same role bound to a variable of the argument's domain.
    pub fn convert_to_quantified(&self) -> (r: LabeledArgument)
        ensures
            r@.role == self@.role,
            r@.arg == ArgumentView::Variable(self.argument.spec_domain()),
    {
        LabeledArgument::new(self.role_name.clone(), self.argument.convert_to_quantified())
    }

    /// The same role bound to another argument.
    pub fn do_substitution(&self, value: Argument) -> (r: LabeledArgument)
        ensures
            r@.role == self@.role,
            r@.arg == value@,
    {
        LabeledArgument::new(self.role_name.clone(), value)
    }

    /// Structural equality of two labeled arguments.
    pub fn eq_larg(&self, other: &LabeledArgument) -> (r: bool)
        ensures
            r == (self@ == other@),
    {
        str_eq(self.role_name.as_str(), other.role_name.as_str()) && self.argument.eq_arg(
            &other.argument,
        )
    }
}

/// View of a predicate.
pub struct PredicateView {
    pub function: Seq<char>,
    pub roles: Seq<LabeledArgumentView>,
}

/// A function name applied to role-labeled arguments.
#[derive(Debug, PartialEq, Eq)]
pub struct Predicate {
    pub function: String,
    pub roles: Vec<LabeledArgument>,
}

impl View for Predicate {
    type V = PredicateView;

    open spec fn view(&self) -> PredicateView {
        PredicateView { function: self.function@, roles: self.roles@.map_values(|l: LabeledArgument| l@) }
    }
}

/// The hash rendering of a predicate view.
pub open spec fn pred_chars(p: PredicateView) -> Seq<char> {
    p.function + "["@ + join_with(p.roles.map_values(|l| larg_chars(l)), ","@) + "]"@
}

/// Whether every role of a predicate view is bound to a constant.
pub open spec fn spec_is_fact(p: PredicateView) -> bool {
    forall|i: int| 0 <= i < p.roles.len() ==> p.roles[i].arg is Constant
}

impl Clone for Predicate {
    /// An exact copy.
    fn clone(&self) -> (r: Self)
        ensures
            r@ == self@,
    {
        let ghost goal = self@;
        let mut roles: Vec<LabeledArgument> = Vec::new();
        let mut i: usize = 0;
        while i < self.roles.len()
            invariant
                i <= self.roles@.len(),
                goal == self@,
                goal.roles.len() == self.roles@.len(),
                roles@.len() == i,
                forall|j: int| 0 <= j < i ==> roles@[j]@ == goal.roles[j],
            decreases self.roles@.len() - i,
        {
            roles.push(self.roles[i].clone());
            i += 1;
        }
        let r = Predicate { function: self.function.clone(), roles };
        proof {
            assert(r@.roles =~= goal.roles);
            assert(r@ == goal);
        }
        r
    }
}

impl Predicate {
    /// Builds a predicate.
    pub fn new(function: String, roles: Vec<LabeledArgument>) -> (r: Predicate)
        ensures
            r@.function == function@,
            r@.roles == roles@.map_values(|l: LabeledArgument| l@),
    {
        Predicate { function, roles }
    }

    /// The hash rendering `function[role=arg,...]`.
    pub fn hash_string(&self) -> (r: String)
        ensures
            r@ == pred_chars(self@),
    {
        let ghost goal = self.roles@.map_values(|l: LabeledArgument| l@).map_values(
            |l| larg_chars(l),
        );
        let mut parts: Vec<String> = Vec::new();
        let mut i: usize = 0;
        while i < self.roles.len()
            invariant
                i <= self.roles@.len(),
                goal == self.roles@.map_values(|l: LabeledArgument| l@).map_values(
                    |l| larg_chars(l),
                ),
                goal.len() == self.roles@.len(),
                parts@.len() == i,
                forall|j: int| 0 <= j < i ==> parts@[j]@ == goal[j],
            decreases self.roles@.len() - i,
        {
            parts.push(self.roles[i].hash_string());
            i += 1;
        }
        proof {
            assert(views_of(parts@) =~= goal);
        }
        let joined = join_strings(&parts, ",");
        let mut r = self.function.clone();
        r.append("[");
        r.append(joined.as_str());
        r.append("]");
        r
    }

    /// The role names, in binding order.
    pub fn role_names(&self) -> (r: Vec<String>)
        ensures
            views_of(r@) == self@.roles.map_values(|l: LabeledArgumentView| l.role),
    {
        let ghost goal = self@.roles.map_values(|l: LabeledArgumentView| l.role);
        let mut r: Vec<String> = Vec::new();
        let mut i: usize = 0;
        while i < self.roles.len()
            invariant
                i <= self.roles@.len(),
                goal == self@.roles.map_values(|l: LabeledArgumentView| l.role),
                goal.len() == self.roles@.len(),
                r@.len() == i,
                forall|j: int| 0 <= j < i ==> r@[j]@ == goal[j],
            decreases self.roles@.len() - i,
        {
            r.push(self.roles[i].role_name.clone());
            i += 1;
        }
        proof {
            assert(views_of(r@) =~= goal);
        }
        r
    }

    /// Whether the predicate is fully ground.
    pub fn is_fact(&self) -> (r: bool)
        ensures
            r == spec_is_fact(self@),
    {
        let mut i: usize = 0;
        while i < self.roles.len()
            invariant
                i <= self.roles@.len(),
                self@.roles.len() == self.roles@.len(),
                forall|j: int| 0 <= j < i ==> self@.roles[j].arg is Constant,
            decreases self.roles@.len() - i,
        {
            if !self.roles[i].argument.is_constant() {
                proof {
                    assert(!(self@.roles[i as int].arg is Constant));
                }
                return false;
            }
            i += 1;
        }
        true
    }

    /// Structural equality of two predicates.
    pub fn eq_pred(&self, other: &Predicate) -> (r: bool)
        ensures
            r == (self@ == other@),
    {
        if !str_eq(self.function.as_str(), other.function.as_str()) {
            proof {
                assert(self@ != other@);
            }
            return false;
        }
        if self.roles.len() != other.roles.len() {
            proof {
                assert(self@.roles.len() != other@.roles.len());
            }
            return false;
        }
        let mut i: usize = 0;
        while i < self.roles.len()
            invariant
                i <= self.roles@.len(),
                self.roles@.len() == other.roles@.len(),
                self@.roles.len() == self.roles@.len(),
                other@.roles.len() == other.roles@.len(),
                forall|j: int| 0 <= j < i ==> self@.roles[j] == other@.roles[j],
            decreases self.roles@.len() - i,
        {
            if !self.roles[i].eq_larg(&other.roles[i]) {
                proof {
                    assert(self@.roles[i as int] != other@.roles[i as int]);
                }
                return false;
            }
            i += 1;
        }
        proof {
            assert(self@.roles =~= other@.roles);
        }
        true
    }
}

/// A proposition: a fully ground predicate.
#[derive(Debug, PartialEq, Eq)]
pub struct Proposition {
    pub predicate: Predicate,
}

impl View for Proposition {
    type V = PredicateView;

    open spec fn view(&self) -> PredicateView {
        self.predicate@
    }
}

impl Clone for Proposition {
    /// An exact copy.
    fn clone(&self) -> (r: Self)
        ensures
            r@ == self@,
    {
        Proposition { predicate: self.predicate.clone() }
    }
}

impl Proposition {
    /// Lifts a ground predicate into a proposition; a predicate with a
    /// variable argument is rejected as not ground.
    pub fn from(predicate: Predicate) -> (r: Result<Proposition, BeliefError>)
        ensures
            r matches Ok(p) ==> p@ == predicate@ && spec_is_fact(predicate@),
            r matches Err(e) ==> e == BeliefError::NotGround && !spec_is_fact(predicate@),
    {
        if !predicate.is_fact() {
            return Err(BeliefError::NotGround);
        }
        Ok(Proposition { predicate })
    }

    /// The hash rendering of the underlying predicate.
    pub fn hash_string(&self) -> (r: String)
        ensures
            r@ == pred_chars(self@),
    {
        self.predicate.hash_string()
    }

    /// A readable rendering; the hash rendering serves.
    pub fn debug_string(&self) -> (r: String)
        ensures
            r@ == pred_chars(self@),
    {
        self.predicate.hash_string()
    }

    /// Structural equality of two propositions.
    pub fn eq_prop(&self, other: &Proposition) -> (r: bool)
        ensures
            r == (self@ == other@),
    {
        self.predicate.eq_pred(&other.predicate)
    }
}

/// The hash rendering of a group view: member hashes, sorted, joined.
pub open spec fn group_chars(terms: Seq<PredicateView>) -> Seq<char> {
    join_with(sort_seqs(terms.map_values(|p| pred_chars(p))), ";"@)
}

/// A conjunctive group of predicates (a quantified premise).
#[derive(Debug, PartialEq, Eq)]
pub struct PredicateGroup {
    pub terms: Vec<Predicate>,
}

impl View for PredicateGroup {
    type V = Seq<PredicateView>;

    open spec fn view(&self) -> Seq<PredicateView> {
        self.terms@.map_values(|p: Predicate| p@)
    }
}

impl Clone for PredicateGroup {
    /// An exact copy.
    fn clone(&self) -> (r: Self)
        ensures
            r@ == self@,
    {
        let ghost goal = self@;
        let mut terms: Vec<Predicate> = Vec::new();
        let mut i: usize = 0;
        while i < self.terms.len()
            invariant
                i <= self.terms@.len(),
                goal == self@,
                goal.len() == self.terms@.len(),
                terms@.len() == i,
                forall|j: int| 0 <= j < i ==> terms@[j]@ == goal[j],
            decreases self.terms@.len() - i,
        {
            terms.push(self.terms[i].clone());
            i += 1;
        }
        let r = PredicateGroup { terms };
        proof {
            assert(r@ =~= goal);
        }
        r
    }
}

impl PredicateGroup {
    /// Builds a group from its terms.
    pub fn new(terms: Vec<Predicate>) -> (r: PredicateGroup)
        ensures
            r@ == terms@.map_values(|p: Predicate| p@),
    {
        PredicateGroup { terms }
    }

    /// The canonical hash rendering of the group.
    pub fn hash_string(&self) -> (r: String)
        ensures
            r@ == group_chars(self@),
    {
        let ghost goal = self@.map_values(|p| pred_chars(p));
        let mut parts: Vec<String> = Vec::new();
        let mut i: usize = 0;
        while i < self.terms.len()
            invariant
                i <= self.terms@.len(),
                goal == self@.map_values(|p| pred_chars(p)),
                goal.len() == self.terms@.len(),
                parts@.len() == i,
                forall|j: int| 0 <= j < i ==> parts@[j]@ == goal[j],
            decreases self.terms@.len() - i,
        {
            parts.push(self.terms[i].hash_string());
            i += 1;
        }
        proof {
            assert(views_of(parts@) =~= goal);
        }
        let sorted = sort_strings(&parts);
        join_strings(&sorted, ";")
    }

    /// A readable rendering; the hash rendering serves.
    pub fn debug_string(&self) -> (r: String)
        ensures
            r@ == group_chars(self@),
    {
        self.hash_string()
    }
}

/// A conjunctive group of propositions (a ground premise).
#[derive(Debug, PartialEq, Eq)]
pub struct PropositionGroup {
    pub terms: Vec<Proposition>,
}

impl View for PropositionGroup {
    type V = Seq<PredicateView>;

    open spec fn view(&self) -> Seq<PredicateView> {
        self.terms@.map_values(|p: Proposition| p@)
    }
}

/// How often a predicate view occurs in a sequence.
pub open spec fn count_term(s: Seq<PredicateView>, x: PredicateView) -> nat
    decreases s.len(),
{
    if s.len() == 0 {
        0
    } else {
        count_term(s.drop_first(), x) + if s[0] == x {
            1nat
        } else {
            0nat
        }
    }
}

/// Whether two sequences hold the same terms with the same multiplicities;
/// the canonicalized identity of two groups.
pub open spec fn same_terms(a: Seq<PredicateView>, b: Seq<PredicateView>) -> bool {
    forall|x: PredicateView| count_term(a, x) == count_term(b, x)
}

impl Clone for PropositionGroup {
    /// An exact copy.
    fn clone(&self) -> (r: Self)
        ensures
            r@ == self@,
    {
        let ghost goal = self@;
        let mut terms: Vec<Proposition> = Vec::new();
        let mut i: usize = 0;
        while i < self.terms.len()
            invariant
                i <= self.terms@.len(),
                goal == self@,
                goal.len() == self.terms@.len(),
                terms@.len() == i,
                forall|j: int| 0 <= j < i ==> terms@[j]@ == goal[j],
            decreases self.terms@.len() - i,
        {
            terms.push(self.terms[i].clone());
            i += 1;
        }
        let r = PropositionGroup { terms };
        proof {
            assert(r@ =~= goal);
        }
        r
    }
}

impl PropositionGroup {
    /// Builds a group from its terms.
    pub fn new(terms: Vec<Proposition>) -> (r: PropositionGroup)
        ensures
            r@ == terms@.map_values(|p: Proposition| p@),
    {
        PropositionGroup { terms }
    }

    /// The canonical hash rendering of the group.
    pub fn hash_string(&self) -> (r: String)
        ensures
            r@ == group_chars(self@),
    {
        let ghost goal = self@.map_values(|p| pred_chars(p));
        let mut parts: Vec<String> = Vec::new();
        let mut i: usize = 0;
        while i < self.terms.len()
            invariant
                i <= self.terms@.len(),
                goal == self@.map_values(|p| pred_chars(p)),
                goal.len() == self.terms@.len(),
                parts@.len() == i,
                forall|j: int| 0 <= j < i ==> parts@[j]@ == goal[j],
            decreases self.terms@.len() - i,
        {
            parts.push(self.terms[i].hash_string());
            i += 1;
        }
        proof {
            assert(views_of(parts@) =~= goal);
        }
        let sorted = sort_strings(&parts);
        join_strings(&sorted, ";")
    }

    /// A readable rendering; the hash rendering serves.
    pub fn debug_string(&self) -> (r: String)
        ensures
            r@ == group_chars(self@),
    {
        self.hash_string()
    }
}

/// An entity of a domain.
#[derive(Debug, PartialEq, Eq)]
pub struct Entity {
    pub domain: Domain,
    pub name: String,
}


/// First binding of a role name in a role map view.
pub open spec fn lookup_role(m: Seq<(Seq<char>, Seq<char>)>, k: Seq<char>) -> Option<Seq<char>>
    decreases m.len(),
{
    if m.len() == 0 {
        None
    } else if m[0].0 == k {
        Some(m[0].1)
    } else {
        lookup_role(m.drop_first(), k)
    }
}

/// The hash rendering of one role map: sorted `key: value` entries in
/// braces.
pub open spec fn role_map_chars(m: Seq<(Seq<char>, Seq<char>)>) -> Seq<char> {
    "{"@ + join_with(
        sort_seqs(m.map_values(|p: (Seq<char>, Seq<char>)| p.0 + ": "@ + p.1)),
        ", "@,
    ) + "}"@
}

/// The hash rendering of a list of role maps, in brackets.
pub open spec fn mapping_chars(g: Seq<Seq<(Seq<char>, Seq<char>)>>) -> Seq<char> {
    "["@ + join_with(g.map_values(|m| role_map_chars(m)), ", "@) + "]"@
}

/// A mapping from premise role names to conclusion role names.
#[derive(Debug, PartialEq, Eq)]
pub struct RoleMap {
    pub role_map: Vec<(String, String)>,
}

impl View for RoleMap {
    type V = Seq<(Seq<char>, Seq<char>)>;

    open spec fn view(&self) -> Seq<(Seq<char>, Seq<char>)> {
        self.role_map@.map_values(|p: (String, String)| (p.0@, p.1@))
    }
}

impl Clone for RoleMap {
    /// An exact copy.
    fn clone(&self) -> (r: Self)
        ensures
            r@ == self@,
    {
        let ghost goal = self@;
        let mut pairs: Vec<(String, String)> = Vec::new();
        let mut i: usize = 0;
        while i < self.role_map.len()
            invariant
                i <= self.role_map@.len(),
                goal == self@,
                goal.len() == self.role_map@.len(),
                pairs@.len() == i,
                forall|j: int|
                    0 <= j < i ==> (pairs@[j].0@, pairs@[j].1@) == goal[j],
            decreases self.role_map@.len() - i,
        {
            let k = self.role_map[i].0.clone();
            let v = self.role_map[i].1.clone();
            pairs.push((k, v));
            i += 1;
        }
        let r = RoleMap { role_map: pairs };
        proof {
            assert(r@ =~= goal);
        }
        r
    }
}

impl RoleMap {
    /// Builds a role map from its bindings.
    pub fn new(role_map: Vec<(String, String)>) -> (r: RoleMap)
        ensures
            r@ == role_map@.map_values(|p: (String, String)| (p.0@, p.1@)),
    {
        RoleMap { role_map }
    }

    /// The conclusion role bound to a premise role, if any.
    pub fn get(&self, role_name: &str) -> (r: Option<String>)
        ensures
            r matches Some(v) ==> lookup_role(self@, role_name@) == Some(v@),
            r is None ==> lookup_role(self@, role_name@) is None,
    {
        let mut i: usize = 0;
        proof {
            assert(self@.skip(0) =~= self@);
        }
        loop
            invariant
                i <= self.role_map@.len(),
                self@.len() == self.role_map@.len(),
                lookup_role(self@, role_name@) == lookup_role(
                    self@.skip(i as int),
                    role_name@,
                ),
            decreases self.role_map@.len() - i,
        {
            if i == self.role_map.len() {
                proof {
                    assert(self@.skip(i as int).len() == 0);
                }
                return None;
            }
            proof {
                assert(self@.skip(i as int)[0] == self@[i as int]);
                assert(self@.skip(i as int).drop_first() =~= self@.skip(i as int + 1));
            }
            if str_eq(self.role_map[i].0.as_str(), role_name) {
                proof {
                    assert(self@[i as int].0 == role_name@);
                }
                return Some(self.role_map[i].1.clone());
            }
            i += 1;
        }
    }

    /// The hash rendering: sorted `key: value` entries in braces.
    pub fn render(&self) -> (r: String)
        ensures
            r@ == role_map_chars(self@),
    {
        let ghost goal = self@.map_values(|p: (Seq<char>, Seq<char>)| p.0 + ": "@ + p.1);
        let mut parts: Vec<String> = Vec::new();
        let mut i: usize = 0;
        while i < self.role_map.len()
            invariant
                i <= self.role_map@.len(),
                goal == self@.map_values(|p: (Seq<char>, Seq<char>)| p.0 + ": "@ + p.1),
                goal.len() == self.role_map@.len(),
                self@.len() == self.role_map@.len(),
                parts@.len() == i,
                forall|j: int| 0 <= j < i ==> parts@[j]@ == goal[j],
            decreases self.role_map@.len() - i,
        {
            let mut entry = self.role_map[i].0.clone();
            entry.append(": ");
            entry.append(self.role_map[i].1.as_str());
            proof {
                assert(goal[i as int] == self@[i as int].0 + ": "@ + self@[i as int].1);
            }
            parts.push(entry);
            i += 1;
        }
        proof {
            assert(views_of(parts@) =~= goal);
        }
        let sorted = sort_strings(&parts);
        let joined = join_strings(&sorted, ", ");
        let mut r = String::from_str("{");
        r.append(joined.as_str());
        r.append("}");
        r
    }
}

/// One role map per premise term of an implication.
#[derive(Debug, PartialEq, Eq)]
pub struct GroupRoleMap {
    pub role_maps: Vec<RoleMap>,
}

impl View for GroupRoleMap {
    type V = Seq<Seq<(Seq<char>, Seq<char>)>>;

    open spec fn view(&self) -> Seq<Seq<(Seq<char>, Seq<char>)>> {
        self.role_maps@.map_values(|m: RoleMap| m@)
    }
}

impl Clone for GroupRoleMap {
    /// An exact copy.
    fn clone(&self) -> (r: Self)
        ensures
            r@ == self@,
    {
        let ghost goal = self@;
        let mut maps: Vec<RoleMap> = Vec::new();
        let mut i: usize = 0;
        while i < self.role_maps.len()
            invariant
                i <= self.role_maps@.len(),
                goal == self@,
                goal.len() == self.role_maps@.len(),
                maps@.len() == i,
                forall|j: int| 0 <= j < i ==> maps@[j]@ == goal[j],
            decreases self.role_maps@.len() - i,
        {
            maps.push(self.role_maps[i].clone());
            i += 1;
        }
        let r = GroupRoleMap { role_maps: maps };
        proof {
            assert(r@ =~= goal);
        }
        r
    }
}

impl GroupRoleMap {
    /// Builds the list of role maps.
    pub fn new(role_maps: Vec<RoleMap>) -> (r: GroupRoleMap)
        ensures
            r@ == role_maps@.map_values(|m: RoleMap| m@),
    {
        GroupRoleMap { role_maps }
    }

    /// The hash rendering of the whole mapping.
    pub fn render(&self) -> (r: String)
        ensures
            r@ == mapping_chars(self@),
    {
        let ghost goal = self@.map_values(|m| role_map_chars(m));
        let mut parts: Vec<String> = Vec::new();
        let mut i: usize = 0;
        while i < self.role_maps.len()
            invariant
                i <= self.role_maps@.len(),
                goal == self@.map_values(|m| role_map_chars(m)),
                goal.len() == self.role_maps@.len(),
                self@.len() == self.role_maps@.len(),
                parts@.len() == i,
                forall|j: int| 0 <= j < i ==> parts@[j]@ == goal[j],
            decreases self.role_maps@.len() - i,
        {
            parts.push(self.role_maps[i].render());
            i += 1;
        }
        proof {
            assert(views_of(parts@) =~= goal);
        }
        let joined = join_strings(&parts, ", ");
        let mut r = String::from_str("[");
        r.append(joined.as_str());
        r.append("]");
        r
    }
}

/// View of a quantified implication.
pub struct FactorTemplateView {
    pub premise: Seq<PredicateView>,
    pub role_maps: Seq<Seq<(Seq<char>, Seq<char>)>>,
    pub conclusion: PredicateView,
}

/// A quantified implication: a premise group of predicates concluding a
/// predicate, with one role map per premise term.
#[derive(Debug, PartialEq, Eq)]
pub struct PredicateInferenceFactor {
    pub premise: PredicateGroup,
    pub role_maps: GroupRoleMap,
    pub conclusion: Predicate,
}

impl View for PredicateInferenceFactor {
    type V = FactorTemplateView;

    open spec fn view(&self) -> FactorTemplateView {
        FactorTemplateView {
            premise: self.premise@,
            role_maps: self.role_maps@,
            conclusion: self.conclusion@,
        }
    }
}

/// The unique key of an implication.
pub open spec fn factor_key_chars(f: FactorTemplateView) -> Seq<char> {
    group_chars(f.premise) + "->"@ + pred_chars(f.conclusion) + mapping_chars(f.role_maps)
}

/// The feature rendering of an implication.
pub open spec fn factor_feature_chars(f: FactorTemplateView) -> Seq<char> {
    group_chars(f.premise) + mapping_chars(f.role_maps)
}

impl Clone for PredicateInferenceFactor {
    /// An exact copy.
    fn clone(&self) -> (r: Self)
        ensures
            r@ == self@,
    {
        let ghost goal = self@;
        let mut terms: Vec<Predicate> = Vec::new();
        let mut i: usize = 0;
        while i < self.premise.terms.len()
            invariant
                i <= self.premise.terms@.len(),
                goal == self@,
                goal.premise.len() == self.premise.terms@.len(),
                terms@.len() == i,
                forall|j: int| 0 <= j < i ==> terms@[j]@ == goal.premise[j],
            decreases self.premise.terms@.len() - i,
        {
            terms.push(self.premise.terms[i].clone());
            i += 1;
        }
        let premise = PredicateGroup { terms };
        let r = PredicateInferenceFactor {
            premise,
            role_maps: self.role_maps.clone(),
            conclusion: self.conclusion.clone(),
        };
        proof {
            assert(r@.premise =~= goal.premise);
            assert(r@ == goal);
        }
        r
    }
}

impl PredicateInferenceFactor {
    /// The unique key: premise hash, arrow, conclusion hash, mapping.
    pub fn unique_key(&self) -> (r: String)
        ensures
            r@ == factor_key_chars(self@),
    {
        let mut r = self.premise.hash_string();
        r.append("->");
        r.append(self.conclusion.hash_string().as_str());
        r.append(self.role_maps.render().as_str());
        r
    }

    /// The feature rendering: premise hash and mapping.
    pub fn feature_string(&self) -> (r: String)
        ensures
            r@ == factor_feature_chars(self@),
    {
        let mut r = self.premise.hash_string();
        r.append(self.role_maps.render().as_str());
        r
    }

    /// The mapping rendering alone.
    pub fn mapping_string(&self) -> (r: String)
        ensures
            r@ == mapping_chars(self@.role_maps),
    {
        self.role_maps.render()
    }
}


/// One step of `count_term` along a suffix.
proof fn lemma_count_skip_step(s: Seq<PredicateView>, x: PredicateView, i: int)
    requires
        0 <= i < s.len(),
    ensures
        count_term(s.skip(i), x) == count_term(s.skip(i + 1), x) + if s[i] == x {
            1nat
        } else {
            0nat
        },
{
    assert(s.skip(i).drop_first() =~= s.skip(i + 1));
    assert(s.skip(i)[0] == s[i]);
}

/// A term occurs in a sequence exactly when its count is positive.
proof fn lemma_count_positive(s: Seq<PredicateView>, x: PredicateView)
    ensures
        (count_term(s, x) > 0) == (exists|i: int| 0 <= i < s.len() && s[i] == x),
    decreases s.len(),
{
    if s.len() > 0 {
        lemma_count_positive(s.drop_first(), x);
        if s[0] == x {
            assert(s[0] == x && 0 <= 0 < s.len());
        } else {
            if count_term(s, x) > 0 {
                let i = choose|i: int| 0 <= i < s.drop_first().len() && s.drop_first()[i] == x;
                assert(s[i + 1] == x);
            }
            if exists|i: int| 0 <= i < s.len() && s[i] == x {
                let i = choose|i: int| 0 <= i < s.len() && s[i] == x;
                assert(i >= 1);
                assert(s.drop_first()[i - 1] == x);
            }
        }
    }
}

/// Counts the occurrences of a proposition's view among terms.
fn count_props(terms: &Vec<Proposition>, x: &Proposition) -> (c: usize)
    ensures
        c == count_term(terms@.map_values(|p: Proposition| p@), x@),
{
    let ghost sv = terms@.map_values(|p: Proposition| p@);
    let mut c: usize = 0;
    let mut i: usize = terms.len();
    proof {
        assert(sv.skip(terms@.len() as int).len() == 0);
    }
    while i > 0
        invariant
            i <= terms@.len(),
            sv == terms@.map_values(|p: Proposition| p@),
            sv.len() == terms@.len(),
            terms@.len() <= usize::MAX,
            c <= terms@.len() - i,
            c == count_term(sv.skip(i as int), x@),
        decreases i,
    {
        i -= 1;
        proof {
            lemma_count_skip_step(sv, x@, i as int);
            assert(sv[i as int] == terms@[i as int]@);
        }
        if terms[i].eq_prop(x) {
            c += 1;
        }
    }
    proof {
        assert(sv.skip(0) =~= sv);
    }
    c
}

impl PropositionGroup {
    /// Canonicalized identity: the two groups hold the same propositions
    /// with the same multiplicities, in any order.
    pub fn eq_group(&self, other: &PropositionGroup) -> (r: bool)
        ensures
            r == same_terms(self@, other@),
    {
        let ghost av = self@;
        let ghost bv = other@;
        let mut i: usize = 0;
        while i < self.terms.len()
            invariant
                i <= self.terms@.len(),
                av == self@,
                bv == other@,
                av.len() == self.terms@.len(),
                forall|j: int| 0 <= j < i ==> count_term(av, av[j]) == count_term(bv, av[j]),
            decreases self.terms@.len() - i,
        {
            let ca = count_props(&self.terms, &self.terms[i]);
            let cb = count_props(&other.terms, &self.terms[i]);
            if ca != cb {
                proof {
                    assert(av[i as int] == self.terms@[i as int]@);
                    assert(count_term(av, av[i as int]) != count_term(bv, av[i as int]));
                }
                return false;
            }
            proof {
                assert(av[i as int] == self.terms@[i as int]@);
            }
            i += 1;
        }
        let mut i: usize = 0;
        while i < other.terms.len()
            invariant
                i <= other.terms@.len(),
                av == self@,
                bv == other@,
                av.len() == self.terms@.len(),
                bv.len() == other.terms@.len(),
                forall|j: int| 0 <= j < av.len() ==> count_term(av, av[j]) == count_term(
                    bv,
                    av[j],
                ),
                forall|j: int| 0 <= j < i ==> count_term(av, bv[j]) == count_term(bv, bv[j]),
            decreases other.terms@.len() - i,
        {
            let ca = count_props(&self.terms, &other.terms[i]);
            let cb = count_props(&other.terms, &other.terms[i]);
            if ca != cb {
                proof {
                    assert(bv[i as int] == other.terms@[i as int]@);
                    assert(count_term(av, bv[i as int]) != count_term(bv, bv[i as int]));
                }
                return false;
            }
            proof {
                assert(bv[i as int] == other.terms@[i as int]@);
            }
            i += 1;
        }
        proof {
            assert forall|x: PredicateView| count_term(av, x) == count_term(bv, x) by {
                lemma_count_positive(av, x);
                lemma_count_positive(bv, x);
                if count_term(av, x) > 0 {
                    let j = choose|j: int| 0 <= j < av.len() && av[j] == x;
                    assert(count_term(av, av[j]) == count_term(bv, av[j]));
                } else if count_term(bv, x) > 0 {
                    let j = choose|j: int| 0 <= j < bv.len() && bv[j] == x;
                    assert(count_term(av, bv[j]) == count_term(bv, bv[j]));
                }
            }
        }
        true
    }
}

} // verus!
