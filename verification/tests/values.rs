//! The value model, rationals, parsing and the lookup model.

use bayes_star::errors::BeliefError;
use bayes_star::factors::PredicateGraph;
use bayes_star::interface::{FactorContext, FactorModel};
use bayes_star::model::TableFactorModel;
use bayes_star::objects::{
    Argument, ConstantArgument, Domain, GroupRoleMap, LabeledArgument, Predicate, PredicateGroup,
    PredicateInferenceFactor, Proposition, PropositionGroup, RoleMap, VariableArgument,
};
use bayes_star::rational::Rational;
use bayes_star::repl::parse_u64;

fn constant(role: &str, entity: &str) -> LabeledArgument {
    LabeledArgument::new(
        role.to_string(),
        Argument::Constant(ConstantArgument::new(Domain::Jack, entity.to_string())),
    )
}

fn variable(role: &str) -> LabeledArgument {
    LabeledArgument::new(role.to_string(), Argument::Variable(VariableArgument::new(Domain::Jack)))
}

#[test]
fn rational_arithmetic_is_exact() {
    let a = Rational::new(1, 2);
    let b = Rational::new(1, 3);
    let sum = a.add(b).unwrap();
    assert!(sum.eq_value(Rational::new(5, 6)));
    let product = a.mul(b).unwrap();
    assert!(product.eq_value(Rational::new(1, 6)));
    let quotient = a.div(b).unwrap();
    assert!(quotient.eq_value(Rational::new(3, 2)));
    let complement = a.complement();
    assert!(complement.eq_value(Rational::new(1, 2)));
    assert!(Rational::new(2, 4).eq_value(Rational::new(1, 2)));
    assert!(Rational::new(1, 3).le_value(Rational::new(1, 2)));
    assert!(!Rational::new(1, 2).le_value(Rational::new(1, 3)));
}

#[test]
fn rational_overflow_is_reported() {
    let big = Rational::new(u64::MAX, 1);
    assert!(big.mul(Rational::new(2, 1)).is_none());
    assert!(big.add(Rational::new(1, 1)).is_none());
}

#[test]
fn domain_names_round_trip() {
    assert_eq!(Domain::from_str("Jack"), Some(Domain::Jack));
    assert_eq!(Domain::from_str("Jill"), Some(Domain::Jill));
    assert_eq!(Domain::from_str("Verb"), Some(Domain::Verb));
    assert_eq!(Domain::from_str("nobody"), None);
    assert_eq!(Domain::Jack.label(), "Jack");
}

#[test]
fn hash_strings_render_and_sort() {
    let p = Predicate::new("likes".to_string(), vec![constant("a", "jack"), constant("b", "jill")]);
    assert_eq!(p.hash_string(), "likes[a=jack,b=jill]");
    let q = Predicate::new("x".to_string(), vec![variable("r")]);
    assert_eq!(q.hash_string(), "x[r=?Jack]");
    // group members are sorted, so term order does not change the hash
    let g1 = PredicateGroup::new(vec![p.clone(), q.clone()]);
    let g2 = PredicateGroup::new(vec![q.clone(), p.clone()]);
    assert_eq!(g1.hash_string(), g2.hash_string());
    assert_eq!(g1.hash_string(), "likes[a=jack,b=jill];x[r=?Jack]");
}

#[test]
fn propositions_must_be_ground() {
    let fact = Predicate::new("t".to_string(), vec![constant("x", "a")]);
    assert!(Proposition::from(fact).is_ok());
    let open_pred = Predicate::new("t".to_string(), vec![variable("x")]);
    match Proposition::from(open_pred) {
        Err(BeliefError::NotGround) => {}
        other => panic!("expected the not-ground error, got {:?}", other),
    }
}

#[test]
fn proposition_groups_compare_as_multisets() {
    let a = Proposition::from(Predicate::new("t".to_string(), vec![constant("x", "a")])).unwrap();
    let b = Proposition::from(Predicate::new("t".to_string(), vec![constant("x", "b")])).unwrap();
    let g1 = PropositionGroup::new(vec![a.clone(), b.clone()]);
    let g2 = PropositionGroup::new(vec![b.clone(), a.clone()]);
    let g3 = PropositionGroup::new(vec![a.clone(), a.clone()]);
    assert!(g1.eq_group(&g2));
    assert!(!g1.eq_group(&g3));
}

#[test]
fn role_maps_bind_and_render() {
    let m = RoleMap::new(vec![
        ("from".to_string(), "x".to_string()),
        ("to".to_string(), "y".to_string()),
    ]);
    assert_eq!(m.get("from"), Some("x".to_string()));
    assert_eq!(m.get("missing"), None);
    assert_eq!(m.render(), "{from: x, to: y}");
    let imp = PredicateInferenceFactor {
        premise: PredicateGroup::new(vec![Predicate::new(
            "p".to_string(),
            vec![variable("from")],
        )]),
        role_maps: GroupRoleMap::new(vec![RoleMap::new(vec![(
            "from".to_string(),
            "x".to_string(),
        )])]),
        conclusion: Predicate::new("q".to_string(), vec![variable("x")]),
    };
    assert_eq!(imp.unique_key(), "p[from=?Jack]->q[x=?Jack][{from: x}]");
    assert_eq!(imp.feature_string(), "p[from=?Jack][{from: x}]");
    assert_eq!(imp.mapping_string(), "[{from: x}]");
}

#[test]
fn backward_factors_substitute_constants() {
    let mut store = PredicateGraph::new();
    store.add_implication(PredicateInferenceFactor {
        premise: PredicateGroup::new(vec![Predicate::new(
            "p".to_string(),
            vec![variable("a")],
        )]),
        role_maps: GroupRoleMap::new(vec![RoleMap::new(vec![(
            "a".to_string(),
            "x".to_string(),
        )])]),
        conclusion: Predicate::new("q".to_string(), vec![variable("x")]),
    });
    let prop =
        Proposition::from(Predicate::new("q".to_string(), vec![constant("x", "jack")])).unwrap();
    let factors = store.backward_factors(&prop).unwrap();
    assert_eq!(factors.len(), 1);
    assert_eq!(factors[0].premise.hash_string(), "p[a=jack]");
    assert!(factors[0].conclusion.eq_prop(&prop));
    // an unrelated proposition matches nothing
    let other =
        Proposition::from(Predicate::new("r".to_string(), vec![constant("x", "jack")])).unwrap();
    assert_eq!(store.backward_factors(&other).unwrap().len(), 0);
}

#[test]
fn backward_factors_report_uncovered_roles() {
    let mut store = PredicateGraph::new();
    store.add_implication(PredicateInferenceFactor {
        premise: PredicateGroup::new(vec![Predicate::new(
            "p".to_string(),
            vec![variable("a")],
        )]),
        role_maps: GroupRoleMap::new(vec![RoleMap::new(vec![])]),
        conclusion: Predicate::new("q".to_string(), vec![variable("x")]),
    });
    let prop =
        Proposition::from(Predicate::new("q".to_string(), vec![constant("x", "jack")])).unwrap();
    match store.backward_factors(&prop) {
        Err(BeliefError::InconsistentRoleMap) => {}
        other => panic!("expected the inconsistent-role-map error, got {:?}", other),
    }
}

#[test]
fn lookup_model_matches_by_value() {
    let model = TableFactorModel {
        rows: vec![
            (vec![Rational::new(1, 1)], Rational::new(7, 10)),
            (vec![Rational::new(0, 1)], Rational::new(1, 10)),
        ],
        fallback: Rational::new(1, 3),
    };
    let hit = FactorContext { factor: vec![], probabilities: vec![Rational::new(2, 2)] };
    assert!(model.predict(&hit).unwrap().marginal.eq_value(Rational::new(7, 10)));
    let miss = FactorContext { factor: vec![], probabilities: vec![Rational::new(1, 2)] };
    assert!(model.predict(&miss).unwrap().marginal.eq_value(Rational::new(1, 3)));
}

#[test]
fn decimal_tokens_parse() {
    assert_eq!(parse_u64("0"), Some(0));
    assert_eq!(parse_u64("42"), Some(42));
    assert_eq!(parse_u64("18446744073709551615"), Some(u64::MAX));
    assert_eq!(parse_u64("18446744073709551616"), None);
    assert_eq!(parse_u64(""), None);
    assert_eq!(parse_u64("4a2"), None);
}
