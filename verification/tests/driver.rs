//! Failure modes and the interactive session core.

use bayes_star::errors::BeliefError;
use bayes_star::factors::PredicateGraph;
use bayes_star::graph::PropositionGraph;
use bayes_star::graph::existence_function;
use bayes_star::inference::{Inferencer, MarginalOutcome};
use bayes_star::model::TableFactorModel;
use bayes_star::objects::{
    Argument, ConstantArgument, Domain, GroupRoleMap, LabeledArgument, Predicate, PredicateGroup,
    PredicateInferenceFactor, Proposition, RoleMap, VariableArgument,
};
use bayes_star::rational::Rational;
use bayes_star::repl::ReplState;

fn constant(role: &str, entity: &str) -> LabeledArgument {
    LabeledArgument::new(
        role.to_string(),
        Argument::Constant(ConstantArgument::new(Domain::Jack, entity.to_string())),
    )
}

fn variable(role: &str) -> LabeledArgument {
    LabeledArgument::new(role.to_string(), Argument::Variable(VariableArgument::new(Domain::Jack)))
}

fn ground(function: &str, roles: Vec<LabeledArgument>) -> Proposition {
    Proposition::from(Predicate::new(function.to_string(), roles)).unwrap()
}

fn chain_store() -> PredicateGraph {
    let mut store = PredicateGraph::new();
    store.add_implication(PredicateInferenceFactor {
        premise: PredicateGroup::new(vec![Predicate::new(
            existence_function(),
            vec![variable("x")],
        )]),
        role_maps: GroupRoleMap::new(vec![RoleMap::new(vec![(
            "x".to_string(),
            "x".to_string(),
        )])]),
        conclusion: Predicate::new("t".to_string(), vec![variable("x")]),
    });
    store
}

fn chain_model() -> TableFactorModel {
    TableFactorModel {
        rows: vec![
            (vec![Rational::new(1, 1)], Rational::new(7, 10)),
            (vec![Rational::new(0, 1)], Rational::new(0, 1)),
        ],
        fallback: Rational::zero(),
    }
}

#[test]
fn unresolvable_target_is_rejected() {
    // nothing concludes `t`, and it is not an existence fact
    let store = PredicateGraph::new();
    let target = ground("t", vec![constant("x", "a")]);
    match PropositionGraph::new_shared(&store, &target) {
        Err(BeliefError::UnresolvableProposition) => {}
        other => panic!("expected the unresolvable error, got {:?}", other),
    }
}

#[test]
fn evidence_needs_a_known_proposition() {
    let store = chain_store();
    let target = ground("t", vec![constant("x", "a")]);
    let graph = PropositionGraph::new_shared(&store, &target).unwrap();
    let mut inferencer = Inferencer::new_mutable(chain_model(), graph).unwrap();
    let stranger = ground("t", vec![constant("x", "b")]);
    match inferencer.store_proposition_probability(&stranger, Rational::new(1, 2)) {
        Err(BeliefError::MissingBelief) => {}
        other => panic!("expected the missing-belief error, got {:?}", other),
    }
    assert!(inferencer.get_proposition_probability(&stranger).is_none());
    inferencer.store_proposition_probability(&target, Rational::new(1, 2)).unwrap();
    let recorded = inferencer.get_proposition_probability(&target).unwrap();
    assert!(recorded.eq_value(Rational::new(1, 2)));
}

#[test]
fn session_pins_evidence_by_order_index() {
    let store = chain_store();
    let target = ground("t", vec![constant("x", "a")]);
    let graph = PropositionGraph::new_shared(&store, &target).unwrap();
    let mut inferencer = Inferencer::new_mutable(chain_model(), graph).unwrap();
    inferencer.initialize().unwrap();
    let mut session = ReplState::new(inferencer);

    let lines = session.print_ordering();
    assert_eq!(lines.len(), session.inferencer.proposition_graph.nodes.len());
    // the target sits at the end of the propagation order
    let target_index = lines.len() - 1;
    assert_eq!(lines[target_index], "t[x=a]");

    session.handle_set(target_index, Rational::new(1, 1)).unwrap();
    let node = session.inferencer.get_bfs_order()[target_index];
    match session.inferencer.get_marginal(node).unwrap() {
        MarginalOutcome::Known(_, p1) => assert!(p1.eq_value(Rational::one())),
        other => panic!("expected a known marginal, got {:?}", other),
    }

    // an order index that names a Group is refused
    let group_index = (0..lines.len())
        .find(|i| {
            let node = session.inferencer.get_bfs_order()[*i];
            session.inferencer.proposition_graph.nodes[node].is_group()
        })
        .unwrap();
    match session.handle_set(group_index, Rational::new(1, 2)) {
        Err(BeliefError::MissingBelief) => {}
        other => panic!("expected the missing-belief error, got {:?}", other),
    }
}

#[test]
fn negative_evidence_propagates_backward() {
    // a deterministic implication chain: pinning the conclusion false
    // flows back up as diagnostic support against the existence root
    let store = chain_store();
    let target = ground("t", vec![constant("x", "a")]);
    let root = ground(&existence_function(), vec![constant("x", "a")]);
    let model = TableFactorModel {
        rows: vec![
            (vec![Rational::new(1, 1)], Rational::new(1, 1)),
            (vec![Rational::new(0, 1)], Rational::new(0, 1)),
        ],
        fallback: Rational::zero(),
    };
    let graph = PropositionGraph::new_shared(&store, &target).unwrap();
    let mut inferencer = Inferencer::new_mutable(model, graph).unwrap();
    inferencer.store_proposition_probability(&target, Rational::new(0, 1)).unwrap();
    inferencer.initialize().unwrap();
    // the root's lambda table carries the pushed-back refutation: its
    // diagnostic support for true has been driven to zero
    let root_id = (0..inferencer.proposition_graph.nodes.len())
        .find(|i| {
            inferencer.proposition_graph.nodes[*i].is_single()
                && inferencer.proposition_graph.nodes[*i].extract_single().eq_prop(&root)
        })
        .unwrap();
    let lam_true = inferencer.data.lambda[root_id].1.unwrap();
    assert!(lam_true.eq_value(Rational::zero()));
    assert!(matches!(
        inferencer.get_marginal(root_id).unwrap(),
        MarginalOutcome::Degenerate
    ));
}
