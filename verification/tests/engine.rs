//! End-to-end inference scenarios.

use bayes_star::factors::PredicateGraph;
use bayes_star::graph::{PropositionGraph, check_order, existence_function};
use bayes_star::inference::{
    Inferencer, InferenceResult, MarginalOutcome, inference_compute_marginals,
};
use bayes_star::model::TableFactorModel;
use bayes_star::objects::{
    Argument, ConstantArgument, Domain, GroupRoleMap, LabeledArgument, Predicate, PredicateGroup,
    PredicateInferenceFactor, Proposition, RoleMap, VariableArgument,
};
use bayes_star::rational::Rational;

fn constant(role: &str, entity: &str) -> LabeledArgument {
    LabeledArgument::new(
        role.to_string(),
        Argument::Constant(ConstantArgument::new(Domain::Jack, entity.to_string())),
    )
}

fn variable(role: &str) -> LabeledArgument {
    LabeledArgument::new(role.to_string(), Argument::Variable(VariableArgument::new(Domain::Jack)))
}

fn ground(function: &str, roles: Vec<LabeledArgument>) -> Proposition {
    Proposition::from(Predicate::new(function.to_string(), roles)).unwrap()
}

fn identity_map(roles: &[&str]) -> RoleMap {
    RoleMap::new(roles.iter().map(|r| (r.to_string(), r.to_string())).collect())
}

/// An implication whose single premise term carries the given roles.
fn implication(
    premise_function: &str,
    premise_roles: &[&str],
    conclusion_function: &str,
    conclusion_roles: &[&str],
) -> PredicateInferenceFactor {
    let premise = PredicateGroup::new(vec![Predicate::new(
        premise_function.to_string(),
        premise_roles.iter().map(|r| variable(r)).collect(),
    )]);
    let conclusion = Predicate::new(
        conclusion_function.to_string(),
        conclusion_roles.iter().map(|r| variable(r)).collect(),
    );
    PredicateInferenceFactor {
        premise,
        role_maps: GroupRoleMap::new(vec![identity_map(premise_roles)]),
        conclusion,
    }
}

fn rat(num: u64, den: u64) -> Rational {
    Rational::new(num, den)
}

fn table(rows: Vec<(Vec<Rational>, Rational)>) -> TableFactorModel {
    TableFactorModel { rows, fallback: Rational::zero() }
}

fn known_true(result: &InferenceResult, target: &Proposition) -> Rational {
    match result.marginal_for(target) {
        Some(MarginalOutcome::Known(_, p1)) => p1,
        other => panic!("expected a known marginal, got {:?}", other),
    }
}

#[test]
fn root_only_is_certain() {
    let store = PredicateGraph::new();
    let target = ground(&existence_function(), vec![constant("x", "a")]);
    let result = inference_compute_marginals(table(vec![]), &store, &target).unwrap();
    let p1 = known_true(&result, &target);
    assert!(p1.eq_value(Rational::one()));
}

#[test]
fn single_factor_no_evidence() {
    let mut store = PredicateGraph::new();
    store.add_implication(implication(&existence_function(), &["x"], "t", &["x"]));
    let target = ground("t", vec![constant("x", "a")]);
    let model = table(vec![
        (vec![rat(1, 1)], rat(7, 10)),
        (vec![rat(0, 1)], rat(0, 1)),
    ]);
    let result = inference_compute_marginals(model, &store, &target).unwrap();
    let p1 = known_true(&result, &target);
    assert!(p1.eq_value(rat(7, 10)));
}

#[test]
fn chain_neutrality_matches_model() {
    // With no evidence, the chain root -> group -> conclusion reports
    // exactly the model's marginal for the premise-true context.
    let mut store = PredicateGraph::new();
    store.add_implication(implication(&existence_function(), &["x"], "t", &["x"]));
    let target = ground("t", vec![constant("x", "a")]);
    let model = table(vec![
        (vec![rat(1, 1)], rat(2, 5)),
        (vec![rat(0, 1)], rat(0, 1)),
    ]);
    let result = inference_compute_marginals(model, &store, &target).unwrap();
    let p1 = known_true(&result, &target);
    assert!(p1.eq_value(rat(2, 5)));
}

#[test]
fn evidence_overrides_prior() {
    let mut store = PredicateGraph::new();
    store.add_implication(implication(&existence_function(), &["x"], "t", &["x"]));
    let target = ground("t", vec![constant("x", "a")]);
    let model = table(vec![
        (vec![rat(1, 1)], rat(7, 10)),
        (vec![rat(0, 1)], rat(0, 1)),
    ]);
    let graph = PropositionGraph::new_shared(&store, &target).unwrap();
    let mut inferencer = Inferencer::new_mutable(model, graph).unwrap();

    // Hard evidence pins the reported marginal exactly.
    inferencer.store_proposition_probability(&target, rat(0, 1)).unwrap();
    inferencer.initialize().unwrap();
    match inferencer.get_marginal(0).unwrap() {
        MarginalOutcome::Known(_, p1) => assert!(p1.eq_value(Rational::zero())),
        other => panic!("expected a known marginal, got {:?}", other),
    }
    inferencer.store_proposition_probability(&target, rat(1, 1)).unwrap();
    inferencer.do_full_forward_and_backward().unwrap();
    match inferencer.get_marginal(0).unwrap() {
        MarginalOutcome::Known(_, p1) => assert!(p1.eq_value(Rational::one())),
        other => panic!("expected a known marginal, got {:?}", other),
    }

    // Soft evidence is pinned too: the readout reports the stored
    // probability itself, overriding the model's prior.
    inferencer.store_proposition_probability(&target, rat(1, 10)).unwrap();
    inferencer.do_full_forward_and_backward().unwrap();
    match inferencer.get_marginal(0).unwrap() {
        MarginalOutcome::Known(p0, p1) => {
            assert!(p1.eq_value(rat(1, 10)));
            assert!(p0.eq_value(rat(9, 10)));
        }
        other => panic!("expected a known marginal, got {:?}", other),
    }
}

#[test]
fn conjunction_of_two_roots() {
    let mut store = PredicateGraph::new();
    let premise = PredicateGroup::new(vec![
        Predicate::new(existence_function(), vec![variable("x")]),
        Predicate::new(existence_function(), vec![variable("y")]),
    ]);
    let conclusion = Predicate::new("t".to_string(), vec![variable("x"), variable("y")]);
    store.add_implication(PredicateInferenceFactor {
        premise,
        role_maps: GroupRoleMap::new(vec![identity_map(&["x"]), identity_map(&["y"])]),
        conclusion,
    });
    let target = ground("t", vec![constant("x", "a"), constant("y", "b")]);
    let model = table(vec![
        (vec![rat(1, 1)], rat(9, 10)),
        (vec![rat(0, 1)], rat(0, 1)),
    ]);
    let result = inference_compute_marginals(model, &store, &target).unwrap();
    let p1 = known_true(&result, &target);
    assert!(p1.eq_value(rat(9, 10)));
}

#[test]
fn disjunctive_factors_combine() {
    let mut store = PredicateGraph::new();
    store.add_implication(implication(&existence_function(), &["x"], "t", &["x", "y"]));
    store.add_implication(implication(&existence_function(), &["y"], "t", &["x", "y"]));
    let target = ground("t", vec![constant("x", "a"), constant("y", "b")]);
    let model = table(vec![
        (vec![rat(1, 1), rat(1, 1)], rat(3, 4)),
        (vec![rat(1, 1), rat(0, 1)], rat(1, 2)),
        (vec![rat(0, 1), rat(1, 1)], rat(1, 2)),
        (vec![rat(0, 1), rat(0, 1)], rat(0, 1)),
    ]);
    let result = inference_compute_marginals(model, &store, &target).unwrap();
    let p1 = known_true(&result, &target);
    assert!(p1.eq_value(rat(3, 4)));
}

#[test]
fn contradictory_evidence_degenerates() {
    // a deterministic group is required true while its one premise is
    // pinned false: the group's potentials vanish and the readout
    // reports the contradiction there
    let mut store = PredicateGraph::new();
    store.add_implication(implication(&existence_function(), &["x"], "t", &["x"]));
    let target = ground("t", vec![constant("x", "a")]);
    let root = ground(&existence_function(), vec![constant("x", "a")]);
    let model = table(vec![
        (vec![rat(1, 1)], rat(1, 1)),
        (vec![rat(0, 1)], rat(0, 1)),
    ]);
    let graph = PropositionGraph::new_shared(&store, &target).unwrap();
    let mut inferencer = Inferencer::new_mutable(model, graph).unwrap();
    inferencer.store_proposition_probability(&target, rat(0, 1)).unwrap();
    inferencer.initialize().unwrap();
    let group_id = (0..inferencer.proposition_graph.nodes.len())
        .find(|i| inferencer.proposition_graph.nodes[*i].is_group())
        .unwrap();
    assert!(matches!(
        inferencer.get_marginal(group_id).unwrap(),
        MarginalOutcome::Degenerate
    ));
    // the pass completed: every other vertex stays queryable, and the
    // observed conclusion reports its evidence
    let target_known = match inferencer.get_marginal(0).unwrap() {
        MarginalOutcome::Known(_, p1) => p1,
        other => panic!("expected a known marginal, got {:?}", other),
    };
    assert!(target_known.eq_value(Rational::zero()));
    // the unobserved existence root is contradicted as well
    let root_id = (0..inferencer.proposition_graph.nodes.len())
        .find(|i| {
            inferencer.proposition_graph.nodes[*i].is_single()
                && inferencer.proposition_graph.nodes[*i].extract_single().eq_prop(&root)
        })
        .unwrap();
    assert!(matches!(
        inferencer.get_marginal(root_id).unwrap(),
        MarginalOutcome::Degenerate
    ));
}

#[test]
fn marginals_sum_to_one() {
    let mut store = PredicateGraph::new();
    store.add_implication(implication(&existence_function(), &["x"], "t", &["x"]));
    let target = ground("t", vec![constant("x", "a")]);
    let model = table(vec![
        (vec![rat(1, 1)], rat(7, 10)),
        (vec![rat(0, 1)], rat(0, 1)),
    ]);
    let result = inference_compute_marginals(model, &store, &target).unwrap();
    for entry in &result.marginals {
        match entry {
            Some(MarginalOutcome::Known(p0, p1)) => {
                let sum = p0.add(*p1).unwrap();
                assert!(sum.eq_value(Rational::one()));
                assert!(p1.le_one());
            }
            Some(MarginalOutcome::Degenerate) => panic!("unexpected degenerate entry"),
            None => panic!("missing entry"),
        }
    }
}

#[test]
fn roots_are_pinned_to_certainty() {
    let mut store = PredicateGraph::new();
    store.add_implication(implication(&existence_function(), &["x"], "t", &["x"]));
    let target = ground("t", vec![constant("x", "a")]);
    let model = table(vec![
        (vec![rat(1, 1)], rat(7, 10)),
        (vec![rat(0, 1)], rat(0, 1)),
    ]);
    let graph = PropositionGraph::new_shared(&store, &target).unwrap();
    let mut inferencer = Inferencer::new_mutable(model, graph).unwrap();
    inferencer.initialize().unwrap();
    for r in &inferencer.proposition_graph.roots {
        let cell = &inferencer.data.pi[*r];
        let p0 = cell.0.unwrap();
        let p1 = cell.1.unwrap();
        assert_eq!(p0.num, 0);
        assert_eq!(p0.den, 1);
        assert_eq!(p1.num, 1);
        assert_eq!(p1.den, 1);
    }
}

#[test]
fn propagation_order_respects_edges() {
    let mut store = PredicateGraph::new();
    store.add_implication(implication(&existence_function(), &["x"], "t", &["x"]));
    store.add_implication(implication("t", &["x"], "u", &["x"]));
    let target = ground("u", vec![constant("x", "a")]);
    let model = table(vec![(vec![rat(1, 1)], rat(1, 2)), (vec![rat(0, 1)], rat(0, 1))]);
    let graph = PropositionGraph::new_shared(&store, &target).unwrap();
    let inferencer = Inferencer::new_mutable(model, graph).unwrap();
    assert!(check_order(&inferencer.proposition_graph, inferencer.get_bfs_order()));
    assert_eq!(
        inferencer.get_bfs_order().len(),
        inferencer.proposition_graph.nodes.len()
    );
}

#[test]
fn reinitialize_reproduces_marginals() {
    let mut store = PredicateGraph::new();
    store.add_implication(implication(&existence_function(), &["x"], "t", &["x"]));
    let target = ground("t", vec![constant("x", "a")]);
    let model = table(vec![
        (vec![rat(1, 1)], rat(7, 10)),
        (vec![rat(0, 1)], rat(0, 1)),
    ]);
    let graph = PropositionGraph::new_shared(&store, &target).unwrap();
    let mut inferencer = Inferencer::new_mutable(model, graph).unwrap();
    inferencer.store_proposition_probability(&target, rat(1, 4)).unwrap();
    inferencer.initialize().unwrap();
    let first: Vec<_> = (0..inferencer.proposition_graph.nodes.len())
        .map(|i| inferencer.get_marginal(i).unwrap())
        .collect();
    inferencer.initialize().unwrap();
    inferencer.do_full_forward_and_backward().unwrap();
    for (i, entry) in first.iter().enumerate() {
        match (entry, inferencer.get_marginal(i).unwrap()) {
            (MarginalOutcome::Known(a0, a1), MarginalOutcome::Known(b0, b1)) => {
                assert!(a0.eq_value(b0));
                assert!(a1.eq_value(b1));
            }
            (MarginalOutcome::Degenerate, MarginalOutcome::Degenerate) => {}
            other => panic!("marginals diverged: {:?}", other),
        }
    }
}

#[test]
fn construction_is_repeatable() {
    let mut store = PredicateGraph::new();
    store.add_implication(implication(&existence_function(), &["x"], "t", &["x"]));
    store.add_implication(implication("t", &["x"], "u", &["x"]));
    let target = ground("u", vec![constant("x", "a")]);
    let g1 = PropositionGraph::new_shared(&store, &target).unwrap();
    let g2 = PropositionGraph::new_shared(&store, &target).unwrap();
    assert_eq!(g1.nodes.len(), g2.nodes.len());
    assert_eq!(g1.target, g2.target);
    assert_eq!(g1.roots, g2.roots);
    assert_eq!(g1.parents, g2.parents);
    assert_eq!(g1.children, g2.children);
    for i in 0..g1.nodes.len() {
        assert_eq!(g1.nodes[i].debug_string(), g2.nodes[i].debug_string());
    }
}
