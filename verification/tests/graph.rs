use qi_profiler::blame::attribute_blame;
use qi_profiler::graph::{causal_edges, make_instantiation_graph, named_nodes};
use qi_profiler::{
    GraphError, InstantiationGraph, InstantiationKey, InstantiationRecord, MatchedTerm, Origin,
    TermId, TraceModel,
};
use std::collections::{BTreeMap, BTreeSet, HashMap};

const FORALL_F: TermId = 100;
const FORALL_G: TermId = 101;

fn new_match(quantifier: TermId, used: Vec<MatchedTerm>, produced: Vec<TermId>) -> InstantiationRecord {
    InstantiationRecord { origin: Origin::NewMatch { used, quantifier }, produced }
}

fn discovered(produced: Vec<TermId>) -> InstantiationRecord {
    InstantiationRecord { origin: Origin::Discovered, produced }
}

fn model_of(records: Vec<(InstantiationKey, InstantiationRecord)>) -> TraceModel {
    let mut terms = HashMap::new();
    terms.insert(FORALL_F, Some(String::from("forall_f")));
    terms.insert(FORALL_G, Some(String::from("forall_g")));
    TraceModel { instantiations: records.into_iter().collect(), terms, quant_costs: Vec::new() }
}

fn graph_of(records: Vec<(InstantiationKey, InstantiationRecord)>) -> InstantiationGraph {
    make_instantiation_graph(&model_of(records)).unwrap()
}

fn keys(ks: &[InstantiationKey]) -> BTreeSet<InstantiationKey> {
    ks.iter().copied().collect()
}

const A: InstantiationKey = (0xa, 0);
const B: InstantiationKey = (0xb, 0);
const C: InstantiationKey = (0xc, 0);
const D: InstantiationKey = (0xd, 0);

#[test]
fn chain_of_three_matches() {
    let g = graph_of(vec![
        (A, new_match(FORALL_F, vec![], vec![1])),
        (B, new_match(FORALL_G, vec![MatchedTerm::Trigger(1)], vec![2])),
        (C, new_match(FORALL_F, vec![MatchedTerm::Trigger(2)], vec![])),
    ]);
    assert_eq!(g.nodes, keys(&[A, B, C]));
    let mut edges = BTreeMap::new();
    edges.insert(A, keys(&[B]));
    edges.insert(B, keys(&[C]));
    assert_eq!(g.edges, edges);
    assert_eq!(g.names[&A], "forall_f");
    assert_eq!(g.names[&B], "forall_g");
    assert_eq!(g.names[&C], "forall_f");
}

#[test]
fn trigger_without_producer_gives_no_edge() {
    let g = graph_of(vec![(D, new_match(FORALL_F, vec![MatchedTerm::Trigger(77)], vec![5]))]);
    assert_eq!(g.nodes, keys(&[D]));
    assert!(g.edges.is_empty());
    assert_eq!(g.names.len(), 1);
}

#[test]
fn isolated_match_is_a_node_without_edges() {
    let g = graph_of(vec![
        (A, new_match(FORALL_F, vec![], vec![])),
        (B, new_match(FORALL_G, vec![], vec![9])),
    ]);
    assert_eq!(g.nodes, keys(&[A, B]));
    assert!(g.edges.is_empty());
}

#[test]
fn empty_trace_gives_empty_graph() {
    let g = graph_of(vec![]);
    assert!(g.nodes.is_empty());
    assert!(g.edges.is_empty());
    assert!(g.names.is_empty());
}

#[test]
fn discovered_records_stay_out_of_the_graph() {
    let g = graph_of(vec![
        (A, discovered(vec![1])),
        (B, new_match(FORALL_F, vec![MatchedTerm::Trigger(1)], vec![2])),
        (C, discovered(vec![])),
    ]);
    assert_eq!(g.nodes, keys(&[B]));
    assert!(g.edges.is_empty());
    assert!(!g.names.contains_key(&A));
    assert!(!g.names.contains_key(&C));
}

#[test]
fn discovered_records_give_no_blame() {
    let model = model_of(vec![(A, discovered(vec![1, 2])), (B, new_match(FORALL_F, vec![], vec![3]))]);
    let blame = attribute_blame(&model.instantiations);
    assert_eq!(blame.len(), 1);
    assert_eq!(blame.get(&3), Some(&B));
    assert_eq!(blame.get(&1), None);
}

#[test]
fn a_discovered_record_needs_no_name() {
    let mut model = model_of(vec![(A, discovered(vec![]))]);
    model.terms.clear();
    let g = make_instantiation_graph(&model).unwrap();
    assert!(g.nodes.is_empty());
}

#[test]
fn last_producer_in_key_order_is_blamed() {
    let model = model_of(vec![
        (C, new_match(FORALL_F, vec![], vec![1, 2])),
        (A, new_match(FORALL_F, vec![], vec![1])),
        (B, new_match(FORALL_F, vec![], vec![1, 3])),
    ]);
    let blame = attribute_blame(&model.instantiations);
    assert_eq!(blame.get(&1), Some(&C));
    assert_eq!(blame.get(&2), Some(&C));
    assert_eq!(blame.get(&3), Some(&B));
    assert_eq!(blame.len(), 3);
}

#[test]
fn versions_of_one_identity_are_told_apart() {
    let first: InstantiationKey = (7, 0);
    let second: InstantiationKey = (7, 1);
    let g = graph_of(vec![
        (first, new_match(FORALL_F, vec![], vec![1])),
        (second, new_match(FORALL_F, vec![MatchedTerm::Trigger(1)], vec![1])),
        (B, new_match(FORALL_G, vec![MatchedTerm::Trigger(1)], vec![])),
    ]);
    assert_eq!(g.nodes, keys(&[first, second, B]));
    let mut edges = BTreeMap::new();
    edges.insert(second, keys(&[second, B]));
    assert_eq!(g.edges, edges);
}

#[test]
fn equalities_give_no_edge() {
    let g = graph_of(vec![
        (A, new_match(FORALL_F, vec![], vec![1, 2])),
        (B, new_match(FORALL_G, vec![MatchedTerm::Equality(1, 2)], vec![])),
    ]);
    assert_eq!(g.nodes, keys(&[A, B]));
    assert!(g.edges.is_empty());
}

#[test]
fn one_source_collects_its_targets_once() {
    let g = graph_of(vec![
        (A, new_match(FORALL_F, vec![], vec![1, 2])),
        (
            B,
            new_match(
                FORALL_G,
                vec![MatchedTerm::Trigger(1), MatchedTerm::Equality(1, 2), MatchedTerm::Trigger(2)],
                vec![],
            ),
        ),
        (C, new_match(FORALL_G, vec![MatchedTerm::Trigger(2)], vec![])),
    ]);
    let mut edges = BTreeMap::new();
    edges.insert(A, keys(&[B, C]));
    assert_eq!(g.edges, edges);
}

#[test]
fn an_instantiation_may_trigger_itself() {
    let g = graph_of(vec![(A, new_match(FORALL_F, vec![MatchedTerm::Trigger(1)], vec![1]))]);
    let mut edges = BTreeMap::new();
    edges.insert(A, keys(&[A]));
    assert_eq!(g.edges, edges);
}

#[test]
fn every_edge_has_a_blamed_trigger() {
    let model = model_of(vec![
        (A, new_match(FORALL_F, vec![], vec![1, 2])),
        (B, new_match(FORALL_G, vec![MatchedTerm::Trigger(1)], vec![2, 3])),
        (C, new_match(FORALL_F, vec![MatchedTerm::Trigger(2), MatchedTerm::Trigger(3)], vec![])),
        (D, discovered(vec![4])),
    ]);
    let blame = attribute_blame(&model.instantiations);
    let g = make_instantiation_graph(&model).unwrap();
    let mut count = 0;
    for (u, targets) in &g.edges {
        for v in targets {
            count += 1;
            let used = match &model.instantiations[v].origin {
                Origin::NewMatch { used, .. } => used.clone(),
                Origin::Discovered => unreachable!(),
            };
            assert!(used
                .iter()
                .any(|m| matches!(m, MatchedTerm::Trigger(t) if blame.get(t) == Some(u))));
        }
    }
    assert_eq!(count, 2);
    let mut edges = BTreeMap::new();
    edges.insert(A, keys(&[B]));
    edges.insert(B, keys(&[C]));
    assert_eq!(g.edges, edges);
}

#[test]
fn names_are_those_of_the_nodes() {
    let g = graph_of(vec![
        (A, new_match(FORALL_F, vec![], vec![1])),
        (B, discovered(vec![])),
        (C, new_match(FORALL_G, vec![MatchedTerm::Trigger(1)], vec![])),
    ]);
    let named: BTreeSet<InstantiationKey> = g.names.keys().copied().collect();
    assert_eq!(named, g.nodes);
    for (u, targets) in &g.edges {
        assert!(g.nodes.contains(u));
        assert!(!targets.is_empty());
        for v in targets {
            assert!(g.nodes.contains(v));
        }
    }
}

#[test]
fn building_twice_gives_the_same_graph() {
    let model = model_of(vec![
        (A, new_match(FORALL_F, vec![], vec![1])),
        (B, new_match(FORALL_G, vec![MatchedTerm::Trigger(1)], vec![2])),
        (C, new_match(FORALL_F, vec![MatchedTerm::Trigger(2), MatchedTerm::Trigger(1)], vec![])),
    ]);
    let first = make_instantiation_graph(&model).unwrap();
    let second = make_instantiation_graph(&model).unwrap();
    assert_eq!(first.nodes, second.nodes);
    assert_eq!(first.edges, second.edges);
    assert_eq!(first.names, second.names);
}

#[test]
fn undefined_quantifier_is_an_error() {
    let model = model_of(vec![
        (A, new_match(FORALL_F, vec![], vec![])),
        (B, new_match(555, vec![], vec![])),
    ]);
    assert_eq!(
        make_instantiation_graph(&model).unwrap_err(),
        GraphError::UndefinedTerm { node: B, term: 555 }
    );
}

#[test]
fn unnamed_quantifier_is_an_error() {
    let mut model = model_of(vec![(A, new_match(300, vec![], vec![]))]);
    model.terms.insert(300, None);
    let e = make_instantiation_graph(&model).unwrap_err();
    assert_eq!(e, GraphError::UnnamedTerm { node: A, term: 300 });
    assert_eq!(e.node(), A);
}

#[test]
fn the_first_failing_node_is_reported() {
    let mut model = model_of(vec![
        (C, new_match(555, vec![], vec![])),
        (B, new_match(300, vec![], vec![])),
        (A, new_match(FORALL_F, vec![], vec![])),
    ]);
    model.terms.insert(300, None);
    assert_eq!(
        make_instantiation_graph(&model).unwrap_err(),
        GraphError::UnnamedTerm { node: B, term: 300 }
    );
}

#[test]
fn edges_follow_the_blame_that_is_given() {
    let model = model_of(vec![
        (A, new_match(FORALL_F, vec![], vec![1])),
        (B, new_match(FORALL_G, vec![MatchedTerm::Trigger(1), MatchedTerm::Trigger(2)], vec![])),
    ]);
    let mut blame = HashMap::new();
    blame.insert(2, C);
    let edges = causal_edges(&model.instantiations, &blame);
    let mut expected = BTreeMap::new();
    expected.insert(C, keys(&[B]));
    assert_eq!(edges, expected);
}

#[test]
fn nodes_are_named_after_their_quantifiers() {
    let model = model_of(vec![
        (A, new_match(FORALL_G, vec![], vec![])),
        (B, discovered(vec![])),
    ]);
    let (nodes, names) = named_nodes(&model.instantiations, &model.terms).unwrap();
    assert_eq!(nodes, keys(&[A]));
    assert_eq!(names.len(), 1);
    assert_eq!(names[&A], "forall_g");
}
