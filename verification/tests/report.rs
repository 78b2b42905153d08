use qi_profiler::report::{cost_shares, push_decimal, push_line, push_report};
use qi_profiler::{
    CostShare, GraphError, InstantiationRecord, MatchedTerm, Origin, Profiler, QuantCost,
    TraceModel,
};
use std::collections::{BTreeMap, BTreeSet, HashMap};

fn decimal(n: u64) -> String {
    let mut out = String::new();
    push_decimal(&mut out, n);
    out
}

#[test]
fn numbers_are_written_in_decimal() {
    assert_eq!(decimal(0), "0");
    assert_eq!(decimal(7), "7");
    assert_eq!(decimal(10), "10");
    assert_eq!(decimal(1234567890), "1234567890");
    assert_eq!(decimal(u64::MAX), "18446744073709551615");
    for n in [9u64, 99, 100, 101, 5040, 65535, 1 << 40] {
        assert_eq!(decimal(n), format!("{}", n));
    }
}

#[test]
fn decimal_is_written_at_the_end() {
    let mut out = String::from("n = ");
    push_decimal(&mut out, 42);
    assert_eq!(out, "n = 42");
}

#[test]
fn a_line_states_count_and_share() {
    let row = CostShare { quant: String::from("user_lemma_17"), instantiations: 1203, percent: 41 };
    let mut out = String::new();
    push_line(&mut out, &row);
    assert_eq!(out, "Instantiated user_lemma_17 1203 times (41% of the total) \n\n");
    assert_eq!(
        out,
        format!("{}\n", format!("Instantiated {} {} times ({}% of the total) \n", "user_lemma_17", 1203, 41))
    );
}

#[test]
fn the_report_has_a_line_for_each_row() {
    let rows = vec![
        CostShare { quant: String::from("a"), instantiations: 3, percent: 75 },
        CostShare { quant: String::from("b"), instantiations: 1, percent: 25 },
    ];
    let mut out = String::from("REPORT\n");
    push_report(&mut out, &rows);
    assert_eq!(
        out,
        "REPORT\nInstantiated a 3 times (75% of the total) \n\nInstantiated b 1 times (25% of the total) \n\n"
    );
}

#[test]
fn shares_keep_the_order_of_the_costs() {
    let costs = vec![
        QuantCost { quant: String::from("x"), instantiations: 1, cost: 9 },
        QuantCost { quant: String::from("y"), instantiations: 2, cost: 1 },
    ];
    let rows = cost_shares(&costs).unwrap();
    assert_eq!(
        rows,
        vec![
            CostShare { quant: String::from("x"), instantiations: 1, percent: 33 },
            CostShare { quant: String::from("y"), instantiations: 2, percent: 66 },
        ]
    );
}

fn small_model() -> TraceModel {
    let mut instantiations = BTreeMap::new();
    instantiations.insert(
        (1, 0),
        InstantiationRecord {
            origin: Origin::NewMatch { used: vec![], quantifier: 10 },
            produced: vec![1],
        },
    );
    instantiations.insert(
        (2, 0),
        InstantiationRecord {
            origin: Origin::NewMatch { used: vec![MatchedTerm::Trigger(1)], quantifier: 11 },
            produced: vec![],
        },
    );
    let mut terms = HashMap::new();
    terms.insert(10, Some(String::from("Q1")));
    terms.insert(11, Some(String::from("Q2")));
    let quant_costs = vec![
        QuantCost { quant: String::from("Q1"), instantiations: 10, cost: 2 },
        QuantCost { quant: String::from("Q2"), instantiations: 5, cost: 10 },
    ];
    TraceModel { instantiations, terms, quant_costs }
}

#[test]
fn a_model_is_profiled_whole() {
    let profiler = Profiler::parse(small_model()).unwrap();
    let graph = profiler.instantiation_graph();
    assert_eq!(graph.nodes, [(1, 0), (2, 0)].into_iter().collect::<BTreeSet<_>>());
    assert_eq!(graph.edges.len(), 1);
    assert_eq!(graph.edges[&(1, 0)], [(2, 0)].into_iter().collect::<BTreeSet<_>>());
    assert_eq!(graph.names[&(2, 0)], "Q2");
    let mut out = String::new();
    assert_eq!(profiler.print_stats(&mut out), Ok(()));
    assert_eq!(
        out,
        "Instantiated Q2 5 times (33% of the total) \n\nInstantiated Q1 10 times (66% of the total) \n\n"
    );
}

#[test]
fn a_model_without_a_name_is_refused() {
    let mut model = small_model();
    model.terms.remove(&11);
    assert_eq!(
        Profiler::parse(model).unwrap_err(),
        GraphError::UndefinedTerm { node: (2, 0), term: 11 }
    );
}
