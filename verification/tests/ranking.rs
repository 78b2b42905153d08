use qi_profiler::cost::{rank_quantifier_costs, share_percent, total_instantiations, weight_of};
use qi_profiler::{Profiler, QuantCost, StatsError, TraceModel};
use std::collections::{BTreeMap, HashMap};

fn cost(quant: &str, instantiations: u64, cost: u64) -> QuantCost {
    QuantCost { quant: String::from(quant), instantiations, cost }
}

fn labels(costs: &[QuantCost]) -> Vec<String> {
    costs.iter().map(|c| c.quant.clone()).collect()
}

fn profile(costs: Vec<QuantCost>) -> Profiler {
    let model =
        TraceModel { instantiations: BTreeMap::new(), terms: HashMap::new(), quant_costs: costs };
    Profiler::parse(model).unwrap()
}

#[test]
fn heaviest_comes_first() {
    let ranking =
        rank_quantifier_costs(vec![cost("a", 3, 2), cost("b", 10, 10), cost("c", 1, 50), cost("d", 0, 9)]);
    assert_eq!(labels(&ranking), ["b", "c", "a", "d"]);
    assert_eq!(ranking[0], cost("b", 10, 10));
}

#[test]
fn ranking_falls_by_weight() {
    let ranking = rank_quantifier_costs(vec![
        cost("a", 4, 4),
        cost("b", 2, 8),
        cost("c", 7, 1),
        cost("d", 16, 1),
        cost("e", 9, 9),
        cost("f", 0, 0),
    ]);
    for pair in ranking.windows(2) {
        assert!(weight_of(&pair[0]) >= weight_of(&pair[1]));
    }
    assert_eq!(labels(&ranking), ["e", "d", "b", "a", "c", "f"]);
}

#[test]
fn equal_weights_come_out_in_reverse() {
    let ranking = rank_quantifier_costs(vec![cost("q1", 10, 2), cost("q2", 5, 4)]);
    assert_eq!(labels(&ranking), ["q2", "q1"]);
    let ranking = rank_quantifier_costs(vec![cost("q2", 5, 4), cost("q1", 10, 2)]);
    assert_eq!(labels(&ranking), ["q1", "q2"]);
    let ranking = rank_quantifier_costs(vec![
        cost("a", 1, 6),
        cost("top", 7, 1),
        cost("b", 2, 3),
        cost("low", 1, 1),
        cost("c", 3, 2),
        cost("d", 6, 1),
    ]);
    assert_eq!(labels(&ranking), ["top", "d", "c", "b", "a", "low"]);
}

#[test]
fn ranking_rising_costs_reverses_them() {
    let rising = vec![
        cost("a", 1, 1),
        cost("b", 1, 2),
        cost("c", 2, 1),
        cost("d", 3, 3),
        cost("e", 9, 1),
        cost("f", 1, 9),
        cost("g", 10, 10),
    ];
    let mut reversed = rising.clone();
    reversed.reverse();
    assert_eq!(rank_quantifier_costs(rising), reversed);
}

#[test]
fn ranking_agrees_with_a_stable_sort_read_backwards() {
    let costs = vec![
        cost("a", 2, 3),
        cost("b", 6, 1),
        cost("c", 1, 1),
        cost("d", 3, 2),
        cost("e", 1, 1),
        cost("f", 1, 6),
    ];
    let mut expected = costs.clone();
    expected.sort_by_key(|c| c.instantiations * c.cost);
    expected.reverse();
    assert_eq!(rank_quantifier_costs(costs), expected);
}

#[test]
fn ranking_keeps_every_entry() {
    let ranking = rank_quantifier_costs(vec![cost("x", 1, 1), cost("x", 1, 1), cost("y", 2, 2)]);
    assert_eq!(ranking, vec![cost("y", 2, 2), cost("x", 1, 1), cost("x", 1, 1)]);
    assert!(rank_quantifier_costs(Vec::new()).is_empty());
}

#[test]
fn weight_does_not_wrap() {
    let big = cost("big", 1 << 40, 1 << 40);
    assert_eq!(weight_of(&big), 1u128 << 80);
    assert_eq!(weight_of(&cost("max", u64::MAX, u64::MAX)), (u64::MAX as u128) * (u64::MAX as u128));
    let ranking = rank_quantifier_costs(vec![cost("small", 1 << 63, 1), big]);
    assert_eq!(labels(&ranking), ["big", "small"]);
}

#[test]
fn total_is_the_sum_of_the_instantiations() {
    assert_eq!(total_instantiations(&vec![cost("q1", 10, 2), cost("q2", 5, 10)]), 15);
    assert_eq!(total_instantiations(&Vec::new()), 0);
    assert_eq!(
        total_instantiations(&vec![cost("a", u64::MAX, 1), cost("b", u64::MAX, 1)]),
        2 * (u64::MAX as u128)
    );
}

#[test]
fn shares_are_cut_off_not_rounded() {
    assert_eq!(share_percent(10, 15), 66);
    assert_eq!(share_percent(5, 15), 33);
    assert_eq!(share_percent(2, 3), 66);
    assert_eq!(share_percent(199, 200), 99);
    assert_eq!(share_percent(7, 7), 100);
    assert_eq!(share_percent(0, 7), 0);
    assert_eq!(share_percent(u64::MAX, u64::MAX as u128), 100);
}

#[test]
fn two_quantifiers_share_the_total() {
    let profiler = profile(vec![cost("Q1", 10, 2), cost("Q2", 5, 10)]);
    assert_eq!(profiler.total_instantiations(), 15);
    assert_eq!(labels(profiler.quantifier_stats()), ["Q2", "Q1"]);
    let rows = profiler.ranked_quantifier_costs().unwrap();
    assert_eq!(rows.len(), 2);
    assert_eq!((rows[0].quant.as_str(), rows[0].instantiations, rows[0].percent), ("Q2", 5, 33));
    assert_eq!((rows[1].quant.as_str(), rows[1].instantiations, rows[1].percent), ("Q1", 10, 66));
}

#[test]
fn no_instantiations_give_no_shares() {
    let profiler = profile(vec![cost("idle", 0, 5), cost("idler", 0, 0)]);
    assert_eq!(profiler.total_instantiations(), 0);
    assert_eq!(profiler.ranked_quantifier_costs().unwrap_err(), StatsError::NoInstantiations);
    let mut out = String::from("kept");
    assert_eq!(profiler.print_stats(&mut out), Err(StatsError::NoInstantiations));
    assert_eq!(out, "kept");
}

#[test]
fn no_quantifiers_give_an_empty_report() {
    let profiler = profile(Vec::new());
    assert!(profiler.ranked_quantifier_costs().unwrap().is_empty());
    let mut out = String::new();
    assert_eq!(profiler.print_stats(&mut out), Ok(()));
    assert_eq!(out, "");
}
