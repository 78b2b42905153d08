//! The profile of a trace: the causal graph of its instantiations and the
//! ranking of its quantifiers by cost.

use crate::cost::{
    cost_views, instantiation_sum, rank_quantifier_costs, ranked, total_instantiations, QuantCost,
    QuantCostView,
};
use crate::graph::{
    all_resolve, is_first_failure, is_graph_of, make_instantiation_graph, GraphError,
    InstantiationGraph,
};
use crate::model::TraceModel;
use crate::report::{
    cost_shares, has_shares, push_report, report_text, share_views, shares_of, CostShare,
    StatsError,
};
use vstd::prelude::*;

verus! {

/// What the analysis of one trace found.
#[derive(Debug)]
pub struct Profiler {
    quantifier_stats: Vec<QuantCost>,
    instantiation_graph: InstantiationGraph,
}

impl Profiler {
    #[verifier::type_invariant]
    spec fn holds_a_graph(self) -> bool {
        self.instantiation_graph.wf()
    }

    /// The costs of the quantifiers, the heaviest first.
    pub closed spec fn stats(&self) -> Seq<QuantCostView> {
        cost_views(self.quantifier_stats@)
    }

    /// The causal graph of the instantiations.
    pub closed spec fn graph(&self) -> InstantiationGraph {
        self.instantiation_graph
    }

    /// Analyses a trace model: builds the causal graph of its instantiations
    /// and ranks the costs of its quantifiers. A model that names no
    /// quantifier for one of the nodes of the graph is refused.
    pub fn parse(model: TraceModel) -> (result: Result<Profiler, GraphError>)
        ensures
            match result {
                Ok(profiler) => {
                    &&& all_resolve(model.trace(), model.term_names())
                    &&& is_graph_of(profiler.graph(), model.trace(), model.term_names())
                    &&& profiler.graph().wf()
                    &&& profiler.stats() == ranked(model.costs())
                },
                Err(e) => is_first_failure(model.trace(), model.term_names(), e),
            },
    {
        match make_instantiation_graph(&model) {
            Ok(instantiation_graph) => {
                let quantifier_stats = rank_quantifier_costs(model.quant_costs);
                Ok(Profiler { quantifier_stats, instantiation_graph })
            },
            Err(e) => Err(e),
        }
    }

    /// The costs of the quantifiers, the heaviest first.
    pub fn quantifier_stats(&self) -> (stats: &Vec<QuantCost>)
        ensures
            cost_views(stats@) == self.stats(),
    {
        &self.quantifier_stats
    }

    /// The causal graph of the instantiations.
    pub fn instantiation_graph(&self) -> (graph: &InstantiationGraph)
        ensures
            *graph == self.graph(),
            graph.wf(),
    {
        proof {
            use_type_invariant(self);
        }
        &self.instantiation_graph
    }

    /// How often the quantifiers were instantiated, all together.
    pub fn total_instantiations(&self) -> (total: u128)
        ensures
            total == instantiation_sum(self.stats()),
    {
        total_instantiations(&self.quantifier_stats)
    }

    /// The ranked costs with the share of each quantifier in the total of the
    /// instantiations, in percent. With quantifiers to report on and a total
    /// of zero there are no shares, and that is an error.
    pub fn ranked_quantifier_costs(&self) -> (result: Result<Vec<CostShare>, StatsError>)
        ensures
            result is Ok <==> has_shares(self.stats()),
            result matches Ok(rows) ==> share_views(rows@) == shares_of(self.stats()),
    {
        cost_shares(&self.quantifier_stats)
    }

    /// Writes the statistics at the end of `out`, a line and an empty line
    /// for each quantifier, the heaviest first. Where there are no shares to
    /// report, nothing is written and the error says so.
    pub fn print_stats(&self, out: &mut String) -> (result: Result<(), StatsError>)
        ensures
            result is Ok <==> has_shares(self.stats()),
            result is Ok ==> final(out)@ == old(out)@ + report_text(shares_of(self.stats())),
            result is Err ==> final(out)@ == old(out)@,
    {
        match cost_shares(&self.quantifier_stats) {
            Ok(rows) => {
                push_report(out, &rows);
                Ok(())
            },
            Err(e) => Err(e),
        }
    }
}

} // verus!
