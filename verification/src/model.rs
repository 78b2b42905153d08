//! The structured trace that the analyses read: instantiation records by key,
//! the term table, and the cost aggregates of the quantifiers.

use crate::cost::{cost_views, QuantCost, QuantCostView};
use std::collections::BTreeMap;
use std::collections::HashMap;
use vstd::prelude::*;

verus! {

/// Identifier of a logical term (an e-node). It is a lookup key and nothing more.
pub type TermId = u64;

/// Identity and version of one instantiation event.
pub type InstantiationKey = (u64, usize);

/// A term that an instantiation matched against a pattern.
#[derive(Clone, Copy, Debug, PartialEq, Eq, Structural)]
pub enum MatchedTerm {
    /// The term matched a trigger.
    Trigger(TermId),
    /// An equality between two terms that the match went through.
    Equality(TermId, TermId),
}

/// How an instantiation came about.
#[derive(Clone, Debug)]
pub enum Origin {
    /// Found passively: no trigger match is recorded for it.
    Discovered,
    /// Fired by a match of a trigger of the quantifier `quantifier` on the terms `used`.
    NewMatch { used: Vec<MatchedTerm>, quantifier: TermId },
}

/// One firing of a quantifier.
#[derive(Clone, Debug)]
pub struct InstantiationRecord {
    pub origin: Origin,
    /// The terms that came into existence through this firing, in trace order.
    pub produced: Vec<TermId>,
}

/// The trace model that the analyses are run on.
#[derive(Debug)]
pub struct TraceModel {
    /// Every instantiation of the trace under its key.
    pub instantiations: BTreeMap<InstantiationKey, InstantiationRecord>,
    /// The term table: the declared name of each known term, `None` for a
    /// term that has none.
    pub terms: HashMap<TermId, Option<String>>,
    /// The cost aggregate of each quantifier.
    pub quant_costs: Vec<QuantCost>,
}

/// What an [`Origin`] holds, as mathematical values.
pub enum OriginView {
    Discovered,
    NewMatch { used: Seq<MatchedTerm>, quantifier: TermId },
}

/// What an [`InstantiationRecord`] holds, as mathematical values.
pub struct RecordView {
    pub origin: OriginView,
    pub produced: Seq<TermId>,
}

/// The instantiations of a trace, as a mathematical map.
pub type Trace = Map<InstantiationKey, RecordView>;

/// The term table, as a mathematical map.
pub type TermNames = Map<TermId, Option<Seq<char>>>;

impl View for Origin {
    type V = OriginView;

    open spec fn view(&self) -> OriginView {
        match *self {
            Origin::Discovered => OriginView::Discovered,
            Origin::NewMatch { used, quantifier } => OriginView::NewMatch {
                used: used@,
                quantifier,
            },
        }
    }
}

impl View for InstantiationRecord {
    type V = RecordView;

    open spec fn view(&self) -> RecordView {
        RecordView { origin: self.origin@, produced: self.produced@ }
    }
}

/// The name held by an entry of the term table, as a sequence of characters.
pub open spec fn name_view(name: Option<String>) -> Option<Seq<char>> {
    match name {
        Some(s) => Some(s@),
        None => None,
    }
}

/// The trace that a map of records stands for.
pub open spec fn trace_of(records: Map<InstantiationKey, InstantiationRecord>) -> Trace {
    records.map_values(|r: InstantiationRecord| r@)
}

/// The term table that a map of optional names stands for.
pub open spec fn term_names_of(terms: Map<TermId, Option<String>>) -> TermNames {
    terms.map_values(|n: Option<String>| name_view(n))
}

impl TraceModel {
    /// The instantiations of the model.
    pub open spec fn trace(&self) -> Trace {
        trace_of(self.instantiations@)
    }

    /// The term table of the model.
    pub open spec fn term_names(&self) -> TermNames {
        term_names_of(self.terms@)
    }

    /// The cost aggregates of the model, in the order in which it holds them.
    pub open spec fn costs(&self) -> Seq<QuantCostView> {
        cost_views(self.quant_costs@)
    }
}

/// The order in which the instantiations of a trace are gone through: by
/// identity, then by version.
pub open spec fn key_lt(a: InstantiationKey, b: InstantiationKey) -> bool {
    a.0 < b.0 || (a.0 == b.0 && a.1 < b.1)
}

/// `k` is an instantiation of `trace` that a trigger match fired.
pub open spec fn is_node(trace: Trace, k: InstantiationKey) -> bool {
    trace.contains_key(k) && trace[k].origin is NewMatch
}

/// The terms that the instantiation `k` used, when a trigger match fired it.
pub open spec fn used_terms(trace: Trace, k: InstantiationKey) -> Seq<MatchedTerm>
    recommends
        is_node(trace, k),
{
    trace[k].origin->used
}

/// The quantifier that the instantiation `k` instantiates, when a trigger
/// match fired it.
pub open spec fn quantifier_of(trace: Trace, k: InstantiationKey) -> TermId
    recommends
        is_node(trace, k),
{
    trace[k].origin->quantifier
}

} // verus!
