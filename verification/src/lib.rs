//! Causal analysis of the quantifier instantiations in a solver trace: which
//! instantiation produced the terms that triggered which other, and which
//! quantifiers cost the most.

pub mod blame;
pub mod cost;
pub mod diagram;
pub mod graph;
pub mod keys;
pub mod model;
pub mod profiler;
pub mod report;

pub use cost::QuantCost;
pub use diagram::{generate_graph, NodeData};
pub use graph::{GraphError, InstantiationGraph};
pub use model::{InstantiationKey, InstantiationRecord, MatchedTerm, Origin, TermId, TraceModel};
pub use profiler::Profiler;
pub use report::{CostShare, StatsError};
