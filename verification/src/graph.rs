//! The causal graph of a trace: an edge leads from the instantiation that is
//! to blame for a term to each instantiation that used the term as a trigger.

use crate::blame::{attribute_blame, blame_of, enumerates, is_blamed, lemma_blame_of};
use crate::keys::{among, lemma_among_all, lemma_among_before, lemma_among_step, map_keys};
use crate::model::{
    is_node, key_lt, quantifier_of, term_names_of, trace_of, used_terms, InstantiationKey,
    InstantiationRecord, MatchedTerm, Origin, TermId, TermNames, Trace, TraceModel,
};
use std::collections::BTreeMap;
use std::collections::BTreeSet;
use std::collections::HashMap;
use vstd::prelude::*;

verus! {

/// Why no graph could be built: the model names no quantifier for a node.
#[derive(Clone, Copy, Debug, PartialEq, Eq)]
pub enum GraphError {
    /// The term table has no entry for the quantifier `term` of `node`.
    UndefinedTerm { node: InstantiationKey, term: TermId },
    /// The term table has the quantifier `term` of `node`, without a name.
    UnnamedTerm { node: InstantiationKey, term: TermId },
}

impl GraphError {
    /// The node whose name could not be resolved.
    pub open spec fn spec_node(self) -> InstantiationKey {
        match self {
            GraphError::UndefinedTerm { node, .. } => node,
            GraphError::UnnamedTerm { node, .. } => node,
        }
    }

    /// The node whose name could not be resolved.
    #[verifier::when_used_as_spec(spec_node)]
    pub fn node(self) -> (k: InstantiationKey)
        ensures
            k == self.spec_node(),
    {
        match self {
            GraphError::UndefinedTerm { node, .. } => node,
            GraphError::UnnamedTerm { node, .. } => node,
        }
    }
}

/// The causal graph of the instantiations of a trace.
#[derive(Debug)]
pub struct InstantiationGraph {
    /// For each node that triggered another, the nodes that it triggered.
    pub edges: BTreeMap<InstantiationKey, BTreeSet<InstantiationKey>>,
    /// For each node, the name of the quantifier that it instantiates.
    pub names: BTreeMap<InstantiationKey, String>,
    pub nodes: BTreeSet<InstantiationKey>,
}

/// The sets that a map of edges holds, as mathematical sets.
pub open spec fn edge_sets(edges: Map<InstantiationKey, BTreeSet<InstantiationKey>>) -> Map<
    InstantiationKey,
    Set<InstantiationKey>,
> {
    edges.map_values(|s: BTreeSet<InstantiationKey>| s@)
}

/// The names that a map of names holds, as sequences of characters.
pub open spec fn name_seqs(names: Map<InstantiationKey, String>) -> Map<
    InstantiationKey,
    Seq<char>,
> {
    names.map_values(|s: String| s@)
}

impl InstantiationGraph {
    /// The adjacency of the graph: each source with the set of its targets.
    pub open spec fn edge_view(&self) -> Map<InstantiationKey, Set<InstantiationKey>> {
        edge_sets(self.edges@)
    }

    /// The name of each node.
    pub open spec fn name_view(&self) -> Map<InstantiationKey, Seq<char>> {
        name_seqs(self.names@)
    }

    /// The graph has an edge from `u` to `v`.
    pub open spec fn has_edge(&self, u: InstantiationKey, v: InstantiationKey) -> bool {
        self.edge_view().contains_key(u) && self.edge_view()[u].contains(v)
    }

    /// Both ends of every edge are nodes, a source is listed only with a
    /// target, and the names are those of the nodes.
    pub open spec fn wf(&self) -> bool {
        &&& self.name_view().dom() == self.nodes@
        &&& forall|u: InstantiationKey| #[trigger]
            self.edge_view().contains_key(u) ==> self.nodes@.contains(u)
                && !self.edge_view()[u].is_empty()
        &&& forall|u: InstantiationKey, v: InstantiationKey| #[trigger]
            self.has_edge(u, v) ==> self.nodes@.contains(v)
    }
}

/// A term that an instantiation used is a trigger term that `blame` holds
/// `u` responsible for.
pub open spec fn blames_use(
    blame: Map<TermId, InstantiationKey>,
    used: MatchedTerm,
    u: InstantiationKey,
) -> bool {
    match used {
        MatchedTerm::Trigger(t) => blame.contains_pair(t, u),
        MatchedTerm::Equality(_, _) => false,
    }
}

/// Under `blame`, `u` triggered `v`: a trigger match fired `v`, on at least
/// one term that `u` is held responsible for.
pub open spec fn triggers_with(
    trace: Trace,
    blame: Map<TermId, InstantiationKey>,
    u: InstantiationKey,
    v: InstantiationKey,
) -> bool {
    &&& is_node(trace, v)
    &&& exists|j: int|
        0 <= j < used_terms(trace, v).len() && blames_use(
            blame,
            #[trigger] used_terms(trace, v)[j],
            u,
        )
}

/// The adjacency that `blame` gives the instantiations of `trace`.
pub open spec fn edges_with(trace: Trace, blame: Map<TermId, InstantiationKey>) -> Map<
    InstantiationKey,
    Set<InstantiationKey>,
> {
    Map::new(
        |u: InstantiationKey| exists|v: InstantiationKey| triggers_with(trace, blame, u, v),
        |u: InstantiationKey| Set::new(|v: InstantiationKey| triggers_with(trace, blame, u, v)),
    )
}

/// The nodes of the causal graph of `trace`: the instantiations that a
/// trigger match fired.
pub open spec fn graph_nodes(trace: Trace) -> Set<InstantiationKey> {
    Set::new(|k: InstantiationKey| is_node(trace, k))
}

/// The adjacency of the causal graph of `trace`.
pub open spec fn graph_edges(trace: Trace) -> Map<InstantiationKey, Set<InstantiationKey>> {
    edges_with(trace, blame_of(trace))
}

/// The term table names the quantifier of the node `k`.
pub open spec fn resolves(trace: Trace, names: TermNames, k: InstantiationKey) -> bool {
    names.contains_key(quantifier_of(trace, k)) && names[quantifier_of(trace, k)] is Some
}

/// The term table names the quantifier of every node.
pub open spec fn all_resolve(trace: Trace, names: TermNames) -> bool {
    forall|k: InstantiationKey| is_node(trace, k) ==> resolves(trace, names, k)
}

/// The name of each node of the causal graph of `trace`.
pub open spec fn graph_names(trace: Trace, names: TermNames) -> Map<InstantiationKey, Seq<char>> {
    Map::new(
        |k: InstantiationKey| is_node(trace, k),
        |k: InstantiationKey| names[quantifier_of(trace, k)]->0,
    )
}

/// The error that the node `k` gives, when its name does not resolve.
pub open spec fn name_failure(trace: Trace, names: TermNames, k: InstantiationKey) -> GraphError {
    if names.contains_key(quantifier_of(trace, k)) {
        GraphError::UnnamedTerm { node: k, term: quantifier_of(trace, k) }
    } else {
        GraphError::UndefinedTerm { node: k, term: quantifier_of(trace, k) }
    }
}

/// `e` reports the first node, in the order of the trace, whose name does
/// not resolve.
pub open spec fn is_first_failure(trace: Trace, names: TermNames, e: GraphError) -> bool {
    &&& is_node(trace, e.node())
    &&& !resolves(trace, names, e.node())
    &&& e == name_failure(trace, names, e.node())
    &&& forall|k: InstantiationKey|
        is_node(trace, k) && key_lt(k, e.node()) ==> resolves(trace, names, k)
}

/// `g` is the causal graph of `trace`, named by `names`.
pub open spec fn is_graph_of(g: InstantiationGraph, trace: Trace, names: TermNames) -> bool {
    &&& g.nodes@ == graph_nodes(trace)
    &&& g.edge_view() == graph_edges(trace)
    &&& g.name_view() == graph_names(trace, names)
}

/// `result` is what building the causal graph of `trace` comes to: the graph
/// where every node has a name, else the first failure.
pub open spec fn is_outcome_of(
    result: Result<InstantiationGraph, GraphError>,
    trace: Trace,
    names: TermNames,
) -> bool {
    match result {
        Ok(g) => all_resolve(trace, names) && is_graph_of(g, trace, names),
        Err(e) => is_first_failure(trace, names, e),
    }
}

/// One of the first `m` terms that `v` used is a trigger term that `blame`
/// holds `u` responsible for.
pub open spec fn use_among(
    trace: Trace,
    blame: Map<TermId, InstantiationKey>,
    v: InstantiationKey,
    m: int,
    u: InstantiationKey,
) -> bool {
    exists|j: int| 0 <= j < m && blames_use(blame, #[trigger] used_terms(trace, v)[j], u)
}

proof fn lemma_use_among_step(
    trace: Trace,
    blame: Map<TermId, InstantiationKey>,
    v: InstantiationKey,
    m: int,
    u: InstantiationKey,
)
    requires
        0 <= m < used_terms(trace, v).len(),
    ensures
        use_among(trace, blame, v, m + 1, u) <==> use_among(trace, blame, v, m, u) || blames_use(
            blame,
            used_terms(trace, v)[m],
            u,
        ),
{
    let used = used_terms(trace, v);
    if use_among(trace, blame, v, m + 1, u) {
        let j = choose|j: int| 0 <= j < m + 1 && blames_use(blame, #[trigger] used[j], u);
        if j < m {
            assert(use_among(trace, blame, v, m, u));
        }
    }
    if use_among(trace, blame, v, m, u) {
        let j = choose|j: int| 0 <= j < m && blames_use(blame, #[trigger] used[j], u);
        assert(0 <= j < m + 1 && blames_use(blame, used[j], u));
    }
    if blames_use(blame, used[m], u) {
        assert(0 <= m < m + 1 && blames_use(blame, used[m], u));
    }
}

/// The map of edges has `v` among the targets of `u`.
pub open spec fn linked(
    edges: Map<InstantiationKey, BTreeSet<InstantiationKey>>,
    u: InstantiationKey,
    v: InstantiationKey,
) -> bool {
    edges.contains_key(u) && edges[u]@.contains(v)
}

/// Connects the instantiations that `blame` relates: an edge leads from the
/// instantiation that `blame` gives for a term to every instantiation that a
/// trigger match fired on that term. A trigger term without blame gives no
/// edge, and neither does an equality.
pub fn causal_edges(
    records: &BTreeMap<InstantiationKey, InstantiationRecord>,
    blame: &HashMap<TermId, InstantiationKey>,
) -> (edges: BTreeMap<InstantiationKey, BTreeSet<InstantiationKey>>)
    ensures
        edge_sets(edges@) == edges_with(trace_of(records@), blame@),
{
    let keys = map_keys(records);
    let ghost trace = trace_of(records@);
    let mut edges: BTreeMap<InstantiationKey, BTreeSet<InstantiationKey>> = BTreeMap::new();
    let mut i: usize = 0;
    while i < keys.len()
        invariant
            i <= keys.len(),
            trace == trace_of(records@),
            enumerates(keys@, trace),
            forall|u: InstantiationKey, v: InstantiationKey|
                linked(edges@, u, v) <==> among(keys@, i as int, v) && triggers_with(
                    trace,
                    blame@,
                    u,
                    v,
                ),
            forall|u: InstantiationKey|
                edges@.contains_key(u) ==> exists|v: InstantiationKey| linked(edges@, u, v),
        decreases keys.len() - i,
    {
        let v = keys[i];
        assert(keys@.contains(v));
        let ghost mut done: int = 0;
        if let Some(record) = records.get(&v) {
            if let Origin::NewMatch { used, .. } = &record.origin {
                let mut j: usize = 0;
                assert(used@ == used_terms(trace, v));
                assert forall|u: InstantiationKey| !use_among(trace, blame@, v, 0, u) by {}
                while j < used.len()
                    invariant
                        j <= used.len(),
                        i < keys.len(),
                        v == keys@[i as int],
                        is_node(trace, v),
                        used@ == used_terms(trace, v),
                        forall|u: InstantiationKey, w: InstantiationKey|
                            linked(edges@, u, w) <==> (among(keys@, i as int, w) && triggers_with(
                                trace,
                                blame@,
                                u,
                                w,
                            )) || (w == v && use_among(trace, blame@, v, j as int, u)),
                        forall|u: InstantiationKey|
                            edges@.contains_key(u) ==> exists|w: InstantiationKey|
                                linked(edges@, u, w),
                    decreases used.len() - j,
                {
                    let ghost before = edges@;
                    let ghost mut source: Option<InstantiationKey> = None;
                    match used[j] {
                        MatchedTerm::Trigger(t) => {
                            if let Some(responsible) = blame.get(&t) {
                                let u = *responsible;
                                let mut targets = match edges.remove(&u) {
                                    Some(s) => s,
                                    None => BTreeSet::new(),
                                };
                                targets.insert(v);
                                edges.insert(u, targets);
                                proof {
                                    source = Some(u);
                                    assert(linked(edges@, u, v));
                                }
                            }
                        },
                        MatchedTerm::Equality(_, _) => {},
                    }
                    proof {
                        assert forall|u: InstantiationKey, w: InstantiationKey|
                            linked(edges@, u, w) <==> linked(before, u, w) || (source == Some(u)
                                && w == v) by {}
                        assert forall|u: InstantiationKey|
                            blames_use(blame@, used@[j as int], u) <==> source == Some(u) by {}
                        assert forall|u: InstantiationKey, w: InstantiationKey|
                            linked(edges@, u, w) <==> (among(keys@, i as int, w) && triggers_with(
                                trace,
                                blame@,
                                u,
                                w,
                            )) || (w == v && use_among(trace, blame@, v, j + 1, u)) by {
                            lemma_use_among_step(trace, blame@, v, j as int, u);
                            assert(linked(edges@, u, w) <==> linked(before, u, w) || (source
                                == Some(u) && w == v));
                            assert(blames_use(blame@, used@[j as int], u) <==> source == Some(u));
                            assert(linked(before, u, w) <==> (among(keys@, i as int, w)
                                && triggers_with(trace, blame@, u, w)) || (w == v && use_among(
                                trace,
                                blame@,
                                v,
                                j as int,
                                u,
                            )));
                        }
                        assert forall|u: InstantiationKey| edges@.contains_key(u) implies exists|
                            w: InstantiationKey,
                        |
                            linked(edges@, u, w) by {
                            if source == Some(u) {
                                assert(linked(edges@, u, v));
                            } else {
                                let w = choose|w: InstantiationKey| linked(before, u, w);
                                assert(linked(edges@, u, w));
                            }
                        }
                    }
                    j += 1;
                }
                proof {
                    done = used@.len() as int;
                }
            }
        }
        proof {
            assert forall|u: InstantiationKey, w: InstantiationKey|
                linked(edges@, u, w) <==> among(keys@, i + 1, w) && triggers_with(
                    trace,
                    blame@,
                    u,
                    w,
                ) by {
                lemma_among_step(keys@, i as int, w);
                if is_node(trace, v) {
                    assert(done == used_terms(trace, v).len());
                    assert(triggers_with(trace, blame@, u, v) <==> use_among(
                        trace,
                        blame@,
                        v,
                        done,
                        u,
                    ));
                }
            }
        }
        i += 1;
    }
    proof {
        let target = edges_with(trace, blame@);
        assert forall|u: InstantiationKey, w: InstantiationKey|
            linked(edges@, u, w) <==> triggers_with(trace, blame@, u, w) by {
            lemma_among_all(keys@, trace.dom(), w);
        }
        assert forall|u: InstantiationKey| edges@.contains_key(u) <==> target.contains_key(u) by {
            if edges@.contains_key(u) {
                let w = choose|w: InstantiationKey| linked(edges@, u, w);
                assert(triggers_with(trace, blame@, u, w));
            }
            if target.contains_key(u) {
                let w = choose|w: InstantiationKey| triggers_with(trace, blame@, u, w);
                assert(linked(edges@, u, w));
            }
        }
        assert forall|u: InstantiationKey| edges@.contains_key(u) implies edge_sets(edges@)[u]
            =~= target[u] by {
            assert forall|w: InstantiationKey| edges@[u]@.contains(w) <==> target[u].contains(
                w,
            ) by {
                assert(linked(edges@, u, w) <==> triggers_with(trace, blame@, u, w));
            }
        }
        assert(edge_sets(edges@) =~= target);
    }
    edges
}

/// Collects the nodes of the causal graph of `records` and names each after
/// the quantifier that it instantiates, as `terms` declares it. The first
/// node whose quantifier `terms` does not name ends the pass with an error.
pub fn named_nodes(
    records: &BTreeMap<InstantiationKey, InstantiationRecord>,
    terms: &HashMap<TermId, Option<String>>,
) -> (result: Result<(BTreeSet<InstantiationKey>, BTreeMap<InstantiationKey, String>), GraphError>)
    ensures
        match result {
            Ok((nodes, names)) => {
                &&& all_resolve(trace_of(records@), term_names_of(terms@))
                &&& nodes@ == graph_nodes(trace_of(records@))
                &&& name_seqs(names@) == graph_names(trace_of(records@), term_names_of(terms@))
            },
            Err(e) => is_first_failure(trace_of(records@), term_names_of(terms@), e),
        },
{
    let keys = map_keys(records);
    let ghost trace = trace_of(records@);
    let ghost table = term_names_of(terms@);
    let mut nodes: BTreeSet<InstantiationKey> = BTreeSet::new();
    let mut names: BTreeMap<InstantiationKey, String> = BTreeMap::new();
    let mut i: usize = 0;
    while i < keys.len()
        invariant
            i <= keys.len(),
            trace == trace_of(records@),
            table == term_names_of(terms@),
            enumerates(keys@, trace),
            forall|k: InstantiationKey| #[trigger]
                nodes@.contains(k) <==> among(keys@, i as int, k) && is_node(trace, k),
            forall|k: InstantiationKey| #[trigger]
                names@.contains_key(k) <==> among(keys@, i as int, k) && is_node(trace, k),
            forall|k: InstantiationKey| #[trigger]
                names@.contains_key(k) ==> resolves(trace, table, k) && names@[k]@
                    == table[quantifier_of(trace, k)]->0,
        decreases keys.len() - i,
    {
        let k = keys[i];
        assert(keys@.contains(k));
        assert(trace.contains_key(k) && trace[k] == records@[k]@);
        if let Some(record) = records.get(&k) {
            if let Origin::NewMatch { quantifier, .. } = &record.origin {
                assert(is_node(trace, k) && quantifier_of(trace, k) == *quantifier);
                match terms.get(quantifier) {
                    Some(Some(name)) => {
                        assert(table[*quantifier] == Some(name@));
                        nodes.insert(k);
                        names.insert(k, name.clone());
                    },
                    Some(None) => {
                        proof {
                            assert(table[*quantifier] is None);
                            assert forall|other: InstantiationKey|
                                is_node(trace, other) && key_lt(other, k) implies resolves(
                                trace,
                                table,
                                other,
                            ) by {
                                lemma_among_before(keys@, trace.dom(), i as int, other);
                                assert(names@.contains_key(other));
                            }
                        }
                        return Err(GraphError::UnnamedTerm { node: k, term: *quantifier });
                    },
                    None => {
                        proof {
                            assert(!table.contains_key(*quantifier));
                            assert forall|other: InstantiationKey|
                                is_node(trace, other) && key_lt(other, k) implies resolves(
                                trace,
                                table,
                                other,
                            ) by {
                                lemma_among_before(keys@, trace.dom(), i as int, other);
                                assert(names@.contains_key(other));
                            }
                        }
                        return Err(GraphError::UndefinedTerm { node: k, term: *quantifier });
                    },
                }
            }
        }
        proof {
            assert forall|other: InstantiationKey|
                nodes@.contains(other) <==> among(keys@, i + 1, other) && is_node(
                    trace,
                    other,
                ) by {
                lemma_among_step(keys@, i as int, other);
            }
            assert forall|other: InstantiationKey|
                names@.contains_key(other) <==> among(keys@, i + 1, other) && is_node(
                    trace,
                    other,
                ) by {
                lemma_among_step(keys@, i as int, other);
            }
        }
        i += 1;
    }
    proof {
        assert forall|k: InstantiationKey|
            among(keys@, keys@.len() as int, k) <==> trace.contains_key(k) by {
            lemma_among_all(keys@, trace.dom(), k);
        }
        assert forall|k: InstantiationKey| is_node(trace, k) implies resolves(trace, table, k) by {
            assert(names@.contains_key(k));
        }
        assert forall|k: InstantiationKey| is_node(trace, k) <==> nodes@.contains(k) by {}
        assert(nodes@ =~= graph_nodes(trace));
        assert(name_seqs(names@) =~= graph_names(trace, table));
    }
    Ok((nodes, names))
}

/// Builds the causal graph of the instantiations of `model`: the blame of
/// its terms first, then the edges that the blame gives, then the nodes with
/// their names.
pub fn make_instantiation_graph(model: &TraceModel) -> (result: Result<
    InstantiationGraph,
    GraphError,
>)
    ensures
        is_outcome_of(result, model.trace(), model.term_names()),
        result matches Ok(g) ==> g.wf(),
{
    let blame = attribute_blame(&model.instantiations);
    let edges = causal_edges(&model.instantiations, &blame);
    match named_nodes(&model.instantiations, &model.terms) {
        Ok((nodes, names)) => {
            let g = InstantiationGraph { edges, names, nodes };
            proof {
                lemma_graph_wf(g, model.trace(), model.term_names());
            }
            Ok(g)
        },
        Err(e) => Err(e),
    }
}

/// The causal graph of a trace holds the data model's invariant: edges run
/// between nodes, and the names are those of the nodes.
pub proof fn lemma_graph_wf(g: InstantiationGraph, trace: Trace, names: TermNames)
    requires
        is_graph_of(g, trace, names),
    ensures
        g.wf(),
{
    let blame = blame_of(trace);
    assert(g.name_view().dom() =~= g.nodes@);
    assert forall|u: InstantiationKey| #[trigger] g.edge_view().contains_key(u) implies g.nodes@.contains(
        u,
    ) && !g.edge_view()[u].is_empty() by {
        let v = choose|v: InstantiationKey| triggers_with(trace, blame, u, v);
        let j = choose|j: int|
            0 <= j < used_terms(trace, v).len() && blames_use(
                blame,
                #[trigger] used_terms(trace, v)[j],
                u,
            );
        let t = used_terms(trace, v)[j]->Trigger_0;
        lemma_blame_of(trace, t, u);
        assert(g.edge_view()[u].contains(v));
    }
}

/// An instantiation that was only discovered is no part of the causal graph:
/// it is no node, no edge starts or ends at it, and it has no name.
pub proof fn lemma_discovered_is_excluded(trace: Trace, names: TermNames, k: InstantiationKey)
    requires
        trace.contains_key(k),
        trace[k].origin is Discovered,
    ensures
        !graph_nodes(trace).contains(k),
        !graph_edges(trace).contains_key(k),
        forall|u: InstantiationKey|
            graph_edges(trace).contains_key(u) ==> !(#[trigger] graph_edges(trace)[u]).contains(k),
        !graph_names(trace, names).contains_key(k),
{
    if graph_edges(trace).contains_key(k) {
        let v = choose|v: InstantiationKey| triggers_with(trace, blame_of(trace), k, v);
        lemma_edge_has_blamed_trigger(trace, k, v);
    }
}

/// Every edge has its reason: the target was fired by a trigger match that
/// used a term for which the source is to blame.
pub proof fn lemma_edge_has_blamed_trigger(trace: Trace, u: InstantiationKey, v: InstantiationKey)
    requires
        graph_edges(trace).contains_key(u),
        graph_edges(trace)[u].contains(v),
    ensures
        is_node(trace, u),
        is_node(trace, v),
        exists|t: TermId|
            used_terms(trace, v).contains(MatchedTerm::Trigger(t)) && #[trigger] is_blamed(
                trace,
                t,
                u,
            ) && blame_of(trace).contains_pair(t, u),
{
    let blame = blame_of(trace);
    let j = choose|j: int|
        0 <= j < used_terms(trace, v).len() && blames_use(
            blame,
            #[trigger] used_terms(trace, v)[j],
            u,
        );
    let t = used_terms(trace, v)[j]->Trigger_0;
    lemma_blame_of(trace, t, u);
    assert(used_terms(trace, v)[j] == MatchedTerm::Trigger(t));
    assert(is_blamed(trace, t, u));
}

/// Building the graph of one model twice comes to the same: two outcomes for
/// the same trace and term table are the same failure, or graphs with the
/// same nodes, edges and names.
pub proof fn lemma_outcome_is_unique(
    first: Result<InstantiationGraph, GraphError>,
    second: Result<InstantiationGraph, GraphError>,
    trace: Trace,
    names: TermNames,
)
    requires
        is_outcome_of(first, trace, names),
        is_outcome_of(second, trace, names),
    ensures
        match (first, second) {
            (Ok(g), Ok(h)) => {
                &&& g.nodes@ == h.nodes@
                &&& g.edge_view() == h.edge_view()
                &&& g.name_view() == h.name_view()
            },
            (Err(e), Err(f)) => e == f,
            _ => false,
        },
{
    match (first, second) {
        (Err(e), Err(f)) => {
            assert(!key_lt(e.node(), f.node()) && !key_lt(f.node(), e.node()));
            assert(e.node() == f.node());
        },
        _ => {},
    }
}

} // verus!
