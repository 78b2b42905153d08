//! The causal graph as a node-link diagram: a `petgraph` graph that a viewer
//! can lay out and draw.

use crate::graph::InstantiationGraph;
use crate::keys::{
    among, lemma_among_all, lemma_among_excludes, lemma_among_step, lists, map_keys, set_keys,
};
use crate::model::InstantiationKey;
use crate::profiler::Profiler;
use petgraph::stable_graph::NodeIndex;
use petgraph::stable_graph::StableGraph;
use petgraph::Directed;
use std::collections::BTreeMap;
use vstd::multiset::Multiset;
use vstd::prelude::*;

verus! {

/// What a node of the diagram carries: the key of the instantiation and the
/// name of its quantifier.
pub type NodeData = (InstantiationKey, String);

/// `petgraph::stable_graph::StableGraph`. Nothing of what is in it is known
/// but through the functions below.
#[verifier::external_type_specification]
#[verifier::external_body]
#[verifier::reject_recursive_types(N)]
#[verifier::reject_recursive_types(E)]
#[verifier::reject_recursive_types(Ty)]
#[verifier::reject_recursive_types(Ix)]
pub struct ExStableGraph<N, E, Ty, Ix>(StableGraph<N, E, Ty, Ix>);

/// `petgraph::Directed`, the marker of a graph whose edges have a direction.
#[verifier::external_type_specification]
#[verifier::external_body]
pub struct ExDirected(Directed);

/// The nodes that a diagram holds: the weight of each, under its index.
pub uninterp spec fn diagram_nodes(
    d: StableGraph<((u64, usize), String), (), Directed, usize>,
) -> Map<usize, ((u64, usize), Seq<char>)>;

/// The edges that a diagram holds: the indices of source and target of each.
/// A diagram may hold an edge more than once.
pub uninterp spec fn diagram_edges(
    d: StableGraph<((u64, usize), String), (), Directed, usize>,
) -> Multiset<(usize, usize)>;

/// `StableGraph::with_capacity`, called for no nodes and no edges: the graph
/// that it makes holds none.
#[verifier::external_body]
fn empty_diagram() -> (d: StableGraph<NodeData, (), Directed, usize>)
    ensures
        diagram_nodes(d) == (Map::<usize, ((u64, usize), Seq<char>)>::empty()),
        diagram_edges(d) == (Multiset::<(usize, usize)>::empty()),
{
    StableGraph::with_capacity(0, 0)
}

/// `StableGraph::add_node`: the graph gains one node with the given weight,
/// under an index that no node of it had, and keeps its edges. With indices
/// of type `usize` the graph has no limit that the call could run into.
#[verifier::external_body]
fn add_node(
    d: &mut StableGraph<NodeData, (), Directed, usize>,
    key: InstantiationKey,
    name: String,
) -> (at: usize)
    ensures
        !diagram_nodes(*old(d)).contains_key(at),
        diagram_nodes(*final(d)) == diagram_nodes(*old(d)).insert(at, (key, name@)),
        diagram_edges(*final(d)) == diagram_edges(*old(d)),
{
    d.add_node((key, name)).index()
}

/// `StableGraph::add_edge`, between two nodes that the graph has: the graph
/// gains one edge from the first to the second, beside any that it has
/// between them, and keeps its nodes.
#[verifier::external_body]
fn add_edge(d: &mut StableGraph<NodeData, (), Directed, usize>, from: usize, to: usize)
    requires
        diagram_nodes(*old(d)).contains_key(from),
        diagram_nodes(*old(d)).contains_key(to),
    ensures
        diagram_nodes(*final(d)) == diagram_nodes(*old(d)),
        diagram_edges(*final(d)) == diagram_edges(*old(d)).insert((from, to)),
{
    d.add_edge(NodeIndex::new(from), NodeIndex::new(to), ());
}

/// `place` puts each node of a graph at an index of its own.
pub open spec fn is_placement(
    place: Map<InstantiationKey, usize>,
    nodes: Set<InstantiationKey>,
) -> bool {
    &&& place.dom() == nodes
    &&& forall|j: InstantiationKey, k: InstantiationKey|
        nodes.contains(j) && nodes.contains(k) && #[trigger] place[j] == #[trigger] place[k] ==> j
            == k
}

/// The nodes of the diagram `d` are those of `graph`, each at its place and
/// with its name.
pub open spec fn depicts_nodes(
    d: StableGraph<NodeData, (), Directed, usize>,
    graph: InstantiationGraph,
    place: Map<InstantiationKey, usize>,
) -> bool {
    &&& forall|at: usize| #[trigger]
        diagram_nodes(d).contains_key(at) ==> exists|k: InstantiationKey|
            graph.nodes@.contains(k) && #[trigger] place[k] == at
    &&& forall|k: InstantiationKey| #[trigger]
        graph.nodes@.contains(k) ==> diagram_nodes(d).contains_pair(
            place[k],
            (k, graph.name_view()[k]),
        )
}

/// The edges of the diagram `d` are those of `graph`, each once, between the
/// places of its ends.
pub open spec fn depicts_edges(
    d: StableGraph<NodeData, (), Directed, usize>,
    graph: InstantiationGraph,
    place: Map<InstantiationKey, usize>,
) -> bool {
    &&& forall|u: InstantiationKey, v: InstantiationKey|
        graph.nodes@.contains(u) && graph.nodes@.contains(v) ==> #[trigger] diagram_edges(
            d,
        ).count((place[u], place[v])) == (if graph.has_edge(u, v) {
            1nat
        } else {
            0nat
        })
    &&& forall|a: usize, b: usize| #[trigger]
        diagram_edges(d).count((a, b)) > 0 ==> diagram_nodes(d).contains_key(a)
            && diagram_nodes(d).contains_key(b)
}

/// The diagram `d` shows `graph`, with each node at the index that `place`
/// gives it.
pub open spec fn depicts(
    d: StableGraph<NodeData, (), Directed, usize>,
    graph: InstantiationGraph,
    place: Map<InstantiationKey, usize>,
) -> bool {
    &&& is_placement(place, graph.nodes@)
    &&& depicts_nodes(d, graph, place)
    &&& depicts_edges(d, graph, place)
}

/// Makes the diagram of the causal graph that a profile holds.
pub fn generate_graph(profiler: &Profiler) -> (d: StableGraph<NodeData, (), Directed, usize>)
    ensures
        exists|place: Map<InstantiationKey, usize>| depicts(d, profiler.graph(), place),
{
    diagram_of(profiler.instantiation_graph())
}

/// Makes the diagram of a causal graph: a node for each node of the graph,
/// which carries its key and its name, and one edge for each edge of the
/// graph. At which index a node stands is left to the diagram.
pub fn diagram_of(graph: &InstantiationGraph) -> (d: StableGraph<
    NodeData,
    (),
    Directed,
    usize,
>)
    requires
        graph.wf(),
    ensures
        exists|place: Map<InstantiationKey, usize>| depicts(d, *graph, place),
{
    let mut d = empty_diagram();
    let mut places: BTreeMap<InstantiationKey, usize> = BTreeMap::new();
    let nodes = set_keys(&graph.nodes);
    let mut i: usize = 0;
    while i < nodes.len()
        invariant
            i <= nodes.len(),
            graph.wf(),
            lists(nodes@, graph.nodes@),
            diagram_edges(d) == (Multiset::<(usize, usize)>::empty()),
            forall|k: InstantiationKey| #[trigger]
                places@.contains_key(k) <==> among(nodes@, i as int, k),
            forall|j: InstantiationKey, k: InstantiationKey|
                places@.contains_key(j) && places@.contains_key(k) && #[trigger] places@[j]
                    == #[trigger] places@[k] ==> j == k,
            forall|at: usize| #[trigger]
                diagram_nodes(d).contains_key(at) ==> exists|k: InstantiationKey|
                    places@.contains_key(k) && #[trigger] places@[k] == at,
            forall|k: InstantiationKey| #[trigger]
                places@.contains_key(k) ==> diagram_nodes(d).contains_pair(
                    places@[k],
                    (k, graph.name_view()[k]),
                ),
        decreases nodes.len() - i,
    {
        let k = nodes[i];
        let ghost placed = places@;
        let ghost drawn = diagram_nodes(d);
        proof {
            assert(nodes@.contains(k));
            assert(graph.name_view().dom().contains(k));
            lemma_among_excludes(nodes@, i as int);
        }
        if let Some(name) = graph.names.get(&k) {
            let at = add_node(&mut d, k, name.clone());
            places.insert(k, at);
            proof {
                assert forall|j: InstantiationKey| placed.contains_key(j) implies placed[j]
                    != at by {
                    assert(drawn.contains_pair(placed[j], (j, graph.name_view()[j])));
                }
                assert forall|at2: usize| #[trigger]
                    diagram_nodes(d).contains_key(at2) implies exists|k2: InstantiationKey|
                    places@.contains_key(k2) && #[trigger] places@[k2] == at2 by {
                    if at2 == at {
                        assert(places@.contains_key(k) && places@[k] == at2);
                    } else {
                        assert(drawn.contains_key(at2));
                        let k2 = choose|k2: InstantiationKey|
                            placed.contains_key(k2) && #[trigger] placed[k2] == at2;
                        assert(places@.contains_key(k2) && places@[k2] == at2);
                    }
                }
            }
        }
        proof {
            assert forall|other: InstantiationKey| #[trigger]
                places@.contains_key(other) <==> among(nodes@, i + 1, other) by {
                lemma_among_step(nodes@, i as int, other);
            }
        }
        i += 1;
    }
    let ghost place = places@;
    proof {
        assert forall|k: InstantiationKey| place.contains_key(k) <==> graph.nodes@.contains(k) by {
            lemma_among_all(nodes@, graph.nodes@, k);
        }
        assert(place.dom() =~= graph.nodes@);
    }
    let sources = map_keys(&graph.edges);
    let mut i: usize = 0;
    while i < sources.len()
        invariant
            i <= sources.len(),
            graph.wf(),
            place == places@,
            lists(sources@, graph.edges@.dom()),
            is_placement(place, graph.nodes@),
            depicts_nodes(d, *graph, place),
            forall|u: InstantiationKey, v: InstantiationKey|
                graph.nodes@.contains(u) && graph.nodes@.contains(v) ==> #[trigger] diagram_edges(
                    d,
                ).count((place[u], place[v])) == (if among(sources@, i as int, u)
                    && graph.has_edge(u, v) {
                    1nat
                } else {
                    0nat
                }),
            forall|a: usize, b: usize| #[trigger]
                diagram_edges(d).count((a, b)) > 0 ==> diagram_nodes(d).contains_key(a)
                    && diagram_nodes(d).contains_key(b),
        decreases sources.len() - i,
    {
        let u = sources[i];
        proof {
            assert(sources@.contains(u));
            assert(graph.edge_view().contains_key(u));
            lemma_among_excludes(sources@, i as int);
        }
        let ghost mut met: int = 0;
        let ghost mut ends: Seq<InstantiationKey> = Seq::empty();
        if let Some(targets) = graph.edges.get(&u) {
            if let Some(from) = places.get(&u) {
                let from = *from;
                let ends_of_u = set_keys(targets);
                let mut j: usize = 0;
                assert(graph.edge_view()[u] == targets@);
                while j < ends_of_u.len()
                    invariant
                        j <= ends_of_u.len(),
                        i < sources.len(),
                        u == sources@[i as int],
                        graph.wf(),
                        place == places@,
                        from == place[u],
                        graph.nodes@.contains(u),
                        graph.edge_view().contains_key(u),
                        graph.edge_view()[u] == targets@,
                        !among(sources@, i as int, u),
                        lists(ends_of_u@, targets@),
                        is_placement(place, graph.nodes@),
                        depicts_nodes(d, *graph, place),
                        forall|s: InstantiationKey, v: InstantiationKey|
                            graph.nodes@.contains(s) && graph.nodes@.contains(v)
                                ==> #[trigger] diagram_edges(d).count((place[s], place[v])) == (if (
                            among(sources@, i as int, s) && graph.has_edge(s, v)) || (s == u
                                && among(ends_of_u@, j as int, v)) {
                                1nat
                            } else {
                                0nat
                            }),
                        forall|a: usize, b: usize| #[trigger]
                            diagram_edges(d).count((a, b)) > 0 ==> diagram_nodes(d).contains_key(a)
                                && diagram_nodes(d).contains_key(b),
                    decreases ends_of_u.len() - j,
                {
                    let v = ends_of_u[j];
                    proof {
                        assert(ends_of_u@.contains(v));
                        assert(graph.has_edge(u, v));
                        assert(graph.nodes@.contains(v));
                        lemma_among_excludes(ends_of_u@, j as int);
                    }
                    if let Some(to) = places.get(&v) {
                        let to = *to;
                        let ghost before = diagram_edges(d);
                        assert(diagram_nodes(d).contains_pair(
                            place[u],
                            (u, graph.name_view()[u]),
                        ));
                        assert(diagram_nodes(d).contains_pair(
                            place[v],
                            (v, graph.name_view()[v]),
                        ));
                        add_edge(&mut d, from, to);
                        proof {
                            assert forall|s: InstantiationKey, w: InstantiationKey|
                                graph.nodes@.contains(s) && graph.nodes@.contains(w)
                                    implies #[trigger] diagram_edges(d).count(
                                (place[s], place[w]),
                            ) == (if (among(sources@, i as int, s) && graph.has_edge(s, w)) || (s
                                == u && among(ends_of_u@, j + 1, w)) {
                                1nat
                            } else {
                                0nat
                            }) by {
                                lemma_among_step(ends_of_u@, j as int, w);
                                if s == u && w == v {
                                    assert(before.count((place[u], place[v])) == 0);
                                } else {
                                    assert((place[s], place[w]) != (from, to));
                                    assert(before.count((place[s], place[w])) == diagram_edges(
                                        d,
                                    ).count((place[s], place[w])));
                                }
                            }
                        }
                    }
                    j += 1;
                }
                proof {
                    met = ends_of_u@.len() as int;
                    ends = ends_of_u@;
                    assert forall|v: InstantiationKey| among(ends, met, v) <==> graph.has_edge(
                        u,
                        v,
                    ) by {
                        lemma_among_all(ends, targets@, v);
                    }
                }
            }
        }
        proof {
            assert forall|s: InstantiationKey, v: InstantiationKey|
                graph.nodes@.contains(s) && graph.nodes@.contains(v) implies #[trigger] diagram_edges(
                d,
            ).count((place[s], place[v])) == (if among(sources@, i + 1, s) && graph.has_edge(
                s,
                v,
            ) {
                1nat
            } else {
                0nat
            }) by {
                lemma_among_step(sources@, i as int, s);
            }
        }
        i += 1;
    }
    proof {
        assert forall|u: InstantiationKey, v: InstantiationKey|
            graph.nodes@.contains(u) && graph.nodes@.contains(v) implies #[trigger] diagram_edges(
            d,
        ).count((place[u], place[v])) == (if graph.has_edge(u, v) {
            1nat
        } else {
            0nat
        }) by {
            lemma_among_all(sources@, graph.edges@.dom(), u);
        }
        assert(depicts(d, *graph, place));
    }
    d
}

} // verus!
