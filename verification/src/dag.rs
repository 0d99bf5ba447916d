//! The flowsheet as a directed graph of `petgraph`, and the order in which
//! its nodes are evaluated (a topological sort by `petgraph`).

use vstd::prelude::*;

use std::collections::HashMap;

use petgraph::graph::{DiGraph, Graph, NodeIndex};
use petgraph::Directed;

use crate::error::EngineError;
use crate::model::{Connection, FlowGraph, Node};

verus! {

broadcast use vstd::std_specs::hash::group_hash_axioms;

#[verifier::external_type_specification]
#[verifier::external_body]
#[verifier::reject_recursive_types(N)]
#[verifier::reject_recursive_types(E)]
#[verifier::reject_recursive_types(Ty)]
#[verifier::reject_recursive_types(Ix)]
pub struct ExGraph<N, E, Ty, Ix>(Graph<N, E, Ty, Ix>);

#[verifier::external_type_specification]
#[verifier::external_body]
pub struct ExDirected(Directed);

/// The node weights of a graph (here the node identifiers), by node index.
pub uninterp spec fn dag_weights(g: Graph<u128, (), Directed, u32>) -> Seq<u128>;

/// The edges of a graph as (source index, target index), in the order they
/// were added.
pub uninterp spec fn dag_edges(g: Graph<u128, (), Directed, u32>) -> Seq<(usize, usize)>;

/// What `petgraph::algo::toposort` returns for a graph with `node_count`
/// nodes and these edges: the node indices in its order, or the index of a
/// node on a cycle.
pub uninterp spec fn toposort_of(node_count: nat, edges: Seq<(usize, usize)>) -> Result<Seq<usize>, usize>;

/// `s` lists each of the nodes `0..n` once, every edge's source before its
/// target.
pub open spec fn is_topological_order(n: nat, edges: Seq<(usize, usize)>, s: Seq<usize>) -> bool {
    &&& s.len() == n
    &&& s.no_duplicates()
    &&& forall|i: int| 0 <= i < s.len() ==> #[trigger] s[i] < n
    &&& forall|k: int, i: int, j: int|
        #![trigger edges[k], s[i], s[j]]
        0 <= k < edges.len() && 0 <= i < s.len() && 0 <= j < s.len() && s[i] == edges[k].0
            && s[j] == edges[k].1 ==> i < j
}

/// A graph is acyclic exactly when its nodes have a topological order.
pub open spec fn is_acyclic(n: nat, edges: Seq<(usize, usize)>) -> bool {
    exists|s: Seq<usize>| is_topological_order(n, edges, s)
}

/// Creates an empty directed graph: `petgraph::graph::Graph::new`, which
/// allocates nothing and holds no node and no edge.
#[verifier::external_body]
fn dag_new() -> (g: DiGraph<u128, ()>)
    ensures
        dag_weights(g) == Seq::<u128>::empty(),
        dag_edges(g) == Seq::<(usize, usize)>::empty(),
{
    DiGraph::<u128, ()>::new()
}

/// `petgraph::graph::Graph::add_node`: appends a node with the weight, and
/// returns its index, the former node count. It panics when the index would
/// be `u32::MAX`, which the precondition excludes.
#[verifier::external_body]
fn dag_add_node(g: &mut DiGraph<u128, ()>, weight: u128) -> (idx: usize)
    requires
        dag_weights(*old(g)).len() < u32::MAX,
    ensures
        dag_weights(*final(g)) == dag_weights(*old(g)).push(weight),
        dag_edges(*final(g)) == dag_edges(*old(g)),
        idx == dag_weights(*old(g)).len(),
{
    g.add_node(weight).index()
}

/// `petgraph::graph::Graph::add_edge`: appends the edge `a -> b`. It panics
/// when an endpoint is not a node or the edge count would reach `u32::MAX`,
/// which the precondition excludes.
#[verifier::external_body]
fn dag_add_edge(g: &mut DiGraph<u128, ()>, a: usize, b: usize)
    requires
        a < dag_weights(*old(g)).len(),
        b < dag_weights(*old(g)).len(),
        dag_edges(*old(g)).len() < u32::MAX,
    ensures
        dag_weights(*final(g)) == dag_weights(*old(g)),
        dag_edges(*final(g)) == dag_edges(*old(g)).push((a, b)),
{
    g.add_edge(NodeIndex::new(a), NodeIndex::new(b), ());
}

/// `petgraph::algo::toposort`: as its documentation says, a vector of the
/// nodes in topological order (each node before its successors) when the
/// graph is acyclic, a `Cycle` error otherwise (self loops are cycles). Its
/// source visits every node, so the order holds each node once. Which of
/// the valid orders it picks is named, not stated.
#[verifier::external_body]
fn dag_toposort(g: &DiGraph<u128, ()>) -> (r: Result<Vec<usize>, usize>)
    ensures
        match r {
            Ok(v) => toposort_of(dag_weights(*g).len(), dag_edges(*g)) == Ok::<Seq<usize>, usize>(v@),
            Err(c) => toposort_of(dag_weights(*g).len(), dag_edges(*g)) == Err::<Seq<usize>, usize>(c),
        },
        r is Ok <==> is_acyclic(dag_weights(*g).len(), dag_edges(*g)),
        r matches Ok(v) ==> is_topological_order(dag_weights(*g).len(), dag_edges(*g), v@),
{
    match petgraph::algo::toposort(g, None) {
        Ok(order) => Ok(order.into_iter().map(|i| i.index()).collect()),
        Err(cycle) => Err(cycle.node_id().index()),
    }
}

/// The map from node identifier to node index that inserting the
/// identifiers one after another gives: the last index of each identifier.
pub open spec fn index_map(ids: Seq<u128>) -> Map<u128, usize>
    decreases ids.len(),
{
    if ids.len() == 0 {
        Map::empty()
    } else {
        index_map(ids.drop_last()).insert(ids.last(), (ids.len() - 1) as usize)
    }
}

/// The edges for the connections whose two endpoints the map knows, in the
/// order of the connections.
pub open spec fn edges_for(conns: Seq<Connection>, m: Map<u128, usize>) -> Seq<(usize, usize)>
    decreases conns.len(),
{
    if conns.len() == 0 {
        Seq::empty()
    } else {
        let prev = edges_for(conns.drop_last(), m);
        let c = conns.last();
        if m.contains_key(c.origin_node) && m.contains_key(c.target_node) {
            prev.push((m[c.origin_node], m[c.target_node]))
        } else {
            prev
        }
    }
}

pub(crate) proof fn lemma_index_map_bounds(ids: Seq<u128>)
    requires
        ids.len() <= usize::MAX,
    ensures
        forall|k: u128| #[trigger] index_map(ids).contains_key(k) ==> index_map(ids)[k] < ids.len(),
        forall|k: u128| #[trigger] index_map(ids).contains_key(k) <==> ids.contains(k),
        forall|k: u128| #[trigger] index_map(ids).contains_key(k) ==> ids[index_map(ids)[k] as int] == k,
    decreases ids.len(),
{
    if ids.len() > 0 {
        lemma_index_map_bounds(ids.drop_last());
        let prev = index_map(ids.drop_last());
        assert forall|k: u128| #[trigger] index_map(ids).contains_key(k) implies index_map(ids)[k] < ids.len()
            && ids[index_map(ids)[k] as int] == k by {
            if k != ids.last() {
                assert(prev.contains_key(k));
                assert(ids.drop_last()[prev[k] as int] == k);
                assert(ids[prev[k] as int] == ids.drop_last()[prev[k] as int]);
            }
        }
        assert forall|k: u128| #[trigger] index_map(ids).contains_key(k) <==> ids.contains(k) by {
            if ids.contains(k) && k != ids.last() {
                let i = choose|i: int| 0 <= i < ids.len() && ids[i] == k;
                assert(ids.drop_last()[i] == k);
            }
            if ids.drop_last().contains(k) {
                let i = choose|i: int| 0 <= i < ids.drop_last().len() && ids.drop_last()[i] == k;
                assert(ids[i] == k);
            }
        }
    }
}

proof fn lemma_edges_for_bounds(conns: Seq<Connection>, m: Map<u128, usize>, n: nat)
    requires
        forall|k: u128| #[trigger] m.contains_key(k) ==> m[k] < n,
    ensures
        edges_for(conns, m).len() <= conns.len(),
        forall|i: int|
            0 <= i < edges_for(conns, m).len() ==> (#[trigger] edges_for(conns, m)[i]).0 < n
                && edges_for(conns, m)[i].1 < n,
    decreases conns.len(),
{
    if conns.len() > 0 {
        lemma_edges_for_bounds(conns.drop_last(), m, n);
    }
}

/// Builds the directed graph of a flowsheet: one graph node per flowsheet
/// node, weighted with its identifier, and one edge per connection whose
/// two endpoints are nodes of the flowsheet; with the map from node
/// identifier to graph index.
pub fn build_dag(graph: &FlowGraph) -> (r: Result<(DiGraph<u128, ()>, HashMap<u128, usize>), EngineError>)
    requires
        graph.nodes@.len() < u32::MAX,
        graph.connections@.len() < u32::MAX,
    ensures
        r matches Ok((dag, node_map)) && {
            &&& dag_weights(dag) == graph.node_ids()
            &&& node_map@ == index_map(graph.node_ids())
            &&& dag_edges(dag) == edges_for(graph.connections@, node_map@)
        },
{
    let mut dag = dag_new();
    let mut node_map: HashMap<u128, usize> = HashMap::new();
    let n = graph.nodes.len();
    let mut i: usize = 0;
    while i < n
        invariant
            i <= n,
            n == graph.nodes@.len(),
            n < u32::MAX,
            dag_weights(dag) == graph.node_ids().take(i as int),
            dag_edges(dag) == Seq::<(usize, usize)>::empty(),
            node_map@ == index_map(graph.node_ids().take(i as int)),
        decreases n - i,
    {
        let id = graph.nodes[i].id;
        let idx = dag_add_node(&mut dag, id);
        node_map.insert(id, idx);
        assert(graph.node_ids().take(i + 1).drop_last() =~= graph.node_ids().take(i as int));
        assert(graph.node_ids().take(i + 1) =~= graph.node_ids().take(i as int).push(id));
        i = i + 1;
    }
    assert(graph.node_ids().take(n as int) =~= graph.node_ids());
    proof {
        lemma_index_map_bounds(graph.node_ids());
    }
    let m = graph.connections.len();
    let mut j: usize = 0;
    while j < m
        invariant
            j <= m,
            m == graph.connections@.len(),
            m < u32::MAX,
            dag_weights(dag) == graph.node_ids(),
            node_map@ == index_map(graph.node_ids()),
            forall|k: u128| #[trigger] node_map@.contains_key(k) ==> node_map@[k] < graph.node_ids().len(),
            dag_edges(dag) == edges_for(graph.connections@.take(j as int), node_map@),
        decreases m - j,
    {
        let conn = &graph.connections[j];
        proof {
            lemma_edges_for_bounds(graph.connections@.take(j as int), node_map@, graph.node_ids().len());
        }
        assert(graph.connections@.take(j + 1).drop_last() =~= graph.connections@.take(j as int));
        let origin = node_map.get(&conn.origin_node);
        let target = node_map.get(&conn.target_node);
        match (origin, target) {
            (Some(o), Some(t)) => {
                dag_add_edge(&mut dag, *o, *t);
            },
            _ => {},
        }
        j = j + 1;
    }
    assert(graph.connections@.take(m as int) =~= graph.connections@);
    Ok((dag, node_map))
}

/// Each index of `order`, replaced by an identifier that the map sends to it.
pub open spec fn ids_match_order(ids: Seq<u128>, node_map: Map<u128, usize>, order: Seq<usize>) -> bool {
    &&& ids.len() == order.len()
    &&& forall|j: int| 0 <= j < ids.len() ==> #[trigger] node_map.contains_key(ids[j]) && node_map[ids[j]] == order[j]
}

/// Some identifier is sent to index `i`.
pub open spec fn is_image(node_map: Map<u128, usize>, i: usize) -> bool {
    exists|k: u128| #[trigger] node_map.contains_key(k) && node_map[k] == i
}

/// Every index of `order` is the image of some identifier.
pub open spec fn order_covered(node_map: Map<u128, usize>, order: Seq<usize>) -> bool {
    forall|j: int| 0 <= j < order.len() ==> #[trigger] is_image(node_map, order[j])
}

/// Maps node indices back to node identifiers through the inverse of
/// the map (where two identifiers share an index, either one).
pub fn ids_in_order(order: &Vec<usize>, node_map: &HashMap<u128, usize>) -> (ids: Vec<u128>)
    requires
        order_covered(node_map@, order@),
    ensures
        ids_match_order(ids@, node_map@, order@),
{
    let mut reverse: HashMap<usize, u128> = HashMap::new();
    for (id, idx) in it: node_map.iter()
        invariant
            forall|i: usize| #[trigger] reverse@.contains_key(i) ==> node_map@.contains_key(reverse@[i]) && node_map@[reverse@[i]] == i,
            forall|j: int| 0 <= j < it.index() ==> reverse@.contains_key(*(#[trigger] it.seq()[j]).1),
    {
        reverse.insert(*idx, *id);
    }
    let mut ids: Vec<u128> = Vec::new();
    let n = order.len();
    for j in 0..n
        invariant
            n == order@.len(),
            order_covered(node_map@, order@),
            forall|i: usize| #[trigger] reverse@.contains_key(i) ==> node_map@.contains_key(reverse@[i]) && node_map@[reverse@[i]] == i,
            forall|i: usize| #[trigger] is_image(node_map@, i) ==> reverse@.contains_key(i),
            ids_match_order(ids@, node_map@, order@.take(j as int)),
    {
        let idx = order[j];
        assert(is_image(node_map@, order@[j as int]));
        let id = match reverse.get(&idx) {
            Some(id) => *id,
            None => { assert(false); 0 },
        };
        ids.push(id);
        assert(order@.take(j + 1) =~= order@.take(j as int).push(idx));
    }
    assert(order@.take(n as int) =~= order@);
    ids
}

/// The flowsheet nodes in evaluation order: a topological sort of the graph
/// by `petgraph`, mapped back to node identifiers; `CycleDetected` where
/// the graph has a cycle.
pub fn compute_order(dag: &DiGraph<u128, ()>, node_map: &HashMap<u128, usize>) -> (r: Result<Vec<u128>, EngineError>)
    requires
        is_acyclic(dag_weights(*dag).len(), dag_edges(*dag)) ==> forall|i: usize|
            i < dag_weights(*dag).len() ==> #[trigger] is_image(node_map@, i),
    ensures
        r is Ok <==> is_acyclic(dag_weights(*dag).len(), dag_edges(*dag)),
        r matches Err(e) ==> e is CycleDetected,
        r matches Ok(ids) ==> {
            let order = ids@.map_values(|id: u128| node_map@[id]);
            &&& ids_match_order(ids@, node_map@, order)
            &&& toposort_of(dag_weights(*dag).len(), dag_edges(*dag)) == Ok::<Seq<usize>, usize>(order)
            &&& is_topological_order(dag_weights(*dag).len(), dag_edges(*dag), order)
        },
{
    match dag_toposort(dag) {
        Ok(order) => {
            assert forall|j: int| 0 <= j < order@.len() implies #[trigger] is_image(node_map@, order@[j]) by {
                assert(order@[j] < dag_weights(*dag).len());
            }
            let ids = ids_in_order(&order, node_map);
            assert forall|j: int| 0 <= j < ids@.len() implies ids@.map_values(|id: u128| node_map@[id])[j] == order@[j] by {
                assert(node_map@.contains_key(ids@[j]));
            }
            assert(ids@.map_values(|id: u128| node_map@[id]) =~= order@);
            Ok(ids)
        },
        Err(_) => Err(EngineError::CycleDetected),
    }
}

/// `ids` lists each node of the flowsheet once, and for every connection
/// between two of its nodes, the origin comes before the target.
pub open spec fn is_evaluation_order(graph: FlowGraph, ids: Seq<u128>) -> bool {
    let conns = graph.connections@;
    &&& ids.len() == graph.nodes@.len()
    &&& ids.no_duplicates()
    &&& forall|i: int| 0 <= i < ids.len() ==> graph.has_node(#[trigger] ids[i])
    &&& forall|k: int, i: int, j: int|
        #![trigger conns[k], ids[i], ids[j]]
        0 <= k < conns.len() && 0 <= i < ids.len() && 0 <= j < ids.len() && ids[i] == conns[k].origin_node
            && ids[j] == conns[k].target_node ==> i < j
}

/// The flowsheet's nodes can be evaluated upstream first: it has no cycle.
pub open spec fn has_evaluation_order(graph: FlowGraph) -> bool {
    exists|ids: Seq<u128>| is_evaluation_order(graph, ids)
}

proof fn lemma_edges_for_has(conns: Seq<Connection>, m: Map<u128, usize>, k: int)
    requires
        0 <= k < conns.len(),
        m.contains_key(conns[k].origin_node),
        m.contains_key(conns[k].target_node),
    ensures
        exists|e: int|
            0 <= e < edges_for(conns, m).len() && #[trigger] edges_for(conns, m)[e] == (
            m[conns[k].origin_node],
            m[conns[k].target_node],
            ),
    decreases conns.len(),
{
    let prev = edges_for(conns.drop_last(), m);
    if k < conns.len() - 1 {
        lemma_edges_for_has(conns.drop_last(), m, k);
        let e = choose|e: int|
            0 <= e < prev.len() && #[trigger] prev[e] == (m[conns.drop_last()[k].origin_node], m[conns.drop_last()[k].target_node]);
        assert(edges_for(conns, m)[e] == prev[e]);
    } else {
        assert(edges_for(conns, m)[prev.len() as int] == (m[conns[k].origin_node], m[conns[k].target_node]));
    }
}

proof fn lemma_edges_for_source(conns: Seq<Connection>, m: Map<u128, usize>, e: int)
    requires
        0 <= e < edges_for(conns, m).len(),
    ensures
        exists|k: int|
            0 <= k < conns.len() && m.contains_key((#[trigger] conns[k]).origin_node) && m.contains_key(conns[k].target_node)
                && edges_for(conns, m)[e] == (m[conns[k].origin_node], m[conns[k].target_node]),
    decreases conns.len(),
{
    let prev = edges_for(conns.drop_last(), m);
    if e < prev.len() {
        lemma_edges_for_source(conns.drop_last(), m, e);
        let k = choose|k: int|
            0 <= k < conns.drop_last().len() && m.contains_key((#[trigger] conns.drop_last()[k]).origin_node)
                && m.contains_key(conns.drop_last()[k].target_node)
                && prev[e] == (m[conns.drop_last()[k].origin_node], m[conns.drop_last()[k].target_node]);
        assert(conns[k] == conns.drop_last()[k]);
    } else {
        assert(conns[conns.len() - 1] == conns.last());
    }
}

/// A flowsheet whose nodes can be listed in evaluation order has no two
/// nodes with the same identifier.
pub proof fn lemma_evaluation_order_ids_distinct(graph: FlowGraph, ids: Seq<u128>)
    requires
        is_evaluation_order(graph, ids),
    ensures
        graph.ids_distinct(),
{
    let nids = graph.node_ids();
    ids.unique_seq_to_set();
    nids.lemma_cardinality_of_set();
    assert(ids.to_set().subset_of(nids.to_set())) by {
        assert forall|k: u128| ids.to_set().contains(k) implies nids.to_set().contains(k) by {
            let i = choose|i: int| 0 <= i < ids.len() && ids[i] == k;
            assert(graph.has_node(ids[i]));
        }
    }
    vstd::set_lib::lemma_len_subset(ids.to_set(), nids.to_set());
    nids.lemma_no_dup_set_cardinality();
}

/// A topological order of the flowsheet's graph, mapped back to node
/// identifiers, is an evaluation order of the flowsheet.
pub proof fn lemma_sorted_ids_are_evaluation_order(graph: FlowGraph, ids: Seq<u128>)
    requires
        graph.ids_distinct(),
        graph.nodes@.len() < u32::MAX,
        forall|j: int| 0 <= j < ids.len() ==> #[trigger] index_map(graph.node_ids()).contains_key(ids[j]),
        is_topological_order(
            graph.nodes@.len() as nat,
            edges_for(graph.connections@, index_map(graph.node_ids())),
            ids.map_values(|id: u128| index_map(graph.node_ids())[id]),
        ),
    ensures
        is_evaluation_order(graph, ids),
{
    let m = index_map(graph.node_ids());
    let conns = graph.connections@;
    let edges = edges_for(conns, m);
    let s = ids.map_values(|id: u128| m[id]);
    lemma_index_map_bounds(graph.node_ids());
    assert forall|i: int, j: int| 0 <= i < ids.len() && 0 <= j < ids.len() && i != j implies ids[i] != ids[j] by {
        assert(s[i] != s[j]);
    }
    assert forall|i: int| 0 <= i < ids.len() implies graph.has_node(#[trigger] ids[i]) by {
        assert(m.contains_key(ids[i]));
    }
    assert forall|k: int, i: int, j: int|
        #![trigger conns[k], ids[i], ids[j]]
        0 <= k < conns.len() && 0 <= i < ids.len() && 0 <= j < ids.len() && ids[i] == conns[k].origin_node
            && ids[j] == conns[k].target_node implies i < j by {
        assert(m.contains_key(ids[i]));
        assert(m.contains_key(ids[j]));
        lemma_edges_for_has(conns, m, k);
        let e = choose|e: int| 0 <= e < edges.len() && #[trigger] edges[e] == (m[conns[k].origin_node], m[conns[k].target_node]);
        assert(s[i] == edges[e].0 && s[j] == edges[e].1);
    }
}

/// A flowsheet with an evaluation order has an acyclic graph.
pub proof fn lemma_evaluation_order_gives_acyclic(graph: FlowGraph, ids: Seq<u128>)
    requires
        graph.ids_distinct(),
        graph.nodes@.len() < u32::MAX,
        is_evaluation_order(graph, ids),
    ensures
        is_acyclic(graph.nodes@.len() as nat, edges_for(graph.connections@, index_map(graph.node_ids()))),
{
    let m = index_map(graph.node_ids());
    let conns = graph.connections@;
    let edges = edges_for(conns, m);
    let nids = graph.node_ids();
    let n = graph.nodes@.len();
    lemma_index_map_bounds(nids);
    let s = ids.map_values(|id: u128| m[id]);
    assert forall|i: int| 0 <= i < ids.len() implies m.contains_key(#[trigger] ids[i]) by {
        assert(graph.has_node(ids[i]));
    }
    assert forall|i: int| 0 <= i < s.len() implies #[trigger] s[i] < n by {
        assert(m.contains_key(ids[i]));
    }
    assert forall|i: int, j: int| 0 <= i < s.len() && 0 <= j < s.len() && i != j implies s[i] != s[j] by {
        assert(m.contains_key(ids[i]));
        assert(m.contains_key(ids[j]));
        assert(nids[m[ids[i]] as int] == ids[i]);
        assert(nids[m[ids[j]] as int] == ids[j]);
    }
    assert forall|e: int, i: int, j: int|
        #![trigger edges[e], s[i], s[j]]
        0 <= e < edges.len() && 0 <= i < s.len() && 0 <= j < s.len() && s[i] == edges[e].0
            && s[j] == edges[e].1 implies i < j by {
        lemma_edges_for_source(conns, m, e);
        let k = choose|k: int|
            0 <= k < conns.len() && m.contains_key((#[trigger] conns[k]).origin_node) && m.contains_key(conns[k].target_node)
                && edges[e] == (m[conns[k].origin_node], m[conns[k].target_node]);
        assert(m.contains_key(ids[i]));
        assert(m.contains_key(ids[j]));
        assert(nids[m[ids[i]] as int] == ids[i]);
        assert(nids[m[conns[k].origin_node] as int] == conns[k].origin_node);
        assert(nids[m[ids[j]] as int] == ids[j]);
        assert(nids[m[conns[k].target_node] as int] == conns[k].target_node);
        assert(ids[i] == conns[k].origin_node);
        assert(ids[j] == conns[k].target_node);
    }
    assert(is_topological_order(n as nat, edges, s));
}

proof fn lemma_index_map_distinct(ids: Seq<u128>)
    requires
        ids.no_duplicates(),
        ids.len() <= usize::MAX,
    ensures
        forall|i: int| 0 <= i < ids.len() ==> #[trigger] index_map(ids).contains_key(ids[i]) && index_map(ids)[ids[i]] == i,
    decreases ids.len(),
{
    if ids.len() > 0 {
        let prev = ids.drop_last();
        lemma_index_map_distinct(prev);
        assert forall|i: int| 0 <= i < ids.len() implies #[trigger] index_map(ids).contains_key(ids[i]) && index_map(ids)[ids[i]] == i by {
            if i < ids.len() - 1 {
                assert(ids[i] != ids.last());
                assert(prev[i] == ids[i]);
                assert(index_map(prev).contains_key(prev[i]));
            }
        }
    }
}

/// The order in which the flowsheet's nodes are evaluated: its graph built,
/// then sorted topologically. `CycleDetected` exactly when no order puts
/// every connection's origin before its target.
pub fn evaluation_order(graph: &FlowGraph) -> (r: Result<Vec<u128>, EngineError>)
    requires
        graph.ids_distinct() || !is_acyclic(
            graph.nodes@.len() as nat,
            edges_for(graph.connections@, index_map(graph.node_ids())),
        ),
        graph.nodes@.len() < u32::MAX,
        graph.connections@.len() < u32::MAX,
    ensures
        r is Ok <==> has_evaluation_order(*graph),
        r matches Ok(ids) ==> is_evaluation_order(*graph, ids@),
        r matches Ok(ids) ==> toposort_of(
            graph.nodes@.len() as nat,
            edges_for(graph.connections@, index_map(graph.node_ids())),
        ) == Ok::<Seq<usize>, usize>(ids@.map_values(|id: u128| index_map(graph.node_ids())[id])),
        r matches Err(e) ==> e is CycleDetected,
{
    let (dag, node_map) = match build_dag(graph) {
        Ok(p) => p,
        Err(e) => return Err(e),
    };
    let ghost nids = graph.node_ids();
    proof {
        if graph.ids_distinct() {
            lemma_index_map_distinct(nids);
            assert forall|i: usize| i < dag_weights(dag).len() implies #[trigger] is_image(node_map@, i) by {
                assert(index_map(nids).contains_key(nids[i as int]));
                assert(node_map@.contains_key(nids[i as int]) && node_map@[nids[i as int]] == i);
            }
        }
    }
    let r = compute_order(&dag, &node_map);
    proof {
        match &r {
            Ok(ids) => {
                lemma_sorted_ids_are_evaluation_order(*graph, ids@);
                assert(ids@.map_values(|id: u128| node_map@[id]) =~= ids@.map_values(|id: u128| index_map(nids)[id]));
            },
            Err(_) => {
                if has_evaluation_order(*graph) {
                    let ids = choose|ids: Seq<u128>| is_evaluation_order(*graph, ids);
                    lemma_evaluation_order_ids_distinct(*graph, ids);
                    lemma_evaluation_order_gives_acyclic(*graph, ids);
                }
            },
        }
    }
    r
}

/// Whether the flowsheet's graph, built as `build_dag` builds it, has no
/// cycle, as `petgraph`'s topological sort finds.
pub fn graph_is_acyclic(graph: &FlowGraph) -> (b: bool)
    requires
        graph.nodes@.len() < u32::MAX,
        graph.connections@.len() < u32::MAX,
    ensures
        b == is_acyclic(graph.nodes@.len() as nat, edges_for(graph.connections@, index_map(graph.node_ids()))),
{
    match build_dag(graph) {
        Ok((dag, _)) => dag_toposort(&dag).is_ok(),
        Err(_) => false,
    }
}

} // verus!
