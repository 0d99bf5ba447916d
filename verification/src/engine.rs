//! The engine's wiring: the order in which the nodes of a flowsheet are
//! evaluated, the upstream output that feeds each input port of a node, and
//! the streams that the overall mass balance compares.

use vstd::prelude::*;

use std::collections::HashMap;

use crate::dag::{
    edges_for, evaluation_order, graph_is_acyclic, has_evaluation_order, index_map, is_acyclic, is_evaluation_order, lemma_evaluation_order_ids_distinct,
    lemma_index_map_bounds,
};
use crate::error::EngineError;
use crate::model::{Connection, FlowGraph, Node, NodeType};
use crate::text::{decimal_string, decimal_text, uuid_string, uuid_text};

verus! {

broadcast use vstd::std_specs::hash::group_hash_axioms;

/// The upstream output feeding input port `port` of a node: output
/// `origin_slot` of node `origin_node`.
#[derive(Clone, Debug)]
pub struct InputLink {
    pub port: String,
    pub origin_node: u128,
    pub origin_slot: usize,
}

pub type LinkView = (Seq<char>, u128, usize);

impl InputLink {
    pub open spec fn view(&self) -> LinkView {
        (self.port@, self.origin_node, self.origin_slot)
    }
}

pub open spec fn links_view(links: Seq<InputLink>) -> Seq<LinkView> {
    links.map_values(|l: InputLink| l.view())
}

/// The name of a node's input port `slot`: the port's name, or `slot_N` for
/// a slot the node does not declare.
pub open spec fn port_name_for(node: Node, slot: usize) -> Seq<char> {
    if slot < node.inputs@.len() {
        node.inputs@[slot as int].name@
    } else {
        "slot_"@ + decimal_text(slot as nat)
    }
}

/// Some link of `links` is for port `name`.
pub open spec fn has_port(links: Seq<LinkView>, name: Seq<char>) -> bool {
    exists|i: int| 0 <= i < links.len() && (#[trigger] links[i]).0 == name
}

/// No two links are for the same port.
pub open spec fn ports_distinct(links: Seq<LinkView>) -> bool {
    forall|i: int, j: int| 0 <= i < links.len() && 0 <= j < links.len() && i != j ==> (#[trigger] links[i]).0 != (#[trigger] links[j]).0
}

/// Records a link: it replaces the link for the same port, or is appended.
pub open spec fn upsert(links: Seq<LinkView>, l: LinkView) -> Seq<LinkView> {
    if has_port(links, l.0) {
        links.update(choose|i: int| 0 <= i < links.len() && (#[trigger] links[i]).0 == l.0, l)
    } else {
        links.push(l)
    }
}

/// The links of a node's input ports after reading the connections in
/// order: each connection into the node from an output that its origin has
/// produced sets the link of its port; the first connection into the node
/// whose origin has no results gives that origin's identifier as an error.
pub open spec fn collect_spec<S>(node: Node, conns: Seq<Connection>, results: Map<u128, Vec<(String, S)>>) -> Result<Seq<LinkView>, u128>
    decreases conns.len(),
{
    if conns.len() == 0 {
        Ok(Seq::empty())
    } else {
        match collect_spec(node, conns.drop_last(), results) {
            Err(o) => Err(o),
            Ok(links) => {
                let c = conns.last();
                if c.target_node != node.id {
                    Ok(links)
                } else if !results.contains_key(c.origin_node) {
                    Err(c.origin_node)
                } else if c.origin_slot < results[c.origin_node]@.len() {
                    Ok(upsert(links, (port_name_for(node, c.target_slot), c.origin_node, c.origin_slot)))
                } else {
                    Ok(links)
                }
            },
        }
    }
}

/// Every link names an output that its origin has produced.
pub open spec fn links_resolve<S>(links: Seq<LinkView>, results: Map<u128, Vec<(String, S)>>) -> bool {
    forall|i: int| 0 <= i < links.len() ==> results.contains_key((#[trigger] links[i]).1) && links[i].2 < results[links[i].1]@.len()
}

proof fn lemma_collect_resolves<S>(node: Node, conns: Seq<Connection>, results: Map<u128, Vec<(String, S)>>)
    ensures
        collect_spec(node, conns, results) matches Ok(links) ==> links_resolve(links, results),
    decreases conns.len(),
{
    if conns.len() > 0 {
        lemma_collect_resolves(node, conns.drop_last(), results);
        if let Ok(prev) = collect_spec(node, conns.drop_last(), results) {
            let c = conns.last();
            let l = (port_name_for(node, c.target_slot), c.origin_node, c.origin_slot);
            if c.target_node == node.id && results.contains_key(c.origin_node) && c.origin_slot < results[c.origin_node]@.len() {
                let u = upsert(prev, l);
                assert forall|i: int| 0 <= i < u.len() implies results.contains_key((#[trigger] u[i]).1) && u[i].2 < results[u[i].1]@.len() by {
                    if i < prev.len() && u[i] != l {
                        assert(u[i] == prev[i]);
                    }
                }
            }
        }
    }
}

proof fn lemma_upsert_distinct(links: Seq<LinkView>, l: LinkView)
    requires
        ports_distinct(links),
    ensures
        ports_distinct(upsert(links, l)),
        has_port(upsert(links, l), l.0),
        forall|name: Seq<char>| has_port(links, name) ==> has_port(upsert(links, l), name),
        forall|name: Seq<char>| has_port(upsert(links, l), name) ==> has_port(links, name) || name == l.0,
{
    let u = upsert(links, l);
    if has_port(links, l.0) {
        let k = choose|i: int| 0 <= i < links.len() && (#[trigger] links[i]).0 == l.0;
        assert(u[k].0 == l.0);
        assert forall|name: Seq<char>| has_port(links, name) implies has_port(u, name) by {
            let i = choose|i: int| 0 <= i < links.len() && (#[trigger] links[i]).0 == name;
            if i == k {
                assert(u[k].0 == name);
            } else {
                assert(u[i].0 == name);
            }
        }
        assert forall|name: Seq<char>| has_port(u, name) implies has_port(links, name) || name == l.0 by {
            let i = choose|i: int| 0 <= i < u.len() && (#[trigger] u[i]).0 == name;
            if i != k {
                assert(links[i].0 == name);
            }
        }
    } else {
        assert(u[links.len() as int].0 == l.0);
        assert forall|name: Seq<char>| has_port(links, name) implies has_port(u, name) by {
            let i = choose|i: int| 0 <= i < links.len() && (#[trigger] links[i]).0 == name;
            assert(u[i].0 == name);
        }
        assert forall|name: Seq<char>| has_port(u, name) implies has_port(links, name) || name == l.0 by {
            let i = choose|i: int| 0 <= i < u.len() && (#[trigger] u[i]).0 == name;
            if i < links.len() {
                assert(links[i].0 == name);
            }
        }
    }
}

proof fn lemma_collect_distinct<S>(node: Node, conns: Seq<Connection>, results: Map<u128, Vec<(String, S)>>)
    ensures
        collect_spec(node, conns, results) matches Ok(links) ==> ports_distinct(links),
    decreases conns.len(),
{
    if conns.len() > 0 {
        lemma_collect_distinct(node, conns.drop_last(), results);
        if let Ok(links) = collect_spec(node, conns.drop_last(), results) {
            let c = conns.last();
            lemma_upsert_distinct(links, (port_name_for(node, c.target_slot), c.origin_node, c.origin_slot));
        }
    }
}

/// The connection sets a link of the node: it enters the node from an
/// output that its origin has produced.
pub open spec fn sets_link<S>(node: Node, c: Connection, results: Map<u128, Vec<(String, S)>>) -> bool {
    c.target_node == node.id && results.contains_key(c.origin_node) && c.origin_slot < results[c.origin_node]@.len()
}

/// The link comes from connection `k`, and no later connection sets a link
/// of the same port.
pub open spec fn link_set_last_by<S>(node: Node, conns: Seq<Connection>, results: Map<u128, Vec<(String, S)>>, l: LinkView, k: int) -> bool {
    &&& 0 <= k < conns.len()
    &&& sets_link(node, conns[k], results)
    &&& l == (port_name_for(node, conns[k].target_slot), conns[k].origin_node, conns[k].origin_slot)
    &&& forall|k2: int| k < k2 < conns.len() && sets_link(node, #[trigger] conns[k2], results) ==> port_name_for(node, conns[k2].target_slot) != l.0
}

/// The link comes from the last connection that sets its port.
pub open spec fn link_from_last<S>(node: Node, conns: Seq<Connection>, results: Map<u128, Vec<(String, S)>>, l: LinkView) -> bool {
    exists|k: int| link_set_last_by(node, conns, results, l, k)
}

/// Each port of a node is linked to the last connection into it from an
/// output that was produced: every such connection's port has a link, and
/// every link comes from the last connection that sets its port.
pub proof fn lemma_collect_links<S>(node: Node, conns: Seq<Connection>, results: Map<u128, Vec<(String, S)>>)
    ensures
        collect_spec(node, conns, results) matches Ok(links) ==> {
            &&& forall|k: int|
                0 <= k < conns.len() && sets_link(node, #[trigger] conns[k], results) ==> has_port(links, port_name_for(node, conns[k].target_slot))
            &&& forall|i: int| 0 <= i < links.len() ==> link_from_last(node, conns, results, #[trigger] links[i])
        },
    decreases conns.len(),
{
    if conns.len() > 0 {
        let pc = conns.drop_last();
        let c = conns.last();
        let last = conns.len() - 1;
        lemma_collect_links(node, pc, results);
        lemma_collect_distinct(node, pc, results);
        if let Ok(prev) = collect_spec(node, pc, results) {
            let links = collect_spec(node, conns, results)->Ok_0;
            assert(conns[last] == c);
            if sets_link(node, c, results) {
                let l = (port_name_for(node, c.target_slot), c.origin_node, c.origin_slot);
                assert(links == upsert(prev, l));
                // the updated position, if any
                assert forall|k: int| 0 <= k < conns.len() && sets_link(node, #[trigger] conns[k], results) implies has_port(links, port_name_for(node, conns[k].target_slot)) by {
                    if k < last {
                        assert(pc[k] == conns[k]);
                        let i = choose|i: int| 0 <= i < prev.len() && (#[trigger] prev[i]).0 == port_name_for(node, conns[k].target_slot);
                        if has_port(prev, l.0) {
                            let j = choose|j: int| 0 <= j < prev.len() && (#[trigger] prev[j]).0 == l.0;
                            assert(links[i].0 == prev[i].0);
                        } else {
                            assert(links[i] == prev[i]);
                        }
                    } else {
                        if has_port(prev, l.0) {
                            let j = choose|j: int| 0 <= j < prev.len() && (#[trigger] prev[j]).0 == l.0;
                            assert(links[j] == l);
                        } else {
                            assert(links[prev.len() as int] == l);
                        }
                    }
                }
                assert forall|i: int| 0 <= i < links.len() implies link_from_last(node, conns, results, #[trigger] links[i]) by {
                    if links[i] == l {
                        assert(link_set_last_by(node, conns, results, links[i], last));
                    } else {
                        let same = if has_port(prev, l.0) {
                            let j = choose|j: int| 0 <= j < prev.len() && (#[trigger] prev[j]).0 == l.0;
                            assert(i != j);
                            assert(links[i] == prev[i]);
                            assert(prev[i].0 != prev[j].0);
                            true
                        } else {
                            assert(links[i] == prev[i]);
                            assert(prev[i].0 != l.0);
                            true
                        };
                        assert(links[i] == prev[i]);
                        assert(link_from_last(node, pc, results, prev[i]));
                        let k = choose|k: int| link_set_last_by(node, pc, results, prev[i], k);
                        assert(pc[k] == conns[k]);
                        assert forall|k2: int| k < k2 < conns.len() && sets_link(node, #[trigger] conns[k2], results) implies port_name_for(node, conns[k2].target_slot) != links[i].0 by {
                            if k2 < last {
                                assert(pc[k2] == conns[k2]);
                            }
                        }
                        assert(link_set_last_by(node, conns, results, links[i], k));
                    }
                }
            } else {
                if c.target_node == node.id && !results.contains_key(c.origin_node) {
                } else {
                    assert(links == prev);
                    assert forall|k: int| 0 <= k < conns.len() && sets_link(node, #[trigger] conns[k], results) implies has_port(links, port_name_for(node, conns[k].target_slot)) by {
                        assert(k < last);
                        assert(pc[k] == conns[k]);
                    }
                    assert forall|i: int| 0 <= i < links.len() implies link_from_last(node, conns, results, #[trigger] links[i]) by {
                        assert(link_from_last(node, pc, results, prev[i]));
                        let k = choose|k: int| link_set_last_by(node, pc, results, prev[i], k);
                        assert(pc[k] == conns[k]);
                        assert forall|k2: int| k < k2 < conns.len() && sets_link(node, #[trigger] conns[k2], results) implies port_name_for(node, conns[k2].target_slot) != links[i].0 by {
                            assert(k2 < last);
                            assert(pc[k2] == conns[k2]);
                        }
                        assert(link_set_last_by(node, conns, results, links[i], k));
                    }
                }
            }
        }
    }
}

proof fn lemma_collect_err_extends<S>(node: Node, conns: Seq<Connection>, k: int, results: Map<u128, Vec<(String, S)>>)
    requires
        0 <= k <= conns.len(),
        collect_spec(node, conns.take(k), results) is Err,
    ensures
        collect_spec(node, conns, results) == collect_spec(node, conns.take(k), results),
    decreases conns.len(),
{
    if k == conns.len() {
        assert(conns.take(k) =~= conns);
    } else {
        assert(conns.drop_last().take(k) =~= conns.take(k));
        lemma_collect_err_extends(node, conns.drop_last(), k, results);
    }
}

fn port_name(node: &Node, slot: usize) -> (s: String)
    ensures
        s@ == port_name_for(*node, slot),
{
    if slot < node.inputs.len() {
        node.inputs[slot].name.clone()
    } else {
        let mut s = String::from_str("slot_");
        let num = decimal_string(slot);
        s.append(num.as_str());
        s
    }
}

fn upsert_link(links: &mut Vec<InputLink>, link: InputLink)
    requires
        ports_distinct(links_view(old(links)@)),
    ensures
        links_view(final(links)@) == upsert(links_view(old(links)@), link.view()),
{
    let ghost lv = links_view(links@);
    let n = links.len();
    let mut i: usize = 0;
    while i < n
        invariant
            i <= n,
            n == links@.len(),
            lv == links_view(links@),
            lv == links_view(old(links)@),
            ports_distinct(lv),
            forall|j: int| 0 <= j < i ==> (#[trigger] lv[j]).0 != link.port@,
        decreases n - i,
    {
        if links[i].port == link.port {
            assert(lv[i as int] == links@[i as int].view());
            assert(has_port(lv, link.port@));
            let ghost k = choose|j: int| 0 <= j < lv.len() && (#[trigger] lv[j]).0 == link.port@;
            assert(k == i);
            assert(upsert(lv, link.view()) == lv.update(i as int, link.view()));
            links.set(i, link);
            assert(links_view(links@) =~= lv.update(i as int, link.view()));
            return;
        }
        i = i + 1;
    }
    assert(!has_port(lv, link.port@));
    links.push(link);
    assert(links_view(links@) =~= lv.push(link.view()));
}

/// The upstream output that feeds each input port of `node`, read from the
/// connections into it and the results computed so far. A port fed by
/// several connections keeps the last one; a connection from an output its
/// origin did not produce feeds nothing. A connection from a node without
/// results is an error, `UpstreamNotComputed`, for the first such
/// connection.
pub fn collect_inputs<S>(node: &Node, connections: &Vec<Connection>, results: &HashMap<u128, Vec<(String, S)>>) -> (r: Result<Vec<InputLink>, EngineError>)
    ensures
        match (r, collect_spec(*node, connections@, results@)) {
            (Ok(links), Ok(spec_links)) => links_view(links@) == spec_links,
            (Err(e), Err(origin)) => e matches EngineError::UpstreamNotComputed { node: n, upstream: u }
                && n@ == node.title@ && u@ == uuid_text(origin),
            _ => false,
        },
        r matches Ok(links) ==> ports_distinct(links_view(links@)),
        r matches Ok(links) ==> links_resolve(links_view(links@), results@),
        r matches Ok(links) ==> forall|k: int|
            0 <= k < connections@.len() && sets_link(*node, #[trigger] connections@[k], results@) ==> has_port(
                links_view(links@),
                port_name_for(*node, connections@[k].target_slot),
            ),
        r matches Ok(links) ==> forall|i: int|
            0 <= i < links@.len() ==> link_from_last(*node, connections@, results@, #[trigger] links_view(links@)[i]),
{
    proof {
        lemma_collect_links(*node, connections@, results@);
    }
    let mut links: Vec<InputLink> = Vec::new();
    assert(connections@.take(0) =~= Seq::<Connection>::empty());
    assert(links_view(links@) =~= Seq::<LinkView>::empty());
    let m = connections.len();
    let mut j: usize = 0;
    while j < m
        invariant
            j <= m,
            m == connections@.len(),
            collect_spec(*node, connections@.take(j as int), results@) == Ok::<Seq<LinkView>, u128>(links_view(links@)),
            ports_distinct(links_view(links@)),
        decreases m - j,
    {
        let conn = &connections[j];
        assert(connections@.take(j + 1).drop_last() =~= connections@.take(j as int));
        assert(connections@.take(j + 1).last() == conn);
        if conn.target_node == node.id {
            let port = port_name(node, conn.target_slot);
            match results.get(&conn.origin_node) {
                None => {
                    proof {
                        lemma_collect_err_extends(*node, connections@, j + 1, results@);
                    }
                    return Err(EngineError::UpstreamNotComputed {
                        node: node.title.clone(),
                        upstream: uuid_string(conn.origin_node),
                    });
                },
                Some(outputs) => {
                    if conn.origin_slot < outputs.len() {
                        let link = InputLink { port, origin_node: conn.origin_node, origin_slot: conn.origin_slot };
                        proof {
                            lemma_upsert_distinct(links_view(links@), link.view());
                        }
                        upsert_link(&mut links, link);
                    }
                },
            }
        }
        j = j + 1;
    }
    assert(connections@.take(m as int) =~= connections@);
    proof {
        lemma_collect_distinct(*node, connections@, results@);
        lemma_collect_resolves(*node, connections@, results@);
    }
    Ok(links)
}

/// Some connection into a node of the flowsheet comes from a node that is
/// not in it.
pub open spec fn has_dangling_connection(graph: FlowGraph) -> bool {
    exists|k: int|
        0 <= k < graph.connections@.len() && graph.has_node((#[trigger] graph.connections@[k]).target_node)
            && !graph.has_node(graph.connections@[k].origin_node)
}

/// The node of the flowsheet with this identifier.
pub open spec fn node_with_id(graph: FlowGraph, id: u128) -> Node {
    graph.nodes@[index_map(graph.node_ids())[id] as int]
}

/// Why an evaluation stopped: the engine's wiring, or the computation of a
/// node.
#[derive(Debug)]
pub enum EvalError<E> {
    Engine(EngineError),
    Node(E),
}

/// `out` is what `compute_node` may return for the node with this
/// identifier, given the links of its inputs over results of other nodes
/// that `all` holds too.
pub open spec fn computed_by<S, E, F: Fn(&Node, &Vec<InputLink>, &HashMap<u128, Vec<(String, S)>>) -> Result<Vec<(String, S)>, E>>(
    compute_node: F,
    graph: FlowGraph,
    id: u128,
    out: Vec<(String, S)>,
    all: Map<u128, Vec<(String, S)>>,
) -> bool {
    exists|links: Vec<InputLink>, prior: HashMap<u128, Vec<(String, S)>>|
        #![trigger compute_node.ensures((&node_with_id(graph, id), &links, &prior), Ok::<Vec<(String, S)>, E>(out))]
        prior@.submap_of(all) && !prior@.contains_key(id)
            && collect_spec(node_with_id(graph, id), graph.connections@, prior@) == Ok::<Seq<LinkView>, u128>(links_view(links@))
            && compute_node.ensures((&node_with_id(graph, id), &links, &prior), Ok::<Vec<(String, S)>, E>(out))
}

proof fn lemma_collect_ok<S>(node: Node, conns: Seq<Connection>, results: Map<u128, Vec<(String, S)>>)
    requires
        forall|k: int| 0 <= k < conns.len() && (#[trigger] conns[k]).target_node == node.id ==> results.contains_key(conns[k].origin_node),
    ensures
        collect_spec(node, conns, results) is Ok,
    decreases conns.len(),
{
    if conns.len() > 0 {
        assert forall|k: int| 0 <= k < conns.drop_last().len() && (#[trigger] conns.drop_last()[k]).target_node == node.id implies results.contains_key(conns.drop_last()[k].origin_node) by {
            assert(conns.drop_last()[k] == conns[k]);
        }
        lemma_collect_ok(node, conns.drop_last(), results);
        assert(conns.last() == conns[conns.len() - 1]);
    }
}

proof fn lemma_collect_err<S>(node: Node, conns: Seq<Connection>, results: Map<u128, Vec<(String, S)>>)
    ensures
        collect_spec(node, conns, results) matches Err(o) ==> exists|k: int|
            0 <= k < conns.len() && (#[trigger] conns[k]).target_node == node.id && conns[k].origin_node == o
                && !results.contains_key(o),
        (exists|k: int| 0 <= k < conns.len() && (#[trigger] conns[k]).target_node == node.id && !results.contains_key(conns[k].origin_node))
            ==> collect_spec(node, conns, results) is Err,
    decreases conns.len(),
{
    if conns.len() > 0 {
        let prefix = conns.drop_last();
        lemma_collect_err(node, prefix, results);
        if let Err(o) = collect_spec(node, conns, results) {
            if collect_spec(node, prefix, results) is Err {
                let k = choose|k: int|
                    0 <= k < prefix.len() && (#[trigger] prefix[k]).target_node == node.id && prefix[k].origin_node == o
                        && !results.contains_key(o);
                assert(conns[k] == prefix[k]);
            } else {
                assert(conns[conns.len() - 1] == conns.last());
            }
        }
        if exists|k: int| 0 <= k < conns.len() && (#[trigger] conns[k]).target_node == node.id && !results.contains_key(conns[k].origin_node) {
            let k = choose|k: int| 0 <= k < conns.len() && (#[trigger] conns[k]).target_node == node.id && !results.contains_key(conns[k].origin_node);
            if k < conns.len() - 1 {
                assert(prefix[k] == conns[k]);
            }
        }
    }
}

proof fn lemma_order_covers(graph: FlowGraph, ids: Seq<u128>)
    requires
        graph.ids_distinct(),
        is_evaluation_order(graph, ids),
    ensures
        ids.to_set() == graph.node_ids().to_set(),
        forall|k: u128| graph.has_node(k) ==> ids.contains(k),
{
    let nids = graph.node_ids();
    ids.unique_seq_to_set();
    nids.unique_seq_to_set();
    assert(ids.to_set().subset_of(nids.to_set())) by {
        assert forall|k: u128| ids.to_set().contains(k) implies nids.to_set().contains(k) by {
            let i = choose|i: int| 0 <= i < ids.len() && ids[i] == k;
            assert(graph.has_node(ids[i]));
        }
    }
    vstd::set_lib::lemma_subset_equality(ids.to_set(), nids.to_set());
    assert forall|k: u128| graph.has_node(k) implies ids.contains(k) by {
        assert(nids.to_set().contains(k));
        assert(ids.to_set().contains(k));
    }
}

/// What evaluating a flowsheet may give: a cycle error exactly when it has
/// no evaluation order; a missing-upstream error only where a connection
/// leaves a node that is not in the flowsheet; on success, results for
/// exactly its nodes, each computed from the results before it; and success
/// whenever the order exists, no connection dangles and `compute_node`
/// never fails.
pub open spec fn evaluation_outcome<S, E, F>(
    compute_node: F,
    graph: FlowGraph,
    r: Result<HashMap<u128, Vec<(String, S)>>, EvalError<E>>,
) -> bool
    where
        F: Fn(&Node, &Vec<InputLink>, &HashMap<u128, Vec<(String, S)>>) -> Result<Vec<(String, S)>, E>,
{
    &&& !has_evaluation_order(graph) ==> (r matches Err(EvalError::Engine(e)) && e is CycleDetected)
    &&& r matches Err(EvalError::Engine(e)) ==> (e is CycleDetected && !has_evaluation_order(graph)) || (
    e is UpstreamNotComputed && has_dangling_connection(graph))
    &&& r is Ok ==> has_evaluation_order(graph) && !has_dangling_connection(graph)
    &&& r matches Ok(results) ==> results@.dom() == graph.node_ids().to_set()
    &&& r matches Ok(results) ==> forall|id: u128| #[trigger] results@.contains_key(id) ==> computed_by(compute_node, graph, id, results@[id], results@)
    &&& has_evaluation_order(graph) && !has_dangling_connection(graph) && (forall|node: &Node, links: &Vec<InputLink>, results: &HashMap<u128, Vec<(String, S)>>, out: Result<Vec<(String, S)>, E>|
        #[trigger] compute_node.ensures((node, links, results), out) ==> out is Ok) ==> r is Ok
}

/// Evaluates a flowsheet: its nodes in evaluation order, each with
/// `compute_node` given the node, the links of its inputs and the results
/// so far, and its outputs recorded under its identifier. Stops at the
/// first error: a cycle, an input from a node that has no results, or an
/// error of `compute_node`.
pub fn evaluate<S, E, F>(graph: &FlowGraph, compute_node: F) -> (r: Result<HashMap<u128, Vec<(String, S)>>, EvalError<E>>)
    where
        F: Fn(&Node, &Vec<InputLink>, &HashMap<u128, Vec<(String, S)>>) -> Result<Vec<(String, S)>, E>,
    requires
        graph.ids_distinct() || !is_acyclic(
            graph.nodes@.len() as nat,
            edges_for(graph.connections@, index_map(graph.node_ids())),
        ),
        graph.nodes@.len() < u32::MAX,
        graph.connections@.len() < u32::MAX,
        forall|node: &Node, links: &Vec<InputLink>, results: &HashMap<u128, Vec<(String, S)>>|
            #[trigger] compute_node.requires((node, links, results)),
    ensures
        evaluation_outcome(compute_node, *graph, r),
{
    let order = match evaluation_order(graph) {
        Ok(order) => order,
        Err(e) => return Err(EvalError::Engine(e)),
    };
    let ghost nids = graph.node_ids();
    let ghost conns = graph.connections@;
    proof {
        lemma_evaluation_order_ids_distinct(*graph, order@);
        lemma_order_covers(*graph, order@);
        lemma_index_map_bounds(graph.node_ids());
    }
    let n = graph.nodes.len();
    let mut lookup: HashMap<u128, usize> = HashMap::new();
    for i in 0..n
        invariant
            n == graph.nodes@.len(),
            nids == graph.node_ids(),
            lookup@ == index_map(nids.take(i as int)),
    {
        lookup.insert(graph.nodes[i].id, i);
        assert(nids.take(i + 1).drop_last() =~= nids.take(i as int));
        assert(nids.take(i + 1) =~= nids.take(i as int).push(graph.nodes@[i as int].id));
    }
    assert(nids.take(n as int) =~= nids);
    let mut results: HashMap<u128, Vec<(String, S)>> = HashMap::new();
    let m = order.len();
    for p in 0..m
        invariant
            m == order@.len(),
            n == graph.nodes@.len(),
            nids == graph.node_ids(),
            conns == graph.connections@,
            graph.ids_distinct(),
            is_evaluation_order(*graph, order@),
            lookup@ == index_map(nids),
            forall|node: &Node, links: &Vec<InputLink>, results: &HashMap<u128, Vec<(String, S)>>|
                #[trigger] compute_node.requires((node, links, results)),
            results@.dom() == order@.take(p as int).to_set(),
            forall|id: u128| #[trigger] results@.contains_key(id) ==> computed_by(compute_node, *graph, id, results@[id], results@),
            forall|q: int, k: int|
                0 <= q < p && 0 <= k < conns.len() && (#[trigger] conns[k]).target_node == #[trigger] order@[q]
                    ==> graph.has_node(conns[k].origin_node),
    {
        let id = order[p];
        assert(graph.has_node(id));
        proof {
            lemma_index_map_bounds(nids);
        }
        assert(index_map(nids).contains_key(id));
        let idx: usize = match lookup.get(&id) {
            Some(i) => *i,
            None => {
                assert(false);
                0
            },
        };
        let node = &graph.nodes[idx];
        assert(node.id == id) by {
            assert(nids[index_map(nids)[id] as int] == id);
        }
        proof {
            lemma_collect_err(*node, conns, results@);
        }
        let links = match collect_inputs(node, &graph.connections, &results) {
            Ok(links) => links,
            Err(e) => {
                proof {
                    let o = collect_spec(*node, conns, results@)->Err_0;
                    let k = choose|k: int|
                        0 <= k < conns.len() && (#[trigger] conns[k]).target_node == node.id && conns[k].origin_node == o
                            && !results@.contains_key(o);
                    if graph.has_node(o) {
                        lemma_order_covers(*graph, order@);
                        let i = choose|i: int| 0 <= i < order@.len() && order@[i] == o;
                        assert(order@[p as int] == conns[k].target_node);
                        assert(i < p);
                        assert(order@.take(p as int)[i] == o);
                        assert(order@.take(p as int).to_set().contains(o));
                    }
                    assert(graph.has_node(conns[k].target_node));
                }
                return Err(EvalError::Engine(e));
            },
        };
        proof {
            assert forall|k: int| 0 <= k < conns.len() && (#[trigger] conns[k]).target_node == order@[p as int]
                implies graph.has_node(conns[k].origin_node) by {
                let o = conns[k].origin_node;
                assert(results@.contains_key(o));
                assert(order@.take(p as int).to_set().contains(o));
                let i = choose|i: int| 0 <= i < order@.take(p as int).len() && order@.take(p as int)[i] == o;
                assert(order@[i] == o);
            }
        }
        let outputs = match compute_node(node, &links, &results) {
            Ok(outputs) => outputs,
            Err(e) => {
                return Err(EvalError::Node(e));
            },
        };
        let ghost prior = results;
        let ghost out = outputs;
        assert(!results@.contains_key(id)) by {
            if results@.contains_key(id) {
                let before = order@.take(p as int);
                assert(before.to_set().contains(id));
                let i = choose|i: int| 0 <= i < before.len() && before[i] == id;
                assert(order@[i] == order@[p as int]);
            }
        }
        results.insert(id, outputs);
        proof {
            assert forall|k: u128| #[trigger] results@.contains_key(k) implies computed_by(compute_node, *graph, k, results@[k], results@) by {
                if k == id {
                    assert(prior@.submap_of(results@));
                    assert(compute_node.ensures((&node_with_id(*graph, k), &links, &prior), Ok::<Vec<(String, S)>, E>(out)));
                } else {
                    assert(prior@.contains_key(k));
                    assert(computed_by(compute_node, *graph, k, prior@[k], prior@));
                    let (l, pr) = choose|l: Vec<InputLink>, pr: HashMap<u128, Vec<(String, S)>>|
                        #![trigger compute_node.ensures((&node_with_id(*graph, k), &l, &pr), Ok::<Vec<(String, S)>, E>(prior@[k]))]
                        pr@.submap_of(prior@) && !pr@.contains_key(k)
                            && collect_spec(node_with_id(*graph, k), graph.connections@, pr@) == Ok::<Seq<LinkView>, u128>(links_view(l@))
                            && compute_node.ensures((&node_with_id(*graph, k), &l, &pr), Ok::<Vec<(String, S)>, E>(prior@[k]));
                    assert(prior@.submap_of(results@));
                    assert forall|x: u128| #[trigger] pr@.dom().contains(x) implies results@.dom().contains(x) && pr@[x] == results@[x] by {
                        assert(prior@.dom().contains(x));
                    }
                    assert(pr@.submap_of(results@));
                    assert(compute_node.ensures((&node_with_id(*graph, k), &l, &pr), Ok::<Vec<(String, S)>, E>(results@[k])));
                }
            }
        }
        assert(order@.take(p + 1) =~= order@.take(p as int).push(id));
        proof {
            let before = order@.take(p as int);
            let after = order@.take(p + 1);
            assert forall|x: u128| after.to_set().contains(x) <==> before.to_set().insert(id).contains(x) by {
                if after.contains(x) && x != id {
                    let i = choose|i: int| 0 <= i < after.len() && #[trigger] after[i] == x;
                    assert(before[i] == x);
                }
                if before.contains(x) {
                    let i = choose|i: int| 0 <= i < before.len() && #[trigger] before[i] == x;
                    assert(after[i] == x);
                }
                if x == id {
                    assert(after[p as int] == x);
                }
            }
            assert(after.to_set() =~= before.to_set().insert(id));
        }
    }
    assert(order@.take(m as int) =~= order@);
    Ok(results)
}

/// Evaluates a flowsheet whatever its node identifiers: `None` for an
/// acyclic flowsheet in which two nodes share an identifier, whose sorted
/// graph indices cannot all be mapped back to nodes; otherwise what
/// `evaluate` gives.
pub fn try_evaluate<S, E, F>(graph: &FlowGraph, compute_node: F) -> (r: Option<Result<HashMap<u128, Vec<(String, S)>>, EvalError<E>>>)
    where
        F: Fn(&Node, &Vec<InputLink>, &HashMap<u128, Vec<(String, S)>>) -> Result<Vec<(String, S)>, E>,
    requires
        graph.nodes@.len() < u32::MAX,
        graph.connections@.len() < u32::MAX,
        forall|node: &Node, links: &Vec<InputLink>, results: &HashMap<u128, Vec<(String, S)>>|
            #[trigger] compute_node.requires((node, links, results)),
    ensures
        r is None <==> !graph.ids_distinct() && is_acyclic(
            graph.nodes@.len() as nat,
            edges_for(graph.connections@, index_map(graph.node_ids())),
        ),
        r matches Some(outcome) ==> evaluation_outcome(compute_node, *graph, outcome),
{
    if graph.node_ids_distinct() || !graph_is_acyclic(graph) {
        Some(evaluate(graph, compute_node))
    } else {
        None
    }
}

/// Feed `i`, given as (title, selected component), is the first without a
/// component.
pub open spec fn first_unselected_feed(feeds: Seq<(String, String)>, i: int) -> bool {
    &&& 0 <= i < feeds.len()
    &&& feeds[i].1@.len() == 0
    &&& forall|j: int| 0 <= j < i ==> (#[trigger] feeds[j]).1@.len() != 0
}

/// The message that stops a computation when a feed has no component: the
/// title of the first such feed, quoted.
pub open spec fn unselected_feed_text(feeds: Seq<(String, String)>) -> Option<Seq<char>> {
    if exists|i: int| first_unselected_feed(feeds, i) {
        let i = choose|i: int| first_unselected_feed(feeds, i);
        Some("错误: '"@ + feeds[i].0@ + "' 未选择组分"@)
    } else {
        None
    }
}

/// Checks the feeds, each given as (title, selected component), before a
/// computation: the error message for the first feed without a component,
/// or `None` when every feed has one.
pub fn unselected_feed_message(feeds: &Vec<(String, String)>) -> (r: Option<String>)
    ensures
        match r {
            Some(s) => unselected_feed_text(feeds@) == Some(s@),
            None => unselected_feed_text(feeds@) is None,
        },
{
    let n = feeds.len();
    for i in 0..n
        invariant
            n == feeds@.len(),
            forall|j: int| 0 <= j < i ==> (#[trigger] feeds@[j]).1@.len() != 0,
    {
        if feeds[i].1.unicode_len() == 0 {
            proof {
                assert(first_unselected_feed(feeds@, i as int));
                let k = choose|k: int| first_unselected_feed(feeds@, k);
                if k < i {
                    assert(feeds@[k].1@.len() != 0);
                } else if k > i {
                    assert(feeds@[i as int].1@.len() != 0);
                }
                assert(k == i);
            }
            let mut s = String::from_str("错误: '");
            s.append(feeds[i].0.as_str());
            s.append("' 未选择组分");
            return Some(s);
        }
    }
    assert(!exists|k: int| first_unselected_feed(feeds@, k)) by {
        if exists|k: int| first_unselected_feed(feeds@, k) {
            let k = choose|k: int| first_unselected_feed(feeds@, k);
            assert(feeds@[k].1@.len() != 0);
        }
    }
    None
}

/// A stream of the results: output `.1` of node `.0`.
pub type StreamRef = (u128, usize);

/// Every output of the node with this identifier, in order.
pub open spec fn all_outputs(id: u128, count: nat) -> Seq<StreamRef> {
    Seq::new(count, |k: int| (id, k as usize))
}

/// The streams the feeds supply: every output of every feed node that has
/// results, in the order of the node list.
pub open spec fn feed_streams<S>(nodes: Seq<Node>, results: Map<u128, Vec<(String, S)>>) -> Seq<StreamRef>
    decreases nodes.len(),
{
    if nodes.len() == 0 {
        Seq::empty()
    } else {
        let prev = feed_streams(nodes.drop_last(), results);
        let n = nodes.last();
        if n.node_type == NodeType::Feed && results.contains_key(n.id) {
            prev + all_outputs(n.id, results[n.id]@.len())
        } else {
            prev
        }
    }
}

/// The streams entering the node with this identifier: for each connection
/// into it from a node with results, the output of the connection's slot,
/// or the first output where that slot was not produced.
pub open spec fn incoming_streams<S>(id: u128, conns: Seq<Connection>, results: Map<u128, Vec<(String, S)>>) -> Seq<StreamRef>
    decreases conns.len(),
{
    if conns.len() == 0 {
        Seq::empty()
    } else {
        let prev = incoming_streams(id, conns.drop_last(), results);
        let c = conns.last();
        if c.target_node == id && results.contains_key(c.origin_node) {
            let count = results[c.origin_node]@.len();
            if c.origin_slot < count {
                prev.push((c.origin_node, c.origin_slot))
            } else if count > 0 {
                prev.push((c.origin_node, 0usize))
            } else {
                prev
            }
        } else {
            prev
        }
    }
}

/// The streams the products take: the streams entering each product node,
/// in the order of the node list.
pub open spec fn product_streams<S>(nodes: Seq<Node>, conns: Seq<Connection>, results: Map<u128, Vec<(String, S)>>) -> Seq<StreamRef>
    decreases nodes.len(),
{
    if nodes.len() == 0 {
        Seq::empty()
    } else {
        let prev = product_streams(nodes.drop_last(), conns, results);
        let n = nodes.last();
        if n.node_type == NodeType::Product {
            prev + incoming_streams(n.id, conns, results)
        } else {
            prev
        }
    }
}

/// Every stream names an output that its node has produced.
pub open spec fn streams_resolve<S>(streams: Seq<StreamRef>, results: Map<u128, Vec<(String, S)>>) -> bool {
    forall|i: int| 0 <= i < streams.len() ==> results.contains_key((#[trigger] streams[i]).0) && streams[i].1 < results[streams[i].0]@.len()
}

proof fn lemma_concat_resolves<S>(a: Seq<StreamRef>, b: Seq<StreamRef>, results: Map<u128, Vec<(String, S)>>)
    requires
        streams_resolve(a, results),
        streams_resolve(b, results),
    ensures
        streams_resolve(a + b, results),
{
    assert forall|i: int| 0 <= i < (a + b).len() implies results.contains_key((#[trigger] (a + b)[i]).0) && (a + b)[i].1 < results[(a + b)[i].0]@.len() by {
        if i < a.len() {
            assert((a + b)[i] == a[i]);
        } else {
            assert((a + b)[i] == b[i - a.len()]);
        }
    }
}

proof fn lemma_incoming_resolve<S>(id: u128, conns: Seq<Connection>, results: Map<u128, Vec<(String, S)>>)
    ensures
        streams_resolve(incoming_streams(id, conns, results), results),
    decreases conns.len(),
{
    if conns.len() > 0 {
        lemma_incoming_resolve(id, conns.drop_last(), results);
    }
}

/// The streams the mass balance compares are outputs that were produced.
pub proof fn lemma_balance_streams_resolve<S>(nodes: Seq<Node>, conns: Seq<Connection>, results: Map<u128, Vec<(String, S)>>)
    ensures
        streams_resolve(feed_streams(nodes, results), results),
        streams_resolve(product_streams(nodes, conns, results), results),
    decreases nodes.len(),
{
    if nodes.len() > 0 {
        lemma_balance_streams_resolve(nodes.drop_last(), conns, results);
        let n = nodes.last();
        if n.node_type == NodeType::Feed && results.contains_key(n.id) {
            lemma_concat_resolves(feed_streams(nodes.drop_last(), results), all_outputs(n.id, results[n.id]@.len()), results);
        }
        if n.node_type == NodeType::Product {
            lemma_incoming_resolve(n.id, conns, results);
            lemma_concat_resolves(product_streams(nodes.drop_last(), conns, results), incoming_streams(n.id, conns, results), results);
        }
    }
}

/// The connection brings a stream into node `id`: it enters `id` from a
/// node whose results hold at least one output.
pub open spec fn brings_stream<S>(c: Connection, id: u128, results: Map<u128, Vec<(String, S)>>) -> bool {
    c.target_node == id && results.contains_key(c.origin_node) && results[c.origin_node]@.len() > 0
}

/// The stream such a connection brings: the output of its slot, or the
/// first output where that slot was not produced.
pub open spec fn brought_stream<S>(c: Connection, results: Map<u128, Vec<(String, S)>>) -> StreamRef {
    if c.origin_slot < results[c.origin_node]@.len() {
        (c.origin_node, c.origin_slot)
    } else {
        (c.origin_node, 0usize)
    }
}

proof fn lemma_incoming_provenance<S>(id: u128, conns: Seq<Connection>, results: Map<u128, Vec<(String, S)>>)
    ensures
        forall|a: int|
            0 <= a < incoming_streams(id, conns, results).len() ==> brought_into(id, conns, results, #[trigger] incoming_streams(id, conns, results)[a]),
    decreases conns.len(),
{
    if conns.len() > 0 {
        let pc = conns.drop_last();
        let c = conns.last();
        lemma_incoming_provenance(id, pc, results);
        let prev = incoming_streams(id, pc, results);
        let inc = incoming_streams(id, conns, results);
        assert forall|a: int| 0 <= a < inc.len() implies brought_into(id, conns, results, #[trigger] inc[a]) by {
            if a < prev.len() {
                assert(brought_into(id, pc, results, prev[a]));
                let k = choose|k: int| 0 <= k < pc.len() && brings_stream(#[trigger] pc[k], id, results) && prev[a] == brought_stream(pc[k], results);
                assert(conns[k] == pc[k]);
                assert(inc[a] == prev[a]);
            } else {
                assert(conns[conns.len() - 1] == c);
                assert(brings_stream(c, id, results));
                assert(inc[a] == brought_stream(c, results));
            }
        }
    }
}

/// The stream is brought into node `id` by one of the connections.
pub open spec fn brought_into<S>(id: u128, conns: Seq<Connection>, results: Map<u128, Vec<(String, S)>>, st: StreamRef) -> bool {
    exists|k: int| 0 <= k < conns.len() && brings_stream(#[trigger] conns[k], id, results) && st == brought_stream(conns[k], results)
}

/// The streams entering a node are, in the order of the connections, the
/// streams of every connection that brings one into it: one each, none
/// left out.
pub proof fn lemma_incoming_streams<S>(id: u128, conns: Seq<Connection>, results: Map<u128, Vec<(String, S)>>)
    ensures
        incoming_streams(id, conns, results) == conns.filter(|c: Connection| brings_stream(c, id, results)).map_values(
            |c: Connection| brought_stream(c, results),
        ),
        incoming_streams(id, conns, results).len() == conns.filter(|c: Connection| brings_stream(c, id, results)).len(),
        forall|k: int|
            0 <= k < conns.len() && brings_stream(#[trigger] conns[k], id, results) ==> incoming_streams(id, conns, results).contains(
                brought_stream(conns[k], results),
            ),
        forall|a: int|
            0 <= a < incoming_streams(id, conns, results).len() ==> brought_into(id, conns, results, #[trigger] incoming_streams(id, conns, results)[a]),
    decreases conns.len(),
{
    lemma_incoming_provenance(id, conns, results);
    let pred = |c: Connection| brings_stream(c, id, results);
    let f = |c: Connection| brought_stream(c, results);
    let inc = incoming_streams(id, conns, results);
    if conns.len() == 0 {
        reveal(Seq::filter);
        assert(conns.filter(pred) =~= Seq::<Connection>::empty());
        assert(inc =~= conns.filter(pred).map_values(f));
        assert(inc.len() == 0);
    } else {
        let pc = conns.drop_last();
        let c = conns.last();
        lemma_incoming_streams(id, pc, results);
        assert(conns =~= pc.push(c));
        pc.lemma_filter_push(c, pred);
        let prev = incoming_streams(id, pc, results);
        assert(inc =~= conns.filter(pred).map_values(f));
        assert forall|k: int| 0 <= k < conns.len() && brings_stream(#[trigger] conns[k], id, results) implies inc.contains(brought_stream(conns[k], results)) by {
            if k < conns.len() - 1 {
                assert(pc[k] == conns[k]);
                let a = choose|a: int| 0 <= a < prev.len() && prev[a] == brought_stream(pc[k], results);
                assert(inc[a] == prev[a]);
            } else {
                assert(inc[inc.len() - 1] == brought_stream(c, results));
            }
        }
    }
}

/// The connection brings a stream into some product node of the list.
pub open spec fn brings_product_stream<S>(nodes: Seq<Node>, c: Connection, results: Map<u128, Vec<(String, S)>>) -> bool {
    exists|p: int| 0 <= p < nodes.len() && (#[trigger] nodes[p]).node_type == NodeType::Product && brings_stream(c, nodes[p].id, results)
}

/// The stream is an output that a feed node of the list has produced.
pub open spec fn supplied_by_feed<S>(nodes: Seq<Node>, results: Map<u128, Vec<(String, S)>>, st: StreamRef) -> bool {
    exists|p: int|
        0 <= p < nodes.len() && (#[trigger] nodes[p]).node_type == NodeType::Feed && results.contains_key(nodes[p].id) && st.0 == nodes[p].id
            && st.1 < results[nodes[p].id]@.len()
}

/// The stream is brought into some product node by one of the connections.
pub open spec fn brought_into_product<S>(nodes: Seq<Node>, conns: Seq<Connection>, results: Map<u128, Vec<(String, S)>>, st: StreamRef) -> bool {
    exists|k: int| 0 <= k < conns.len() && brings_product_stream(nodes, #[trigger] conns[k], results) && st == brought_stream(conns[k], results)
}

/// No two product nodes share an identifier.
pub open spec fn product_ids_distinct(nodes: Seq<Node>) -> bool {
    forall|p: int, q: int|
        0 <= p < q < nodes.len() && (#[trigger] nodes[p]).node_type == NodeType::Product && (#[trigger] nodes[q]).node_type == NodeType::Product
            ==> nodes[p].id != nodes[q].id
}

proof fn lemma_filter_disjoint_len(s: Seq<Connection>, p: spec_fn(Connection) -> bool, q: spec_fn(Connection) -> bool)
    requires
        forall|c: Connection| !(#[trigger] p(c) && q(c)),
    ensures
        s.filter(|c: Connection| p(c) || q(c)).len() == s.filter(p).len() + s.filter(q).len(),
    decreases s.len(),
{
    let pq = |c: Connection| p(c) || q(c);
    if s.len() == 0 {
        reveal(Seq::filter);
    } else {
        let ps = s.drop_last();
        let c = s.last();
        lemma_filter_disjoint_len(ps, p, q);
        assert(s =~= ps.push(c));
        ps.lemma_filter_push(c, pq);
        ps.lemma_filter_push(c, p);
        ps.lemma_filter_push(c, q);
        assert(!(p(c) && q(c)));
    }
}

proof fn lemma_product_provenance<S>(nodes: Seq<Node>, conns: Seq<Connection>, results: Map<u128, Vec<(String, S)>>)
    ensures
        forall|a: int|
            0 <= a < product_streams(nodes, conns, results).len() ==> brought_into_product(
                nodes,
                conns,
                results,
                #[trigger] product_streams(nodes, conns, results)[a],
            ),
    decreases nodes.len(),
{
    let ps = product_streams(nodes, conns, results);
    if nodes.len() > 0 {
        let pn = nodes.drop_last();
        let n = nodes.last();
        let last = nodes.len() - 1;
        lemma_product_provenance(pn, conns, results);
        lemma_incoming_provenance(n.id, conns, results);
        let prev = product_streams(pn, conns, results);
        let inc = incoming_streams(n.id, conns, results);
        if n.node_type == NodeType::Product {
            assert(ps == prev + inc);
        } else {
            assert(ps == prev);
        }
        assert forall|k: int| 0 <= k < conns.len() && brings_product_stream(pn, #[trigger] conns[k], results) implies brings_product_stream(nodes, conns[k], results) by {
            let p = choose|p: int| 0 <= p < pn.len() && (#[trigger] pn[p]).node_type == NodeType::Product && brings_stream(conns[k], pn[p].id, results);
            assert(nodes[p] == pn[p]);
        }
        assert forall|a: int| 0 <= a < ps.len() implies brought_into_product(nodes, conns, results, #[trigger] ps[a]) by {
            if a < prev.len() {
                assert(brought_into_product(pn, conns, results, prev[a]));
                let k = choose|k: int| 0 <= k < conns.len() && brings_product_stream(pn, #[trigger] conns[k], results) && prev[a] == brought_stream(conns[k], results);
                assert(ps[a] == prev[a]);
                assert(brings_product_stream(nodes, conns[k], results));
            } else {
                assert(brought_into(n.id, conns, results, inc[a - prev.len()]));
                let k = choose|k: int| 0 <= k < conns.len() && brings_stream(#[trigger] conns[k], n.id, results) && inc[a - prev.len()] == brought_stream(conns[k], results);
                assert(ps[a] == inc[a - prev.len()]);
                assert(nodes[last] == n);
                assert(brings_product_stream(nodes, conns[k], results));
            }
        }
    }
}

/// The streams the products take: for every connection into a product node
/// from a node with results, its stream, and no other; where no two product
/// nodes share an identifier, exactly one stream per such connection.
pub proof fn lemma_product_streams<S>(nodes: Seq<Node>, conns: Seq<Connection>, results: Map<u128, Vec<(String, S)>>)
    ensures
        forall|p: int, k: int|
            0 <= p < nodes.len() && 0 <= k < conns.len() && (#[trigger] nodes[p]).node_type == NodeType::Product && brings_stream(
                #[trigger] conns[k],
                nodes[p].id,
                results,
            ) ==> product_streams(nodes, conns, results).contains(brought_stream(conns[k], results)),
        forall|a: int|
            0 <= a < product_streams(nodes, conns, results).len() ==> brought_into_product(
                nodes,
                conns,
                results,
                #[trigger] product_streams(nodes, conns, results)[a],
            ),
        product_ids_distinct(nodes) ==> product_streams(nodes, conns, results).len() == conns.filter(
            |c: Connection| brings_product_stream(nodes, c, results),
        ).len(),
    decreases nodes.len(),
{
    lemma_product_provenance(nodes, conns, results);
    let ps = product_streams(nodes, conns, results);
    if nodes.len() == 0 {
        reveal(Seq::filter);
        let bp = |c: Connection| brings_product_stream(nodes, c, results);
        assert forall|c: Connection| !#[trigger] bp(c) by {}
        conns.lemma_all_neg_filter_empty(bp);
    } else {
        let pn = nodes.drop_last();
        let n = nodes.last();
        let last = nodes.len() - 1;
        lemma_product_streams(pn, conns, results);
        lemma_incoming_streams(n.id, conns, results);
        let prev = product_streams(pn, conns, results);
        let inc = incoming_streams(n.id, conns, results);
        if n.node_type == NodeType::Product {
            assert(ps == prev + inc);
        } else {
            assert(ps == prev);
        }
        assert forall|p: int, k: int|
            0 <= p < nodes.len() && 0 <= k < conns.len() && (#[trigger] nodes[p]).node_type == NodeType::Product && brings_stream(
                #[trigger] conns[k],
                nodes[p].id,
                results,
            ) implies ps.contains(brought_stream(conns[k], results)) by {
            if p < last {
                assert(pn[p] == nodes[p]);
                let a = choose|a: int| 0 <= a < prev.len() && prev[a] == brought_stream(conns[k], results);
                assert(ps[a] == prev[a]);
            } else {
                assert(nodes[p] == n);
                let a = choose|a: int| 0 <= a < inc.len() && inc[a] == brought_stream(conns[k], results);
                assert(ps[prev.len() + a] == inc[a]);
            }
        }
        assert forall|k: int| 0 <= k < conns.len() && brings_product_stream(pn, #[trigger] conns[k], results) implies brings_product_stream(nodes, conns[k], results) by {
            let p = choose|p: int| 0 <= p < pn.len() && (#[trigger] pn[p]).node_type == NodeType::Product && brings_stream(conns[k], pn[p].id, results);
            assert(nodes[p] == pn[p]);
        }
        if product_ids_distinct(nodes) {
            assert(product_ids_distinct(pn)) by {
                assert forall|p: int, q: int|
                    0 <= p < q < pn.len() && (#[trigger] pn[p]).node_type == NodeType::Product && (#[trigger] pn[q]).node_type == NodeType::Product
                        implies pn[p].id != pn[q].id by {
                    assert(nodes[p] == pn[p] && nodes[q] == pn[q]);
                }
            }
            let bp = |c: Connection| brings_product_stream(nodes, c, results);
            let bpp = |c: Connection| brings_product_stream(pn, c, results);
            if n.node_type == NodeType::Product {
                let bl = |c: Connection| brings_stream(c, n.id, results);
                assert forall|c: Connection| !(#[trigger] bpp(c) && bl(c)) by {
                    if bpp(c) && bl(c) {
                        let p = choose|p: int| 0 <= p < pn.len() && (#[trigger] pn[p]).node_type == NodeType::Product && brings_stream(c, pn[p].id, results);
                        assert(nodes[p] == pn[p]);
                        assert(nodes[last] == n);
                        assert(nodes[p].id != nodes[last].id);
                    }
                }
                lemma_filter_disjoint_len(conns, bpp, bl);
                assert forall|c: Connection| #[trigger] bp(c) == (bpp(c) || bl(c)) by {
                    if bp(c) {
                        let p = choose|p: int| 0 <= p < nodes.len() && (#[trigger] nodes[p]).node_type == NodeType::Product && brings_stream(c, nodes[p].id, results);
                        if p < last {
                            assert(pn[p] == nodes[p]);
                        }
                    }
                    if bl(c) {
                        assert(nodes[last] == n);
                    }
                    if bpp(c) {
                        let p = choose|p: int| 0 <= p < pn.len() && (#[trigger] pn[p]).node_type == NodeType::Product && brings_stream(c, pn[p].id, results);
                        assert(nodes[p] == pn[p]);
                    }
                }
                assert(bp =~= (|c: Connection| bpp(c) || bl(c)));
            } else {
                assert forall|c: Connection| #[trigger] bp(c) == bpp(c) by {
                    if bp(c) {
                        let p = choose|p: int| 0 <= p < nodes.len() && (#[trigger] nodes[p]).node_type == NodeType::Product && brings_stream(c, nodes[p].id, results);
                        assert(p != last);
                        assert(pn[p] == nodes[p]);
                    }
                    if bpp(c) {
                        let p = choose|p: int| 0 <= p < pn.len() && (#[trigger] pn[p]).node_type == NodeType::Product && brings_stream(c, pn[p].id, results);
                        assert(nodes[p] == pn[p]);
                    }
                }
                assert(bp =~= bpp);
            }
        }
    }
}

/// The streams the feeds supply are the outputs of the feed nodes with
/// results: every output of every such node appears, and nothing else.
pub proof fn lemma_feed_streams<S>(nodes: Seq<Node>, results: Map<u128, Vec<(String, S)>>)
    ensures
        forall|p: int, k: usize|
            0 <= p < nodes.len() && (#[trigger] nodes[p]).node_type == NodeType::Feed && results.contains_key(nodes[p].id) && k
                < results[nodes[p].id]@.len() ==> #[trigger] feed_streams(nodes, results).contains((nodes[p].id, k)),
        forall|a: int|
            0 <= a < feed_streams(nodes, results).len() ==> supplied_by_feed(nodes, results, #[trigger] feed_streams(nodes, results)[a]),
    decreases nodes.len(),
{
    let fs = feed_streams(nodes, results);
    if nodes.len() > 0 {
        let pn = nodes.drop_last();
        let n = nodes.last();
        let last = nodes.len() - 1;
        lemma_feed_streams(pn, results);
        let prev = feed_streams(pn, results);
        let outs = if n.node_type == NodeType::Feed && results.contains_key(n.id) {
            all_outputs(n.id, results[n.id]@.len())
        } else {
            Seq::empty()
        };
        assert(fs =~= prev + outs);
        assert forall|p: int, k: usize|
            0 <= p < nodes.len() && (#[trigger] nodes[p]).node_type == NodeType::Feed && results.contains_key(nodes[p].id) && k
                < results[nodes[p].id]@.len() implies #[trigger] fs.contains((nodes[p].id, k)) by {
            if p < last {
                assert(pn[p] == nodes[p]);
                assert(prev.contains((pn[p].id, k)));
                let a = choose|a: int| 0 <= a < prev.len() && prev[a] == (pn[p].id, k);
                assert(fs[a] == prev[a]);
            } else {
                assert(nodes[p] == n);
                assert(fs[prev.len() + k] == outs[k as int]);
            }
        }
        assert forall|a: int| 0 <= a < fs.len() implies supplied_by_feed(nodes, results, #[trigger] fs[a]) by {
            if a < prev.len() {
                assert(supplied_by_feed(pn, results, prev[a]));
                let p = choose|p: int|
                    0 <= p < pn.len() && (#[trigger] pn[p]).node_type == NodeType::Feed && results.contains_key(pn[p].id) && prev[a].0 == pn[p].id
                        && prev[a].1 < results[pn[p].id]@.len();
                assert(nodes[p] == pn[p]);
                assert(fs[a] == prev[a]);
            } else {
                assert(nodes[last] == n);
                assert(fs[a] == outs[a - prev.len()]);
            }
        }
    }
}

fn incoming_streams_of<S>(id: u128, conns: &Vec<Connection>, results: &HashMap<u128, Vec<(String, S)>>, out: &mut Vec<StreamRef>)
    ensures
        final(out)@ == old(out)@ + incoming_streams(id, conns@, results@),
{
    let ghost start = out@;
    let m = conns.len();
    for j in 0..m
        invariant
            m == conns@.len(),
            out@ == start + incoming_streams(id, conns@.take(j as int), results@),
    {
        let c = &conns[j];
        assert(conns@.take(j + 1).drop_last() =~= conns@.take(j as int));
        if c.target_node == id {
            match results.get(&c.origin_node) {
                Some(outputs) => {
                    if c.origin_slot < outputs.len() {
                        out.push((c.origin_node, c.origin_slot));
                    } else if outputs.len() > 0 {
                        out.push((c.origin_node, 0));
                    }
                },
                None => {},
            }
        }
        assert(out@ =~= start + incoming_streams(id, conns@.take(j + 1), results@));
    }
    assert(conns@.take(m as int) =~= conns@);
}

/// The streams the overall mass balance compares: those the feed nodes
/// supply, and those the product nodes take.
pub fn balance_streams<S>(graph: &FlowGraph, results: &HashMap<u128, Vec<(String, S)>>) -> (r: (Vec<StreamRef>, Vec<StreamRef>))
    ensures
        r.0@ == feed_streams(graph.nodes@, results@),
        r.1@ == product_streams(graph.nodes@, graph.connections@, results@),
        streams_resolve(r.0@, results@),
        streams_resolve(r.1@, results@),
        forall|p: int, k: usize|
            0 <= p < graph.nodes@.len() && (#[trigger] graph.nodes@[p]).node_type == NodeType::Feed && results@.contains_key(graph.nodes@[p].id)
                && k < results@[graph.nodes@[p].id]@.len() ==> #[trigger] r.0@.contains((graph.nodes@[p].id, k)),
        forall|a: int| 0 <= a < r.0@.len() ==> supplied_by_feed(graph.nodes@, results@, #[trigger] r.0@[a]),
        forall|p: int, k: int|
            0 <= p < graph.nodes@.len() && 0 <= k < graph.connections@.len() && (#[trigger] graph.nodes@[p]).node_type == NodeType::Product
                && brings_stream(#[trigger] graph.connections@[k], graph.nodes@[p].id, results@) ==> r.1@.contains(
                brought_stream(graph.connections@[k], results@),
            ),
        forall|a: int| 0 <= a < r.1@.len() ==> brought_into_product(graph.nodes@, graph.connections@, results@, #[trigger] r.1@[a]),
        product_ids_distinct(graph.nodes@) ==> r.1@.len() == graph.connections@.filter(
            |c: Connection| brings_product_stream(graph.nodes@, c, results@),
        ).len(),
{
    proof {
        lemma_feed_streams(graph.nodes@, results@);
        lemma_product_streams(graph.nodes@, graph.connections@, results@);
    }
    let mut feeds: Vec<StreamRef> = Vec::new();
    let mut products: Vec<StreamRef> = Vec::new();
    let n = graph.nodes.len();
    for i in 0..n
        invariant
            n == graph.nodes@.len(),
            feeds@ == feed_streams(graph.nodes@.take(i as int), results@),
            products@ == product_streams(graph.nodes@.take(i as int), graph.connections@, results@),
    {
        let node = &graph.nodes[i];
        assert(graph.nodes@.take(i + 1).drop_last() =~= graph.nodes@.take(i as int));
        match node.node_type {
            NodeType::Feed => {
                match results.get(&node.id) {
                    Some(outputs) => {
                        let ghost before = feeds@;
                        let count = outputs.len();
                        for k in 0..count
                            invariant
                                feeds@ == before + all_outputs(node.id, count as nat).take(k as int),
                        {
                            feeds.push((node.id, k));
                            assert(all_outputs(node.id, count as nat).take(k + 1) =~= all_outputs(node.id, count as nat).take(k as int).push((node.id, k)));
                            assert(feeds@ =~= before + all_outputs(node.id, count as nat).take(k + 1));
                        }
                        assert(all_outputs(node.id, count as nat).take(count as int) =~= all_outputs(node.id, count as nat));
                    },
                    None => {},
                }
            },
            NodeType::Product => {
                incoming_streams_of(node.id, &graph.connections, results, &mut products);
            },
            _ => {},
        }
    }
    assert(graph.nodes@.take(n as int) =~= graph.nodes@);
    proof {
        lemma_balance_streams_resolve(graph.nodes@, graph.connections@, results@);
    }
    (feeds, products)
}

} // verus!
