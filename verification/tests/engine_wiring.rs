use std::collections::HashMap;

use massflowcal::dag::{build_dag, compute_order, evaluation_order, graph_is_acyclic};
use massflowcal::engine::{balance_streams, collect_inputs, evaluate, try_evaluate, unselected_feed_message, EvalError, InputLink};
use massflowcal::editor::{
    connection_wire_names, connections_to_wires, find_canvas_node, is_new_component, keyed_reactions, name_of_wire, remove_node_wire_names,
    set_wire_name, wire_names_unique, wires_to_connections, Wire,
};
use massflowcal::error::EngineError;
use massflowcal::model::{Connection, FlowGraph, Node, NodeType};
use massflowcal::ports::{to_graph_node, NodeShape};
use massflowcal::report::{connection_label, connection_streams};

fn node(shape: NodeShape, id: u128) -> Node {
    to_graph_node(&shape, id, format!("node {}", id), None)
}

fn conn(id: u128, origin_node: u128, origin_slot: usize, target_node: u128, target_slot: usize) -> Connection {
    Connection { id, origin_node, origin_slot, target_node, target_slot, stream_name: None }
}

fn graph(nodes: Vec<Node>, connections: Vec<Connection>) -> FlowGraph {
    FlowGraph { id: 0, name: "current".to_string(), nodes, connections }
}

fn position(order: &[u128], id: u128) -> usize {
    order.iter().position(|x| *x == id).unwrap()
}

#[test]
fn chain_is_evaluated_upstream_first() {
    // product(3) <- mixer(2) <- feed(1), listed out of order
    let g = graph(
        vec![node(NodeShape::Product, 3), node(NodeShape::Mixer, 2), node(NodeShape::Feed, 1)],
        vec![conn(10, 2, 0, 3, 0), conn(11, 1, 0, 2, 0)],
    );
    let order = evaluation_order(&g).unwrap();
    assert_eq!(order, vec![1, 2, 3]);
}

#[test]
fn diamond_respects_every_connection() {
    let g = graph(
        vec![
            node(NodeShape::Mixer, 4),
            node(NodeShape::Splitter { outlets: 2 }, 2),
            node(NodeShape::Feed, 1),
            node(NodeShape::Reactor, 3),
        ],
        vec![conn(1, 1, 0, 2, 0), conn(2, 2, 0, 4, 0), conn(3, 2, 1, 3, 0), conn(4, 3, 0, 4, 1)],
    );
    let order = evaluation_order(&g).unwrap();
    assert_eq!(order.len(), 4);
    for c in &g.connections {
        assert!(position(&order, c.origin_node) < position(&order, c.target_node));
    }
}

#[test]
fn cycle_is_detected() {
    let g = graph(
        vec![node(NodeShape::Mixer, 1), node(NodeShape::Reactor, 2)],
        vec![conn(1, 1, 0, 2, 0), conn(2, 2, 0, 1, 1)],
    );
    assert!(matches!(evaluation_order(&g), Err(EngineError::CycleDetected)));
    let self_loop = graph(vec![node(NodeShape::Mixer, 1)], vec![conn(1, 1, 0, 1, 0)]);
    assert!(matches!(evaluation_order(&self_loop), Err(EngineError::CycleDetected)));
}

#[test]
fn dag_skips_connections_to_unknown_nodes() {
    let g = graph(vec![node(NodeShape::Feed, 1), node(NodeShape::Product, 2)], vec![conn(1, 1, 0, 2, 0), conn(2, 99, 0, 2, 0)]);
    let (dag, map) = build_dag(&g).unwrap();
    assert_eq!(dag.node_count(), 2);
    assert_eq!(dag.edge_count(), 1);
    assert_eq!(map.get(&1), Some(&0));
    assert_eq!(map.get(&2), Some(&1));
    assert_eq!(compute_order(&dag, &map).unwrap(), vec![1, 2]);
}

#[test]
fn empty_flowsheet_has_empty_order() {
    let g = graph(Vec::new(), Vec::new());
    assert!(evaluation_order(&g).unwrap().is_empty());
}

fn results_with(entries: &[(u128, usize)]) -> HashMap<u128, Vec<(String, f64)>> {
    entries
        .iter()
        .map(|(id, n)| (*id, (0..*n).map(|k| (format!("out_{}", k + 1), k as f64)).collect()))
        .collect()
}

fn link(port: &str, origin_node: u128, origin_slot: usize) -> (String, u128, usize) {
    (port.to_string(), origin_node, origin_slot)
}

fn view(links: &[InputLink]) -> Vec<(String, u128, usize)> {
    links.iter().map(|l| (l.port.clone(), l.origin_node, l.origin_slot)).collect()
}

#[test]
fn inputs_follow_the_connections() {
    let mixer = node(NodeShape::Mixer, 5);
    let conns = vec![conn(1, 1, 0, 5, 0), conn(2, 2, 1, 5, 1), conn(3, 3, 0, 9, 0)];
    let results = results_with(&[(1, 1), (2, 2)]);
    let links = collect_inputs(&mixer, &conns, &results).unwrap();
    assert_eq!(view(&links), vec![link("in_1", 1, 0), link("in_2", 2, 1)]);
}

#[test]
fn later_connection_to_the_same_port_wins() {
    let mixer = node(NodeShape::Mixer, 5);
    let conns = vec![conn(1, 1, 0, 5, 0), conn(2, 2, 0, 5, 1), conn(3, 3, 0, 5, 0)];
    let results = results_with(&[(1, 1), (2, 1), (3, 1)]);
    let links = collect_inputs(&mixer, &conns, &results).unwrap();
    assert_eq!(view(&links), vec![link("in_1", 3, 0), link("in_2", 2, 0)]);
}

#[test]
fn undeclared_slot_and_missing_output() {
    let product = node(NodeShape::Product, 5);
    // slot 4 is not declared by a product; origin 2 has no output 3
    let conns = vec![conn(1, 1, 0, 5, 4), conn(2, 2, 3, 5, 0)];
    let results = results_with(&[(1, 1), (2, 2)]);
    let links = collect_inputs(&product, &conns, &results).unwrap();
    assert_eq!(view(&links), vec![link("slot_4", 1, 0)]);
}

#[test]
fn input_from_uncomputed_node_is_an_error() {
    let product = node(NodeShape::Product, 5);
    let conns = vec![conn(1, 1, 0, 5, 0), conn(2, 0x0123456789abcdef0011223344556677, 0, 5, 0)];
    let results = results_with(&[(1, 1)]);
    match collect_inputs(&product, &conns, &results) {
        Err(EngineError::UpstreamNotComputed { node, upstream }) => {
            assert_eq!(node, "node 5");
            assert_eq!(upstream, "01234567-89ab-cdef-0011-223344556677");
        }
        other => panic!("unexpected {:?}", other),
    }
}

fn total_in(links: &[InputLink], results: &HashMap<u128, Vec<(String, f64)>>) -> f64 {
    links.iter().map(|l| results[&l.origin_node][l.origin_slot].1).sum()
}

fn toy_compute(n: &Node, links: &Vec<InputLink>, results: &HashMap<u128, Vec<(String, f64)>>) -> Result<Vec<(String, f64)>, String> {
    match n.node_type {
        NodeType::Feed => Ok(vec![("feed_out".to_string(), n.id as f64)]),
        NodeType::Splitter => {
            let total = total_in(links, results);
            Ok(vec![("out_1".to_string(), total * 0.25), ("out_2".to_string(), total * 0.75)])
        }
        NodeType::Reactor => Err(format!("cannot react in {}", n.title)),
        _ => Ok(vec![("out".to_string(), total_in(links, results))]),
    }
}

#[test]
fn evaluation_computes_every_node_from_its_inputs() {
    let g = graph(
        vec![
            node(NodeShape::Product, 6),
            node(NodeShape::Mixer, 3),
            node(NodeShape::Feed, 10),
            node(NodeShape::Feed, 20),
            node(NodeShape::Splitter { outlets: 2 }, 4),
            node(NodeShape::Product, 5),
        ],
        vec![conn(1, 10, 0, 3, 0), conn(2, 20, 0, 3, 1), conn(3, 3, 0, 4, 0), conn(4, 4, 0, 5, 0), conn(5, 4, 1, 6, 0)],
    );
    let results = evaluate(&g, toy_compute).unwrap();
    assert_eq!(results.len(), 6);
    assert_eq!(results[&3][0].1, 30.0);
    assert_eq!(results[&5][0].1, 7.5);
    assert_eq!(results[&6][0].1, 22.5);

    let (feeds, products) = balance_streams(&g, &results);
    assert_eq!(feeds, vec![(10, 0), (20, 0)]);
    assert_eq!(products, vec![(4, 1), (4, 0)]);
}

#[test]
fn evaluation_stops_at_errors() {
    let cyclic = graph(vec![node(NodeShape::Mixer, 1), node(NodeShape::Mixer, 2)], vec![conn(1, 1, 0, 2, 0), conn(2, 2, 0, 1, 0)]);
    assert!(matches!(evaluate(&cyclic, toy_compute), Err(EvalError::Engine(EngineError::CycleDetected))));

    let dangling = graph(vec![node(NodeShape::Product, 1)], vec![conn(1, 77, 0, 1, 0)]);
    assert!(matches!(evaluate(&dangling, toy_compute), Err(EvalError::Engine(EngineError::UpstreamNotComputed { .. }))));

    let failing = graph(vec![node(NodeShape::Feed, 1), node(NodeShape::Reactor, 2)], vec![conn(1, 1, 0, 2, 0)]);
    match evaluate(&failing, toy_compute) {
        Err(EvalError::Node(msg)) => assert_eq!(msg, "cannot react in node 2"),
        other => panic!("unexpected {:?}", other.map(|r| r.len())),
    }
}

#[test]
fn balance_takes_first_output_for_unknown_slot() {
    let g = graph(
        vec![node(NodeShape::Feed, 1), node(NodeShape::Product, 2), node(NodeShape::Product, 3)],
        vec![conn(1, 1, 5, 2, 0), conn(2, 8, 0, 3, 0)],
    );
    let results = results_with(&[(1, 2), (2, 1)]);
    let (feeds, products) = balance_streams(&g, &results);
    assert_eq!(feeds, vec![(1, 0), (1, 1)]);
    assert_eq!(products, vec![(1, 0)]);
}

#[test]
fn cycle_is_reported_even_with_repeated_ids() {
    let g = graph(
        vec![node(NodeShape::Mixer, 1), node(NodeShape::Mixer, 1), node(NodeShape::Reactor, 2)],
        vec![conn(1, 1, 0, 2, 0), conn(2, 2, 0, 1, 1)],
    );
    assert!(matches!(evaluation_order(&g), Err(EngineError::CycleDetected)));
}

#[test]
fn streams_shown_per_connection() {
    let g = graph(
        vec![node(NodeShape::Feed, 1), node(NodeShape::Product, 2)],
        vec![conn(1, 1, 0, 2, 0), conn(2, 1, 3, 2, 0), conn(3, 9, 0, 2, 0)],
    );
    let results = results_with(&[(1, 1)]);
    assert_eq!(connection_streams(&g, &results), vec![(0, (1, 0))]);
    assert_eq!(connection_label(&g, &g.connections[0]), "node 1 → node 2");
    assert_eq!(connection_label(&g, &g.connections[2]), " → node 2");
}

#[test]
fn canvas_wires_become_connections_and_back() {
    let ids: HashMap<usize, u128> = [(0usize, 11u128), (1, 22)].into_iter().collect();
    let wires = vec![
        Wire { out_node: 0, out_slot: 0, in_node: 1, in_slot: 1 },
        Wire { out_node: 5, out_slot: 2, in_node: 1, in_slot: 0 },
    ];
    let conns = wires_to_connections(&wires, &ids, &vec![100, 101], &Vec::new());
    assert_eq!(conns[0], conn(100, 11, 0, 22, 1));
    assert_eq!(conns[1], conn(101, 0, 2, 22, 0));
    let back = connections_to_wires(&conns, &ids);
    assert_eq!(back, vec![wires[0]]);
    assert_eq!(find_canvas_node(&ids, 22), Some(1));
    assert_eq!(find_canvas_node(&ids, 33), None);
}

#[test]
fn named_wires_keep_their_stream_names() {
    let ids: HashMap<usize, u128> = [(0usize, 11u128), (1, 22), (2, 33)].into_iter().collect();
    let a = Wire { out_node: 0, out_slot: 0, in_node: 1, in_slot: 0 };
    let b = Wire { out_node: 1, out_slot: 0, in_node: 2, in_slot: 0 };
    let repeated = vec![(b, "粗品".to_string()), (b, "later".to_string())];
    assert_eq!(name_of_wire(&repeated, b), Some("粗品".to_string()));
    assert!(!wire_names_unique(&repeated));
    let names = vec![(b, "粗品".to_string())];
    assert!(wire_names_unique(&names));
    assert_eq!(name_of_wire(&names, a), None);
    let conns = wires_to_connections(&vec![a, b], &ids, &vec![7, 8], &names);
    assert_eq!(conns[0].stream_name, None);
    assert_eq!(conns[1].stream_name, Some("粗品".to_string()));
    assert_eq!(connection_wire_names(&conns, &ids), vec![(b, "粗品".to_string())]);
    let g = graph(vec![node(NodeShape::Feed, 11), node(NodeShape::Mixer, 22), node(NodeShape::Product, 33)], conns);
    assert_eq!(connection_label(&g, &g.connections[0]), "node 11 → node 22");
    assert_eq!(connection_label(&g, &g.connections[1]), "粗品");
}

#[test]
fn custom_node_name_is_kept() {
    let n = to_graph_node(&NodeShape::Mixer, 5, "精馏塔".to_string(), Some("精馏塔".to_string()));
    assert_eq!(n.custom_name, Some("精馏塔".to_string()));
    assert_eq!(node(NodeShape::Mixer, 6).custom_name, None);
}

#[test]
fn acyclicity_and_distinct_ids() {
    let chain = graph(vec![node(NodeShape::Feed, 1), node(NodeShape::Product, 2)], vec![conn(1, 1, 0, 2, 0)]);
    let looped = graph(
        vec![node(NodeShape::Mixer, 1), node(NodeShape::Reactor, 2)],
        vec![conn(1, 1, 0, 2, 0), conn(2, 2, 0, 1, 1)],
    );
    let self_loop = graph(vec![node(NodeShape::Mixer, 1)], vec![conn(1, 1, 0, 1, 0)]);
    assert!(graph_is_acyclic(&chain));
    assert!(!graph_is_acyclic(&looped));
    assert!(!graph_is_acyclic(&self_loop));
    assert!(chain.node_ids_distinct());
    let repeated = graph(vec![node(NodeShape::Feed, 3), node(NodeShape::Product, 3)], Vec::new());
    assert!(!repeated.node_ids_distinct());
}

#[test]
fn try_evaluate_refuses_only_acyclic_repeated_ids() {
    let repeated = graph(vec![node(NodeShape::Feed, 3), node(NodeShape::Product, 3)], Vec::new());
    assert!(try_evaluate(&repeated, toy_compute).is_none());
    let repeated_cycle = graph(
        vec![node(NodeShape::Mixer, 1), node(NodeShape::Mixer, 1), node(NodeShape::Reactor, 2)],
        vec![conn(1, 1, 0, 2, 0), conn(2, 2, 0, 1, 1)],
    );
    assert!(matches!(try_evaluate(&repeated_cycle, toy_compute), Some(Err(EvalError::Engine(EngineError::CycleDetected)))));
    let chain = graph(vec![node(NodeShape::Feed, 1), node(NodeShape::Product, 2)], vec![conn(1, 1, 0, 2, 0)]);
    let results = try_evaluate(&chain, toy_compute).unwrap().unwrap();
    assert_eq!(results.len(), 2);
}

#[test]
fn feed_without_component_stops_the_computation() {
    let feeds = vec![
        ("进料: 7732-18-5@100.0".to_string(), "7732-18-5".to_string()),
        ("进料: @50.0".to_string(), String::new()),
        ("进料: @20.0".to_string(), String::new()),
    ];
    assert_eq!(unselected_feed_message(&feeds), Some("错误: '进料: @50.0' 未选择组分".to_string()));
    assert_eq!(unselected_feed_message(&feeds[..1].to_vec()), None);
    assert_eq!(unselected_feed_message(&Vec::new()), None);
}

#[test]
fn setting_and_removing_wire_names() {
    let a = Wire { out_node: 0, out_slot: 0, in_node: 1, in_slot: 0 };
    let b = Wire { out_node: 1, out_slot: 0, in_node: 2, in_slot: 0 };
    let mut names: Vec<(Wire, String)> = Vec::new();
    set_wire_name(&mut names, a, "x".to_string());
    set_wire_name(&mut names, b, "y".to_string());
    set_wire_name(&mut names, a, "z".to_string());
    assert_eq!(names.len(), 2);
    assert_eq!(name_of_wire(&names, a), Some("z".to_string()));
    assert_eq!(name_of_wire(&names, b), Some("y".to_string()));
    remove_node_wire_names(&mut names, 0);
    assert_eq!(name_of_wire(&names, a), None);
    assert_eq!(name_of_wire(&names, b), Some("y".to_string()));
    remove_node_wire_names(&mut names, 2);
    assert!(names.is_empty());
}

#[test]
fn later_stream_name_wins_when_loading() {
    let ids: HashMap<usize, u128> = [(0usize, 11u128), (1, 22)].into_iter().collect();
    let mut first = conn(1, 11, 0, 22, 0);
    first.stream_name = Some("旧".to_string());
    let mut second = conn(2, 11, 0, 22, 0);
    second.stream_name = Some("新".to_string());
    let names = connection_wire_names(&vec![first, second], &ids);
    assert_eq!(names, vec![(Wire { out_node: 0, out_slot: 0, in_node: 1, in_slot: 0 }, "新".to_string())]);
}

#[test]
fn shared_identifiers_still_give_one_wire_per_connection() {
    let ids: HashMap<usize, u128> = [(0usize, 11u128), (1, 11), (2, 22)].into_iter().collect();
    let conns = vec![conn(1, 11, 0, 22, 0), conn(2, 9, 0, 22, 0), conn(3, 22, 1, 11, 1)];
    let wires = connections_to_wires(&conns, &ids);
    assert_eq!(wires.len(), 2);
    assert!(ids[&wires[0].out_node] == 11 && wires[0].in_node == 2 && wires[0].out_slot == 0);
    assert!(wires[1].out_node == 2 && ids[&wires[1].in_node] == 11 && wires[1].in_slot == 1);
}

#[test]
fn project_components_and_reactions() {
    let cas = vec!["7732-18-5".to_string(), "64-17-5".to_string()];
    assert!(!is_new_component(&cas, &"64-17-5".to_string()));
    assert!(is_new_component(&cas, &"67-56-1".to_string()));
    let keys = vec!["7732-18-5".to_string(), String::new(), "64-17-5".to_string()];
    assert_eq!(keyed_reactions(&keys), vec![0, 2]);
}
