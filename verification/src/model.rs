//! The flowsheet as the engine reads it: nodes with their ports, and the
//! connections between output and input ports. Identifiers are the 128-bit
//! values of the nodes' and connections' UUIDs.

use vstd::prelude::*;

verus! {

/// Direction of a port.
#[derive(Clone, Copy, Debug, PartialEq, Eq, Structural)]
pub enum PortType {
    Input,
    Output,
}

/// A port of a node: its internal name, its display label and its direction.
#[derive(Clone, Debug)]
pub struct Port {
    pub name: String,
    pub label: String,
    pub port_type: PortType,
}

impl Port {
    pub open spec fn view(&self) -> (Seq<char>, Seq<char>, PortType) {
        (self.name@, self.label@, self.port_type)
    }
}

/// The views of a list of ports.
pub open spec fn ports_view(ports: Seq<Port>) -> Seq<(Seq<char>, Seq<char>, PortType)> {
    ports.map_values(|p: Port| p.view())
}

/// The kind of unit operation a node performs.
#[derive(Clone, Copy, Debug, PartialEq, Eq, Structural)]
pub enum NodeType {
    Feed,
    Product,
    Reactor,
    Splitter,
    Mixer,
    Separator,
    Decanter,
    Calculator,
    UnitConversion,
    Copy,
    Filter,
}

/// Basis of a flow rate: mass (kg/h) or moles (kmol/h).
#[derive(Clone, Copy, Debug, PartialEq, Eq, Structural)]
pub enum FlowBasis {
    Mass,
    Mole,
}

/// Hardware kind of a separator; it names the separator's two outlets.
#[derive(Clone, Copy, Debug, PartialEq, Eq, Structural)]
pub enum SeparatorKind {
    GasLiquid,
    GasSolid,
    General,
}

/// Parameters of a unit conversion node.
#[derive(Clone, Copy, Debug)]
pub struct UnitConversionParams {
    pub target_basis: FlowBasis,
}

/// A connection from output port `origin_slot` of node `origin_node` to input
/// port `target_slot` of node `target_node`, with the name the user gave the
/// stream it carries, if any.
#[derive(Clone, Debug, PartialEq, Eq)]
pub struct Connection {
    pub id: u128,
    pub origin_node: u128,
    pub origin_slot: usize,
    pub target_node: u128,
    pub target_slot: usize,
    pub stream_name: Option<String>,
}

/// A node of the flowsheet as far as the engine's wiring reads it, with the
/// name the user gave it, if any.
#[derive(Clone, Debug)]
pub struct Node {
    pub id: u128,
    pub node_type: NodeType,
    pub title: String,
    pub custom_name: Option<String>,
    pub inputs: Vec<Port>,
    pub outputs: Vec<Port>,
}

/// A flowsheet: its nodes and the connections between them.
#[derive(Clone, Debug)]
pub struct FlowGraph {
    pub id: u128,
    pub name: String,
    pub nodes: Vec<Node>,
    pub connections: Vec<Connection>,
}

/// A saved flowsheet as listed by the store.
#[derive(Clone, Debug)]
pub struct FlowSummary {
    pub id: String,
    pub name: String,
    pub updated_at: String,
}

impl FlowGraph {
    /// The identifiers of the nodes, in the order of the node list.
    pub open spec fn node_ids(self) -> Seq<u128> {
        self.nodes@.map_values(|n: Node| n.id)
    }

    /// No two nodes share an identifier.
    pub open spec fn ids_distinct(self) -> bool {
        self.node_ids().no_duplicates()
    }

    pub open spec fn has_node(self, id: u128) -> bool {
        self.node_ids().contains(id)
    }

    /// Whether no two nodes share an identifier.
    pub fn node_ids_distinct(&self) -> (b: bool)
        ensures
            b == self.ids_distinct(),
    {
        let n = self.nodes.len();
        for i in 0..n
            invariant
                n == self.nodes@.len(),
                forall|a: int, b: int| 0 <= a < b < i ==> self.node_ids()[a] != self.node_ids()[b],
        {
            for j in 0..i
                invariant
                    n == self.nodes@.len(),
                    i < n,
                    forall|a: int, b: int| 0 <= a < b < i ==> self.node_ids()[a] != self.node_ids()[b],
                    forall|a: int| 0 <= a < j ==> self.node_ids()[a] != self.node_ids()[i as int],
            {
                if self.nodes[j].id == self.nodes[i].id {
                    assert(self.node_ids()[j as int] == self.node_ids()[i as int]);
                    return false;
                }
            }
        }
        true
    }
}

} // verus!
