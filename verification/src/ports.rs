//! The ports of each kind of unit operation: what a node offers to be wired,
//! and the number of pins the canvas draws for it.

use vstd::prelude::*;

use crate::model::{FlowBasis, Node, NodeType, Port, PortType, SeparatorKind, ports_view};
use crate::text::{all_digits, decimal_string, decimal_text, decimal_value, lemma_decimal_round_trip, lemma_decimal_text_injective};

verus! {

/// The shape of a node as the editor holds it: its kind, with what decides
/// its ports (the number of splitter outlets, the separator kind, the number
/// of copies).
#[derive(Clone, Copy, Debug)]
pub enum NodeShape {
    Feed,
    Product,
    Reactor,
    Splitter { outlets: usize },
    Mixer,
    Separator { kind: SeparatorKind },
    Decanter,
    Calculator,
    UnitConversion,
    Copy { copies: usize },
    Filter,
}

pub type PortView = (Seq<char>, Seq<char>, PortType);

/// The unit operation a shape performs.
pub open spec fn shape_type(s: NodeShape) -> NodeType {
    match s {
        NodeShape::Feed => NodeType::Feed,
        NodeShape::Product => NodeType::Product,
        NodeShape::Reactor => NodeType::Reactor,
        NodeShape::Splitter { .. } => NodeType::Splitter,
        NodeShape::Mixer => NodeType::Mixer,
        NodeShape::Separator { .. } => NodeType::Separator,
        NodeShape::Decanter => NodeType::Decanter,
        NodeShape::Calculator => NodeType::Calculator,
        NodeShape::UnitConversion => NodeType::UnitConversion,
        NodeShape::Copy { .. } => NodeType::Copy,
        NodeShape::Filter => NodeType::Filter,
    }
}

pub open spec fn input_port(name: Seq<char>, label: Seq<char>) -> PortView {
    (name, label, PortType::Input)
}

pub open spec fn output_port(name: Seq<char>, label: Seq<char>) -> PortView {
    (name, label, PortType::Output)
}

/// The input ports of each shape.
pub open spec fn input_layout(s: NodeShape) -> Seq<PortView> {
    match s {
        NodeShape::Feed => seq![input_port("feed_in"@, "输入"@)],
        NodeShape::Product => seq![input_port("product_in"@, "输入"@)],
        NodeShape::Reactor => seq![input_port("feed"@, "进料"@)],
        NodeShape::Splitter { .. } => seq![input_port("feed"@, "进料"@)],
        NodeShape::Mixer => seq![input_port("in_1"@, "入口1"@), input_port("in_2"@, "入口2"@)],
        NodeShape::Separator { .. } => seq![input_port("feed"@, "进料"@)],
        NodeShape::Decanter => seq![input_port("feed"@, "进料"@)],
        NodeShape::Calculator => seq![input_port("in_A"@, "A"@), input_port("in_B"@, "B"@)],
        NodeShape::UnitConversion => seq![input_port("input"@, "输入"@)],
        NodeShape::Copy { .. } => seq![input_port("in"@, "输入"@)],
        NodeShape::Filter => seq![input_port("in"@, "输入"@)],
    }
}

/// `count` output ports named `out_1`, `out_2`, ... with the labels
/// `label_prefix` followed by the same number.
pub open spec fn numbered_outputs(label_prefix: Seq<char>, count: nat) -> Seq<PortView> {
    Seq::new(
        count,
        |i: int| output_port("out_"@ + decimal_text((i + 1) as nat), label_prefix + decimal_text((i + 1) as nat)),
    )
}

/// The names of a separator's two outlets.
pub open spec fn separator_outlets(kind: SeparatorKind) -> (Seq<char>, Seq<char>) {
    match kind {
        SeparatorKind::GasLiquid => ("gas"@, "liquid"@),
        SeparatorKind::GasSolid => ("gas"@, "solid"@),
        SeparatorKind::General => ("outlet_1"@, "outlet_2"@),
    }
}

/// The output ports of each shape.
pub open spec fn output_layout(s: NodeShape) -> Seq<PortView> {
    match s {
        NodeShape::Feed => seq![output_port("feed_out"@, "输出"@)],
        NodeShape::Product => seq![output_port("product_out"@, "输出"@)],
        NodeShape::Reactor => seq![output_port("outlet"@, "出口"@)],
        NodeShape::Splitter { outlets } => numbered_outputs("出口"@, outlets as nat),
        NodeShape::Mixer => seq![output_port("out"@, "输出"@)],
        NodeShape::Separator { kind } => {
            let (a, b) = separator_outlets(kind);
            seq![output_port(a, a), output_port(b, b)]
        },
        NodeShape::Decanter => seq![output_port("light_phase"@, "轻相"@), output_port("heavy_phase"@, "重相"@)],
        NodeShape::Calculator => seq![output_port("result"@, "结果"@)],
        NodeShape::UnitConversion => seq![output_port("output"@, "输出"@)],
        NodeShape::Copy { copies } => numbered_outputs("复制"@, copies as nat),
        NodeShape::Filter => seq![output_port("out"@, "过滤"@)],
    }
}

/// No two ports of the list share a name.
pub open spec fn names_distinct(ports: Seq<PortView>) -> bool {
    forall|i: int, j: int| 0 <= i < ports.len() && 0 <= j < ports.len() && i != j ==> (#[trigger] ports[i]).0 != (#[trigger] ports[j]).0
}

proof fn lemma_numbered_names_distinct(label_prefix: Seq<char>, count: nat)
    ensures
        names_distinct(numbered_outputs(label_prefix, count)),
{
    let ports = numbered_outputs(label_prefix, count);
    assert forall|i: int, j: int| 0 <= i < ports.len() && 0 <= j < ports.len() && i != j implies (#[trigger] ports[i]).0 != (#[trigger] ports[j]).0 by {
        let a = "out_"@ + decimal_text((i + 1) as nat);
        let b = "out_"@ + decimal_text((j + 1) as nat);
        if a == b {
            assert(a.subrange(4, a.len() as int) =~= decimal_text((i + 1) as nat)) by {
                reveal_strlit("out_");
            }
            assert(b.subrange(4, b.len() as int) =~= decimal_text((j + 1) as nat)) by {
                reveal_strlit("out_");
            }
            lemma_decimal_text_injective((i + 1) as nat, (j + 1) as nat);
        }
    }
}

/// No two input ports, and no two output ports, of a node share a name, so
/// each port is found by its name.
pub proof fn lemma_port_names_distinct(shape: NodeShape)
    ensures
        names_distinct(input_layout(shape)),
        names_distinct(output_layout(shape)),
{
    reveal_strlit("in_1");
    reveal_strlit("in_2");
    reveal_strlit("in_A");
    reveal_strlit("in_B");
    reveal_strlit("gas");
    reveal_strlit("liquid");
    reveal_strlit("solid");
    reveal_strlit("outlet_1");
    reveal_strlit("outlet_2");
    reveal_strlit("light_phase");
    reveal_strlit("heavy_phase");
    match shape {
        NodeShape::Splitter { outlets } => lemma_numbered_names_distinct("出口"@, outlets as nat),
        NodeShape::Copy { copies } => lemma_numbered_names_distinct("复制"@, copies as nat),
        NodeShape::Mixer => {
            assert("in_1"@[3] != "in_2"@[3]);
        },
        NodeShape::Calculator => {
            assert("in_A"@[3] != "in_B"@[3]);
        },
        NodeShape::Separator { kind } => {
            assert("gas"@.len() != "liquid"@.len());
            assert("gas"@.len() != "solid"@.len());
            assert("outlet_1"@[7] != "outlet_2"@[7]);
        },
        NodeShape::Decanter => {
            assert("light_phase"@[0] != "heavy_phase"@[0]);
        },
        _ => {},
    }
}

fn port(name: &str, label: &str, port_type: PortType) -> (p: Port)
    ensures
        p.view() == (name@, label@, port_type),
{
    Port { name: String::from_str(name), label: String::from_str(label), port_type }
}

fn numbered_output_ports(label_prefix: &str, count: usize) -> (v: Vec<Port>)
    ensures
        ports_view(v@) == numbered_outputs(label_prefix@, count as nat),
{
    let mut v: Vec<Port> = Vec::new();
    let mut i: usize = 0;
    while i < count
        invariant
            i <= count,
            ports_view(v@) =~= numbered_outputs(label_prefix@, count as nat).take(i as int),
        decreases count - i,
    {
        let num = decimal_string(i + 1);
        let mut name = String::from_str("out_");
        name.append(num.as_str());
        let mut label = String::from_str(label_prefix);
        label.append(num.as_str());
        let ghost prev = v@;
        let p = Port { name, label, port_type: PortType::Output };
        assert(p.view() == numbered_outputs(label_prefix@, count as nat)[i as int]);
        v.push(p);
        assert(ports_view(v@) =~= ports_view(prev).push(p.view()));
        i = i + 1;
    }
    v
}

impl NodeShape {
    /// The unit operation this shape performs.
    pub fn node_type(&self) -> (t: NodeType)
        ensures
            t == shape_type(*self),
    {
        match self {
            NodeShape::Feed => NodeType::Feed,
            NodeShape::Product => NodeType::Product,
            NodeShape::Reactor => NodeType::Reactor,
            NodeShape::Splitter { .. } => NodeType::Splitter,
            NodeShape::Mixer => NodeType::Mixer,
            NodeShape::Separator { .. } => NodeType::Separator,
            NodeShape::Decanter => NodeType::Decanter,
            NodeShape::Calculator => NodeType::Calculator,
            NodeShape::UnitConversion => NodeType::UnitConversion,
            NodeShape::Copy { .. } => NodeType::Copy,
            NodeShape::Filter => NodeType::Filter,
        }
    }

    /// The input ports of a node of this shape.
    pub fn input_ports(&self) -> (v: Vec<Port>)
        ensures
            ports_view(v@) == input_layout(*self),
    {
        let v = match self {
            NodeShape::Feed => vec![port("feed_in", "输入", PortType::Input)],
            NodeShape::Product => vec![port("product_in", "输入", PortType::Input)],
            NodeShape::Reactor => vec![port("feed", "进料", PortType::Input)],
            NodeShape::Splitter { .. } => vec![port("feed", "进料", PortType::Input)],
            NodeShape::Mixer => vec![
                port("in_1", "入口1", PortType::Input),
                port("in_2", "入口2", PortType::Input),
            ],
            NodeShape::Separator { .. } => vec![port("feed", "进料", PortType::Input)],
            NodeShape::Decanter => vec![port("feed", "进料", PortType::Input)],
            NodeShape::Calculator => vec![
                port("in_A", "A", PortType::Input),
                port("in_B", "B", PortType::Input),
            ],
            NodeShape::UnitConversion => vec![port("input", "输入", PortType::Input)],
            NodeShape::Copy { .. } => vec![port("in", "输入", PortType::Input)],
            NodeShape::Filter => vec![port("in", "输入", PortType::Input)],
        };
        assert(ports_view(v@) =~= input_layout(*self));
        v
    }

    /// The output ports of a node of this shape.
    pub fn output_ports(&self) -> (v: Vec<Port>)
        ensures
            ports_view(v@) == output_layout(*self),
    {
        let v = match self {
            NodeShape::Feed => vec![port("feed_out", "输出", PortType::Output)],
            NodeShape::Product => vec![port("product_out", "输出", PortType::Output)],
            NodeShape::Reactor => vec![port("outlet", "出口", PortType::Output)],
            NodeShape::Splitter { outlets } => numbered_output_ports("出口", *outlets),
            NodeShape::Mixer => vec![port("out", "输出", PortType::Output)],
            NodeShape::Separator { kind } => {
                let (a, b) = match kind {
                    SeparatorKind::GasLiquid => ("gas", "liquid"),
                    SeparatorKind::GasSolid => ("gas", "solid"),
                    SeparatorKind::General => ("outlet_1", "outlet_2"),
                };
                vec![port(a, a, PortType::Output), port(b, b, PortType::Output)]
            },
            NodeShape::Decanter => vec![
                port("light_phase", "轻相", PortType::Output),
                port("heavy_phase", "重相", PortType::Output),
            ],
            NodeShape::Calculator => vec![port("result", "结果", PortType::Output)],
            NodeShape::UnitConversion => vec![port("output", "输出", PortType::Output)],
            NodeShape::Copy { copies } => numbered_output_ports("复制", *copies),
            NodeShape::Filter => vec![port("out", "过滤", PortType::Output)],
        };
        assert(ports_view(v@) =~= output_layout(*self));
        v
    }

    /// The number of input pins the canvas draws for this shape.
    pub fn input_count(&self) -> (n: usize)
        ensures
            n == input_layout(*self).len(),
    {
        match self {
            NodeShape::Mixer | NodeShape::Calculator => 2,
            _ => 1,
        }
    }

    /// The number of output pins the canvas draws for this shape.
    pub fn output_count(&self) -> (n: usize)
        ensures
            n == output_layout(*self).len(),
    {
        match self {
            NodeShape::Splitter { outlets } => *outlets,
            NodeShape::Separator { .. } | NodeShape::Decanter => 2,
            NodeShape::Copy { copies } => *copies,
            _ => 1,
        }
    }
}

/// The engine node for a node of the editor: its identifier, its title, the
/// name the user gave it, its kind and the ports of its shape.
pub fn to_graph_node(shape: &NodeShape, id: u128, title: String, custom_name: Option<String>) -> (n: Node)
    ensures
        n.id == id,
        n.title@ == title@,
        n.custom_name == custom_name,
        n.node_type == shape_type(*shape),
        ports_view(n.inputs@) == input_layout(*shape),
        ports_view(n.outputs@) == output_layout(*shape),
{
    Node {
        id,
        node_type: shape.node_type(),
        title,
        custom_name,
        inputs: shape.input_ports(),
        outputs: shape.output_ports(),
    }
}

/// What a node's title is made of: its kind with the values the title
/// shows. Flow rates and factors come already written as text.
#[derive(Clone, Debug)]
pub enum TitleSource {
    Feed { component: String, flow_text: String },
    Product { label: String },
    Reactor { reactions: usize },
    Splitter { outlets: usize },
    Mixer,
    Separator { kind: SeparatorKind },
    Decanter,
    Calculator { operation_text: String },
    UnitConversion { target_basis: FlowBasis },
    Copy { copies: usize },
    Filter { component: String },
}

/// The name of a separator kind, as its `Debug` form writes it.
pub open spec fn separator_kind_name(kind: SeparatorKind) -> Seq<char> {
    match kind {
        SeparatorKind::GasLiquid => "GasLiquid"@,
        SeparatorKind::GasSolid => "GasSolid"@,
        SeparatorKind::General => "General"@,
    }
}

/// The name of a flow basis, as its `Debug` form writes it.
pub open spec fn flow_basis_name(basis: FlowBasis) -> Seq<char> {
    match basis {
        FlowBasis::Mass => "Mass"@,
        FlowBasis::Mole => "Mole"@,
    }
}

/// The title of a node of each kind.
pub open spec fn title_text(t: TitleSource) -> Seq<char> {
    match t {
        TitleSource::Feed { component, flow_text } => "进料: "@ + component@ + "@"@ + flow_text@,
        TitleSource::Product { label } => if label@.len() == 0 {
            "出料"@
        } else {
            "出料: "@ + label@
        },
        TitleSource::Reactor { reactions } => "反应器: "@ + decimal_text(reactions as nat) + "个反应"@,
        TitleSource::Splitter { outlets } => "分流: "@ + decimal_text(outlets as nat) + "路"@,
        TitleSource::Mixer => "混合器"@,
        TitleSource::Separator { kind } => "分离器: "@ + separator_kind_name(kind),
        TitleSource::Decanter => "倾析器"@,
        TitleSource::Calculator { operation_text } => "计算: "@ + operation_text@,
        TitleSource::UnitConversion { target_basis } => "变换→"@ + flow_basis_name(target_basis),
        TitleSource::Copy { copies } => "复制: "@ + decimal_text(copies as nat) + "路"@,
        TitleSource::Filter { component } => if component@.len() == 0 {
            "过滤"@
        } else {
            "过滤: "@ + component@
        },
    }
}

fn concat3(a: &str, b: &str, c: &str) -> (s: String)
    ensures
        s@ == a@ + b@ + c@,
{
    let mut s = String::from_str(a);
    s.append(b);
    s.append(c);
    s
}

/// Each shape performs the unit operation of its own name, and no two
/// shapes of different kinds perform the same one.
pub proof fn lemma_shape_types(s: NodeShape, t: NodeShape)
    ensures
        s is Feed <==> shape_type(s) == NodeType::Feed,
        s is Product <==> shape_type(s) == NodeType::Product,
        s is Reactor <==> shape_type(s) == NodeType::Reactor,
        s is Splitter <==> shape_type(s) == NodeType::Splitter,
        s is Mixer <==> shape_type(s) == NodeType::Mixer,
        s is Separator <==> shape_type(s) == NodeType::Separator,
        s is Decanter <==> shape_type(s) == NodeType::Decanter,
        s is Calculator <==> shape_type(s) == NodeType::Calculator,
        s is UnitConversion <==> shape_type(s) == NodeType::UnitConversion,
        s is Copy <==> shape_type(s) == NodeType::Copy,
        s is Filter <==> shape_type(s) == NodeType::Filter,
        shape_type(s) == shape_type(t) ==> {
            &&& s is Feed <==> t is Feed
            &&& s is Product <==> t is Product
            &&& s is Reactor <==> t is Reactor
            &&& s is Splitter <==> t is Splitter
            &&& s is Mixer <==> t is Mixer
            &&& s is Separator <==> t is Separator
            &&& s is Decanter <==> t is Decanter
            &&& s is Calculator <==> t is Calculator
            &&& s is UnitConversion <==> t is UnitConversion
            &&& s is Copy <==> t is Copy
            &&& s is Filter <==> t is Filter
        },
{
}

/// The name is `out_` followed by decimal digits whose value is `n`.
pub open spec fn is_numbered_name(name: Seq<char>, n: int) -> bool {
    exists|d: Seq<char>| all_digits(d) && decimal_value(d) == n && name == "out_"@ + d
}

/// Every input port is an input and every output port an output; mixers
/// and calculators take two inputs and every other node one; a splitter
/// has one outlet per split and a copy one per copy, named `out_` with the
/// outlet's number (from 1), separators and decanters two, every other node
/// one.
pub proof fn lemma_port_counts(s: NodeShape)
    ensures
        forall|i: int| 0 <= i < input_layout(s).len() ==> (#[trigger] input_layout(s)[i]).2 == PortType::Input,
        forall|i: int| 0 <= i < output_layout(s).len() ==> (#[trigger] output_layout(s)[i]).2 == PortType::Output,
        input_layout(s).len() == if s is Mixer || s is Calculator { 2nat } else { 1nat },
        output_layout(s).len() == match s {
            NodeShape::Splitter { outlets } => outlets as nat,
            NodeShape::Copy { copies } => copies as nat,
            NodeShape::Separator { .. } => 2nat,
            NodeShape::Decanter => 2nat,
            _ => 1nat,
        },
        s is Splitter || s is Copy ==> forall|i: int|
            0 <= i < output_layout(s).len() ==> is_numbered_name((#[trigger] output_layout(s)[i]).0, i + 1),
{
    if s is Splitter || s is Copy {
        assert forall|i: int| 0 <= i < output_layout(s).len() implies is_numbered_name((#[trigger] output_layout(s)[i]).0, i + 1) by {
            lemma_decimal_round_trip((i + 1) as nat);
            let d = decimal_text((i + 1) as nat);
            assert(output_layout(s)[i].0 == "out_"@ + d);
        }
    }
}

/// A separator is titled "分离器: " and the name of its own kind, so
/// separators of different kinds get different titles; likewise a unit
/// conversion is titled by its own target basis.
pub proof fn lemma_kind_titles(a: SeparatorKind, b: SeparatorKind, p: FlowBasis, q: FlowBasis)
    ensures
        title_text(TitleSource::Separator { kind: a }) == "分离器: "@ + match a {
            SeparatorKind::GasLiquid => "GasLiquid"@,
            SeparatorKind::GasSolid => "GasSolid"@,
            SeparatorKind::General => "General"@,
        },
        a != b ==> title_text(TitleSource::Separator { kind: a }) != title_text(TitleSource::Separator { kind: b }),
        title_text(TitleSource::UnitConversion { target_basis: p }) == "变换→"@ + match p {
            FlowBasis::Mass => "Mass"@,
            FlowBasis::Mole => "Mole"@,
        },
        p != q ==> title_text(TitleSource::UnitConversion { target_basis: p }) != title_text(TitleSource::UnitConversion { target_basis: q }),
{
    reveal_strlit("GasLiquid");
    reveal_strlit("GasSolid");
    reveal_strlit("General");
    reveal_strlit("Mass");
    reveal_strlit("Mole");
    if a != b {
        assert(title_text(TitleSource::Separator { kind: a }).len() != title_text(TitleSource::Separator { kind: b }).len());
    }
    if p != q {
        let tp = title_text(TitleSource::UnitConversion { target_basis: p });
        let tq = title_text(TitleSource::UnitConversion { target_basis: q });
        reveal_strlit("变换→");
        let k: int = 5;
        assert(tp[k] != tq[k]);
    }
}

/// The titles that carry text: a feed shows its component and flow after
/// "进料: " joined by "@"; a product its label after "出料: " (plain "出料"
/// without one); a calculator its operation; a filter its component (plain
/// "过滤" without one); mixers and decanters their kind's name.
pub proof fn lemma_text_titles(component: String, flow_text: String, label: String, operation_text: String)
    ensures
        title_text(TitleSource::Feed { component, flow_text }) == "进料: "@ + component@ + "@"@ + flow_text@,
        title_text(TitleSource::Product { label }) == if label@.len() == 0 { "出料"@ } else { "出料: "@ + label@ },
        title_text(TitleSource::Calculator { operation_text }) == "计算: "@ + operation_text@,
        title_text(TitleSource::Filter { component }) == if component@.len() == 0 { "过滤"@ } else { "过滤: "@ + component@ },
        title_text(TitleSource::Mixer) == "混合器"@,
        title_text(TitleSource::Decanter) == "倾析器"@,
{
}

/// The title of a reactor, a splitter or a copy carries its count: between
/// the kind's prefix and suffix stand decimal digits whose value is the
/// number of reactions, outlets or copies.
pub proof fn lemma_count_titles(n: usize)
    ensures
        exists|d: Seq<char>|
            all_digits(d) && decimal_value(d) == n && #[trigger] title_text(TitleSource::Reactor { reactions: n }) == "反应器: "@ + d + "个反应"@,
        exists|d: Seq<char>|
            all_digits(d) && decimal_value(d) == n && #[trigger] title_text(TitleSource::Splitter { outlets: n }) == "分流: "@ + d + "路"@,
        exists|d: Seq<char>|
            all_digits(d) && decimal_value(d) == n && #[trigger] title_text(TitleSource::Copy { copies: n }) == "复制: "@ + d + "路"@,
{
    lemma_decimal_round_trip(n as nat);
    let d = decimal_text(n as nat);
    assert(title_text(TitleSource::Reactor { reactions: n }) == "反应器: "@ + d + "个反应"@);
    assert(title_text(TitleSource::Splitter { outlets: n }) == "分流: "@ + d + "路"@);
    assert(title_text(TitleSource::Copy { copies: n }) == "复制: "@ + d + "路"@);
}

/// The title of a node of this kind.
pub fn node_title(t: &TitleSource) -> (s: String)
    ensures
        s@ == title_text(*t),
{
    proof {
        reveal_strlit("");
        assert(""@ =~= Seq::<char>::empty());
    }
    match t {
        TitleSource::Feed { component, flow_text } => {
            let mut s = concat3("进料: ", component.as_str(), "@");
            s.append(flow_text.as_str());
            s
        },
        TitleSource::Product { label } => {
            if label.unicode_len() == 0 {
                String::from_str("出料")
            } else {
                concat3("出料: ", label.as_str(), "")
            }
        },
        TitleSource::Reactor { reactions } => concat3("反应器: ", decimal_string(*reactions).as_str(), "个反应"),
        TitleSource::Splitter { outlets } => concat3("分流: ", decimal_string(*outlets).as_str(), "路"),
        TitleSource::Mixer => String::from_str("混合器"),
        TitleSource::Separator { kind } => {
            let name = match kind {
                SeparatorKind::GasLiquid => "GasLiquid",
                SeparatorKind::GasSolid => "GasSolid",
                SeparatorKind::General => "General",
            };
            concat3("分离器: ", name, "")
        },
        TitleSource::Decanter => String::from_str("倾析器"),
        TitleSource::Calculator { operation_text } => concat3("计算: ", operation_text.as_str(), ""),
        TitleSource::UnitConversion { target_basis } => {
            let name = match target_basis {
                FlowBasis::Mass => "Mass",
                FlowBasis::Mole => "Mole",
            };
            concat3("变换→", name, "")
        },
        TitleSource::Copy { copies } => concat3("复制: ", decimal_string(*copies).as_str(), "路"),
        TitleSource::Filter { component } => {
            if component.unicode_len() == 0 {
                String::from_str("过滤")
            } else {
                concat3("过滤: ", component.as_str(), "")
            }
        },
    }
}

/// The title a node shows: the name the user gave it, else the title of
/// its kind.
pub fn display_title(custom_name: &Option<String>, t: &TitleSource) -> (s: String)
    ensures
        s@ == match custom_name {
            Some(name) => name@,
            None => title_text(*t),
        },
{
    match custom_name {
        Some(name) => name.clone(),
        None => node_title(t),
    }
}

} // verus!
