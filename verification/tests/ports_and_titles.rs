use massflowcal::model::{FlowBasis, NodeType, Port, PortType, SeparatorKind};
use massflowcal::ports::{display_title, node_title, to_graph_node, NodeShape, TitleSource};

fn names(ports: &[Port]) -> Vec<(String, String)> {
    ports.iter().map(|p| (p.name.clone(), p.label.clone())).collect()
}

fn pairs(v: &[(&str, &str)]) -> Vec<(String, String)> {
    v.iter().map(|(a, b)| (a.to_string(), b.to_string())).collect()
}

#[test]
fn mixer_and_calculator_have_two_inputs() {
    let m = NodeShape::Mixer;
    assert_eq!(names(&m.input_ports()), pairs(&[("in_1", "入口1"), ("in_2", "入口2")]));
    assert_eq!(names(&m.output_ports()), pairs(&[("out", "输出")]));
    assert_eq!(m.input_count(), 2);
    assert_eq!(m.output_count(), 1);
    let c = NodeShape::Calculator;
    assert_eq!(names(&c.input_ports()), pairs(&[("in_A", "A"), ("in_B", "B")]));
    assert_eq!(names(&c.output_ports()), pairs(&[("result", "结果")]));
    assert!(c.input_ports().iter().all(|p| p.port_type == PortType::Input));
}

#[test]
fn splitter_and_copy_number_their_outlets() {
    let s = NodeShape::Splitter { outlets: 3 };
    assert_eq!(names(&s.output_ports()), pairs(&[("out_1", "出口1"), ("out_2", "出口2"), ("out_3", "出口3")]));
    assert_eq!(s.output_count(), 3);
    let c = NodeShape::Copy { copies: 11 };
    let outs = c.output_ports();
    assert_eq!(outs.len(), 11);
    assert_eq!(outs[10].name, "out_11");
    assert_eq!(outs[10].label, "复制11");
    assert!(outs.iter().all(|p| p.port_type == PortType::Output));
    assert_eq!(c.output_count(), 11);
    assert!(NodeShape::Splitter { outlets: 0 }.output_ports().is_empty());
}

#[test]
fn separator_outlets_follow_its_kind() {
    let gl = NodeShape::Separator { kind: SeparatorKind::GasLiquid };
    assert_eq!(names(&gl.output_ports()), pairs(&[("gas", "gas"), ("liquid", "liquid")]));
    let gs = NodeShape::Separator { kind: SeparatorKind::GasSolid };
    assert_eq!(names(&gs.output_ports()), pairs(&[("gas", "gas"), ("solid", "solid")]));
    let g = NodeShape::Separator { kind: SeparatorKind::General };
    assert_eq!(names(&g.output_ports()), pairs(&[("outlet_1", "outlet_1"), ("outlet_2", "outlet_2")]));
    assert_eq!(names(&NodeShape::Decanter.output_ports()), pairs(&[("light_phase", "轻相"), ("heavy_phase", "重相")]));
}

#[test]
fn single_port_shapes() {
    assert_eq!(names(&NodeShape::Feed.input_ports()), pairs(&[("feed_in", "输入")]));
    assert_eq!(names(&NodeShape::Feed.output_ports()), pairs(&[("feed_out", "输出")]));
    assert_eq!(names(&NodeShape::Product.input_ports()), pairs(&[("product_in", "输入")]));
    assert_eq!(names(&NodeShape::Product.output_ports()), pairs(&[("product_out", "输出")]));
    assert_eq!(names(&NodeShape::Reactor.output_ports()), pairs(&[("outlet", "出口")]));
    assert_eq!(names(&NodeShape::UnitConversion.input_ports()), pairs(&[("input", "输入")]));
    assert_eq!(names(&NodeShape::UnitConversion.output_ports()), pairs(&[("output", "输出")]));
    assert_eq!(names(&NodeShape::Filter.output_ports()), pairs(&[("out", "过滤")]));
    assert_eq!(names(&NodeShape::Copy { copies: 2 }.input_ports()), pairs(&[("in", "输入")]));
}

#[test]
fn graph_node_carries_id_title_kind_and_ports() {
    let n = to_graph_node(&NodeShape::Splitter { outlets: 2 }, 42, "分流: 2路 #1".to_string(), None);
    assert_eq!(n.id, 42);
    assert_eq!(n.title, "分流: 2路 #1");
    assert_eq!(n.node_type, NodeType::Splitter);
    assert_eq!(n.inputs.len(), 1);
    assert_eq!(n.outputs.len(), 2);
    assert_eq!(NodeShape::Copy { copies: 3 }.node_type(), NodeType::Copy);
}

#[test]
fn titles_of_each_kind() {
    let t = |s: TitleSource| node_title(&s);
    assert_eq!(t(TitleSource::Feed { component: "7732-18-5".into(), flow_text: "100.0".into() }), "进料: 7732-18-5@100.0");
    assert_eq!(t(TitleSource::Product { label: String::new() }), "出料");
    assert_eq!(t(TitleSource::Product { label: "A".into() }), "出料: A");
    assert_eq!(t(TitleSource::Reactor { reactions: 2 }), "反应器: 2个反应");
    assert_eq!(t(TitleSource::Splitter { outlets: 3 }), "分流: 3路");
    assert_eq!(t(TitleSource::Mixer), "混合器");
    assert_eq!(t(TitleSource::Separator { kind: SeparatorKind::GasLiquid }), "分离器: GasLiquid");
    assert_eq!(t(TitleSource::Decanter), "倾析器");
    assert_eq!(t(TitleSource::Calculator { operation_text: "Add".into() }), "计算: Add");
    assert_eq!(t(TitleSource::UnitConversion { target_basis: FlowBasis::Mole }), "变换→Mole");
    assert_eq!(t(TitleSource::Copy { copies: 4 }), "复制: 4路");
    assert_eq!(t(TitleSource::Filter { component: String::new() }), "过滤");
    assert_eq!(t(TitleSource::Filter { component: "64-17-5".into() }), "过滤: 64-17-5");
    assert_eq!(format!("{:?}", SeparatorKind::GasSolid), "GasSolid");
}

#[test]
fn custom_name_overrides_title() {
    assert_eq!(display_title(&Some("R-101".to_string()), &TitleSource::Mixer), "R-101");
    assert_eq!(display_title(&None, &TitleSource::Mixer), "混合器");
}


#[test]
fn port_names_are_distinct_within_a_node() {
    let shapes = [
        NodeShape::Feed,
        NodeShape::Product,
        NodeShape::Reactor,
        NodeShape::Splitter { outlets: 12 },
        NodeShape::Mixer,
        NodeShape::Separator { kind: SeparatorKind::GasLiquid },
        NodeShape::Separator { kind: SeparatorKind::GasSolid },
        NodeShape::Separator { kind: SeparatorKind::General },
        NodeShape::Decanter,
        NodeShape::Calculator,
        NodeShape::UnitConversion,
        NodeShape::Copy { copies: 10 },
        NodeShape::Filter,
    ];
    for s in &shapes {
        for ports in [s.input_ports(), s.output_ports()] {
            let mut names: Vec<String> = ports.iter().map(|p| p.name.clone()).collect();
            let n = names.len();
            names.sort();
            names.dedup();
            assert_eq!(names.len(), n, "{:?}", s);
        }
        assert_eq!(s.input_ports().len(), s.input_count());
        assert_eq!(s.output_ports().len(), s.output_count());
    }
}
