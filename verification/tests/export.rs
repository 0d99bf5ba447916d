use massflowcal::report::{export_csv, ResultTable};

fn strings(v: &[&str]) -> Vec<String> {
    v.iter().map(|s| s.to_string()).collect()
}

#[test]
fn csv_layout_of_two_streams() {
    let t = ResultTable {
        stream_names: strings(&["A → B", "B → C"]),
        component_names: strings(&["水", "乙醇"]),
        mole_flow: strings(&["5.55", "1.00"]),
        component_mole_flow: vec![strings(&["5.55", ""]), strings(&["", "1.00"])],
        component_mole_percent: vec![strings(&["100.0%", "0.0%"]), strings(&["0.0%", "100.0%"])],
        mass_flow: strings(&["100.00", "46.07"]),
        component_mass_flow: vec![strings(&["100.00", ""]), strings(&["", "46.07"])],
        component_mass_percent: vec![strings(&["100.0%", "0.0%"]), strings(&["0.0%", "100.0%"])],
    };
    let csv = export_csv(&t).unwrap();
    let expected = "\u{FEFF}物料平衡计算结果\n,A → B,B → C,\n流股号,1,2,\n摩尔流量(kmol/h),5.55,1.00,\n水,5.55,,\n乙醇,,1.00,\n\n摩尔分率(%),,,\n水,100.0%,0.0%,\n乙醇,0.0%,100.0%,\n\n质量流量(kg/h),100.00,46.07,\n水,100.00,,\n乙醇,,46.07,\n\n质量分率(%),,,\n水,100.0%,0.0%,\n乙醇,0.0%,100.0%,\n";
    assert_eq!(csv, expected);
}

#[test]
fn csv_without_streams_is_empty() {
    let t = ResultTable {
        stream_names: Vec::new(),
        component_names: strings(&["水"]),
        mole_flow: Vec::new(),
        component_mole_flow: vec![Vec::new()],
        component_mole_percent: vec![Vec::new()],
        mass_flow: Vec::new(),
        component_mass_flow: vec![Vec::new()],
        component_mass_percent: vec![Vec::new()],
    };
    assert_eq!(export_csv(&t).unwrap(), "");
}

#[test]
fn csv_has_four_lines_per_component_and_ten_more() {
    let t = ResultTable {
        stream_names: strings(&["S1", "S2", "S3"]),
        component_names: strings(&["水"]),
        mole_flow: strings(&["1.00", "2.00", ""]),
        component_mole_flow: vec![strings(&["1.00", "2.00", ""])],
        component_mole_percent: vec![strings(&["100.0%", "100.0%", "0.0%"])],
        mass_flow: strings(&["18.02", "36.03", ""]),
        component_mass_flow: vec![strings(&["18.02", "36.03", ""])],
        component_mass_percent: vec![strings(&["100.0%", "100.0%", "0.0%"])],
    };
    let csv = export_csv(&t).unwrap();
    assert_eq!(csv.matches('\n').count(), 4 * 1 + 10);
    assert_eq!(csv.matches(',').count(), (4 * 1 + 6) * (3 + 1));
}

#[test]
fn csv_lines_carry_one_cell_per_stream() {
    let t = ResultTable {
        stream_names: strings(&["S1", "S2"]),
        component_names: strings(&["水", "乙醇"]),
        mole_flow: strings(&["1.00", "2.00"]),
        component_mole_flow: vec![strings(&["1.00", ""]), strings(&["", "2.00"])],
        component_mole_percent: vec![strings(&["100.0%", "0.0%"]), strings(&["0.0%", "100.0%"])],
        mass_flow: strings(&["18.02", "92.14"]),
        component_mass_flow: vec![strings(&["18.02", ""]), strings(&["", "92.14"])],
        component_mass_percent: vec![strings(&["100.0%", "0.0%"]), strings(&["0.0%", "100.0%"])],
    };
    let csv = export_csv(&t).unwrap();
    let lines: Vec<&str> = csv.split_terminator('\n').collect();
    let m = 2;
    assert_eq!(lines.len(), 4 * m + 10);
    for (k, line) in lines.iter().enumerate() {
        let blank = k == m + 4 || k == 2 * m + 6 || k == 3 * m + 8;
        let commas = line.matches(',').count();
        if k == 0 || blank {
            assert_eq!(commas, 0);
        } else {
            assert_eq!(commas, 2 + 1);
        }
        assert_eq!(blank, line.is_empty());
    }
}
