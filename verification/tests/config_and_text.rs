use massflowcal::config::{default_data_dir, default_db_path, default_port, parse_port, Config};
use massflowcal::report::{append_log, component_columns, LOG_CAPACITY};
use massflowcal::text::decimal_string;

#[test]
fn default_config_values() {
    let c = Config::default();
    assert_eq!(c.port, 3000);
    assert_eq!(c.db_path, "./massflowcal.db");
    assert_eq!(c.data_dir, "data");
    assert_eq!(default_port(), 3000);
    assert_eq!(default_db_path(), "./massflowcal.db");
    assert_eq!(default_data_dir(), "data");
}

#[test]
fn config_from_values_overrides_and_falls_back() {
    let c = Config::from_values(Some("8080".to_string()), Some("x/y.db".to_string()), None);
    assert_eq!(c.port, 8080);
    assert_eq!(c.db_path, "x/y.db");
    assert_eq!(c.data_dir, "data");
    let c = Config::from_values(Some("not a port".to_string()), None, Some("d".to_string()));
    assert_eq!(c.port, 3000);
    assert_eq!(c.db_path, "./massflowcal.db");
    assert_eq!(c.data_dir, "d");
    let c = Config::from_values(None, None, None);
    assert_eq!(c.port, 3000);
}

#[test]
fn parse_port_follows_u16_grammar() {
    for s in ["0", "80", "+80", "0003000", "65535", "", "+", "-1", " 80", "80 ", "65536", "99999999999", "1_000", "8a"] {
        assert_eq!(parse_port(s), s.parse::<u16>().ok(), "text {:?}", s);
    }
    assert_eq!(parse_port("+443"), Some(443));
    assert_eq!(parse_port("65536"), None);
}

#[test]
fn decimal_string_writes_digits() {
    assert_eq!(decimal_string(0), "0");
    assert_eq!(decimal_string(7), "7");
    assert_eq!(decimal_string(10), "10");
    assert_eq!(decimal_string(1234509), "1234509");
    assert_eq!(decimal_string(usize::MAX), usize::MAX.to_string());
}

#[test]
fn log_keeps_the_newest_lines() {
    let mut lines: Vec<String> = Vec::new();
    for i in 0..LOG_CAPACITY {
        append_log(&mut lines, format!("line {}", i));
    }
    assert_eq!(lines.len(), 500);
    assert_eq!(lines[0], "line 0");
    append_log(&mut lines, "newest".to_string());
    assert_eq!(lines.len(), 500);
    assert_eq!(lines[0], "line 1");
    assert_eq!(lines[499], "newest");
}

#[test]
fn component_columns_keep_first_occurrence() {
    let keys: Vec<String> = ["7732-18-5", "64-17-5", "7732-18-5", "67-56-1", "64-17-5"]
        .iter()
        .map(|s| s.to_string())
        .collect();
    let cols = component_columns(&keys);
    assert_eq!(cols, vec!["7732-18-5", "64-17-5", "67-56-1"]);
    assert!(component_columns(&Vec::new()).is_empty());
}

#[test]
fn port_text_reads_back() {
    for n in [0u16, 1, 9, 10, 80, 443, 3000, 65535] {
        assert_eq!(parse_port(&decimal_string(n as usize)), Some(n));
    }
}

#[test]
fn unset_variables_give_the_defaults() {
    let a = Config::from_values(None, None, None);
    let b = Config::default();
    assert_eq!((a.port, a.db_path, a.data_dir), (b.port, b.db_path, b.data_dir));
}
