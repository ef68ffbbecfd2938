use project_zero::plan::{
    is_usable_local_ip, parse_subnet_prefix, send_file, socket_address, standard_scan, super_scan,
    NodeAction,
};
use project_zero::{GuiEvent, Packet};

fn describe(a: &NodeAction) -> String {
    match a {
        NodeAction::Emit(GuiEvent::Log(s)) => format!("log:{}", s),
        NodeAction::Emit(GuiEvent::ScanComplete) => "complete".to_string(),
        NodeAction::Emit(_) => "event".to_string(),
        NodeAction::Probe { target } => format!("probe:{}", target),
        NodeAction::Send { packet: Packet::Chunk { index, total, .. }, target } => {
            format!("send:{}:{}/{}", target, index, total)
        }
        NodeAction::Send { .. } => "send".to_string(),
        NodeAction::Pause { millis } => format!("pause:{}", millis),
    }
}

#[test]
fn standard_scan_probes_hosts_1_to_254_then_broadcast() {
    let steps: Vec<String> = standard_scan("10.7.131").iter().map(describe).collect();
    assert_eq!(steps[0], "log:📡 Standard Scan: 10.7.131.x");
    assert_eq!(steps[1], "probe:10.7.131.1:44444");
    let probes = steps.iter().filter(|s| s.starts_with("probe:10.7.131.")).count();
    assert_eq!(probes, 254);
    let pauses = steps.iter().filter(|s| s.as_str() == "pause:1").count();
    assert_eq!(pauses, 5);
    let i50 = steps.iter().position(|s| s == "probe:10.7.131.50:44444").unwrap();
    assert_eq!(steps[i50 + 1], "pause:1");
    assert_eq!(steps[steps.len() - 3], "probe:10.7.131.254:44444");
    assert_eq!(steps[steps.len() - 2], "probe:255.255.255.255:44444");
    assert_eq!(steps[steps.len() - 1], "complete");
    assert_eq!(steps.len(), 1 + 254 + 5 + 2);
}

#[test]
fn subnet_prefix_parses_like_u8() {
    assert_eq!(parse_subnet_prefix("10.7.131"), Some((10, 7, 131)));
    assert_eq!(parse_subnet_prefix("+10.007.131"), Some((10, 7, 131)));
    assert_eq!(parse_subnet_prefix("10.7"), None);
    assert_eq!(parse_subnet_prefix("10.7.131.1"), None);
    assert_eq!(parse_subnet_prefix("10.7.256"), None);
    assert_eq!(parse_subnet_prefix("10.-7.1"), None);
    assert_eq!(parse_subnet_prefix("10..1"), None);
    assert_eq!(parse_subnet_prefix("+.1.1"), None);
    assert_eq!(parse_subnet_prefix("a.b.c"), None);
    assert_eq!(parse_subnet_prefix(""), None);
}

#[test]
fn super_scan_sweeps_five_subnets_each_way() {
    let steps: Vec<String> = super_scan("10.7.131").iter().map(describe).collect();
    assert_eq!(steps[0], "log:💥 SUPER NOVA: Scanning 10.7.131 ±5 subnets");
    assert_eq!(steps[1], "probe:10.7.126.1:44444");
    let pauses = steps.iter().filter(|s| s.as_str() == "pause:10").count();
    assert_eq!(pauses, 11);
    assert_eq!(steps.len(), 1 + 11 * 255 + 1);
    assert_eq!(steps[steps.len() - 2], "pause:10");
    assert_eq!(steps[steps.len() - 3], "probe:10.7.136.254:44444");
    assert_eq!(steps[steps.len() - 1], "complete");
}

#[test]
fn super_scan_stays_within_a_byte() {
    let low: Vec<String> = super_scan("1.2.2").iter().map(describe).collect();
    assert_eq!(low[1], "probe:1.2.0.1:44444");
    assert_eq!(low.iter().filter(|s| s.as_str() == "pause:10").count(), 8);
    let mid: Vec<String> = super_scan("1.2.20").iter().map(describe).collect();
    assert_eq!(mid[1], "probe:1.2.15.1:44444");
    assert_eq!(mid.iter().filter(|s| s.as_str() == "pause:10").count(), 11);
    let high: Vec<String> = super_scan("1.2.253").iter().map(describe).collect();
    assert_eq!(high[1], "probe:1.2.248.1:44444");
    assert_eq!(high.iter().filter(|s| s.as_str() == "pause:10").count(), 8);
    assert_eq!(high[high.len() - 3], "probe:1.2.255.254:44444");
}

#[test]
fn super_scan_of_a_bad_prefix_only_completes() {
    let steps: Vec<String> = super_scan("10.7").iter().map(describe).collect();
    assert_eq!(steps, vec!["complete".to_string()]);
}

#[test]
fn sending_a_file_paces_its_chunks() {
    let data = vec![5u8; 2500];
    let steps: Vec<String> = send_file("10.0.0.5", "44444", "a.jpg", Some(data)).iter().map(describe).collect();
    assert_eq!(
        steps,
        vec![
            "log:🚀 Sending -> 10.0.0.5:44444".to_string(),
            "send:10.0.0.5:44444:0/3".to_string(),
            "pause:1".to_string(),
            "send:10.0.0.5:44444:1/3".to_string(),
            "pause:1".to_string(),
            "send:10.0.0.5:44444:2/3".to_string(),
            "pause:1".to_string(),
        ]
    );
}

#[test]
fn unreadable_file_is_reported() {
    let steps: Vec<String> = send_file("10.0.0.5", "44444", "missing.jpg", None).iter().map(describe).collect();
    assert_eq!(steps, vec!["log:❌ File error: missing.jpg".to_string()]);
}

#[test]
fn addresses_and_local_ip_filter() {
    assert_eq!(socket_address("192.168.1.4", 44444), "192.168.1.4:44444");
    assert_eq!(socket_address("192.168.1.4", 0), "192.168.1.4:0");
    assert!(is_usable_local_ip("192.168.1.4"));
    assert!(!is_usable_local_ip("198.18.0.1"));
    assert!(is_usable_local_ip("198.1.0.1"));
}
