use project_zero::service::GuiEvent as E;
use project_zero::gui::{pick_scan_prefix, subnet_for, GuiState};
use project_zero::service::{peer_address, NodeWindow};
use project_zero::{Command, GuiEvent};

#[test]
fn window_opens_with_defaults() {
    let g = GuiState::new();
    assert_eq!(g.logs, vec!["Init...".to_string()]);
    assert_eq!(g.scan_prefix, "10.7.131");
    assert_eq!(g.target_port, "44444");
    assert_eq!(g.input_path, "test.jpg");
    assert_eq!(g.target_ip, "");
    assert!(!g.is_scanning);
    assert!(g.discovered_peers.is_empty() && g.my_ips.is_empty() && g.last_image.is_none());
}

#[test]
fn logs_go_on_top() {
    let mut g = GuiState::new();
    g.apply_event(GuiEvent::Log("a".to_string()));
    g.apply_event(GuiEvent::Log("b".to_string()));
    assert_eq!(g.logs, vec!["b".to_string(), "a".to_string(), "Init...".to_string()]);
}

#[test]
fn local_addresses_pick_the_scan_prefix() {
    let mut g = GuiState::new();
    let ips = vec!["127.0.0.1".to_string(), "198.18.0.4".to_string(), "10.1".to_string(), "192.168.5.20".to_string(), "10.0.0.1".to_string()];
    g.apply_event(GuiEvent::LocalAddresses(ips.clone()));
    assert_eq!(g.my_ips, ips);
    assert_eq!(g.scan_prefix, "192.168.5");
    let mut h = GuiState::new();
    h.apply_event(GuiEvent::LocalAddresses(vec!["127.0.0.1".to_string()]));
    assert_eq!(h.scan_prefix, "10.7.131");
    assert_eq!(pick_scan_prefix(&vec![]), None);
    assert_eq!(subnet_for("1.2.3.4"), Some("1.2.3".to_string()));
    assert_eq!(subnet_for("127.1.2.3"), None);
}

#[test]
fn peers_listed_once_per_address() {
    let mut g = GuiState::new();
    g.apply_event(GuiEvent::PeerDiscovered { ip: "1.1.1.1".to_string(), id: "A".to_string() });
    g.apply_event(GuiEvent::PeerDiscovered { ip: "1.1.1.1".to_string(), id: "B".to_string() });
    g.apply_event(GuiEvent::PeerDiscovered { ip: "2.2.2.2".to_string(), id: "C".to_string() });
    assert_eq!(
        g.discovered_peers,
        vec![("1.1.1.1".to_string(), "A".to_string()), ("2.2.2.2".to_string(), "C".to_string())]
    );
}

#[test]
fn scan_buttons_and_completion() {
    let mut g = GuiState::new();
    g.apply_event(GuiEvent::PeerDiscovered { ip: "1.1.1.1".to_string(), id: "A".to_string() });
    match g.begin_scan(false) {
        Command::ScanStandard { prefix } => assert_eq!(prefix, "10.7.131"),
        _ => panic!("expected a standard scan"),
    }
    assert!(g.is_scanning);
    assert!(g.discovered_peers.is_empty());
    g.apply_event(GuiEvent::ScanComplete);
    assert!(!g.is_scanning);
    match g.begin_scan(true) {
        Command::ScanSuper { prefix } => assert_eq!(prefix, "10.7.131"),
        _ => panic!("expected a wide scan"),
    }
    g.apply_event(GuiEvent::ScanComplete);
    assert!(!g.is_scanning);
    g.apply_event(GuiEvent::BindSuccess { port: 1 });
    g.apply_event(GuiEvent::AssetReady { data: vec![1, 2] });
    assert_eq!(g.last_image, Some(vec![1, 2]));
}

#[test]
fn send_button_uses_target_fields() {
    let mut g = GuiState::new();
    g.target_ip = "10.0.0.8".to_string();
    match g.send_command() {
        Command::SendTo { ip, port, path } => {
            assert_eq!(ip, "10.0.0.8");
            assert_eq!(port, "44444");
            assert_eq!(path, "test.jpg");
        }
        _ => panic!("expected a send"),
    }
}

#[test]
fn node_window_logs_errors_and_address() {
    let mut w = NodeWindow::new();
    assert_eq!(w.local_ip, "Init...");
    assert!(!w.apply_event(E::Log("hi".to_string())));
    assert!(!w.apply_event(E::Error("bad".to_string())));
    assert!(w.apply_event(E::PeerFound("x".to_string())));
    assert!(!w.apply_event(E::SelfIpFound("10.0.0.4".to_string())));
    assert!(!w.apply_event(E::PublishSuccess { cid: "c".to_string(), is_json: false }));
    assert_eq!(w.logs, vec!["hi".to_string(), "ERR: bad".to_string()]);
    assert_eq!(w.local_ip, "10.0.0.4");
    w.target_ip = "10.0.0.9".to_string();
    match w.connect_command() {
        project_zero::service::Command::ConnectPeer { ip } => assert_eq!(ip, "10.0.0.9"),
        _ => panic!("expected connect"),
    }
    assert_eq!(peer_address("10.0.0.9"), "10.0.0.9:9000");
}
