use project_zero::discovery::{beacon_message, is_beacon, DiscoveryEngine};
use project_zero::safedoc::{Element, SafePage};
use project_zero::zeroui::{splash_title, Direction};

#[test]
fn page_renders_in_a_frame() {
    let page = SafePage::new("Home")
        .add(Element::Header("Welcome".to_string()))
        .add(Element::Text("short".to_string()))
        .add(Element::Link { label: "next".to_string(), target_id: "abcdef123".to_string() });
    assert_eq!(page.title, "Home");
    assert_eq!(page.elements.len(), 3);
    assert!(page.is_renderable());
    let lines = page.render_lines();
    let expected = vec![
        "".to_string(),
        "╔════════════════════════════════════════╗".to_string(),
        format!("║ {:^38} ║", "Home"),
        "╠════════════════════════════════════════╣".to_string(),
        format!("║  [#] {:<34}║", "Welcome"),
        "║                                        ║".to_string(),
        format!("║  {:<36}  ║", "short"),
        "║                                        ║".to_string(),
        "║  >> 🔗 [next] ---> abcdef  ║".to_string(),
        "╚════════════════════════════════════════╝".to_string(),
        "".to_string(),
    ];
    assert_eq!(lines, expected);
}

#[test]
fn long_text_breaks_at_36_bytes() {
    let text = "abcdefghijklmnopqrstuvwxyz0123456789XYZ";
    let page = SafePage::new("T").add(Element::Text(text.to_string()));
    let lines = page.render_lines();
    assert_eq!(lines[4], format!("║  {:<36}  ║", &text[0..36]));
    assert_eq!(lines[5], format!("║  {:<36}  ║", &text[36..]));
    assert_eq!(lines[6], "║                                        ║");
    assert_eq!(lines.len(), 9);
}

#[test]
fn multibyte_text_pads_by_characters() {
    let text = "ééééééééééééééééééé"; // 19 chars, 38 bytes: boundary at 36
    let page = SafePage::new("Ü").add(Element::Text(text.to_string()));
    assert!(page.is_renderable());
    let lines = page.render_lines();
    assert_eq!(lines[2], format!("║ {:^38} ║", "Ü"));
    assert_eq!(lines[4], format!("║  {:<36}  ║", &text[0..36]));
    assert_eq!(lines[5], format!("║  {:<36}  ║", &text[36..]));
}

#[test]
fn unrenderable_pages_are_detected() {
    let short_link = SafePage::new("x").add(Element::Link { label: "l".to_string(), target_id: "abc".to_string() });
    assert!(!short_link.is_renderable());
    // 35 ASCII bytes then a two-byte char: byte 36 is inside it
    let split_char = format!("{}é", "a".repeat(35));
    let bad_text = SafePage::new("x").add(Element::Text(split_char));
    assert!(!bad_text.is_renderable());
    let exact_link = SafePage::new("x").add(Element::Link { label: "l".to_string(), target_id: "abcdef".to_string() });
    assert!(exact_link.is_renderable());
}

#[test]
fn beacon_is_zero_beacon() {
    assert_eq!(beacon_message(), b"ZERO_BEACON".to_vec());
    assert!(is_beacon(b"ZERO_BEACON"));
    assert!(!is_beacon(b"ZERO_BEACO"));
    assert!(!is_beacon(b"ZERO_BEACON!"));
    assert!(!is_beacon(b"zero_beacon"));
}

#[test]
fn beacons_list_each_address_once() {
    let mut d = DiscoveryEngine::new();
    assert!(d.get_peers().is_empty());
    let t0 = std::time::Instant::now();
    assert!(d.record_beacon("10.0.0.1".to_string(), t0));
    let t1 = t0 + std::time::Duration::from_secs(2);
    assert!(d.record_beacon("10.0.0.2".to_string(), t0));
    assert!(!d.record_beacon("10.0.0.1".to_string(), t1));
    let peers = d.get_peers();
    assert_eq!(peers.len(), 2);
    assert_eq!(peers[0].ip, "10.0.0.1");
    assert_eq!(peers[0].last_seen, t1);
    assert_eq!(peers[1].ip, "10.0.0.2");
    assert_eq!(peers[1].last_seen, t0);
}

#[test]
fn splash_title_names_the_port() {
    assert_eq!(splash_title(8080), "Project Zero (Port: 8080)");
    assert_eq!(splash_title(0), "Project Zero (Port: 0)");
    assert_ne!(Direction::Horizontal, Direction::Vertical);
}

#[test]
fn broken_text_keeps_every_character() {
    let text = "The quick brown fox jumps over the lazy dog, twice over.";
    let page = SafePage::new("T").add(Element::Text(text.to_string()));
    let lines = page.render_lines();
    let first = lines[4].trim_start_matches("║  ").trim_end_matches("  ║").to_string();
    let second = lines[5].trim_start_matches("║  ").trim_end_matches("  ║").trim_end().to_string();
    assert_eq!(format!("{}{}", first, second), text);
}
