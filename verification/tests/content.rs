use project_zero::identity::NodeIdentity;
use project_zero::service::{
    payload_actions, Command, ContentAction, ContentInput, ContentNode, GuiEvent, Payload, StorePurpose,
};

fn payload_text(p: &Payload) -> String {
    match p {
        Payload::Store { cid, data } => format!("store {} {:?}", cid, data),
        Payload::Data { cid, data } => format!("data {} {:?}", cid, data),
        Payload::Fetch { cid } => format!("fetch {}", cid),
        Payload::Heartbeat { timestamp } => format!("heartbeat {}", timestamp),
    }
}

fn describe(a: &ContentAction) -> String {
    match a {
        ContentAction::Emit(GuiEvent::Log(s)) => format!("log:{}", s),
        ContentAction::Emit(GuiEvent::Error(s)) => format!("error:{}", s),
        ContentAction::Emit(GuiEvent::ContentArrived { cid, data }) => format!("arrived:{}:{:?}", cid, data),
        ContentAction::Emit(GuiEvent::PublishSuccess { cid, is_json }) => format!("published:{}:{}", cid, is_json),
        ContentAction::Emit(GuiEvent::PeerFound(s)) => format!("found:{}", s),
        ContentAction::Emit(GuiEvent::SelfIpFound(s)) => format!("self:{}", s),
        ContentAction::StoreContent { data, purpose } => match purpose {
            StorePurpose::Publish => format!("store-publish:{:?}", data),
            StorePurpose::Replica => format!("store-replica:{:?}", data),
            StorePurpose::Delivery { cid } => format!("store-delivery:{}:{:?}", cid, data),
        },
        ContentAction::FetchLocal { cid } => format!("fetch-local:{}", cid),
        ContentAction::Resolve { text } => format!("resolve:{}", text),
        ContentAction::SendTo { payload, addr } => format!("send:{}:{}", payload_text(payload), addr),
        ContentAction::Broadcast { payload, targets } => {
            format!("broadcast:{}:{}", payload_text(payload), targets.join(","))
        }
        ContentAction::Relay { targets } => format!("relay:{}", targets.join(",")),
    }
}

fn step(n: &mut ContentNode, i: ContentInput) -> Vec<String> {
    n.content_step(i).iter().map(describe).collect()
}

fn received(verified: bool, id: &str, addr: &str, payload: Payload) -> ContentInput {
    ContentInput::Received { verified, id: id.to_string(), addr: addr.to_string(), payload }
}

fn resolved(addr: &str) -> ContentInput {
    ContentInput::Resolved { addr: Some(addr.to_string()) }
}

#[test]
fn commands_become_local_work() {
    let mut n = ContentNode::new();
    assert_eq!(
        step(&mut n, ContentInput::Command(Command::Publish { content: vec![1, 2] })),
        vec!["store-publish:[1, 2]"]
    );
    assert_eq!(
        step(&mut n, ContentInput::Command(Command::Fetch { cid: "ab".to_string() })),
        vec!["fetch-local:ab"]
    );
    assert_eq!(
        step(&mut n, ContentInput::Command(Command::ConnectPeer { ip: "10.0.0.7".to_string() })),
        vec!["resolve:10.0.0.7:9000"]
    );
}

#[test]
fn connecting_logs_greets_and_remembers_the_peer() {
    let mut n = ContentNode::new();
    assert_eq!(
        step(&mut n, resolved("10.0.0.7:9000")),
        vec!["log:-> 10.0.0.7:9000", "send:heartbeat 0:10.0.0.7:9000"]
    );
    assert_eq!(step(&mut n, ContentInput::Resolved { addr: None }), vec!["error:Invalid IP"]);
    // The peer is now a broadcast target, listed once.
    step(&mut n, resolved("10.0.0.7:9000"));
    assert_eq!(
        step(&mut n, ContentInput::Fetched { cid: "ab".to_string(), data: None }),
        vec!["broadcast:fetch ab:10.0.0.7:9000"]
    );
}

#[test]
fn publishing_reports_and_spreads() {
    let mut n = ContentNode::new();
    step(&mut n, resolved("1.1.1.1:9000"));
    step(&mut n, resolved("2.2.2.2:9000"));
    let out = step(
        &mut n,
        ContentInput::Stored { purpose: StorePurpose::Publish, data: vec![7], cid: Some("c1".to_string()) },
    );
    assert_eq!(out, vec!["published:c1:false", "broadcast:store c1 [7]:1.1.1.1:9000,2.2.2.2:9000"]);
    let failed = step(&mut n, ContentInput::Stored { purpose: StorePurpose::Publish, data: vec![7], cid: None });
    assert!(failed.is_empty());
}

#[test]
fn fetch_answers_locally_when_it_can() {
    let mut n = ContentNode::new();
    assert_eq!(
        step(&mut n, ContentInput::Fetched { cid: "ab".to_string(), data: Some(vec![3, 4]) }),
        vec!["arrived:ab:[3, 4]"]
    );
    assert_eq!(
        step(&mut n, ContentInput::Fetched { cid: "ab".to_string(), data: None }),
        vec!["broadcast:fetch ab:"]
    );
}

#[test]
fn stored_replies_follow_their_purpose() {
    let mut n = ContentNode::new();
    let delivered = step(
        &mut n,
        ContentInput::Stored {
            purpose: StorePurpose::Delivery { cid: "want".to_string() },
            data: vec![9],
            cid: Some("got".to_string()),
        },
    );
    assert_eq!(delivered, vec!["arrived:want:[9]"]);
    let replica = step(
        &mut n,
        ContentInput::Stored { purpose: StorePurpose::Replica, data: vec![9], cid: Some("got".to_string()) },
    );
    assert!(replica.is_empty());
}

#[test]
fn payloads_lead_to_storage() {
    let a: Vec<String> =
        payload_actions(Payload::Store { cid: "x".to_string(), data: vec![1] }).iter().map(describe).collect();
    assert_eq!(a, vec!["store-replica:[1]"]);
    let b: Vec<String> =
        payload_actions(Payload::Data { cid: "x".to_string(), data: vec![2] }).iter().map(describe).collect();
    assert_eq!(b, vec!["store-delivery:x:[2]"]);
    assert!(payload_actions(Payload::Fetch { cid: "x".to_string() }).is_empty());
    assert!(payload_actions(Payload::Heartbeat { timestamp: 5 }).is_empty());
}

#[test]
fn repeated_packets_are_dropped() {
    let mut n = ContentNode::new();
    let first = step(&mut n, received(true, "p1", "1.1.1.1:9000", Payload::Store { cid: "c".to_string(), data: vec![1] }));
    assert_eq!(first, vec!["store-replica:[1]"]);
    let again = step(&mut n, received(true, "p1", "1.1.1.1:9000", Payload::Store { cid: "c".to_string(), data: vec![1] }));
    assert!(again.is_empty());
}

#[test]
fn own_broadcasts_are_not_taken_back() {
    let mut n = ContentNode::new();
    assert!(step(&mut n, ContentInput::Broadcasted { id: "mine".to_string() }).is_empty());
    let back = step(&mut n, received(true, "mine", "1.1.1.1:9000", Payload::Data { cid: "c".to_string(), data: vec![1] }));
    assert!(back.is_empty());
}

#[test]
fn tampered_packets_are_blocked() {
    let mut n = ContentNode::new();
    let out = step(&mut n, received(false, "p1", "127.0.0.1:8001", Payload::Store { cid: "c".to_string(), data: vec![1] }));
    assert_eq!(out, vec!["log:🛡️ BLOCKED: Fake/Tampered packet from 127.0.0.1:8001"]);
    // Being blocked does not mark the id as seen.
    let later = step(&mut n, received(true, "p1", "127.0.0.1:8001", Payload::Store { cid: "c".to_string(), data: vec![1] }));
    assert_eq!(later, vec!["store-replica:[1]"]);
    let relayed = step(&mut n, received(true, "p2", "127.0.0.1:8002", Payload::Heartbeat { timestamp: 1 }));
    assert_eq!(relayed, vec!["relay:127.0.0.1:8001", "log:>> Relayed to 1 peers."]);
}

#[test]
fn intermediate_nodes_relay_to_the_other_peers() {
    let mut n = ContentNode::new();
    step(&mut n, resolved("127.0.0.1:8000"));
    step(&mut n, resolved("127.0.0.1:8002"));
    let out = step(&mut n, received(true, "g1", "127.0.0.1:8000", Payload::Data { cid: "c".to_string(), data: vec![5] }));
    assert_eq!(out, vec!["store-delivery:c:[5]", "relay:127.0.0.1:8002", "log:>> Relayed to 1 peers."]);
    // An end node with only its sender as peer relays nothing.
    let mut end = ContentNode::new();
    step(&mut end, resolved("127.0.0.1:8001"));
    let quiet = step(&mut end, received(true, "g1", "127.0.0.1:8001", Payload::Heartbeat { timestamp: 0 }));
    assert!(quiet.is_empty());
}

#[test]
fn signatures_are_checked_on_arrival() {
    let me = NodeIdentity::new();
    let key = me.get_public_key();
    let message = b"packet body".to_vec();
    let sig = me.sign(&message);
    let mut n = ContentNode::new();
    n.add_bootstrap("9.9.9.9:9000".to_string());
    let ok: Vec<String> = n
        .receive_packet(&key, &message, &sig, "s1".to_string(), "1.1.1.1:9000".to_string(), Payload::Store {
            cid: "c".to_string(),
            data: vec![1],
        })
        .iter()
        .map(describe)
        .collect();
    assert_eq!(ok, vec!["store-replica:[1]", "relay:9.9.9.9:9000", "log:>> Relayed to 1 peers."]);
    let mut bad = sig;
    bad[63] ^= 1;
    let blocked: Vec<String> = n
        .receive_packet(&key, &message, &bad, "s2".to_string(), "1.1.1.1:9000".to_string(), Payload::Heartbeat {
            timestamp: 0,
        })
        .iter()
        .map(describe)
        .collect();
    assert_eq!(blocked, vec!["log:🛡️ BLOCKED: Fake/Tampered packet from 1.1.1.1:9000"]);
}
