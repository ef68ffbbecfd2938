use project_zero::node::{
    split_chunks, transfer_hash, transfer_packets, chunk_packets, node_name, Assembler, NodeState,
    PacketReaction, CHUNK_SIZE,
};
use project_zero::{GuiEvent, Packet};

fn sample(len: usize) -> Vec<u8> {
    (0..len).map(|i| (i * 7 % 251) as u8).collect()
}

fn chunk_fields(p: &Packet) -> (String, u32, u32, Vec<u8>) {
    match p {
        Packet::Chunk { file_hash, index, total, data } => (file_hash.clone(), *index, *total, data.clone()),
        _ => panic!("not a chunk"),
    }
}

#[test]
fn chunks_are_1024_bytes_with_a_short_tail() {
    assert!(split_chunks(&[]).is_empty());
    let one = split_chunks(&sample(CHUNK_SIZE));
    assert_eq!(one.len(), 1);
    assert_eq!(one[0].len(), 1024);
    let three = split_chunks(&sample(2 * CHUNK_SIZE + 5));
    assert_eq!(three.iter().map(|c| c.len()).collect::<Vec<_>>(), vec![1024, 1024, 5]);
    assert_eq!(three.concat(), sample(2 * CHUNK_SIZE + 5));
}

#[test]
fn transfer_hash_is_md5_hex() {
    assert_eq!(transfer_hash(b"hello"), "5d41402abc4b2a76b9719d911017c592");
    assert_eq!(transfer_hash(b""), "d41d8cd98f00b204e9800998ecf8427e");
}

#[test]
fn packets_carry_index_and_total() {
    let data = sample(3000);
    let pkts = transfer_packets(&data);
    assert_eq!(pkts.len(), 3);
    for (i, p) in pkts.iter().enumerate() {
        let (h, index, total, chunk) = chunk_fields(p);
        assert_eq!(h, transfer_hash(&data));
        assert_eq!(index, i as u32);
        assert_eq!(total, 3);
        assert_eq!(chunk, data[i * 1024..(data.len()).min((i + 1) * 1024)].to_vec());
    }
    let named = chunk_packets(&"abc".to_string(), &[1, 2, 3]);
    assert_eq!(chunk_fields(&named[0]), ("abc".to_string(), 0, 1, vec![1, 2, 3]));
}

fn feed(a: &mut Assembler, pkts: Vec<Packet>) -> Vec<Option<Vec<u8>>> {
    pkts.into_iter()
        .map(|p| match p {
            Packet::Chunk { file_hash, index, total, data } => a.accept(file_hash, index, total, data),
            _ => None,
        })
        .collect()
}

#[test]
fn reassembly_in_order_returns_the_file() {
    let data = sample(5000);
    let mut a = Assembler::new();
    let out = feed(&mut a, transfer_packets(&data));
    assert_eq!(out.len(), 5);
    assert!(out[..4].iter().all(|o| o.is_none()));
    assert_eq!(out[4], Some(data.clone()));
    // the transfer is closed: the same chunks start a new one
    let again = feed(&mut a, transfer_packets(&data));
    assert_eq!(again[4], Some(data));
}

#[test]
fn reassembly_in_any_order_returns_the_file() {
    let data = sample(4100);
    let mut pkts = transfer_packets(&data);
    pkts.reverse();
    pkts.swap(1, 3);
    let mut a = Assembler::new();
    let out = feed(&mut a, pkts);
    assert!(out[..4].iter().all(|o| o.is_none()));
    assert_eq!(out[4], Some(data));
}

#[test]
fn reassembly_with_repeats_returns_the_file_once() {
    let data = sample(3000);
    let pkts = transfer_packets(&data);
    let order = [2usize, 0, 2, 0, 2, 1];
    let mut a = Assembler::new();
    let picked = order
        .iter()
        .map(|&i| {
            let (file_hash, index, total, data) = chunk_fields(&pkts[i]);
            Packet::Chunk { file_hash, index, total, data }
        })
        .collect();
    let out = feed(&mut a, picked);
    assert!(out[..5].iter().all(|o| o.is_none()));
    assert_eq!(out[5], Some(data));
}

#[test]
fn duplicate_and_out_of_range_chunks_are_ignored() {
    let mut a = Assembler::new();
    assert_eq!(a.accept("h".to_string(), 0, 2, vec![1]), None);
    // same slot again: ignored, even with other bytes
    assert_eq!(a.accept("h".to_string(), 0, 2, vec![9]), None);
    // out of range
    assert_eq!(a.accept("h".to_string(), 5, 2, vec![7]), None);
    // total of later chunks is ignored once a transfer is open
    assert_eq!(a.accept("h".to_string(), 1, 9, vec![2]), Some(vec![1, 2]));
    // a transfer announced with no chunks never completes
    assert_eq!(a.accept("z".to_string(), 0, 0, vec![1]), None);
}

#[test]
fn node_name_uses_seconds_modulo_1000() {
    assert_eq!(node_name(1_700_000_123), "Node_123");
    assert_eq!(node_name(7), "Node_7");
}

fn events(r: &PacketReaction) -> Vec<String> {
    r.events
        .iter()
        .map(|e| match e {
            GuiEvent::Log(s) => format!("log:{}", s),
            GuiEvent::PeerDiscovered { ip, id } => format!("peer:{}:{}", ip, id),
            GuiEvent::AssetReady { data } => format!("asset:{}", data.len()),
            _ => "other".to_string(),
        })
        .collect()
}

#[test]
fn ping_is_answered_and_peer_reported_once() {
    let mut n = NodeState::new("Node_1".to_string());
    let r = n.handle_packet(Packet::Ping { id: "Node_2".to_string() }, "10.0.0.2".to_string());
    match &r.reply {
        Some(Packet::Pong { id }) => assert_eq!(id, "Node_1"),
        _ => panic!("expected a pong"),
    }
    assert_eq!(events(&r), vec!["peer:10.0.0.2:Node_2".to_string()]);
    let r2 = n.handle_packet(Packet::Ping { id: "Node_2".to_string() }, "10.0.0.2".to_string());
    assert!(r2.reply.is_some());
    assert!(r2.events.is_empty());
}

#[test]
fn own_ping_is_ignored() {
    let mut n = NodeState::new("Node_1".to_string());
    let r = n.handle_packet(Packet::Ping { id: "Node_1".to_string() }, "10.0.0.1".to_string());
    assert!(r.reply.is_none());
    assert!(r.events.is_empty());
    assert_eq!(n.my_id(), "Node_1");
}

#[test]
fn pong_from_new_peer_logs_and_reports() {
    let mut n = NodeState::new("Node_1".to_string());
    let r = n.handle_packet(Packet::Pong { id: "Node_9".to_string() }, "10.0.0.9".to_string());
    assert!(r.reply.is_none());
    assert_eq!(events(&r), vec!["log:👋 FOUND: Node_9".to_string(), "peer:10.0.0.9:Node_9".to_string()]);
    let r2 = n.handle_packet(Packet::Pong { id: "Node_9".to_string() }, "10.0.0.9".to_string());
    assert!(r2.events.is_empty());
}

#[test]
fn last_chunk_delivers_the_asset() {
    let mut n = NodeState::new("Node_1".to_string());
    let data = sample(1500);
    let mut seen = Vec::new();
    for p in transfer_packets(&data) {
        let r = n.handle_packet(p, "10.0.0.3".to_string());
        assert!(r.reply.is_none());
        seen.push(events(&r));
    }
    assert!(seen[0].is_empty());
    assert_eq!(seen[1], vec!["log:📥 Received!".to_string(), "asset:1500".to_string()]);
}

#[test]
fn mixed_pings_and_pongs_report_each_address_once() {
    let mut n = NodeState::new("Node_1".to_string());
    let arrivals = vec![
        (Packet::Ping { id: "A".to_string() }, "10.0.0.2"),
        (Packet::Pong { id: "A".to_string() }, "10.0.0.2"),
        (Packet::Pong { id: "B".to_string() }, "10.0.0.3"),
        (Packet::Ping { id: "B".to_string() }, "10.0.0.3"),
        (Packet::Ping { id: "Node_1".to_string() }, "10.0.0.4"),
        (Packet::Pong { id: "C".to_string() }, "10.0.0.2"),
    ];
    let mut found = Vec::new();
    for (p, ip) in arrivals {
        let r = n.handle_packet(p, ip.to_string());
        for e in events(&r) {
            if e.starts_with("peer:") {
                found.push(e);
            }
        }
    }
    assert_eq!(found, vec!["peer:10.0.0.2:A".to_string(), "peer:10.0.0.3:B".to_string()]);
}

#[test]
fn reassembly_keeps_first_chunks_whatever_they_hold() {
    let mut a = Assembler::new();
    assert_eq!(a.accept("t".to_string(), 1, 3, vec![20, 21]), None);
    assert_eq!(a.accept("t".to_string(), 1, 3, vec![99]), None);
    assert_eq!(a.accept("t".to_string(), 7, 3, vec![98]), None);
    assert_eq!(a.accept("t".to_string(), 0, 9, vec![10]), None);
    assert_eq!(a.accept("t".to_string(), 2, 1, vec![30]), Some(vec![10, 20, 21, 30]));
    // closed: the next chunk opens a new transfer with its own total
    assert_eq!(a.accept("t".to_string(), 0, 1, vec![5]), Some(vec![5]));
}
