use project_zero::peers::{PeerAddr, PeerInfo, RoutingTable, BUCKET_COUNT, K_BUCKET_SIZE};

fn id_with(first: u8, last: u8) -> [u8; 32] {
    let mut id = [0u8; 32];
    id[0] = first;
    id[31] = last;
    id
}

fn addr(port: u16) -> PeerAddr {
    PeerAddr::V4([127, 0, 0, 1], port)
}

#[test]
fn new_table_is_empty() {
    let t = RoutingTable::new([7u8; 32]);
    assert_eq!(t.count(), 0);
    assert!(t.known_peers().is_empty());
    assert_eq!(t.local_id, [7u8; 32]);
}

#[test]
fn bucket_index_counts_shared_leading_bits() {
    let t = RoutingTable::new([0u8; 32]);
    assert_eq!(t.distance_bucket_index(&id_with(0x80, 0)), 0);
    assert_eq!(t.distance_bucket_index(&id_with(0x40, 0)), 1);
    assert_eq!(t.distance_bucket_index(&id_with(0x01, 0)), 7);
    assert_eq!(t.distance_bucket_index(&id_with(0, 0x80)), 248);
    assert_eq!(t.distance_bucket_index(&id_with(0, 0x01)), 255);
    // identical ids fold into the last bucket
    assert_eq!(t.distance_bucket_index(&[0u8; 32]), BUCKET_COUNT - 1);
}

#[test]
fn own_id_is_never_stored() {
    let mut t = RoutingTable::new([3u8; 32]);
    t.update([3u8; 32], addr(1));
    assert_eq!(t.count(), 0);
}

#[test]
fn update_moves_known_peer_to_tail_with_new_address() {
    let mut t = RoutingTable::new([0u8; 32]);
    let a = id_with(0x80, 1);
    let b = id_with(0x80, 2);
    t.update(a, addr(1));
    t.update(b, addr(2));
    t.update(a, addr(3));
    let peers: Vec<PeerInfo> = t.known_peers();
    assert_eq!(peers.len(), 2);
    assert_eq!(peers[0].id, b);
    assert_eq!(peers[1].id, a);
    assert_eq!(peers[1].addr, addr(3));
    assert_eq!(t.count(), 2);
}

#[test]
fn full_bucket_drops_newcomers() {
    let mut t = RoutingTable::new([0u8; 32]);
    for i in 0..(K_BUCKET_SIZE as u8 + 5) {
        t.update(id_with(0x80, i), addr(i as u16));
    }
    assert_eq!(t.count(), K_BUCKET_SIZE);
    let peers = t.known_peers();
    assert_eq!(peers.len(), K_BUCKET_SIZE);
    assert_eq!(peers[K_BUCKET_SIZE - 1].id, id_with(0x80, K_BUCKET_SIZE as u8 - 1));
    // a known peer still refreshes in a full bucket
    t.update(id_with(0x80, 0), addr(99));
    let peers = t.known_peers();
    assert_eq!(peers[K_BUCKET_SIZE - 1].id, id_with(0x80, 0));
    assert_eq!(peers[K_BUCKET_SIZE - 1].addr, addr(99));
}

#[test]
fn known_peers_go_bucket_by_bucket() {
    let mut t = RoutingTable::new([0u8; 32]);
    t.update(id_with(0, 1), addr(1)); // bucket 255
    t.update(id_with(0x80, 0), addr(2)); // bucket 0
    t.update(id_with(0x20, 0), addr(3)); // bucket 2
    let ids: Vec<[u8; 32]> = t.known_peers().iter().map(|p| p.id).collect();
    assert_eq!(ids, vec![id_with(0x80, 0), id_with(0x20, 0), id_with(0, 1)]);
}

#[test]
fn update_twice_is_update_once() {
    let mut t1 = RoutingTable::new([0u8; 32]);
    let mut t2 = RoutingTable::new([0u8; 32]);
    t1.update(id_with(1, 1), addr(5));
    t2.update(id_with(1, 1), addr(5));
    t2.update(id_with(1, 1), addr(5));
    let a: Vec<([u8; 32], PeerAddr)> = t1.known_peers().iter().map(|p| (p.id, p.addr)).collect();
    let b: Vec<([u8; 32], PeerAddr)> = t2.known_peers().iter().map(|p| (p.id, p.addr)).collect();
    assert_eq!(a, b);
}

#[test]
fn bucket_index_is_symmetric() {
    let a = id_with(0x0f, 3);
    let b = id_with(0x1f, 9);
    let ta = RoutingTable::new(a);
    let tb = RoutingTable::new(b);
    assert_eq!(ta.distance_bucket_index(&b), tb.distance_bucket_index(&a));
    assert_eq!(ta.distance_bucket_index(&b), 3);
}

#[test]
fn each_peer_is_known_once() {
    let mut t = RoutingTable::new([0u8; 32]);
    for round in 0..3u16 {
        for i in 0..10u8 {
            t.update(id_with(i, i), addr(round));
        }
    }
    let peers = t.known_peers();
    assert_eq!(peers.len(), 9); // id_with(0, 0) is our own id
    for (x, p) in peers.iter().enumerate() {
        for q in &peers[x + 1..] {
            assert_ne!(p.id, q.id);
        }
    }
    assert!(t.count() <= BUCKET_COUNT * K_BUCKET_SIZE);
}
