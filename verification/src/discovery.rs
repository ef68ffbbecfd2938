//! LAN discovery: the beacon every node broadcasts, and the list of peers
//! heard from, one entry per address with the time it was last heard.

use vstd::prelude::*;

verus! {

/// Port the beacon is broadcast to.
pub const DISCOVERY_PORT: u16 = 44444;

/// `std::time::Instant`, carried as an opaque value.
#[verifier::external_type_specification]
#[verifier::external_body]
pub struct ExInstant(std::time::Instant);

/// The beacon's bytes: `ZERO_BEACON` in ASCII.
pub open spec fn beacon_bytes() -> Seq<u8> {
    seq![90u8, 69, 82, 79, 95, 66, 69, 65, 67, 79, 78]
}

/// The beacon a node broadcasts.
pub fn beacon_message() -> (r: Vec<u8>)
    ensures
        r@ == beacon_bytes(),
{
    let r = vec![90u8, 69, 82, 79, 95, 66, 69, 65, 67, 79, 78];
    assert(r@ =~= beacon_bytes());
    r
}

/// Whether a received datagram is a beacon.
pub fn is_beacon(msg: &[u8]) -> (r: bool)
    ensures
        r == (msg@ == beacon_bytes()),
{
    let b = beacon_message();
    if msg.len() != b.len() {
        return false;
    }
    let mut i: usize = 0;
    while i < b.len()
        invariant
            b@ == beacon_bytes(),
            msg@.len() == b@.len(),
            i <= b@.len(),
            forall|j: int| 0 <= j < i ==> msg@[j] == b@[j],
        decreases b@.len() - i,
    {
        if msg[i] != b[i] {
            return false;
        }
        i += 1;
    }
    assert(msg@ =~= b@);
    true
}

/// A node heard on the LAN: its address and when it was last heard.
pub struct Peer {
    pub ip: String,
    pub last_seen: std::time::Instant,
}

/// The peers heard so far, in the order first heard.
pub struct DiscoveryEngine {
    peers: Vec<Peer>,
}

/// The views of a list of peers: address and last time heard.
pub open spec fn peers_view(v: Seq<Peer>) -> Seq<(Seq<char>, std::time::Instant)> {
    v.map_values(|p: Peer| (p.ip@, p.last_seen))
}

/// No address is listed twice.
pub open spec fn distinct_ips(v: Seq<(Seq<char>, std::time::Instant)>) -> bool {
    forall|j: int, k: int| 0 <= j < v.len() && 0 <= k < v.len() && j != k ==> (#[trigger] v[j]).0 != (#[trigger] v[k]).0
}

/// The list after hearing `ip` at `now`: a listed address gets the new time,
/// a new one is appended.
pub open spec fn after_beacon(
    v: Seq<(Seq<char>, std::time::Instant)>,
    ip: Seq<char>,
    now: std::time::Instant,
) -> Seq<(Seq<char>, std::time::Instant)> {
    if exists|k: int| 0 <= k < v.len() && (#[trigger] v[k]).0 == ip {
        let k = choose|k: int| 0 <= k < v.len() && (#[trigger] v[k]).0 == ip;
        v.update(k, (ip, now))
    } else {
        v.push((ip, now))
    }
}

impl View for DiscoveryEngine {
    type V = Seq<(Seq<char>, std::time::Instant)>;

    closed spec fn view(&self) -> Seq<(Seq<char>, std::time::Instant)> {
        peers_view(self.peers@)
    }
}

impl DiscoveryEngine {
    /// No address is listed twice.
    #[verifier::type_invariant]
    spec fn addresses_distinct(self) -> bool {
        distinct_ips(peers_view(self.peers@))
    }

    /// No peer heard yet.
    pub fn new() -> (d: Self)
        ensures
            d@ == Seq::<(Seq<char>, std::time::Instant)>::empty(),
    {
        let d = DiscoveryEngine { peers: Vec::new() };
        assert(d@ =~= Seq::<(Seq<char>, std::time::Instant)>::empty());
        d
    }

    /// A copy of the peer list.
    pub fn get_peers(&self) -> (r: Vec<Peer>)
        ensures
            peers_view(r@) == self@,
    {
        let mut r: Vec<Peer> = Vec::new();
        let mut i: usize = 0;
        while i < self.peers.len()
            invariant
                i <= self.peers@.len(),
                peers_view(r@) == peers_view(self.peers@).take(i as int),
            decreases self.peers@.len() - i,
        {
            let p = Peer { ip: self.peers[i].ip.clone(), last_seen: self.peers[i].last_seen };
            let ghost before = r@;
            r.push(p);
            assert(peers_view(r@) =~= peers_view(before).push((p.ip@, p.last_seen)));
            assert(peers_view(self.peers@).take(i + 1) =~= peers_view(self.peers@).take(i as int).push(
                (p.ip@, p.last_seen),
            ));
            i += 1;
        }
        assert(peers_view(self.peers@).take(i as int) =~= peers_view(self.peers@));
        r
    }

    /// A beacon from `ip` arrived at `now`: a listed address gets the new
    /// time, a new one is added. Returns whether the address is new.
    pub fn record_beacon(&mut self, ip: String, now: std::time::Instant) -> (is_new: bool)
        ensures
            distinct_ips(final(self)@),
            final(self)@ == after_beacon(old(self)@, ip@, now),
            is_new == !(exists|k: int| 0 <= k < old(self)@.len() && (#[trigger] old(self)@[k]).0 == ip@),
    {
        proof {
            use_type_invariant(&*self);
        }
        let ghost v = self@;
        let mut peers: Vec<Peer> = Vec::new();
        std::mem::swap(&mut peers, &mut self.peers);
        assert(peers_view(peers@) == v);
        let mut i: usize = 0;
        while i < peers.len()
            invariant
                v == peers_view(peers@),
                v == old(self)@,
                distinct_ips(v),
                i <= v.len(),
                forall|j: int| 0 <= j < i ==> (#[trigger] v[j]).0 != ip@,
            decreases v.len() - i,
        {
            if peers[i].ip == ip {
                assert(v[i as int].0 == ip@);
                let ghost ipv = peers@[i as int].ip@;
                let entry = &mut peers[i];
                entry.last_seen = now;
                proof {
                    let k = choose|k: int| 0 <= k < v.len() && (#[trigger] v[k]).0 == ip@;
                    assert(k == i);
                    assert(peers_view(peers@) =~= v.update(i as int, (ip@, now)));
                    let w = peers_view(peers@);
                    assert forall|a: int, b: int| 0 <= a < w.len() && 0 <= b < w.len() && a != b implies (#[trigger] w[a]).0 != (#[trigger] w[b]).0 by {
                        assert(w[a].0 == v[a].0);
                        assert(w[b].0 == v[b].0);
                    }
                }
                self.peers = peers;
                return false;
            }
            i += 1;
        }
        let ghost ipv = ip@;
        peers.push(Peer { ip, last_seen: now });
        assert(peers_view(peers@) =~= v.push((ipv, now)));
        proof {
            let w = peers_view(peers@);
            assert forall|a: int, b: int| 0 <= a < w.len() && 0 <= b < w.len() && a != b implies (#[trigger] w[a]).0 != (#[trigger] w[b]).0 by {
                if a < v.len() && b < v.len() {
                    assert(w[a] == v[a] && w[b] == v[b]);
                } else if a < v.len() {
                    assert(w[a] == v[a]);
                } else {
                    assert(w[b] == v[b]);
                }
            }
        }
        self.peers = peers;
        true
    }
}

/// The peer list never names an address twice, and after a beacon its
/// sender is listed with the beacon's time.
pub proof fn law_beacon_lists_sender_once(
    v: Seq<(Seq<char>, std::time::Instant)>,
    ip: Seq<char>,
    now: std::time::Instant,
)
    requires
        distinct_ips(v),
    ensures
        distinct_ips(after_beacon(v, ip, now)),
        exists|k: int| 0 <= k < after_beacon(v, ip, now).len() && #[trigger] after_beacon(v, ip, now)[k] == (ip, now),
        after_beacon(v, ip, now).len() == v.len() + if exists|k: int| 0 <= k < v.len() && (#[trigger] v[k]).0 == ip { 0int } else { 1 },
{
    let w = after_beacon(v, ip, now);
    if exists|k: int| 0 <= k < v.len() && (#[trigger] v[k]).0 == ip {
        let k = choose|k: int| 0 <= k < v.len() && (#[trigger] v[k]).0 == ip;
        assert(w[k] == (ip, now));
    } else {
        assert(w[v.len() as int] == (ip, now));
    }
}

} // verus!
