//! The window's own state and how events and buttons change it.

use vstd::prelude::*;
use crate::text::{starts_with, split_on, chars_of, split_chars, has_prefix, push_chars, push_decimal, decimal};
use crate::text::{lemma_split_join, lemma_split_without_sep};
use crate::node::{GuiEvent, GuiEventModel, Command, CommandModel, DISCOVERY_PORT, strings_view};

verus! {

/// Whether a local address should stand for the subnet to scan: not a
/// loopback `127.` address, not in `198.18`, and four dot-separated parts.
pub open spec fn scan_candidate(ip: Seq<char>) -> bool {
    &&& !starts_with(ip, "127."@)
    &&& !starts_with(ip, "198.18"@)
    &&& split_on(ip, '.').len() == 4
}

/// The first three parts of a dotted address, joined by dots.
pub open spec fn subnet_of(ip: Seq<char>) -> Seq<char> {
    let p = split_on(ip, '.');
    p[0] + "."@ + p[1] + "."@ + p[2]
}

/// The subnet of the first address that qualifies, if any.
pub open spec fn first_subnet(ips: Seq<Seq<char>>) -> Option<Seq<char>>
    decreases ips.len(),
{
    if ips.len() == 0 {
        None
    } else if scan_candidate(ips[0]) {
        Some(subnet_of(ips[0]))
    } else {
        first_subnet(ips.drop_first())
    }
}

proof fn lemma_first_part(ip: Seq<char>, head: Seq<char>)
    requires
        head.len() < ip.len(),
        ip.take(head.len() as int) == head,
        ip[head.len() as int] == '.',
        forall|i: int| 0 <= i < head.len() ==> head[i] != '.',
    ensures
        split_on(ip, '.')[0] == head,
{
    let rest = ip.skip(head.len() as int + 1);
    assert(ip =~= head + seq!['.'] + rest);
    lemma_split_join(head, rest, '.');
    lemma_split_without_sep(head, '.');
}

/// Which local addresses stand for the subnet to scan: any address of four
/// dot-separated parts whose first part is neither `127` nor `198` does,
/// standing for its first three parts, and it wins over the addresses
/// after it.
pub proof fn law_ordinary_address_picks_its_subnet(ip: Seq<char>, rest: Seq<Seq<char>>)
    requires
        split_on(ip, '.').len() == 4,
        split_on(ip, '.')[0] != "127"@,
        split_on(ip, '.')[0] != "198"@,
    ensures
        scan_candidate(ip),
        first_subnet(seq![ip] + rest) == Some(
            split_on(ip, '.')[0] + "."@ + split_on(ip, '.')[1] + "."@ + split_on(ip, '.')[2],
        ),
{
    reveal_strlit("127.");
    reveal_strlit("198.18");
    reveal_strlit("127");
    reveal_strlit("198");
    if starts_with(ip, "127."@) {
        assert(ip.take(3) =~= "127"@);
        assert(ip[3] == '.') by {
            assert(ip.take(4)[3] == '.');
        }
        lemma_first_part(ip, "127"@);
    }
    if starts_with(ip, "198.18"@) {
        assert(ip.take(3) =~= "198"@);
        assert(ip[3] == '.') by {
            assert(ip.take(6)[3] == '.');
        }
        lemma_first_part(ip, "198"@);
    }
    assert((seq![ip] + rest)[0] == ip);
}

/// Loopback addresses and addresses in `198.18` never stand for the subnet
/// to scan, whatever follows.
pub proof fn law_loopback_and_benchmark_addresses_skipped(rest: Seq<char>)
    ensures
        !scan_candidate("127."@ + rest),
        !scan_candidate("198.18"@ + rest),
{
    reveal_strlit("127.");
    reveal_strlit("198.18");
    assert(("127."@ + rest).take(4) =~= "127."@);
    assert(("198.18"@ + rest).take(6) =~= "198.18"@);
}

/// The views of the discovered peers: address and id.
pub open spec fn pairs_view(v: Seq<(String, String)>) -> Seq<(Seq<char>, Seq<char>)> {
    v.map_values(|p: (String, String)| (p.0@, p.1@))
}

/// Whether a peer at `ip` is already listed.
pub open spec fn listed(peers: Seq<(Seq<char>, Seq<char>)>, ip: Seq<char>) -> bool {
    exists|k: int| 0 <= k < peers.len() && (#[trigger] peers[k]).0 == ip
}

/// No two listed peers share an address.
pub open spec fn distinct_peer_ips(peers: Seq<(Seq<char>, Seq<char>)>) -> bool {
    forall|j: int, k: int| 0 <= j < peers.len() && 0 <= k < peers.len() && j != k ==> (#[trigger] peers[j]).0 != (#[trigger] peers[k]).0
}

/// The list after a peer at `ip` with id `id` is reported: kept as it is
/// when the address is listed, else the peer is added at the end.
pub open spec fn with_peer(peers: Seq<(Seq<char>, Seq<char>)>, ip: Seq<char>, id: Seq<char>) -> Seq<(Seq<char>, Seq<char>)> {
    if listed(peers, ip) {
        peers
    } else {
        peers.push((ip, id))
    }
}

/// The discovered peers' addresses stay pairwise distinct, whatever peers
/// are reported.
pub proof fn law_discovered_ips_stay_distinct(peers: Seq<(Seq<char>, Seq<char>)>, ip: Seq<char>, id: Seq<char>)
    requires
        distinct_peer_ips(peers),
    ensures
        distinct_peer_ips(with_peer(peers, ip, id)),
{
    if !listed(peers, ip) {
        let q = peers.push((ip, id));
        assert forall|j: int, k: int| 0 <= j < q.len() && 0 <= k < q.len() && j != k implies (#[trigger] q[j]).0 != (#[trigger] q[k]).0 by {
            if j < peers.len() && k < peers.len() {
                assert(q[j] == peers[j] && q[k] == peers[k]);
            } else if j < peers.len() {
                assert(q[j] == peers[j]);
                assert(peers[j].0 != ip);
            } else if k < peers.len() {
                assert(q[k] == peers[k]);
                assert(peers[k].0 != ip);
            }
        }
    }
}

/// What the window shows and remembers.
pub struct GuiState {
    pub logs: Vec<String>,
    pub my_ips: Vec<String>,
    pub scan_prefix: String,
    pub discovered_peers: Vec<(String, String)>,
    pub is_scanning: bool,
    pub target_ip: String,
    pub target_port: String,
    pub input_path: String,
    pub last_image: Option<Vec<u8>>,
}

fn chars_prefix(s: &[char], p: &str) -> (r: bool)
    ensures
        r == starts_with(s@, p@),
{
    let pc = chars_of(p);
    has_prefix(s, pc.as_slice())
}

/// The subnet that `ip` stands for, if it qualifies.
pub fn subnet_for(ip: &str) -> (r: Option<String>)
    ensures
        r matches Some(s) ==> scan_candidate(ip@) && s@ == subnet_of(ip@),
        r is None ==> !scan_candidate(ip@),
{
    let cs = chars_of(ip);
    if chars_prefix(cs.as_slice(), "127.") || chars_prefix(cs.as_slice(), "198.18") {
        return None;
    }
    let parts = split_chars(cs.as_slice(), '.');
    if parts.len() != 4 {
        return None;
    }
    let mut s = String::new();
    push_chars(&mut s, parts[0].as_slice());
    s.append(".");
    push_chars(&mut s, parts[1].as_slice());
    s.append(".");
    push_chars(&mut s, parts[2].as_slice());
    assert(s@ =~= subnet_of(ip@));
    Some(s)
}

/// The subnet of the first local address that qualifies.
pub fn pick_scan_prefix(ips: &Vec<String>) -> (r: Option<String>)
    ensures
        match r {
            Some(s) => first_subnet(strings_view(ips@)) == Some(s@),
            None => first_subnet(strings_view(ips@)) is None,
        },
{
    let ghost v = strings_view(ips@);
    let mut i: usize = 0;
    assert(v.skip(0) =~= v);
    while i < ips.len()
        invariant
            v == strings_view(ips@),
            i <= v.len(),
            first_subnet(v) == first_subnet(v.skip(i as int)),
        decreases v.len() - i,
    {
        assert(v.skip(i as int)[0] == ips@[i as int]@);
        assert(v.skip(i as int).drop_first() =~= v.skip(i + 1));
        match subnet_for(ips[i].as_str()) {
            Some(s) => {
                return Some(s);
            },
            None => {},
        }
        i += 1;
    }
    assert(v.skip(i as int) =~= Seq::<Seq<char>>::empty());
    None
}

impl GuiState {
    /// The window as it opens.
    pub fn new() -> (g: Self)
        ensures
            strings_view(g.logs@) == seq!["Init..."@],
            g.my_ips@.len() == 0,
            g.scan_prefix@ == "10.7.131"@,
            g.discovered_peers@.len() == 0,
            !g.is_scanning,
            g.target_ip@ == Seq::<char>::empty(),
            g.target_port@ == decimal(DISCOVERY_PORT as nat),
            g.input_path@ == "test.jpg"@,
            g.last_image is None,
    {
        let mut logs: Vec<String> = Vec::new();
        logs.push(String::from_str("Init..."));
        assert(strings_view(logs@) =~= seq!["Init..."@]);
        let mut port = String::new();
        push_decimal(&mut port, DISCOVERY_PORT as u64);
        assert(port@ =~= decimal(DISCOVERY_PORT as nat));
        GuiState {
            logs,
            my_ips: Vec::new(),
            scan_prefix: String::from_str("10.7.131"),
            discovered_peers: Vec::new(),
            is_scanning: false,
            target_ip: String::new(),
            target_port: port,
            input_path: String::from_str("test.jpg"),
            last_image: None,
        }
    }

    fn is_listed(&self, ip: &String) -> (r: bool)
        ensures
            r == listed(pairs_view(self.discovered_peers@), ip@),
    {
        let ghost v = pairs_view(self.discovered_peers@);
        let mut i: usize = 0;
        while i < self.discovered_peers.len()
            invariant
                v == pairs_view(self.discovered_peers@),
                i <= v.len(),
                forall|k: int| 0 <= k < i ==> (#[trigger] v[k]).0 != ip@,
            decreases v.len() - i,
        {
            if self.discovered_peers[i].0 == *ip {
                assert(v[i as int].0 == ip@);
                return true;
            }
            i += 1;
        }
        false
    }

    /// Takes an event from the background node: logs go on top, local
    /// addresses are shown and may set the subnet to scan, a new peer is
    /// listed once per address, the end of a scan re-enables the scan
    /// buttons, and a received file becomes the shown image.
    pub fn apply_event(&mut self, ev: GuiEvent)
        ensures
            ({
                let o = *old(self);
                let n = *final(self);
                match ev@ {
                    GuiEventModel::Log(s) => {
                        &&& strings_view(n.logs@) == seq![s] + strings_view(o.logs@)
                        &&& n == (GuiState { logs: n.logs, ..o })
                    },
                    GuiEventModel::LocalAddresses(ips) => {
                        &&& strings_view(n.my_ips@) == ips
                        &&& match first_subnet(ips) {
                            Some(p) => n.scan_prefix@ == p,
                            None => n.scan_prefix == o.scan_prefix,
                        }
                        &&& n == (GuiState { my_ips: n.my_ips, scan_prefix: n.scan_prefix, ..o })
                    },
                    GuiEventModel::PeerDiscovered { ip, id } => {
                        &&& pairs_view(n.discovered_peers@) == with_peer(pairs_view(o.discovered_peers@), ip, id)
                        &&& n == (GuiState { discovered_peers: n.discovered_peers, ..o })
                    },
                    GuiEventModel::ScanComplete => n == (GuiState { is_scanning: false, ..o }),
                    GuiEventModel::AssetReady { data } => {
                        &&& n.last_image matches Some(img) && img@ == data
                        &&& n == (GuiState { last_image: n.last_image, ..o })
                    },
                    GuiEventModel::BindSuccess { .. } => n == o,
                }
            }),
            distinct_peer_ips(pairs_view(old(self).discovered_peers@)) ==> distinct_peer_ips(
                pairs_view(final(self).discovered_peers@),
            ),
    {
        match ev {
            GuiEvent::Log(s) => {
                let ghost before = strings_view(self.logs@);
                let ghost sv = s@;
                self.logs.insert(0, s);
                assert(strings_view(self.logs@) =~= seq![sv] + before);
            },
            GuiEvent::LocalAddresses(ips) => {
                let pick = pick_scan_prefix(&ips);
                self.my_ips = ips;
                match pick {
                    Some(p) => {
                        self.scan_prefix = p;
                    },
                    None => {},
                }
            },
            GuiEvent::BindSuccess { .. } => {},
            GuiEvent::PeerDiscovered { ip, id } => {
                proof {
                    if distinct_peer_ips(pairs_view(self.discovered_peers@)) {
                        law_discovered_ips_stay_distinct(pairs_view(self.discovered_peers@), ip@, id@);
                    }
                }
                if !self.is_listed(&ip) {
                    let ghost before = pairs_view(self.discovered_peers@);
                    let ghost item = (ip@, id@);
                    self.discovered_peers.push((ip, id));
                    assert(pairs_view(self.discovered_peers@) =~= before.push(item));
                }
            },
            GuiEvent::ScanComplete => {
                self.is_scanning = false;
            },
            GuiEvent::AssetReady { data } => {
                self.last_image = Some(data);
            },
        }
    }

    /// A scan button was pressed: the peer list is cleared, the scan buttons
    /// are disabled, and the scan of the current prefix is requested (`wide`
    /// for the sweep of neighbouring subnets). The buttons are only offered
    /// while no scan runs.
    pub fn begin_scan(&mut self, wide: bool) -> (c: Command)
        requires
            !old(self).is_scanning,
        ensures
            final(self).discovered_peers@.len() == 0,
            *final(self) == (GuiState {
                is_scanning: true,
                discovered_peers: final(self).discovered_peers,
                ..*old(self)
            }),
            c@ == if wide {
                CommandModel::ScanSuper { prefix: old(self).scan_prefix@ }
            } else {
                CommandModel::ScanStandard { prefix: old(self).scan_prefix@ }
            },
    {
        self.is_scanning = true;
        self.discovered_peers.clear();
        if wide {
            Command::ScanSuper { prefix: self.scan_prefix.clone() }
        } else {
            Command::ScanStandard { prefix: self.scan_prefix.clone() }
        }
    }

    /// The send button was pressed: send the file at the input path to the
    /// target address and port.
    pub fn send_command(&self) -> (c: Command)
        ensures
            c@ == (CommandModel::SendTo {
                ip: self.target_ip@,
                port: self.target_port@,
                path: self.input_path@,
            }),
    {
        Command::SendTo {
            ip: self.target_ip.clone(),
            port: self.target_port.clone(),
            path: self.input_path.clone(),
        }
    }
}

} // verus!
