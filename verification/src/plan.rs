//! What the background node does for each command from the window, as a
//! list of steps for the network loop to carry out: probes to send, packets
//! to send, pauses, and events to report.

use vstd::prelude::*;
use crate::text::{decimal, push_decimal, chars_of, split_on, split_chars, parse_u8, parse_u8_chars, starts_with, has_prefix};
use crate::text::{lemma_decimal_digits, lemma_split_join, lemma_split_without_sep, law_parse_u8_reads_decimal};
use crate::node::{Packet, PacketModel, GuiEvent, GuiEventModel, DISCOVERY_PORT, chunk_packets_spec, transfer_id, transfer_packets};

verus! {

/// One step of carrying out a command.
pub enum NodeAction {
    /// Report an event to the window.
    Emit(GuiEvent),
    /// Send our ping to `target` from every socket.
    Probe { target: String },
    /// Send `packet` to `target` from every socket.
    Send { packet: Packet, target: String },
    /// Wait before going on.
    Pause { millis: u64 },
}

/// A step, as plain values.
pub enum ActionModel {
    Emit(GuiEventModel),
    Probe { target: Seq<char> },
    Send { packet: PacketModel, target: Seq<char> },
    Pause { millis: u64 },
}

impl View for NodeAction {
    type V = ActionModel;

    open spec fn view(&self) -> ActionModel {
        match self {
            NodeAction::Emit(e) => ActionModel::Emit(e@),
            NodeAction::Probe { target } => ActionModel::Probe { target: target@ },
            NodeAction::Send { packet, target } => ActionModel::Send { packet: packet@, target: target@ },
            NodeAction::Pause { millis } => ActionModel::Pause { millis: *millis },
        }
    }
}

/// The views of a list of steps.
pub open spec fn actions_view(v: Seq<NodeAction>) -> Seq<ActionModel> {
    v.map_values(|a: NodeAction| a@)
}

/// `host:port`.
pub open spec fn socket_text(host: Seq<char>, port: nat) -> Seq<char> {
    host + ":"@ + decimal(port)
}

/// `host:port`, as the sockets are bound and addressed.
pub fn socket_address(host: &str, port: u16) -> (r: String)
    ensures
        r@ == socket_text(host@, port as nat),
{
    let mut r = String::from_str(host);
    r.append(":");
    push_decimal(&mut r, port as u64);
    r
}

/// Whether a local IPv4 address is one to listen on: addresses in `198.18`
/// (benchmarking range, used by some VPNs) are skipped.
pub fn is_usable_local_ip(ip: &str) -> (r: bool)
    ensures
        r == !starts_with(ip@, "198.18"@),
{
    let cs = chars_of(ip);
    let p = chars_of("198.18");
    !has_prefix(cs.as_slice(), p.as_slice())
}

/// The probe of host `i` in subnet `prefix`, on the discovery port.
pub open spec fn probe_of(prefix: Seq<char>, i: nat) -> ActionModel {
    ActionModel::Probe { target: socket_text(prefix + "."@ + decimal(i), DISCOVERY_PORT as nat) }
}

/// Probes of hosts `1 .. upto` of `prefix`, pausing 1 ms after every
/// fiftieth host when `paced`.
pub open spec fn host_probes(prefix: Seq<char>, upto: nat, paced: bool) -> Seq<ActionModel>
    decreases upto,
{
    if upto <= 1 {
        Seq::empty()
    } else {
        let i = (upto - 1) as nat;
        host_probes(prefix, i, paced) + seq![probe_of(prefix, i)] + if paced && i % 50 == 0 {
            seq![ActionModel::Pause { millis: 1 }]
        } else {
            Seq::empty()
        }
    }
}

/// The broadcast probe.
pub open spec fn broadcast_probe() -> ActionModel {
    ActionModel::Probe { target: socket_text("255.255.255.255"@, DISCOVERY_PORT as nat) }
}

/// A scan of subnet `prefix`: report it, probe hosts 1 to 254, probe the
/// broadcast address, report the end.
pub open spec fn standard_scan_spec(prefix: Seq<char>) -> Seq<ActionModel> {
    seq![ActionModel::Emit(GuiEventModel::Log("📡 Standard Scan: "@ + prefix + ".x"@))]
        + host_probes(prefix, 255, true) + seq![
        broadcast_probe(),
        ActionModel::Emit(GuiEventModel::ScanComplete),
    ]
}

fn push_probe(out: &mut Vec<NodeAction>, prefix: &str, i: u64)
    ensures
        actions_view(final(out)@) == actions_view(old(out)@).push(probe_of(prefix@, i as nat)),
{
    let mut t = String::new();
    t.append(prefix);
    t.append(".");
    push_decimal(&mut t, i);
    t.append(":");
    push_decimal(&mut t, DISCOVERY_PORT as u64);
    assert(t@ =~= socket_text(prefix@ + "."@ + decimal(i as nat), DISCOVERY_PORT as nat));
    let ghost before = out@;
    out.push(NodeAction::Probe { target: t });
    assert(actions_view(out@) =~= actions_view(before).push(probe_of(prefix@, i as nat)));
}

fn push_host_probes(out: &mut Vec<NodeAction>, prefix: &str, paced: bool)
    ensures
        actions_view(final(out)@) == actions_view(old(out)@) + host_probes(prefix@, 255, paced),
{
    let mut i: u64 = 1;
    assert(actions_view(out@) =~= actions_view(old(out)@) + host_probes(prefix@, 1, paced));
    while i < 255
        invariant
            1 <= i <= 255,
            actions_view(out@) == actions_view(old(out)@) + host_probes(prefix@, i as nat, paced),
        decreases 255 - i,
    {
        push_probe(out, prefix, i);
        if paced && i % 50 == 0 {
            let ghost before = out@;
            out.push(NodeAction::Pause { millis: 1 });
            assert(actions_view(out@) =~= actions_view(before).push(ActionModel::Pause { millis: 1 }));
        }
        assert(actions_view(out@) =~= actions_view(old(out)@) + host_probes(prefix@, (i + 1) as nat, paced));
        i += 1;
    }
}

/// The steps of a scan of subnet `prefix`.
pub fn standard_scan(prefix: &str) -> (r: Vec<NodeAction>)
    ensures
        actions_view(r@) == standard_scan_spec(prefix@),
{
    let mut out: Vec<NodeAction> = Vec::new();
    let mut line = String::from_str("📡 Standard Scan: ");
    line.append(prefix);
    line.append(".x");
    let ghost first = ActionModel::Emit(GuiEventModel::Log("📡 Standard Scan: "@ + prefix@ + ".x"@));
    assert(line@ =~= "📡 Standard Scan: "@ + prefix@ + ".x"@);
    out.push(NodeAction::Emit(GuiEvent::Log(line)));
    assert(actions_view(out@) =~= seq![first]);
    push_host_probes(&mut out, prefix, true);
    let ghost mid = out@;
    let mut b = String::from_str("255.255.255.255");
    b.append(":");
    push_decimal(&mut b, DISCOVERY_PORT as u64);
    assert(b@ =~= socket_text("255.255.255.255"@, DISCOVERY_PORT as nat));
    out.push(NodeAction::Probe { target: b });
    out.push(NodeAction::Emit(GuiEvent::ScanComplete));
    assert(actions_view(out@) =~= actions_view(mid) + seq![
        broadcast_probe(),
        ActionModel::Emit(GuiEventModel::ScanComplete),
    ]);
    assert(actions_view(out@) =~= standard_scan_spec(prefix@));
    out
}

/// The three numbers of a subnet prefix such as `10.7.131`, when it has
/// exactly three dot-separated parts that each read as a byte.
pub open spec fn parsed_prefix(prefix: Seq<char>) -> Option<(u8, u8, u8)> {
    let parts = split_on(prefix, '.');
    if parts.len() == 3 && parse_u8(parts[0]) is Some && parse_u8(parts[1]) is Some && parse_u8(
        parts[2],
    ) is Some {
        Some((parse_u8(parts[0])->0, parse_u8(parts[1])->0, parse_u8(parts[2])->0))
    } else {
        None
    }
}

/// Reads a subnet prefix such as `10.7.131`.
pub fn parse_subnet_prefix(prefix: &str) -> (r: Option<(u8, u8, u8)>)
    ensures
        r == parsed_prefix(prefix@),
{
    let cs = chars_of(prefix);
    let parts = split_chars(cs.as_slice(), '.');
    if parts.len() != 3 {
        return None;
    }
    let a = parse_u8_chars(parts[0].as_slice());
    let b = parse_u8_chars(parts[1].as_slice());
    let c = parse_u8_chars(parts[2].as_slice());
    match (a, b, c) {
        (Some(x), Some(y), Some(z)) => Some((x, y, z)),
        _ => None,
    }
}

/// `a.b.c` in decimal.
pub open spec fn subnet_text(a: u8, b: u8, c: u8) -> Seq<char> {
    decimal(a as nat) + "."@ + decimal(b as nat) + "."@ + decimal(c as nat)
}

/// Lowest subnet of a wide scan around `c`.
pub open spec fn sweep_low(c: u8) -> nat {
    if c >= 5 { (c - 5) as nat } else { 0 }
}

/// Highest subnet of a wide scan around `c`.
pub open spec fn sweep_high(c: u8) -> nat {
    if c + 5 <= 255 { (c + 5) as nat } else { 255 }
}

/// For each subnet `a.b.s` with `low <= s < upto`: probes of its hosts 1 to
/// 254, then a 10 ms pause.
pub open spec fn subnet_sweep(a: u8, b: u8, low: nat, upto: nat) -> Seq<ActionModel>
    decreases upto,
{
    if upto <= low {
        Seq::empty()
    } else {
        let s = (upto - 1) as nat;
        subnet_sweep(a, b, low, s) + host_probes(subnet_text(a, b, s as u8), 255, false) + seq![
            ActionModel::Pause { millis: 10 },
        ]
    }
}

/// A wide scan from `prefix`: when it reads as `a.b.c`, report it and sweep
/// the subnets `a.b.(c-5)` to `a.b.(c+5)` (kept within a byte); report the
/// end in any case.
pub open spec fn super_scan_spec(prefix: Seq<char>) -> Seq<ActionModel> {
    match parsed_prefix(prefix) {
        Some((a, b, c)) => seq![
            ActionModel::Emit(
                GuiEventModel::Log("💥 SUPER NOVA: Scanning "@ + subnet_text(a, b, c) + " ±5 subnets"@),
            ),
        ] + subnet_sweep(a, b, sweep_low(c), sweep_high(c) + 1) + seq![
            ActionModel::Emit(GuiEventModel::ScanComplete),
        ],
        None => seq![ActionModel::Emit(GuiEventModel::ScanComplete)],
    }
}

proof fn lemma_decimal_single_part(n: nat)
    ensures
        split_on(decimal(n), '.') == seq![decimal(n)],
{
    lemma_decimal_digits(n);
    lemma_split_without_sep(decimal(n), '.');
}

/// Reading a printed prefix: `a.b.c`, written in decimal, reads back as
/// the three bytes `a`, `b` and `c`, zeros included.
pub proof fn law_printed_prefix_reads_back(a: u8, b: u8, c: u8)
    ensures
        parsed_prefix(subnet_text(a, b, c)) == Some((a, b, c)),
{
    reveal_strlit(".");
    let da = decimal(a as nat);
    let db = decimal(b as nat);
    let dc = decimal(c as nat);
    assert(subnet_text(a, b, c) =~= da + seq!['.'] + (db + seq!['.'] + dc));
    lemma_split_join(da, db + seq!['.'] + dc, '.');
    lemma_split_join(db, dc, '.');
    lemma_decimal_single_part(a as nat);
    lemma_decimal_single_part(b as nat);
    lemma_decimal_single_part(c as nat);
    let parts = split_on(subnet_text(a, b, c), '.');
    assert(parts =~= seq![da, db, dc]);
    law_parse_u8_reads_decimal(a);
    law_parse_u8_reads_decimal(b);
    law_parse_u8_reads_decimal(c);
}

/// A wide scan of a printed prefix `a.b.c` is carried out: it announces that
/// prefix and sweeps the subnets around `c` before reporting the end.
pub proof fn law_wide_scan_of_printed_prefix(a: u8, b: u8, c: u8)
    ensures
        super_scan_spec(subnet_text(a, b, c)) == seq![
            ActionModel::Emit(
                GuiEventModel::Log("💥 SUPER NOVA: Scanning "@ + subnet_text(a, b, c) + " ±5 subnets"@),
            ),
        ] + subnet_sweep(a, b, sweep_low(c), sweep_high(c) + 1) + seq![
            ActionModel::Emit(GuiEventModel::ScanComplete),
        ],
{
    law_printed_prefix_reads_back(a, b, c);
}

fn subnet_string(a: u8, b: u8, c: u8) -> (r: String)
    ensures
        r@ == subnet_text(a, b, c),
{
    let mut r = String::new();
    push_decimal(&mut r, a as u64);
    r.append(".");
    push_decimal(&mut r, b as u64);
    r.append(".");
    push_decimal(&mut r, c as u64);
    assert(r@ =~= subnet_text(a, b, c));
    r
}

/// The steps of a wide scan from `prefix`.
pub fn super_scan(prefix: &str) -> (r: Vec<NodeAction>)
    ensures
        actions_view(r@) == super_scan_spec(prefix@),
{
    let mut out: Vec<NodeAction> = Vec::new();
    match parse_subnet_prefix(prefix) {
        Some((a, b, c)) => {
            let mut line = String::from_str("💥 SUPER NOVA: Scanning ");
            let sub = subnet_string(a, b, c);
            line.append(sub.as_str());
            line.append(" ±5 subnets");
            out.push(NodeAction::Emit(GuiEvent::Log(line)));
            let ghost first = actions_view(out@);
            let low = c.saturating_sub(5);
            let high = c.saturating_add(5);
            let mut s: u16 = low as u16;
            assert(actions_view(out@) =~= first + subnet_sweep(a, b, sweep_low(c), s as nat));
            while s <= high as u16
                invariant
                    low == sweep_low(c),
                    high == sweep_high(c),
                    low <= s <= high + 1,
                    actions_view(out@) == first + subnet_sweep(a, b, sweep_low(c), s as nat),
                decreases high + 1 - s,
            {
                let prefix_s = subnet_string(a, b, s as u8);
                push_host_probes(&mut out, prefix_s.as_str(), false);
                let ghost before = out@;
                out.push(NodeAction::Pause { millis: 10 });
                assert(actions_view(out@) =~= actions_view(before).push(ActionModel::Pause { millis: 10 }));
                assert(actions_view(out@) =~= first + subnet_sweep(a, b, sweep_low(c), (s + 1) as nat));
                s += 1;
            }
            let ghost before = out@;
            out.push(NodeAction::Emit(GuiEvent::ScanComplete));
            assert(actions_view(out@) =~= actions_view(before).push(ActionModel::Emit(GuiEventModel::ScanComplete)));
            assert(actions_view(out@) =~= super_scan_spec(prefix@));
        },
        None => {
            out.push(NodeAction::Emit(GuiEvent::ScanComplete));
            assert(actions_view(out@) =~= super_scan_spec(prefix@));
        },
    }
    out
}

/// Each packet sent to `target`, followed by a 1 ms pause.
pub open spec fn paced_sends(pkts: Seq<PacketModel>, target: Seq<char>) -> Seq<ActionModel>
    decreases pkts.len(),
{
    if pkts.len() == 0 {
        Seq::empty()
    } else {
        paced_sends(pkts.drop_last(), target) + seq![
            ActionModel::Send { packet: pkts.last(), target },
            ActionModel::Pause { millis: 1 },
        ]
    }
}

/// Sending a file to `ip:port`: when its contents could be read, report the
/// transfer and send each chunk packet with a pause after it; otherwise
/// report the file error.
pub open spec fn send_file_spec(
    ip: Seq<char>,
    port: Seq<char>,
    path: Seq<char>,
    contents: Option<Seq<u8>>,
) -> Seq<ActionModel> {
    let target = ip + ":"@ + port;
    match contents {
        Some(data) => seq![ActionModel::Emit(GuiEventModel::Log("🚀 Sending -> "@ + target))]
            + paced_sends(chunk_packets_spec(transfer_id(data), data), target),
        None => seq![ActionModel::Emit(GuiEventModel::Log("❌ File error: "@ + path))],
    }
}

/// The view of optional file contents.
pub open spec fn opt_contents(o: Option<Vec<u8>>) -> Option<Seq<u8>> {
    match o {
        Some(v) => Some(v@),
        None => None,
    }
}

/// The steps of sending the file at `path`, whose contents are `contents`
/// (`None` when it could not be read), to `ip:port`.
pub fn send_file(ip: &str, port: &str, path: &str, contents: Option<Vec<u8>>) -> (r: Vec<NodeAction>)
    ensures
        actions_view(r@) == send_file_spec(ip@, port@, path@, opt_contents(contents)),
{
    let mut out: Vec<NodeAction> = Vec::new();
    match contents {
        Some(data) => {
            let mut target = String::new();
            target.append(ip);
            target.append(":");
            target.append(port);
            let mut line = String::from_str("🚀 Sending -> ");
            line.append(target.as_str());
            out.push(NodeAction::Emit(GuiEvent::Log(line)));
            let ghost first = actions_view(out@);
            let ghost pk = chunk_packets_spec(transfer_id(data@), data@);
            let mut pkts = transfer_packets(data.as_slice());
            let n = pkts.len();
            let mut i: usize = 0;
            assert(pk.take(0) =~= Seq::<PacketModel>::empty());
            assert(actions_view(out@) =~= first + paced_sends(pk.take(0), target@));
            while i < n
                invariant
                    n == pkts@.len(),
                    pk.len() == n,
                    i <= n,
                    forall|k: int| i <= k < n ==> (#[trigger] pkts@[k])@ == pk[k],
                    actions_view(out@) == first + paced_sends(pk.take(i as int), target@),
                decreases n - i,
            {
                let mut p = Packet::Ping { id: String::new() };
                std::mem::swap(&mut p, &mut pkts[i]);
                let ghost before = out@;
                out.push(NodeAction::Send { packet: p, target: target.clone() });
                out.push(NodeAction::Pause { millis: 1 });
                assert(pk.take(i + 1).drop_last() =~= pk.take(i as int));
                assert(actions_view(out@) =~= actions_view(before) + seq![
                    ActionModel::Send { packet: pk[i as int], target: target@ },
                    ActionModel::Pause { millis: 1 },
                ]);
                assert forall|k: int| i + 1 <= k < n implies (#[trigger] pkts@[k])@ == pk[k] by {}
                i += 1;
            }
            assert(pk.take(n as int) =~= pk);
            assert(actions_view(out@) =~= send_file_spec(ip@, port@, path@, opt_contents(Some(data))));
        },
        None => {
            let mut line = String::from_str("❌ File error: ");
            line.append(path);
            out.push(NodeAction::Emit(GuiEvent::Log(line)));
            assert(actions_view(out@) =~= send_file_spec(ip@, port@, path@, None));
        },
    }
    out
}

} // verus!
