//! The desktop node: its wire packets, the events it reports to the window
//! and the commands it takes, and what it does with packets: splitting a
//! file into chunks, putting chunks back together, answering pings and
//! keeping the set of peers it has heard from.

use vstd::prelude::*;
use crate::text::{decimal, push_decimal};
use crate::digest::{md5, lower_hex, md5_digest, hex_encode};

verus! {

/// Port the node listens on and scans.
pub const DISCOVERY_PORT: u16 = 44444;

/// Payload size of one chunk of a transfer.
pub const CHUNK_SIZE: usize = 1024;

/// A packet on the wire.
pub enum Packet {
    Ping { id: String },
    Pong { id: String },
    Chunk { file_hash: String, index: u32, total: u32, data: Vec<u8> },
}

/// What a packet carries, as plain sequences.
pub enum PacketModel {
    Ping { id: Seq<char> },
    Pong { id: Seq<char> },
    Chunk { file_hash: Seq<char>, index: u32, total: u32, data: Seq<u8> },
}

impl View for Packet {
    type V = PacketModel;

    open spec fn view(&self) -> PacketModel {
        match self {
            Packet::Ping { id } => PacketModel::Ping { id: id@ },
            Packet::Pong { id } => PacketModel::Pong { id: id@ },
            Packet::Chunk { file_hash, index, total, data } => PacketModel::Chunk {
                file_hash: file_hash@,
                index: *index,
                total: *total,
                data: data@,
            },
        }
    }
}

/// What the background node reports to the window.
pub enum GuiEvent {
    Log(String),
    LocalAddresses(Vec<String>),
    BindSuccess { port: u16 },
    PeerDiscovered { ip: String, id: String },
    ScanComplete,
    AssetReady { data: Vec<u8> },
}

/// What an event carries, as plain sequences.
pub enum GuiEventModel {
    Log(Seq<char>),
    LocalAddresses(Seq<Seq<char>>),
    BindSuccess { port: u16 },
    PeerDiscovered { ip: Seq<char>, id: Seq<char> },
    ScanComplete,
    AssetReady { data: Seq<u8> },
}

impl View for GuiEvent {
    type V = GuiEventModel;

    open spec fn view(&self) -> GuiEventModel {
        match self {
            GuiEvent::Log(s) => GuiEventModel::Log(s@),
            GuiEvent::LocalAddresses(ips) => GuiEventModel::LocalAddresses(
                ips@.map_values(|s: String| s@),
            ),
            GuiEvent::BindSuccess { port } => GuiEventModel::BindSuccess { port: *port },
            GuiEvent::PeerDiscovered { ip, id } => GuiEventModel::PeerDiscovered {
                ip: ip@,
                id: id@,
            },
            GuiEvent::ScanComplete => GuiEventModel::ScanComplete,
            GuiEvent::AssetReady { data } => GuiEventModel::AssetReady { data: data@ },
        }
    }
}

/// What the window asks the background node to do.
pub enum Command {
    SendTo { ip: String, port: String, path: String },
    ScanStandard { prefix: String },
    ScanSuper { prefix: String },
}

/// What a command carries, as plain sequences.
pub enum CommandModel {
    SendTo { ip: Seq<char>, port: Seq<char>, path: Seq<char> },
    ScanStandard { prefix: Seq<char> },
    ScanSuper { prefix: Seq<char> },
}

impl View for Command {
    type V = CommandModel;

    open spec fn view(&self) -> CommandModel {
        match self {
            Command::SendTo { ip, port, path } => CommandModel::SendTo {
                ip: ip@,
                port: port@,
                path: path@,
            },
            Command::ScanStandard { prefix } => CommandModel::ScanStandard { prefix: prefix@ },
            Command::ScanSuper { prefix } => CommandModel::ScanSuper { prefix: prefix@ },
        }
    }
}

/// `d` cut into pieces of `size` bytes, the last one possibly shorter.
pub open spec fn chunks_of(d: Seq<u8>, size: nat) -> Seq<Seq<u8>>
    decreases d.len(),
{
    if d.len() == 0 || size == 0 {
        Seq::empty()
    } else if d.len() <= size {
        seq![d]
    } else {
        seq![d.take(size as int)] + chunks_of(d.skip(size as int), size)
    }
}

/// Cutting into chunks loses nothing: joined back, the chunks are the data,
/// and every chunk holds between one and `size` bytes.
pub proof fn law_chunks_rejoin(d: Seq<u8>, size: nat)
    requires
        size > 0,
    ensures
        chunks_of(d, size).flatten() == d,
        forall|i: int| 0 <= i < chunks_of(d, size).len() ==> 0 < #[trigger] chunks_of(d, size)[i].len() <= size,
        chunks_of(d, size).len() == (d.len() + size - 1) / (size as int),
    decreases d.len(),
{
    if d.len() == 0 {
        assert(chunks_of(d, size).flatten() =~= d);
        assert((size - 1) / (size as int) == 0) by (nonlinear_arith)
            requires size > 0;
    } else if d.len() <= size {
        seq![d].lemma_flatten_one_element();
        assert((d.len() + size - 1) / (size as int) == 1) by (nonlinear_arith)
            requires 0 < d.len() <= size;
    } else {
        let rest = d.skip(size as int);
        law_chunks_rejoin(rest, size);
        let c = chunks_of(d, size);
        assert(c.drop_first() =~= chunks_of(rest, size));
        assert(c.first() == d.take(size as int));
        assert(d.take(size as int) + rest =~= d);
        assert((d.len() + size - 1) / (size as int) == 1 + (rest.len() + size - 1) / (size as int))
            by (nonlinear_arith)
            requires rest.len() == d.len() - size, size > 0;
    }
}

/// The views of a list of byte buffers.
pub open spec fn buffers_view(v: Seq<Vec<u8>>) -> Seq<Seq<u8>> {
    v.map_values(|b: Vec<u8>| b@)
}

/// Cuts `data` into chunks of `CHUNK_SIZE` bytes (`<[u8]>::chunks`).
pub fn split_chunks(data: &[u8]) -> (r: Vec<Vec<u8>>)
    ensures
        buffers_view(r@) == chunks_of(data@, CHUNK_SIZE as nat),
{
    let mut r: Vec<Vec<u8>> = Vec::new();
    let mut pos: usize = 0;
    let n = data.len();
    assert(data@.skip(0) =~= data@);
    while pos < n
        invariant
            n == data@.len(),
            pos <= n,
            buffers_view(r@) + chunks_of(data@.skip(pos as int), CHUNK_SIZE as nat) == chunks_of(
                data@,
                CHUNK_SIZE as nat,
            ),
        decreases n - pos,
    {
        let ghost rest = data@.skip(pos as int);
        let end = if n - pos <= CHUNK_SIZE {
            n
        } else {
            pos + CHUNK_SIZE
        };
        let chunk = vstd::slice::slice_to_vec(vstd::slice::slice_subrange(data, pos, end));
        let ghost before = r@;
        r.push(chunk);
        proof {
            if n - pos <= CHUNK_SIZE {
                assert(chunk@ =~= rest);
                assert(data@.skip(end as int) =~= Seq::<u8>::empty());
                assert(chunks_of(rest, CHUNK_SIZE as nat) == seq![rest]);
            } else {
                assert(chunk@ =~= rest.take(CHUNK_SIZE as int));
                assert(rest.skip(CHUNK_SIZE as int) =~= data@.skip(end as int));
            }
            assert(buffers_view(r@) =~= buffers_view(before).push(chunk@));
            assert(buffers_view(r@) + chunks_of(data@.skip(end as int), CHUNK_SIZE as nat)
                =~= buffers_view(before) + chunks_of(rest, CHUNK_SIZE as nat));
        }
        pos = end;
    }
    assert(data@.skip(n as int) =~= Seq::<u8>::empty());
    assert(buffers_view(r@) + Seq::<Seq<u8>>::empty() =~= buffers_view(r@));
    r
}

/// The transfer id of a file: its MD5 digest in lower-case hexadecimal.
pub open spec fn transfer_id(data: Seq<u8>) -> Seq<char> {
    lower_hex(md5(data))
}

/// The chunk packets that carry `data` under `file_hash`: chunk `i` of the
/// data, with its index and the number of chunks (both as `u32`).
pub open spec fn chunk_packets_spec(file_hash: Seq<char>, data: Seq<u8>) -> Seq<PacketModel> {
    let c = chunks_of(data, CHUNK_SIZE as nat);
    Seq::new(
        c.len(),
        |i: int|
            PacketModel::Chunk {
                file_hash,
                index: i as u32,
                total: c.len() as u32,
                data: c[i],
            },
    )
}

/// The views of a list of packets.
pub open spec fn packets_view(v: Seq<Packet>) -> Seq<PacketModel> {
    v.map_values(|p: Packet| p@)
}

/// The chunk packets of `data`, labelled with `file_hash`.
pub fn chunk_packets(file_hash: &String, data: &[u8]) -> (r: Vec<Packet>)
    ensures
        packets_view(r@) == chunk_packets_spec(file_hash@, data@),
{
    let mut chunks = split_chunks(data);
    let ghost c = buffers_view(chunks@);
    let total = chunks.len() as u32;
    let mut r: Vec<Packet> = Vec::new();
    let mut i: usize = 0;
    let n = chunks.len();
    while i < n
        invariant
            n == c.len(),
            c == chunks_of(data@, CHUNK_SIZE as nat),
            total == n as u32,
            i <= n,
            chunks@.len() == n,
            forall|k: int| i <= k < n ==> (#[trigger] chunks@[k])@ == c[k],
            packets_view(r@) == chunk_packets_spec(file_hash@, data@).take(i as int),
        decreases n - i,
    {
        let mut data_i = Vec::new();
        std::mem::swap(&mut data_i, &mut chunks[i]);
        let p = Packet::Chunk { file_hash: file_hash.clone(), index: i as u32, total, data: data_i };
        let ghost before = r@;
        r.push(p);
        assert(packets_view(r@) =~= packets_view(before).push(p@));
        assert(chunk_packets_spec(file_hash@, data@).take(i + 1) =~= chunk_packets_spec(
            file_hash@,
            data@,
        ).take(i as int).push(p@));
        i += 1;
    }
    assert(chunk_packets_spec(file_hash@, data@).take(n as int) =~= chunk_packets_spec(
        file_hash@,
        data@,
    ));
    r
}

/// The transfer id of `data` (`format!("{:x}", md5::compute(data))`).
pub fn transfer_hash(data: &[u8]) -> (r: String)
    ensures
        r@ == transfer_id(data@),
{
    let d = md5_digest(data);
    hex_encode(&d)
}

/// The packets that send `data`: its chunks, under its transfer id.
pub fn transfer_packets(data: &[u8]) -> (r: Vec<Packet>)
    ensures
        packets_view(r@) == chunk_packets_spec(transfer_id(data@), data@),
{
    let hash = transfer_hash(data);
    chunk_packets(&hash, data)
}

/// The slots of a transfer being put together: received chunks and gaps.
pub open spec fn slots_view(s: Seq<Option<Vec<u8>>>) -> Seq<Option<Seq<u8>>> {
    s.map_values(
        |o: Option<Vec<u8>>|
            match o {
                Some(v) => Some(v@),
                None => None,
            },
    )
}

/// Keyed entries read as a map: an entry with the key gives its value
/// (keys are kept distinct, so there is one).
pub open spec fn pairs_map<V>(p: Seq<(Seq<char>, V)>) -> Map<Seq<char>, V> {
    Map::new(
        |h: Seq<char>| exists|k: int| 0 <= k < p.len() && (#[trigger] p[k]).0 == h,
        |h: Seq<char>| p[choose|k: int| 0 <= k < p.len() && (#[trigger] p[k]).0 == h].1,
    )
}

pub open spec fn keys_distinct<V>(p: Seq<(Seq<char>, V)>) -> bool {
    forall|j: int, k: int|
        0 <= j < p.len() && 0 <= k < p.len() && j != k ==> (#[trigger] p[j]).0 != (#[trigger] p[k]).0
}

proof fn lemma_pairs_update<V>(p: Seq<(Seq<char>, V)>, k: int, v: V)
    requires
        keys_distinct(p),
        0 <= k < p.len(),
    ensures
        keys_distinct(p.update(k, (p[k].0, v))),
        pairs_map(p.update(k, (p[k].0, v))) == pairs_map(p).insert(p[k].0, v),
{
    let q = p.update(k, (p[k].0, v));
    assert(q[k].0 == p[k].0);
    assert forall|h: Seq<char>| #[trigger] pairs_map(q).contains_key(h) == pairs_map(p).insert(p[k].0, v).contains_key(h) by {
        if pairs_map(p).contains_key(h) {
            let j = choose|j: int| 0 <= j < p.len() && (#[trigger] p[j]).0 == h;
            assert(q[j].0 == h);
        }
        if pairs_map(q).contains_key(h) {
            let j = choose|j: int| 0 <= j < q.len() && (#[trigger] q[j]).0 == h;
            assert(p[j].0 == h);
        }
    }
    assert forall|h: Seq<char>| pairs_map(q).contains_key(h) implies #[trigger] pairs_map(q)[h] == pairs_map(p).insert(p[k].0, v)[h] by {
        let j = choose|j: int| 0 <= j < q.len() && (#[trigger] q[j]).0 == h;
        if h != p[k].0 {
            let i = choose|i: int| 0 <= i < p.len() && (#[trigger] p[i]).0 == h;
            assert(i == j);
        }
    }
    assert(pairs_map(q) =~= pairs_map(p).insert(p[k].0, v));
}

proof fn lemma_pairs_push<V>(p: Seq<(Seq<char>, V)>, h0: Seq<char>, v: V)
    requires
        keys_distinct(p),
        !pairs_map(p).contains_key(h0),
    ensures
        keys_distinct(p.push((h0, v))),
        pairs_map(p.push((h0, v))) == pairs_map(p).insert(h0, v),
{
    let q = p.push((h0, v));
    assert forall|j: int| 0 <= j < p.len() implies (#[trigger] p[j]).0 != h0 by {
        if p[j].0 == h0 {
            assert(pairs_map(p).contains_key(h0));
        }
    }
    assert(q[p.len() as int].0 == h0);
    assert forall|h: Seq<char>| #[trigger] pairs_map(q).contains_key(h) == pairs_map(p).insert(h0, v).contains_key(h) by {
        if pairs_map(p).contains_key(h) {
            let j = choose|j: int| 0 <= j < p.len() && (#[trigger] p[j]).0 == h;
            assert(q[j].0 == h);
        }
        if pairs_map(q).contains_key(h) && h != h0 {
            let j = choose|j: int| 0 <= j < q.len() && (#[trigger] q[j]).0 == h;
            assert(p[j].0 == h);
        }
    }
    assert forall|h: Seq<char>| pairs_map(q).contains_key(h) implies #[trigger] pairs_map(q)[h] == pairs_map(p).insert(h0, v)[h] by {
        let j = choose|j: int| 0 <= j < q.len() && (#[trigger] q[j]).0 == h;
        if h != h0 {
            let i = choose|i: int| 0 <= i < p.len() && (#[trigger] p[i]).0 == h;
            assert(i == j);
        } else {
            assert(j == p.len());
        }
    }
    assert(pairs_map(q) =~= pairs_map(p).insert(h0, v));
}

proof fn lemma_pairs_remove<V>(p: Seq<(Seq<char>, V)>, k: int)
    requires
        keys_distinct(p),
        0 <= k < p.len(),
    ensures
        keys_distinct(p.remove(k)),
        pairs_map(p.remove(k)) == pairs_map(p).remove(p[k].0),
{
    let q = p.remove(k);
    assert forall|a: int, b: int| 0 <= a < q.len() && 0 <= b < q.len() && a != b implies (#[trigger] q[a]).0 != (#[trigger] q[b]).0 by {
        let a2 = if a < k { a } else { a + 1 };
        let b2 = if b < k { b } else { b + 1 };
        assert(q[a] == p[a2]);
        assert(q[b] == p[b2]);
    }
    assert forall|h: Seq<char>| #[trigger] pairs_map(q).contains_key(h) == pairs_map(p).remove(p[k].0).contains_key(h) by {
        if pairs_map(p).contains_key(h) && h != p[k].0 {
            let j = choose|j: int| 0 <= j < p.len() && (#[trigger] p[j]).0 == h;
            if j < k {
                assert(q[j].0 == h);
            } else {
                assert(q[j - 1].0 == h);
            }
        }
        if pairs_map(q).contains_key(h) {
            let j = choose|j: int| 0 <= j < q.len() && (#[trigger] q[j]).0 == h;
            let j2 = if j < k { j } else { j + 1 };
            assert(p[j2].0 == h);
        }
    }
    assert forall|h: Seq<char>| pairs_map(q).contains_key(h) implies #[trigger] pairs_map(q)[h] == pairs_map(p).remove(p[k].0)[h] by {
        let j = choose|j: int| 0 <= j < q.len() && (#[trigger] q[j]).0 == h;
        let j2 = if j < k { j } else { j + 1 };
        assert(p[j2].0 == h);
        let i = choose|i: int| 0 <= i < p.len() && (#[trigger] p[i]).0 == h;
        assert(i == j2);
    }
    assert(pairs_map(q) =~= pairs_map(p).remove(p[k].0));
}

/// Slots with nothing received yet.
pub open spec fn empty_slots(total: nat) -> Seq<Option<Seq<u8>>> {
    Seq::new(total, |i: int| None)
}

/// Every slot holds a chunk.
pub open spec fn all_filled(s: Seq<Option<Seq<u8>>>) -> bool {
    forall|i: int| 0 <= i < s.len() ==> (#[trigger] s[i]) is Some
}

/// The chunks of the slots, joined in slot order.
pub open spec fn joined(s: Seq<Option<Seq<u8>>>) -> Seq<u8> {
    s.map_values(|o: Option<Seq<u8>>| o.unwrap()).flatten()
}

/// Receiving chunk `index` of `total` of transfer `h`: the transfer is
/// opened with `total` empty slots if it is new; a chunk for an empty slot in
/// range fills it; when every slot is filled the transfer is closed and its
/// chunks come out joined. Anything else changes no slot.
pub open spec fn accept_outcome(
    m: Map<Seq<char>, Seq<Option<Seq<u8>>>>,
    h: Seq<char>,
    index: u32,
    total: u32,
    data: Seq<u8>,
) -> (Map<Seq<char>, Seq<Option<Seq<u8>>>>, Option<Seq<u8>>) {
    let slots = if m.contains_key(h) {
        m[h]
    } else {
        empty_slots(total as nat)
    };
    if (index as int) < slots.len() && slots[index as int] is None {
        let filled = slots.update(index as int, Some(data));
        if all_filled(filled) {
            (m.remove(h), Some(joined(filled)))
        } else {
            (m.insert(h, filled), None)
        }
    } else {
        (m.insert(h, slots), None)
    }
}

/// Feeding packets one after another to a receiver whose transfers are
/// `m`: the transfers afterwards, and what each chunk gave back.
pub open spec fn deliver(m: Map<Seq<char>, Seq<Option<Seq<u8>>>>, pkts: Seq<PacketModel>) -> (
    Map<Seq<char>, Seq<Option<Seq<u8>>>>,
    Seq<Option<Seq<u8>>>,
)
    decreases pkts.len(),
{
    if pkts.len() == 0 {
        (m, Seq::empty())
    } else {
        let (m1, rs) = deliver(m, pkts.drop_last());
        match pkts.last() {
            PacketModel::Chunk { file_hash, index, total, data } => {
                let (m2, r) = accept_outcome(m1, file_hash, index, total, data);
                (m2, rs.push(r))
            },
            _ => (m1, rs.push(None)),
        }
    }
}

/// Slots where the chunks numbered in `got` have arrived.
pub open spec fn slots_with(c: Seq<Seq<u8>>, got: Set<int>) -> Seq<Option<Seq<u8>>> {
    Seq::new(c.len(), |i: int| if got.contains(i) { Some(c[i]) } else { None })
}

/// `order` lists each of `0 .. n` exactly once.
pub open spec fn is_permutation(order: Seq<int>, n: nat) -> bool {
    &&& order.len() == n
    &&& forall|t: int| 0 <= t < order.len() ==> 0 <= #[trigger] order[t] < n
    &&& order.no_duplicates()
}

/// Packets `pkts` in the order `order` gives.
pub open spec fn reorder(pkts: Seq<PacketModel>, order: Seq<int>) -> Seq<PacketModel> {
    order.map_values(|i: int| pkts[i])
}

proof fn lemma_take_to_set_push(order: Seq<int>, t: int)
    requires
        0 <= t < order.len(),
    ensures
        order.take(t + 1).to_set() == order.take(t).to_set().insert(order[t]),
{
    let a = order.take(t + 1).to_set();
    let b = order.take(t).to_set().insert(order[t]);
    assert forall|x: int| #[trigger] a.contains(x) == b.contains(x) by {
        if a.contains(x) {
            let k = choose|k: int| 0 <= k < t + 1 && #[trigger] order.take(t + 1)[k] == x;
            if k < t {
                assert(order.take(t)[k] == x);
            }
        }
        if order.take(t).to_set().contains(x) {
            let k = choose|k: int| 0 <= k < t && #[trigger] order.take(t)[k] == x;
            assert(order.take(t + 1)[k] == x);
        }
        if x == order[t] {
            assert(order.take(t + 1)[t] == x);
        }
    }
    assert(a =~= b);
}

proof fn lemma_received_bounds(order: Seq<int>, n: nat, t: int)
    requires
        is_permutation(order, n),
        0 <= t <= n,
    ensures
        order.take(t).to_set().finite(),
        order.take(t).to_set().subset_of(vstd::set_lib::set_int_range(0, n as int)),
        order.take(t).to_set().len() == t,
        t < n ==> exists|j: int| 0 <= j < n && !order.take(t).to_set().contains(j),
        t == n ==> order.take(t).to_set() == vstd::set_lib::set_int_range(0, n as int),
{
    let got = order.take(t).to_set();
    let range = vstd::set_lib::set_int_range(0, n as int);
    vstd::seq_lib::seq_to_set_is_finite(order.take(t));
    assert(order.take(t).no_duplicates()) by {
        assert forall|a: int, b: int| 0 <= a < t && 0 <= b < t && a != b implies order.take(t)[a] != order.take(t)[b] by {
            assert(order.take(t)[a] == order[a]);
            assert(order.take(t)[b] == order[b]);
        }
    }
    order.take(t).unique_seq_to_set();
    vstd::set_lib::lemma_int_range(0, n as int);
    assert forall|x: int| got.contains(x) implies range.contains(x) by {
        let k = choose|k: int| 0 <= k < t && #[trigger] order.take(t)[k] == x;
        assert(order[k] == x);
    }
    if t < n {
        if forall|j: int| 0 <= j < n ==> got.contains(j) {
            assert(range.subset_of(got));
            vstd::set_lib::lemma_len_subset(range, got);
        }
    } else {
        vstd::set_lib::lemma_subset_equality(got, range);
    }
}

proof fn lemma_deliver_any_prefix(
    m: Map<Seq<char>, Seq<Option<Seq<u8>>>>,
    h: Seq<char>,
    data: Seq<u8>,
    order: Seq<int>,
    t: int,
)
    requires
        !m.contains_key(h),
        chunks_of(data, CHUNK_SIZE as nat).len() <= u32::MAX,
        is_permutation(order, chunks_of(data, CHUNK_SIZE as nat).len()),
        0 <= t < chunks_of(data, CHUNK_SIZE as nat).len(),
    ensures
        ({
            let c = chunks_of(data, CHUNK_SIZE as nat);
            let pkts = reorder(chunk_packets_spec(h, data), order);
            deliver(m, pkts.take(t)) == (
                if t == 0 { m } else { m.insert(h, slots_with(c, order.take(t).to_set())) },
                Seq::<Option<Seq<u8>>>::new(t as nat, |i: int| None),
            )
        }),
    decreases t,
{
    let c = chunks_of(data, CHUNK_SIZE as nat);
    let n = c.len();
    let pkts = reorder(chunk_packets_spec(h, data), order);
    if t == 0 {
        assert(pkts.take(0) =~= Seq::<PacketModel>::empty());
        assert(Seq::<Option<Seq<u8>>>::new(0, |i: int| None) =~= Seq::<Option<Seq<u8>>>::empty());
    } else {
        lemma_deliver_any_prefix(m, h, data, order, t - 1);
        assert(pkts.take(t).drop_last() =~= pkts.take(t - 1));
        let idx = order[t - 1];
        let before = order.take(t - 1).to_set();
        lemma_received_bounds(order, n, t - 1);
        lemma_received_bounds(order, n, t);
        lemma_take_to_set_push(order, t - 1);
        assert(!before.contains(idx)) by {
            if before.contains(idx) {
                let k = choose|k: int| 0 <= k < t - 1 && #[trigger] order.take(t - 1)[k] == idx;
                assert(order[k] == order[t - 1]);
            }
        }
        let prev = if t - 1 == 0 { m } else { m.insert(h, slots_with(c, before)) };
        let slots = if prev.contains_key(h) { prev[h] } else { empty_slots(n as u32 as nat) };
        assert(slots =~= slots_with(c, before));
        let filled = slots.update(idx, Some(c[idx]));
        assert(filled =~= slots_with(c, order.take(t).to_set()));
        assert(!all_filled(filled)) by {
            let j = choose|j: int| 0 <= j < n && !order.take(t).to_set().contains(j);
            assert(filled[j] is None);
        }
        assert(Seq::<Option<Seq<u8>>>::new((t - 1) as nat, |i: int| None).push(None) =~= Seq::<
            Option<Seq<u8>>,
        >::new(t as nat, |i: int| None));
        if t - 1 > 0 {
            assert(m.insert(h, slots_with(c, before)).insert(h, slots_with(c, order.take(t).to_set()))
                =~= m.insert(h, slots_with(c, order.take(t).to_set())));
        }
    }
}

/// Reassembly gives back what was sent, whatever order the chunks come in:
/// feeding a receiver that has no transfer under `h` every chunk packet of
/// `data` once, in any order, yields nothing until the last one arrives,
/// which yields `data`, and leaves no transfer behind.
pub proof fn law_reassembly_any_order(
    m: Map<Seq<char>, Seq<Option<Seq<u8>>>>,
    h: Seq<char>,
    data: Seq<u8>,
    order: Seq<int>,
)
    requires
        !m.contains_key(h),
        data.len() > 0,
        chunks_of(data, CHUNK_SIZE as nat).len() <= u32::MAX,
        is_permutation(order, chunks_of(data, CHUNK_SIZE as nat).len()),
    ensures
        ({
            let n = chunks_of(data, CHUNK_SIZE as nat).len();
            let (m2, rs) = deliver(m, reorder(chunk_packets_spec(h, data), order));
            &&& m2 == m
            &&& rs.len() == n
            &&& forall|i: int| 0 <= i < n - 1 ==> #[trigger] rs[i] is None
            &&& rs[n - 1] == Some(data)
        }),
{
    let c = chunks_of(data, CHUNK_SIZE as nat);
    let n = c.len() as int;
    let pkts = reorder(chunk_packets_spec(h, data), order);
    law_chunks_rejoin(data, CHUNK_SIZE as nat);
    assert(n > 0) by {
        assert((data.len() + CHUNK_SIZE - 1) / (CHUNK_SIZE as int) >= 1) by (nonlinear_arith)
            requires data.len() > 0;
    }
    lemma_deliver_any_prefix(m, h, data, order, n - 1);
    lemma_received_bounds(order, n as nat, n - 1);
    lemma_received_bounds(order, n as nat, n);
    lemma_take_to_set_push(order, n - 1);
    assert(order.take(n) =~= order);
    assert(pkts.take(n) =~= pkts);
    assert(pkts.take(n).drop_last() =~= pkts.take(n - 1));
    let idx = order[n - 1];
    let before = order.take(n - 1).to_set();
    assert(!before.contains(idx)) by {
        if before.contains(idx) {
            let k = choose|k: int| 0 <= k < n - 1 && #[trigger] order.take(n - 1)[k] == idx;
            assert(order[k] == order[n - 1]);
        }
    }
    let prev = if n - 1 == 0 { m } else { m.insert(h, slots_with(c, before)) };
    let slots = if prev.contains_key(h) { prev[h] } else { empty_slots(n as u32 as nat) };
    assert(slots =~= slots_with(c, before));
    let filled = slots.update(idx, Some(c[idx]));
    assert(filled =~= slots_with(c, order.take(n).to_set()));
    assert(all_filled(filled));
    assert(filled.map_values(|o: Option<Seq<u8>>| o.unwrap()) =~= c);
    assert(prev.remove(h) =~= m);
}

/// A chunk for a slot that is already filled, or for an index beyond the
/// transfer's slots, changes nothing and yields nothing: repeats keep the
/// first data received.
pub proof fn law_chunk_ignored(
    m: Map<Seq<char>, Seq<Option<Seq<u8>>>>,
    h: Seq<char>,
    index: u32,
    total: u32,
    data: Seq<u8>,
)
    requires
        m.contains_key(h),
        (index as int) >= m[h].len() || m[h][index as int] is Some,
    ensures
        accept_outcome(m, h, index, total, data) == (m, Option::<Seq<u8>>::None),
{
    assert(m.insert(h, m[h]) =~= m);
}

/// Once a transfer is open, the total it was opened with stays: the total
/// carried by later chunks plays no part.
pub proof fn law_later_total_ignored(
    m: Map<Seq<char>, Seq<Option<Seq<u8>>>>,
    h: Seq<char>,
    index: u32,
    t1: u32,
    t2: u32,
    data: Seq<u8>,
)
    requires
        m.contains_key(h),
    ensures
        accept_outcome(m, h, index, t1, data) == accept_outcome(m, h, index, t2, data),
{
}

/// A chunk that is taken in is remembered: handing the same chunk over
/// again right after yields nothing and changes nothing, unless the first
/// one completed the transfer.
pub proof fn law_repeated_chunk_ignored(
    m: Map<Seq<char>, Seq<Option<Seq<u8>>>>,
    h: Seq<char>,
    index: u32,
    total: u32,
    data: Seq<u8>,
    total2: u32,
    data2: Seq<u8>,
)
    ensures
        ({
            let (m1, r) = accept_outcome(m, h, index, total, data);
            r is None ==> accept_outcome(m1, h, index, total2, data2) == (m1, Option::<Seq<u8>>::None)
        }),
{
    let (m1, r) = accept_outcome(m, h, index, total, data);
    if r is None {
        assert(m1.contains_key(h));
        law_chunk_ignored(m1, h, index, total2, data2);
    }
}

/// Transfers are independent: a chunk of one transfer leaves every other
/// transfer as it was.
pub proof fn law_transfers_independent(
    m: Map<Seq<char>, Seq<Option<Seq<u8>>>>,
    h: Seq<char>,
    index: u32,
    total: u32,
    data: Seq<u8>,
    other: Seq<char>,
)
    requires
        other != h,
    ensures
        accept_outcome(m, h, index, total, data).0.contains_key(other) == m.contains_key(other),
        m.contains_key(other) ==> accept_outcome(m, h, index, total, data).0[other] == m[other],
{
}

/// Completion closes the transfer: its data comes out once, joined from the
/// first chunk received for each slot, and the next chunk for the same id
/// opens a fresh transfer with that chunk's total.
pub proof fn law_completion_restarts(
    m: Map<Seq<char>, Seq<Option<Seq<u8>>>>,
    h: Seq<char>,
    index: u32,
    total: u32,
    data: Seq<u8>,
    index2: u32,
    total2: u32,
    data2: Seq<u8>,
)
    ensures
        ({
            let (m1, r) = accept_outcome(m, h, index, total, data);
            let slots = if m.contains_key(h) { m[h] } else { empty_slots(total as nat) };
            r is Some ==> {
                &&& !m1.contains_key(h)
                &&& slots[index as int] is None
                &&& r == Some(joined(slots.update(index as int, Some(data))))
                &&& accept_outcome(m1, h, index2, total2, data2) == accept_outcome(
                    m.remove(h),
                    h,
                    index2,
                    total2,
                    data2,
                )
            }
        }),
{
}

/// `order` names only chunks `0 .. n`, names every one of them, and its
/// last entry is the first to complete the set; entries may repeat.
pub open spec fn completes_last(order: Seq<int>, n: nat) -> bool {
    &&& order.len() > 0
    &&& forall|t: int| 0 <= t < order.len() ==> 0 <= #[trigger] order[t] < n
    &&& forall|j: int| 0 <= j < n ==> order.contains(j)
    &&& exists|j: int| 0 <= j < n && !order.drop_last().contains(j)
}

proof fn lemma_deliver_with_repeats(
    m: Map<Seq<char>, Seq<Option<Seq<u8>>>>,
    h: Seq<char>,
    data: Seq<u8>,
    order: Seq<int>,
    t: int,
)
    requires
        !m.contains_key(h),
        chunks_of(data, CHUNK_SIZE as nat).len() <= u32::MAX,
        completes_last(order, chunks_of(data, CHUNK_SIZE as nat).len()),
        0 <= t < order.len(),
    ensures
        ({
            let c = chunks_of(data, CHUNK_SIZE as nat);
            let pkts = reorder(chunk_packets_spec(h, data), order);
            deliver(m, pkts.take(t)) == (
                if t == 0 { m } else { m.insert(h, slots_with(c, order.take(t).to_set())) },
                Seq::<Option<Seq<u8>>>::new(t as nat, |i: int| None),
            )
        }),
    decreases t,
{
    let c = chunks_of(data, CHUNK_SIZE as nat);
    let n = c.len();
    let pkts = reorder(chunk_packets_spec(h, data), order);
    if t == 0 {
        assert(pkts.take(0) =~= Seq::<PacketModel>::empty());
        assert(Seq::<Option<Seq<u8>>>::new(0, |i: int| None) =~= Seq::<Option<Seq<u8>>>::empty());
    } else {
        lemma_deliver_with_repeats(m, h, data, order, t - 1);
        assert(pkts.take(t).drop_last() =~= pkts.take(t - 1));
        let idx = order[t - 1];
        let before = order.take(t - 1).to_set();
        let after = order.take(t).to_set();
        lemma_take_to_set_push(order, t - 1);
        let prev = if t - 1 == 0 { m } else { m.insert(h, slots_with(c, before)) };
        if t - 1 == 0 {
            assert(before =~= Set::<int>::empty()) by {
                assert(order.take(0) =~= Seq::<int>::empty());
            }
        }
        let slots = if prev.contains_key(h) { prev[h] } else { empty_slots(n as u32 as nat) };
        assert(slots =~= slots_with(c, before));
        let missing = choose|j: int| 0 <= j < n && !order.drop_last().contains(j);
        assert(!after.contains(missing)) by {
            if after.contains(missing) {
                let k = choose|k: int| 0 <= k < t && #[trigger] order.take(t)[k] == missing;
                assert(order.drop_last()[k] == missing);
            }
        }
        assert(Seq::<Option<Seq<u8>>>::new((t - 1) as nat, |i: int| None).push(None) =~= Seq::<
            Option<Seq<u8>>,
        >::new(t as nat, |i: int| None));
        if before.contains(idx) {
            assert(after =~= before);
            assert(slots[idx] is Some);
            assert(prev.insert(h, slots) =~= m.insert(h, slots_with(c, after)));
        } else {
            let filled = slots.update(idx, Some(c[idx]));
            assert(filled =~= slots_with(c, after));
            assert(filled[missing] is None);
            assert(prev.insert(h, filled) =~= m.insert(h, slots_with(c, after)));
        }
    }
}

/// Reassembly with repeats: chunk packets of `data` may arrive in any order
/// and any of them more than once; until the last missing chunk arrives
/// nothing comes out (repeats keep the data first received), and that
/// chunk yields `data` and closes the transfer.
pub proof fn law_reassembly_with_repeats(
    m: Map<Seq<char>, Seq<Option<Seq<u8>>>>,
    h: Seq<char>,
    data: Seq<u8>,
    order: Seq<int>,
)
    requires
        !m.contains_key(h),
        chunks_of(data, CHUNK_SIZE as nat).len() <= u32::MAX,
        completes_last(order, chunks_of(data, CHUNK_SIZE as nat).len()),
    ensures
        ({
            let (m2, rs) = deliver(m, reorder(chunk_packets_spec(h, data), order));
            &&& m2 == m
            &&& rs.len() == order.len()
            &&& forall|i: int| 0 <= i < order.len() - 1 ==> #[trigger] rs[i] is None
            &&& rs[order.len() - 1] == Some(data)
        }),
{
    let c = chunks_of(data, CHUNK_SIZE as nat);
    let n = c.len();
    let len = order.len() as int;
    let pkts = reorder(chunk_packets_spec(h, data), order);
    law_chunks_rejoin(data, CHUNK_SIZE as nat);
    lemma_deliver_with_repeats(m, h, data, order, len - 1);
    lemma_take_to_set_push(order, len - 1);
    assert(order.take(len) =~= order);
    assert(pkts.take(len) =~= pkts);
    assert(pkts.take(len).drop_last() =~= pkts.take(len - 1));
    let idx = order[len - 1];
    let before = order.take(len - 1).to_set();
    let missing = choose|j: int| 0 <= j < n && !order.drop_last().contains(j);
    assert(idx == missing) by {
        assert(order.contains(missing));
        let k = choose|k: int| 0 <= k < order.len() && order[k] == missing;
        if k < len - 1 {
            assert(order.drop_last()[k] == missing);
        }
    }
    assert(!before.contains(idx)) by {
        if before.contains(idx) {
            let k = choose|k: int| 0 <= k < len - 1 && #[trigger] order.take(len - 1)[k] == idx;
            assert(order.drop_last()[k] == idx);
        }
    }
    if len - 1 == 0 {
        assert(before =~= Set::<int>::empty()) by {
            assert(order.take(0) =~= Seq::<int>::empty());
        }
    }
    let prev = if len - 1 == 0 { m } else { m.insert(h, slots_with(c, before)) };
    let slots = if prev.contains_key(h) { prev[h] } else { empty_slots(n as u32 as nat) };
    assert(slots =~= slots_with(c, before));
    let filled = slots.update(idx, Some(c[idx]));
    assert(filled =~= slots_with(c, order.take(len).to_set()));
    assert forall|j: int| 0 <= j < n implies order.take(len).to_set().contains(j) by {
        assert(order.contains(j));
        let k = choose|k: int| 0 <= k < order.len() && order[k] == j;
        assert(order.take(len)[k] == j);
    }
    assert(all_filled(filled));
    assert(filled.map_values(|o: Option<Seq<u8>>| o.unwrap()) =~= c);
    assert(prev.remove(h) =~= m);
    assert(Seq::<Option<Seq<u8>>>::new((len - 1) as nat, |i: int| None).push(Some(data))[len - 1] == Some(data));
}

/// The data of the first chunk numbered `i` among `chunks` (each an index,
/// a total and the chunk's data), if any.
pub open spec fn first_chunk(chunks: Seq<(u32, u32, Seq<u8>)>, i: int) -> Option<Seq<u8>>
    decreases chunks.len(),
{
    if chunks.len() == 0 {
        None
    } else {
        match first_chunk(chunks.drop_last(), i) {
            Some(d) => Some(d),
            None => if chunks.last().0 as int == i {
                Some(chunks.last().2)
            } else {
                None
            },
        }
    }
}

/// Accepting `chunks` of transfer `h` one after another, starting from the
/// transfers `m`: the transfers afterwards, and what each chunk gave back.
pub open spec fn accept_all(
    m: Map<Seq<char>, Seq<Option<Seq<u8>>>>,
    h: Seq<char>,
    chunks: Seq<(u32, u32, Seq<u8>)>,
) -> (Map<Seq<char>, Seq<Option<Seq<u8>>>>, Seq<Option<Seq<u8>>>)
    decreases chunks.len(),
{
    if chunks.len() == 0 {
        (m, Seq::empty())
    } else {
        let (m1, rs) = accept_all(m, h, chunks.drop_last());
        let (index, total, data) = chunks.last();
        let (m2, r) = accept_outcome(m1, h, index, total, data);
        (m2, rs.push(r))
    }
}

/// For each slot below `total`, the first chunk received for it, joined in
/// slot order.
pub open spec fn first_chunks_joined(chunks: Seq<(u32, u32, Seq<u8>)>, total: nat) -> Seq<u8> {
    Seq::new(total, |i: int| first_chunk(chunks, i).unwrap()).flatten()
}

proof fn lemma_first_chunk_prefix(chunks: Seq<(u32, u32, Seq<u8>)>, k: int, i: int)
    requires
        0 <= k <= chunks.len(),
        first_chunk(chunks.take(k), i) is Some,
    ensures
        first_chunk(chunks, i) == first_chunk(chunks.take(k), i),
    decreases chunks.len() - k,
{
    if k < chunks.len() {
        assert(chunks.take(k + 1).drop_last() =~= chunks.take(k));
        lemma_first_chunk_prefix(chunks, k + 1, i);
    } else {
        assert(chunks.take(k) =~= chunks);
    }
}

proof fn lemma_accept_all_prefix(
    m: Map<Seq<char>, Seq<Option<Seq<u8>>>>,
    h: Seq<char>,
    chunks: Seq<(u32, u32, Seq<u8>)>,
    missing: int,
    t: int,
)
    requires
        !m.contains_key(h),
        chunks.len() > 0,
        0 <= missing < chunks[0].1,
        first_chunk(chunks.drop_last(), missing) is None,
        1 <= t < chunks.len(),
    ensures
        ({
            let total = chunks[0].1 as nat;
            accept_all(m, h, chunks.take(t)) == (
                m.insert(h, Seq::new(total, |i: int| first_chunk(chunks.take(t), i))),
                Seq::<Option<Seq<u8>>>::new(t as nat, |i: int| None),
            )
        }),
    decreases t,
{
    let total = chunks[0].1 as nat;
    let p = chunks.take(t);
    let prev = chunks.take(t - 1);
    assert(p.drop_last() =~= prev);
    let (index, tot, data) = chunks[t - 1];
    assert(p.last() == chunks[t - 1]);
    let target = Seq::new(total, |i: int| first_chunk(p, i));
    if first_chunk(p, missing) is Some {
        assert(chunks.drop_last().take(t) =~= p);
        lemma_first_chunk_prefix(chunks.drop_last(), t, missing);
    }
    assert(first_chunk(p, missing) is None);
    let slots = if t == 1 {
        empty_slots(tot as nat)
    } else {
        lemma_accept_all_prefix(m, h, chunks, missing, t - 1);
        Seq::new(total, |i: int| first_chunk(prev, i))
    };
    if t == 1 {
        assert(prev =~= Seq::<(u32, u32, Seq<u8>)>::empty());
        assert(chunks[0] == chunks[t - 1]);
    }
    assert(accept_all(m, h, prev).0 == if t == 1 { m } else { m.insert(h, slots) });
    assert(Seq::<Option<Seq<u8>>>::new((t - 1) as nat, |i: int| None).push(None) =~= Seq::<
        Option<Seq<u8>>,
    >::new(t as nat, |i: int| None));
    if (index as int) < slots.len() && slots[index as int] is None {
        let filled = slots.update(index as int, Some(data));
        assert(filled =~= target);
        assert(filled[missing] is None);
        assert(!all_filled(filled));
        assert(m.insert(h, slots).insert(h, filled) =~= m.insert(h, target));
    } else {
        assert(slots =~= target);
        assert(m.insert(h, slots).insert(h, slots) =~= m.insert(h, target));
    }
}

/// Reassembly from the chunks alone, whatever they hold: chunks of one
/// transfer arrive, numbered and with the total of the first one taken as
/// the number of slots; repeats, out-of-range chunks and later totals play
/// no part. Nothing comes out until every slot below the total has a chunk;
/// the chunk that fills the last one yields the first chunk received for
/// each slot, joined in slot order, and closes the transfer.
pub proof fn law_reassembly_of_any_chunks(
    m: Map<Seq<char>, Seq<Option<Seq<u8>>>>,
    h: Seq<char>,
    chunks: Seq<(u32, u32, Seq<u8>)>,
)
    requires
        !m.contains_key(h),
        chunks.len() > 0,
        forall|i: int| 0 <= i < chunks[0].1 ==> #[trigger] first_chunk(chunks, i) is Some,
        exists|i: int| 0 <= i < chunks[0].1 && #[trigger] first_chunk(chunks.drop_last(), i) is None,
    ensures
        ({
            let (m2, rs) = accept_all(m, h, chunks);
            &&& m2 == m
            &&& rs.len() == chunks.len()
            &&& forall|k: int| 0 <= k < chunks.len() - 1 ==> #[trigger] rs[k] is None
            &&& rs[chunks.len() - 1] == Some(first_chunks_joined(chunks, chunks[0].1 as nat))
        }),
{
    let n = chunks.len() as int;
    let total = chunks[0].1 as nat;
    let missing = choose|i: int| 0 <= i < chunks[0].1 && #[trigger] first_chunk(chunks.drop_last(), i) is None;
    let prev = chunks.drop_last();
    let (index, tot, data) = chunks[n - 1];
    assert(chunks.last() == chunks[n - 1]);
    assert(first_chunk(chunks, missing) is Some);
    assert(index as int == missing);
    let slots = if n == 1 {
        empty_slots(tot as nat)
    } else {
        lemma_accept_all_prefix(m, h, chunks, missing, n - 1);
        assert(chunks.take(n - 1) =~= prev);
        Seq::new(total, |i: int| first_chunk(prev, i))
    };
    if n == 1 {
        assert(prev =~= Seq::<(u32, u32, Seq<u8>)>::empty());
        assert(chunks[n - 1] == chunks[0]);
    }
    assert(accept_all(m, h, prev).0 == if n == 1 { m } else { m.insert(h, slots) });
    assert(slots[missing] is None);
    let filled = slots.update(missing, Some(data));
    let target = Seq::new(total, |i: int| first_chunk(chunks, i));
    assert forall|i: int| 0 <= i < total implies filled[i] == target[i] by {
        assert(first_chunk(chunks, i) == match first_chunk(prev, i) {
            Some(d) => Some(d),
            None => if chunks.last().0 as int == i { Some(chunks.last().2) } else { None },
        });
        if n == 1 {
            assert(first_chunk(prev, i) is None);
        }
    }
    assert(filled =~= target);
    assert(all_filled(filled));
    assert(filled.map_values(|o: Option<Seq<u8>>| o.unwrap()) =~= Seq::new(
        total,
        |i: int| first_chunk(chunks, i).unwrap(),
    ));
    assert(m.insert(h, slots).remove(h) =~= m);
    assert(m.remove(h) =~= m);
    assert(Seq::<Option<Seq<u8>>>::new((n - 1) as nat, |i: int| None).push(Some(first_chunks_joined(chunks, total)))[n - 1]
        == Some(first_chunks_joined(chunks, total)));
}

struct Assembly {
    file_hash: String,
    slots: Vec<Option<Vec<u8>>>,
}

/// Transfers being put back together, by transfer id.
pub struct Assembler {
    pending: Vec<Assembly>,
}

spec fn assembly_pairs(s: Seq<Assembly>) -> Seq<(Seq<char>, Seq<Option<Seq<u8>>>)> {
    s.map_values(|a: Assembly| (a.file_hash@, slots_view(a.slots@)))
}

impl View for Assembler {
    type V = Map<Seq<char>, Seq<Option<Seq<u8>>>>;

    closed spec fn view(&self) -> Map<Seq<char>, Seq<Option<Seq<u8>>>> {
        pairs_map(assembly_pairs(self.pending@))
    }
}

/// The contents of an optional buffer.
pub open spec fn opt_bytes(o: Option<Vec<u8>>) -> Option<Seq<u8>> {
    match o {
        Some(v) => Some(v@),
        None => None,
    }
}

/// Position of transfer `h` among `pending`, or their number if it is new.
fn find_transfer(pending: &Vec<Assembly>, h: &String) -> (k: usize)
    ensures
        k <= pending@.len(),
        k < pending@.len() ==> assembly_pairs(pending@)[k as int].0 == h@,
        k == pending@.len() ==> forall|j: int|
            0 <= j < pending@.len() ==> (#[trigger] assembly_pairs(pending@)[j]).0 != h@,
{
    let ghost p = assembly_pairs(pending@);
    let mut k: usize = 0;
    while k < pending.len()
        invariant
            p == assembly_pairs(pending@),
            k <= pending@.len(),
            forall|j: int| 0 <= j < k ==> (#[trigger] p[j]).0 != h@,
        decreases pending@.len() - k,
    {
        assert(p[k as int].0 == pending@[k as int].file_hash@);
        if pending[k].file_hash == *h {
            return k;
        }
        k += 1;
    }
    k
}

impl Assembler {
    /// Each transfer is listed once.
    #[verifier::type_invariant]
    spec fn wf(&self) -> bool {
        keys_distinct(assembly_pairs(self.pending@))
    }

    /// No transfer in progress.
    pub fn new() -> (a: Self)
        ensures
            a@ == Map::<Seq<char>, Seq<Option<Seq<u8>>>>::empty(),
    {
        let a = Assembler { pending: Vec::new() };
        assert(a@ =~= Map::<Seq<char>, Seq<Option<Seq<u8>>>>::empty());
        a
    }

    /// Takes chunk `index` of `total` of transfer `file_hash`; returns the
    /// whole file once its last missing chunk arrives.
    pub fn accept(&mut self, file_hash: String, index: u32, total: u32, data: Vec<u8>) -> (r: Option<
        Vec<u8>,
    >)
        ensures
            final(self)@ == accept_outcome(old(self)@, file_hash@, index, total, data@).0,
            opt_bytes(r) == accept_outcome(old(self)@, file_hash@, index, total, data@).1,
    {
        proof {
            use_type_invariant(&*self);
        }
        let mut pending: Vec<Assembly> = Vec::new();
        std::mem::swap(&mut pending, &mut self.pending);
        let ghost p0 = assembly_pairs(pending@);
        let ghost m0 = pairs_map(assembly_pairs(pending@));
        let n = pending.len();
        let k = find_transfer(&pending, &file_hash);
        let ghost slots0: Seq<Option<Seq<u8>>>;
        if k == n {
            proof {
                assert(!m0.contains_key(file_hash@)) by {
                    if m0.contains_key(file_hash@) {
                        let j = choose|j: int| 0 <= j < p0.len() && (#[trigger] p0[j]).0 == file_hash@;
                    }
                }
            }
            let mut slots: Vec<Option<Vec<u8>>> = Vec::new();
            let mut t: u32 = 0;
            while t < total
                invariant
                    t <= total,
                    slots@.len() == t,
                    forall|j: int| 0 <= j < t ==> (#[trigger] slots@[j]) is None,
                decreases total - t,
            {
                slots.push(None);
                t += 1;
            }
            assert(slots_view(slots@) =~= empty_slots(total as nat));
            let ghost sv = slots_view(slots@);
            pending.push(Assembly { file_hash: file_hash.clone(), slots });
            proof {
                assert(assembly_pairs(pending@) =~= p0.push((file_hash@, sv)));
                lemma_pairs_push(p0, file_hash@, sv);
                slots0 = sv;
            }
        } else {
            proof {
                assert(m0.contains_key(file_hash@));
                let j = choose|j: int| 0 <= j < p0.len() && (#[trigger] p0[j]).0 == file_hash@;
                assert(j == k);
                slots0 = p0[k as int].1;
            }
        }
        let ghost p1 = assembly_pairs(pending@);
        let ghost m1 = pairs_map(assembly_pairs(pending@));
        assert(m1 == m0.insert(file_hash@, slots0));
        assert(p1[k as int] == (file_hash@, slots0));
        let idx = index as usize;
        assert(keys_distinct(p1));
        assert(slots_view(pending@[k as int].slots@) == slots0);
        if idx < pending[k].slots.len() && pending[k].slots[idx].is_none() {
            let entry = &mut pending[k];
            entry.slots[idx] = Some(data);
            let ghost filled = slots0.update(index as int, Some(data@));
            assert(slots_view(entry.slots@) =~= filled);
            let mut all = true;
            let mut i: usize = 0;
            while i < entry.slots.len()
                invariant
                    i <= entry.slots@.len(),
                    slots_view(entry.slots@) == filled,
                    all == (forall|j: int| 0 <= j < i ==> (#[trigger] filled[j]) is Some),
                decreases entry.slots@.len() - i,
            {
                assert(slots_view(entry.slots@)[i as int] == filled[i as int]);
                if entry.slots[i].is_none() {
                    all = false;
                }
                i += 1;
            }
            let ghost p2 = assembly_pairs(pending@);
            proof {
                assert(p2 =~= p1.update(k as int, (p1[k as int].0, filled)));
                lemma_pairs_update(p1, k as int, filled);
            }
            if all {
                let done = pending.remove(k);
                proof {
                    assert(assembly_pairs(pending@) =~= p2.remove(k as int));
                    lemma_pairs_remove(p2, k as int);
                }
                self.pending = pending;
                let full = join_slots(done.slots);
                return Some(full);
            }
            self.pending = pending;
            return None;
        }
        proof {
            assert(m1.insert(file_hash@, slots0) =~= m1);
            if (index as int) < slots0.len() {
                assert(slots_view(pending@[k as int].slots@)[index as int] == slots0[index as int]);
            }
        }
        self.pending = pending;
        None
    }
}

/// Joins filled slots in order.
fn join_slots(slots: Vec<Option<Vec<u8>>>) -> (r: Vec<u8>)
    requires
        all_filled(slots_view(slots@)),
    ensures
        r@ == joined(slots_view(slots@)),
{
    let ghost s = slots_view(slots@);
    let ghost parts = s.map_values(|o: Option<Seq<u8>>| o.unwrap());
    let mut slots = slots;
    let mut r: Vec<u8> = Vec::new();
    let mut i: usize = 0;
    let n = slots.len();
    assert(parts.take(0) =~= Seq::<Seq<u8>>::empty());
    while i < n
        invariant
            n == slots@.len(),
            n == s.len(),
            parts.len() == n,
            forall|j: int| 0 <= j < n ==> #[trigger] parts[j] == s[j].unwrap(),
            i <= n,
            all_filled(s),
            forall|j: int| i <= j < n ==> slots_view(slots@)[j] == #[trigger] s[j],
            r@ == parts.take(i as int).flatten_alt(),
        decreases n - i,
    {
        let ghost before = r@;
        let taken = slots[i].take();
        assert(s[i as int] is Some);
        match taken {
            Some(mut chunk) => {
                assert(chunk@ == parts[i as int]);
                r.append(&mut chunk);
            },
            None => {},
        }
        assert(parts.take(i + 1).drop_last() =~= parts.take(i as int));
        assert forall|j: int| i + 1 <= j < n implies slots_view(slots@)[j] == #[trigger] s[j] by {}
        i += 1;
    }
    assert(parts.take(n as int) =~= parts);
    proof {
        parts.lemma_flatten_and_flatten_alt_are_equivalent();
    }
    r
}

/// The views of a list of strings.
pub open spec fn strings_view(v: Seq<String>) -> Seq<Seq<char>> {
    v.map_values(|s: String| s@)
}

/// The views of a list of events.
pub open spec fn events_view(v: Seq<GuiEvent>) -> Seq<GuiEventModel> {
    v.map_values(|e: GuiEvent| e@)
}

/// What the node does about one packet: an optional reply to the sender,
/// and events for the window.
pub struct PacketReaction {
    pub reply: Option<Packet>,
    pub events: Vec<GuiEvent>,
}

/// The background node's memory: its own id, the addresses of the peers it
/// has heard from, and the transfers it is receiving.
pub struct NodeState {
    my_id: String,
    known_peers: Vec<String>,
    assembler: Assembler,
}

/// What a node remembers, as plain values.
pub struct NodeModel {
    pub my_id: Seq<char>,
    pub known_peers: Set<Seq<char>>,
    pub transfers: Map<Seq<char>, Seq<Option<Seq<u8>>>>,
}

impl View for NodeState {
    type V = NodeModel;

    closed spec fn view(&self) -> NodeModel {
        NodeModel {
            my_id: self.my_id@,
            known_peers: strings_view(self.known_peers@).to_set(),
            transfers: self.assembler@,
        }
    }
}

/// The window's line on finding a peer that answered.
pub open spec fn found_line(id: Seq<char>) -> Seq<char> {
    "👋 FOUND: "@ + id
}

/// The window's line on a completed transfer.
pub open spec fn received_line() -> Seq<char> {
    "📥 Received!"@
}

/// How the node reacts to `pkt` from `peer_ip`, and what it remembers after.
pub open spec fn packet_outcome(n: NodeModel, pkt: PacketModel, peer_ip: Seq<char>) -> (
    NodeModel,
    Option<PacketModel>,
    Seq<GuiEventModel>,
) {
    match pkt {
        PacketModel::Ping { id } => {
            if id == n.my_id {
                (n, None, Seq::empty())
            } else if n.known_peers.contains(peer_ip) {
                (n, Some(PacketModel::Pong { id: n.my_id }), Seq::empty())
            } else {
                (
                    NodeModel { known_peers: n.known_peers.insert(peer_ip), ..n },
                    Some(PacketModel::Pong { id: n.my_id }),
                    seq![GuiEventModel::PeerDiscovered { ip: peer_ip, id }],
                )
            }
        },
        PacketModel::Pong { id } => {
            if n.known_peers.contains(peer_ip) {
                (n, None, Seq::empty())
            } else {
                (
                    NodeModel { known_peers: n.known_peers.insert(peer_ip), ..n },
                    None,
                    seq![
                        GuiEventModel::Log(found_line(id)),
                        GuiEventModel::PeerDiscovered { ip: peer_ip, id },
                    ],
                )
            }
        },
        PacketModel::Chunk { file_hash, index, total, data } => {
            let (t, r) = accept_outcome(n.transfers, file_hash, index, total, data);
            (
                NodeModel { transfers: t, ..n },
                None,
                match r {
                    Some(full) => seq![
                        GuiEventModel::Log(received_line()),
                        GuiEventModel::AssetReady { data: full },
                    ],
                    None => Seq::empty(),
                },
            )
        },
    }
}

/// The view of an optional packet.
pub open spec fn opt_packet(p: Option<Packet>) -> Option<PacketModel> {
    match p {
        Some(q) => Some(q@),
        None => None,
    }
}

impl NodeState {
    /// Each known address is listed once.
    #[verifier::type_invariant]
    spec fn wf(&self) -> bool {
        strings_view(self.known_peers@).no_duplicates()
    }

    /// A node called `my_id` that knows no peer and receives nothing yet.
    pub fn new(my_id: String) -> (n: Self)
        ensures
            n@.my_id == my_id@,
            n@.known_peers == Set::<Seq<char>>::empty(),
            n@.transfers == Map::<Seq<char>, Seq<Option<Seq<u8>>>>::empty(),
    {
        let known_peers: Vec<String> = Vec::new();
        assert(strings_view(known_peers@) =~= Seq::<Seq<char>>::empty());
        let n = NodeState { my_id, known_peers, assembler: Assembler::new() };
        assert(n@.known_peers =~= Set::<Seq<char>>::empty());
        n
    }

    /// The node's own id.
    pub fn my_id(&self) -> (r: &String)
        ensures
            r@ == self@.my_id,
    {
        &self.my_id
    }

    /// Whether the node has heard from `ip`.
    fn knows(&self, ip: &String) -> (r: bool)
        ensures
            r == self@.known_peers.contains(ip@),
    {
        let ghost v = strings_view(self.known_peers@);
        let mut i: usize = 0;
        while i < self.known_peers.len()
            invariant
                v == strings_view(self.known_peers@),
                i <= v.len(),
                forall|j: int| 0 <= j < i ==> v[j] != ip@,
            decreases v.len() - i,
        {
            if self.known_peers[i] == *ip {
                assert(v[i as int] == ip@);
                return true;
            }
            i += 1;
        }
        assert(!v.contains(ip@));
        false
    }

    fn remember(&mut self, ip: String)
        requires
            !old(self)@.known_peers.contains(ip@),
        ensures
            final(self)@ == (NodeModel { known_peers: old(self)@.known_peers.insert(ip@), ..old(self)@ }),
    {
        proof {
            use_type_invariant(&*self);
        }
        let mut peers: Vec<String> = Vec::new();
        std::mem::swap(&mut peers, &mut self.known_peers);
        let ghost v = strings_view(peers@);
        peers.push(ip);
        proof {
            let w = strings_view(peers@);
            assert(w =~= v.push(ip@));
            assert(!v.contains(ip@));
            assert(w.to_set() =~= v.to_set().insert(ip@)) by {
                assert forall|x: Seq<char>| #[trigger] w.to_set().contains(x) <==> v.to_set().insert(ip@).contains(x) by {
                    if w.contains(x) && x != ip@ {
                        let j = choose|j: int| 0 <= j < w.len() && w[j] == x;
                        assert(v[j] == x);
                    }
                    if v.contains(x) {
                        let j = choose|j: int| 0 <= j < v.len() && v[j] == x;
                        assert(w[j] == x);
                    }
                    if x == ip@ {
                        assert(w[v.len() as int] == x);
                    }
                }
            }
        }
        self.known_peers = peers;
    }

    /// Reacts to `pkt` received from `peer_ip`: a ping from another node is
    /// answered with a pong, a ping or pong from a new address makes that peer
    /// known and reported, and a chunk goes to its transfer, whose file is
    /// reported when complete.
    pub fn handle_packet(&mut self, pkt: Packet, peer_ip: String) -> (r: PacketReaction)
        ensures
            ({
                let (n, reply, events) = packet_outcome(old(self)@, pkt@, peer_ip@);
                &&& final(self)@ == n
                &&& opt_packet(r.reply) == reply
                &&& events_view(r.events@) == events
            }),
    {
        let mut events: Vec<GuiEvent> = Vec::new();
        match pkt {
            Packet::Ping { id } => {
                if id == self.my_id {
                    assert(events_view(events@) =~= Seq::<GuiEventModel>::empty());
                    return PacketReaction { reply: None, events };
                }
                let reply = Some(Packet::Pong { id: self.my_id.clone() });
                if !self.knows(&peer_ip) {
                    let ip = peer_ip.clone();
                    self.remember(peer_ip);
                    events.push(GuiEvent::PeerDiscovered { ip, id });
                    assert(events_view(events@) =~= seq![
                        GuiEventModel::PeerDiscovered { ip: ip@, id: id@ },
                    ]);
                } else {
                    assert(events_view(events@) =~= Seq::<GuiEventModel>::empty());
                }
                PacketReaction { reply, events }
            },
            Packet::Pong { id } => {
                if !self.knows(&peer_ip) {
                    let ip = peer_ip.clone();
                    self.remember(peer_ip);
                    let mut line = String::from_str("👋 FOUND: ");
                    line.append(id.as_str());
                    events.push(GuiEvent::Log(line));
                    events.push(GuiEvent::PeerDiscovered { ip, id });
                    assert(events_view(events@) =~= seq![
                        GuiEventModel::Log(found_line(id@)),
                        GuiEventModel::PeerDiscovered { ip: ip@, id: id@ },
                    ]);
                } else {
                    assert(events_view(events@) =~= Seq::<GuiEventModel>::empty());
                }
                PacketReaction { reply: None, events }
            },
            Packet::Chunk { file_hash, index, total, data } => {
                proof {
                    use_type_invariant(&*self);
                }
                let mut assembler = Assembler::new();
                std::mem::swap(&mut assembler, &mut self.assembler);
                let done = assembler.accept(file_hash, index, total, data);
                self.assembler = assembler;
                match done {
                    Some(full) => {
                        events.push(GuiEvent::Log(String::from_str("📥 Received!")));
                        events.push(GuiEvent::AssetReady { data: full });
                        assert(events_view(events@) =~= seq![
                            GuiEventModel::Log(received_line()),
                            GuiEventModel::AssetReady { data: full@ },
                        ]);
                    },
                    None => {
                        assert(events_view(events@) =~= Seq::<GuiEventModel>::empty());
                    },
                }
                PacketReaction { reply: None, events }
            },
        }
    }
}

/// Hearing again from a known address reports nothing new, a node ignores
/// its own pings, and the set of known peers only grows.
pub proof fn law_peer_reported_once(n: NodeModel, pkt: PacketModel, ip: Seq<char>)
    ensures
        ({
            let (n1, reply, events) = packet_outcome(n, pkt, ip);
            &&& n.known_peers.subset_of(n1.known_peers)
            &&& n1.my_id == n.my_id
            &&& (pkt is Ping || pkt is Pong) && n.known_peers.contains(ip) ==> events.len() == 0
            &&& (pkt is Ping && pkt->Ping_id == n.my_id) ==> reply is None && n1 == n
            &&& (pkt is Ping && pkt->Ping_id != n.my_id) ==> reply == Some(PacketModel::Pong { id: n.my_id })
            &&& ((pkt is Ping && pkt->Ping_id != n.my_id) || pkt is Pong) ==> n1.known_peers.contains(ip)
        }),
{
}

/// The addresses of the peers reported found in `events`, in order.
pub open spec fn discovered_ips(events: Seq<GuiEventModel>) -> Seq<Seq<char>>
    decreases events.len(),
{
    if events.len() == 0 {
        Seq::empty()
    } else {
        let rest = discovered_ips(events.drop_last());
        match events.last() {
            GuiEventModel::PeerDiscovered { ip, id } => rest.push(ip),
            _ => rest,
        }
    }
}

/// Handing a node the packets `arrivals` (each with the address it came
/// from) one after another: what it remembers afterwards and every event it
/// reported, in order.
pub open spec fn run_packets(n: NodeModel, arrivals: Seq<(PacketModel, Seq<char>)>) -> (NodeModel, Seq<GuiEventModel>)
    decreases arrivals.len(),
{
    if arrivals.len() == 0 {
        (n, Seq::empty())
    } else {
        let (n1, evs) = run_packets(n, arrivals.drop_last());
        let (n2, _, e) = packet_outcome(n1, arrivals.last().0, arrivals.last().1);
        (n2, evs + e)
    }
}

proof fn lemma_discovered_concat(a: Seq<GuiEventModel>, b: Seq<GuiEventModel>)
    ensures
        discovered_ips(a + b) == discovered_ips(a) + discovered_ips(b),
    decreases b.len(),
{
    if b.len() == 0 {
        assert(a + b =~= a);
        assert(discovered_ips(a) + discovered_ips(b) =~= discovered_ips(a));
    } else {
        lemma_discovered_concat(a, b.drop_last());
        assert((a + b).drop_last() =~= a + b.drop_last());
        assert((a + b).last() == b.last());
        match b.last() {
            GuiEventModel::PeerDiscovered { ip, id } => {
                assert(discovered_ips(a) + discovered_ips(b) =~= (discovered_ips(a) + discovered_ips(b.drop_last())).push(ip));
            },
            _ => {},
        }
    }
}

/// Each peer is reported once: over any run of pings, pongs and chunks,
/// the addresses reported found are pairwise distinct, none was known
/// before the run, and all are known after it; the known set only grows.
pub proof fn law_each_peer_reported_once(n: NodeModel, arrivals: Seq<(PacketModel, Seq<char>)>)
    ensures
        ({
            let (n2, events) = run_packets(n, arrivals);
            let ips = discovered_ips(events);
            &&& ips.no_duplicates()
            &&& forall|k: int| 0 <= k < ips.len() ==> !n.known_peers.contains(#[trigger] ips[k])
            &&& forall|k: int| 0 <= k < ips.len() ==> n2.known_peers.contains(#[trigger] ips[k])
            &&& n.known_peers.subset_of(n2.known_peers)
        }),
    decreases arrivals.len(),
{
    if arrivals.len() > 0 {
        law_each_peer_reported_once(n, arrivals.drop_last());
        let (n1, evs) = run_packets(n, arrivals.drop_last());
        let (pkt, ip) = arrivals.last();
        let (n2, _, e) = packet_outcome(n1, pkt, ip);
        lemma_discovered_concat(evs, e);
        let old_ips = discovered_ips(evs);
        let new_ips = discovered_ips(e);
        let ips = old_ips + new_ips;
        assert(discovered_ips(evs + e) == ips);
        reveal_with_fuel(discovered_ips, 3);
        assert(n1.known_peers.subset_of(n2.known_peers));
        if new_ips.len() > 0 {
            assert(new_ips =~= seq![ip]);
            assert(!n1.known_peers.contains(ip));
            assert(n2.known_peers.contains(ip));
            assert forall|k: int| 0 <= k < old_ips.len() implies old_ips[k] != ip by {
                assert(n1.known_peers.contains(old_ips[k]));
            }
            assert forall|a: int, b: int| 0 <= a < ips.len() && 0 <= b < ips.len() && a != b implies ips[a] != ips[b] by {
                if a < old_ips.len() && b < old_ips.len() {
                    assert(old_ips[a] != old_ips[b]);
                } else if a < old_ips.len() {
                    assert(ips[b] == ip);
                    assert(ips[a] == old_ips[a]);
                } else if b < old_ips.len() {
                    assert(ips[a] == ip);
                    assert(ips[b] == old_ips[b]);
                }
            }
            assert forall|k: int| 0 <= k < ips.len() implies !n.known_peers.contains(#[trigger] ips[k]) by {
                if k < old_ips.len() {
                    assert(ips[k] == old_ips[k]);
                } else {
                    assert(ips[k] == ip);
                }
            }
            assert forall|k: int| 0 <= k < ips.len() implies n2.known_peers.contains(#[trigger] ips[k]) by {
                if k < old_ips.len() {
                    assert(ips[k] == old_ips[k]);
                    assert(n1.known_peers.contains(old_ips[k]));
                } else {
                    assert(ips[k] == ip);
                }
            }
        } else {
            assert(ips =~= old_ips);
            assert forall|k: int| 0 <= k < ips.len() implies n2.known_peers.contains(#[trigger] ips[k]) by {
                assert(n1.known_peers.contains(old_ips[k]));
            }
        }
    }
}

/// The name a node gives itself from the clock: `Node_` and the seconds
/// modulo 1000.
pub open spec fn node_name_spec(secs: u64) -> Seq<char> {
    "Node_"@ + decimal((secs % 1000) as nat)
}

/// The node's name for a clock reading of `secs` seconds.
pub fn node_name(secs: u64) -> (r: String)
    ensures
        r@ == node_name_spec(secs),
{
    let mut r = String::from_str("Node_");
    push_decimal(&mut r, secs % 1000);
    r
}

} // verus!
