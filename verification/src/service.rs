//! The content node: its messages between window and background task, the
//! window's own state (the log it shows and the address it found), and the
//! node's decisions. The node keeps the ids of packets it has seen, so that a
//! packet that comes back is dropped, and the addresses of its peers, to
//! which it broadcasts; each command, local result and received packet is
//! turned into the actions the surrounding program performs.

use vstd::prelude::*;
use crate::node::strings_view;
use crate::text::decimal;
use crate::identity::{ed25519_valid, ed25519_verify};

verus! {

/// What the window asks of the node.
pub enum Command {
    Publish { content: Vec<u8> },
    Fetch { cid: String },
    ConnectPeer { ip: String },
}

/// What the node reports to the window.
pub enum GuiEvent {
    Log(String),
    Error(String),
    ContentArrived { cid: String, data: Vec<u8> },
    PublishSuccess { cid: String, is_json: bool },
    PeerFound(String),
    SelfIpFound(String),
}

/// The view of a command.
pub enum CommandModel {
    Publish { content: Seq<u8> },
    Fetch { cid: Seq<char> },
    ConnectPeer { ip: Seq<char> },
}

impl View for Command {
    type V = CommandModel;

    open spec fn view(&self) -> CommandModel {
        match self {
            Command::Publish { content } => CommandModel::Publish { content: content@ },
            Command::Fetch { cid } => CommandModel::Fetch { cid: cid@ },
            Command::ConnectPeer { ip } => CommandModel::ConnectPeer { ip: ip@ },
        }
    }
}

/// The view of an event.
pub enum EventModel {
    Log(Seq<char>),
    Error(Seq<char>),
    ContentArrived { cid: Seq<char>, data: Seq<u8> },
    PublishSuccess { cid: Seq<char>, is_json: bool },
    PeerFound(Seq<char>),
    SelfIpFound(Seq<char>),
}

impl View for GuiEvent {
    type V = EventModel;

    open spec fn view(&self) -> EventModel {
        match self {
            GuiEvent::Log(s) => EventModel::Log(s@),
            GuiEvent::Error(s) => EventModel::Error(s@),
            GuiEvent::ContentArrived { cid, data } => EventModel::ContentArrived { cid: cid@, data: data@ },
            GuiEvent::PublishSuccess { cid, is_json } => EventModel::PublishSuccess { cid: cid@, is_json: *is_json },
            GuiEvent::PeerFound(s) => EventModel::PeerFound(s@),
            GuiEvent::SelfIpFound(s) => EventModel::SelfIpFound(s@),
        }
    }
}

/// What a signed packet between content nodes carries.
pub enum Payload {
    /// Keep a copy of this object.
    Store { cid: String, data: Vec<u8> },
    /// The object asked for.
    Data { cid: String, data: Vec<u8> },
    /// Who has this object?
    Fetch { cid: String },
    /// I am here.
    Heartbeat { timestamp: u64 },
}

/// The view of a payload.
pub enum PayloadModel {
    Store { cid: Seq<char>, data: Seq<u8> },
    Data { cid: Seq<char>, data: Seq<u8> },
    Fetch { cid: Seq<char> },
    Heartbeat { timestamp: u64 },
}

impl View for Payload {
    type V = PayloadModel;

    open spec fn view(&self) -> PayloadModel {
        match self {
            Payload::Store { cid, data } => PayloadModel::Store { cid: cid@, data: data@ },
            Payload::Data { cid, data } => PayloadModel::Data { cid: cid@, data: data@ },
            Payload::Fetch { cid } => PayloadModel::Fetch { cid: cid@ },
            Payload::Heartbeat { timestamp } => PayloadModel::Heartbeat { timestamp: *timestamp },
        }
    }
}

/// Why an object is being stored, which decides what follows.
pub enum StorePurpose {
    /// The user published it: report it and spread it.
    Publish,
    /// A peer asked us to keep a copy: nothing follows.
    Replica,
    /// It answers a fetch of `cid`: show it.
    Delivery { cid: String },
}

/// The view of a store purpose.
pub enum PurposeModel {
    Publish,
    Replica,
    Delivery { cid: Seq<char> },
}

impl View for StorePurpose {
    type V = PurposeModel;

    open spec fn view(&self) -> PurposeModel {
        match self {
            StorePurpose::Publish => PurposeModel::Publish,
            StorePurpose::Replica => PurposeModel::Replica,
            StorePurpose::Delivery { cid } => PurposeModel::Delivery { cid: cid@ },
        }
    }
}

/// Something the program around the node does for it.
pub enum ContentAction {
    /// Report to the window.
    Emit(GuiEvent),
    /// Put `data` in the local store, then hand back the outcome.
    StoreContent { data: Vec<u8>, purpose: StorePurpose },
    /// Read `cid` from the local store, then hand back the outcome.
    FetchLocal { cid: String },
    /// Parse `text` as a socket address, then hand back the outcome.
    Resolve { text: String },
    /// Sign `payload` and send it to `addr`.
    SendTo { payload: Payload, addr: String },
    /// Sign `payload` into a fresh packet, hand back its id, and send it to
    /// each of `targets`.
    Broadcast { payload: Payload, targets: Vec<String> },
    /// Pass the packet just received on, as it is, to each of `targets`.
    Relay { targets: Vec<String> },
}

/// The view of an action.
pub enum ActionModel {
    Emit(EventModel),
    StoreContent { data: Seq<u8>, purpose: PurposeModel },
    FetchLocal { cid: Seq<char> },
    Resolve { text: Seq<char> },
    SendTo { payload: PayloadModel, addr: Seq<char> },
    Broadcast { payload: PayloadModel, targets: Seq<Seq<char>> },
    Relay { targets: Seq<Seq<char>> },
}

impl View for ContentAction {
    type V = ActionModel;

    open spec fn view(&self) -> ActionModel {
        match self {
            ContentAction::Emit(e) => ActionModel::Emit(e@),
            ContentAction::StoreContent { data, purpose } => ActionModel::StoreContent {
                data: data@,
                purpose: purpose@,
            },
            ContentAction::FetchLocal { cid } => ActionModel::FetchLocal { cid: cid@ },
            ContentAction::Resolve { text } => ActionModel::Resolve { text: text@ },
            ContentAction::SendTo { payload, addr } => ActionModel::SendTo { payload: payload@, addr: addr@ },
            ContentAction::Broadcast { payload, targets } => ActionModel::Broadcast {
                payload: payload@,
                targets: strings_view(targets@),
            },
            ContentAction::Relay { targets } => ActionModel::Relay { targets: strings_view(targets@) },
        }
    }
}

/// The views of a list of actions.
pub open spec fn actions_view(v: Seq<ContentAction>) -> Seq<ActionModel> {
    v.map_values(|a: ContentAction| a@)
}

/// What happened that the node must decide on.
pub enum ContentInput {
    /// The window asked for something.
    Command(Command),
    /// The local store took `data` for `purpose`: its id, or `None` if it failed.
    Stored { purpose: StorePurpose, data: Vec<u8>, cid: Option<String> },
    /// The local store was read for `cid`: the bytes, or `None` if it has not got them.
    Fetched { cid: String, data: Option<Vec<u8>> },
    /// The address typed to connect to, parsed: its text, or `None` if it did not parse.
    Resolved { addr: Option<String> },
    /// A packet of ours was signed with id `id` and is being broadcast.
    Broadcasted { id: String },
    /// A packet arrived from `addr`: its id, whether its signature held, and
    /// what it carries.
    Received { verified: bool, id: String, addr: String, payload: Payload },
}

/// The view of an input.
#[allow(inconsistent_fields)]
pub enum InputModel {
    Command(CommandModel),
    Stored { purpose: PurposeModel, data: Seq<u8>, cid: Option<Seq<char>> },
    Fetched { cid: Seq<char>, data: Option<Seq<u8>> },
    Resolved { addr: Option<Seq<char>> },
    Broadcasted { id: Seq<char> },
    Received { verified: bool, id: Seq<char>, addr: Seq<char>, payload: PayloadModel },
}

/// The view of an optional string.
pub open spec fn opt_chars(o: Option<String>) -> Option<Seq<char>> {
    match o {
        Some(s) => Some(s@),
        None => None,
    }
}

/// The view of optional bytes.
pub open spec fn opt_bytes(o: Option<Vec<u8>>) -> Option<Seq<u8>> {
    match o {
        Some(v) => Some(v@),
        None => None,
    }
}

impl View for ContentInput {
    type V = InputModel;

    open spec fn view(&self) -> InputModel {
        match self {
            ContentInput::Command(c) => InputModel::Command(c@),
            ContentInput::Stored { purpose, data, cid } => InputModel::Stored {
                purpose: purpose@,
                data: data@,
                cid: opt_chars(*cid),
            },
            ContentInput::Fetched { cid, data } => InputModel::Fetched { cid: cid@, data: opt_bytes(*data) },
            ContentInput::Resolved { addr } => InputModel::Resolved { addr: opt_chars(*addr) },
            ContentInput::Broadcasted { id } => InputModel::Broadcasted { id: id@ },
            ContentInput::Received { verified, id, addr, payload } => InputModel::Received {
                verified: *verified,
                id: id@,
                addr: addr@,
                payload: payload@,
            },
        }
    }
}

/// What the node remembers: the ids of packets seen, and its peers' addresses.
pub struct ContentModel {
    pub seen: Seq<Seq<char>>,
    pub peers: Seq<Seq<char>>,
}

/// `s` with `x` added at the end unless it is there already.
pub open spec fn with_item(s: Seq<Seq<char>>, x: Seq<char>) -> Seq<Seq<char>> {
    if s.contains(x) {
        s
    } else {
        s.push(x)
    }
}

/// What a payload that passed the checks leads to: a copy to keep is
/// stored; an object that answers a fetch is stored and then shown; fetch
/// requests and heartbeats lead to nothing.
pub open spec fn payload_spec(p: PayloadModel) -> Seq<ActionModel> {
    match p {
        PayloadModel::Store { cid, data } => seq![
            ActionModel::StoreContent { data, purpose: PurposeModel::Replica },
        ],
        PayloadModel::Data { cid, data } => seq![
            ActionModel::StoreContent { data, purpose: PurposeModel::Delivery { cid } },
        ],
        _ => Seq::empty(),
    }
}

/// The peers other than `from`, in order.
pub open spec fn others(peers: Seq<Seq<char>>, from: Seq<char>) -> Seq<Seq<char>>
    decreases peers.len(),
{
    if peers.len() == 0 {
        peers
    } else if peers.last() == from {
        others(peers.drop_last(), from)
    } else {
        others(peers.drop_last(), from).push(peers.last())
    }
}

/// Gossip: a fresh packet from `from` is passed on to every other peer, and
/// an intermediate node says so; a node with no other peer passes nothing on.
pub open spec fn relay_spec(peers: Seq<Seq<char>>, from: Seq<char>) -> Seq<ActionModel> {
    let t = others(peers, from);
    if t.len() == 0 {
        Seq::empty()
    } else {
        seq![
            ActionModel::Relay { targets: t },
            ActionModel::Emit(EventModel::Log(">> Relayed to "@ + decimal(t.len()) + " peers."@)),
        ]
    }
}

/// The log line for a packet whose signature did not hold.
pub open spec fn blocked_line(addr: Seq<char>) -> Seq<char> {
    "🛡️ BLOCKED: Fake/Tampered packet from "@ + addr
}

/// One step of the node: the state after `i` and the actions it asks for.
pub open spec fn content_step_spec(m: ContentModel, i: InputModel) -> (ContentModel, Seq<ActionModel>) {
    match i {
        InputModel::Command(CommandModel::Publish { content }) => (
            m,
            seq![ActionModel::StoreContent { data: content, purpose: PurposeModel::Publish }],
        ),
        InputModel::Command(CommandModel::Fetch { cid }) => (m, seq![ActionModel::FetchLocal { cid }]),
        InputModel::Command(CommandModel::ConnectPeer { ip }) => (
            m,
            seq![ActionModel::Resolve { text: ip + ":"@ + decimal(PEER_PORT as nat) }],
        ),
        InputModel::Stored { purpose, data, cid } => match (purpose, cid) {
            (PurposeModel::Publish, Some(c)) => (
                m,
                seq![
                    ActionModel::Emit(EventModel::PublishSuccess { cid: c, is_json: false }),
                    ActionModel::Broadcast { payload: PayloadModel::Store { cid: c, data }, targets: m.peers },
                ],
            ),
            (PurposeModel::Delivery { cid: wanted }, Some(_)) => (
                m,
                seq![ActionModel::Emit(EventModel::ContentArrived { cid: wanted, data })],
            ),
            _ => (m, Seq::empty()),
        },
        InputModel::Fetched { cid, data } => match data {
            Some(d) => (m, seq![ActionModel::Emit(EventModel::ContentArrived { cid, data: d })]),
            None => (m, seq![ActionModel::Broadcast { payload: PayloadModel::Fetch { cid }, targets: m.peers }]),
        },
        InputModel::Resolved { addr } => match addr {
            Some(a) => (
                ContentModel { seen: m.seen, peers: with_item(m.peers, a) },
                seq![
                    ActionModel::Emit(EventModel::Log("-> "@ + a)),
                    ActionModel::SendTo { payload: PayloadModel::Heartbeat { timestamp: 0 }, addr: a },
                ],
            ),
            None => (m, seq![ActionModel::Emit(EventModel::Error("Invalid IP"@))]),
        },
        InputModel::Broadcasted { id } => (ContentModel { seen: with_item(m.seen, id), peers: m.peers }, Seq::empty()),
        InputModel::Received { verified, id, addr, payload } => if !verified {
            (m, seq![ActionModel::Emit(EventModel::Log(blocked_line(addr)))])
        } else if !m.seen.contains(id) {
            let peers = with_item(m.peers, addr);
            (ContentModel { seen: m.seen.push(id), peers }, payload_spec(payload) + relay_spec(peers, addr))
        } else {
            (m, Seq::empty())
        },
    }
}

/// Whether `x` is one of `v`.
fn listed(v: &Vec<String>, x: &String) -> (r: bool)
    ensures
        r == strings_view(v@).contains(x@),
{
    let mut k: usize = 0;
    while k < v.len()
        invariant
            k <= v@.len(),
            forall|j: int| 0 <= j < k ==> strings_view(v@)[j] != x@,
        decreases v@.len() - k,
    {
        if v[k] == *x {
            assert(strings_view(v@)[k as int] == x@);
            return true;
        }
        k += 1;
    }
    false
}

/// Adds `x` to `v` unless it is there already.
fn add_item(v: &mut Vec<String>, x: String)
    requires
        strings_view(old(v)@).no_duplicates(),
    ensures
        strings_view(final(v)@) == with_item(strings_view(old(v)@), x@),
        strings_view(final(v)@).no_duplicates(),
{
    if !listed(v, &x) {
        let ghost before = strings_view(v@);
        let ghost xv = x@;
        v.push(x);
        assert(strings_view(v@) =~= before.push(xv));
    }
}

/// A copy of a list of strings.
fn copy_strings(v: &Vec<String>) -> (r: Vec<String>)
    ensures
        strings_view(r@) == strings_view(v@),
{
    let mut r: Vec<String> = Vec::new();
    let mut k: usize = 0;
    while k < v.len()
        invariant
            k <= v@.len(),
            strings_view(r@) == strings_view(v@).subrange(0, k as int),
        decreases v@.len() - k,
    {
        let ghost before = strings_view(r@);
        r.push(v[k].clone());
        assert(strings_view(r@) =~= before.push(strings_view(v@)[k as int]));
        assert(strings_view(v@).subrange(0, k + 1) =~= strings_view(v@).subrange(0, k as int).push(
            strings_view(v@)[k as int],
        ));
        k += 1;
    }
    assert(strings_view(v@).subrange(0, v@.len() as int) =~= strings_view(v@));
    r
}

/// The peers other than `from`.
fn other_peers(peers: &Vec<String>, from: &String) -> (r: Vec<String>)
    ensures
        strings_view(r@) == others(strings_view(peers@), from@),
{
    let ghost all = strings_view(peers@);
    let mut r: Vec<String> = Vec::new();
    let mut k: usize = 0;
    while k < peers.len()
        invariant
            all == strings_view(peers@),
            k <= peers@.len(),
            strings_view(r@) == others(all.subrange(0, k as int), from@),
        decreases peers@.len() - k,
    {
        let ghost before = strings_view(r@);
        assert(all.subrange(0, k + 1).drop_last() =~= all.subrange(0, k as int));
        if peers[k] != *from {
            r.push(peers[k].clone());
            assert(strings_view(r@) =~= before.push(all[k as int]));
        }
        k += 1;
    }
    assert(all.subrange(0, peers@.len() as int) =~= all);
    r
}

/// The actions a payload that passed the checks leads to.
pub fn payload_actions(p: Payload) -> (a: Vec<ContentAction>)
    ensures
        actions_view(a@) == payload_spec(p@),
{
    let mut a: Vec<ContentAction> = Vec::new();
    match p {
        Payload::Store { cid, data } => {
            a.push(ContentAction::StoreContent { data, purpose: StorePurpose::Replica });
        },
        Payload::Data { cid, data } => {
            a.push(ContentAction::StoreContent { data, purpose: StorePurpose::Delivery { cid } });
        },
        _ => {},
    }
    assert(actions_view(a@) =~= payload_spec(p@));
    a
}

/// The content node's memory: packet ids seen and peer addresses, each
/// listed once.
pub struct ContentNode {
    seen: Vec<String>,
    peers: Vec<String>,
}

impl View for ContentNode {
    type V = ContentModel;

    closed spec fn view(&self) -> ContentModel {
        ContentModel { seen: strings_view(self.seen@), peers: strings_view(self.peers@) }
    }
}

impl ContentNode {
    pub closed spec fn wf(&self) -> bool {
        self@.seen.no_duplicates() && self@.peers.no_duplicates()
    }

    /// A node that has seen nothing and knows no peer.
    pub fn new() -> (n: Self)
        ensures
            n.wf(),
            n@.seen.len() == 0,
            n@.peers.len() == 0,
    {
        let n = ContentNode { seen: Vec::new(), peers: Vec::new() };
        assert(n@.seen =~= Seq::<Seq<char>>::empty());
        assert(n@.peers =~= Seq::<Seq<char>>::empty());
        n
    }

    /// A packet arrived from `addr`: `signed` is what its sender signed,
    /// `signature` the signature, `sender_key` the sender's public key. The
    /// signature is checked here, and the packet is then decided on as
    /// [`ContentNode::content_step`] does.
    pub fn receive_packet(
        &mut self,
        sender_key: &[u8; 32],
        signed: &[u8],
        signature: &[u8; 64],
        id: String,
        addr: String,
        payload: Payload,
    ) -> (out: Vec<ContentAction>)
        requires
            old(self).wf(),
        ensures
            final(self).wf(),
            (final(self)@, actions_view(out@)) == content_step_spec(
                old(self)@,
                InputModel::Received {
                    verified: ed25519_valid(sender_key@, signed@, signature@),
                    id: id@,
                    addr: addr@,
                    payload: payload@,
                },
            ),
            forall|secret: Seq<u8>|
                secret.len() == 32 && sender_key@ == #[trigger] crate::identity::ed25519_public(secret)
                    && signature@ == crate::identity::ed25519_signature(secret, signed@)
                    ==> ed25519_valid(sender_key@, signed@, signature@),
    {
        let verified = ed25519_verify(sender_key, signed, signature);
        self.content_step(ContentInput::Received { verified, id, addr, payload })
    }

    /// Adds a peer address known from the start.
    pub fn add_bootstrap(&mut self, addr: String)
        requires
            old(self).wf(),
        ensures
            final(self).wf(),
            final(self)@ == (ContentModel { seen: old(self)@.seen, peers: with_item(old(self)@.peers, addr@) }),
    {
        add_item(&mut self.peers, addr);
    }

    /// Decides on one input: updates what the node remembers and returns
    /// what is to be done, in order.
    pub fn content_step(&mut self, input: ContentInput) -> (out: Vec<ContentAction>)
        requires
            old(self).wf(),
        ensures
            final(self).wf(),
            (final(self)@, actions_view(out@)) == content_step_spec(old(self)@, input@),
    {
        let ghost m = self@;
        let ghost iv = input@;
        let mut out: Vec<ContentAction> = Vec::new();
        match input {
            ContentInput::Command(Command::Publish { content }) => {
                out.push(ContentAction::StoreContent { data: content, purpose: StorePurpose::Publish });
            },
            ContentInput::Command(Command::Fetch { cid }) => {
                out.push(ContentAction::FetchLocal { cid });
            },
            ContentInput::Command(Command::ConnectPeer { ip }) => {
                let text = peer_address(ip.as_str());
                out.push(ContentAction::Resolve { text });
            },
            ContentInput::Stored { purpose, data, cid } => {
                match (purpose, cid) {
                    (StorePurpose::Publish, Some(c)) => {
                        let c2 = c.clone();
                        out.push(ContentAction::Emit(GuiEvent::PublishSuccess { cid: c, is_json: false }));
                        let targets = copy_strings(&self.peers);
                        out.push(ContentAction::Broadcast { payload: Payload::Store { cid: c2, data }, targets });
                    },
                    (StorePurpose::Delivery { cid: wanted }, Some(_)) => {
                        out.push(ContentAction::Emit(GuiEvent::ContentArrived { cid: wanted, data }));
                    },
                    _ => {},
                }
            },
            ContentInput::Fetched { cid, data } => {
                match data {
                    Some(d) => {
                        out.push(ContentAction::Emit(GuiEvent::ContentArrived { cid, data: d }));
                    },
                    None => {
                        let targets = copy_strings(&self.peers);
                        out.push(ContentAction::Broadcast { payload: Payload::Fetch { cid }, targets });
                    },
                }
            },
            ContentInput::Resolved { addr } => {
                match addr {
                    Some(a) => {
                        let mut line = String::from_str("-> ");
                        line.append(a.as_str());
                        out.push(ContentAction::Emit(GuiEvent::Log(line)));
                        let a2 = a.clone();
                        out.push(ContentAction::SendTo { payload: Payload::Heartbeat { timestamp: 0 }, addr: a });
                        add_item(&mut self.peers, a2);
                    },
                    None => {
                        out.push(ContentAction::Emit(GuiEvent::Error(String::from_str("Invalid IP"))));
                    },
                }
            },
            ContentInput::Broadcasted { id } => {
                add_item(&mut self.seen, id);
            },
            ContentInput::Received { verified, id, addr, payload } => {
                if !verified {
                    let mut line = String::from_str("🛡️ BLOCKED: Fake/Tampered packet from ");
                    line.append(addr.as_str());
                    out.push(ContentAction::Emit(GuiEvent::Log(line)));
                } else if !listed(&self.seen, &id) {
                    add_item(&mut self.seen, id);
                    let from = addr.clone();
                    add_item(&mut self.peers, addr);
                    out = payload_actions(payload);
                    let targets = other_peers(&self.peers, &from);
                    let n = targets.len();
                    if n > 0 {
                        let ghost before = actions_view(out@);
                        let ghost tv = strings_view(targets@);
                        out.push(ContentAction::Relay { targets });
                        let mut line = String::from_str(">> Relayed to ");
                        crate::text::push_decimal(&mut line, n as u64);
                        line.append(" peers.");
                        out.push(ContentAction::Emit(GuiEvent::Log(line)));
                        assert(actions_view(out@) =~= before + relay_spec(self@.peers, from@));
                    } else {
                        assert(relay_spec(self@.peers, from@) =~= Seq::<ActionModel>::empty());
                        assert(actions_view(out@) =~= actions_view(out@) + relay_spec(self@.peers, from@));
                    }
                }
            },
        }
        assert(actions_view(out@) =~= content_step_spec(m, iv).1);
        out
    }
}

/// Deduplication: a signed packet whose id the node has already seen is
/// dropped, whatever it carries, and nothing changes.
pub proof fn law_seen_packet_dropped(m: ContentModel, id: Seq<char>, addr: Seq<char>, payload: PayloadModel)
    requires
        m.seen.contains(id),
    ensures
        content_step_spec(m, InputModel::Received { verified: true, id, addr, payload }) == (m, Seq::<ActionModel>::empty()),
{
}

/// A packet is acted on at most once: handing the node the same signed
/// packet a second time does nothing.
pub proof fn law_packet_processed_once(m: ContentModel, id: Seq<char>, addr: Seq<char>, payload: PayloadModel)
    ensures
        ({
            let i = InputModel::Received { verified: true, id, addr, payload };
            let after = content_step_spec(m, i).0;
            content_step_spec(after, i) == (after, Seq::<ActionModel>::empty())
        }),
{
    lemma_push_contains(m.seen, id, id);
}

/// A packet whose signature does not hold is blocked: the node changes
/// nothing and only logs where it came from.
pub proof fn law_tampered_packet_blocked(m: ContentModel, id: Seq<char>, addr: Seq<char>, payload: PayloadModel)
    ensures
        content_step_spec(m, InputModel::Received { verified: false, id, addr, payload }) == (
            m,
            seq![ActionModel::Emit(EventModel::Log(blocked_line(addr)))],
        ),
{
}

/// The node's own broadcasts are not taken in again when a peer passes
/// them back.
pub proof fn law_own_broadcast_not_reprocessed(
    m: ContentModel,
    id: Seq<char>,
    addr: Seq<char>,
    payload: PayloadModel,
)
    ensures
        ({
            let after = content_step_spec(m, InputModel::Broadcasted { id }).0;
            content_step_spec(after, InputModel::Received { verified: true, id, addr, payload }) == (
                after,
                Seq::<ActionModel>::empty(),
            )
        }),
{
    lemma_push_contains(m.seen, id, id);
}

proof fn lemma_push_contains(s: Seq<Seq<char>>, x: Seq<char>, p: Seq<char>)
    ensures
        s.push(x).contains(p) <==> (s.contains(p) || p == x),
{
    if s.contains(p) {
        let k = choose|k: int| 0 <= k < s.len() && s[k] == p;
        assert(s.push(x)[k] == p);
    }
    if p == x {
        assert(s.push(x)[s.len() as int] == p);
    }
    if s.push(x).contains(p) && p != x {
        let k = choose|k: int| 0 <= k < s.len() + 1 && s.push(x)[k] == p;
        assert(k < s.len());
        assert(s[k] == p);
    }
}

proof fn lemma_others(peers: Seq<Seq<char>>, from: Seq<char>)
    ensures
        forall|p: Seq<char>| #[trigger] others(peers, from).contains(p) <==> (peers.contains(p) && p != from),
    decreases peers.len(),
{
    if peers.len() > 0 {
        let rest = peers.drop_last();
        let last = peers.last();
        lemma_others(rest, from);
        assert(peers =~= rest.push(last));
        assert forall|p: Seq<char>| #[trigger] others(peers, from).contains(p) <==> (peers.contains(p) && p != from) by {
            lemma_push_contains(rest, last, p);
            lemma_push_contains(others(rest, from), last, p);
        }
    }
}

/// Gossip: a fresh signed packet is passed on to exactly the known peers
/// other than the one it came from, never back to its sender.
pub proof fn law_relay_skips_sender(m: ContentModel, id: Seq<char>, addr: Seq<char>, payload: PayloadModel)
    requires
        !m.seen.contains(id),
    ensures
        ({
            let (after, actions) = content_step_spec(m, InputModel::Received { verified: true, id, addr, payload });
            forall|k: int, p: Seq<char>|
                0 <= k < actions.len() && actions[k] is Relay ==> (#[trigger] actions[k]->Relay_targets.contains(p)
                    <==> (after.peers.contains(p) && p != addr))
        }),
{
    let peers = with_item(m.peers, addr);
    lemma_others(peers, addr);
    lemma_push_contains(m.seen, id, id);
    let actions = content_step_spec(m, InputModel::Received { verified: true, id, addr, payload }).1;
    let pa = payload_spec(payload);
    assert(actions == pa + relay_spec(peers, addr));
    assert forall|k: int| 0 <= k < actions.len() && actions[k] is Relay implies actions[k]->Relay_targets == others(peers, addr) by {
        if k < pa.len() {
            assert(actions[k] == pa[k]);
        } else {
            assert(actions[k] == relay_spec(peers, addr)[k - pa.len()]);
        }
    }
}

/// Senders are learned: after a signed packet with a fresh id from `addr`,
/// whatever it carries, the node's peers are those it had and `addr`, each
/// once; a packet that is dropped or blocked changes no peer.
pub proof fn law_sender_becomes_peer(m: ContentModel, verified: bool, id: Seq<char>, addr: Seq<char>, payload: PayloadModel)
    ensures
        ({
            let after = content_step_spec(m, InputModel::Received { verified, id, addr, payload }).0;
            &&& verified && !m.seen.contains(id) ==> after.peers.contains(addr)
            &&& verified && !m.seen.contains(id) ==> forall|p: Seq<char>|
                #[trigger] after.peers.contains(p) <==> (m.peers.contains(p) || p == addr)
            &&& !(verified && !m.seen.contains(id)) ==> after.peers == m.peers
            &&& m.peers.no_duplicates() ==> after.peers.no_duplicates()
        }),
{
    assert forall|p: Seq<char>| #[trigger] with_item(m.peers, addr).contains(p) <==> (m.peers.contains(p) || p == addr) by {
        lemma_push_contains(m.peers, addr, p);
    }
    lemma_push_contains(m.peers, addr, addr);
    if m.peers.no_duplicates() && !m.peers.contains(addr) {
        let q = m.peers.push(addr);
        assert forall|a: int, b: int| 0 <= a < q.len() && 0 <= b < q.len() && a != b implies q[a] != q[b] by {
            if a < m.peers.len() && b < m.peers.len() {
            } else if a < m.peers.len() {
                assert(q[a] == m.peers[a]);
                assert(m.peers.contains(m.peers[a]));
            } else {
                assert(q[b] == m.peers[b]);
                assert(m.peers.contains(m.peers[b]));
            }
        }
    }
}

/// Port peers are connected on.
pub const PEER_PORT: u16 = 9000;

/// The window's state.
pub struct NodeWindow {
    pub local_ip: String,
    pub logs: Vec<String>,
    pub target_ip: String,
}

/// The log line for an error.
pub open spec fn error_line(s: Seq<char>) -> Seq<char> {
    "ERR: "@ + s
}

impl NodeWindow {
    /// The window as it opens.
    pub fn new() -> (w: Self)
        ensures
            w.local_ip@ == "Init..."@,
            w.logs@.len() == 0,
            w.target_ip@.len() == 0,
    {
        NodeWindow { local_ip: String::from_str("Init..."), logs: Vec::new(), target_ip: String::new() }
    }

    /// Takes an event: logs and errors are appended to the log, errors
    /// marked as such, and the node's own address is shown; the rest only
    /// asks for a repaint. Returns whether a repaint was asked for.
    pub fn apply_event(&mut self, ev: GuiEvent) -> (repaint: bool)
        ensures
            repaint == (ev is PeerFound),
            match ev {
                GuiEvent::Log(s) => strings_view(final(self).logs@) == strings_view(old(self).logs@).push(s@)
                    && final(self).local_ip == old(self).local_ip,
                GuiEvent::Error(s) => strings_view(final(self).logs@) == strings_view(old(self).logs@).push(
                    error_line(s@),
                ) && final(self).local_ip == old(self).local_ip,
                GuiEvent::SelfIpFound(ip) => final(self).local_ip == ip && final(self).logs == old(self).logs,
                _ => final(self).local_ip == old(self).local_ip && final(self).logs == old(self).logs,
            },
            final(self).target_ip == old(self).target_ip,
    {
        match ev {
            GuiEvent::Log(s) => {
                let ghost before = strings_view(self.logs@);
                let ghost v = s@;
                self.logs.push(s);
                assert(strings_view(self.logs@) =~= before.push(v));
                false
            },
            GuiEvent::Error(s) => {
                let ghost before = strings_view(self.logs@);
                let mut line = String::from_str("ERR: ");
                line.append(s.as_str());
                let ghost v = line@;
                self.logs.push(line);
                assert(strings_view(self.logs@) =~= before.push(v));
                false
            },
            GuiEvent::PeerFound(_) => true,
            GuiEvent::SelfIpFound(ip) => {
                self.local_ip = ip;
                false
            },
            _ => false,
        }
    }

    /// The connect button: connect to the typed address.
    pub fn connect_command(&self) -> (c: Command)
        ensures
            c matches Command::ConnectPeer { ip } && ip@ == self.target_ip@,
    {
        Command::ConnectPeer { ip: self.target_ip.clone() }
    }
}

/// The address a peer is connected on: `ip:9000`.
pub fn peer_address(ip: &str) -> (r: String)
    ensures
        r@ == ip@ + ":"@ + crate::text::decimal(PEER_PORT as nat),
{
    let mut r = String::from_str(ip);
    r.append(":");
    crate::text::push_decimal(&mut r, PEER_PORT as u64);
    r
}

} // verus!
