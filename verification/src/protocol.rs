//! The beacon protocol's messages: packets between nodes, events for the
//! window, and the window's commands.

use vstd::prelude::*;

verus! {

/// A packet between nodes.
pub enum Packet {
    /// Discovery beacon, broadcast every second: who we are and where we listen.
    Beacon { id: String, listen_port: u16 },
    /// Reply to a beacon.
    Hello { id: String },
    /// One chunk of a transfer.
    Chunk { file_hash: String, index: u32, total: u32, data: Vec<u8> },
}

/// What the node reports to the window.
pub enum GuiEvent {
    Log(String),
    BindSuccess { port: u16 },
    PeerDiscovered { ip: String, id: String },
    AssetReady { data: Vec<u8> },
}

/// What the window asks of the node.
pub enum Command {
    SendTo { ip: String, port: String, path: String },
    /// Broadcast one beacon now (normally driven by a timer).
    BroadcastBeacon,
}

} // verus!
