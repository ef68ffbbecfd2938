//! Project Zero: a small peer-to-peer node. This library holds its routing
//! table, discovery bookkeeping, chunked transfer and reassembly, command
//! planning, content addressing, the content node's deduplicating gossip,
//! page layout and the key handling around its ciphers, each with a
//! contract that Verus checks.

pub mod text;
pub mod digest;
pub mod peers;
pub mod node;
pub mod plan;
pub mod gui;
pub mod discovery;
pub mod safedoc;
pub mod storage;
pub mod crypto;
pub mod identity;
pub mod protocol;
pub mod service;
pub mod zeroui;

pub use node::{Command, GuiEvent, Packet};
