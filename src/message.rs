//! The protocol spoken between peers, and the effects a peer asks its driver to perform.
use crate::id::Id;
use vstd::prelude::*;

verus! {

/// How one peer addresses another: its identifier and a handle to its inbound
/// queue. The handle is opaque to the protocol; the transport resolves it.
#[derive(Clone, Copy, Debug)]
pub struct PeerInfo {
    pub id: Id,
    pub handle: u64,
}

/// The payload of a message. Every variant but `Stop` carries a message id.
#[derive(Clone, Debug)]
pub enum MessageData {
    Ping { id: u64, time: u64 },
    Pong { id: u64, time: u64 },
    Find { id: u64, hash: Id },
    FoundPeers { id: u64, peers: Vec<PeerInfo> },
    FoundData { id: u64, data: Vec<u8>, propagate: bool },
    Stop,
}

/// A message with its sender, so that the receiver can reply and observe it.
#[derive(Clone, Debug)]
pub struct Message {
    pub from: PeerInfo,
    pub contents: MessageData,
}

/// Something a peer asks the code that drives it to do.
#[derive(Clone, Debug)]
pub enum Action {
    /// Put `msg` on the inbound queue of `to`.
    Send { to: PeerInfo, msg: Message },
    /// Hand the outcome of a lookup to the waiter registered under `reply`.
    Deliver { reply: u64, result: Option<(Id, Vec<u8>)> },
    /// Close this peer's own inbound queue.
    Stop,
}

} // verus!
