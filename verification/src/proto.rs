//! The questions that peers can ask, each with its answers.

use vstd::prelude::*;

use crate::addr::SocketAddr;
use crate::types::{Contact, PeerId};

verus! {

pub enum PingRequest {
    Ping { id: PeerId },
}

pub enum PingResponse {
    Pong { id: PeerId },
}

pub enum FindPeerRequest {
    FindPeer { id: PeerId },
}

pub enum FindPeerResponse {
    /// We know the peer, here it is.
    PeerFound { id: PeerId, addr: SocketAddr },
    /// We don't know the peer, will send the closest ones we know.
    PeerNotFound { id: PeerId, neighbors: Vec<Contact> },
}

/// What is said to somebody who asks for a value.
pub enum FindValueResponse {
    /// We have it, here it is.
    ValueFound {},
    /// We don't have it, here are peers who might.
    ValueNotFound { neighbors: Vec<Contact> },
}

/// We have this value.
pub enum ValueAnnounce {
    Value,
}

} // verus!
