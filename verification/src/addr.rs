//! Where a peer can be reached.

use vstd::prelude::*;

verus! {

/// An IP address and a port.
#[derive(Copy, Clone, Debug, PartialEq, Eq, Hash, Structural)]
pub enum SocketAddr {
    /// An IPv4 address, as the number that its four bytes spell.
    V4 { ipv4: u32, port: u16 },
    /// An IPv6 address, as the number that its sixteen bytes spell.
    V6 { ipv6: u128, port: u16, flowinfo: u32, scope_id: u32 },
}

} // verus!
