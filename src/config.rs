use vstd::prelude::*;

use crate::addr::Ipv4;

verus! {

/// The UDP port that announcements are sent to and received on.
pub const MULTICAST_PORT: u16 = 9999;

/// Time between two announcements, in milliseconds.
pub const ANNOUNCE_INTERVAL_MS: u64 = 2000;

/// How long a peer stays recorded without a fresh announcement, in
/// milliseconds.
pub const PEER_TIMEOUT_MS: u64 = 2000;

/// Time between two sweeps for stale peers, in milliseconds.
pub const SWEEP_INTERVAL_MS: u64 = 3000;

/// Hop limit of outgoing multicast datagrams: they never leave the link.
pub const MULTICAST_TTL: u32 = 1;

/// Size of the receive buffer; a longer datagram does not decode.
pub const RECV_BUFFER_LEN: usize = 4096;

/// The multicast group that participants announce themselves to,
/// 239.255.255.250.
pub fn multicast_group() -> (r: Ipv4)
    ensures
        r == (Ipv4 { a: 239, b: 255, c: 255, d: 250 }),
{
    Ipv4 { a: 239, b: 255, c: 255, d: 250 }
}

} // verus!
