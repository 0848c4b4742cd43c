//! The tracker query and the peers of its response.
use vstd::prelude::*;

pub mod peers;

use peers::PeerAddr;

verus! {

/// The parameters of a tracker announce, except the info hash.
pub struct Query {
    /// A unique identifier for this client.
    pub peer_id: String,
    /// The port this peer is listening on.
    pub port: u16,
    /// The total amount uploaded so far.
    pub uploaded: usize,
    /// The total amount downloaded so far.
    pub downloaded: usize,
    /// The number of bytes left to download.
    pub left: usize,
    /// Whether the peer list should use the compact representation.
    pub compact: u8,
}

impl Query {
    /// A query from a fresh client: port 6881, nothing transferred yet,
    /// `left` bytes left, compact peer list.
    pub fn new(peer_id: String, left: usize) -> (q: Self)
        ensures
            q.peer_id@ == peer_id@,
            q.port == 6881,
            q.uploaded == 0,
            q.downloaded == 0,
            q.left == left,
            q.compact == 1,
    {
        Query { peer_id, port: 6881, uploaded: 0, downloaded: 0, left, compact: 1 }
    }
}

/// The tracker's answer.
pub struct Response {
    /// How often the client should announce again, in seconds.
    pub interval: usize,
    /// The peers the client can connect to.
    pub peers: Vec<PeerAddr>,
}

} // verus!
