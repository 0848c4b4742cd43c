//! The compact peer list: six bytes per peer, the IPv4 address then the
//! big-endian port.
use vstd::prelude::*;

verus! {

/// An IPv4 peer address.
#[derive(Debug, Clone, Copy)]
pub struct PeerAddr {
    pub ip: [u8; 4],
    pub port: u16,
}

/// Why a compact peer list was refused.
#[derive(Debug, Clone, Copy, PartialEq, Eq, Structural)]
pub enum PeersError {
    /// The length is not a multiple of 6; carries the length.
    InvalidLength(usize),
}

/// The peer whose six bytes start at `at`.
pub open spec fn peer_at(v: Seq<u8>, at: int) -> (Seq<u8>, int) {
    (v.subrange(at, at + 4), v[at + 4] * 256 + v[at + 5])
}

/// The layout of a compact peer: the four address bytes in order, then the
/// port, big-endian (high byte first).
pub proof fn lemma_peer_layout(v: Seq<u8>, at: int)
    requires
        0 <= at,
        at + 6 <= v.len(),
    ensures
        peer_at(v, at).0.len() == 4,
        forall|k: int| 0 <= k < 4 ==> #[trigger] peer_at(v, at).0[k] == v[at + k],
        peer_at(v, at).1 == 256 * v[at + 4] + v[at + 5],
{
}

/// Reads a compact peer list; refused unless its length is a multiple of 6.
pub fn deserialize(v: &[u8]) -> (r: Result<Vec<PeerAddr>, PeersError>)
    ensures
        v@.len() % 6 != 0 <==> r == Err::<Vec<PeerAddr>, PeersError>(
            PeersError::InvalidLength(v@.len() as usize),
        ),
        r is Ok <==> v@.len() % 6 == 0,
        r matches Ok(peers) ==> {
            &&& 6 * peers@.len() == v@.len()
            &&& forall|i: int|
                0 <= i < peers@.len() ==> peer_at(v@, 6 * i) == (
                    #[trigger] peers@[i].ip@,
                    peers@[i].port as int,
                )
        },
{
    if v.len() % 6 != 0 {
        return Err(PeersError::InvalidLength(v.len()));
    }
    let n = v.len() / 6;
    let mut peers: Vec<PeerAddr> = Vec::new();
    let mut i: usize = 0;
    while i < n
        invariant
            n == v@.len() / 6,
            v@.len() % 6 == 0,
            v@.len() == v.len(),
            i <= n,
            peers@.len() == i,
            forall|k: int|
                0 <= k < i ==> peer_at(v@, 6 * k) == (#[trigger] peers@[k].ip@, peers@[k].port as int),
        decreases n - i,
    {
        proof {
            assert(6 * i + 6 <= v@.len()) by (nonlinear_arith)
                requires
                    i < n,
                    n == v@.len() / 6,
                    v@.len() % 6 == 0,
            ;
        }
        let at = 6 * i;
        let ip = [v[at], v[at + 1], v[at + 2], v[at + 3]];
        let port = (v[at + 4] as u16) * 256 + v[at + 5] as u16;
        assert(ip@ =~= v@.subrange(at as int, at + 4));
        peers.push(PeerAddr { ip, port });
        i = i + 1;
    }
    proof {
        assert(v@.len() == 6 * n) by (nonlinear_arith)
            requires
                n == v@.len() / 6,
                v@.len() % 6 == 0,
        ;
    }
    Ok(peers)
}

} // verus!
