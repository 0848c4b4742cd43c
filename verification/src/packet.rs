//! The BitTorrent handshake packet.
use vstd::prelude::*;

use crate::{CLIENT_ID, PROTOCOL};

verus! {

/// The protocol string a handshake carries, "BitTorrent protocol".
pub const BITTORRENT_PROTOCOL: [u8; 19] = PROTOCOL;

/// This client's peer id.
pub const PEER_ID: [u8; 20] = CLIENT_ID;

/// The handshake: `pstrlen`, `pstr`, eight reserved bytes, the info hash and
/// the peer id, 68 bytes in all.
#[derive(Debug)]
pub struct HandshakePacket {
    pstrlen: u8,
    pstr: [u8; 19],
    reserved: [u8; 8],
    info_hash: [u8; 20],
    peer_id: [u8; 20],
}

/// Copies `N` bytes of `bytes` starting at `start` into an array.
fn copy_array<const N: usize>(bytes: &[u8], start: usize) -> (a: [u8; N])
    requires
        start + N <= bytes@.len(),
    ensures
        a@ == bytes@.subrange(start as int, start + N),
{
    let mut a = [0u8; N];
    let mut i: usize = 0;
    while i < N
        invariant
            start + N <= bytes@.len(),
            bytes@.len() == bytes.len(),
            i <= N,
            a@.len() == N,
            forall|j: int| 0 <= j < i ==> #[trigger] a@[j] == bytes@[start + j],
        decreases N - i,
    {
        a[i] = bytes[start + i];
        i = i + 1;
    }
    assert(a@ =~= bytes@.subrange(start as int, start + N));
    a
}

/// Appends the bytes of an array to a vector.
fn push_all<const N: usize>(out: &mut Vec<u8>, a: &[u8; N])
    ensures
        final(out)@ == old(out)@ + a@,
{
    let mut i: usize = 0;
    while i < N
        invariant
            i <= N,
            a@.len() == N,
            out@ == old(out)@ + a@.subrange(0, i as int),
        decreases N - i,
    {
        out.push(a[i]);
        i = i + 1;
        assert(a@.subrange(0, i as int) =~= a@.subrange(0, i - 1) + seq![a@[i - 1]]);
    }
    assert(a@.subrange(0, N as int) =~= a@);
}

impl HandshakePacket {
    pub closed spec fn spec_pstrlen(&self) -> u8 {
        self.pstrlen
    }

    pub closed spec fn spec_pstr(&self) -> Seq<u8> {
        self.pstr@
    }

    pub closed spec fn spec_reserved(&self) -> Seq<u8> {
        self.reserved@
    }

    pub closed spec fn spec_info_hash(&self) -> Seq<u8> {
        self.info_hash@
    }

    pub closed spec fn spec_peer_id(&self) -> Seq<u8> {
        self.peer_id@
    }

    /// The wire form: the fields in order, with no padding.
    pub open spec fn spec_bytes(&self) -> Seq<u8> {
        seq![self.spec_pstrlen()] + self.spec_pstr() + self.spec_reserved()
            + self.spec_info_hash() + self.spec_peer_id()
    }

    /// The size of the packet on the wire.
    pub fn size() -> (n: usize)
        ensures
            n == 68,
    {
        68
    }

    /// A handshake for the given info hash and peer id, with the BitTorrent
    /// protocol string and zeroed reserved bytes.
    pub fn new(info_hash: [u8; 20], peer_id: [u8; 20]) -> (p: Self)
        ensures
            p.spec_pstrlen() == 19,
            p.spec_pstr() == PROTOCOL@,
            p.spec_reserved() == Seq::new(8, |i: int| 0u8),
            p.spec_info_hash() == info_hash@,
            p.spec_peer_id() == peer_id@,
    {
        let p = HandshakePacket { pstrlen: 19, pstr: PROTOCOL, reserved: [0; 8], info_hash, peer_id };
        assert(p.reserved@ =~= Seq::new(8, |i: int| 0u8));
        p
    }

    /// The packet as the 68 bytes sent over the wire.
    pub fn as_bytes(&self) -> (v: Vec<u8>)
        ensures
            v@ == self.spec_bytes(),
            v@.len() == 68,
    {
        let mut v: Vec<u8> = Vec::new();
        v.push(self.pstrlen);
        push_all(&mut v, &self.pstr);
        push_all(&mut v, &self.reserved);
        push_all(&mut v, &self.info_hash);
        push_all(&mut v, &self.peer_id);
        assert(v@ =~= self.spec_bytes());
        v
    }

    /// Reads a packet from exactly 68 bytes; `None` for any other length.
    pub fn from_bytes(bytes: &[u8]) -> (r: Option<Self>)
        ensures
            bytes@.len() != 68 <==> r is None,
            r matches Some(p) ==> p.spec_bytes() == bytes@,
    {
        if bytes.len() != 68 {
            return None;
        }
        let p = HandshakePacket {
            pstrlen: bytes[0],
            pstr: copy_array(bytes, 1),
            reserved: copy_array(bytes, 20),
            info_hash: copy_array(bytes, 28),
            peer_id: copy_array(bytes, 48),
        };
        assert(p.spec_bytes() =~= bytes@);
        Some(p)
    }

    /// The info hash carried by the packet.
    pub fn info_hash(&self) -> (h: &[u8; 20])
        ensures
            h@ == self.spec_info_hash(),
    {
        &self.info_hash
    }

    /// The peer id carried by the packet.
    pub fn peer_id(&self) -> (id: &[u8; 20])
        ensures
            id@ == self.spec_peer_id(),
    {
        &self.peer_id
    }

    /// Whether the packet announces the BitTorrent protocol.
    pub fn is_valid_protocol(&self) -> (b: bool)
        ensures
            b == (self.spec_pstrlen() == 19 && self.spec_pstr() == PROTOCOL@),
    {
        if self.pstrlen != 19 {
            return false;
        }
        let mut i: usize = 0;
        while i < 19
            invariant
                i <= 19,
                self.pstr@.len() == 19,
                PROTOCOL@.len() == 19,
                forall|j: int| 0 <= j < i ==> self.pstr@[j] == PROTOCOL@[j],
            decreases 19 - i,
        {
            if self.pstr[i] != PROTOCOL[i] {
                return false;
            }
            i = i + 1;
        }
        assert(self.pstr@ =~= PROTOCOL@);
        true
    }
}

/// Reading a packet back from its wire form gives the same fields: two
/// packets with the same wire form agree on every field.
pub proof fn lemma_bytes_determine_packet(a: &HandshakePacket, b: &HandshakePacket)
    requires
        a.spec_bytes() == b.spec_bytes(),
    ensures
        a.spec_pstrlen() == b.spec_pstrlen(),
        a.spec_pstr() == b.spec_pstr(),
        a.spec_reserved() == b.spec_reserved(),
        a.spec_info_hash() == b.spec_info_hash(),
        a.spec_peer_id() == b.spec_peer_id(),
{
    let x = a.spec_bytes();
    let y = b.spec_bytes();
    assert(x[0] == y[0]);
    assert(a.spec_pstr() =~= x.subrange(1, 20));
    assert(b.spec_pstr() =~= y.subrange(1, 20));
    assert(a.spec_reserved() =~= x.subrange(20, 28));
    assert(b.spec_reserved() =~= y.subrange(20, 28));
    assert(a.spec_info_hash() =~= x.subrange(28, 48));
    assert(b.spec_info_hash() =~= y.subrange(28, 48));
    assert(a.spec_peer_id() =~= x.subrange(48, 68));
    assert(b.spec_peer_id() =~= y.subrange(48, 68));
}

/// The wire layout of a handshake: the protocol string's length at byte 0,
/// the protocol string at 1..20, the reserved bytes at 20..28, the info hash
/// at 28..48 and the peer id at 48..68.
pub proof fn lemma_handshake_layout(p: &HandshakePacket)
    ensures
        p.spec_bytes().len() == 68,
        p.spec_bytes()[0] == p.spec_pstrlen(),
        p.spec_bytes().subrange(1, 20) == p.spec_pstr(),
        p.spec_bytes().subrange(20, 28) == p.spec_reserved(),
        p.spec_bytes().subrange(28, 48) == p.spec_info_hash(),
        p.spec_bytes().subrange(48, 68) == p.spec_peer_id(),
{
    let x = p.spec_bytes();
    assert(x.subrange(1, 20) =~= p.spec_pstr());
    assert(x.subrange(20, 28) =~= p.spec_reserved());
    assert(x.subrange(28, 48) =~= p.spec_info_hash());
    assert(x.subrange(48, 68) =~= p.spec_peer_id());
}

/// A fresh handshake announces the protocol and carries the given hash and id.
pub proof fn lemma_new_is_valid(p: &HandshakePacket, info_hash: [u8; 20], peer_id: [u8; 20])
    requires
        p.spec_pstrlen() == 19,
        p.spec_pstr() == PROTOCOL@,
        p.spec_reserved() == Seq::new(8, |i: int| 0u8),
        p.spec_info_hash() == info_hash@,
        p.spec_peer_id() == peer_id@,
    ensures
        p.spec_bytes().len() == 68,
        p.spec_bytes().subrange(28, 48) == info_hash@,
        p.spec_bytes().subrange(48, 68) == peer_id@,
{
    assert(p.spec_bytes().subrange(28, 48) =~= info_hash@);
    assert(p.spec_bytes().subrange(48, 68) =~= peer_id@);
}

} // verus!
