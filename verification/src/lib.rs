//! A small BitTorrent client library: metainfo handling, the peer wire
//! protocol codec, piece bookkeeping and a bencode decoder, each with a
//! contract proved by Verus.
use vstd::prelude::*;

pub mod cmd;
pub mod download;
pub mod hashing;
pub mod metainfo;
pub mod packet;
pub mod peer;
pub mod piece_picker;
pub mod torrent;
pub mod tracker;

pub use download::{Chunk, PieceDownload};
pub use metainfo::Metainfo;
pub use peer::connection::Frame;
pub use piece_picker::PiecePicker;

verus! {

/// The application protocol string, "BitTorrent protocol".
pub const PROTOCOL: [u8; 19] = [
    66, 105, 116, 84, 111, 114, 114, 101, 110, 116, 32, 112, 114, 111, 116, 111, 99, 111, 108,
];

/// Hardcoded client id (the current user's `peer id`), "jordi123456789abcdef".
pub const CLIENT_ID: [u8; 20] = [
    106, 111, 114, 100, 105, 49, 50, 51, 52, 53, 54, 55, 56, 57, 97, 98, 99, 100, 101, 102,
];

/// The type of a piece's index.
pub type PieceIndex = usize;

/// The peer ID is an arbitrary 20 byte string.
pub type PeerId = [u8; 20];

/// A SHA-1 digest.
pub type Sha1Hash = [u8; 20];

/// Storage layout of a torrent: how its bytes split into pieces.
#[derive(Debug)]
pub struct Storage {
    total_size: usize,
    piece_count: usize,
    piece_size: usize,
    last_piece_size: usize,
    /// The download destination directory of the torrent.
    dest: String,
}

impl Storage {
    pub closed spec fn spec_total_size(&self) -> nat {
        self.total_size as nat
    }

    pub closed spec fn spec_piece_count(&self) -> nat {
        self.piece_count as nat
    }

    pub closed spec fn spec_piece_len(&self) -> nat {
        self.piece_size as nat
    }

    pub closed spec fn spec_last_piece_size(&self) -> nat {
        self.last_piece_size as nat
    }

    pub closed spec fn spec_dest(&self) -> Seq<char> {
        self.dest@
    }

    /// The layout invariant: the last piece takes what the others leave.
    pub open spec fn wf(&self) -> bool {
        &&& self.spec_piece_count() >= 1
        &&& self.spec_piece_len() * (self.spec_piece_count() - 1) + self.spec_last_piece_size()
            == self.spec_total_size()
    }

    /// The size of the piece at `index`, as a mathematical function of the layout.
    pub open spec fn spec_piece_size(&self, index: int) -> nat {
        if index == self.spec_piece_count() - 1 {
            self.spec_last_piece_size()
        } else {
            self.spec_piece_len()
        }
    }

    /// Extracts storage related information from the torrent metainfo.
    ///
    /// Every piece but the last has the metainfo's piece length; the last
    /// holds the rest of the total length.
    pub fn new(meta: &Metainfo, dest: String) -> (s: Self)
        requires
            meta.spec_pieces().len() >= 1,
            meta.spec_piece_len() * (meta.spec_pieces().len() - 1) <= meta.spec_len(),
        ensures
            s.wf(),
            s.spec_total_size() == meta.spec_len(),
            s.spec_piece_len() == meta.spec_piece_len(),
            s.spec_piece_count() == meta.spec_pieces().len(),
            s.spec_last_piece_size() == meta.spec_len() - meta.spec_piece_len() * (
            meta.spec_pieces().len() - 1),
            s.spec_dest() == dest@,
    {
        let total_size = meta.len();
        let piece_size = meta.piece_len();
        let piece_count = meta.pieces().len();
        assert(piece_size * (piece_count - 1) <= total_size);
        let last_piece_size = total_size - piece_size * (piece_count - 1);
        Storage { total_size, piece_count, piece_size, last_piece_size, dest }
    }

    /// The number of pieces.
    pub fn piece_count(&self) -> (n: usize)
        ensures
            n == self.spec_piece_count(),
    {
        self.piece_count
    }

    /// Returns the size of the piece at the given index.
    pub fn piece_size(&self, index: PieceIndex) -> (n: usize)
        requires
            index < self.spec_piece_count(),
        ensures
            n == self.spec_piece_size(index as int),
    {
        if index == self.piece_count - 1 {
            self.last_piece_size
        } else {
            self.piece_size
        }
    }
}

/// The sum of the sizes of the first `n` pieces of a layout.
pub open spec fn pieces_total(s: &Storage, n: nat) -> nat
    decreases n,
{
    if n == 0 {
        0
    } else {
        pieces_total(s, (n - 1) as nat) + s.spec_piece_size(n - 1)
    }
}

/// The pieces of a storage layout cover the torrent exactly: their sizes sum to
/// the total size.
pub proof fn lemma_pieces_cover_total(s: &Storage)
    requires
        s.wf(),
    ensures
        pieces_total(s, s.spec_piece_count()) == s.spec_total_size(),
{
    let c = s.spec_piece_count();
    lemma_pieces_total_prefix(s, (c - 1) as nat);
}

proof fn lemma_pieces_total_prefix(s: &Storage, n: nat)
    requires
        s.wf(),
        n <= s.spec_piece_count() - 1,
    ensures
        pieces_total(s, n) == s.spec_piece_len() * n,
    decreases n,
{
    if n > 0 {
        let m = (n - 1) as nat;
        lemma_pieces_total_prefix(s, m);
        assert(s.spec_piece_size(m as int) == s.spec_piece_len());
        assert(pieces_total(s, n) == pieces_total(s, m) + s.spec_piece_size(m as int));
        let l = s.spec_piece_len();
        assert(l * n == l * m + l) by (nonlinear_arith)
            requires
                m + 1 == n,
        ;
    } else {
        let l = s.spec_piece_len();
        assert(l * n == 0) by (nonlinear_arith)
            requires
                n == 0,
        ;
    }
}

} // verus!
