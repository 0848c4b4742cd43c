//! Pieces are downloaded chunk by chunk; this module plans the chunk
//! requests of a piece and checks and collects the chunks that come back.
use vstd::prelude::*;

use crate::peer::connection::Request;
use crate::PieceIndex;

verus! {

/// The only chunk size requested, except possibly for the last chunk of a
/// piece: 16 KiB.
pub const CHUNK_MAX: usize = 16384;

/// A chunk is a fixed size part of a piece.
#[derive(Debug)]
pub struct Chunk {
    /// The zero-based piece index.
    pub piece_index: PieceIndex,
    /// The zero-based byte offset within the piece.
    pub offset: u32,
    /// The data of the chunk, usually 2^14 bytes long.
    pub data: Vec<u8>,
}

/// A piece whose chunks have all been collected.
#[derive(Debug)]
pub struct PieceDownload {
    pub index: PieceIndex,
    /// All the chunks of the piece, in order.
    pub data: Vec<u8>,
}

/// The number of chunks of a piece of `size` bytes: `size / 16 KiB` rounded up.
pub open spec fn spec_chunk_count(size: nat) -> nat {
    ((size + CHUNK_MAX - 1) / (CHUNK_MAX as int)) as nat
}

/// The size of chunk `i` of a piece of `size` bytes: 16 KiB, except the last
/// chunk, which holds the rest.
pub open spec fn spec_chunk_size(size: nat, i: nat) -> nat {
    if i == spec_chunk_count(size) - 1 {
        let rest = size % (CHUNK_MAX as nat);
        if rest == 0 {
            CHUNK_MAX as nat
        } else {
            rest
        }
    } else {
        CHUNK_MAX as nat
    }
}

/// The total size of the first `n` chunks.
pub open spec fn chunks_total(size: nat, n: nat) -> nat
    decreases n,
{
    if n == 0 {
        0
    } else {
        chunks_total(size, (n - 1) as nat) + spec_chunk_size(size, (n - 1) as nat)
    }
}

/// Returns the number of chunks in a piece of the given length.
pub fn chunk_count(piece_size: usize) -> (n: usize)
    requires
        piece_size + CHUNK_MAX <= usize::MAX,
    ensures
        n == spec_chunk_count(piece_size as nat),
{
    (piece_size + CHUNK_MAX - 1) / CHUNK_MAX
}

/// The size of chunk `i` of a piece of `size` bytes.
pub fn chunk_size(size: usize, i: usize) -> (n: usize)
    requires
        size + CHUNK_MAX <= usize::MAX,
        i < spec_chunk_count(size as nat),
    ensures
        n == spec_chunk_size(size as nat, i as nat),
{
    if i == chunk_count(size) - 1 {
        let rest = size % CHUNK_MAX;
        if rest == 0 {
            CHUNK_MAX
        } else {
            rest
        }
    } else {
        CHUNK_MAX
    }
}

/// All chunks before the last are full.
proof fn lemma_chunks_total_full(size: nat, n: nat)
    requires
        n < spec_chunk_count(size),
    ensures
        chunks_total(size, n) == n * CHUNK_MAX,
    decreases n,
{
    if n > 0 {
        lemma_chunks_total_full(size, (n - 1) as nat);
        assert(n * CHUNK_MAX == (n - 1) * CHUNK_MAX + CHUNK_MAX) by (nonlinear_arith);
    }
}

/// The chunks of a piece cover it exactly: their sizes sum to the piece size.
pub proof fn lemma_chunks_cover_piece(size: nat)
    ensures
        chunks_total(size, spec_chunk_count(size)) == size,
{
    let c = spec_chunk_count(size);
    if c > 0 {
        lemma_chunks_total_full(size, (c - 1) as nat);
        let q = size / (CHUNK_MAX as nat);
        let r = size % (CHUNK_MAX as nat);
        assert(size == q * CHUNK_MAX + r) by (nonlinear_arith)
            requires
                q == size / (CHUNK_MAX as nat),
                r == size % (CHUNK_MAX as nat),
        ;
        if r == 0 {
            assert(c == q) by (nonlinear_arith)
                requires
                    c == (size + CHUNK_MAX - 1) / (CHUNK_MAX as int),
                    size == q * CHUNK_MAX,
            ;
        } else {
            assert(c == q + 1) by (nonlinear_arith)
                requires
                    c == (size + CHUNK_MAX - 1) / (CHUNK_MAX as int),
                    size == q * CHUNK_MAX + r,
                    0 < r < CHUNK_MAX,
            ;
        }
        assert(c * CHUNK_MAX == (c - 1) * CHUNK_MAX + CHUNK_MAX) by (nonlinear_arith);
    } else {
        assert(size == 0) by (nonlinear_arith)
            requires
                0 == (size + CHUNK_MAX - 1) / (CHUNK_MAX as int),
        ;
    }
}

/// Why a received chunk was refused.
#[derive(Debug, PartialEq, Eq, Structural)]
pub enum ChunkError {
    /// The chunk belongs to another piece.
    WrongPiece,
    /// The chunk starts at another offset than the one requested.
    WrongOffset,
    /// The chunk has another length than the one requested.
    WrongLength,
}

/// The download of one piece, chunk by chunk, from a single peer: it says
/// which chunk to request next and checks each chunk that comes back.
pub struct PieceRequests {
    index: PieceIndex,
    size: usize,
    next: usize,
    data: Vec<u8>,
}

impl PieceRequests {
    pub closed spec fn spec_index(&self) -> nat {
        self.index as nat
    }

    pub closed spec fn spec_size(&self) -> nat {
        self.size as nat
    }

    /// How many chunks have been received so far.
    pub closed spec fn spec_received(&self) -> nat {
        self.next as nat
    }

    /// The bytes collected so far.
    pub closed spec fn spec_data(&self) -> Seq<u8> {
        self.data@
    }

    pub closed spec fn wf(&self) -> bool {
        &&& self.size + CHUNK_MAX <= usize::MAX
        &&& self.next <= spec_chunk_count(self.size as nat)
        &&& self.data@.len() == chunks_total(self.size as nat, self.next as nat)
    }

    /// Whether every chunk of the piece has been received.
    pub open spec fn spec_done(&self) -> bool {
        self.spec_received() == spec_chunk_count(self.spec_size())
    }

    /// Starts the download of piece `index`, of `size` bytes.
    pub fn new(index: PieceIndex, size: usize) -> (s: Self)
        requires
            size + CHUNK_MAX <= usize::MAX,
        ensures
            s.wf(),
            s.spec_index() == index,
            s.spec_size() == size,
            s.spec_received() == 0,
            s.spec_data() == Seq::<u8>::empty(),
    {
        PieceRequests { index, size, next: 0, data: Vec::new() }
    }

    /// Whether every chunk has been received.
    pub fn is_done(&self) -> (b: bool)
        requires
            self.wf(),
        ensures
            b == self.spec_done(),
    {
        self.next == chunk_count(self.size)
    }

    /// The request for the next chunk: the piece index, the chunk's offset and
    /// its length, each written as a 4-byte integer.
    pub fn next_request(&self) -> (r: Request)
        requires
            self.wf(),
            !self.spec_done(),
        ensures
            r.index == self.spec_index() as u32,
            r.begin == (self.spec_received() * CHUNK_MAX) as u32,
            r.length == spec_chunk_size(self.spec_size(), self.spec_received()) as u32,
    {
        proof {
            assert(self.next * CHUNK_MAX <= self.size + CHUNK_MAX) by (nonlinear_arith)
                requires
                    self.next < (self.size + CHUNK_MAX - 1) / (CHUNK_MAX as int),
            ;
        }
        let length = chunk_size(self.size, self.next);
        Request {
            index: self.index as u32,
            begin: (self.next * CHUNK_MAX) as u32,
            length: length as u32,
        }
    }

    /// Checks a received chunk against the pending request and, if it
    /// matches, appends its data. The piece index is checked first, then the
    /// offset, then the length; a refused chunk changes nothing.
    pub fn receive(&mut self, chunk: Chunk) -> (r: Result<(), ChunkError>)
        requires
            old(self).wf(),
            !old(self).spec_done(),
        ensures
            final(self).wf(),
            final(self).spec_index() == old(self).spec_index(),
            final(self).spec_size() == old(self).spec_size(),
            chunk.piece_index != old(self).spec_index() ==> r == Err::<(), ChunkError>(
                ChunkError::WrongPiece,
            ),
            chunk.piece_index == old(self).spec_index() && chunk.offset != old(
                self,
            ).spec_received() * CHUNK_MAX ==> r == Err::<(), ChunkError>(ChunkError::WrongOffset),
            chunk.piece_index == old(self).spec_index() && chunk.offset == old(
                self,
            ).spec_received() * CHUNK_MAX && chunk.data@.len() != spec_chunk_size(
                old(self).spec_size(),
                old(self).spec_received(),
            ) ==> r == Err::<(), ChunkError>(ChunkError::WrongLength),
            chunk.piece_index == old(self).spec_index() && chunk.offset == old(self).spec_received()
                * CHUNK_MAX && chunk.data@.len() == spec_chunk_size(
                old(self).spec_size(),
                old(self).spec_received(),
            ) ==> r is Ok,
            r is Err ==> *final(self) == *old(self),
            r is Ok ==> {
                &&& final(self).spec_received() == old(self).spec_received() + 1
                &&& final(self).spec_data() == old(self).spec_data() + chunk.data@
            },
    {
        if chunk.piece_index != self.index {
            return Err(ChunkError::WrongPiece);
        }
        if chunk.offset as usize != self.next * CHUNK_MAX {
            return Err(ChunkError::WrongOffset);
        }
        let expected = chunk_size(self.size, self.next);
        if chunk.data.len() != expected {
            return Err(ChunkError::WrongLength);
        }
        let mut data = chunk.data;
        self.data.append(&mut data);
        self.next = self.next + 1;
        Ok(())
    }

    /// The completed piece. Its data is exactly `size` bytes long.
    pub fn finish(self) -> (d: PieceDownload)
        requires
            self.wf(),
            self.spec_done(),
        ensures
            d.index == self.spec_index(),
            d.data@ == self.spec_data(),
            d.data@.len() == self.spec_size(),
    {
        proof {
            lemma_chunks_cover_piece(self.size as nat);
        }
        PieceDownload { index: self.index, data: self.data }
    }
}

} // verus!
