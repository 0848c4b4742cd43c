//! The torrent's decisions: which piece to download next with its size, what
//! to do with a completed piece, and how many peers to connect to.
use vstd::prelude::*;

use crate::download::PieceDownload;
use crate::hashing::{piece_hash_matches, sha1_digest};
use crate::piece_picker::{self, after_pick, all_complete, first_missing, PieceState};
use crate::{Metainfo, PieceIndex, Storage};

verus! {

/// The piece picker of a torrent: the piece states together with the
/// storage layout that gives each piece its size.
pub struct PiecePicker {
    picker: piece_picker::PiecePicker,
    storage: Storage,
}

impl PiecePicker {
    /// The state of each piece, by index.
    pub closed spec fn states(&self) -> Seq<PieceState> {
        self.picker.states()
    }

    /// The storage layout.
    pub closed spec fn spec_storage(&self) -> &Storage {
        &self.storage
    }

    pub closed spec fn wf(&self) -> bool {
        &&& self.storage.wf()
        &&& self.picker.states().len() == self.storage.spec_piece_count()
    }

    /// A picker with every piece of the layout missing.
    pub fn new(storage: Storage) -> (p: Self)
        requires
            storage.wf(),
        ensures
            p.wf(),
            p.spec_storage() == &storage,
            p.states().len() == storage.spec_piece_count(),
            forall|i: int| 0 <= i < p.states().len() ==> p.states()[i] == PieceState::Missing,
    {
        let picker = piece_picker::PiecePicker::new(storage.piece_count());
        PiecePicker { picker, storage }
    }

    /// Picks the first missing piece, marks it as being downloaded and
    /// returns its index with its size; `None` if no piece is missing.
    pub fn pick(&mut self) -> (r: Option<(PieceIndex, usize)>)
        requires
            old(self).wf(),
        ensures
            final(self).wf(),
            final(self).spec_storage() == old(self).spec_storage(),
            final(self).states() == after_pick(old(self).states()),
            match first_missing(old(self).states()) {
                Some(i) => r == Some(
                    (i as usize, old(self).spec_storage().spec_piece_size(i) as usize),
                ),
                None => r is None,
            },
    {
        proof {
            piece_picker::lemma_first_missing(self.picker.states());
        }
        match self.picker.pick() {
            Some(index) => Some((index, self.storage.piece_size(index))),
            None => None,
        }
    }

    /// Marks a piece as complete; returns whether every piece is now complete.
    pub fn mark_complete(&mut self, index: PieceIndex) -> (done: bool)
        requires
            old(self).wf(),
            index < old(self).states().len(),
        ensures
            final(self).wf(),
            final(self).spec_storage() == old(self).spec_storage(),
            final(self).states() == old(self).states().update(index as int, PieceState::Complete),
            done == all_complete(final(self).states()),
    {
        self.picker.mark_complete(index)
    }

    /// Puts a piece back among the missing ones.
    pub fn mark_missing(&mut self, index: PieceIndex)
        requires
            old(self).wf(),
            index < old(self).states().len(),
        ensures
            final(self).wf(),
            final(self).spec_storage() == old(self).spec_storage(),
            final(self).states() == old(self).states().update(index as int, PieceState::Missing),
    {
        self.picker.mark_missing(index)
    }
}

/// The torrent configuration.
pub struct Conf {
    /// The maximum number of connected peers.
    pub max_connections: usize,
}

impl Default for Conf {
    /// At most 50 connected peers.
    fn default() -> (c: Self)
        ensures
            c.max_connections == 50,
    {
        Conf { max_connections: 50 }
    }
}

/// What to do with a piece whose chunks have all arrived.
#[derive(Debug, PartialEq, Eq, Structural)]
pub enum Completion {
    /// The piece does not match its hash; it was put back among the missing.
    Invalid,
    /// The piece matches its hash and is to be written.
    Valid,
}

/// Checks a downloaded piece against its hash in the metainfo. A piece that
/// does not match is marked missing again so that it is downloaded anew.
pub fn check_completion(picker: &mut PiecePicker, meta: &Metainfo, download: &PieceDownload) -> (c:
    Completion)
    requires
        old(picker).wf(),
        download.index < meta.spec_pieces().len(),
        download.index < old(picker).states().len(),
    ensures
        final(picker).wf(),
        final(picker).spec_storage() == old(picker).spec_storage(),
        if sha1_digest(download.data@) == meta.spec_pieces()[download.index as int]@ {
            &&& c == Completion::Valid
            &&& final(picker).states() == old(picker).states()
        } else {
            &&& c == Completion::Invalid
            &&& final(picker).states() == old(picker).states().update(
                download.index as int,
                PieceState::Missing,
            )
        },
{
    let expected = &meta.pieces()[download.index];
    if !piece_hash_matches(download.data.as_slice(), expected) {
        picker.mark_missing(download.index);
        return Completion::Invalid;
    }
    Completion::Valid
}

/// The byte offset of a piece in the file: its index times the piece length.
pub fn piece_offset(index: PieceIndex, piece_len: usize) -> (offset: u64)
    requires
        index * piece_len <= usize::MAX,
    ensures
        offset == index * piece_len,
{
    proof {
        assert(index * piece_len <= u64::MAX) by (nonlinear_arith)
            requires
                index * piece_len <= usize::MAX,
        ;
    }
    (index * piece_len) as u64
}

/// How many peers the torrent may still connect to: the available ones, up
/// to the free connection slots.
pub fn connection_budget(available: usize, max_connections: usize, connected: usize) -> (n: usize)
    requires
        connected <= max_connections,
    ensures
        n == if available < max_connections - connected {
            available
        } else {
            (max_connections - connected) as usize
        },
{
    let free = max_connections - connected;
    if available < free {
        available
    } else {
        free
    }
}

} // verus!
