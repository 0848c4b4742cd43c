//! The `download_piece` command: download one piece of a torrent.
use vstd::prelude::*;

use std::path::PathBuf;

use crate::{Metainfo, Storage};

verus! {

/// Download one piece of a torrent.
pub struct DownloadPiece {
    /// The metainfo file.
    pub path: PathBuf,
    /// Where to write the piece.
    pub output: PathBuf,
    /// The index of the piece.
    pub piece: usize,
}

/// The size of piece `piece` of a torrent: the piece length, except for the
/// last piece, which holds the rest of the total length, or a whole piece
/// when the total length is a multiple of the piece length.
pub open spec fn spec_target_size(meta: &Metainfo, piece: int) -> nat {
    if piece == meta.spec_pieces().len() - 1 {
        let rest = meta.spec_len() % meta.spec_piece_len();
        if rest == 0 {
            meta.spec_piece_len()
        } else {
            rest
        }
    } else {
        meta.spec_piece_len()
    }
}

impl DownloadPiece {
    /// The size of the requested piece; `None` when the torrent has no piece
    /// with that index.
    pub fn target_size(&self, meta: &Metainfo) -> (n: Option<usize>)
        requires
            self.piece == meta.spec_pieces().len() - 1 ==> meta.spec_piece_len() > 0,
        ensures
            self.piece >= meta.spec_pieces().len() <==> n is None,
            n matches Some(size) ==> size == spec_target_size(meta, self.piece as int),
    {
        let pieces = meta.pieces();
        if self.piece >= pieces.len() {
            return None;
        }
        if self.piece == pieces.len() - 1 {
            let rest = meta.len() % meta.piece_len();
            if rest == 0 {
                Some(meta.piece_len())
            } else {
                Some(rest)
            }
        } else {
            Some(meta.piece_len())
        }
    }
}

/// The two ways to size a piece agree: when the torrent has as many pieces as
/// its length needs, the size computed here equals the size in the storage
/// layout built from the same metainfo.
pub proof fn lemma_target_size_matches_storage(meta: &Metainfo, storage: &Storage, i: int)
    requires
        storage.wf(),
        storage.spec_total_size() == meta.spec_len(),
        storage.spec_piece_len() == meta.spec_piece_len(),
        storage.spec_piece_count() == meta.spec_pieces().len(),
        meta.spec_piece_len() > 0,
        meta.spec_pieces().len() == (meta.spec_len() + meta.spec_piece_len() - 1) / (
        meta.spec_piece_len() as int),
        0 <= i < meta.spec_pieces().len(),
    ensures
        spec_target_size(meta, i) == storage.spec_piece_size(i),
{
    let len = meta.spec_len();
    let pl = meta.spec_piece_len();
    let c = meta.spec_pieces().len();
    if i == c - 1 {
        let q = len / pl;
        let r = len % pl;
        assert(len == q * pl + r) by (nonlinear_arith)
            requires
                pl > 0,
                q == len / pl,
                r == len % pl,
        ;
        if r == 0 {
            assert(c == q) by (nonlinear_arith)
                requires
                    pl > 0,
                    c == (len + pl - 1) / (pl as int),
                    len == q * pl,
            ;
            assert(pl * (c - 1) + pl == pl * c) by (nonlinear_arith);
            assert(pl * c == q * pl) by (nonlinear_arith)
                requires
                    c == q,
            ;
        } else {
            assert(c == q + 1) by (nonlinear_arith)
                requires
                    pl > 0,
                    c == (len + pl - 1) / (pl as int),
                    len == q * pl + r,
                    0 < r < pl,
            ;
            assert(pl * (c - 1) == q * pl) by (nonlinear_arith)
                requires
                    c == q + 1,
            ;
        }
    }
}

} // verus!
