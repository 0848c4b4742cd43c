//! The metainfo (`.torrent`) file model.
use vstd::prelude::*;

use crate::hashing::{hex_digit, hex_encode, hex_lower, sha1, sha1_digest};
use crate::Sha1Hash;

pub mod pieces;

verus! {

/// A Metainfo file (also known as .torrent files).
pub struct Metainfo {
    /// The URL of the tracker.
    pub announce: String,
    pub info: Info,
}

/// The `info` dictionary of a metainfo file.
pub struct Info {
    /// The suggested name to save the file (or directory) as.
    pub name: String,
    /// The number of bytes in each piece the file is split into.
    pub piece_len: usize,
    /// The SHA-1 hash of each piece, in piece order.
    pub pieces: Vec<Sha1Hash>,
    /// In the single file case, the length of the file in bytes.
    pub len: usize,
    /// The files of a multi-file torrent.
    pub files: Option<Vec<File>>,
    pub creation_date: Option<usize>,
    pub comment: Option<String>,
    pub created_by: Option<String>,
    /// A cached info hash; never part of the encoded dictionary.
    pub hash: Option<Sha1Hash>,
}

/// A file of a multi-file torrent.
pub struct File {
    /// The length of the file, in bytes.
    pub length: usize,
    /// Subdirectory names for this file, the last of which is the file name.
    pub path: Vec<String>,
}

/// `%` followed by the two lowercase hex digits of each byte.
pub open spec fn percent_hex(s: Seq<u8>) -> Seq<char>
    decreases s.len(),
{
    if s.len() == 0 {
        Seq::empty()
    } else {
        seq!['%', hex_digit(s[0] / 16), hex_digit(s[0] % 16)] + percent_hex(s.drop_first())
    }
}

/// Each byte becomes `%` and then the two characters `hex::encode` gives for
/// it: three characters per byte, the `%` first.
pub proof fn lemma_percent_hex_layout(s: Seq<u8>)
    ensures
        percent_hex(s).len() == 3 * s.len(),
        hex_lower(s).len() == 2 * s.len(),
        forall|i: int|
            0 <= i < s.len() ==> {
                &&& #[trigger] percent_hex(s)[3 * i] == '%'
                &&& percent_hex(s)[3 * i + 1] == hex_lower(s)[2 * i]
                &&& percent_hex(s)[3 * i + 2] == hex_lower(s)[2 * i + 1]
            },
    decreases s.len(),
{
    if s.len() > 0 {
        let t = s.drop_first();
        lemma_percent_hex_layout(t);
        assert forall|i: int| 0 <= i < s.len() implies {
            &&& #[trigger] percent_hex(s)[3 * i] == '%'
            &&& percent_hex(s)[3 * i + 1] == hex_lower(s)[2 * i]
            &&& percent_hex(s)[3 * i + 2] == hex_lower(s)[2 * i + 1]
        } by {
            if i > 0 {
                assert(t[i - 1] == s[i]);
                assert(percent_hex(s)[3 * i] == percent_hex(t)[3 * (i - 1)]);
                assert(percent_hex(s)[3 * i + 1] == percent_hex(t)[3 * (i - 1) + 1]);
                assert(percent_hex(s)[3 * i + 2] == percent_hex(t)[3 * (i - 1) + 2]);
                assert(hex_lower(s)[2 * i] == hex_lower(t)[2 * (i - 1)]);
                assert(hex_lower(s)[2 * i + 1] == hex_lower(t)[2 * (i - 1) + 1]);
            }
        }
    }
}

impl Info {
    /// The info hash: the cached hash if there is one, otherwise the SHA-1
    /// digest of `encoded`, the bencoding of this info dictionary.
    pub fn hash(&self, encoded: &[u8]) -> (h: Sha1Hash)
        ensures
            match self.hash {
                Some(cached) => h == cached,
                None => h@ == sha1_digest(encoded@),
            },
    {
        match self.hash {
            Some(cached) => cached,
            None => sha1(encoded),
        }
    }

    /// The info hash percent-encoded for a tracker query: `%xx` per byte.
    pub fn urlencode(&self, encoded: &[u8]) -> (s: String)
        ensures
            s@ == percent_hex(
                match self.hash {
                    Some(cached) => cached@,
                    None => sha1_digest(encoded@),
                },
            ),
    {
        let h = self.hash(encoded);
        let mut out = String::new();
        let mut i: usize = 0;
        assert(h@.skip(0) =~= h@);
        while i < 20
            invariant
                i <= 20,
                h@.len() == 20,
                percent_hex(h@) == out@ + percent_hex(h@.skip(i as int)),
            decreases 20 - i,
        {
            let one = [h[i]];
            let digits = hex_encode(one.as_slice());
            proof {
                reveal_strlit("%");
                assert(one@ =~= seq![h@[i as int]]);
                assert(one@.drop_first() =~= Seq::<u8>::empty());
                assert(hex_lower(Seq::<u8>::empty()) =~= Seq::<char>::empty());
                assert(hex_lower(one@) == seq![hex_digit(one@[0] / 16), hex_digit(one@[0] % 16)]
                    + hex_lower(one@.drop_first()));
                assert(hex_lower(one@) =~= seq![hex_digit(h@[i as int] / 16), hex_digit(h@[i as int] % 16)]);
                assert(h@.skip(i as int).drop_first() =~= h@.skip(i + 1));
            }
            out.append("%");
            out.append(digits.as_str());
            i = i + 1;
        }
        proof {
            assert(h@.skip(20) =~= Seq::<u8>::empty());
        }
        out
    }
}

impl Metainfo {
    pub open spec fn spec_pieces(&self) -> Seq<Sha1Hash> {
        self.info.pieces@
    }

    pub open spec fn spec_len(&self) -> nat {
        self.info.len as nat
    }

    pub open spec fn spec_piece_len(&self) -> nat {
        self.info.piece_len as nat
    }

    /// The piece hashes.
    pub fn pieces(&self) -> (p: &[Sha1Hash])
        ensures
            p@ == self.spec_pieces(),
    {
        self.info.pieces.as_slice()
    }

    /// The total length of the torrent.
    pub fn len(&self) -> (n: usize)
        ensures
            n == self.spec_len(),
    {
        self.info.len
    }

    /// The length of each piece but possibly the last.
    pub fn piece_len(&self) -> (n: usize)
        ensures
            n == self.spec_piece_len(),
    {
        self.info.piece_len
    }
}

} // verus!
