//! A generic frame: its length, its kind and an optional payload.
use vstd::prelude::*;

verus! {

/// The kind of a message, by its id byte.
#[derive(Debug, PartialEq, Eq, Copy, Clone, Structural)]
pub enum Kind {
    Choke,
    Unchoke,
    Interested,
    NotInterested,
    Have,
    Bitfield,
    Request,
    Piece,
    Cancel,
}

/// The kind with id `n`, for `n` in `0..=8`.
pub open spec fn spec_kind(n: u8) -> Kind {
    if n == 0 {
        Kind::Choke
    } else if n == 1 {
        Kind::Unchoke
    } else if n == 2 {
        Kind::Interested
    } else if n == 3 {
        Kind::NotInterested
    } else if n == 4 {
        Kind::Have
    } else if n == 5 {
        Kind::Bitfield
    } else if n == 6 {
        Kind::Request
    } else if n == 7 {
        Kind::Piece
    } else {
        Kind::Cancel
    }
}

impl Kind {
    /// The kind with the given id; ids above 8 are left out.
    pub fn from(value: u8) -> (k: Kind)
        requires
            value <= 8,
        ensures
            k == spec_kind(value),
    {
        match value {
            0 => Kind::Choke,
            1 => Kind::Unchoke,
            2 => Kind::Interested,
            3 => Kind::NotInterested,
            4 => Kind::Have,
            5 => Kind::Bitfield,
            6 => Kind::Request,
            7 => Kind::Piece,
            _ => Kind::Cancel,
        }
    }
}

/// Distinct ids give distinct kinds.
pub proof fn lemma_kind_injective(a: u8, b: u8)
    requires
        a <= 8,
        b <= 8,
        spec_kind(a) == spec_kind(b),
    ensures
        a == b,
{
}

/// A message: its length, its kind and its payload, if any.
#[derive(Debug)]
pub struct Frame {
    len: u32,
    kind: Kind,
    payload: Option<Vec<u8>>,
}

impl Frame {
    pub closed spec fn spec_len(&self) -> u32 {
        self.len
    }

    pub closed spec fn spec_kind(&self) -> Kind {
        self.kind
    }

    pub closed spec fn spec_payload(&self) -> Option<Seq<u8>> {
        match self.payload {
            Some(p) => Some(p@),
            None => None,
        }
    }

    /// A frame with the given length, kind and payload.
    pub fn new(len: u32, kind: Kind, payload: Option<Vec<u8>>) -> (f: Self)
        ensures
            f.spec_len() == len,
            f.spec_kind() == kind,
            f.spec_payload() == match payload {
                Some(p) => Some(p@),
                None => None::<Seq<u8>>,
            },
    {
        Frame { len, kind, payload }
    }

    /// A frame whose length counts the kind byte and the payload: one plus
    /// the payload length taken as a 32-bit integer.
    pub fn with(kind: Kind, payload: Option<Vec<u8>>) -> (f: Self)
        requires
            payload matches Some(p) ==> (p@.len() as u32) < u32::MAX,
        ensures
            f.spec_len() == 1 + match payload {
                Some(p) => p@.len() as u32,
                None => 0u32,
            },
            f.spec_kind() == kind,
            f.spec_payload() == match payload {
                Some(p) => Some(p@),
                None => None::<Seq<u8>>,
            },
    {
        let plen: u32 = match &payload {
            Some(p) => p.len() as u32,
            None => 0,
        };
        Frame { len: 1 + plen, kind, payload }
    }

    /// The length of the frame.
    pub fn len(&self) -> (n: u32)
        ensures
            n == self.spec_len(),
    {
        self.len
    }

    /// The kind of the frame.
    pub fn kind(&self) -> (k: Kind)
        ensures
            k == self.spec_kind(),
    {
        self.kind
    }

    /// The payload of the frame, if any.
    pub fn payload(&self) -> (p: Option<&[u8]>)
        ensures
            match p {
                Some(s) => self.spec_payload() == Some(s@),
                None => self.spec_payload() is None,
            },
    {
        match &self.payload {
            Some(p) => Some(p.as_slice()),
            None => None,
        }
    }
}

} // verus!
