//! Frames of the peer wire protocol and their encoding as length-prefixed
//! messages.
use vstd::prelude::*;

use crate::download::Chunk;

verus! {

/// A request for a chunk of a piece.
#[derive(Debug, Clone, Copy, PartialEq, Eq, Structural)]
pub struct Request {
    /// The zero-based piece index.
    pub index: u32,
    /// The zero-based byte offset within the piece.
    pub begin: u32,
    /// The length of the chunk requested.
    pub length: u32,
}

/// A message of the peer wire protocol, other than the handshake.
#[derive(Debug)]
pub enum Frame {
    Choke,
    Unchoke,
    Interested,
    NotInterested,
    /// The index of a piece the sender has just completed.
    Have(u32),
    /// The pieces the sender has, one bit per piece, high bit first.
    Bitfield(Vec<u8>),
    /// Request a piece chunk.
    Request(Request),
    /// A chunk of a piece.
    Piece(Chunk),
    Cancel(Request),
}

/// A frame as a mathematical value.
pub enum SpecFrame {
    Choke,
    Unchoke,
    Interested,
    NotInterested,
    Have(u32),
    Bitfield(Seq<u8>),
    Request(Request),
    Piece { piece_index: usize, offset: u32, data: Seq<u8> },
    Cancel(Request),
}

impl View for Frame {
    type V = SpecFrame;

    open spec fn view(&self) -> SpecFrame {
        match self {
            Frame::Choke => SpecFrame::Choke,
            Frame::Unchoke => SpecFrame::Unchoke,
            Frame::Interested => SpecFrame::Interested,
            Frame::NotInterested => SpecFrame::NotInterested,
            Frame::Have(i) => SpecFrame::Have(*i),
            Frame::Bitfield(b) => SpecFrame::Bitfield(b@),
            Frame::Request(r) => SpecFrame::Request(*r),
            Frame::Piece(c) => SpecFrame::Piece {
                piece_index: c.piece_index,
                offset: c.offset,
                data: c.data@,
            },
            Frame::Cancel(r) => SpecFrame::Cancel(*r),
        }
    }
}

/// Protocol errors found while reading frames.
#[derive(Debug, Clone, Copy, PartialEq, Eq, Structural)]
pub enum Error {
    /// The peer closed the connection in the middle of a frame.
    ConnectionReset,
    /// A frame announced a length above the maximum; carries the length.
    Overflow(usize),
    /// A frame of an unknown kind; carries the kind byte.
    UnknownKind(u8),
    /// A frame whose length is too short for its kind; carries the kind byte.
    TooShort(u8),
}

/// At any given time, a connection with a peer is in one of these states.
#[derive(Debug, Clone, Copy, PartialEq, Eq, Structural)]
pub enum State {
    /// Not connected yet, or stopped.
    Disconnected,
    /// The TCP connection is being established.
    Connecting,
    /// The BitTorrent handshake is being exchanged.
    Handshaking,
    /// The normal state, in which any message but the handshake may be exchanged.
    Connected,
}

impl Default for State {
    /// The initial state is `Disconnected`.
    fn default() -> (s: Self)
        ensures
            s == State::Disconnected,
    {
        State::Disconnected
    }
}

/// The largest frame length accepted: 64 KiB.
pub const FRAME_MAX: usize = 65536;

/// The big-endian integer in bytes `at..at + 4`.
pub open spec fn be_u32(s: Seq<u8>, at: int) -> int {
    s[at] * 16777216 + s[at + 1] * 65536 + s[at + 2] * 256 + s[at + 3]
}

/// The four big-endian bytes of `x`.
pub open spec fn u32_be(x: u32) -> Seq<u8> {
    seq![
        (x / 16777216) as u8,
        ((x / 65536) % 256) as u8,
        ((x / 256) % 256) as u8,
        (x % 256) as u8,
    ]
}

/// The message id of a frame kind.
pub open spec fn spec_id(f: SpecFrame) -> u8 {
    match f {
        SpecFrame::Choke => 0,
        SpecFrame::Unchoke => 1,
        SpecFrame::Interested => 2,
        SpecFrame::NotInterested => 3,
        SpecFrame::Have(_) => 4,
        SpecFrame::Bitfield(_) => 5,
        SpecFrame::Request(_) => 6,
        SpecFrame::Piece { .. } => 7,
        SpecFrame::Cancel(_) => 8,
    }
}

/// The outcome of reading one frame from the front of a buffer.
pub enum FrameParse {
    /// No complete frame yet; the first `consumed` bytes were keep-alives.
    Incomplete { consumed: nat },
    /// A frame, and the number of bytes it and the keep-alives before it took.
    Parsed { frame: SpecFrame, consumed: nat },
    /// The buffer does not hold a valid frame.
    Failed(Error),
}

/// Adds `n` keep-alive bytes in front of an outcome.
pub open spec fn skipped(p: FrameParse, n: nat) -> FrameParse {
    match p {
        FrameParse::Incomplete { consumed } => FrameParse::Incomplete { consumed: consumed + n },
        FrameParse::Parsed { frame, consumed } => FrameParse::Parsed { frame, consumed: consumed + n },
        other => other,
    }
}

/// The request carried by bytes `at..at + 12`.
pub open spec fn spec_request_at(buf: Seq<u8>, at: int) -> Request {
    Request {
        index: be_u32(buf, at) as u32,
        begin: be_u32(buf, at + 4) as u32,
        length: be_u32(buf, at + 8) as u32,
    }
}

/// Reads the frame whose 4-byte length `len` (non-zero, at most `FRAME_MAX`)
/// and whole body are in `buf`. A frame is read by its kind: kinds without
/// payload take one byte after the length, `Have` reads a 4-byte index,
/// `Request` and `Cancel` read three 4-byte integers, `Bitfield` and `Piece`
/// take the whole announced length. A length too short for the kind's fixed
/// fields (`Have` under 5, `Request` and `Cancel` under 13, `Piece` under 9)
/// is not a valid frame.
pub open spec fn spec_parse_body(buf: Seq<u8>, len: nat) -> FrameParse {
    let kind = buf[4];
    if kind <= 3 {
        let frame = if kind == 0 {
            SpecFrame::Choke
        } else if kind == 1 {
            SpecFrame::Unchoke
        } else if kind == 2 {
            SpecFrame::Interested
        } else {
            SpecFrame::NotInterested
        };
        FrameParse::Parsed { frame, consumed: 5 }
    } else if kind == 4 {
        if len < 5 {
            FrameParse::Failed(Error::TooShort(kind))
        } else {
            FrameParse::Parsed { frame: SpecFrame::Have(be_u32(buf, 5) as u32), consumed: 9 }
        }
    } else if kind == 5 {
        FrameParse::Parsed {
            frame: SpecFrame::Bitfield(buf.subrange(5, 4 + len as int)),
            consumed: 4 + len,
        }
    } else if kind == 6 || kind == 8 {
        if len < 13 {
            FrameParse::Failed(Error::TooShort(kind))
        } else {
            let req = spec_request_at(buf, 5);
            FrameParse::Parsed {
                frame: if kind == 6 {
                    SpecFrame::Request(req)
                } else {
                    SpecFrame::Cancel(req)
                },
                consumed: 17,
            }
        }
    } else if kind == 7 {
        if len < 9 {
            FrameParse::Failed(Error::TooShort(kind))
        } else {
            FrameParse::Parsed {
                frame: SpecFrame::Piece {
                    piece_index: be_u32(buf, 5) as usize,
                    offset: be_u32(buf, 9) as u32,
                    data: buf.subrange(13, 4 + len as int),
                },
                consumed: 4 + len,
            }
        }
    } else {
        FrameParse::Failed(Error::UnknownKind(kind))
    }
}

/// Reads a frame from the front of `buf`: keep-alives (a zero length) are
/// skipped; a length above `FRAME_MAX` is refused; a frame whose body has not
/// fully arrived leaves the outcome incomplete.
pub open spec fn spec_parse_frame(buf: Seq<u8>) -> FrameParse
    decreases buf.len(),
{
    if buf.len() < 4 {
        FrameParse::Incomplete { consumed: 0 }
    } else {
        let len = be_u32(buf, 0);
        if len == 0 {
            skipped(spec_parse_frame(buf.skip(4)), 4)
        } else if len > FRAME_MAX {
            FrameParse::Failed(Error::Overflow(len as usize))
        } else if buf.len() < 4 + len {
            FrameParse::Incomplete { consumed: 0 }
        } else {
            spec_parse_body(buf, len as nat)
        }
    }
}

/// The encoding of a frame: a 4-byte big-endian length, the message id and
/// the payload. Lengths that do not fit 32 bits are truncated.
pub open spec fn spec_encode(f: SpecFrame) -> Seq<u8> {
    match f {
        SpecFrame::Have(i) => u32_be(5) + seq![4u8] + u32_be(i),
        SpecFrame::Bitfield(b) => u32_be((1 + b.len()) as u32) + seq![5u8] + b,
        SpecFrame::Request(r) => u32_be(13) + seq![6u8] + u32_be(r.index) + u32_be(r.begin)
            + u32_be(r.length),
        SpecFrame::Cancel(r) => u32_be(13) + seq![8u8] + u32_be(r.index) + u32_be(r.begin)
            + u32_be(r.length),
        SpecFrame::Piece { piece_index, offset, data } => u32_be((9 + data.len()) as u32) + seq![
            7u8,
        ] + u32_be(piece_index as u32) + u32_be(offset) + data,
        _ => u32_be(1) + seq![spec_id(f)],
    }
}

/// Whether the lengths of a frame leave its encoding without overflow.
pub open spec fn encodable(f: SpecFrame) -> bool {
    match f {
        SpecFrame::Bitfield(b) => 1 + b.len() <= usize::MAX,
        SpecFrame::Piece { data, .. } => 9 + data.len() <= usize::MAX,
        _ => true,
    }
}

/// Whether a frame survives a write and a read unchanged: its length fits
/// the maximum frame length and its piece index fits 32 bits.
pub open spec fn round_trips(f: SpecFrame) -> bool {
    match f {
        SpecFrame::Bitfield(b) => 1 + b.len() <= FRAME_MAX,
        SpecFrame::Piece { piece_index, data, .. } => 9 + data.len() <= FRAME_MAX && piece_index
            <= u32::MAX,
        _ => true,
    }
}

/// Reads the big-endian integer at `at`.
fn read_u32(buf: &[u8], at: usize) -> (v: u32)
    requires
        at + 4 <= buf@.len(),
    ensures
        v == be_u32(buf@, at as int),
{
    let b0 = buf[at] as u32;
    let b1 = buf[at + 1] as u32;
    let b2 = buf[at + 2] as u32;
    let b3 = buf[at + 3] as u32;
    assert(b0 * 16777216 + b1 * 65536 + b2 * 256 + b3 <= u32::MAX) by (nonlinear_arith)
        requires
            b0 < 256,
            b1 < 256,
            b2 < 256,
            b3 < 256,
    ;
    b0 * 16777216 + b1 * 65536 + b2 * 256 + b3
}

/// Appends the four big-endian bytes of `x`.
fn write_u32(out: &mut Vec<u8>, x: u32)
    ensures
        final(out)@ == old(out)@ + u32_be(x),
{
    out.push((x / 16777216) as u8);
    out.push(((x / 65536) % 256) as u8);
    out.push(((x / 256) % 256) as u8);
    out.push((x % 256) as u8);
    assert(out@ =~= old(out)@ + u32_be(x));
}

/// Appends all bytes of `data`.
fn write_all(out: &mut Vec<u8>, data: &[u8])
    ensures
        final(out)@ == old(out)@ + data@,
{
    let mut i: usize = 0;
    while i < data.len()
        invariant
            i <= data@.len(),
            out@ == old(out)@ + data@.subrange(0, i as int),
        decreases data@.len() - i,
    {
        out.push(data[i]);
        i = i + 1;
        assert(data@.subrange(0, i as int) =~= data@.subrange(0, i - 1) + seq![data@[i - 1]]);
    }
    assert(data@.subrange(0, data@.len() as int) =~= data@);
}

/// Copies bytes `from..to` of `buf`.
pub(crate) fn copy_range(buf: &[u8], from: usize, to: usize) -> (v: Vec<u8>)
    requires
        from <= to <= buf@.len(),
    ensures
        v@ == buf@.subrange(from as int, to as int),
{
    let mut v: Vec<u8> = Vec::new();
    let mut i = from;
    while i < to
        invariant
            from <= i <= to <= buf@.len(),
            v@ == buf@.subrange(from as int, i as int),
        decreases to - i,
    {
        v.push(buf[i]);
        i = i + 1;
        assert(v@ =~= buf@.subrange(from as int, i as int));
    }
    v
}

impl<'a> From<&'a Frame> for u8 {
    /// The message id of the frame.
    fn from(value: &'a Frame) -> (n: u8) {
        match value {
            Frame::Choke => 0,
            Frame::Unchoke => 1,
            Frame::Interested => 2,
            Frame::NotInterested => 3,
            Frame::Have(_) => 4,
            Frame::Bitfield(_) => 5,
            Frame::Request(_) => 6,
            Frame::Piece(_) => 7,
            Frame::Cancel(_) => 8,
        }
    }
}

impl<'a> vstd::std_specs::convert::FromSpecImpl<&'a Frame> for u8 {
    open spec fn obeys_from_spec() -> bool {
        true
    }

    open spec fn from_spec(value: &'a Frame) -> u8 {
        spec_id(value@)
    }
}

impl Frame {
    /// The bytes written to the wire for this frame.
    pub fn encode(&self) -> (v: Vec<u8>)
        requires
            encodable(self@),
        ensures
            v@ == spec_encode(self@),
    {
        let mut out: Vec<u8> = Vec::new();
        match self {
            Frame::Have(index) => {
                write_u32(&mut out, 5);
                out.push(4);
                write_u32(&mut out, *index);
            },
            Frame::Bitfield(bitfield) => {
                write_u32(&mut out, (1 + bitfield.len()) as u32);
                out.push(5);
                write_all(&mut out, bitfield.as_slice());
            },
            Frame::Request(req) => {
                write_u32(&mut out, 13);
                out.push(6);
                write_u32(&mut out, req.index);
                write_u32(&mut out, req.begin);
                write_u32(&mut out, req.length);
            },
            Frame::Cancel(req) => {
                write_u32(&mut out, 13);
                out.push(8);
                write_u32(&mut out, req.index);
                write_u32(&mut out, req.begin);
                write_u32(&mut out, req.length);
            },
            Frame::Piece(chunk) => {
                write_u32(&mut out, (9 + chunk.data.len()) as u32);
                out.push(7);
                write_u32(&mut out, chunk.piece_index as u32);
                write_u32(&mut out, chunk.offset);
                write_all(&mut out, chunk.data.as_slice());
            },
            _ => {
                write_u32(&mut out, 1);
                out.push(u8::from(self));
            },
        }
        assert(out@ =~= spec_encode(self@));
        out
    }
}

/// A frame read from a buffer, with the number of bytes to drop from its front.
pub struct Parsed {
    /// The bytes taken: keep-alives, and the frame if there is one.
    pub consumed: usize,
    /// The frame, or `None` when no complete frame has arrived yet.
    pub frame: Option<Frame>,
}

/// Whether an exec outcome matches the spec outcome.
pub open spec fn parse_matches(r: Result<Parsed, Error>, p: FrameParse) -> bool {
    match r {
        Ok(parsed) => match parsed.frame {
            Some(f) => p == FrameParse::Parsed { frame: f@, consumed: parsed.consumed as nat },
            None => p == FrameParse::Incomplete { consumed: parsed.consumed as nat },
        },
        Err(e) => p == FrameParse::Failed(e),
    }
}

/// Reads the body of a frame of length `len` at `pos`.
fn parse_body(buf: &[u8], pos: usize, len: usize) -> (r: Result<Parsed, Error>)
    requires
        pos + 4 + len <= buf@.len(),
        1 <= len <= FRAME_MAX,
    ensures
        parse_matches(r, spec_parse_body(buf@.skip(pos as int), len as nat)),
{
    let ghost s = buf@.skip(pos as int);
    assert(pos + 4 < buf.len());
    let kind = buf[pos + 4];
    assert(kind == s[4]);
    if kind <= 3 {
        let frame = if kind == 0 {
            Frame::Choke
        } else if kind == 1 {
            Frame::Unchoke
        } else if kind == 2 {
            Frame::Interested
        } else {
            Frame::NotInterested
        };
        Ok(Parsed { consumed: 5, frame: Some(frame) })
    } else if kind == 4 {
        if len < 5 {
            Err(Error::TooShort(kind))
        } else {
            let index = read_u32(buf, pos + 5);
            assert(be_u32(buf@, pos + 5) == be_u32(s, 5));
            Ok(Parsed { consumed: 9, frame: Some(Frame::Have(index)) })
        }
    } else if kind == 5 {
        let bitfield = copy_range(buf, pos + 5, pos + 4 + len);
        assert(bitfield@ =~= s.subrange(5, 4 + len as int));
        Ok(Parsed { consumed: 4 + len, frame: Some(Frame::Bitfield(bitfield)) })
    } else if kind == 6 || kind == 8 {
        if len < 13 {
            Err(Error::TooShort(kind))
        } else {
            let req = Request {
                index: read_u32(buf, pos + 5),
                begin: read_u32(buf, pos + 9),
                length: read_u32(buf, pos + 13),
            };
            assert(be_u32(buf@, pos + 5) == be_u32(s, 5));
            assert(be_u32(buf@, pos + 9) == be_u32(s, 9));
            assert(be_u32(buf@, pos + 13) == be_u32(s, 13));
            let frame = if kind == 6 {
                Frame::Request(req)
            } else {
                Frame::Cancel(req)
            };
            Ok(Parsed { consumed: 17, frame: Some(frame) })
        }
    } else if kind == 7 {
        if len < 9 {
            Err(Error::TooShort(kind))
        } else {
            let piece_index = read_u32(buf, pos + 5);
            let offset = read_u32(buf, pos + 9);
            let data = copy_range(buf, pos + 13, pos + 4 + len);
            assert(be_u32(buf@, pos + 5) == be_u32(s, 5));
            assert(be_u32(buf@, pos + 9) == be_u32(s, 9));
            assert(data@ =~= s.subrange(13, 4 + len as int));
            let chunk = Chunk { piece_index: piece_index as usize, offset, data };
            Ok(Parsed { consumed: 4 + len, frame: Some(Frame::Piece(chunk)) })
        }
    } else {
        Err(Error::UnknownKind(kind))
    }
}

/// Reads a frame from the front of `buf`, as `spec_parse_frame` describes:
/// the frame and the bytes it took, no frame yet, or a protocol error.
pub fn parse_frame(buf: &[u8]) -> (r: Result<Parsed, Error>)
    ensures
        parse_matches(r, spec_parse_frame(buf@)),
{
    let mut pos: usize = 0;
    assert(buf@.skip(0) =~= buf@);
    loop
        invariant
            pos <= buf@.len(),
            spec_parse_frame(buf@) == skipped(spec_parse_frame(buf@.skip(pos as int)), pos as nat),
        decreases buf@.len() - pos,
    {
        let ghost s = buf@.skip(pos as int);
        if buf.len() - pos < 4 {
            return Ok(Parsed { consumed: pos, frame: None });
        }
        let len = read_u32(buf, pos) as usize;
        assert(be_u32(buf@, pos as int) == be_u32(s, 0));
        if len == 0 {
            proof {
                assert(s.skip(4) =~= buf@.skip(pos + 4));
            }
            pos = pos + 4;
        } else if len > FRAME_MAX {
            return Err(Error::Overflow(len));
        } else if buf.len() - pos < 4 + len {
            return Ok(Parsed { consumed: pos, frame: None });
        } else {
            return match parse_body(buf, pos, len) {
                Ok(parsed) => Ok(Parsed { consumed: pos + parsed.consumed, frame: parsed.frame }),
                Err(e) => Err(e),
            };
        }
    }
}

/// What a read gives when the peer closed the stream with `buffered` bytes
/// still unparsed: no frame for a clean close between frames, a reset when a
/// frame was cut in half.
pub fn end_of_stream(buffered: usize) -> (r: Result<Option<Frame>, Error>)
    ensures
        buffered == 0 ==> r matches Ok(None),
        buffered != 0 ==> r == Err::<Option<Frame>, Error>(Error::ConnectionReset),
{
    if buffered == 0 {
        Ok(None)
    } else {
        Err(Error::ConnectionReset)
    }
}

/// Reading back the four big-endian bytes of `x` gives `x`.
pub proof fn lemma_u32_be_roundtrip(x: u32, rest: Seq<u8>, at: int)
    requires
        0 <= at,
        rest.len() >= at + 4,
        rest.subrange(at, at + 4) == u32_be(x),
    ensures
        be_u32(rest, at) == x,
{
    let s = u32_be(x);
    assert(rest[at] == s[0] && rest[at + 1] == s[1] && rest[at + 2] == s[2] && rest[at + 3] == s[3]);
    assert((x / 16777216) as u8 * 16777216 + ((x / 65536) % 256) as u8 * 65536 + ((x / 256)
        % 256) as u8 * 256 + (x % 256) as u8 == x) by (bit_vector);
}

/// What a write puts on the wire, a read gives back: parsing the encoding of
/// a frame, whatever bytes follow it, yields the same frame and consumes
/// exactly its encoding.
pub proof fn lemma_encode_parse_roundtrip(f: SpecFrame, rest: Seq<u8>)
    requires
        round_trips(f),
    ensures
        spec_parse_frame(spec_encode(f) + rest) == (FrameParse::Parsed {
            frame: f,
            consumed: spec_encode(f).len(),
        }),
{
    let e = spec_encode(f);
    let buf = e + rest;
    assert(buf.subrange(0, 4) =~= e.subrange(0, 4));
    match f {
        SpecFrame::Have(i) => {
            assert(e.subrange(0, 4) =~= u32_be(5));
            lemma_u32_be_roundtrip(5, buf, 0);
            assert(buf.subrange(5, 9) =~= u32_be(i));
            lemma_u32_be_roundtrip(i, buf, 5);
            assert(buf[4] == 4);
        },
        SpecFrame::Bitfield(b) => {
            let len = (1 + b.len()) as u32;
            assert(e.subrange(0, 4) =~= u32_be(len));
            lemma_u32_be_roundtrip(len, buf, 0);
            assert(buf[4] == 5);
            assert(buf.subrange(5, 4 + len as int) =~= b);
        },
        SpecFrame::Request(r) => {
            assert(e.subrange(0, 4) =~= u32_be(13));
            lemma_u32_be_roundtrip(13, buf, 0);
            assert(buf[4] == 6);
            assert(buf.subrange(5, 9) =~= u32_be(r.index));
            assert(buf.subrange(9, 13) =~= u32_be(r.begin));
            assert(buf.subrange(13, 17) =~= u32_be(r.length));
            lemma_u32_be_roundtrip(r.index, buf, 5);
            lemma_u32_be_roundtrip(r.begin, buf, 9);
            lemma_u32_be_roundtrip(r.length, buf, 13);
            assert(spec_request_at(buf, 5) == r);
        },
        SpecFrame::Cancel(r) => {
            assert(e.subrange(0, 4) =~= u32_be(13));
            lemma_u32_be_roundtrip(13, buf, 0);
            assert(buf[4] == 8);
            assert(buf.subrange(5, 9) =~= u32_be(r.index));
            assert(buf.subrange(9, 13) =~= u32_be(r.begin));
            assert(buf.subrange(13, 17) =~= u32_be(r.length));
            lemma_u32_be_roundtrip(r.index, buf, 5);
            lemma_u32_be_roundtrip(r.begin, buf, 9);
            lemma_u32_be_roundtrip(r.length, buf, 13);
            assert(spec_request_at(buf, 5) == r);
        },
        SpecFrame::Piece { piece_index, offset, data } => {
            let len = (9 + data.len()) as u32;
            assert(e.subrange(0, 4) =~= u32_be(len));
            lemma_u32_be_roundtrip(len, buf, 0);
            assert(buf[4] == 7);
            assert(buf.subrange(5, 9) =~= u32_be(piece_index as u32));
            assert(buf.subrange(9, 13) =~= u32_be(offset));
            lemma_u32_be_roundtrip(piece_index as u32, buf, 5);
            lemma_u32_be_roundtrip(offset, buf, 9);
            assert(buf.subrange(13, 4 + len as int) =~= data);
        },
        _ => {
            assert(e.subrange(0, 4) =~= u32_be(1));
            lemma_u32_be_roundtrip(1, buf, 0);
            assert(buf[4] == spec_id(f));
        },
    }
}


/// The wire layout of every frame: a 4-byte big-endian length counting the
/// bytes after it, the message id (choke 0, unchoke 1, interested 2,
/// not interested 3, have 4, bitfield 5, request 6, piece 7, cancel 8), then
/// the payload: a have's big-endian piece index at 5..9; a request's or
/// cancel's big-endian index, begin and length at 5..9, 9..13 and 13..17; a
/// piece's big-endian index and offset at 5..9 and 9..13 and its data from
/// 13; a bitfield's bytes from 5.
pub proof fn lemma_encode_wire(f: SpecFrame)
    requires
        round_trips(f),
    ensures
        ({
            let e = spec_encode(f);
            &&& e.len() >= 5
            &&& be_u32(e, 0) == e.len() - 4
            &&& match f {
                SpecFrame::Choke => e.len() == 5 && e[4] == 0,
                SpecFrame::Unchoke => e.len() == 5 && e[4] == 1,
                SpecFrame::Interested => e.len() == 5 && e[4] == 2,
                SpecFrame::NotInterested => e.len() == 5 && e[4] == 3,
                SpecFrame::Have(i) => e.len() == 9 && e[4] == 4 && be_u32(e, 5) == i,
                SpecFrame::Bitfield(b) => e[4] == 5 && e.skip(5) == b,
                SpecFrame::Request(r) => e.len() == 17 && e[4] == 6 && be_u32(e, 5) == r.index
                    && be_u32(e, 9) == r.begin && be_u32(e, 13) == r.length,
                SpecFrame::Piece { piece_index, offset, data } => e[4] == 7 && be_u32(e, 5)
                    == piece_index && be_u32(e, 9) == offset && e.skip(13) == data,
                SpecFrame::Cancel(r) => e.len() == 17 && e[4] == 8 && be_u32(e, 5) == r.index
                    && be_u32(e, 9) == r.begin && be_u32(e, 13) == r.length,
            }
        }),
{
    lemma_encode_header(f);
    let e = spec_encode(f);
    match f {
        SpecFrame::Have(i) => {
            assert(e.subrange(5, 9) =~= u32_be(i));
            lemma_u32_be_roundtrip(i, e, 5);
        },
        SpecFrame::Bitfield(b) => {
            assert(e.skip(5) =~= b);
        },
        SpecFrame::Request(r) => {
            assert(e.subrange(5, 9) =~= u32_be(r.index));
            assert(e.subrange(9, 13) =~= u32_be(r.begin));
            assert(e.subrange(13, 17) =~= u32_be(r.length));
            lemma_u32_be_roundtrip(r.index, e, 5);
            lemma_u32_be_roundtrip(r.begin, e, 9);
            lemma_u32_be_roundtrip(r.length, e, 13);
        },
        SpecFrame::Cancel(r) => {
            assert(e.subrange(5, 9) =~= u32_be(r.index));
            assert(e.subrange(9, 13) =~= u32_be(r.begin));
            assert(e.subrange(13, 17) =~= u32_be(r.length));
            lemma_u32_be_roundtrip(r.index, e, 5);
            lemma_u32_be_roundtrip(r.begin, e, 9);
            lemma_u32_be_roundtrip(r.length, e, 13);
        },
        SpecFrame::Piece { piece_index, offset, data } => {
            assert(e.subrange(5, 9) =~= u32_be(piece_index as u32));
            assert(e.subrange(9, 13) =~= u32_be(offset));
            lemma_u32_be_roundtrip(piece_index as u32, e, 5);
            lemma_u32_be_roundtrip(offset, e, 9);
            assert(e.skip(13) =~= data);
        },
        _ => {},
    }
}

/// Reading a complete frame takes its fields from their fixed places: after
/// a length `len` (1 to `FRAME_MAX`) whose body has arrived, a have (id 4)
/// carries the big-endian index at 5..9; a request (id 6) or cancel (id 8)
/// the big-endian index, begin and length at 5..9, 9..13 and 13..17; a piece
/// (id 7) the big-endian index and offset at 5..9 and 9..13 and its data up
/// to the end of the frame; a bitfield (id 5) its bytes up to the end.
pub proof fn lemma_parse_wire(buf: Seq<u8>)
    requires
        buf.len() >= 5,
        1 <= be_u32(buf, 0) <= FRAME_MAX,
        buf.len() >= 4 + be_u32(buf, 0),
    ensures
        ({
            let len = be_u32(buf, 0);
            let id = buf[4];
            &&& id == 4 && len >= 5 ==> spec_parse_frame(buf) == (FrameParse::Parsed {
                frame: SpecFrame::Have(be_u32(buf, 5) as u32),
                consumed: 9,
            })
            &&& id == 5 ==> spec_parse_frame(buf) == (FrameParse::Parsed {
                frame: SpecFrame::Bitfield(buf.subrange(5, 4 + len)),
                consumed: (4 + len) as nat,
            })
            &&& (id == 6 || id == 8) && len >= 13 ==> ({
                let r = Request {
                    index: be_u32(buf, 5) as u32,
                    begin: be_u32(buf, 9) as u32,
                    length: be_u32(buf, 13) as u32,
                };
                spec_parse_frame(buf) == (FrameParse::Parsed {
                    frame: if id == 6 {
                        SpecFrame::Request(r)
                    } else {
                        SpecFrame::Cancel(r)
                    },
                    consumed: 17,
                })
            })
            &&& id == 7 && len >= 9 ==> spec_parse_frame(buf) == (FrameParse::Parsed {
                frame: SpecFrame::Piece {
                    piece_index: be_u32(buf, 5) as usize,
                    offset: be_u32(buf, 9) as u32,
                    data: buf.subrange(13, 4 + len),
                },
                consumed: (4 + len) as nat,
            })
        }),
{
}

/// `n` keep-alives: four zero bytes each.
pub open spec fn keep_alives(n: nat) -> Seq<u8>
    decreases n,
{
    if n == 0 {
        Seq::empty()
    } else {
        seq![0u8, 0u8, 0u8, 0u8] + keep_alives((n - 1) as nat)
    }
}

/// The bytes of frames written one after the other, with `gaps[i]`
/// keep-alives sent before frame `i`.
pub open spec fn spec_encode_all(fs: Seq<SpecFrame>, gaps: Seq<nat>) -> Seq<u8>
    decreases fs.len(),
{
    if fs.len() == 0 || gaps.len() == 0 {
        Seq::empty()
    } else {
        keep_alives(gaps[0]) + spec_encode(fs[0]) + spec_encode_all(fs.drop_first(), gaps.drop_first())
    }
}

/// What `k` successive reads take from the front of `buf`, each starting
/// where the one before stopped: the frames in order and the bytes left;
/// `None` when one of them finds no complete frame or a bad one.
pub open spec fn spec_read_frames(buf: Seq<u8>, k: nat) -> Option<(Seq<SpecFrame>, Seq<u8>)>
    decreases k,
{
    if k == 0 {
        Some((Seq::empty(), buf))
    } else {
        match spec_parse_frame(buf) {
            FrameParse::Parsed { frame, consumed } => match spec_read_frames(
                buf.skip(consumed as int),
                (k - 1) as nat,
            ) {
                Some((fs, rest)) => Some((seq![frame] + fs, rest)),
                None => None,
            },
            _ => None,
        }
    }
}

/// Keep-alives in front of a buffer are skipped and counted as consumed.
proof fn lemma_keep_alives_parse(n: nat, x: Seq<u8>)
    ensures
        keep_alives(n).len() == 4 * n,
        spec_parse_frame(keep_alives(n) + x) == skipped(spec_parse_frame(x), 4 * n),
    decreases n,
{
    if n == 0 {
        assert(keep_alives(n) + x =~= x);
    } else {
        lemma_keep_alives_parse((n - 1) as nat, x);
        let buf = keep_alives(n) + x;
        let inner = keep_alives((n - 1) as nat) + x;
        assert(buf =~= seq![0u8, 0u8, 0u8, 0u8] + inner);
        assert(buf.skip(4) =~= inner);
        assert(be_u32(buf, 0) == 0);
    }
}

/// The first four bytes of an encoding give the length of the rest.
proof fn lemma_encode_header(f: SpecFrame)
    requires
        round_trips(f),
    ensures
        5 <= spec_encode(f).len() <= 4 + FRAME_MAX,
        be_u32(spec_encode(f), 0) == spec_encode(f).len() - 4,
{
    let e = spec_encode(f);
    match f {
        SpecFrame::Have(i) => {
            assert(e.subrange(0, 4) =~= u32_be(5));
            lemma_u32_be_roundtrip(5, e, 0);
        },
        SpecFrame::Bitfield(b) => {
            let len = (1 + b.len()) as u32;
            assert(e.subrange(0, 4) =~= u32_be(len));
            lemma_u32_be_roundtrip(len, e, 0);
        },
        SpecFrame::Request(r) => {
            assert(e.subrange(0, 4) =~= u32_be(13));
            lemma_u32_be_roundtrip(13, e, 0);
        },
        SpecFrame::Cancel(r) => {
            assert(e.subrange(0, 4) =~= u32_be(13));
            lemma_u32_be_roundtrip(13, e, 0);
        },
        SpecFrame::Piece { piece_index, offset, data } => {
            let len = (9 + data.len()) as u32;
            assert(e.subrange(0, 4) =~= u32_be(len));
            lemma_u32_be_roundtrip(len, e, 0);
        },
        _ => {
            assert(e.subrange(0, 4) =~= u32_be(1));
            lemma_u32_be_roundtrip(1, e, 0);
        },
    }
}

/// A frame cut short (a proper prefix of its encoding) is not yet a frame:
/// reading it finds nothing to return and consumes nothing.
pub proof fn lemma_parse_cut_frame(f: SpecFrame, t: Seq<u8>)
    requires
        round_trips(f),
        t.len() < spec_encode(f).len(),
        t == spec_encode(f).take(t.len() as int),
    ensures
        spec_parse_frame(t) == (FrameParse::Incomplete { consumed: 0 }),
{
    if t.len() >= 4 {
        lemma_encode_header(f);
        let e = spec_encode(f);
        assert(t[0] == e[0] && t[1] == e[1] && t[2] == e[2] && t[3] == e[3]);
    }
}

/// More bytes arriving never change a frame already read, nor an error
/// already found: only an incomplete outcome can change.
pub proof fn lemma_parse_prefix_stable(p: Seq<u8>, q: Seq<u8>)
    ensures
        !(spec_parse_frame(p) is Incomplete) ==> spec_parse_frame(p + q) == spec_parse_frame(p),
    decreases p.len(),
{
    let b = p + q;
    if p.len() >= 4 {
        assert(b[0] == p[0] && b[1] == p[1] && b[2] == p[2] && b[3] == p[3]);
        let len = be_u32(p, 0);
        if len == 0 {
            assert(b.skip(4) =~= p.skip(4) + q);
            lemma_parse_prefix_stable(p.skip(4), q);
        } else if len <= FRAME_MAX && p.len() >= 4 + len {
            assert(b[4] == p[4]);
            if len >= 5 {
                assert(b[5] == p[5] && b[6] == p[6] && b[7] == p[7] && b[8] == p[8]);
            }
            if len >= 9 {
                assert(b[9] == p[9] && b[10] == p[10] && b[11] == p[11] && b[12] == p[12]);
            }
            if len >= 13 {
                assert(b[13] == p[13] && b[14] == p[14] && b[15] == p[15] && b[16] == p[16]);
                assert(spec_request_at(b, 5) == spec_request_at(p, 5));
            }
            assert(b.subrange(5, 4 + len) =~= p.subrange(5, 4 + len));
            if len >= 9 {
                assert(b.subrange(13, 4 + len) =~= p.subrange(13, 4 + len));
            }
        }
    }
}

/// Successive reads give back what was written, in order: on the bytes of
/// frames written one after the other (with keep-alives anywhere between
/// them), followed by nothing or by a frame cut short, `k` reads return the
/// `k` frames and leave the tail, and a read of the tail finds no frame and
/// consumes nothing.
#[verifier::spinoff_prover]
#[verifier::rlimit(60)]
pub proof fn lemma_successive_reads(fs: Seq<SpecFrame>, gaps: Seq<nat>, cut: SpecFrame, t: Seq<u8>)
    requires
        gaps.len() == fs.len(),
        forall|i: int| 0 <= i < fs.len() ==> round_trips(#[trigger] fs[i]),
        round_trips(cut),
        t.len() < spec_encode(cut).len(),
        t == spec_encode(cut).take(t.len() as int),
    ensures
        spec_read_frames(spec_encode_all(fs, gaps) + t, fs.len()) == Some((fs, t)),
        spec_parse_frame(t) == (FrameParse::Incomplete { consumed: 0 }),
    decreases fs.len(),
{
    lemma_parse_cut_frame(cut, t);
    if fs.len() == 0 {
        assert(spec_encode_all(fs, gaps) + t =~= t);
        assert(fs =~= Seq::<SpecFrame>::empty());
    } else {
        let f = fs[0];
        let e = spec_encode(f);
        let later = spec_encode_all(fs.drop_first(), gaps.drop_first());
        let buf = spec_encode_all(fs, gaps) + t;
        assert(buf =~= keep_alives(gaps[0]) + (e + (later + t)));
        lemma_keep_alives_parse(gaps[0], e + (later + t));
        lemma_encode_parse_roundtrip(f, later + t);
        let consumed = 4 * gaps[0] + e.len();
        assert(spec_parse_frame(buf) == (FrameParse::Parsed { frame: f, consumed }));
        assert(buf.skip(consumed as int) =~= later + t);
        assert forall|i: int| 0 <= i < fs.drop_first().len() implies round_trips(
            #[trigger] fs.drop_first()[i],
        ) by {
            assert(fs.drop_first()[i] == fs[i + 1]);
        }
        lemma_successive_reads(fs.drop_first(), gaps.drop_first(), cut, t);
        assert(seq![f] + fs.drop_first() =~= fs);
    }
}

} // verus!
