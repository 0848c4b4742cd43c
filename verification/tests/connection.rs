use bittorrent_starter_rust::download::Chunk;
use bittorrent_starter_rust::peer::connection::{end_of_stream, parse_frame, Error, Frame, Request, State};

fn round_trip(frame: &Frame) -> Frame {
    let mut bytes = frame.encode();
    bytes.extend_from_slice(&[0, 0, 0, 1, 2]);
    let parsed = parse_frame(&bytes).unwrap();
    assert_eq!(parsed.consumed, frame.encode().len());
    parsed.frame.unwrap()
}

#[test]
fn encode_have() {
    assert_eq!(Frame::Have(7).encode(), vec![0, 0, 0, 5, 4, 0, 0, 0, 7]);
}

#[test]
fn encode_interested() {
    assert_eq!(Frame::Interested.encode(), vec![0, 0, 0, 1, 2]);
    assert_eq!(Frame::Choke.encode(), vec![0, 0, 0, 1, 0]);
}

#[test]
fn encode_request() {
    let req = Request { index: 1, begin: 16384, length: 16384 };
    assert_eq!(
        Frame::Request(req).encode(),
        vec![0, 0, 0, 13, 6, 0, 0, 0, 1, 0, 0, 0x40, 0, 0, 0, 0x40, 0]
    );
    assert_eq!(Frame::Cancel(req).encode()[4], 8);
}

#[test]
fn encode_bitfield_and_piece() {
    assert_eq!(Frame::Bitfield(vec![0xff, 0x80]).encode(), vec![0, 0, 0, 3, 5, 0xff, 0x80]);
    let chunk = Chunk { piece_index: 2, offset: 3, data: vec![9, 8] };
    assert_eq!(
        Frame::Piece(chunk).encode(),
        vec![0, 0, 0, 11, 7, 0, 0, 0, 2, 0, 0, 0, 3, 9, 8]
    );
}

#[test]
fn frame_ids() {
    assert_eq!(u8::from(&Frame::Unchoke), 1);
    assert_eq!(u8::from(&Frame::NotInterested), 3);
    assert_eq!(u8::from(&Frame::Bitfield(vec![])), 5);
    assert_eq!(u8::from(&Frame::Cancel(Request { index: 0, begin: 0, length: 0 })), 8);
}

#[test]
fn round_trip_frames() {
    assert!(matches!(round_trip(&Frame::Choke), Frame::Choke));
    assert!(matches!(round_trip(&Frame::Unchoke), Frame::Unchoke));
    assert!(matches!(round_trip(&Frame::Interested), Frame::Interested));
    assert!(matches!(round_trip(&Frame::NotInterested), Frame::NotInterested));
    assert!(matches!(round_trip(&Frame::Have(0xdead_beef)), Frame::Have(0xdead_beef)));
    let req = Request { index: 5, begin: 6, length: 7 };
    assert!(matches!(round_trip(&Frame::Request(req)), Frame::Request(r) if r == req));
    assert!(matches!(round_trip(&Frame::Cancel(req)), Frame::Cancel(r) if r == req));
    match round_trip(&Frame::Bitfield(vec![1, 2, 3])) {
        Frame::Bitfield(b) => assert_eq!(b, vec![1, 2, 3]),
        _ => panic!("expected bitfield"),
    }
    let chunk = Chunk { piece_index: 4, offset: 16384, data: vec![5; 100] };
    match round_trip(&Frame::Piece(chunk)) {
        Frame::Piece(c) => {
            assert_eq!(c.piece_index, 4);
            assert_eq!(c.offset, 16384);
            assert_eq!(c.data, vec![5; 100]);
        }
        _ => panic!("expected piece"),
    }
}

#[test]
fn parse_incomplete_frames() {
    let p = parse_frame(&[0, 0, 0]).unwrap();
    assert!(p.frame.is_none());
    assert_eq!(p.consumed, 0);
    let p = parse_frame(&[0, 0, 0, 5, 4, 0]).unwrap();
    assert!(p.frame.is_none());
    assert_eq!(p.consumed, 0);
}

#[test]
fn parse_skips_keep_alives() {
    let p = parse_frame(&[0, 0, 0, 0, 0, 0, 0, 0, 0, 0, 0, 1, 1]).unwrap();
    assert!(matches!(p.frame, Some(Frame::Unchoke)));
    assert_eq!(p.consumed, 13);
    let p = parse_frame(&[0, 0, 0, 0, 0, 0]).unwrap();
    assert!(p.frame.is_none());
    assert_eq!(p.consumed, 4);
}

#[test]
fn parse_overflow() {
    assert!(matches!(parse_frame(&[0, 1, 0, 1, 7]), Err(Error::Overflow(65537))));
}

#[test]
fn parse_unknown_kind() {
    assert!(matches!(parse_frame(&[0, 0, 0, 1, 9]), Err(Error::UnknownKind(9))));
}

#[test]
fn parse_malformed_frames() {
    // A piece frame too short for its index and offset.
    assert!(matches!(
        parse_frame(&[0, 0, 0, 5, 7, 0, 0, 0, 0, 0, 0, 0, 0]),
        Err(Error::TooShort(7))
    ));
    // A have frame with no room for its index.
    assert!(matches!(parse_frame(&[0, 0, 0, 1, 4]), Err(Error::TooShort(4))));
    // Even when more bytes follow, a have frame of length 1 is refused.
    assert!(matches!(
        parse_frame(&[0, 0, 0, 1, 4, 0, 0, 0, 1, 1]),
        Err(Error::TooShort(4))
    ));
    // A request frame too short for its three integers.
    assert!(matches!(
        parse_frame(&[0, 0, 0, 5, 6, 0, 0, 0, 1, 0, 0, 0, 0, 0, 0, 0, 0, 0]),
        Err(Error::TooShort(6))
    ));
}

#[test]
fn parse_payloadless_frame_ignores_its_length() {
    let p = parse_frame(&[0, 0, 0, 3, 2, 0xaa, 0xbb]).unwrap();
    assert!(matches!(p.frame, Some(Frame::Interested)));
    assert_eq!(p.consumed, 5);
}

#[test]
fn connection_state_default() {
    assert_eq!(State::default(), State::Disconnected);
}

#[test]
fn end_of_stream_between_and_inside_frames() {
    assert!(matches!(end_of_stream(0), Ok(None)));
    assert!(matches!(end_of_stream(3), Err(Error::ConnectionReset)));
}

#[test]
fn successive_reads_then_cut_frame() {
    let mut buf = Frame::Have(3).encode();
    buf.extend_from_slice(&[0, 0, 0, 0]);
    buf.extend(Frame::Unchoke.encode());
    let cut = Frame::Request(Request { index: 1, begin: 2, length: 3 }).encode();
    buf.extend_from_slice(&cut[..6]);

    let p = parse_frame(&buf).unwrap();
    assert!(matches!(p.frame, Some(Frame::Have(3))));
    assert_eq!(p.consumed, 9);
    let rest = &buf[p.consumed..];
    let p = parse_frame(rest).unwrap();
    assert!(matches!(p.frame, Some(Frame::Unchoke)));
    assert_eq!(p.consumed, 9);
    let rest = &rest[p.consumed..];
    assert_eq!(rest.len(), 6);
    let p = parse_frame(rest).unwrap();
    assert!(p.frame.is_none());
    assert_eq!(p.consumed, 0);
    assert!(matches!(end_of_stream(rest.len()), Err(Error::ConnectionReset)));
}
