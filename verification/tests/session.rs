use bittorrent_starter_rust::download::Chunk;
use bittorrent_starter_rust::peer::connection::Frame;
use bittorrent_starter_rust::peer::frame::{self, Kind};
use bittorrent_starter_rust::peer::session::{Action, Backoff, PeerDownload, SessionError, State};

fn request_of(a: &Action) -> (u32, u32, u32) {
    match a {
        Action::SendAndReceive(Frame::Request(r)) => (r.index, r.begin, r.length),
        _ => panic!("expected a request"),
    }
}

#[test]
fn session_state_default() {
    let s = State::default();
    assert!(s.is_choked);
    assert!(!s.is_interested);
    assert!(s.is_peer_choked);
    assert!(!s.is_peer_interested);
}

#[test]
fn session_downloads_pieces() {
    let (mut flow, a) = PeerDownload::new(State::default());
    assert!(matches!(a, Action::Receive));
    let a = flow.receive(Some(Frame::Bitfield(vec![0xff])));
    assert!(matches!(a, Action::SendAndReceive(Frame::Interested)));
    assert!(flow.state().is_interested);
    let a = flow.receive(Some(Frame::Unchoke));
    assert!(matches!(a, Action::Pick));
    assert!(!flow.state().is_choked);
    assert!(flow.state().is_peer_choked);
    let a = flow.picked(Some((1, 20000)));
    assert_eq!(request_of(&a), (1, 0, 16384));
    let a = flow.receive(Some(Frame::Piece(Chunk { piece_index: 1, offset: 0, data: vec![7; 16384] })));
    assert_eq!(request_of(&a), (1, 16384, 3616));
    let a = flow.receive(Some(Frame::Piece(Chunk { piece_index: 1, offset: 16384, data: vec![8; 3616] })));
    match a {
        Action::Complete(d) => {
            assert_eq!(d.index, 1);
            assert_eq!(d.data.len(), 20000);
        }
        _ => panic!("expected completion"),
    }
    assert!(matches!(flow.picked(None), Action::Close));
}

#[test]
fn session_requires_bitfield() {
    let (mut flow, _) = PeerDownload::new(State::default());
    assert!(matches!(flow.receive(Some(Frame::Unchoke)), Action::Fail(SessionError::ExpectedBitfield)));
    let (mut flow, _) = PeerDownload::new(State::default());
    assert!(matches!(flow.receive(None), Action::Fail(SessionError::ExpectedBitfield)));
}

#[test]
fn session_requires_unchoke() {
    let (mut flow, _) = PeerDownload::new(State::default());
    flow.receive(Some(Frame::Bitfield(vec![])));
    assert!(matches!(flow.receive(Some(Frame::Choke)), Action::Fail(SessionError::ExpectedUnchoke)));
}

#[test]
fn session_checks_chunks() {
    let (mut flow, _) = PeerDownload::new(State::default());
    flow.receive(Some(Frame::Bitfield(vec![])));
    flow.receive(Some(Frame::Unchoke));
    flow.picked(Some((0, 100)));
    let a = flow.receive(Some(Frame::Piece(Chunk { piece_index: 0, offset: 0, data: vec![1; 99] })));
    assert!(matches!(a, Action::Fail(SessionError::WrongLength)));
}

#[test]
fn session_expects_piece_frames() {
    let (mut flow, _) = PeerDownload::new(State::default());
    flow.receive(Some(Frame::Bitfield(vec![])));
    flow.receive(Some(Frame::Unchoke));
    flow.picked(Some((0, 100)));
    assert!(matches!(flow.receive(Some(Frame::Have(1))), Action::Fail(SessionError::ExpectedPiece)));
}

#[test]
fn kind_from_id() {
    assert_eq!(Kind::from(0), Kind::Choke);
    assert_eq!(Kind::from(5), Kind::Bitfield);
    assert_eq!(Kind::from(8), Kind::Cancel);
}

#[test]
fn generic_frame_with_payload() {
    let f = frame::Frame::with(Kind::Piece, Some(vec![1, 2, 3]));
    assert_eq!(f.len(), 4);
    assert_eq!(f.kind(), Kind::Piece);
    assert_eq!(f.payload(), Some(&[1u8, 2, 3][..]));
    let f = frame::Frame::with(Kind::Choke, None);
    assert_eq!(f.len(), 1);
    assert!(f.payload().is_none());
    let f = frame::Frame::new(9, Kind::Have, None);
    assert_eq!(f.len(), 9);
}

#[test]
fn session_rejects_wrong_piece_and_offset() {
    let start = || {
        let (mut flow, _) = PeerDownload::new(State::default());
        flow.receive(Some(Frame::Bitfield(vec![])));
        flow.receive(Some(Frame::Unchoke));
        flow.picked(Some((2, 40000)));
        flow
    };
    let mut flow = start();
    let a = flow.receive(Some(Frame::Piece(Chunk { piece_index: 3, offset: 0, data: vec![0; 16384] })));
    assert!(matches!(a, Action::Fail(SessionError::WrongPiece)));
    let mut flow = start();
    let a = flow.receive(Some(Frame::Piece(Chunk { piece_index: 2, offset: 16384, data: vec![0; 16384] })));
    assert!(matches!(a, Action::Fail(SessionError::WrongOffset)));
}

#[test]
fn session_empty_piece_completes_at_once() {
    let (mut flow, _) = PeerDownload::new(State::default());
    flow.receive(Some(Frame::Bitfield(vec![])));
    flow.receive(Some(Frame::Unchoke));
    match flow.picked(Some((0, 0))) {
        Action::Complete(d) => assert_eq!(d.data.len(), 0),
        _ => panic!("expected completion"),
    }
}

#[test]
fn kind_from_every_id() {
    let kinds = [
        Kind::Choke,
        Kind::Unchoke,
        Kind::Interested,
        Kind::NotInterested,
        Kind::Have,
        Kind::Bitfield,
        Kind::Request,
        Kind::Piece,
        Kind::Cancel,
    ];
    for (i, k) in kinds.iter().enumerate() {
        assert_eq!(Kind::from(i as u8), *k);
    }
}

#[test]
fn reconnect_backoff_doubles_then_gives_up() {
    let mut b = Backoff::new();
    let mut waits = Vec::new();
    while let Some(w) = b.on_failure() {
        waits.push(w);
    }
    assert_eq!(waits, vec![1, 2, 4, 8, 16, 32, 64]);
    assert_eq!(b.on_failure(), None);
}
