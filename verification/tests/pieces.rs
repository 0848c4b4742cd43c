use bittorrent_starter_rust::download::{chunk_count, chunk_size, ChunkError, PieceRequests, Chunk, CHUNK_MAX};
use bittorrent_starter_rust::metainfo::pieces::{deserialize, serialize, PiecesError};
use bittorrent_starter_rust::metainfo::{Info, Metainfo};
use bittorrent_starter_rust::piece_picker::{PiecePicker, PieceState};
use bittorrent_starter_rust::Storage;

fn meta(len: usize, piece_len: usize, count: usize) -> Metainfo {
    Metainfo {
        announce: String::new(),
        info: Info {
            name: "x".to_string(),
            piece_len,
            pieces: vec![[0; 20]; count],
            len,
            files: None,
            creation_date: None,
            comment: None,
            created_by: None,
            hash: None,
        },
    }
}

#[test]
fn pieces_serialize_and_back() {
    let pieces = vec![[1u8; 20], [2u8; 20]];
    let bytes = serialize(&pieces);
    assert_eq!(bytes.len(), 40);
    assert_eq!(bytes[19], 1);
    assert_eq!(bytes[20], 2);
    assert_eq!(deserialize(&bytes).unwrap(), pieces);
}

#[test]
fn pieces_deserialize_bad_length() {
    assert_eq!(deserialize(&[0; 21]), Err(PiecesError::Length(21)));
    assert_eq!(deserialize(&[]).unwrap().len(), 0);
}

#[test]
fn chunk_counts() {
    assert_eq!(chunk_count(0), 0);
    assert_eq!(chunk_count(1), 1);
    assert_eq!(chunk_count(CHUNK_MAX), 1);
    assert_eq!(chunk_count(CHUNK_MAX + 1), 2);
    assert_eq!(chunk_count(32768), 2);
}

#[test]
fn chunk_sizes() {
    assert_eq!(chunk_size(32768, 0), 16384);
    assert_eq!(chunk_size(32768, 1), 16384);
    assert_eq!(chunk_size(20000, 1), 3616);
    assert_eq!(chunk_size(100, 0), 100);
}

#[test]
fn storage_layout() {
    let storage = Storage::new(&meta(92063, 32768, 3), "out".to_string());
    assert_eq!(storage.piece_count(), 3);
    assert_eq!(storage.piece_size(0), 32768);
    assert_eq!(storage.piece_size(1), 32768);
    assert_eq!(storage.piece_size(2), 26527);
    assert_eq!(storage.piece_size(0) + storage.piece_size(1) + storage.piece_size(2), 92063);
}

#[test]
fn picker_picks_in_order() {
    let mut picker = PiecePicker::new(3);
    assert_eq!(picker.pick(), Some(0));
    assert_eq!(picker.pick(), Some(1));
    assert_eq!(picker.pick(), Some(2));
    assert_eq!(picker.pick(), None);
}

#[test]
fn picker_repicks_missing() {
    let mut picker = PiecePicker::new(3);
    assert_eq!(picker.pick(), Some(0));
    assert_eq!(picker.pick(), Some(1));
    picker.mark_missing(0);
    assert_eq!(picker.pick(), Some(0));
    assert_eq!(picker.pick(), Some(2));
}

#[test]
fn picker_completion() {
    let mut picker = PiecePicker::new(2);
    assert!(!picker.mark_complete(1));
    assert!(picker.mark_complete(0));
    assert_eq!(picker.pick(), None);
    assert_eq!(PieceState::Complete, PieceState::Complete);
}

#[test]
fn empty_picker() {
    let mut picker = PiecePicker::new(0);
    assert_eq!(picker.pick(), None);
}

#[test]
fn piece_requests_flow() {
    let mut req = PieceRequests::new(3, 20000);
    assert!(!req.is_done());
    let r = req.next_request();
    assert_eq!((r.index, r.begin, r.length), (3, 0, 16384));
    req.receive(Chunk { piece_index: 3, offset: 0, data: vec![1; 16384] }).unwrap();
    let r = req.next_request();
    assert_eq!((r.index, r.begin, r.length), (3, 16384, 3616));
    assert_eq!(
        req.receive(Chunk { piece_index: 4, offset: 16384, data: vec![2; 3616] }),
        Err(ChunkError::WrongPiece)
    );
    assert_eq!(
        req.receive(Chunk { piece_index: 3, offset: 0, data: vec![2; 3616] }),
        Err(ChunkError::WrongOffset)
    );
    assert_eq!(
        req.receive(Chunk { piece_index: 3, offset: 16384, data: vec![2; 10] }),
        Err(ChunkError::WrongLength)
    );
    req.receive(Chunk { piece_index: 3, offset: 16384, data: vec![2; 3616] }).unwrap();
    assert!(req.is_done());
    let piece = req.finish();
    assert_eq!(piece.index, 3);
    assert_eq!(piece.data.len(), 20000);
    assert_eq!(piece.data[16383], 1);
    assert_eq!(piece.data[16384], 2);
}

#[test]
fn picker_never_hands_out_a_claimed_piece() {
    let mut picker = PiecePicker::new(4);
    assert_eq!(picker.pick(), Some(0));
    assert_eq!(picker.pick(), Some(1));
    assert!(!picker.mark_complete(1));
    picker.mark_missing(2);
    assert_eq!(picker.pick(), Some(2));
    assert_eq!(picker.pick(), Some(3));
    assert_eq!(picker.pick(), None);
    picker.mark_missing(0);
    assert_eq!(picker.pick(), Some(0));
}

#[test]
fn pieces_deserialize_exact_multiples() {
    let bytes: Vec<u8> = (0..40).map(|i| i as u8).collect();
    let hashes = deserialize(&bytes).unwrap();
    assert_eq!(hashes.len(), 2);
    assert_eq!(hashes[0].to_vec(), bytes[..20].to_vec());
    assert_eq!(hashes[1].to_vec(), bytes[20..].to_vec());
    assert_eq!(deserialize(&[0; 39]), Err(PiecesError::Length(39)));
}
