use bittorrent_starter_rust::cmd::download_piece::DownloadPiece;
use bittorrent_starter_rust::download::PieceDownload;
use bittorrent_starter_rust::metainfo::{Info, Metainfo};
use bittorrent_starter_rust::torrent::{
    check_completion, connection_budget, piece_offset, Completion, Conf, PiecePicker,
};
use bittorrent_starter_rust::tracker::peers::{deserialize, PeersError};
use bittorrent_starter_rust::tracker::Query;
use bittorrent_starter_rust::Storage;
use sha1::{Digest, Sha1};
use std::path::PathBuf;

fn meta_with(pieces: Vec<[u8; 20]>, len: usize, piece_len: usize) -> Metainfo {
    Metainfo {
        announce: String::new(),
        info: Info {
            name: "x".to_string(),
            piece_len,
            pieces,
            len,
            files: None,
            creation_date: None,
            comment: None,
            created_by: None,
            hash: None,
        },
    }
}

#[test]
fn torrent_picker_sizes() {
    let meta = meta_with(vec![[0; 20]; 3], 10, 4);
    let mut picker = PiecePicker::new(Storage::new(&meta, "d".to_string()));
    assert_eq!(picker.pick(), Some((0, 4)));
    assert_eq!(picker.pick(), Some((1, 4)));
    assert_eq!(picker.pick(), Some((2, 2)));
    assert_eq!(picker.pick(), None);
    assert!(!picker.mark_complete(0));
    assert!(!picker.mark_complete(1));
    assert!(picker.mark_complete(2));
}

#[test]
fn completion_checks_hash() {
    let good: [u8; 20] = Sha1::digest(b"abcd").into();
    let meta = meta_with(vec![[0; 20], good], 8, 4);
    let mut picker = PiecePicker::new(Storage::new(&meta, "d".to_string()));
    assert_eq!(picker.pick(), Some((0, 4)));
    assert_eq!(picker.pick(), Some((1, 4)));
    let c = check_completion(&mut picker, &meta, &PieceDownload { index: 1, data: b"abcd".to_vec() });
    assert_eq!(c, Completion::Valid);
    assert_eq!(piece_offset(1, 4), 4);
    let c = check_completion(&mut picker, &meta, &PieceDownload { index: 0, data: b"abcd".to_vec() });
    assert_eq!(c, Completion::Invalid);
    // The invalid piece is picked again.
    assert_eq!(picker.pick(), Some((0, 4)));
}

#[test]
fn conf_default() {
    assert_eq!(Conf::default().max_connections, 50);
}

#[test]
fn budget() {
    assert_eq!(connection_budget(3, 50, 0), 3);
    assert_eq!(connection_budget(30, 50, 40), 10);
}

#[test]
fn query_defaults() {
    let q = Query::new("peer".to_string(), 92063);
    assert_eq!(q.peer_id, "peer");
    assert_eq!(q.port, 6881);
    assert_eq!(q.uploaded, 0);
    assert_eq!(q.downloaded, 0);
    assert_eq!(q.left, 92063);
    assert_eq!(q.compact, 1);
}

#[test]
fn compact_peers() {
    let peers = deserialize(&[165, 232, 33, 77, 0xc8, 0xd5, 1, 2, 3, 4, 0, 80]).unwrap();
    assert_eq!(peers.len(), 2);
    assert_eq!(peers[0].ip, [165, 232, 33, 77]);
    assert_eq!(peers[0].port, 51413);
    assert_eq!(peers[1].ip, [1, 2, 3, 4]);
    assert_eq!(peers[1].port, 80);
}

#[test]
fn compact_peers_bad_length() {
    assert!(matches!(deserialize(&[1, 2, 3, 4, 5]), Err(PeersError::InvalidLength(5))));
}

#[test]
fn download_piece_sizes() {
    let meta = meta_with(vec![[0; 20]; 3], 92063, 32768);
    let cmd = |piece| DownloadPiece { path: PathBuf::from("a"), output: PathBuf::from("b"), piece };
    assert_eq!(cmd(0).target_size(&meta), Some(32768));
    assert_eq!(cmd(2).target_size(&meta), Some(26527));
    assert_eq!(cmd(3).target_size(&meta), None);
    let even = meta_with(vec![[0; 20]; 2], 8, 4);
    assert_eq!(cmd(1).target_size(&even), Some(4));
}

#[test]
fn piece_sizes_agree_with_storage() {
    let meta = meta_with(vec![[0; 20]; 3], 92063, 32768);
    let storage = Storage::new(&meta, "d".to_string());
    for piece in 0..3 {
        let cmd = DownloadPiece { path: PathBuf::from("a"), output: PathBuf::from("b"), piece };
        assert_eq!(cmd.target_size(&meta), Some(storage.piece_size(piece)));
    }
}

#[test]
fn compact_peers_in_order() {
    let peers = deserialize(&[127, 0, 0, 1, 26, 225, 10, 0, 0, 2, 0, 80]).unwrap();
    assert_eq!(peers.len(), 2);
    assert_eq!(peers[0].ip, [127, 0, 0, 1]);
    assert_eq!(peers[0].port, 6881);
    assert_eq!(peers[1].ip, [10, 0, 0, 2]);
    assert_eq!(peers[1].port, 80);
    assert_eq!(deserialize(&[]).unwrap().len(), 0);
}

#[test]
fn piece_offsets() {
    assert_eq!(piece_offset(0, 32768), 0);
    assert_eq!(piece_offset(3, 32768), 98304);
}
