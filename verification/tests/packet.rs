use bittorrent_starter_rust::metainfo::{Info, Metainfo};
use bittorrent_starter_rust::packet::{HandshakePacket, PEER_ID};

const SAMPLE_PIECES: [[u8; 20]; 3] = [
    [
        0xe8, 0x76, 0xf6, 0x7a, 0x2a, 0x88, 0x86, 0xe8, 0xf3, 0x6b, 0x13, 0x67, 0x26, 0xc3, 0x0f,
        0xa2, 0x97, 0x03, 0x02, 0x2d,
    ],
    [
        0x6e, 0x22, 0x75, 0xe6, 0x04, 0xa0, 0x76, 0x66, 0x56, 0x73, 0x6e, 0x81, 0xff, 0x10, 0xb5,
        0x52, 0x04, 0xad, 0x8d, 0x35,
    ],
    [
        0xf0, 0x0d, 0x93, 0x7a, 0x02, 0x13, 0xdf, 0x19, 0x82, 0xbc, 0x8d, 0x09, 0x72, 0x27, 0xad,
        0x9e, 0x90, 0x9a, 0xcc, 0x17,
    ],
];

/// The sample torrent's metainfo.
fn sample_torrent() -> Metainfo {
    Metainfo {
        announce: "http://bittorrent-test-tracker.codecrafters.io/announce".to_string(),
        info: Info {
            name: "sample.txt".to_string(),
            piece_len: 32768,
            pieces: SAMPLE_PIECES.to_vec(),
            len: 92063,
            files: None,
            creation_date: None,
            comment: None,
            created_by: None,
            hash: None,
        },
    }
}

/// The bencoding of the sample torrent's info dictionary.
fn sample_info_encoded() -> Vec<u8> {
    let mut v = b"d6:lengthi92063e4:name10:sample.txt12:piece lengthi32768e6:pieces60:".to_vec();
    for p in SAMPLE_PIECES.iter() {
        v.extend_from_slice(p);
    }
    v.push(b'e');
    v
}

const SAMPLE_BYTES: [u8; 68] = [
    19, 66, 105, 116, 84, 111, 114, 114, 101, 110, 116, 32, 112, 114, 111, 116, 111, 99, 111, 108,
    0, 0, 0, 0, 0, 0, 0, 0, 214, 159, 145, 230, 178, 174, 76, 84, 36, 104, 209, 7, 58, 113, 212,
    234, 19, 135, 154, 127, 106, 111, 114, 100, 105, 49, 50, 51, 52, 53, 54, 55, 56, 57, 97, 98, 99,
    100, 101, 102,
];

#[test]
fn handshake_packet_as_bytes() {
    let torrent = sample_torrent();
    let packet = HandshakePacket::new(torrent.info.hash(&sample_info_encoded()), PEER_ID);
    let bytes = packet.as_bytes();
    assert_eq!(bytes.as_slice(), &SAMPLE_BYTES[..]);
}

#[test]
fn handshake_packet_from_bytes() {
    let bytes = SAMPLE_BYTES;
    let packet = HandshakePacket::from_bytes(&bytes).expect("parse packet from bytes");
    let torrent = sample_torrent();
    assert_eq!(*packet.info_hash(), torrent.info.hash(&sample_info_encoded()));
    assert!(packet.is_valid_protocol());
}

#[test]
fn handshake_packet_from_invalid_bytes() {
    let bytes = [0; 67]; // One byte too short
    assert!(HandshakePacket::from_bytes(&bytes).is_none());
}

#[test]
fn handshake_packet_size_is_68() {
    assert_eq!(HandshakePacket::size(), 68);
}

#[test]
fn handshake_packet_from_too_long_bytes() {
    let bytes = [0; 69];
    assert!(HandshakePacket::from_bytes(&bytes).is_none());
}

#[test]
fn handshake_packet_round_trip() {
    let packet = HandshakePacket::new([7; 20], [9; 20]);
    let bytes = packet.as_bytes();
    let back = HandshakePacket::from_bytes(&bytes).unwrap();
    assert_eq!(back.as_bytes(), bytes);
    assert_eq!(*back.info_hash(), [7; 20]);
    assert_eq!(*back.peer_id(), [9; 20]);
    assert!(back.is_valid_protocol());
}

#[test]
fn handshake_packet_wrong_protocol() {
    let mut bytes = SAMPLE_BYTES;
    bytes[3] = b'X';
    let packet = HandshakePacket::from_bytes(&bytes).unwrap();
    assert!(!packet.is_valid_protocol());
    bytes = SAMPLE_BYTES;
    bytes[0] = 18;
    let packet = HandshakePacket::from_bytes(&bytes).unwrap();
    assert!(!packet.is_valid_protocol());
}

#[test]
fn handshake_peer_id_is_read() {
    let packet = HandshakePacket::from_bytes(&SAMPLE_BYTES).unwrap();
    assert_eq!(packet.peer_id(), b"jordi123456789abcdef");
}

#[test]
fn info_hash_of_sample_torrent() {
    let torrent = sample_torrent();
    let hash = torrent.info.hash(&sample_info_encoded());
    assert_eq!(hex::encode(hash), "d69f91e6b2ae4c542468d1073a71d4ea13879a7f");
}

#[test]
fn info_hash_prefers_cached_hash() {
    let mut torrent = sample_torrent();
    torrent.info.hash = Some([1; 20]);
    assert_eq!(torrent.info.hash(&sample_info_encoded()), [1; 20]);
}

#[test]
fn info_urlencode_of_sample_torrent() {
    let torrent = sample_torrent();
    assert_eq!(
        torrent.info.urlencode(&sample_info_encoded()),
        "%d6%9f%91%e6%b2%ae%4c%54%24%68%d1%07%3a%71%d4%ea%13%87%9a%7f"
    );
}

#[test]
fn metainfo_accessors() {
    let torrent = sample_torrent();
    assert_eq!(torrent.len(), 92063);
    assert_eq!(torrent.piece_len(), 32768);
    assert_eq!(torrent.pieces().len(), 3);
    assert_eq!(torrent.pieces()[1], SAMPLE_PIECES[1]);
}
