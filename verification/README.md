# bittorrent_starter_rust

A small BitTorrent client. The library under `src/` holds the client's
logic, each function with a contract proved by Verus:

- `cmd/decode.rs`: a bencode decoder, with the bencode grammar as a
  specification; a law states that decoding the encoding of any value,
  whatever follows it, gives back the value.
- `metainfo.rs`, `metainfo/pieces.rs`: the metainfo model, the info hash and
  its URL encoding, and the `pieces` byte string with its round-trip laws.
- `packet.rs`: the 68-byte handshake packet and its round trip.
- `peer/connection.rs`: peer-wire frames, their encoding and the frame
  reader; laws state that reading back an encoded frame gives the frame,
  and that successive reads give back frames written one after the other.
- `peer/session.rs`, `download.rs`: the download flow of a peer session as a
  state machine, its reconnection schedule, and the chunk plan of a piece.
- `piece_picker.rs`, `torrent.rs`, `lib.rs`: piece bookkeeping (a law
  states that no piece is handed out twice while claimed), piece sizes and
  the handling of completed pieces.
- `tracker.rs`, `tracker/peers.rs`: the tracker query and the compact peer list.
- `hashing.rs`: SHA-1 and hex rendering, the calls into the `sha1` and `hex`
  crates.

`app/` is the command-line program around the library: argument parsing,
files, sockets, the tracker's HTTP request, the tokio tasks and serde.
