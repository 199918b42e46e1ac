# bittorrent

A BitTorrent client. The library under `src/` holds its logic, verified with
Verus: the bencode decoder, the `.torrent` metainfo reader and its info hash,
the peer wire protocol (messages, handshake, block requests, piece
assembly), bitfields, the piece picker, piece validation and the tracker
response reader. `app/` is the program around it: command-line handling,
files, TCP connections to peers, HTTP announces and the tokio tasks that
tie them together.

- `src/bencode/` — the grammar of bencode as spec functions, a decoder proved
  against it, and dictionaries whose keys are distinct.
- `src/torrent_info.rs` — what a `.torrent` file says, and the piece layout.
- `src/peer.rs` — message encoding and decoding (each undoes the other), the
  handshake, peer state, block requests that cover a piece exactly, and a
  piece download buffer.
- `src/piece_picker.rs`, `src/torrent.rs` — which piece a peer is given.
- `src/trusted.rs` — the contracts of the outside functions called (SHA-1,
  URL parsing, percent-encoding, UTF-8 conversion).
- `tests/` — tests of the library on concrete values.
