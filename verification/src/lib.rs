//! A BitTorrent client library: the bencode format, the peer wire protocol,
//! torrent metainfo and the bookkeeping of pieces.

pub mod bencode;
pub mod bitfield;
pub mod client;
pub mod peer;
pub mod piece;
pub mod piece_assembler;
pub mod piece_picker;
pub mod torrent;
pub mod torrent_info;
pub mod torrent_session;
pub mod tracker;
pub mod trusted;
