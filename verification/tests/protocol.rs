use bittorrent::bitfield::BitField;
use bittorrent::peer::{
    new_peers, block_requests, build_handshake, check_handshake, request_block, HandshakeError, Message, MessageError,
    Peer, PeerAddr, PieceDownload, PieceError,
};

fn roundtrip(m: Message) -> Message {
    let bytes = m.encode();
    let len = u32::from_be_bytes([bytes[0], bytes[1], bytes[2], bytes[3]]) as usize;
    assert_eq!(len, bytes.len() - 4);
    assert!(Message::is_decodable(&bytes[4..]));
    Message::decode(&bytes[4..]).unwrap()
}

#[test]
fn message_encodings() {
    assert_eq!(Message::KeepAlive.encode(), vec![0, 0, 0, 0]);
    assert_eq!(Message::Choke.encode(), vec![0, 0, 0, 1, 0]);
    assert_eq!(Message::Unchoke.encode(), vec![0, 0, 0, 1, 1]);
    assert_eq!(Message::Interested.encode(), vec![0, 0, 0, 1, 2]);
    assert_eq!(Message::NotInterested.encode(), vec![0, 0, 0, 1, 3]);
    assert_eq!(Message::Have(0x01020304).encode(), vec![0, 0, 0, 5, 4, 1, 2, 3, 4]);
    assert_eq!(Message::BitField(vec![0xff, 0x80]).encode(), vec![0, 0, 0, 3, 5, 0xff, 0x80]);
    assert_eq!(
        Message::Request { index: 1, begin: 16384, length: 16384 }.encode(),
        vec![0, 0, 0, 13, 6, 0, 0, 0, 1, 0, 0, 0x40, 0, 0, 0, 0x40, 0]
    );
    assert_eq!(
        Message::Piece { index: 2, begin: 0, block: vec![9, 9] }.encode(),
        vec![0, 0, 0, 11, 7, 0, 0, 0, 2, 0, 0, 0, 0, 9, 9]
    );
    assert_eq!(
        Message::Cancel { index: 1, begin: 2, length: 3 }.encode(),
        vec![0, 0, 0, 13, 8, 0, 0, 0, 1, 0, 0, 0, 2, 0, 0, 0, 3]
    );
}

#[test]
fn message_roundtrip_law() {
    assert!(matches!(roundtrip(Message::Choke), Message::Choke));
    assert!(matches!(roundtrip(Message::Unchoke), Message::Unchoke));
    assert!(matches!(roundtrip(Message::Interested), Message::Interested));
    assert!(matches!(roundtrip(Message::NotInterested), Message::NotInterested));
    assert!(matches!(roundtrip(Message::Have(77)), Message::Have(77)));
    match roundtrip(Message::BitField(vec![1, 2, 3])) {
        Message::BitField(b) => assert_eq!(b, vec![1, 2, 3]),
        m => panic!("unexpected {:?}", m),
    }
    assert!(matches!(
        roundtrip(Message::Request { index: 5, begin: 6, length: 7 }),
        Message::Request { index: 5, begin: 6, length: 7 }
    ));
    match roundtrip(Message::Piece { index: 8, begin: 9, block: vec![4, 5] }) {
        Message::Piece { index: 8, begin: 9, block } => assert_eq!(block, vec![4, 5]),
        m => panic!("unexpected {:?}", m),
    }
    assert!(matches!(
        roundtrip(Message::Cancel { index: 0xdeadbeef, begin: 1, length: 2 }),
        Message::Cancel { index: 0xdeadbeef, begin: 1, length: 2 }
    ));
}

#[test]
fn message_decode_errors() {
    assert_eq!(Message::decode(&[]).unwrap_err(), MessageError::IdMissing);
    assert_eq!(Message::decode(&[9]).unwrap_err(), MessageError::InvalidId);
    assert!(!Message::is_decodable(&[4, 0, 0]));
    assert!(!Message::is_decodable(&[6, 0, 0, 0, 0]));
    assert!(!Message::is_decodable(&[7, 0]));
    assert!(Message::is_decodable(&[5]));
    // a state message ignores a payload
    assert!(matches!(Message::decode(&[1, 9, 9]).unwrap(), Message::Unchoke));
    // a request ignores bytes past its three numbers
    assert!(matches!(
        Message::decode(&[6, 0, 0, 0, 1, 0, 0, 0, 2, 0, 0, 0, 3, 7]).unwrap(),
        Message::Request { index: 1, begin: 2, length: 3 }
    ));
}

#[test]
fn handshake_layout_and_check() {
    let info_hash = [7u8; 20];
    let client_id = [9u8; 20];
    let h = build_handshake(&info_hash, &client_id);
    assert_eq!(h.len(), 68);
    assert_eq!(h[0], 19);
    assert_eq!(&h[1..20], b"BitTorrent protocol");
    assert_eq!(&h[20..28], &[0u8; 8]);
    assert_eq!(&h[28..48], &info_hash);
    assert_eq!(&h[48..68], &client_id);
    assert_eq!(check_handshake(&h, &info_hash), Ok(client_id));

    let mut bad = h.clone();
    bad[0] = 18;
    assert_eq!(check_handshake(&bad, &info_hash), Err(HandshakeError::InvalidPstrlen));
    let mut bad = h.clone();
    bad[3] = b'X';
    assert_eq!(check_handshake(&bad, &info_hash), Err(HandshakeError::InvalidPstr));
    assert_eq!(check_handshake(&h, &[1u8; 20]), Err(HandshakeError::InfoHashMismatch));
}

#[test]
fn bitfield_set_and_has() {
    let mut b = BitField::empty(10);
    assert_eq!(b.bytes, vec![0, 0]);
    assert!(!b.has_piece(0));
    b.set_piece(0);
    b.set_piece(9);
    b.set_piece(10);
    assert_eq!(b.bytes, vec![0x80, 0x40]);
    assert!(b.has_piece(0));
    assert!(b.has_piece(9));
    assert!(!b.has_piece(1));
    assert!(!b.has_piece(10));
    let c = BitField::new(vec![0b1010_0000], 3);
    assert!(c.has_piece(0));
    assert!(!c.has_piece(1));
    assert!(c.has_piece(2));
    assert!(!c.has_piece(3));
}

#[test]
fn peer_state_from_messages() {
    let mut p = Peer::new(PeerAddr { ip: [127, 0, 0, 1], port: 6881 });
    assert!(p.is_chocked());
    assert!(!p.is_interested());
    p.connected([3u8; 20], 16);
    assert!(!p.update_from_message(&Message::Interested, 16));
    assert!(p.is_interested());
    assert!(!p.update_from_message(&Message::Have(3), 16));
    assert!(p.bitfield().has_piece(3));
    assert!(p.update_from_message(&Message::Unchoke, 16));
    assert!(!p.is_chocked());
    assert!(!p.update_from_message(&Message::KeepAlive, 16));
    assert!(p.update_from_message(&Message::BitField(vec![0xff, 0x00]), 16));
    assert!(p.bitfield().has_piece(7));
    assert!(!p.bitfield().has_piece(8));
    assert!(!p.update_from_message(&Message::Choke, 16));
    assert!(!p.update_from_message(&Message::NotInterested, 16));
    assert!(!p.is_interested());
    assert_eq!(p.addr(), PeerAddr { ip: [127, 0, 0, 1], port: 6881 });
}

#[test]
fn peer_accepts_have_within_its_bitfield() {
    let mut p = Peer::new(PeerAddr { ip: [10, 0, 0, 1], port: 1 });
    p.connected([0u8; 20], 16);
    assert!(p.accepts(&Message::Have(15)));
    assert!(p.accepts(&Message::Have(16)));
    assert!(p.accepts(&Message::Choke));
    p.set_bitfield(BitField::new(vec![0], 16));
    assert!(p.accepts(&Message::Have(7)));
    assert!(!p.accepts(&Message::Have(8)));
    assert!(p.accepts(&Message::Have(16)));
}

#[test]
fn block_requests_cover_the_piece() {
    let reqs = block_requests(3, 40000);
    assert_eq!(reqs.len(), 3);
    let mut next = 0u32;
    for r in &reqs {
        match r {
            Message::Request { index: 3, begin, length } => {
                assert_eq!(*begin, next);
                assert!(*length > 0 && *length <= 16384);
                next += *length;
            }
            m => panic!("unexpected {:?}", m),
        }
    }
    assert_eq!(next, 40000);
    assert!(matches!(request_block(2, 3, 40000), Message::Request { index: 3, begin: 32768, length: 7232 }));
    assert_eq!(block_requests(0, 16384).len(), 1);
    assert_eq!(block_requests(0, 0).len(), 0);
}

#[test]
fn piece_download_assembles_blocks() {
    let mut d = PieceDownload::new(1, 5);
    assert!(!d.is_complete());
    assert_eq!(d.on_block(2, 0, &[1]), Err(PieceError::WrongPiece));
    assert!(d.block_fits(3, 2));
    assert!(!d.block_fits(4, 2));
    assert_eq!(d.on_block(1, 3, &[4, 5]), Ok(()));
    assert!(d.is_complete());
    let p = d.into_piece();
    assert_eq!(p.data, vec![0, 0, 0, 4, 5]);
    let mut d2 = PieceDownload::new(1, 20000);
    d2.on_block(1, 0, &[1u8; 16384]).unwrap();
    d2.on_block(1, 16384, &[2u8; 3616]).unwrap();
    assert!(d2.is_complete());
    let piece = d2.into_piece();
    assert_eq!(piece.index, 1);
    assert_eq!(piece.length, 20000);
    assert_eq!(piece.data[16383], 1);
    assert_eq!(piece.data[16384], 2);
}

#[test]
fn new_peers_drops_seen_and_repeated_addresses() {
    let a = PeerAddr { ip: [1, 1, 1, 1], port: 1 };
    let b = PeerAddr { ip: [2, 2, 2, 2], port: 2 };
    let c = PeerAddr { ip: [2, 2, 2, 2], port: 3 };
    let mut seen = vec![a];
    let fresh = new_peers(&mut seen, vec![Peer::new(a), Peer::new(b), Peer::new(c), Peer::new(b)]);
    let addrs: Vec<PeerAddr> = fresh.iter().map(|p| p.addr()).collect();
    assert_eq!(addrs, vec![b, c]);
    assert_eq!(seen, vec![a, b, c]);
    assert!(new_peers(&mut seen, vec![Peer::new(c)]).is_empty());
    assert_eq!(seen, vec![a, b, c]);
}

#[test]
fn set_piece_changes_only_its_bit() {
    let mut f = BitField::new(vec![0b0000_0001, 0xff], 10);
    f.set_piece(0);
    assert_eq!(f.bytes, vec![0b1000_0001, 0xff]);
    f.set_piece(9);
    assert_eq!(f.bytes, vec![0b1000_0001, 0xff]);
    f.set_piece(12);
    assert_eq!(f.bytes, vec![0b1000_0001, 0xff]);
    let mut g = BitField::new(vec![0, 0], 10);
    g.set_piece(9);
    assert_eq!(g.bytes, vec![0, 0b0100_0000]);
}

#[test]
fn connected_peer_has_an_empty_bitfield() {
    let mut p = Peer::new(PeerAddr { ip: [10, 0, 0, 2], port: 2 });
    p.connected([1u8; 20], 17);
    assert_eq!(p.bitfield().bytes, vec![0, 0, 0]);
    assert_eq!(p.bitfield().num_pieces, 17);
    p.update_from_message(&Message::Have(16), 17);
    assert_eq!(p.bitfield().bytes, vec![0, 0, 0b1000_0000]);
}

#[test]
fn successive_batches_never_repeat_an_address() {
    let a = PeerAddr { ip: [3, 3, 3, 3], port: 30 };
    let b = PeerAddr { ip: [4, 4, 4, 4], port: 40 };
    let mut seen = Vec::new();
    assert_eq!(new_peers(&mut seen, vec![Peer::new(a)]).len(), 1);
    let second = new_peers(&mut seen, vec![Peer::new(b), Peer::new(a)]);
    assert_eq!(second.len(), 1);
    assert_eq!(second[0].addr(), b);
    assert!(new_peers(&mut seen, vec![Peer::new(a), Peer::new(b)]).is_empty());
    assert_eq!(seen, vec![a, b]);
}
