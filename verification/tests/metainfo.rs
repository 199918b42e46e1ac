use bittorrent::bencode::decode::decode_object;
use bittorrent::bencode::object::ExtractError;
use bittorrent::peer::PeerAddr;
use bittorrent::piece::ActivePiece;
use bittorrent::torrent_info::{check_pieces_fit, extract_metainfo, TorrentError, TorrentInfo};
use bittorrent::tracker::{
    announce_pairs, announce_query_suffix, parse_compact_peers, read_announce_response, AnnounceStats, TrackerError,
};

fn bstr(s: &[u8]) -> Vec<u8> {
    let mut v = format!("{}:", s.len()).into_bytes();
    v.extend_from_slice(s);
    v
}

fn torrent_bytes(announce: &[u8], piece_length: i64, length: i64, pieces: &[u8]) -> Vec<u8> {
    let mut info = b"d".to_vec();
    info.extend(bstr(b"length"));
    info.extend(format!("i{}e", length).into_bytes());
    info.extend(bstr(b"name"));
    info.extend(bstr(b"a.txt"));
    info.extend(bstr(b"piece length"));
    info.extend(format!("i{}e", piece_length).into_bytes());
    info.extend(bstr(b"pieces"));
    info.extend(bstr(pieces));
    info.push(b'e');
    let mut t = b"d".to_vec();
    t.extend(bstr(b"announce"));
    t.extend(bstr(announce));
    t.extend(bstr(b"announce-list"));
    t.extend(b"ll".to_vec());
    t.extend(bstr(b"HTTP://Tracker.Example.com"));
    t.extend(b"el".to_vec());
    t.extend(bstr(b"udp://other.example:80/x"));
    t.extend(b"ee".to_vec());
    t.extend(bstr(b"comment"));
    t.extend(bstr(b"test"));
    t.extend(bstr(b"created by"));
    t.extend(bstr(b"me"));
    t.extend(bstr(b"creation date"));
    t.extend(b"i1700000000e".to_vec());
    t.extend(bstr(b"info"));
    t.extend(info);
    t.push(b'e');
    t
}

fn info_part(t: &[u8]) -> &[u8] {
    let start = t.windows(6).position(|w| w == b"4:info").unwrap() + 6;
    &t[start..t.len() - 1]
}

#[test]
fn torrent_info_from_object() {
    let pieces: Vec<u8> = (0u8..40).collect();
    let bytes = torrent_bytes(b"http://tracker.example.com/announce", 32768, 40000, &pieces);
    let info = TorrentInfo::from_object(decode_object(&bytes)).unwrap();
    assert_eq!(info.announce, "http://tracker.example.com/announce");
    assert_eq!(info.announce_list, vec![vec!["http://tracker.example.com/".to_string()], vec!["udp://other.example:80/x".to_string()]]);
    assert_eq!(info.comment, "test");
    assert_eq!(info.created_by, "me");
    assert_eq!(info.creation_date, 1700000000);
    assert_eq!(info.name, "a.txt");
    assert_eq!(info.length, 40000);
    assert_eq!(info.piece_length, 32768);
    assert_eq!(info.pieces.len(), 2);
    assert_eq!(info.pieces[0].length, 32768);
    assert_eq!(info.pieces[1].length, 7232);
    assert_eq!(info.pieces[1].index, 1);
    assert_eq!(info.pieces[1].hash.to_vec(), pieces[20..40].to_vec());
    assert_eq!(info.piece_hashes()[0].to_vec(), pieces[0..20].to_vec());
    // the info hash is the SHA-1 of the info dictionary's bytes as they appear
    let probe = ActivePiece { index: 0, length: 0, data: info_part(&bytes).to_vec() };
    assert!(probe.verify(&info.info_hash));
}

#[test]
fn torrent_info_errors() {
    let pieces = [0u8; 40];
    let bad_url = torrent_bytes(b"not a url", 32768, 40000, &pieces);
    assert!(matches!(
        TorrentInfo::from_object(decode_object(&bad_url)),
        Err(TorrentError::InvalidAnnounceUrl(_))
    ));
    let bad_pieces = torrent_bytes(b"http://t/", 32768, 40000, &pieces[..30]);
    match TorrentInfo::from_object(decode_object(&bad_pieces)) {
        Err(TorrentError::Extract(ExtractError::InvalidPiecesLength(30, 20))) => {}
        other => panic!("unexpected {:?}", other),
    }
    let negative = torrent_bytes(b"http://t/", 32768, -1, &pieces);
    assert!(matches!(TorrentInfo::from_object(decode_object(&negative)), Err(TorrentError::LengthOutOfRange)));
    let wide = torrent_bytes(b"http://t/", 1i64 << 33, 40000, &pieces);
    assert!(matches!(TorrentInfo::from_object(decode_object(&wide)), Err(TorrentError::PieceLengthOutOfRange)));
    // a wide piece length is accepted where it may be a u64
    assert!(extract_metainfo(&decode_object(&wide), u64::MAX).is_ok());
    assert!(matches!(TorrentInfo::from_object(decode_object(b"i1e")), Err(TorrentError::NotADictionary)));
    match TorrentInfo::from_object(decode_object(b"de")) {
        Err(TorrentError::Extract(ExtractError::MissingKey(k))) => assert_eq!(k, "announce"),
        other => panic!("unexpected {:?}", other),
    }
    // the last piece would be longer than a piece: refused before laying out
    let too_long = torrent_bytes(b"http://t/", 100, 40000, &pieces);
    assert!(TorrentInfo::try_from_object(decode_object(&too_long)).is_none());
    assert!(TorrentInfo::try_from_object(decode_object(&bad_url)).unwrap().is_err());
}

fn error_text(bytes: &[u8]) -> String {
    match TorrentInfo::from_object(decode_object(bytes)) {
        Err(e) => e.message(),
        Ok(_) => panic!("expected an error"),
    }
}

#[test]
fn torrent_error_messages() {
    let pieces = [0u8; 40];
    assert_eq!(error_text(b"i1e"), "top level object is not a dictionary");
    assert_eq!(error_text(b"de"), "Missing key 'announce'");
    assert_eq!(error_text(&torrent_bytes(b"http://t/", 32768, -1, &pieces)), "length is negative or too large");
    assert_eq!(
        error_text(&torrent_bytes(b"http://t/", 1i64 << 33, 40000, &pieces)),
        "piece length is negative or too large"
    );
    assert_eq!(
        error_text(&torrent_bytes(b"http://t/", 32768, 40000, &pieces[..30])),
        "length 30 is not a mupliple of 20"
    );
    assert_eq!(error_text(&torrent_bytes(b"not a url", 32768, 40000, &pieces)), "invalid announce URL");
    assert_eq!(TorrentError::MissingInfo.message(), "missing key info");
    assert_eq!(TorrentError::CreationDateOutOfRange.message(), "creation date is negative or too large");
    assert_eq!(TorrentError::AnnounceTierNotAList.message(), "expected key announce-list to be of type list");
    assert_eq!(TorrentError::AnnounceUrlNotAByteString.message(), "Expected key announce-list to be byte string");
}

#[test]
fn tracker_error_messages() {
    match read_announce_response(&decode_object(b"le")) {
        Err(e) => assert_eq!(e.message(), "Expected a dictionary"),
        Ok(_) => panic!("expected an error"),
    }
    match read_announce_response(&decode_object(b"de")) {
        Err(e @ TrackerError::Extract(_)) => assert_eq!(e.message(), "Missing key 'interval'"),
        other => panic!("unexpected {:?}", other),
    }
}

#[test]
fn pieces_fit_edges() {
    assert!(check_pieces_fit(0, 10, 0));
    assert!(check_pieces_fit(10, 10, 1));
    assert!(!check_pieces_fit(0, 10, 1));
    assert!(!check_pieces_fit(21, 10, 2));
    assert!(check_pieces_fit(11, 10, 2));
    assert!(!check_pieces_fit(u64::MAX, u64::MAX, 3));
}

#[test]
fn compact_peers() {
    let peers = parse_compact_peers(&[10, 0, 0, 1, 0x1a, 0xe1, 192, 168, 1, 2, 0, 80, 7]);
    assert_eq!(
        peers,
        vec![PeerAddr { ip: [10, 0, 0, 1], port: 6881 }, PeerAddr { ip: [192, 168, 1, 2], port: 80 }]
    );
}

#[test]
fn announce_response() {
    let mut r = b"d8:intervali900e5:peers6:".to_vec();
    r.extend_from_slice(&[1, 2, 3, 4, 0, 1]);
    r.push(b'e');
    let (interval, peers) = read_announce_response(&decode_object(&r)).unwrap();
    assert_eq!(interval, 900);
    assert_eq!(peers.unwrap(), vec![PeerAddr { ip: [1, 2, 3, 4], port: 1 }]);
    let (interval, peers) = read_announce_response(&decode_object(b"d8:intervali5ee")).unwrap();
    assert_eq!(interval, 5);
    assert!(matches!(peers, Err(ExtractError::MissingKey(_))));
    assert!(read_announce_response(&decode_object(b"le")).is_err());
}

#[test]
fn announce_suffix_percent_encodes() {
    let mut h = [b'a'; 20];
    h[0] = 0x00;
    h[1] = 0xff;
    h[2] = b'~';
    let s = announce_query_suffix(&h, &[b'Z'; 20]);
    assert_eq!(s, format!("&info_hash=%00%FF~{}&peer_id={}", "a".repeat(17), "Z".repeat(20)));
}

#[test]
fn announce_pairs_in_decimal() {
    let stats = AnnounceStats { uploaded: 0, downloaded: 16384, left: u64::MAX };
    let pairs = announce_pairs(6881, &stats);
    let expected: Vec<(String, String)> = vec![
        ("port".to_string(), "6881".to_string()),
        ("uploaded".to_string(), "0".to_string()),
        ("downloaded".to_string(), "16384".to_string()),
        ("left".to_string(), "18446744073709551615".to_string()),
        ("compact".to_string(), "1".to_string()),
    ];
    assert_eq!(pairs, expected);
}
