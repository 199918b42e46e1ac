use vstd::prelude::*;
use vstd::string::StringExecFns;

use crate::bencode::keys::{interval_key, key_interval, key_peers, peers_key};
use crate::bencode::object::{
    decimal, decimal_string, extract_byte_array, extract_num, spec_extract_bytes, spec_extract_num, ExtractError, ExtractFailure,
    Object, ObjectType, Value,
};
use crate::peer::PeerAddr;
use crate::trusted::{encode_binary, percent_encoded};

verus! {

/// What the client reports to the tracker.
#[derive(Debug)]
pub struct AnnounceStats {
    pub uploaded: u64,
    pub downloaded: u64,
    pub left: u64,
}

/// The query pairs of an announce, in order, before the info hash and the
/// peer id: the port, what was uploaded, downloaded and is left, each in
/// decimal, and `compact=1`.
pub open spec fn announce_pairs_text(port: u16, stats: AnnounceStats) -> Seq<(Seq<char>, Seq<char>)> {
    seq![
        ("port"@, decimal(port as nat)),
        ("uploaded"@, decimal(stats.uploaded as nat)),
        ("downloaded"@, decimal(stats.downloaded as nat)),
        ("left"@, decimal(stats.left as nat)),
        ("compact"@, "1"@),
    ]
}

/// The query pairs of an announce; see `announce_pairs_text`.
pub fn announce_pairs(port: u16, stats: &AnnounceStats) -> (res: Vec<(String, String)>)
    ensures
        res@.map_values(|p: (String, String)| (p.0@, p.1@)) == announce_pairs_text(port, *stats),
{
    let mut res: Vec<(String, String)> = Vec::new();
    res.push(("port".to_owned(), decimal_string(port as u64)));
    res.push(("uploaded".to_owned(), decimal_string(stats.uploaded)));
    res.push(("downloaded".to_owned(), decimal_string(stats.downloaded)));
    res.push(("left".to_owned(), decimal_string(stats.left)));
    res.push(("compact".to_owned(), "1".to_owned()));
    assert(res@.map_values(|p: (String, String)| (p.0@, p.1@)) =~= announce_pairs_text(port, *stats));
    res
}

/// The peer that six bytes of a compact peer list describe: four bytes of
/// IPv4 address, then the port, most significant byte first.
pub open spec fn compact_peer(b: Seq<u8>) -> PeerAddr {
    PeerAddr { ip: [b[0], b[1], b[2], b[3]], port: (b[4] as int * 256 + b[5] as int) as u16 }
}

/// The peers of a compact peer list; trailing bytes short of a peer are ignored.
pub open spec fn compact_peers(bytes: Seq<u8>) -> Seq<PeerAddr> {
    Seq::new(bytes.len() / 6, |i: int| compact_peer(bytes.subrange(6 * i, 6 * i + 6)))
}

pub fn parse_compact_peers(bytes: &[u8]) -> (res: Vec<PeerAddr>)
    ensures
        res@ == compact_peers(bytes@),
{
    let n = bytes.len();
    let count = n / 6;
    let mut peers: Vec<PeerAddr> = Vec::with_capacity(count);
    let mut i: usize = 0;
    let mut off: usize = 0;
    while i < count
        invariant
            n == bytes@.len(),
            count == n / 6,
            i <= count,
            off == 6 * i,
            peers@ == compact_peers(bytes@).take(i as int),
        decreases count - i,
    {
        let ip = [bytes[off], bytes[off + 1], bytes[off + 2], bytes[off + 3]];
        let port = (bytes[off + 4] as u16) * 256 + (bytes[off + 5] as u16);
        let peer = PeerAddr { ip, port };
        proof {
            let chunk = bytes@.subrange(6 * i, 6 * i + 6);
            assert(peer.ip@ =~= compact_peer(chunk).ip@);
            assert(peer == compact_peer(chunk));
        }
        peers.push(peer);
        i = i + 1;
        off = off + 6;
        assert(peers@ =~= compact_peers(bytes@).take(i as int));
    }
    assert(compact_peers(bytes@).take(i as int) =~= compact_peers(bytes@));
    peers
}

/// Why a tracker's response could not be read.
#[derive(Debug)]
pub enum TrackerError {
    NotADictionary,
    Extract(ExtractError),
}

impl TrackerError {
    /// The error as text, as it is shown to a user.
    pub fn message(&self) -> (res: String)
        ensures
            match self {
                TrackerError::NotADictionary => res@ == "Expected a dictionary"@,
                TrackerError::Extract(e) => e.shown_as(res),
            },
    {
        match self {
            TrackerError::NotADictionary => "Expected a dictionary".to_owned(),
            TrackerError::Extract(e) => e.message(),
        }
    }
}

/// Reads a decoded tracker response: the interval until the next announce
/// (the number taken as a `u64`), and then the peers. The interval is given
/// even where the peers cannot be read.
pub fn read_announce_response(object: &Object) -> (res: Result<(u64, Result<Vec<PeerAddr>, ExtractError>), TrackerError>)
    ensures
        match object@.value {
            Value::Dictionary(d) => match spec_extract_num(d, key_interval()) {
                Err(f) => res matches Err(TrackerError::Extract(e)) && e.is(f),
                Ok(interval) => res matches Ok((i, peers)) && i == interval as u64 && match spec_extract_bytes(d, key_peers()) {
                    Ok(b) => peers matches Ok(p) && p@ == compact_peers(b),
                    Err(f) => peers matches Err(e) && e.is(f),
                },
            },
            _ => res matches Err(TrackerError::NotADictionary),
        },
{
    let dict = match object.object_type() {
        ObjectType::Dictionary(d) => d,
        _ => return Err(TrackerError::NotADictionary),
    };
    let interval = match extract_num(dict, interval_key().as_slice()) {
        Ok(n) => n as u64,
        Err(e) => return Err(TrackerError::Extract(e)),
    };
    let peers = match extract_byte_array(dict, peers_key().as_slice()) {
        Ok(b) => Ok(parse_compact_peers(b.as_slice())),
        Err(e) => Err(e),
    };
    Ok((interval, peers))
}

/// The tail of an announce query: the info hash and the peer id,
/// percent-encoded, each after `&`.
pub open spec fn announce_query_suffix_text(info_hash: Seq<u8>, peer_id: Seq<u8>) -> Seq<char> {
    "&info_hash="@ + percent_encoded(info_hash) + "&peer_id="@ + percent_encoded(peer_id)
}

pub fn announce_query_suffix(info_hash: &[u8; 20], peer_id: &[u8; 20]) -> (res: String)
    ensures
        res@ == announce_query_suffix_text(info_hash@, peer_id@),
{
    let mut query = "&info_hash=".to_owned();
    query.append(encode_binary(info_hash.as_slice()).as_str());
    query.append("&peer_id=");
    query.append(encode_binary(peer_id.as_slice()).as_str());
    query
}

} // verus!
