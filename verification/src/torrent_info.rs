use vstd::prelude::*;
use vstd::string::StringExecFns;
use vstd::utf8::{decode_utf8, valid_utf8};

use crate::bencode::decode::{decodable, decoded, lemma_dictionary_values_from_input, parse_object};
use crate::bencode::keys::{
    announce_key, announce_list_key, comment_key, created_by_key, creation_date_key, info_key, key_announce,
    key_announce_list, key_comment, key_created_by, key_creation_date, key_info, key_length, key_name,
    key_piece_length, key_pieces, length_key, name_key, piece_length_key, pieces_key,
};
use crate::bencode::object::{
    decimal, decimal_string,
    extract_byte_array, extract_dict, extract_list, extract_num, extract_str, lemma_nodes_of, nodes_of,
    spec_extract_bytes, spec_extract_dict, spec_extract_list, spec_extract_num, spec_extract_str,
    Dictionary, ExtractError, ExtractFailure, Node, Object, ObjectType, Value,
};
use crate::piece::PieceInfo;
use crate::trusted::{parse_url, sha1_digest, spec_sha1, spec_url_parse};

verus! {

/// Why a `.torrent` file could not be read.
#[derive(Debug)]
pub enum TorrentError {
    NotADictionary,
    Extract(ExtractError),
    InvalidAnnounceUrl(url::ParseError),
    AnnounceTierNotAList,
    AnnounceUrlNotAByteString,
    InvalidUtf8(std::string::FromUtf8Error),
    InvalidUrl(url::ParseError),
    CreationDateOutOfRange,
    LengthOutOfRange,
    PieceLengthOutOfRange,
    MissingInfo,
}

impl TorrentError {
    /// The error as text, as it is shown to a user.
    pub fn message(&self) -> (res: String)
        ensures
            match self {
                TorrentError::NotADictionary => res@ == "top level object is not a dictionary"@,
                TorrentError::Extract(ExtractError::InvalidPiecesLength(length, multiple)) => res@ == "length "@
                    + decimal(*length as nat) + " is not a mupliple of "@ + decimal(*multiple as nat),
                TorrentError::Extract(e) => e.shown_as(res),
                TorrentError::InvalidAnnounceUrl(_) => res@ == "invalid announce URL"@,
                TorrentError::AnnounceTierNotAList => res@ == "expected key announce-list to be of type list"@,
                TorrentError::AnnounceUrlNotAByteString => res@ == "Expected key announce-list to be byte string"@,
                TorrentError::InvalidUtf8(e) => vstd::string::to_string_from_display_ensures(e, res),
                TorrentError::InvalidUrl(e) => vstd::string::to_string_from_display_ensures(e, res),
                TorrentError::CreationDateOutOfRange => res@ == "creation date is negative or too large"@,
                TorrentError::LengthOutOfRange => res@ == "length is negative or too large"@,
                TorrentError::PieceLengthOutOfRange => res@ == "piece length is negative or too large"@,
                TorrentError::MissingInfo => res@ == "missing key info"@,
            },
    {
        match self {
            TorrentError::NotADictionary => "top level object is not a dictionary".to_owned(),
            TorrentError::Extract(ExtractError::InvalidPiecesLength(length, multiple)) => {
                let mut s = "length ".to_owned();
                s.append(decimal_string(*length as u64).as_str());
                s.append(" is not a mupliple of ");
                s.append(decimal_string(*multiple as u64).as_str());
                s
            },
            TorrentError::Extract(e) => e.message(),
            TorrentError::InvalidAnnounceUrl(_) => "invalid announce URL".to_owned(),
            TorrentError::AnnounceTierNotAList => "expected key announce-list to be of type list".to_owned(),
            TorrentError::AnnounceUrlNotAByteString => "Expected key announce-list to be byte string".to_owned(),
            TorrentError::InvalidUtf8(e) => e.to_string(),
            TorrentError::InvalidUrl(e) => e.to_string(),
            TorrentError::CreationDateOutOfRange => "creation date is negative or too large".to_owned(),
            TorrentError::LengthOutOfRange => "length is negative or too large".to_owned(),
            TorrentError::PieceLengthOutOfRange => "piece length is negative or too large".to_owned(),
            TorrentError::MissingInfo => "missing key info".to_owned(),
        }
    }
}

/// A failure to read a `.torrent` file, as a value.
pub enum TorrentFailure {
    NotADictionary,
    Extract(ExtractFailure),
    InvalidAnnounceUrl,
    AnnounceTierNotAList,
    AnnounceUrlNotAByteString,
    InvalidUtf8,
    InvalidUrl,
    CreationDateOutOfRange,
    LengthOutOfRange,
    PieceLengthOutOfRange,
}

impl TorrentError {
    /// Whether this error is the failure `f`.
    pub open spec fn is(self, f: TorrentFailure) -> bool {
        match (self, f) {
            (TorrentError::NotADictionary, TorrentFailure::NotADictionary) => true,
            (TorrentError::Extract(e), TorrentFailure::Extract(g)) => e.is(g),
            (TorrentError::InvalidAnnounceUrl(_), TorrentFailure::InvalidAnnounceUrl) => true,
            (TorrentError::AnnounceTierNotAList, TorrentFailure::AnnounceTierNotAList) => true,
            (TorrentError::AnnounceUrlNotAByteString, TorrentFailure::AnnounceUrlNotAByteString) => true,
            (TorrentError::InvalidUtf8(_), TorrentFailure::InvalidUtf8) => true,
            (TorrentError::InvalidUrl(_), TorrentFailure::InvalidUrl) => true,
            (TorrentError::CreationDateOutOfRange, TorrentFailure::CreationDateOutOfRange) => true,
            (TorrentError::LengthOutOfRange, TorrentFailure::LengthOutOfRange) => true,
            (TorrentError::PieceLengthOutOfRange, TorrentFailure::PieceLengthOutOfRange) => true,
            _ => false,
        }
    }
}

/// What a `.torrent` file says, as values.
pub struct MetainfoModel {
    pub announce: Seq<char>,
    pub announce_list: Seq<Seq<Seq<char>>>,
    pub comment: Seq<char>,
    pub created_by: Seq<char>,
    pub creation_date: u64,
    pub name: Seq<char>,
    pub length: u64,
    pub piece_length: u64,
    pub piece_hashes: Seq<Seq<u8>>,
    pub info_hash: Seq<u8>,
}

/// A tracker URL of the announce list.
pub open spec fn announce_url(n: Node) -> Result<Seq<char>, TorrentFailure> {
    match n.value {
        Value::ByteArray(b) => if !valid_utf8(b) {
            Err(TorrentFailure::InvalidUtf8)
        } else {
            match spec_url_parse(decode_utf8(b)) {
                Some(u) => Ok(u),
                None => Err(TorrentFailure::InvalidUrl),
            }
        },
        _ => Err(TorrentFailure::AnnounceUrlNotAByteString),
    }
}

/// The tracker URLs of a tier, the first failure in order if any.
pub open spec fn tier_urls(items: Seq<Node>) -> Result<Seq<Seq<char>>, TorrentFailure>
    decreases items.len(),
{
    if items.len() == 0 {
        Ok(Seq::empty())
    } else {
        match tier_urls(items.drop_last()) {
            Err(f) => Err(f),
            Ok(urls) => match announce_url(items.last()) {
                Err(f) => Err(f),
                Ok(u) => Ok(urls.push(u)),
            },
        }
    }
}

/// A tier's URLs are those of its items, one for one and in order: the tier
/// is read exactly when every item is a URL, and then its `k`-th URL is that
/// of its `k`-th item.
pub proof fn lemma_tier_urls_one_for_one(items: Seq<Node>)
    ensures
        tier_urls(items) is Ok <==> forall|k: int| 0 <= k < items.len() ==> #[trigger] announce_url(items[k]) is Ok,
        tier_urls(items) matches Ok(urls) ==> urls.len() == items.len() && forall|k: int|
            0 <= k < items.len() ==> announce_url(items[k]) == Ok::<Seq<char>, TorrentFailure>(
                #[trigger] urls[k],
            ),
    decreases items.len(),
{
    if items.len() > 0 {
        let prev = items.drop_last();
        lemma_tier_urls_one_for_one(prev);
        assert forall|k: int| 0 <= k < prev.len() implies prev[k] == items[k] by {}
        if tier_urls(prev) is Ok && !(announce_url(items.last()) is Ok) {
            assert(!(announce_url(items[items.len() - 1]) is Ok));
        }
        if !(tier_urls(prev) is Ok) {
            let k = choose|k: int| 0 <= k < prev.len() && !(#[trigger] announce_url(prev[k]) is Ok);
            assert(!(announce_url(items[k]) is Ok));
        }
    }
}

/// The tiers of the announce list, the first failure in order if any.
pub open spec fn announce_tiers(tiers: Seq<Node>) -> Result<Seq<Seq<Seq<char>>>, TorrentFailure>
    decreases tiers.len(),
{
    if tiers.len() == 0 {
        Ok(Seq::empty())
    } else {
        match announce_tiers(tiers.drop_last()) {
            Err(f) => Err(f),
            Ok(ts) => match tiers.last().value {
                Value::List(items) => match tier_urls(items) {
                    Err(f) => Err(f),
                    Ok(urls) => Ok(ts.push(urls)),
                },
                _ => Err(TorrentFailure::AnnounceTierNotAList),
            },
        }
    }
}

/// The announce list has one tier for each tier in the file, in order, and
/// each tier is read from the list that stands there.
pub proof fn lemma_announce_tiers_one_for_one(tiers: Seq<Node>)
    ensures
        announce_tiers(tiers) matches Ok(ts) ==> ts.len() == tiers.len() && forall|k: int|
            0 <= k < tiers.len() ==> ((#[trigger] tiers[k]).value matches Value::List(items) && tier_urls(items)
                == Ok::<Seq<Seq<char>>, TorrentFailure>(ts[k])),
    decreases tiers.len(),
{
    if tiers.len() > 0 {
        let prev = tiers.drop_last();
        lemma_announce_tiers_one_for_one(prev);
        assert forall|k: int| 0 <= k < prev.len() implies prev[k] == tiers[k] by {}
    }
}

/// The announce list of a torrent's top-level dictionary.
pub open spec fn announce_list_of(d: Map<Seq<u8>, Node>) -> Result<Seq<Seq<Seq<char>>>, TorrentFailure> {
    match spec_extract_list(d, key_announce_list()) {
        Err(f) => Err(TorrentFailure::Extract(f)),
        Ok(tiers) => announce_tiers(tiers),
    }
}

/// The 20-byte chunks of `b`.
pub open spec fn chunks20(b: Seq<u8>) -> Seq<Seq<u8>> {
    Seq::new(b.len() / 20, |i: int| b.subrange(20 * i, 20 * i + 20))
}

/// The piece hashes of an info dictionary.
pub open spec fn piece_hashes_of(info: Map<Seq<u8>, Node>) -> Result<Seq<Seq<u8>>, ExtractFailure> {
    match spec_extract_bytes(info, key_pieces()) {
        Err(f) => Err(f),
        Ok(b) => if b.len() % 20 != 0 {
            Err(ExtractFailure::InvalidPiecesLength(b.len(), 20))
        } else {
            Ok(chunks20(b))
        },
    }
}

/// What the info dictionary gives, after the top-level fields: name, total
/// length, piece length (at most `max_piece_length`) and piece hashes.
pub open spec fn info_fields(info: Map<Seq<u8>, Node>, max_piece_length: u64) -> Result<
    (Seq<char>, u64, u64, Seq<Seq<u8>>),
    TorrentFailure,
> {
    match spec_extract_str(info, key_name()) {
        Err(f) => Err(TorrentFailure::Extract(f)),
        Ok(name) => match spec_extract_num(info, key_length()) {
            Err(f) => Err(TorrentFailure::Extract(f)),
            Ok(length) => if length < 0 {
                Err(TorrentFailure::LengthOutOfRange)
            } else {
                match spec_extract_num(info, key_piece_length()) {
                    Err(f) => Err(TorrentFailure::Extract(f)),
                    Ok(pl) => if pl < 0 || pl > max_piece_length {
                        Err(TorrentFailure::PieceLengthOutOfRange)
                    } else {
                        match piece_hashes_of(info) {
                            Err(f) => Err(TorrentFailure::Extract(f)),
                            Ok(hashes) => Ok((name, length as u64, pl as u64, hashes)),
                        }
                    },
                }
            },
        },
    }
}

/// What a torrent's top-level dictionary says, or the first failure in the
/// order the fields are read: announce, announce list, comment, created by,
/// creation date, info (name, length, piece length, pieces).
pub open spec fn metainfo_of(d: Map<Seq<u8>, Node>, max_piece_length: u64) -> Result<MetainfoModel, TorrentFailure> {
    match spec_extract_str(d, key_announce()) {
        Err(f) => Err(TorrentFailure::Extract(f)),
        Ok(announce_text) => match spec_url_parse(announce_text) {
            None => Err(TorrentFailure::InvalidAnnounceUrl),
            Some(announce) => match announce_list_of(d) {
                Err(f) => Err(f),
                Ok(announce_list) => match spec_extract_str(d, key_comment()) {
                    Err(f) => Err(TorrentFailure::Extract(f)),
                    Ok(comment) => match spec_extract_str(d, key_created_by()) {
                        Err(f) => Err(TorrentFailure::Extract(f)),
                        Ok(created_by) => match spec_extract_num(d, key_creation_date()) {
                            Err(f) => Err(TorrentFailure::Extract(f)),
                            Ok(date) => if date < 0 {
                                Err(TorrentFailure::CreationDateOutOfRange)
                            } else {
                                match spec_extract_dict(d, key_info()) {
                                    Err(f) => Err(TorrentFailure::Extract(f)),
                                    Ok(info) => match info_fields(info, max_piece_length) {
                                        Err(f) => Err(f),
                                        Ok((name, length, piece_length, piece_hashes)) => Ok(
                                            MetainfoModel {
                                                announce,
                                                announce_list,
                                                comment,
                                                created_by,
                                                creation_date: date as u64,
                                                name,
                                                length,
                                                piece_length,
                                                piece_hashes,
                                                info_hash: spec_sha1(d[key_info()].bytes),
                                            },
                                        ),
                                    },
                                }
                            },
                        },
                    },
                },
            },
        },
    }
}

/// What a decoded `.torrent` file says.
pub open spec fn metainfo(n: Node, max_piece_length: u64) -> Result<MetainfoModel, TorrentFailure> {
    match n.value {
        Value::Dictionary(d) => metainfo_of(d, max_piece_length),
        _ => Err(TorrentFailure::NotADictionary),
    }
}


/// The info hash is the SHA-1 hash of the info dictionary exactly as its
/// bytes stand in the `.torrent` file.
pub proof fn lemma_info_hash_of_file_bytes(bytes: Seq<u8>, max_piece_length: u64)
    requires
        decodable(bytes),
        metainfo(decoded(bytes), max_piece_length) is Ok,
    ensures
        exists|a: int, b: int|
            #![trigger bytes.subrange(a, b)]
            0 < a < b <= bytes.len() && (parse_object(bytes, a) matches Some((n, e)) && e == b
                && n.value is Dictionary) && (metainfo(decoded(bytes), max_piece_length) matches Ok(m)
                && m.info_hash == spec_sha1(bytes.subrange(a, b))),
{
    let d = decoded(bytes).value->Dictionary_0;
    assert(spec_extract_dict(d, key_info()) is Ok);
    assert(d.contains_key(key_info()));
    lemma_dictionary_values_from_input(bytes);
    let (a, b) = choose|a: int, b: int|
        0 < a < b <= bytes.len() && parse_object(bytes, a) == Some((d[key_info()], b))
            && d[key_info()].bytes == bytes.subrange(a, b);
    assert(d[key_info()].value is Dictionary);
}

/// Once a prefix of the items fails, the whole tier fails the same way.
proof fn lemma_tier_urls_prefix(s: Seq<Node>, k: int)
    requires
        0 <= k <= s.len(),
        tier_urls(s.take(k)) is Err,
    ensures
        tier_urls(s) == tier_urls(s.take(k)),
    decreases s.len(),
{
    if k == s.len() {
        assert(s.take(k) =~= s);
    } else {
        assert(s.drop_last().take(k) =~= s.take(k));
        lemma_tier_urls_prefix(s.drop_last(), k);
    }
}

/// Once a prefix of the tiers fails, the whole announce list fails the same way.
proof fn lemma_announce_tiers_prefix(s: Seq<Node>, k: int)
    requires
        0 <= k <= s.len(),
        announce_tiers(s.take(k)) is Err,
    ensures
        announce_tiers(s) == announce_tiers(s.take(k)),
    decreases s.len(),
{
    if k == s.len() {
        assert(s.take(k) =~= s);
    } else {
        assert(s.drop_last().take(k) =~= s.take(k));
        lemma_announce_tiers_prefix(s.drop_last(), k);
    }
}

/// The texts of a sequence of strings.
pub open spec fn strings(v: Seq<String>) -> Seq<Seq<char>> {
    v.map_values(|s: String| s@)
}

/// The texts of a sequence of tiers of strings.
pub open spec fn string_tiers(v: Seq<Vec<String>>) -> Seq<Seq<Seq<char>>> {
    v.map_values(|t: Vec<String>| strings(t@))
}

/// The bytes of a sequence of hashes.
pub open spec fn hash_bytes(v: Seq<[u8; 20]>) -> Seq<Seq<u8>> {
    v.map_values(|h: [u8; 20]| h@)
}

/// What a `.torrent` file says: its fields, the piece length not yet narrowed.
#[derive(Debug)]
pub struct Metainfo {
    pub announce: String,
    pub announce_list: Vec<Vec<String>>,
    pub comment: String,
    pub created_by: String,
    pub creation_date: u64,
    pub name: String,
    pub length: u64,
    pub piece_length: u64,
    pub piece_hashes: Vec<[u8; 20]>,
    pub info_hash: [u8; 20],
}

impl Metainfo {
    pub open spec fn model(&self) -> MetainfoModel {
        MetainfoModel {
            announce: self.announce@,
            announce_list: string_tiers(self.announce_list@),
            comment: self.comment@,
            created_by: self.created_by@,
            creation_date: self.creation_date,
            name: self.name@,
            length: self.length,
            piece_length: self.piece_length,
            piece_hashes: hash_bytes(self.piece_hashes@),
            info_hash: self.info_hash@,
        }
    }
}

fn announce_url_of(obj: &Object) -> (res: Result<String, TorrentError>)
    ensures
        match announce_url(obj@) {
            Ok(u) => res matches Ok(r) && r@ == u,
            Err(f) => res matches Err(e) && e.is(f),
        },
{
    match obj.object_type() {
        ObjectType::ByteArray(b) => {
            let url = match String::from_utf8(vstd::slice::slice_to_vec(b.as_slice())) {
                Ok(u) => u,
                Err(e) => return Err(TorrentError::InvalidUtf8(e)),
            };
            match parse_url(url.as_str()) {
                Ok(u) => Ok(u),
                Err(e) => Err(TorrentError::InvalidUrl(e)),
            }
        },
        _ => Err(TorrentError::AnnounceUrlNotAByteString),
    }
}

fn tier_of(list: &Vec<Object>) -> (res: Result<Vec<String>, TorrentError>)
    ensures
        match tier_urls(nodes_of(list@)) {
            Ok(us) => res matches Ok(r) && strings(r@) == us,
            Err(f) => res matches Err(e) && e.is(f),
        },
{
    let ghost items = nodes_of(list@);
    proof {
        lemma_nodes_of(list@);
    }
    let mut trackers: Vec<String> = Vec::new();
    assert(items.take(0) =~= Seq::<Node>::empty());
    assert(strings(trackers@) =~= Seq::<Seq<char>>::empty());
    let mut j: usize = 0;
    while j < list.len()
        invariant
            items == nodes_of(list@),
            items.len() == list@.len(),
            forall|i: int| 0 <= i < list@.len() ==> #[trigger] items[i] == list@[i]@,
            j <= list@.len(),
            tier_urls(items.take(j as int)) == Ok::<Seq<Seq<char>>, TorrentFailure>(strings(trackers@)),
        decreases list@.len() - j,
    {
        assert(items.take(j + 1).drop_last() =~= items.take(j as int));
        assert(items.take(j + 1).last() == list@[j as int]@);
        let url = match announce_url_of(&list[j]) {
            Ok(u) => u,
            Err(e) => {
                proof {
                    lemma_tier_urls_prefix(items, j + 1);
                }
                return Err(e);
            },
        };
        let ghost old_trackers = trackers@;
        trackers.push(url);
        proof {
            assert(trackers@.drop_last() =~= old_trackers);
            assert(strings(trackers@) =~= strings(old_trackers).push(trackers@.last()@));
            assert(tier_urls(items.take(j + 1)) == Ok::<Seq<Seq<char>>, TorrentFailure>(strings(trackers@)));
        }
        j = j + 1;
        assert(strings(trackers@) =~= strings(trackers@.drop_last()).push(trackers@.last()@));
    }
    assert(items.take(j as int) =~= items);
    Ok(trackers)
}

fn extract_announce_list(dict: &Dictionary) -> (res: Result<Vec<Vec<String>>, TorrentError>)
    ensures
        match announce_list_of(dict@) {
            Ok(ts) => res matches Ok(r) && string_tiers(r@) == ts,
            Err(f) => res matches Err(e) && e.is(f),
        },
{
    let tiers = match extract_list(dict, announce_list_key().as_slice()) {
        Ok(t) => t,
        Err(e) => return Err(TorrentError::Extract(e)),
    };
    let ghost nodes = nodes_of(tiers@);
    proof {
        lemma_nodes_of(tiers@);
    }
    let mut announce_list: Vec<Vec<String>> = Vec::new();
    assert(nodes.take(0) =~= Seq::<Node>::empty());
    assert(string_tiers(announce_list@) =~= Seq::<Seq<Seq<char>>>::empty());
    let mut i: usize = 0;
    while i < tiers.len()
        invariant
            nodes == nodes_of(tiers@),
            spec_extract_list(dict@, key_announce_list()) == Ok::<Seq<Node>, ExtractFailure>(nodes),
            nodes.len() == tiers@.len(),
            forall|k: int| 0 <= k < tiers@.len() ==> #[trigger] nodes[k] == tiers@[k]@,
            i <= tiers@.len(),
            announce_tiers(nodes.take(i as int)) == Ok::<Seq<Seq<Seq<char>>>, TorrentFailure>(
                string_tiers(announce_list@),
            ),
        decreases tiers@.len() - i,
    {
        assert(nodes.take(i + 1).drop_last() =~= nodes.take(i as int));
        assert(nodes.take(i + 1).last() == tiers@[i as int]@);
        let list = match tiers[i].object_type() {
            ObjectType::List(l) => l,
            _ => {
                proof {
                    assert(!(tiers@[i as int]@.value is List));
                    assert(announce_tiers(nodes.take(i + 1)) == Err::<Seq<Seq<Seq<char>>>, TorrentFailure>(
                        TorrentFailure::AnnounceTierNotAList));
                    lemma_announce_tiers_prefix(nodes, i + 1);
                }
                return Err(TorrentError::AnnounceTierNotAList);
            },
        };
        let trackers = match tier_of(list) {
            Ok(t) => t,
            Err(e) => {
                proof {
                    lemma_announce_tiers_prefix(nodes, i + 1);
                }
                return Err(e);
            },
        };
        let ghost old_list = announce_list@;
        let ghost urls = strings(trackers@);
        announce_list.push(trackers);
        proof {
            assert(announce_list@.drop_last() =~= old_list);
            assert(string_tiers(announce_list@) =~= string_tiers(old_list).push(urls));
            assert(nodes.take(i + 1).last().value == Value::List(nodes_of(list@)));
            assert(announce_tiers(nodes.take(i + 1)) == Ok::<Seq<Seq<Seq<char>>>, TorrentFailure>(
                string_tiers(announce_list@),
            ));
        }
        i = i + 1;
    }
    assert(nodes.take(i as int) =~= nodes);
    Ok(announce_list)
}

/// Splits `data` into hashes of 20 bytes.
fn chunk_array(data: &[u8]) -> (res: Result<Vec<[u8; 20]>, ExtractError>)
    ensures
        data@.len() % 20 != 0 ==> (res matches Err(e) && e.is(
            ExtractFailure::InvalidPiecesLength(data@.len(), 20),
        )),
        data@.len() % 20 == 0 ==> (res matches Ok(r) && hash_bytes(r@) == chunks20(data@)),
{
    if data.len() % 20 != 0 {
        return Err(ExtractError::InvalidPiecesLength(data.len(), 20));
    }
    let n = data.len();
    let count = n / 20;
    let mut result: Vec<[u8; 20]> = Vec::with_capacity(count);
    let mut i: usize = 0;
    let mut off: usize = 0;
    while i < count
        invariant
            n == data@.len(),
            count == data@.len() / 20,
            data@.len() % 20 == 0,
            i <= count,
            off == 20 * i,
            result@.len() == i,
            forall|k: int| 0 <= k < i ==> #[trigger] result@[k]@ == data@.subrange(20 * k, 20 * k + 20),
        decreases count - i,
    {
        let mut arr = [0u8; 20];
        let mut k: usize = 0;
        while k < 20
            invariant
                k <= 20,
                n == data@.len(),
                off + 20 <= data@.len(),
                forall|m: int| 0 <= m < k ==> arr@[m] == data@[off + m],
            decreases 20 - k,
        {
            arr[k] = data[off + k];
            k = k + 1;
        }
        assert(arr@ =~= data@.subrange(off as int, off + 20));
        result.push(arr);
        i = i + 1;
        off = off + 20;
    }
    assert(hash_bytes(result@) =~= chunks20(data@));
    Ok(result)
}

fn extract_pieces(info_dict: &Dictionary) -> (res: Result<Vec<[u8; 20]>, ExtractError>)
    ensures
        match piece_hashes_of(info_dict@) {
            Ok(h) => res matches Ok(r) && hash_bytes(r@) == h,
            Err(f) => res matches Err(e) && e.is(f),
        },
{
    let arr = extract_byte_array(info_dict, pieces_key().as_slice())?;
    chunk_array(arr.as_slice())
}

fn compute_info_hash(dict: &Dictionary) -> (res: Result<[u8; 20], TorrentError>)
    ensures
        dict@.contains_key(key_info()) ==> (res matches Ok(h) && h@ == spec_sha1(dict@[key_info()].bytes)),
        !dict@.contains_key(key_info()) ==> res matches Err(TorrentError::MissingInfo),
{
    match dict.get(info_key().as_slice()) {
        Some(info) => Ok(sha1_digest(info.bytes())),
        None => Err(TorrentError::MissingInfo),
    }
}

/// Reads what a decoded `.torrent` file says; a piece length above
/// `max_piece_length` is refused.
pub fn extract_metainfo(object: &Object, max_piece_length: u64) -> (res: Result<Metainfo, TorrentError>)
    ensures
        match metainfo(object@, max_piece_length) {
            Ok(m) => res matches Ok(r) && r.model() == m,
            Err(f) => res matches Err(e) && e.is(f),
        },
{
    let dict = match object.object_type() {
        ObjectType::Dictionary(d) => d,
        _ => return Err(TorrentError::NotADictionary),
    };
    let announce_text = match extract_str(dict, announce_key().as_slice()) {
        Ok(a) => a,
        Err(e) => return Err(TorrentError::Extract(e)),
    };
    let announce = match parse_url(announce_text.as_str()) {
        Ok(u) => u,
        Err(e) => return Err(TorrentError::InvalidAnnounceUrl(e)),
    };
    let announce_list = extract_announce_list(dict)?;
    let comment = match extract_str(dict, comment_key().as_slice()) {
        Ok(c) => c,
        Err(e) => return Err(TorrentError::Extract(e)),
    };
    let created_by = match extract_str(dict, created_by_key().as_slice()) {
        Ok(c) => c,
        Err(e) => return Err(TorrentError::Extract(e)),
    };
    let date = match extract_num(dict, creation_date_key().as_slice()) {
        Ok(n) => n,
        Err(e) => return Err(TorrentError::Extract(e)),
    };
    if date < 0 {
        return Err(TorrentError::CreationDateOutOfRange);
    }
    let creation_date = date as u64;
    let info = match extract_dict(dict, info_key().as_slice()) {
        Ok(i) => i,
        Err(e) => return Err(TorrentError::Extract(e)),
    };
    let name = match extract_str(info, name_key().as_slice()) {
        Ok(n) => n,
        Err(e) => return Err(TorrentError::Extract(e)),
    };
    let total = match extract_num(info, length_key().as_slice()) {
        Ok(n) => n,
        Err(e) => return Err(TorrentError::Extract(e)),
    };
    if total < 0 {
        return Err(TorrentError::LengthOutOfRange);
    }
    let length = total as u64;
    let pl = match extract_num(info, piece_length_key().as_slice()) {
        Ok(n) => n,
        Err(e) => return Err(TorrentError::Extract(e)),
    };
    if pl < 0 || pl as u64 > max_piece_length {
        return Err(TorrentError::PieceLengthOutOfRange);
    }
    let piece_length = pl as u64;
    let piece_hashes = match extract_pieces(info) {
        Ok(h) => h,
        Err(e) => return Err(TorrentError::Extract(e)),
    };
    let info_hash = compute_info_hash(dict)?;
    Ok(
        Metainfo {
            announce,
            announce_list,
            comment,
            created_by,
            creation_date,
            name,
            length,
            piece_length,
            piece_hashes,
            info_hash,
        },
    )
}


// ---------------------------------------------------------------------------
// The pieces.
// ---------------------------------------------------------------------------

/// Whether `n` pieces of `piece_length` bytes can hold `total` bytes with a
/// last piece that is neither empty nor longer than the others.
pub open spec fn pieces_fit(total: u64, piece_length: u64, n: nat) -> bool {
    n == 0 || (piece_length * (n - 1) <= total && 0 < total - piece_length * (n - 1) <= piece_length)
}

/// The length of piece `i` of `n`: the piece length, but for the last piece,
/// which holds what is left.
pub open spec fn piece_len(total: u64, piece_length: u64, n: nat, i: int) -> int {
    if i == n - 1 {
        total - piece_length * (n - 1)
    } else {
        piece_length as int
    }
}

/// The total length of the first `k` of `n` pieces.
pub open spec fn pieces_total(total: u64, piece_length: u64, n: nat, k: nat) -> int
    decreases k,
{
    if k == 0 {
        0
    } else {
        pieces_total(total, piece_length, n, (k - 1) as nat) + piece_len(total, piece_length, n, k - 1)
    }
}

/// Pieces can be laid out exactly when they are just enough for the file:
/// `n - 1` whole pieces fall short of it and `n` pieces reach it.
pub proof fn lemma_pieces_fit_meaning(total: u64, piece_length: u64, n: nat)
    requires
        n > 0,
    ensures
        pieces_fit(total, piece_length, n) <==> (piece_length * (n - 1) < total && total <= piece_length
            * n),
{
    assert(piece_length * n == piece_length * (n - 1) + piece_length) by (nonlinear_arith)
        requires
            n > 0,
    ;
}

/// Laid-out pieces cover the file: every piece is between one byte and the
/// piece length long, all but the last are whole, and their lengths add up to
/// the total length.
pub proof fn lemma_pieces_cover_file(total: u64, piece_length: u64, n: nat)
    requires
        n > 0,
        pieces_fit(total, piece_length, n),
    ensures
        forall|i: int| 0 <= i < n ==> 1 <= #[trigger] piece_len(total, piece_length, n, i) <= piece_length,
        forall|i: int| 0 <= i < n - 1 ==> #[trigger] piece_len(total, piece_length, n, i) == piece_length,
        pieces_total(total, piece_length, n, n) == total,
{
    assert forall|k: nat| k <= n - 1 implies #[trigger] pieces_total(total, piece_length, n, k) == piece_length
        * k by {
        lemma_whole_pieces_total(total, piece_length, n, k);
    }
    assert(pieces_total(total, piece_length, n, (n - 1) as nat) == piece_length * (n - 1));
}

proof fn lemma_whole_pieces_total(total: u64, piece_length: u64, n: nat, k: nat)
    requires
        k <= n - 1,
    ensures
        pieces_total(total, piece_length, n, k) == piece_length * k,
    decreases k,
{
    if k > 0 {
        lemma_whole_pieces_total(total, piece_length, n, (k - 1) as nat);
        assert(piece_len(total, piece_length, n, k - 1) == piece_length);
        assert(pieces_total(total, piece_length, n, k) == pieces_total(total, piece_length, n, (k - 1) as nat)
            + piece_len(total, piece_length, n, k - 1));
        assert(piece_length * k == piece_length * (k - 1) + piece_length) by (nonlinear_arith)
            requires
                k > 0,
        ;
    } else {
        assert(piece_length * k == 0) by (nonlinear_arith)
            requires
                k == 0,
        ;
    }
}

/// Whether the pieces can be laid out; the check that reading a `.torrent`
/// file makes before it lays them out.
pub fn check_pieces_fit(total: u64, piece_length: u64, n: usize) -> (res: bool)
    ensures
        res == pieces_fit(total, piece_length, n as nat),
{
    if n == 0 {
        return true;
    }
    match piece_length.checked_mul((n - 1) as u64) {
        None => false,
        Some(p) => p <= total && 0 < total - p && total - p <= piece_length,
    }
}

fn build_pieces(total: u64, piece_length: u32, hashes: &Vec<[u8; 20]>) -> (res: Vec<PieceInfo>)
    requires
        pieces_fit(total, piece_length as u64, hashes@.len()),
    ensures
        res@.len() == hashes@.len(),
        forall|i: int|
            0 <= i < res@.len() ==> {
                &&& (#[trigger] res@[i]).index == i
                &&& res@[i].length == piece_len(total, piece_length as u64, hashes@.len(), i)
                &&& res@[i].hash@ == hashes@[i]@
            },
{
    let n = hashes.len();
    let mut pieces: Vec<PieceInfo> = Vec::with_capacity(n);
    let mut i: usize = 0;
    while i < n
        invariant
            n == hashes@.len(),
            pieces_fit(total, piece_length as u64, n as nat),
            i <= n,
            pieces@.len() == i,
            forall|k: int|
                0 <= k < i ==> {
                    &&& (#[trigger] pieces@[k]).index == k
                    &&& pieces@[k].length == piece_len(total, piece_length as u64, n as nat, k)
                    &&& pieces@[k].hash@ == hashes@[k]@
                },
        decreases n - i,
    {
        let length = if i == n - 1 {
            let last_piece_length = total - (piece_length as u64) * (i as u64);
            last_piece_length as u32
        } else {
            piece_length
        };
        pieces.push(PieceInfo { index: i, length, hash: hashes[i] });
        i = i + 1;
    }
    pieces
}

#[derive(Debug)]
pub struct TorrentInfo {
    pub length: u64,
    pub info_hash: [u8; 20],
    pub piece_length: u32,
    pub pieces: Vec<PieceInfo>,
    /// The tracker's URL, as the url crate serializes it.
    pub announce: String,
    pub announce_list: Vec<Vec<String>>,
    pub name: String,
    pub comment: String,
    pub created_by: String,
    pub creation_date: u64,
}

/// The largest piece length that a `TorrentInfo` takes.
pub open spec fn max_piece_length() -> u64 {
    u32::MAX as u64
}

impl TorrentInfo {
    /// Whether this is what the metainfo `m` describes, its pieces laid out.
    pub open spec fn describes(&self, m: MetainfoModel) -> bool {
        &&& self.length == m.length
        &&& self.info_hash@ == m.info_hash
        &&& self.piece_length == m.piece_length
        &&& self.announce@ == m.announce
        &&& string_tiers(self.announce_list@) == m.announce_list
        &&& self.name@ == m.name
        &&& self.comment@ == m.comment
        &&& self.created_by@ == m.created_by
        &&& self.creation_date == m.creation_date
        &&& self.pieces@.len() == m.piece_hashes.len()
        &&& forall|i: int|
            0 <= i < self.pieces@.len() ==> {
                &&& (#[trigger] self.pieces@[i]).index == i
                &&& self.pieces@[i].length == piece_len(m.length, m.piece_length, m.piece_hashes.len(), i)
                &&& self.pieces@[i].hash@ == m.piece_hashes[i]
            }
    }

    /// The piece hashes, in order.
    pub fn piece_hashes(&self) -> (res: Vec<[u8; 20]>)
        ensures
            res@.len() == self.pieces@.len(),
            forall|i: int| 0 <= i < res@.len() ==> #[trigger] res@[i]@ == self.pieces@[i].hash@,
    {
        let mut res: Vec<[u8; 20]> = Vec::with_capacity(self.pieces.len());
        let mut i: usize = 0;
        while i < self.pieces.len()
            invariant
                i <= self.pieces@.len(),
                res@.len() == i,
                forall|k: int| 0 <= k < i ==> #[trigger] res@[k]@ == self.pieces@[k].hash@,
            decreases self.pieces@.len() - i,
        {
            res.push(self.pieces[i].hash);
            i = i + 1;
        }
        res
    }

    fn assemble(m: Metainfo) -> (res: TorrentInfo)
        requires
            m.piece_length <= max_piece_length(),
            pieces_fit(m.length, m.piece_length, m.piece_hashes@.len()),
        ensures
            res.describes(m.model()),
    {
        let piece_length = m.piece_length as u32;
        let pieces = build_pieces(m.length, piece_length, &m.piece_hashes);
        let res = TorrentInfo {
            info_hash: m.info_hash,
            pieces,
            piece_length,
            length: m.length,
            name: m.name,
            announce: m.announce,
            announce_list: m.announce_list,
            comment: m.comment,
            created_by: m.created_by,
            creation_date: m.creation_date,
        };
        assert forall|i: int| 0 <= i < res.pieces@.len() implies res.pieces@[i].hash@
            == m.model().piece_hashes[i] by {}
        res
    }

    /// Reads a decoded `.torrent` file.
    pub fn from_object(object: Object) -> (res: Result<TorrentInfo, TorrentError>)
        requires
            metainfo(object@, max_piece_length()) matches Ok(m) ==> pieces_fit(
                m.length,
                m.piece_length,
                m.piece_hashes.len(),
            ),
        ensures
            match metainfo(object@, max_piece_length()) {
                Ok(m) => res matches Ok(t) && t.describes(m),
                Err(f) => res matches Err(e) && e.is(f),
            },
    {
        let m = extract_metainfo(&object, u32::MAX as u64)?;
        Ok(Self::assemble(m))
    }

    /// Reads a decoded `.torrent` file, or gives `None` where its pieces
    /// cannot be laid out (see `pieces_fit`).
    pub fn try_from_object(object: Object) -> (res: Option<Result<TorrentInfo, TorrentError>>)
        ensures
            match metainfo(object@, max_piece_length()) {
                Ok(m) => if pieces_fit(m.length, m.piece_length, m.piece_hashes.len()) {
                    res matches Some(Ok(t)) && t.describes(m)
                } else {
                    res is None
                },
                Err(f) => res matches Some(Err(e)) && e.is(f),
            },
    {
        match extract_metainfo(&object, u32::MAX as u64) {
            Err(e) => Some(Err(e)),
            Ok(m) => if check_pieces_fit(m.length, m.piece_length, m.piece_hashes.len()) {
                Some(Self::from_object(object))
            } else {
                None
            },
        }
    }
}

} // verus!
