use vstd::prelude::*;

use crate::bencode::object::bytes_eq;
use crate::bitfield::BitField;
use crate::piece::{ActivePiece, BLOCK_SIZE};

verus! {

// ---------------------------------------------------------------------------
// Big-endian integers.
// ---------------------------------------------------------------------------

/// The four bytes of `x`, most significant first.
pub open spec fn be32(x: u32) -> Seq<u8> {
    seq![(x >> 24u32) as u8, (x >> 16u32) as u8, (x >> 8u32) as u8, x as u8]
}

/// The `u32` that four bytes denote, most significant first.
pub open spec fn be32_value(b: Seq<u8>) -> u32 {
    ((b[0] as u32) << 24u32) | ((b[1] as u32) << 16u32) | ((b[2] as u32) << 8u32) | (b[3] as u32)
}

/// Reading back the bytes of a `u32` gives that `u32`.
pub proof fn lemma_be32_roundtrip(x: u32)
    ensures
        be32_value(be32(x)) == x,
        be32(x).len() == 4,
{
    let b0 = (x >> 24u32) as u8;
    let b1 = (x >> 16u32) as u8;
    let b2 = (x >> 8u32) as u8;
    let b3 = x as u8;
    assert(((b0 as u32) << 24u32) | ((b1 as u32) << 16u32) | ((b2 as u32) << 8u32) | (b3 as u32) == x)
        by (bit_vector)
        requires
            b0 == (x >> 24u32) as u8,
            b1 == (x >> 16u32) as u8,
            b2 == (x >> 8u32) as u8,
            b3 == x as u8,
    ;
}

/// Appends the bytes of `src` to `buf`.
fn append_bytes(buf: &mut Vec<u8>, src: &[u8])
    ensures
        final(buf)@ == old(buf)@ + src@,
{
    let mut i: usize = 0;
    while i < src.len()
        invariant
            i <= src@.len(),
            buf@ == old(buf)@ + src@.take(i as int),
        decreases src@.len() - i,
    {
        buf.push(src[i]);
        i = i + 1;
        assert(buf@ =~= old(buf)@ + src@.take(i as int));
    }
    assert(src@.take(i as int) =~= src@);
}

/// Appends the four bytes of `x`, most significant first.
fn append_be32(buf: &mut Vec<u8>, x: u32)
    ensures
        final(buf)@ == old(buf)@ + be32(x),
{
    buf.push((x >> 24u32) as u8);
    buf.push((x >> 16u32) as u8);
    buf.push((x >> 8u32) as u8);
    buf.push(x as u8);
    assert(buf@ =~= old(buf)@ + be32(x));
}

/// The `u32` stored at `at`, most significant byte first.
fn read_be32(b: &[u8], at: usize) -> (res: u32)
    requires
        at + 4 <= b@.len(),
    ensures
        res == be32_value(b@.subrange(at as int, at + 4)),
{
    ((b[at] as u32) << 24u32) | ((b[at + 1] as u32) << 16u32) | ((b[at + 2] as u32) << 8u32) | (
    b[at + 3] as u32)
}

// ---------------------------------------------------------------------------
// Messages of the peer wire protocol.
// ---------------------------------------------------------------------------

#[derive(Debug)]
pub enum Message {
    KeepAlive,
    Choke,
    Unchoke,
    Interested,
    NotInterested,
    Have(u32),
    BitField(Vec<u8>),
    Request { index: u32, begin: u32, length: u32 },
    Piece { index: u32, begin: u32, block: Vec<u8> },
    Cancel { index: u32, begin: u32, length: u32 },
}

/// A message as a value, its byte strings as sequences.
pub enum MessageModel {
    KeepAlive,
    Choke,
    Unchoke,
    Interested,
    NotInterested,
    Have(u32),
    BitField(Seq<u8>),
    Request { index: u32, begin: u32, length: u32 },
    Piece { index: u32, begin: u32, block: Seq<u8> },
    Cancel { index: u32, begin: u32, length: u32 },
}

impl View for Message {
    type V = MessageModel;

    open spec fn view(&self) -> MessageModel {
        match self {
            Message::KeepAlive => MessageModel::KeepAlive,
            Message::Choke => MessageModel::Choke,
            Message::Unchoke => MessageModel::Unchoke,
            Message::Interested => MessageModel::Interested,
            Message::NotInterested => MessageModel::NotInterested,
            Message::Have(i) => MessageModel::Have(*i),
            Message::BitField(b) => MessageModel::BitField(b@),
            Message::Request { index, begin, length } => MessageModel::Request {
                index: *index,
                begin: *begin,
                length: *length,
            },
            Message::Piece { index, begin, block } => MessageModel::Piece {
                index: *index,
                begin: *begin,
                block: block@,
            },
            Message::Cancel { index, begin, length } => MessageModel::Cancel {
                index: *index,
                begin: *begin,
                length: *length,
            },
        }
    }
}

/// Why a message payload could not be decoded.
#[derive(Debug, PartialEq, Eq)]
pub enum MessageError {
    IdMissing,
    InvalidId,
}

/// A message on the wire: its length in four bytes, its id, its payload.
/// The length is the low 32 bits of the true length.
pub open spec fn encoded(m: MessageModel) -> Seq<u8> {
    match m {
        MessageModel::KeepAlive => be32(0),
        MessageModel::Choke => be32(1).push(0),
        MessageModel::Unchoke => be32(1).push(1),
        MessageModel::Interested => be32(1).push(2),
        MessageModel::NotInterested => be32(1).push(3),
        MessageModel::Have(i) => be32(5).push(4) + be32(i),
        MessageModel::BitField(b) => be32((1 + b.len()) as u32).push(5) + b,
        MessageModel::Request { index, begin, length } => be32(13).push(6) + be32(index) + be32(
            begin,
        ) + be32(length),
        MessageModel::Piece { index, begin, block } => be32((9 + block.len()) as u32).push(7) + be32(
            index,
        ) + be32(begin) + block,
        MessageModel::Cancel { index, begin, length } => be32(13).push(8) + be32(index) + be32(
            begin,
        ) + be32(length),
    }
}

/// Whether the decoder can take `buf` (a message without its length): the
/// payloads of `have`, `request`, `piece` and `cancel` must be long enough.
pub open spec fn decodable_payload(buf: Seq<u8>) -> bool {
    buf.len() > 0 ==> {
        let rest = buf.drop_first();
        &&& buf[0] == 4 ==> rest.len() == 4
        &&& (buf[0] == 6 || buf[0] == 8) ==> rest.len() >= 12
        &&& buf[0] == 7 ==> rest.len() >= 8
    }
}

/// The message that `buf` (a message without its length) holds.
pub open spec fn decoded_message(buf: Seq<u8>) -> Result<MessageModel, MessageError> {
    if buf.len() == 0 {
        Err(MessageError::IdMissing)
    } else {
        let rest = buf.drop_first();
        if buf[0] == 0 {
            Ok(MessageModel::Choke)
        } else if buf[0] == 1 {
            Ok(MessageModel::Unchoke)
        } else if buf[0] == 2 {
            Ok(MessageModel::Interested)
        } else if buf[0] == 3 {
            Ok(MessageModel::NotInterested)
        } else if buf[0] == 4 {
            Ok(MessageModel::Have(be32_value(rest)))
        } else if buf[0] == 5 {
            Ok(MessageModel::BitField(rest))
        } else if buf[0] == 6 {
            Ok(
                MessageModel::Request {
                    index: be32_value(rest),
                    begin: be32_value(rest.skip(4)),
                    length: be32_value(rest.skip(8)),
                },
            )
        } else if buf[0] == 7 {
            Ok(
                MessageModel::Piece {
                    index: be32_value(rest),
                    begin: be32_value(rest.skip(4)),
                    block: rest.skip(8),
                },
            )
        } else if buf[0] == 8 {
            Ok(
                MessageModel::Cancel {
                    index: be32_value(rest),
                    begin: be32_value(rest.skip(4)),
                    length: be32_value(rest.skip(8)),
                },
            )
        } else {
            Err(MessageError::InvalidId)
        }
    }
}

impl Message {
    pub fn encode(&self) -> (res: Vec<u8>)
        ensures
            res@ == encoded(self@),
    {
        match self {
            Message::KeepAlive => Self::encode_keep_alive(),
            Message::Choke => Self::encode_state(0),
            Message::Unchoke => Self::encode_state(1),
            Message::Interested => Self::encode_state(2),
            Message::NotInterested => Self::encode_state(3),
            Message::Have(piece_index) => Self::encode_have(*piece_index),
            Message::BitField(bitfield) => Self::encode_bitfield(bitfield.as_slice()),
            Message::Request { index, begin, length } => Self::encode_request(*index, *begin, *length),
            Message::Piece { index, begin, block } => Self::encode_piece(*index, *begin, block.as_slice()),
            Message::Cancel { index, begin, length } => Self::encode_cancel(*index, *begin, *length),
        }
    }

    pub fn encode_keep_alive() -> (res: Vec<u8>)
        ensures
            res@ == be32(0),
    {
        let mut buf = Vec::new();
        append_be32(&mut buf, 0);
        assert(buf@ =~= be32(0));
        buf
    }

    pub fn encode_state(id: u8) -> (res: Vec<u8>)
        ensures
            res@ == be32(1).push(id),
    {
        let mut buf = Vec::with_capacity(5);
        append_be32(&mut buf, 1);
        buf.push(id);
        assert(buf@ =~= be32(1).push(id));
        buf
    }

    pub fn encode_have(piece_index: u32) -> (res: Vec<u8>)
        ensures
            res@ == be32(5).push(4) + be32(piece_index),
    {
        let mut buf = Vec::with_capacity(4 + 5);
        append_be32(&mut buf, 5);
        buf.push(4);
        append_be32(&mut buf, piece_index);
        assert(buf@ =~= be32(5).push(4) + be32(piece_index));
        buf
    }

    pub fn encode_bitfield(bitfield: &[u8]) -> (res: Vec<u8>)
        ensures
            res@ == be32((1 + bitfield@.len()) as u32).push(5) + bitfield@,
    {
        let mut buf = Vec::new();
        let length = (bitfield.len() as u32).wrapping_add(1);
        assert(length == (1 + bitfield@.len()) as u32) by {
            let n = bitfield.len();
            assert((n as u32).wrapping_add(1) == (1 + n) as u32) by (bit_vector);
        }
        append_be32(&mut buf, length);
        buf.push(5);
        append_bytes(&mut buf, bitfield);
        assert(buf@ =~= be32((1 + bitfield@.len()) as u32).push(5) + bitfield@);
        buf
    }

    pub fn encode_request(index: u32, begin: u32, length: u32) -> (res: Vec<u8>)
        ensures
            res@ == be32(13).push(6) + be32(index) + be32(begin) + be32(length),
    {
        let mut buf = Vec::with_capacity(4 + 13);
        append_be32(&mut buf, 13);
        buf.push(6);
        append_be32(&mut buf, index);
        append_be32(&mut buf, begin);
        append_be32(&mut buf, length);
        assert(buf@ =~= be32(13).push(6) + be32(index) + be32(begin) + be32(length));
        buf
    }

    pub fn encode_piece(index: u32, begin: u32, block: &[u8]) -> (res: Vec<u8>)
        ensures
            res@ == be32((9 + block@.len()) as u32).push(7) + be32(index) + be32(begin) + block@,
    {
        let mut buf = Vec::new();
        let length = (block.len() as u32).wrapping_add(9);
        assert(length == (9 + block@.len()) as u32) by {
            let n = block.len();
            assert((n as u32).wrapping_add(9) == (9 + n) as u32) by (bit_vector);
        }
        append_be32(&mut buf, length);
        buf.push(7);
        append_be32(&mut buf, index);
        append_be32(&mut buf, begin);
        append_bytes(&mut buf, block);
        assert(buf@ =~= be32((9 + block@.len()) as u32).push(7) + be32(index) + be32(begin) + block@);
        buf
    }

    pub fn encode_cancel(index: u32, begin: u32, length: u32) -> (res: Vec<u8>)
        ensures
            res@ == be32(13).push(8) + be32(index) + be32(begin) + be32(length),
    {
        let mut buf = Vec::with_capacity(4 + 13);
        append_be32(&mut buf, 13);
        buf.push(8);
        append_be32(&mut buf, index);
        append_be32(&mut buf, begin);
        append_be32(&mut buf, length);
        assert(buf@ =~= be32(13).push(8) + be32(index) + be32(begin) + be32(length));
        buf
    }

    /// Whether `decode` can take `buf`.
    pub fn is_decodable(buf: &[u8]) -> (res: bool)
        ensures
            res == decodable_payload(buf@),
    {
        if buf.len() == 0 {
            return true;
        }
        let id = buf[0];
        let rest = buf.len() - 1;
        if id == 4 {
            rest == 4
        } else if id == 6 || id == 8 {
            rest >= 12
        } else if id == 7 {
            rest >= 8
        } else {
            true
        }
    }

    /// Decodes a message from its id and payload (the length already taken off).
    pub fn decode(buf: &[u8]) -> (res: Result<Message, MessageError>)
        requires
            decodable_payload(buf@),
        ensures
            match decoded_message(buf@) {
                Ok(m) => res matches Ok(r) && r@ == m,
                Err(e) => res == Err::<Message, MessageError>(e),
            },
    {
        if buf.len() == 0 {
            return Err(MessageError::IdMissing);
        }
        let id = buf[0];
        let rest = vstd::slice::slice_subrange(buf, 1, buf.len());
        assert(rest@ =~= buf@.drop_first());
        if id == 0 {
            Ok(Message::Choke)
        } else if id == 1 {
            Ok(Message::Unchoke)
        } else if id == 2 {
            Ok(Message::Interested)
        } else if id == 3 {
            Ok(Message::NotInterested)
        } else if id == 4 {
            Ok(Self::decode_have(rest))
        } else if id == 5 {
            Ok(Self::decode_bitfield(rest))
        } else if id == 6 {
            Ok(Self::decode_request(rest))
        } else if id == 7 {
            Ok(Self::decode_piece(rest))
        } else if id == 8 {
            Ok(Self::decode_cancel(rest))
        } else {
            Err(MessageError::InvalidId)
        }
    }

    pub fn decode_have(buf: &[u8]) -> (res: Message)
        requires
            buf@.len() == 4,
        ensures
            res@ == MessageModel::Have(be32_value(buf@)),
    {
        let piece_index = read_be32(buf, 0);
        assert(buf@.subrange(0, 4) =~= buf@);
        Message::Have(piece_index)
    }

    pub fn decode_bitfield(buf: &[u8]) -> (res: Message)
        ensures
            res@ == MessageModel::BitField(buf@),
    {
        Message::BitField(vstd::slice::slice_to_vec(buf))
    }

    pub fn decode_request(buf: &[u8]) -> (res: Message)
        requires
            buf@.len() >= 12,
        ensures
            res@ == (MessageModel::Request {
                index: be32_value(buf@),
                begin: be32_value(buf@.skip(4)),
                length: be32_value(buf@.skip(8)),
            }),
    {
        let index = read_be32(buf, 0);
        let begin = read_be32(buf, 4);
        let length = read_be32(buf, 8);
        Message::Request { index, begin, length }
    }

    pub fn decode_piece(buf: &[u8]) -> (res: Message)
        requires
            buf@.len() >= 8,
        ensures
            res@ == (MessageModel::Piece {
                index: be32_value(buf@),
                begin: be32_value(buf@.skip(4)),
                block: buf@.skip(8),
            }),
    {
        let index = read_be32(buf, 0);
        let begin = read_be32(buf, 4);
        let block = vstd::slice::slice_to_vec(vstd::slice::slice_subrange(buf, 8, buf.len()));
        assert(block@ =~= buf@.skip(8));
        Message::Piece { index, begin, block }
    }

    pub fn decode_cancel(buf: &[u8]) -> (res: Message)
        requires
            buf@.len() >= 12,
        ensures
            res@ == (MessageModel::Cancel {
                index: be32_value(buf@),
                begin: be32_value(buf@.skip(4)),
                length: be32_value(buf@.skip(8)),
            }),
    {
        let index = read_be32(buf, 0);
        let begin = read_be32(buf, 4);
        let length = read_be32(buf, 8);
        Message::Cancel { index, begin, length }
    }
}


/// Whether the length of a message's payload fits in its four-byte length.
pub open spec fn payload_fits(m: MessageModel) -> bool {
    match m {
        MessageModel::BitField(b) => 1 + b.len() <= u32::MAX,
        MessageModel::Piece { block, .. } => 9 + block.len() <= u32::MAX,
        _ => true,
    }
}

/// An encoded message reads back as itself: its first four bytes give the
/// length of the rest; only a keep-alive has no rest; and the rest decodes
/// to the message.
pub proof fn lemma_message_roundtrip(m: MessageModel)
    requires
        payload_fits(m),
    ensures
        encoded(m).len() >= 4,
        be32_value(encoded(m)) == encoded(m).len() - 4,
        (m is KeepAlive) <==> encoded(m).len() == 4,
        !(m is KeepAlive) ==> decodable_payload(encoded(m).skip(4)),
        !(m is KeepAlive) ==> decoded_message(encoded(m).skip(4)) == Ok::<MessageModel, MessageError>(m),
{
    let e = encoded(m);
    let len: u32 = match m {
        MessageModel::KeepAlive => 0,
        MessageModel::Choke | MessageModel::Unchoke | MessageModel::Interested | MessageModel::NotInterested => 1,
        MessageModel::Have(_) => 5,
        MessageModel::BitField(b) => (1 + b.len()) as u32,
        MessageModel::Request { .. } | MessageModel::Cancel { .. } => 13,
        MessageModel::Piece { block, .. } => (9 + block.len()) as u32,
    };
    lemma_be32_roundtrip(len);
    assert(e.subrange(0, 4) =~= be32(len));
    assert(be32_value(e) == be32_value(e.subrange(0, 4)));
    let rest = e.skip(4).drop_first();
    match m {
        MessageModel::Have(i) => {
            lemma_be32_roundtrip(i);
            assert(rest =~= be32(i));
        },
        MessageModel::BitField(b) => {
            assert(rest =~= b);
        },
        MessageModel::Request { index, begin, length } => {
            lemma_be32_roundtrip(index);
            lemma_be32_roundtrip(begin);
            lemma_be32_roundtrip(length);
            assert(rest =~= be32(index) + be32(begin) + be32(length));
            assert(be32_value(rest) == be32_value(be32(index)));
            assert(rest.skip(4).subrange(0, 4) =~= be32(begin));
            assert(be32_value(rest.skip(4)) == be32_value(be32(begin)));
            assert(rest.skip(8).subrange(0, 4) =~= be32(length));
            assert(be32_value(rest.skip(8)) == be32_value(be32(length)));
        },
        MessageModel::Cancel { index, begin, length } => {
            lemma_be32_roundtrip(index);
            lemma_be32_roundtrip(begin);
            lemma_be32_roundtrip(length);
            assert(rest =~= be32(index) + be32(begin) + be32(length));
            assert(be32_value(rest) == be32_value(be32(index)));
            assert(rest.skip(4).subrange(0, 4) =~= be32(begin));
            assert(be32_value(rest.skip(4)) == be32_value(be32(begin)));
            assert(rest.skip(8).subrange(0, 4) =~= be32(length));
            assert(be32_value(rest.skip(8)) == be32_value(be32(length)));
        },
        MessageModel::Piece { index, begin, block } => {
            lemma_be32_roundtrip(index);
            lemma_be32_roundtrip(begin);
            assert(rest =~= be32(index) + be32(begin) + block);
            assert(be32_value(rest) == be32_value(be32(index)));
            assert(rest.skip(4).subrange(0, 4) =~= be32(begin));
            assert(be32_value(rest.skip(4)) == be32_value(be32(begin)));
            assert(rest.skip(8) =~= block);
        },
        _ => {},
    }
}


// ---------------------------------------------------------------------------
// The handshake.
// ---------------------------------------------------------------------------

/// The length of a handshake.
pub const HANDSHAKE_SIZE: usize = 68;

/// The protocol name, `BitTorrent protocol`.
pub open spec fn protocol_name() -> Seq<u8> {
    seq![66u8, 105, 116, 84, 111, 114, 114, 101, 110, 116, 32, 112, 114, 111, 116, 111, 99, 111, 108]
}

fn protocol_name_bytes() -> (res: Vec<u8>)
    ensures
        res@ == protocol_name(),
{
    let res: Vec<u8> = vec![66u8, 105, 116, 84, 111, 114, 114, 101, 110, 116, 32, 112, 114, 111, 116, 111, 99, 111, 108];
    assert(res@ =~= protocol_name());
    res
}

/// A handshake: the length of the protocol name, the name, eight reserved
/// zero bytes, the info hash and the client's id.
pub open spec fn handshake(info_hash: Seq<u8>, client_id: Seq<u8>) -> Seq<u8> {
    seq![19u8] + protocol_name() + Seq::new(8, |i: int| 0u8) + info_hash + client_id
}

/// Why a handshake received from a peer was refused.
#[derive(Debug, PartialEq, Eq)]
pub enum HandshakeError {
    InvalidPstrlen,
    InvalidPstr,
    InfoHashMismatch,
}

/// What a received handshake gives: the peer's id, or the first check that failed.
pub open spec fn handshake_result(buf: Seq<u8>, info_hash: Seq<u8>) -> Result<Seq<u8>, HandshakeError> {
    if buf[0] != 19 {
        Err(HandshakeError::InvalidPstrlen)
    } else if buf.subrange(1, 20) != protocol_name() {
        Err(HandshakeError::InvalidPstr)
    } else if buf.subrange(28, 48) != info_hash {
        Err(HandshakeError::InfoHashMismatch)
    } else {
        Ok(buf.subrange(48, 68))
    }
}

/// A handshake that this client builds passes this client's own check, for
/// the same info hash, and gives back the client's id.
pub proof fn lemma_handshake_roundtrip(info_hash: Seq<u8>, client_id: Seq<u8>)
    requires
        info_hash.len() == 20,
        client_id.len() == 20,
    ensures
        handshake(info_hash, client_id).len() == HANDSHAKE_SIZE,
        handshake_result(handshake(info_hash, client_id), info_hash) == Ok::<Seq<u8>, HandshakeError>(client_id),
{
    let h = handshake(info_hash, client_id);
    assert(h.subrange(1, 20) =~= protocol_name());
    assert(h.subrange(28, 48) =~= info_hash);
    assert(h.subrange(48, 68) =~= client_id);
}

/// A received handshake that starts with 19 and the protocol name and
/// carries the torrent's info hash is accepted, whatever its eight reserved
/// bytes hold (peers set extension bits there), and gives the peer's id.
pub proof fn lemma_handshake_accepts_any_reserved(buf: Seq<u8>, info_hash: Seq<u8>)
    requires
        buf.len() == HANDSHAKE_SIZE,
        buf[0] == 19,
        buf.subrange(1, 20) == protocol_name(),
        buf.subrange(28, 48) == info_hash,
    ensures
        handshake_result(buf, info_hash) == Ok::<Seq<u8>, HandshakeError>(buf.subrange(48, 68)),
{
}

/// Two received handshakes that differ only in their reserved bytes (20 to
/// 27) are judged alike.
pub proof fn lemma_handshake_ignores_reserved(a: Seq<u8>, b: Seq<u8>, info_hash: Seq<u8>)
    requires
        a.len() == HANDSHAKE_SIZE,
        b.len() == HANDSHAKE_SIZE,
        forall|i: int| 0 <= i < HANDSHAKE_SIZE && !(20 <= i < 28) ==> a[i] == b[i],
    ensures
        handshake_result(a, info_hash) == handshake_result(b, info_hash),
{
    assert(a.subrange(1, 20) =~= b.subrange(1, 20));
    assert(a.subrange(28, 48) =~= b.subrange(28, 48));
    assert(a.subrange(48, 68) =~= b.subrange(48, 68));
}

/// A received handshake is refused with the first check that it fails: a
/// first byte other than 19, then a protocol name other than
/// `BitTorrent protocol`, then another torrent's info hash.
pub proof fn lemma_handshake_refusals(buf: Seq<u8>, info_hash: Seq<u8>)
    requires
        buf.len() == HANDSHAKE_SIZE,
    ensures
        buf[0] != 19 ==> handshake_result(buf, info_hash) == Err::<Seq<u8>, HandshakeError>(
            HandshakeError::InvalidPstrlen,
        ),
        buf[0] == 19 && buf.subrange(1, 20) != protocol_name() ==> handshake_result(buf, info_hash) == Err::<
            Seq<u8>,
            HandshakeError,
        >(HandshakeError::InvalidPstr),
        buf[0] == 19 && buf.subrange(1, 20) == protocol_name() && buf.subrange(28, 48) != info_hash
            ==> handshake_result(buf, info_hash) == Err::<Seq<u8>, HandshakeError>(
            HandshakeError::InfoHashMismatch,
        ),
{
}

pub fn build_handshake(info_hash: &[u8], client_id: &[u8]) -> (res: Vec<u8>)
    ensures
        res@ == handshake(info_hash@, client_id@),
{
    let mut handshake = Vec::with_capacity(HANDSHAKE_SIZE);
    handshake.push(19u8);
    append_bytes(&mut handshake, protocol_name_bytes().as_slice());
    let mut i: usize = 0;
    while i < 8
        invariant
            i <= 8,
            handshake@ == seq![19u8] + protocol_name() + Seq::new(i as nat, |k: int| 0u8),
        decreases 8 - i,
    {
        handshake.push(0u8);
        i = i + 1;
        assert(handshake@ =~= seq![19u8] + protocol_name() + Seq::new(i as nat, |k: int| 0u8));
    }
    append_bytes(&mut handshake, info_hash);
    append_bytes(&mut handshake, client_id);
    assert(handshake@ =~= seq![19u8] + protocol_name() + Seq::new(8, |k: int| 0u8) + info_hash@ + client_id@);
    handshake
}

/// Checks a handshake received from a peer against the torrent's info hash,
/// and returns the peer's id.
pub fn check_handshake(buf: &[u8], info_hash: &[u8; 20]) -> (res: Result<[u8; 20], HandshakeError>)
    requires
        buf@.len() == HANDSHAKE_SIZE,
    ensures
        match handshake_result(buf@, info_hash@) {
            Ok(id) => res matches Ok(r) && r@ == id,
            Err(e) => res == Err::<[u8; 20], HandshakeError>(e),
        },
{
    if buf[0] != 19 {
        return Err(HandshakeError::InvalidPstrlen);
    }
    let name = protocol_name_bytes();
    if !bytes_eq(vstd::slice::slice_subrange(buf, 1, 20), name.as_slice()) {
        return Err(HandshakeError::InvalidPstr);
    }
    if !bytes_eq(vstd::slice::slice_subrange(buf, 28, 48), info_hash.as_slice()) {
        return Err(HandshakeError::InfoHashMismatch);
    }
    let mut peer_id = [0u8; 20];
    let mut i: usize = 0;
    while i < 20
        invariant
            i <= 20,
            buf@.len() == HANDSHAKE_SIZE,
            forall|k: int| 0 <= k < i ==> peer_id@[k] == buf@[48 + k],
        decreases 20 - i,
    {
        peer_id[i] = buf[48 + i];
        i = i + 1;
    }
    assert(peer_id@ =~= buf@.subrange(48, 68));
    Ok(peer_id)
}


// ---------------------------------------------------------------------------
// Peers.
// ---------------------------------------------------------------------------

/// The IPv4 address and port of a peer.
#[derive(Debug, Clone, Copy, PartialEq, Eq, Hash)]
pub struct PeerAddr {
    pub ip: [u8; 4],
    pub port: u16,
}

/// What is known of a peer.
#[derive(Debug, Clone)]
pub struct Peer {
    addr: PeerAddr,
    peer_id: [u8; 20],
    bitfield: BitField,
    am_choking: bool,
    am_interested: bool,
    peer_choking: bool,
    peer_interested: bool,
}

/// The state of a peer, as values.
pub struct PeerView {
    pub addr: PeerAddr,
    pub peer_id: Seq<u8>,
    pub bitfield: BitField,
    pub am_choking: bool,
    pub am_interested: bool,
    pub peer_choking: bool,
    pub peer_interested: bool,
}

impl View for Peer {
    type V = PeerView;

    closed spec fn view(&self) -> PeerView {
        PeerView {
            addr: self.addr,
            peer_id: self.peer_id@,
            bitfield: self.bitfield,
            am_choking: self.am_choking,
            am_interested: self.am_interested,
            peer_choking: self.peer_choking,
            peer_interested: self.peer_interested,
        }
    }
}

/// Whether a message can be taken by `Peer::update_from_message`: a `have`
/// must name a piece that the bitfield can hold or one past its pieces.
pub open spec fn message_applies(bitfield: BitField, m: MessageModel) -> bool {
    m matches MessageModel::Have(i) ==> (i >= bitfield.num_pieces || i / 8 < bitfield.bytes@.len())
}

impl Peer {
    pub fn new(addr: PeerAddr) -> (res: Self)
        ensures
            res@.addr == addr,
            res@.peer_id == Seq::new(20, |i: int| 0u8),
            res@.bitfield.num_pieces == 0,
            res@.bitfield.bytes@.len() == 0,
            res@.am_choking,
            !res@.am_interested,
            res@.peer_choking,
            !res@.peer_interested,
    {
        let res = Self {
            addr,
            peer_id: [0u8; 20],
            bitfield: BitField::empty(0),
            am_choking: true,
            am_interested: false,
            peer_choking: true,
            peer_interested: false,
        };
        assert(res@.peer_id =~= Seq::new(20, |i: int| 0u8));
        res
    }

    pub fn addr(&self) -> (res: PeerAddr)
        ensures
            res == self@.addr,
    {
        self.addr
    }

    pub fn is_chocked(&self) -> (res: bool)
        ensures
            res == self@.peer_choking,
    {
        self.peer_choking
    }

    pub fn is_interested(&self) -> (res: bool)
        ensures
            res == self@.peer_interested,
    {
        self.peer_interested
    }

    pub fn bitfield(&self) -> (res: &BitField)
        ensures
            *res == self@.bitfield,
    {
        &self.bitfield
    }

    pub fn set_bitfield(&mut self, bitfield: BitField)
        ensures
            final(self)@ == (PeerView { bitfield, ..old(self)@ }),
    {
        self.bitfield = bitfield;
    }

    /// Records a completed handshake: the peer's id, and a bitfield with no
    /// pieces yet.
    pub fn connected(&mut self, peer_id: [u8; 20], num_pieces: usize)
        requires
            num_pieces <= usize::MAX - 7,
        ensures
            final(self)@.addr == old(self)@.addr,
            final(self)@.peer_id == peer_id@,
            final(self)@.bitfield.num_pieces == num_pieces,
            final(self)@.bitfield.bytes@ == Seq::new(((num_pieces + 7) / 8) as nat, |i: int| 0u8),
            final(self)@.bitfield.covers(),
            forall|i: int| !final(self)@.bitfield.spec_has_piece(i),
            final(self)@.am_choking == old(self)@.am_choking,
            final(self)@.am_interested == old(self)@.am_interested,
            final(self)@.peer_choking == old(self)@.peer_choking,
            final(self)@.peer_interested == old(self)@.peer_interested,
    {
        self.peer_id = peer_id;
        self.set_bitfield(BitField::empty(num_pieces));
    }

    /// Whether `update_from_message` can take `msg`: a `have` names a piece
    /// whose bit the peer's bitfield can hold, or one past its pieces.
    pub fn accepts(&self, msg: &Message) -> (res: bool)
        ensures
            res == message_applies(self@.bitfield, msg@),
    {
        match msg {
            Message::Have(i) => {
                let i = *i as usize;
                i >= self.bitfield.num_pieces || i / 8 < self.bitfield.bytes.len()
            },
            _ => true,
        }
    }

    /// Takes in a message from the peer that changes what is known of it,
    /// and says whether the peer is ready to serve: the message was not a
    /// keep-alive and the peer does not choke us.
    pub fn update_from_message(&mut self, msg: &Message, num_pieces: usize) -> (ready: bool)
        requires
            message_applies(old(self)@.bitfield, msg@),
        ensures
            final(self)@.addr == old(self)@.addr,
            final(self)@.peer_id == old(self)@.peer_id,
            final(self)@.am_choking == old(self)@.am_choking,
            final(self)@.am_interested == old(self)@.am_interested,
            match msg@ {
                MessageModel::BitField(b) => final(self)@.bitfield.bytes@ == b
                    && final(self)@.bitfield.num_pieces == num_pieces,
                MessageModel::Have(i) => {
                    &&& final(self)@.bitfield.num_pieces == old(self)@.bitfield.num_pieces
                    &&& final(self)@.bitfield.bytes@ == old(self)@.bitfield.bytes_with_piece(i as int)
                    &&& final(self)@.bitfield.bytes@.len() == old(self)@.bitfield.bytes@.len()
                    &&& final(self)@.bitfield.spec_has_piece(i as int) == (i < old(self)@.bitfield.num_pieces)
                    &&& forall|j: int| j != i ==> final(self)@.bitfield.spec_has_piece(j)
                        == old(self)@.bitfield.spec_has_piece(j)
                },
                _ => final(self)@.bitfield == old(self)@.bitfield,
            },
            final(self)@.peer_choking == match msg@ {
                MessageModel::Choke => true,
                MessageModel::Unchoke => false,
                _ => old(self)@.peer_choking,
            },
            final(self)@.peer_interested == match msg@ {
                MessageModel::Interested => true,
                MessageModel::NotInterested => false,
                _ => old(self)@.peer_interested,
            },
            ready == (!(msg@ is KeepAlive) && !final(self)@.peer_choking),
    {
        match msg {
            Message::BitField(b) => {
                self.set_bitfield(BitField::new(vstd::slice::slice_to_vec(b.as_slice()), num_pieces));
            },
            Message::Have(index) => {
                let mut bitfield = BitField::empty(0);
                std::mem::swap(&mut bitfield, &mut self.bitfield);
                bitfield.set_piece(*index as usize);
                self.bitfield = bitfield;
            },
            Message::Choke => {
                self.peer_choking = true;
            },
            Message::Unchoke => {
                self.peer_choking = false;
            },
            Message::Interested => {
                self.peer_interested = true;
            },
            Message::NotInterested => {
                self.peer_interested = false;
            },
            Message::KeepAlive => {
                return false;
            },
            _ => {},
        }
        !self.peer_choking
    }
}

// ---------------------------------------------------------------------------
// Peers met more than once.
// ---------------------------------------------------------------------------

/// The addresses of `peers`, in order.
pub open spec fn peer_addrs(peers: Seq<Peer>) -> Seq<PeerAddr> {
    peers.map_values(|p: Peer| p@.addr)
}

/// The peers of `peers` that are new: those whose address is neither in
/// `seen` nor that of an earlier peer of `peers`, in their order.
pub open spec fn fresh_peers(seen: Seq<PeerAddr>, peers: Seq<Peer>) -> Seq<Peer>
    decreases peers.len(),
{
    if peers.len() == 0 {
        Seq::empty()
    } else {
        let earlier = fresh_peers(seen, peers.drop_last());
        if (seen + peer_addrs(earlier)).contains(peers.last()@.addr) {
            earlier
        } else {
            earlier.push(peers.last())
        }
    }
}

/// Whether two addresses are the same.
fn same_addr(a: &PeerAddr, b: &PeerAddr) -> (res: bool)
    ensures
        res == (*a == *b),
{
    let r = a.ip[0] == b.ip[0] && a.ip[1] == b.ip[1] && a.ip[2] == b.ip[2] && a.ip[3] == b.ip[3]
        && a.port == b.port;
    proof {
        if r {
            assert(a.ip@ =~= b.ip@);
            vstd::array::axiom_array_ext_equal(a.ip, b.ip);
        }
    }
    r
}

/// Whether `addr` is among `addrs`.
fn contains_addr(addrs: &Vec<PeerAddr>, addr: PeerAddr) -> (res: bool)
    ensures
        res == addrs@.contains(addr),
{
    let mut i: usize = 0;
    while i < addrs.len()
        invariant
            i <= addrs@.len(),
            forall|j: int| 0 <= j < i ==> addrs@[j] != addr,
        decreases addrs@.len() - i,
    {
        if same_addr(&addrs[i], &addr) {
            return true;
        }
        i = i + 1;
    }
    false
}

/// Keeps the peers that are new, in their order, and adds their addresses
/// to `seen`: so no address is handed out twice.
pub fn new_peers(seen: &mut Vec<PeerAddr>, peers: Vec<Peer>) -> (res: Vec<Peer>)
    ensures
        res@ == fresh_peers(old(seen)@, peers@),
        final(seen)@ == old(seen)@ + peer_addrs(res@),
{
    let ghost s0 = seen@;
    let ghost all = peers@;
    let mut rest = peers;
    let n: usize = rest.len();
    let mut res: Vec<Peer> = Vec::new();
    let mut i: usize = 0;
    while rest.len() > 0
        invariant
            rest@ == all.skip(i as int),
            i + rest@.len() == all.len(),
            all.len() == n,
            res@ == fresh_peers(s0, all.take(i as int)),
            seen@ == s0 + peer_addrs(res@),
        decreases rest@.len(),
    {
        let p = rest.remove(0);
        assert(all.take(i + 1).drop_last() =~= all.take(i as int));
        assert(all.take(i + 1).last() == p);
        let addr = p.addr();
        if !contains_addr(seen, addr) {
            res.push(p);
            seen.push(addr);
            assert(peer_addrs(res@) =~= peer_addrs(res@.drop_last()).push(addr));
            assert(res@.drop_last() =~= fresh_peers(s0, all.take(i as int)));
        }
        i = i + 1;
        assert(rest@ =~= all.skip(i as int));
    }
    assert(all.take(i as int) =~= all);
    res
}

/// No address occurs twice among the new peers, and none is one already seen.
pub proof fn lemma_fresh_peers_distinct(seen: Seq<PeerAddr>, peers: Seq<Peer>)
    ensures
        forall|i: int, j: int|
            0 <= i < j < fresh_peers(seen, peers).len() ==> fresh_peers(seen, peers)[i]@.addr
                != fresh_peers(seen, peers)[j]@.addr,
        forall|i: int|
            0 <= i < fresh_peers(seen, peers).len() ==> !seen.contains(
                #[trigger] fresh_peers(seen, peers)[i]@.addr,
            ),
    decreases peers.len(),
{
    if peers.len() > 0 {
        let earlier = fresh_peers(seen, peers.drop_last());
        lemma_fresh_peers_distinct(seen, peers.drop_last());
        let a = peers.last()@.addr;
        if !(seen + peer_addrs(earlier)).contains(a) {
            let f = earlier.push(peers.last());
            assert forall|i: int| 0 <= i < earlier.len() implies f[i]@.addr != a by {
                assert((seen + peer_addrs(earlier))[seen.len() + i] == earlier[i]@.addr);
            }
            assert forall|k: int| 0 <= k < seen.len() implies seen[k] != a by {
                assert((seen + peer_addrs(earlier))[k] == seen[k]);
            }
        }
    }
}

/// The addresses of a sequence with one more peer.
proof fn lemma_peer_addrs_push(ps: Seq<Peer>, p: Peer)
    ensures
        peer_addrs(ps.push(p)) == peer_addrs(ps).push(p@.addr),
{
    assert(peer_addrs(ps.push(p)) =~= peer_addrs(ps).push(p@.addr));
}

/// The new peers are all the peers of the batch that are new: an address is
/// among theirs exactly when some peer of the batch has it and it was not
/// seen before. So two peers that differ in address only by their port, or
/// only by their IP, are both kept.
pub proof fn lemma_fresh_peers_complete(seen: Seq<PeerAddr>, peers: Seq<Peer>)
    ensures
        forall|a: PeerAddr|
            #[trigger] peer_addrs(fresh_peers(seen, peers)).contains(a) <==> (peer_addrs(peers).contains(a)
                && !seen.contains(a)),
    decreases peers.len(),
{
    if peers.len() > 0 {
        let prev = peers.drop_last();
        let last = peers.last();
        let earlier = fresh_peers(seen, prev);
        lemma_fresh_peers_complete(seen, prev);
        assert(peers == prev.push(last));
        lemma_peer_addrs_push(prev, last);
        let pa = peer_addrs(peers);
        let qa = peer_addrs(prev);
        let ea = peer_addrs(earlier);
        assert forall|a: PeerAddr| pa.contains(a) <==> (qa.contains(a) || a == last@.addr) by {
            if pa.contains(a) {
                let k = choose|k: int| 0 <= k < pa.len() && pa[k] == a;
                if k < qa.len() {
                    assert(qa[k] == a);
                }
            }
            if qa.contains(a) {
                let k = choose|k: int| 0 <= k < qa.len() && qa[k] == a;
                assert(pa[k] == a);
            }
            if a == last@.addr {
                assert(pa[pa.len() - 1] == a);
            }
        }
        let all = seen + ea;
        if all.contains(last@.addr) {
            assert forall|a: PeerAddr| #[trigger] ea.contains(a) <==> (pa.contains(a) && !seen.contains(a)) by {
                if a == last@.addr && !seen.contains(a) {
                    let k = choose|k: int| 0 <= k < all.len() && all[k] == a;
                    if k < seen.len() {
                        assert(seen[k] == a);
                    } else {
                        assert(ea[k - seen.len()] == a);
                    }
                }
            }
        } else {
            lemma_peer_addrs_push(earlier, last);
            assert(!seen.contains(last@.addr)) by {
                if seen.contains(last@.addr) {
                    let k = choose|k: int| 0 <= k < seen.len() && seen[k] == last@.addr;
                    assert(all[k] == last@.addr);
                }
            }
            let fa = ea.push(last@.addr);
            assert forall|a: PeerAddr| #[trigger] fa.contains(a) <==> (ea.contains(a) || a == last@.addr) by {
                if fa.contains(a) {
                    let k = choose|k: int| 0 <= k < fa.len() && fa[k] == a;
                    if k < ea.len() {
                        assert(ea[k] == a);
                    }
                }
                if ea.contains(a) {
                    let k = choose|k: int| 0 <= k < ea.len() && ea[k] == a;
                    assert(fa[k] == a);
                }
                if a == last@.addr {
                    assert(fa[fa.len() - 1] == a);
                }
            }
        }
    }
}

/// The new peers keep the order of the batch: those of a first part of the
/// batch come first, as they would alone.
pub proof fn lemma_fresh_peers_in_order(seen: Seq<PeerAddr>, peers: Seq<Peer>, k: int)
    requires
        0 <= k <= peers.len(),
    ensures
        fresh_peers(seen, peers.take(k)).len() <= fresh_peers(seen, peers).len(),
        fresh_peers(seen, peers).take(fresh_peers(seen, peers.take(k)).len() as int) == fresh_peers(
            seen,
            peers.take(k),
        ),
    decreases peers.len() - k,
{
    if k == peers.len() {
        assert(peers.take(k) =~= peers);
    } else {
        let prev = peers.drop_last();
        lemma_fresh_peers_in_order(seen, prev, k);
        assert(prev.take(k) =~= peers.take(k));
        let e = fresh_peers(seen, prev);
        let f = fresh_peers(seen, peers);
        let p = fresh_peers(seen, peers.take(k));
        assert(f.take(e.len() as int) =~= e);
        assert(f.take(p.len() as int) =~= e.take(p.len() as int));
    }
}

/// Each new peer is a peer of the batch, the first in the batch with its
/// address.
pub proof fn lemma_fresh_peers_first_of_address(seen: Seq<PeerAddr>, peers: Seq<Peer>)
    ensures
        forall|i: int|
            0 <= i < fresh_peers(seen, peers).len() ==> exists|j: int|
                0 <= j < peers.len() && #[trigger] fresh_peers(seen, peers)[i] == peers[j] && forall|m: int|
                    0 <= m < j ==> peers[m]@.addr != peers[j]@.addr,
    decreases peers.len(),
{
    if peers.len() > 0 {
        let prev = peers.drop_last();
        let last = peers.last();
        let e = fresh_peers(seen, prev);
        let f = fresh_peers(seen, peers);
        lemma_fresh_peers_first_of_address(seen, prev);
        lemma_fresh_peers_complete(seen, prev);
        assert forall|i: int| 0 <= i < f.len() implies exists|j: int|
            0 <= j < peers.len() && #[trigger] f[i] == peers[j] && forall|m: int|
                0 <= m < j ==> peers[m]@.addr != peers[j]@.addr by {
            if i < e.len() {
                assert(f[i] == e[i]);
                let j = choose|j: int|
                    0 <= j < prev.len() && #[trigger] e[i] == prev[j] && forall|m: int|
                        0 <= m < j ==> prev[m]@.addr != prev[j]@.addr;
                assert(peers[j] == prev[j]);
                assert forall|m: int| 0 <= m < j implies peers[m]@.addr != peers[j]@.addr by {
                    assert(peers[m] == prev[m]);
                }
            } else {
                let j = peers.len() - 1;
                assert(f[i] == last);
                assert(!(seen + peer_addrs(e)).contains(last@.addr));
                assert forall|m: int| 0 <= m < j implies peers[m]@.addr != peers[j]@.addr by {
                    if peers[m]@.addr == last@.addr {
                        assert(peer_addrs(prev)[m] == last@.addr);
                        assert(peer_addrs(prev).contains(last@.addr));
                        if seen.contains(last@.addr) {
                            let q = choose|q: int| 0 <= q < seen.len() && seen[q] == last@.addr;
                            assert((seen + peer_addrs(e))[q] == last@.addr);
                        } else {
                            assert(peer_addrs(e).contains(last@.addr));
                            let q = choose|q: int| 0 <= q < peer_addrs(e).len() && peer_addrs(e)[q] == last@.addr;
                            assert((seen + peer_addrs(e))[seen.len() + q] == last@.addr);
                        }
                    }
                }
            }
        }
    }
}

/// The addresses seen after the new peers of each batch are handed out in
/// turn, as `new_peers` does when it is called on each batch.
pub open spec fn seen_after(seen: Seq<PeerAddr>, batches: Seq<Seq<Peer>>) -> Seq<PeerAddr>
    decreases batches.len(),
{
    if batches.len() == 0 {
        seen
    } else {
        let before = seen_after(seen, batches.drop_last());
        before + peer_addrs(fresh_peers(before, batches.last()))
    }
}

/// Across any number of successive batches of peers (one per announce), no
/// address is handed out twice: the addresses seen, which start with those
/// seen before, never repeat one.
pub proof fn lemma_no_address_twice(seen: Seq<PeerAddr>, batches: Seq<Seq<Peer>>)
    requires
        seen.no_duplicates(),
    ensures
        seen_after(seen, batches).no_duplicates(),
        seen.len() <= seen_after(seen, batches).len(),
        seen_after(seen, batches).take(seen.len() as int) == seen,
    decreases batches.len(),
{
    if batches.len() > 0 {
        let before = seen_after(seen, batches.drop_last());
        lemma_no_address_twice(seen, batches.drop_last());
        let fresh = fresh_peers(before, batches.last());
        lemma_fresh_peers_distinct(before, batches.last());
        let after = before + peer_addrs(fresh);
        assert(after.take(seen.len() as int) =~= seen) by {
            assert forall|i: int| 0 <= i < seen.len() implies after[i] == seen[i] by {
                assert(after[i] == before[i]);
                assert(before.take(seen.len() as int)[i] == seen[i]);
            }
        }
        assert forall|i: int, j: int| 0 <= i < after.len() && 0 <= j < after.len() && i != j implies after[i]
            != after[j] by {
            let b = before.len() as int;
            if i >= b && j >= b {
                assert(after[i] == fresh[i - b]@.addr);
                assert(after[j] == fresh[j - b]@.addr);
                if i < j {
                    assert(fresh[i - b]@.addr != fresh[j - b]@.addr);
                } else {
                    assert(fresh[j - b]@.addr != fresh[i - b]@.addr);
                }
            } else if i >= b {
                assert(after[i] == fresh[i - b]@.addr);
                assert(!before.contains(fresh[i - b]@.addr));
                assert(after[j] == before[j]);
            } else if j >= b {
                assert(after[j] == fresh[j - b]@.addr);
                assert(!before.contains(fresh[j - b]@.addr));
                assert(after[i] == before[i]);
            }
        }
    }
}

// ---------------------------------------------------------------------------
// Downloading a piece.
// ---------------------------------------------------------------------------

/// The number of blocks that a piece of `piece_length` bytes is requested in.
pub open spec fn num_blocks(piece_length: int) -> int {
    (piece_length + BLOCK_SIZE - 1) / BLOCK_SIZE as int
}

/// Where block `b` starts.
pub open spec fn block_begin(b: int) -> int {
    b * BLOCK_SIZE
}

/// The length of block `b`: a whole block, or what is left of the piece.
pub open spec fn block_length(piece_length: int, b: int) -> int {
    if BLOCK_SIZE <= piece_length - block_begin(b) {
        BLOCK_SIZE as int
    } else {
        piece_length - block_begin(b)
    }
}

/// The request for block `block_num` of a piece.
pub fn request_block(block_num: usize, piece_index: usize, piece_length: u32) -> (res: Message)
    requires
        block_num < num_blocks(piece_length as int),
    ensures
        res@ == (MessageModel::Request {
            index: piece_index as u32,
            begin: block_begin(block_num as int) as u32,
            length: block_length(piece_length as int, block_num as int) as u32,
        }),
{
    assert(block_num * BLOCK_SIZE < piece_length) by (nonlinear_arith)
        requires
            block_num < (piece_length + BLOCK_SIZE - 1) / BLOCK_SIZE as int,
    ;
    let begin = (block_num as u32) * BLOCK_SIZE;
    let rest = piece_length - begin;
    let length = if BLOCK_SIZE <= rest {
        BLOCK_SIZE
    } else {
        rest
    };
    Message::Request { index: piece_index as u32, begin, length }
}

/// The requests for all the blocks of a piece, in order.
pub fn block_requests(piece_index: usize, piece_length: u32) -> (res: Vec<Message>)
    requires
        piece_length + BLOCK_SIZE <= u32::MAX,
    ensures
        res@.len() == num_blocks(piece_length as int),
        forall|b: int|
            0 <= b < res@.len() ==> #[trigger] res@[b]@ == (MessageModel::Request {
                index: piece_index as u32,
                begin: block_begin(b) as u32,
                length: block_length(piece_length as int, b) as u32,
            }),
{
    let count = (piece_length + BLOCK_SIZE - 1) / BLOCK_SIZE;
    let mut requests: Vec<Message> = Vec::new();
    let mut block: u32 = 0;
    while block < count
        invariant
            count == num_blocks(piece_length as int),
            block <= count,
            requests@.len() == block,
            forall|b: int|
                0 <= b < block ==> #[trigger] requests@[b]@ == (MessageModel::Request {
                    index: piece_index as u32,
                    begin: block_begin(b) as u32,
                    length: block_length(piece_length as int, b) as u32,
                }),
        decreases count - block,
    {
        requests.push(request_block(block as usize, piece_index, piece_length));
        block = block + 1;
    }
    requests
}

/// The blocks of a piece follow one another from its start to its end: the
/// first starts at 0, each starts where the one before ended, none is
/// empty or longer than a block, and the last ends at the end of the piece.
pub proof fn lemma_blocks_cover_piece(piece_length: int)
    requires
        piece_length > 0,
    ensures
        num_blocks(piece_length) >= 1,
        block_begin(0) == 0,
        forall|b: int|
            0 <= b < num_blocks(piece_length) ==> 0 < #[trigger] block_length(piece_length, b) <= BLOCK_SIZE,
        forall|b: int|
            0 <= b < num_blocks(piece_length) - 1 ==> #[trigger] block_begin(b + 1) == block_begin(b)
                + block_length(piece_length, b),
        block_begin(num_blocks(piece_length) - 1) + block_length(
            piece_length,
            num_blocks(piece_length) - 1,
        ) == piece_length,
{
    let n = num_blocks(piece_length);
    let bs = BLOCK_SIZE as int;
    assert(n >= 1 && (n - 1) * bs < piece_length && piece_length <= n * bs) by (nonlinear_arith)
        requires
            n == (piece_length + bs - 1) / bs,
            bs == 16384,
            piece_length > 0,
    ;
    assert forall|b: int| 0 <= b < n implies 0 < #[trigger] block_length(piece_length, b) <= BLOCK_SIZE by {
        assert(b * bs <= (n - 1) * bs) by (nonlinear_arith)
            requires
                b <= n - 1,
                bs > 0,
        ;
    }
    assert forall|b: int| 0 <= b < n - 1 implies #[trigger] block_begin(b + 1) == block_begin(b)
        + block_length(piece_length, b) by {
        assert((b + 1) * bs <= (n - 1) * bs) by (nonlinear_arith)
            requires
                b + 1 <= n - 1,
                bs > 0,
        ;
        assert((b + 1) * bs == b * bs + bs) by (nonlinear_arith);
    }
    assert(n * bs == (n - 1) * bs + bs) by (nonlinear_arith);
}

/// Why a block could not be taken.
#[derive(Debug, PartialEq, Eq)]
pub enum PieceError {
    WrongPiece,
}

/// A piece being downloaded: the blocks received so far, placed where they belong.
#[derive(Debug)]
pub struct PieceDownload {
    piece_index: usize,
    piece_length: u32,
    data: Vec<u8>,
    blocks_received: u32,
    num_blocks: u32,
}

/// The state of a piece download, as values.
pub struct PieceDownloadView {
    pub piece_index: usize,
    pub piece_length: u32,
    pub data: Seq<u8>,
    pub blocks_received: u32,
    pub num_blocks: u32,
}

impl View for PieceDownload {
    type V = PieceDownloadView;

    closed spec fn view(&self) -> PieceDownloadView {
        PieceDownloadView {
            piece_index: self.piece_index,
            piece_length: self.piece_length,
            data: self.data@,
            blocks_received: self.blocks_received,
            num_blocks: self.num_blocks,
        }
    }
}

impl PieceDownload {
    /// Starts a download of a piece: a buffer of zeros, no block received.
    pub fn new(piece_index: usize, piece_length: u32) -> (res: Self)
        requires
            piece_length + BLOCK_SIZE <= u32::MAX,
        ensures
            res@.piece_index == piece_index,
            res@.piece_length == piece_length,
            res@.data == Seq::new(piece_length as nat, |i: int| 0u8),
            res@.blocks_received == 0,
            res@.num_blocks == num_blocks(piece_length as int),
    {
        let mut data: Vec<u8> = Vec::new();
        let mut i: u32 = 0;
        while i < piece_length
            invariant
                i <= piece_length,
                data@ == Seq::new(i as nat, |k: int| 0u8),
            decreases piece_length - i,
        {
            data.push(0u8);
            i = i + 1;
            assert(data@ =~= Seq::new(i as nat, |k: int| 0u8));
        }
        PieceDownload {
            piece_index,
            piece_length,
            data,
            blocks_received: 0,
            num_blocks: (piece_length + BLOCK_SIZE - 1) / BLOCK_SIZE,
        }
    }

    /// Whether a block of `len` bytes at `begin` lies within the piece's buffer.
    pub fn block_fits(&self, begin: u32, len: usize) -> (res: bool)
        ensures
            res == (begin + len <= self@.data.len()),
    {
        len <= self.data.len() && (begin as usize) <= self.data.len() - len
    }

    /// Takes in a block: one for another piece is refused; one for this
    /// piece is written at `begin` and counted.
    #[verifier::loop_isolation(false)]
    pub fn on_block(&mut self, index: u32, begin: u32, block: &[u8]) -> (res: Result<(), PieceError>)
        requires
            old(self)@.blocks_received < old(self)@.num_blocks,
            index as usize == old(self)@.piece_index ==> begin + block@.len() <= old(self)@.data.len(),
        ensures
            final(self)@.piece_index == old(self)@.piece_index,
            final(self)@.piece_length == old(self)@.piece_length,
            final(self)@.num_blocks == old(self)@.num_blocks,
            final(self)@.data.len() == old(self)@.data.len(),
            index as usize != old(self)@.piece_index ==> res == Err::<(), PieceError>(PieceError::WrongPiece)
                && final(self)@ == old(self)@,
            index as usize == old(self)@.piece_index ==> {
                &&& res is Ok
                &&& final(self)@.data == old(self)@.data.subrange(0, begin as int) + block@
                    + old(self)@.data.subrange(begin + block@.len(), old(self)@.data.len() as int)
                &&& final(self)@.blocks_received == old(self)@.blocks_received + 1
            },
    {
        if index as usize != self.piece_index {
            return Err(PieceError::WrongPiece);
        }
        let ghost old_data = self.data@;
        let n = self.data.len();
        let start = begin as usize;
        let mut i: usize = 0;
        while i < block.len()
            invariant
                self.piece_index == old(self).piece_index,
                self.piece_length == old(self).piece_length,
                self.num_blocks == old(self).num_blocks,
                self.blocks_received == old(self).blocks_received,
                start == begin,
                start + block@.len() <= old_data.len(),
                i <= block@.len(),
                self.data@.len() == old_data.len(),
                forall|k: int| 0 <= k < old_data.len() ==> #[trigger] self.data@[k] == if start <= k < start + i {
                    block@[k - start]
                } else {
                    old_data[k]
                },
            decreases block@.len() - i,
        {
            self.data.set(start + i, block[i]);
            i = i + 1;
        }
        assert(self.data@ =~= old_data.subrange(0, begin as int) + block@ + old_data.subrange(
            begin + block@.len(),
            old_data.len() as int,
        ));
        self.blocks_received = self.blocks_received + 1;
        Ok(())
    }

    /// Whether every block has been received.
    pub fn is_complete(&self) -> (res: bool)
        ensures
            res == (self@.blocks_received >= self@.num_blocks),
    {
        self.blocks_received >= self.num_blocks
    }

    /// The downloaded piece.
    pub fn into_piece(self) -> (res: ActivePiece)
        ensures
            res.index == self@.piece_index,
            res.length == self@.piece_length,
            res.data@ == self@.data,
    {
        ActivePiece { index: self.piece_index, length: self.piece_length, data: self.data }
    }
}

} // verus!
