use vstd::prelude::*;

use crate::bitfield::BitField;
use crate::piece_picker::bit_readable;
use crate::torrent_info::{piece_len, pieces_fit};

verus! {

pub const BLOCK_SIZE: u32 = 16_384;

#[derive(Debug, Clone)]
pub enum PieceState {
    Missing,
    InProgress,
    Downloaded { data: Vec<u8> },
    Done,
}

/// A piece of a torrent being downloaded, and how far it has got.
#[derive(Debug, Clone)]
pub struct Piece {
    pub index: usize,
    pub length: usize,
    pub state: PieceState,
}

/// The pieces of a torrent, all missing: every piece `piece_length` bytes
/// long but the last, which holds what is left of `total_length`.
pub fn torrent_pieces(total_length: u64, piece_length: u64, count: usize) -> (res: Vec<Piece>)
    requires
        pieces_fit(total_length, piece_length, count as nat),
    ensures
        res@.len() == count,
        forall|i: int|
            0 <= i < count ==> {
                &&& (#[trigger] res@[i]).index == i
                &&& res@[i].length == piece_len(total_length, piece_length, count as nat, i) as usize
                &&& res@[i].state is Missing
            },
{
    let mut pieces: Vec<Piece> = Vec::with_capacity(count);
    let mut i: usize = 0;
    while i < count
        invariant
            pieces_fit(total_length, piece_length, count as nat),
            i <= count,
            pieces@.len() == i,
            forall|k: int|
                0 <= k < i ==> {
                    &&& (#[trigger] pieces@[k]).index == k
                    &&& pieces@[k].length == piece_len(total_length, piece_length, count as nat, k) as usize
                    &&& pieces@[k].state is Missing
                },
        decreases count - i,
    {
        let length = if i == count - 1 {
            total_length - (piece_length * (i as u64))
        } else {
            piece_length
        };
        pieces.push(Piece { index: i, length: length as usize, state: PieceState::Missing });
        i = i + 1;
    }
    pieces
}

/// Piece `i` can be given to a peer with `bitfield`: the peer has it and it is missing.
pub open spec fn pickable(pieces: Seq<Piece>, bitfield: BitField, i: int) -> bool {
    0 <= i < pieces.len() && bitfield.spec_has_piece(i) && pieces[i].state is Missing
}

/// Whether a pick can run to its end: every piece that it looks up before it
/// finds one can be read from the bitfield.
#[verifier::opaque]
pub open spec fn pick_reads_within(pieces: Seq<Piece>, bitfield: BitField) -> bool {
    forall|i: int|
        0 <= i < pieces.len() && !bit_readable(bitfield, i) ==> exists|j: int|
            0 <= j < i && #[trigger] pickable(pieces, bitfield, j)
}

/// Before the first pickable piece, every piece can be read from the bitfield.
proof fn lemma_pick_readable(pieces: Seq<Piece>, bitfield: BitField, i: int)
    requires
        pick_reads_within(pieces, bitfield),
        0 <= i < pieces.len(),
        forall|j: int| 0 <= j < i ==> !pickable(pieces, bitfield, j),
    ensures
        bit_readable(bitfield, i),
{
    reveal(pick_reads_within);
    if !bit_readable(bitfield, i) {
        let j = choose|j: int| 0 <= j < i && #[trigger] pickable(pieces, bitfield, j);
        assert(!pickable(pieces, bitfield, j));
    }
}

/// Whether `pick_piece` can run to its end on `bitfield`: it meets no piece
/// whose bit lies past the bitfield's bytes before it finds one to pick.
pub fn pick_can_run(pieces: &Vec<Piece>, bitfield: &BitField) -> (res: bool)
    ensures
        res == pick_reads_within(pieces@, *bitfield),
{
    let ghost s = pieces@;
    let mut i: usize = 0;
    while i < pieces.len()
        invariant
            pieces@ == s,
            i <= s.len(),
            forall|k: int| 0 <= k < i ==> #[trigger] bit_readable(*bitfield, k),
            forall|k: int| 0 <= k < i ==> !#[trigger] pickable(s, *bitfield, k),
        decreases s.len() - i,
    {
        if !(i >= bitfield.num_pieces || i / 8 < bitfield.bytes.len()) {
            proof {
                reveal(pick_reads_within);
                assert(!pick_reads_within(s, *bitfield)) by {
                    if pick_reads_within(s, *bitfield) {
                        assert(!bit_readable(*bitfield, i as int));
                        let j = choose|j: int| 0 <= j < i && #[trigger] pickable(s, *bitfield, j);
                        assert(!pickable(s, *bitfield, j));
                    }
                }
            }
            return false;
        }
        if bitfield.has_piece(i) && matches!(pieces[i].state, PieceState::Missing) {
            proof {
                reveal(pick_reads_within);
                assert(pickable(s, *bitfield, i as int));
                assert forall|k: int| 0 <= k < s.len() && !bit_readable(*bitfield, k) implies exists|j: int|
                    0 <= j < k && #[trigger] pickable(s, *bitfield, j) by {
                    assert(pickable(s, *bitfield, i as int));
                }
            }
            return true;
        }
        assert(bit_readable(*bitfield, i as int));
        assert(!pickable(s, *bitfield, i as int));
        i = i + 1;
    }
    proof {
        reveal(pick_reads_within);
    }
    true
}

/// Picks the first missing piece that the peer has, and marks it in progress.
pub fn pick_piece(pieces: &mut Vec<Piece>, bitfield: &BitField) -> (res: Option<usize>)
    requires
        pick_reads_within(old(pieces)@, *bitfield),
    ensures
        match res {
            Some(i) => {
                &&& pickable(old(pieces)@, *bitfield, i as int)
                &&& forall|j: int| 0 <= j < i ==> !pickable(old(pieces)@, *bitfield, j)
                &&& final(pieces)@ == old(pieces)@.update(
                    i as int,
                    Piece { state: PieceState::InProgress, ..old(pieces)@[i as int] },
                )
            },
            None => {
                &&& forall|j: int| !pickable(old(pieces)@, *bitfield, j)
                &&& final(pieces)@ == old(pieces)@
            },
        },
{
    let ghost s = pieces@;
    let mut i: usize = 0;
    while i < pieces.len()
        invariant
            pieces@ == s,
            s == old(pieces)@,
            i <= s.len(),
            pick_reads_within(s, *bitfield),
            forall|j: int| 0 <= j < i ==> !pickable(s, *bitfield, j),
        decreases s.len() - i,
    {
        proof {
            lemma_pick_readable(s, *bitfield, i as int);
        }
        if bitfield.has_piece(i) && matches!(pieces[i].state, PieceState::Missing) {
            let index = pieces[i].index;
            let length = pieces[i].length;
            pieces.set(i, Piece { index, length, state: PieceState::InProgress });
            assert(pieces@ =~= s.update(i as int, Piece { state: PieceState::InProgress, ..s[i as int] }));
            return Some(i);
        }
        i = i + 1;
    }
    None
}

/// Piece `i` with its state changed to `state`.
pub open spec fn with_state(pieces: Seq<Piece>, i: int, state: PieceState) -> Seq<Piece> {
    pieces.update(i, Piece { state, ..pieces[i] })
}

/// Gives piece `i` back: its download failed or its data did not match its
/// hash, so it is missing again and can be picked again.
pub fn release_piece(pieces: &mut Vec<Piece>, i: usize)
    requires
        i < old(pieces)@.len(),
    ensures
        final(pieces)@ == with_state(old(pieces)@, i as int, PieceState::Missing),
{
    let index = pieces[i].index;
    let length = pieces[i].length;
    pieces.set(i, Piece { index, length, state: PieceState::Missing });
    assert(pieces@ =~= with_state(old(pieces)@, i as int, PieceState::Missing));
}

/// Marks piece `i` done: its data matched its hash and was stored.
pub fn mark_done(pieces: &mut Vec<Piece>, i: usize)
    requires
        i < old(pieces)@.len(),
    ensures
        final(pieces)@ == with_state(old(pieces)@, i as int, PieceState::Done),
{
    let index = pieces[i].index;
    let length = pieces[i].length;
    pieces.set(i, Piece { index, length, state: PieceState::Done });
    assert(pieces@ =~= with_state(old(pieces)@, i as int, PieceState::Done));
}

/// Giving back a piece that was picked leaves the pieces as they were
/// before the pick.
pub proof fn lemma_pick_then_release_restores(pieces: Seq<Piece>, i: int)
    requires
        0 <= i < pieces.len(),
        pieces[i].state is Missing,
    ensures
        with_state(with_state(pieces, i, PieceState::InProgress), i, PieceState::Missing) == pieces,
{
    assert(with_state(with_state(pieces, i, PieceState::InProgress), i, PieceState::Missing) =~= pieces);
}

/// Whether every piece is done.
pub fn all_done(pieces: &Vec<Piece>) -> (res: bool)
    ensures
        res == forall|i: int| 0 <= i < pieces@.len() ==> (#[trigger] pieces@[i]).state is Done,
{
    let mut i: usize = 0;
    while i < pieces.len()
        invariant
            i <= pieces@.len(),
            forall|j: int| 0 <= j < i ==> (#[trigger] pieces@[j]).state is Done,
        decreases pieces@.len() - i,
    {
        if !matches!(pieces[i].state, PieceState::Done) {
            return false;
        }
        i = i + 1;
    }
    true
}

} // verus!
