use vstd::prelude::*;

use crate::piece::{ActivePiece, CompletedPiece};
use crate::piece_picker::PieceEvent;
use crate::trusted::spec_sha1;

verus! {

/// Checks downloaded pieces against the torrent's piece hashes.
#[derive(Debug)]
pub struct PieceValidator {
    piece_hashes: Vec<[u8; 20]>,
}

impl View for PieceValidator {
    type V = Seq<Seq<u8>>;

    closed spec fn view(&self) -> Seq<Seq<u8>> {
        self.piece_hashes@.map_values(|h: [u8; 20]| h@)
    }
}

impl PieceValidator {
    pub fn new(piece_hashes: Vec<[u8; 20]>) -> (res: Self)
        ensures
            res@ == piece_hashes@.map_values(|h: [u8; 20]| h@),
    {
        Self { piece_hashes }
    }

    /// A piece whose data matches its hash is completed; any other is
    /// reported as a hash mismatch.
    pub fn validate(&self, piece: ActivePiece) -> (res: Result<CompletedPiece, PieceEvent>)
        requires
            piece.index < self@.len(),
        ensures
            spec_sha1(piece.data@) == self@[piece.index as int] ==> (res matches Ok(c) && c.index
                == piece.index && c.data@ == piece.data@),
            spec_sha1(piece.data@) != self@[piece.index as int] ==> (res matches Err(
                PieceEvent::HashMismatch { piece_index },
            ) && piece_index == piece.index),
    {
        if piece.verify(&self.piece_hashes[piece.index]) {
            Ok(CompletedPiece { index: piece.index, data: piece.data })
        } else {
            Err(PieceEvent::HashMismatch { piece_index: piece.index })
        }
    }
}

} // verus!
