use vstd::prelude::*;

use crate::bencode::object::bytes_eq;
use crate::trusted::{sha1_digest, spec_sha1};

verus! {

/// The size of the blocks that a piece is requested in.
pub const BLOCK_SIZE: u32 = 16_384;

#[derive(Debug, Clone, PartialEq, Eq, Structural)]
pub enum PieceState {
    Missing,
    InProgress,
    Done,
}

/// A piece of the torrent: where it is, how long it is, and its SHA-1 hash.
#[derive(Debug, Clone)]
pub struct PieceInfo {
    pub index: usize,
    pub length: u32,
    pub hash: [u8; 20],
}

/// A piece whose blocks have all arrived, not yet checked against its hash.
#[derive(Debug, Clone)]
pub struct ActivePiece {
    pub index: usize,
    pub length: u32,
    pub data: Vec<u8>,
}

impl ActivePiece {
    /// Whether the data hashes to `piece_hash`.
    pub fn verify(&self, piece_hash: &[u8; 20]) -> (res: bool)
        ensures
            res == (spec_sha1(self.data@) == piece_hash@),
    {
        let hash: [u8; 20] = sha1_digest(self.data.as_slice());
        bytes_eq(hash.as_slice(), piece_hash.as_slice())
    }
}

/// A piece whose data matched its hash.
#[derive(Debug, Clone)]
pub struct CompletedPiece {
    pub index: usize,
    pub data: Vec<u8>,
}


/// Where piece `index` starts in the file, all pieces before it being
/// `piece_length` bytes long.
pub fn piece_offset(index: usize, piece_length: u32) -> (res: u64)
    requires
        index * piece_length <= u64::MAX,
    ensures
        res == index * piece_length,
{
    (index as u64) * (piece_length as u64)
}

} // verus!
