use vstd::prelude::*;

verus! {

/// Whether bit `bit` (counted from the most significant end, 0..8) of `byte` is set.
pub open spec fn byte_has_bit(byte: u8, bit: u8) -> bool {
    byte & (1u8 << (7 - bit) as u8) != 0
}

/// The pieces a peer has, one bit per piece, most significant bit first.
#[derive(Debug, Clone)]
pub struct BitField {
    pub bytes: Vec<u8>,
    pub num_pieces: usize,
}

impl BitField {
    /// Whether piece `index` is marked: it is within `num_pieces` and its bit is set.
    pub open spec fn spec_has_piece(&self, index: int) -> bool {
        &&& 0 <= index < self.num_pieces
        &&& index / 8 < self.bytes@.len()
        &&& byte_has_bit(self.bytes@[index / 8], (index % 8) as u8)
    }

    /// The bytes after marking piece `index`: its bit is set where `index` is
    /// one of the pieces, and nothing changes otherwise.
    pub open spec fn bytes_with_piece(&self, index: int) -> Seq<u8> {
        if 0 <= index < self.num_pieces {
            self.bytes@.update(index / 8, self.bytes@[index / 8] | (1u8 << (7 - index % 8) as u8))
        } else {
            self.bytes@
        }
    }

    /// Every piece index below `num_pieces` has its byte.
    pub open spec fn covers(&self) -> bool {
        self.num_pieces <= 8 * self.bytes@.len()
    }

    pub fn new(bytes: Vec<u8>, num_pieces: usize) -> (res: Self)
        ensures
            res.bytes@ == bytes@,
            res.num_pieces == num_pieces,
    {
        Self { bytes, num_pieces }
    }

    pub fn empty(num_pieces: usize) -> (res: Self)
        requires
            num_pieces <= usize::MAX - 7,
        ensures
            res.num_pieces == num_pieces,
            res.bytes@ == Seq::new(((num_pieces + 7) / 8) as nat, |i: int| 0u8),
            res.covers(),
            forall|i: int| !res.spec_has_piece(i),
    {
        let len = (num_pieces + 7) / 8;
        let mut bytes: Vec<u8> = Vec::new();
        let mut k: usize = 0;
        while k < len
            invariant
                k <= len,
                bytes@ == Seq::new(k as nat, |i: int| 0u8),
            decreases len - k,
        {
            bytes.push(0u8);
            k = k + 1;
            assert(bytes@ =~= Seq::new(k as nat, |i: int| 0u8));
        }
        let res = Self { bytes, num_pieces };
        assert forall|i: int| !res.spec_has_piece(i) by {
            if 0 <= i < num_pieces {
                let b: u8 = (i % 8) as u8;
                assert(0u8 & (1u8 << (7 - b) as u8) == 0) by (bit_vector);
            }
        }
        res
    }

    pub fn has_piece(&self, index: usize) -> (res: bool)
        requires
            index >= self.num_pieces || index / 8 < self.bytes@.len(),
        ensures
            res == self.spec_has_piece(index as int),
    {
        if index >= self.num_pieces {
            return false;
        }
        let byte = index / 8;
        let bit = 7 - (index % 8);
        self.bytes[byte] & (1 << bit) != 0
    }

    pub fn set_piece(&mut self, index: usize)
        requires
            index >= old(self).num_pieces || index / 8 < old(self).bytes@.len(),
        ensures
            final(self).num_pieces == old(self).num_pieces,
            final(self).bytes@ == old(self).bytes_with_piece(index as int),
            final(self).bytes@.len() == old(self).bytes@.len(),
            final(self).spec_has_piece(index as int) == (index < old(self).num_pieces),
            forall|j: int| j != index ==> final(self).spec_has_piece(j) == old(self).spec_has_piece(j),
    {
        if index >= self.num_pieces {
            return;
        }
        let byte = index / 8;
        let bit = 7 - (index % 8);
        let old_b = self.bytes[byte];
        let new_b = old_b | (1 << bit);
        self.bytes.set(byte, new_b);
        proof {
            let ib: u8 = (index % 8) as u8;
            assert(bit == 7 - ib);
            assert(new_b == old_b | (1u8 << (7 - ib) as u8)) by (bit_vector)
                requires
                    new_b == old_b | (1u8 << bit),
                    bit == 7 - ib,
                    ib < 8,
            ;
            assert(new_b & (1u8 << (7 - ib) as u8) != 0) by (bit_vector)
                requires new_b == old_b | (1u8 << (7 - ib) as u8), ib < 8;
            assert forall|j: int| j != index implies self.spec_has_piece(j) == old(self).spec_has_piece(j) by {
                if 0 <= j < self.num_pieces && j / 8 == byte as int {
                    let jb: u8 = (j % 8) as u8;
                    assert(j == 8 * (j / 8) + j % 8);
                    assert(index == 8 * (index / 8) + index % 8);
                    assert(jb != ib);
                    assert(self.bytes@[j / 8] == new_b);
                    assert(old(self).bytes@[j / 8] == old_b);
                    assert((new_b & (1u8 << (7 - jb) as u8) != 0) == (old_b & (1u8 << (7 - jb) as u8) != 0)) by (bit_vector)
                        requires new_b == old_b | (1u8 << (7 - ib) as u8), ib < 8, jb < 8, jb != ib;
                } else if 0 <= j < self.num_pieces && j / 8 < self.bytes@.len() {
                    assert(self.bytes@[j / 8] == old(self).bytes@[j / 8]);
                }
            }
        }
    }
}

} // verus!
