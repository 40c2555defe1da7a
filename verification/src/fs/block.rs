//! The fixed 512-byte storage unit every higher structure is built from.

use vstd::prelude::*;

use crate::fs::bytes::{copy_bytes, zero_pad, zeroed_vec};
use crate::fs::error::FsError;

verus! {

/// Bytes in one block, the smallest addressable unit of a volume.
pub const BLOCK_SIZE: usize = 512;

/// One 512-byte block.
///
/// The buffer always holds exactly [`BLOCK_SIZE`] bytes; a block performs
/// no validation of its content.
pub struct Block {
    data: Vec<u8>,
}

impl View for Block {
    type V = Seq<u8>;

    closed spec fn view(&self) -> Seq<u8> {
        self.data@
    }
}

impl Block {
    /// The buffer holds exactly one block's worth of bytes.
    pub open spec fn wf(&self) -> bool {
        self@.len() == BLOCK_SIZE
    }

    /// A block of zero bytes.
    pub fn new() -> (r: Block)
        ensures
            r.wf(),
            r@ == Seq::new(BLOCK_SIZE as nat, |i: int| 0u8),
    {
        Block { data: zeroed_vec(BLOCK_SIZE) }
    }

    /// A block whose leading bytes equal `slice` and whose remaining
    /// bytes are zero; fails when `slice` does not fit in one block.
    pub fn from_slice(slice: &[u8]) -> (r: Result<Block, FsError>)
        ensures
            slice@.len() > BLOCK_SIZE ==> r == Err::<Block, FsError>(FsError::SizeMismatch),
            slice@.len() <= BLOCK_SIZE ==> (r matches Ok(b) && b.wf() && b@ == zero_pad(
                slice@,
                BLOCK_SIZE as int,
            )),
    {
        if slice.len() > BLOCK_SIZE {
            return Err(FsError::SizeMismatch);
        }
        let mut data = copy_bytes(slice);
        let mut i: usize = slice.len();
        while i < BLOCK_SIZE
            invariant
                slice@.len() <= i <= BLOCK_SIZE,
                data@ == slice@ + Seq::new((i - slice@.len()) as nat, |j: int| 0u8),
            decreases BLOCK_SIZE - i,
        {
            data.push(0);
            i = i + 1;
            assert(data@ =~= slice@ + Seq::new((i - slice@.len()) as nat, |j: int| 0u8));
        }
        assert(data@ =~= zero_pad(slice@, BLOCK_SIZE as int));
        Ok(Block { data })
    }

    /// The raw buffer, for device I/O.
    pub fn as_bytes(&self) -> (r: &[u8])
        ensures
            r@ == self@,
    {
        self.data.as_slice()
    }

    /// The raw buffer, writable, for device I/O; its length cannot
    /// change, so the block stays well-formed.
    pub fn as_mut_bytes(&mut self) -> (r: &mut [u8])
        ensures
            r@ == old(self)@,
            final(self)@ == final(r)@,
    {
        self.data.as_mut_slice()
    }
}

} // verus!
