//! The in-memory block device: a linear run of 512-byte blocks addressed by
//! block id. It is the backing store that the block cache reads from and
//! writes back to.

use vstd::prelude::*;
use crate::BLOCK_SZ;

verus! {

/// A block device held in memory as one `Vec<u8>` per block.
pub struct MemDisk {
    blocks: Vec<Vec<u8>>,
}

impl MemDisk {
    /// The device contents as a sequence of 512-byte blocks.
    pub closed spec fn view(&self) -> Seq<Seq<u8>> {
        Seq::new(self.blocks@.len(), |i: int| self.blocks@[i]@)
    }

    /// Every block is exactly 512 bytes.
    pub closed spec fn wf(&self) -> bool {
        forall|i: int| 0 <= i < self.blocks@.len() ==> (#[trigger] self.blocks@[i])@.len()
            == BLOCK_SZ
    }

    pub proof fn lemma_wf_blocks(&self)
        requires
            self.wf(),
        ensures
            forall|i: int| 0 <= i < self.view().len() ==> (#[trigger] self.view()[i]).len()
                == BLOCK_SZ,
    {
    }

    /// A device of `num_blocks` blocks, all zeroed.
    pub fn new(num_blocks: usize) -> (r: Self)
        ensures
            r.wf(),
            r.view().len() == num_blocks,
            forall|i: int| 0 <= i < num_blocks ==> #[trigger] r.view()[i] =~= zero_block(),
    {
        let mut blocks: Vec<Vec<u8>> = Vec::new();
        let mut i: usize = 0;
        while i < num_blocks
            invariant
                i <= num_blocks,
                blocks@.len() == i,
                forall|j: int| 0 <= j < i ==> (#[trigger] blocks@[j])@ =~= zero_block(),
            decreases num_blocks - i,
        {
            let mut b: Vec<u8> = Vec::new();
            let mut k: usize = 0;
            while k < BLOCK_SZ
                invariant
                    k <= BLOCK_SZ,
                    b@.len() == k,
                    forall|j: int| 0 <= j < k ==> b@[j] == 0u8,
                decreases BLOCK_SZ - k,
            {
                b.push(0u8);
                k += 1;
            }
            assert(b@ =~= zero_block());
            blocks.push(b);
            i += 1;
        }
        let r = MemDisk { blocks };
        assert forall|i: int| 0 <= i < num_blocks implies #[trigger] r.view()[i]
            =~= zero_block() by {
            assert(r.view()[i] == r.blocks@[i]@);
        }
        r
    }

    /// How many blocks the device holds.
    pub fn num_blocks(&self) -> (r: usize)
        ensures
            r == self.view().len(),
    {
        self.blocks.len()
    }

    /// Copies the contents of block `block_id` out of the device.
    pub fn read_block(&self, block_id: usize) -> (r: Vec<u8>)
        requires
            self.wf(),
            block_id < self.view().len(),
        ensures
            r@ == self.view()[block_id as int],
            r@.len() == BLOCK_SZ,
    {
        let src = &self.blocks[block_id];
        let mut r: Vec<u8> = Vec::new();
        let mut k: usize = 0;
        while k < BLOCK_SZ
            invariant
                self.wf(),
                block_id < self.blocks@.len(),
                src == self.blocks@[block_id as int],
                k <= BLOCK_SZ,
                src@.len() == BLOCK_SZ,
                r@ =~= src@.subrange(0, k as int),
            decreases BLOCK_SZ - k,
        {
            r.push(src[k]);
            k += 1;
        }
        assert(r@ =~= self.view()[block_id as int]);
        r
    }

    /// Overwrites block `block_id` with `data`.
    pub fn write_block(&mut self, block_id: usize, data: &Vec<u8>)
        requires
            old(self).wf(),
            block_id < old(self).view().len(),
            data@.len() == BLOCK_SZ,
        ensures
            final(self).wf(),
            final(self).view() =~= old(self).view().update(block_id as int, data@),
    {
        let mut copy: Vec<u8> = Vec::new();
        let mut k: usize = 0;
        while k < BLOCK_SZ
            invariant
                k <= BLOCK_SZ,
                data@.len() == BLOCK_SZ,
                copy@ =~= data@.subrange(0, k as int),
            decreases BLOCK_SZ - k,
        {
            copy.push(data[k]);
            k += 1;
        }
        assert(copy@ =~= data@);
        self.blocks[block_id] = copy;
    }
}

/// A block of 512 zero bytes.
pub open spec fn zero_block() -> Seq<u8> {
    Seq::new(BLOCK_SZ as nat, |i: int| 0u8)
}

} // verus!
