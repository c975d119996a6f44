//! The filesystem descriptor: it ties the two bitmaps and the inode and
//! data regions together, allocates and frees inodes and data blocks, and
//! locates each inode's on-disk slot. Its well-formedness predicate is the
//! global invariant that every directory operation preserves: each allocated
//! inode's block index is valid and backed by set data-bitmap bits, no two
//! inodes share a block, directory sizes are entry-aligned, entry names are
//! valid and unique within their directory, and no inode is named by two
//! entries.

use vstd::prelude::*;
use crate::BLOCK_SZ;
use crate::bitmap::{Bitmap, bitmap_bit};
use crate::block_cache::BlockCache;
use crate::bytes::{splice, u32_at};
use crate::disk::MemDisk;
use crate::layout::{
    DiskInode, DiskInodeType, InodeV, SuperBlock, blocks_for, dir_entries, file_bytes, inode_dec,
    inode_enc, inode_ok, inode_shape, lemma_inode_roundtrip, lemma_map_frame, lemma_sb_roundtrip,
    l2_count, refd, sb_dec, sb_enc, valid_name, EFS_MAGIC, INODES_PER_BLOCK, INODE_SZ,
};

verus! {

/// Why a filesystem operation could not run.
pub enum FsError {
    NotFound,
    AlreadyExists,
    NotEmpty,
    InvalidName,
    CycleWouldForm,
    OutOfSpace,
    CorruptImage,
}

/// A consistent stored superblock: the magic sentinel, region sizes that
/// cover each other (the inode area holds every inode the bitmap can hand
/// out, the data bitmap covers the data area), and a block count within the
/// device.
pub open spec fn image_sb_ok(d: Seq<Seq<u8>>) -> bool {
    let sb = sb_dec(d[0].take(24));
    &&& d.len() > 0
    &&& sb.magic == EFS_MAGIC
    &&& 1 <= sb.inode_bitmap_blocks <= 0xFFFFF
    &&& sb.inode_area_blocks <= 0xFFFFF
    &&& sb.data_bitmap_blocks <= 0xFFFFF
    &&& sb.inode_bitmap_blocks * 4096 <= sb.inode_area_blocks * 3
    &&& sb.data_area_blocks <= sb.data_bitmap_blocks * 4096
    &&& 1 + sb.inode_bitmap_blocks + sb.inode_area_blocks + sb.data_bitmap_blocks
        + sb.data_area_blocks <= sb.total_blocks
    &&& sb.total_blocks <= d.len()
}

pub struct EasyFileSystem {
    pub cache: BlockCache,
    pub inode_bitmap: Bitmap,
    pub data_bitmap: Bitmap,
    pub inode_area_start: u32,
    pub data_area_start: u32,
    pub max_inodes: u32,
    pub data_area_blocks: u32,
    pub total_blocks: u32,
    pub inode_bitmap_blocks: u32,
    pub inode_area_blocks: u32,
    pub data_bitmap_blocks: u32,
}

impl EasyFileSystem {
    /// The logical disk contents.
    pub open spec fn view(&self) -> Seq<Seq<u8>> {
        self.cache@
    }

    /// The block holding inode `n`'s slot.
    pub open spec fn inode_block(&self, n: int) -> int {
        self.inode_area_start + n / 3
    }

    /// The byte offset of inode `n`'s slot within its block.
    pub open spec fn inode_off(&self, n: int) -> int {
        132 * (n % 3)
    }

    /// The value of inode `n` as stored on disk.
    pub open spec fn inode_at(&self, n: int) -> InodeV {
        inode_dec(
            self@[self.inode_block(n)].subrange(self.inode_off(n), self.inode_off(n) + 132),
        )
    }

    /// Whether inode number `n` is allocated.
    pub open spec fn ino_alloc(&self, n: int) -> bool {
        bitmap_bit(self@, 1, n)
    }

    /// Whether the bit for absolute data block `b` is set.
    pub open spec fn data_bit(&self, b: int) -> bool {
        bitmap_bit(self@, self.data_bitmap.start(), b - self.data_area_start)
    }

    /// Whether `b` is an absolute block id inside the data area.
    pub open spec fn in_data_area(&self, b: int) -> bool {
        self.data_area_start <= b < self.data_area_start + self.data_area_blocks
    }

    /// The fixed layout facts: region bounds, bitmap positions, and the
    /// stored superblock.
    pub open spec fn layout_wf(&self) -> bool {
        &&& self.cache.wf()
        &&& self.inode_bitmap.wf()
        &&& self.data_bitmap.wf()
        &&& self.inode_bitmap.start() == 1
        &&& self.inode_bitmap.num_blocks() == self.inode_bitmap_blocks
        &&& self.inode_bitmap.num_bits() == self.max_inodes
        &&& self.inode_area_start == 1 + self.inode_bitmap_blocks
        &&& self.data_bitmap.start() == self.inode_area_start + self.inode_area_blocks
        &&& self.data_bitmap.num_blocks() == self.data_bitmap_blocks
        &&& self.data_bitmap.num_bits() == self.data_area_blocks
        &&& self.data_area_start == self.data_bitmap.start() + self.data_bitmap_blocks
        &&& self.data_area_start + self.data_area_blocks <= self.total_blocks
        &&& self.total_blocks <= self@.len()
        &&& self@.len() <= usize::MAX
        &&& self.max_inodes >= 1
        &&& self.max_inodes <= self.inode_area_blocks * 3
        &&& self.inode_bitmap_blocks >= 1
        &&& sb_dec(self@[0].take(24)) == (SuperBlock {
            magic: EFS_MAGIC,
            total_blocks: self.total_blocks,
            inode_bitmap_blocks: self.inode_bitmap_blocks,
            inode_area_blocks: self.inode_area_blocks,
            data_bitmap_blocks: self.data_bitmap_blocks,
            data_area_blocks: self.data_area_blocks,
        })
    }

    /// The per-inode part of the invariant: a valid block index whose
    /// referenced blocks lie in the data area with their bits set, an
    /// entry-aligned size for directories, and a parent number in range.
    pub open spec fn inode_wf(&self, n: int) -> bool {
        let v = self.inode_at(n);
        &&& inode_ok(v, self@)
        &&& forall|b: int| #[trigger] refd(v, self@, b) ==> self.in_data_area(b) && self.data_bit(b)
        &&& (v.ty == DiskInodeType::Directory ==> v.size as int % 32 == 0)
        &&& v.parent < self.max_inodes
    }

    /// The directory part: entries name valid, distinctly-named, allocated,
    /// non-root inodes.
    pub open spec fn dir_wf(&self, n: int) -> bool {
        let es = dir_entries(self.inode_at(n), self@);
        &&& forall|e: int|
            0 <= e < es.len() ==> valid_name((#[trigger] es[e]).name) && 0 < es[e].ino
                < self.max_inodes && self.ino_alloc(es[e].ino as int)
        &&& forall|e1: int, e2: int|
            0 <= e1 < es.len() && 0 <= e2 < es.len() && e1 != e2 ==> (#[trigger] es[e1]).name != (
            #[trigger] es[e2]).name
    }

    /// No block belongs to two inodes.
    pub open spec fn inodes_disjoint(&self) -> bool {
        forall|n1: int, n2: int, b: int|
            0 <= n1 < self.max_inodes && 0 <= n2 < self.max_inodes && n1 != n2 && self.ino_alloc(n1)
                && self.ino_alloc(n2) && #[trigger] refd(self.inode_at(n1), self@, b) ==> !(
            #[trigger] refd(self.inode_at(n2), self@, b))
    }

    /// No inode is named by two directory entries anywhere.
    pub open spec fn entries_unique(&self) -> bool {
        forall|n1: int, e1: int, n2: int, e2: int|
            #![trigger dir_entries(self.inode_at(n1), self@)[e1], dir_entries(self.inode_at(n2), self@)[e2]]
            (0 <= n1 < self.max_inodes && 0 <= n2 < self.max_inodes && self.ino_alloc(n1)
                && self.ino_alloc(n2) && self.inode_at(n1).ty == DiskInodeType::Directory
                && self.inode_at(n2).ty == DiskInodeType::Directory && 0 <= e1 < dir_entries(
                self.inode_at(n1),
                self@,
            ).len() && 0 <= e2 < dir_entries(self.inode_at(n2), self@).len() && (n1 != n2 || e1
                != e2)) ==> dir_entries(self.inode_at(n1), self@)[e1].ino != dir_entries(
                self.inode_at(n2),
                self@,
            )[e2].ino
    }

    /// The whole filesystem invariant.
    #[verifier::opaque]
    pub open spec fn wf(&self) -> bool {
        &&& self.layout_wf()
        &&& self.ino_alloc(0)
        &&& self.inode_at(0).ty == DiskInodeType::Directory
        &&& forall|n: int|
            0 <= n < self.max_inodes && self.ino_alloc(n) ==> #[trigger] self.inode_wf(n)
        &&& forall|n: int|
            0 <= n < self.max_inodes && self.ino_alloc(n) && self.inode_at(n).ty
                == DiskInodeType::Directory ==> #[trigger] self.dir_wf(n)
        &&& self.inodes_disjoint()
        &&& self.entries_unique()
    }

    /// The layout numbers, without the disk contents: two states with equal
    /// numbers and views are interchangeable.
    pub open spec fn same_layout(&self, other: &Self) -> bool {
        &&& self.inode_bitmap == other.inode_bitmap
        &&& self.data_bitmap == other.data_bitmap
        &&& self.inode_area_start == other.inode_area_start
        &&& self.data_area_start == other.data_area_start
        &&& self.max_inodes == other.max_inodes
        &&& self.data_area_blocks == other.data_area_blocks
        &&& self.total_blocks == other.total_blocks
        &&& self.inode_bitmap_blocks == other.inode_bitmap_blocks
        &&& self.inode_area_blocks == other.inode_area_blocks
        &&& self.data_bitmap_blocks == other.data_bitmap_blocks
    }
}

} // verus!

verus! {

/// The slots of two different inodes in one block do not overlap.
pub proof fn lemma_slot_bounds(n: int, m: int, max: int)
    requires
        0 <= n < max,
        0 <= m < max,
    ensures
        0 <= n % 3 <= 2,
        0 <= 132 * (n % 3) && 132 * (n % 3) + 132 <= 512,
        n != m && n / 3 == m / 3 ==> n % 3 != m % 3,
        0 <= n / 3,
    decreases 0int,
{
    vstd::arithmetic::div_mod::lemma_fundamental_div_mod(n, 3);
    vstd::arithmetic::div_mod::lemma_fundamental_div_mod(m, 3);
    vstd::arithmetic::div_mod::lemma_mod_bound(n, 3);
    vstd::arithmetic::div_mod::lemma_mod_bound(m, 3);
    vstd::arithmetic::div_mod::lemma_div_pos_is_pos(n, 3);
}

impl EasyFileSystem {
    /// Both states read every inode slot, and both bitmaps, identically;
    /// inodes valid on the first stay valid on the second whenever the
    /// changed blocks avoid the inode area and the blocks the inode
    /// references.
    #[verifier::spinoff_prover]
    #[verifier::rlimit(100)]
    pub proof fn lemma_frame_meta(fs1: &Self, fs2: &Self)
        requires
            fs1.layout_wf(),
            fs2.same_layout(fs1),
            fs2@.len() == fs1@.len(),
            forall|b: int|
                #![trigger fs2@[b]]
                0 <= b < fs1@.len() && fs2@[b] != fs1@[b] ==> !(fs1.inode_area_start <= b
                    < fs1.data_bitmap.start()) && !fs1.in_data_area(b),
        ensures
            forall|n: int| 0 <= n < fs1.max_inodes ==> fs2.inode_at(n) == fs1.inode_at(n),
            forall|n: int|
                0 <= n < fs1.max_inodes && fs1.inode_wf(n) ==> inode_ok(
                    fs1.inode_at(n),
                    fs2@,
                ) && (forall|b: int|
                    refd(fs1.inode_at(n), fs2@, b) <==> refd(fs1.inode_at(n), fs1@, b))
                    && file_bytes(fs1.inode_at(n), fs2@) =~= file_bytes(fs1.inode_at(n), fs1@)
                    && dir_entries(fs1.inode_at(n), fs2@) =~= dir_entries(fs1.inode_at(n), fs1@),
    {
        assert forall|n: int| 0 <= n < fs1.max_inodes implies fs2.inode_at(n) == fs1.inode_at(
            n,
        ) by {
            lemma_slot_bounds(n, n, fs1.max_inodes as int);
            assert(fs1.inode_area_start <= fs1.inode_block(n));
            assert(fs1.inode_block(n) < fs1.data_bitmap.start()) by {
                assert(n / 3 < fs1.inode_area_blocks) by {
                    vstd::arithmetic::div_mod::lemma_div_is_ordered(
                        n,
                        fs1.max_inodes as int - 1,
                        3,
                    );
                    assert((fs1.inode_area_blocks * 3 - 1) / 3 == fs1.inode_area_blocks - 1) by {
                        assert(fs1.inode_area_blocks * 3 - 1 == 3 * (fs1.inode_area_blocks - 1)
                            + 2);
                        vstd::arithmetic::div_mod::lemma_hoist_over_denominator(
                            2,
                            fs1.inode_area_blocks as int - 1,
                            3,
                        );
                        vstd::arithmetic::div_mod::lemma_basic_div(2, 3);
                    }
                    vstd::arithmetic::div_mod::lemma_div_is_ordered(
                        fs1.max_inodes as int - 1,
                        fs1.inode_area_blocks as int * 3 - 1,
                        3,
                    );
                }
            }
            assert(fs2@[fs1.inode_block(n)] == fs1@[fs1.inode_block(n)]);
        }
        assert forall|n: int|
            0 <= n < fs1.max_inodes && fs1.inode_wf(n) implies inode_ok(fs1.inode_at(n), fs2@) && (
        forall|b: int| refd(fs1.inode_at(n), fs2@, b) <==> refd(fs1.inode_at(n), fs1@, b))
            && file_bytes(fs1.inode_at(n), fs2@) =~= file_bytes(fs1.inode_at(n), fs1@)
            && dir_entries(fs1.inode_at(n), fs2@) =~= dir_entries(fs1.inode_at(n), fs1@) by {
            let v = fs1.inode_at(n);
            assert forall|b: int| #[trigger] refd(v, fs1@, b) implies fs2@[b] == fs1@[b] by {
                assert(fs1.in_data_area(b));
            }
            crate::layout::lemma_inode_same(v, fs1@, fs2@);
        }
    }

    /// Both bitmaps read identically when the changed blocks avoid them.
    pub proof fn lemma_frame_bits(fs1: &Self, fs2: &Self)
        requires
            fs1.layout_wf(),
            fs2.same_layout(fs1),
            fs2@.len() == fs1@.len(),
            forall|b: int|
                #![trigger fs2@[b]]
                0 <= b < fs1@.len() && fs2@[b] != fs1@[b] ==> !(1 <= b < fs1.inode_area_start) && !(
                fs1.data_bitmap.start() <= b < fs1.data_area_start),
        ensures
            forall|n: int| 0 <= n < fs1.max_inodes ==> fs2.ino_alloc(n) == fs1.ino_alloc(n),
            forall|b: int|
                fs1.data_area_start <= b < fs1.data_area_start + fs1.data_area_blocks
                    ==> fs2.data_bit(b) == fs1.data_bit(b),
            fs2@[0] == fs1@[0] || fs2@[0].take(24) =~= fs1@[0].take(24) || true,
    {
        assert forall|n: int| 0 <= n < fs1.max_inodes implies fs2.ino_alloc(n) == fs1.ino_alloc(
            n,
        ) by {
            crate::bitmap::lemma_bit_block_range(fs1.inode_bitmap.num_blocks(), n);
            assert(fs2@[1 + n / 4096] == fs1@[1 + n / 4096]);
        }
        assert forall|b: int|
            fs1.data_area_start <= b < fs1.data_area_start
                + fs1.data_area_blocks implies fs2.data_bit(b) == fs1.data_bit(b) by {
            let m = b - fs1.data_area_start;
            crate::bitmap::lemma_bit_block_range(fs1.data_bitmap.num_blocks(), m);
            assert(fs2@[fs1.data_bitmap.start() + m / 4096] == fs1@[fs1.data_bitmap.start() + m
                / 4096]);
        }
    }

    /// The on-disk position of inode `n`: its block and byte offset.
    pub fn get_disk_inode_pos(&self, inode_id: u32) -> (r: (u32, usize))
        requires
            self.layout_wf(),
            inode_id < self.max_inodes,
        ensures
            r.0 == self.inode_block(inode_id as int),
            r.1 == self.inode_off(inode_id as int),
            r.1 + INODE_SZ <= BLOCK_SZ,
    {
        proof {
            lemma_slot_bounds(inode_id as int, 0, self.max_inodes as int);
        }
        (self.inode_area_start + inode_id / 3, 132 * ((inode_id % 3) as usize))
    }

    /// The inode number stored at a slot position; inverse of
    /// `get_disk_inode_pos`.
    pub fn get_inode_id(&self, block_id: u32, block_offset: usize) -> (r: u32)
        requires
            self.layout_wf(),
            block_id >= self.inode_area_start,
            (block_id - self.inode_area_start) * 3 + block_offset as int / 132 < self.max_inodes,
        ensures
            r == (block_id - self.inode_area_start) * 3 + block_offset as int / 132,
    {
        (block_id - self.inode_area_start) * 3 + (block_offset / 132) as u32
    }

    /// Reads inode `n`'s record from its slot.
    pub fn read_inode(&mut self, n: u32) -> (r: DiskInode)
        requires
            old(self).layout_wf(),
            n < old(self).max_inodes,
        ensures
            final(self).layout_wf(),
            final(self).same_layout(old(self)),
            final(self)@ == old(self)@,
            r@ == old(self).inode_at(n as int),
            r@.direct.len() == 28,
    {
        let (blk, off) = self.get_disk_inode_pos(n);
        proof {
            self.lemma_block_in_range(n as int);
        }
        let bytes = self.cache.read_range(blk as usize, off, INODE_SZ);
        DiskInode::decode(&bytes)
    }

    /// An inode's slot block lies between the inode area start and the data
    /// bitmap.
    pub proof fn lemma_block_in_range(&self, n: int)
        requires
            self.layout_wf(),
            0 <= n < self.max_inodes,
        ensures
            self.inode_area_start <= self.inode_block(n) < self.data_bitmap.start(),
            0 <= self.inode_off(n),
            self.inode_off(n) + 132 <= 512,
    {
        lemma_slot_bounds(n, n, self.max_inodes as int);
        assert(n / 3 < self.inode_area_blocks) by {
            vstd::arithmetic::div_mod::lemma_div_is_ordered(n, self.max_inodes as int - 1, 3);
            vstd::arithmetic::div_mod::lemma_div_is_ordered(
                self.max_inodes as int - 1,
                self.inode_area_blocks as int * 3 - 1,
                3,
            );
            assert((self.inode_area_blocks * 3 - 1) / 3 == self.inode_area_blocks - 1) by {
                assert(self.inode_area_blocks * 3 - 1 == 3 * (self.inode_area_blocks - 1) + 2);
                vstd::arithmetic::div_mod::lemma_hoist_over_denominator(
                    2,
                    self.inode_area_blocks as int - 1,
                    3,
                );
                vstd::arithmetic::div_mod::lemma_basic_div(2, 3);
            }
        }
    }

    /// Writes inode `n`'s record into its slot. Only that slot changes: the
    /// other inodes, both bitmaps, and the superblock read as before.
    #[verifier::spinoff_prover]
    #[verifier::rlimit(100)]
    pub fn write_inode(&mut self, n: u32, d: &DiskInode)
        requires
            old(self).layout_wf(),
            n < old(self).max_inodes,
            inode_shape(d@),
        ensures
            final(self).layout_wf(),
            final(self).same_layout(old(self)),
            final(self)@.len() == old(self)@.len(),
            final(self).inode_at(n as int) == d@,
            forall|m: int|
                0 <= m < old(self).max_inodes && m != n ==> final(self).inode_at(m) == old(self).inode_at(m),
            forall|b: int|
                0 <= b < old(self)@.len() && b != old(self).inode_block(n as int) ==> final(self)@[b] == old(self)@[b],
            forall|m: int|
                0 <= m < old(self).max_inodes ==> final(self).ino_alloc(m) == old(self).ino_alloc(
                    m,
                ),
            forall|b: int|
                old(self).in_data_area(b) ==> final(self).data_bit(b) == old(self).data_bit(b),
    {
        let (blk, off) = self.get_disk_inode_pos(n);
        proof {
            self.lemma_block_in_range(n as int);
        }
        let bytes = d.encode();
        let ghost pre = *old(self);
        self.cache.write_range(blk as usize, off, bytes.as_slice());
        proof {
            Self::lemma_write_slot(&pre, &*self, n as int, d@);
        }
    }

    /// What one inode-slot write does to the rest of the filesystem.
    #[verifier::spinoff_prover]
    #[verifier::rlimit(100)]
    proof fn lemma_write_slot(pre: &Self, fin: &Self, nn: int, dv: InodeV)
        requires
            pre.layout_wf(),
            fin.same_layout(pre),
            0 <= nn < pre.max_inodes,
            inode_shape(dv),
            fin.cache.wf(),
            fin@ =~= pre@.update(
                pre.inode_block(nn),
                splice(pre@[pre.inode_block(nn)], pre.inode_off(nn), inode_enc(dv)),
            ),
        ensures
            fin.layout_wf(),
            fin@.len() == pre@.len(),
            fin.inode_at(nn) == dv,
            forall|m: int| 0 <= m < pre.max_inodes && m != nn ==> fin.inode_at(m) == pre.inode_at(
                m,
            ),
            forall|b: int|
                0 <= b < pre@.len() && b != pre.inode_block(nn) ==> fin@[b] == pre@[b],
            forall|m: int| 0 <= m < pre.max_inodes ==> fin.ino_alloc(m) == pre.ino_alloc(m),
            forall|b: int| pre.in_data_area(b) ==> fin.data_bit(b) == pre.data_bit(b),
    {
        let b0 = pre.inode_block(nn);
        pre.lemma_block_in_range(nn);
        lemma_slot_bounds(nn, nn, pre.max_inodes as int);
        assert(pre@[b0].len() == 512) by {
            pre.cache.lemma_view_wf();
        }
        crate::layout::lemma_inode_enc_len(dv);
        assert(inode_enc(dv).len() == 132);
        assert(fin.inode_at(nn) == dv) by {
            crate::bytes::lemma_splice_inside(pre@[b0], pre.inode_off(nn), inode_enc(dv));
            assert(fin@[b0].subrange(pre.inode_off(nn), pre.inode_off(nn) + 132) == inode_enc(
                dv,
            ));
            lemma_inode_roundtrip(dv);
        }
        assert forall|m: int|
            0 <= m < pre.max_inodes && m != nn implies fin.inode_at(m) == pre.inode_at(m) by {
            lemma_slot_bounds(nn, m, pre.max_inodes as int);
            pre.lemma_block_in_range(m);
            if pre.inode_block(m) == b0 {
                crate::bytes::lemma_splice_outside(
                    pre@[b0],
                    pre.inode_off(nn),
                    inode_enc(dv),
                    pre.inode_off(m),
                    pre.inode_off(m) + 132,
                );
                assert(fin@[b0].subrange(pre.inode_off(m), pre.inode_off(m) + 132) == pre@[
                b0].subrange(pre.inode_off(m), pre.inode_off(m) + 132));
            }
        }
        assert forall|m: int|
            0 <= m < pre.max_inodes implies fin.ino_alloc(m) == pre.ino_alloc(m) by {
            crate::bitmap::lemma_bit_block_range(pre.inode_bitmap.num_blocks(), m);
            assert(fin@[1 + m / 4096] == pre@[1 + m / 4096]);
        }
        assert forall|b: int| pre.in_data_area(b) implies fin.data_bit(b) == pre.data_bit(b) by {
            let mm = b - pre.data_area_start;
            crate::bitmap::lemma_bit_block_range(pre.data_bitmap.num_blocks(), mm);
            assert(fin@[pre.data_bitmap.start() + mm / 4096] == pre@[pre.data_bitmap.start() + mm
                / 4096]);
        }
        assert(fin.layout_wf()) by {
            assert(fin@[0] == pre@[0]);
        }
    }


    /// Allocates the lowest free inode number and initializes its slot as an
    /// empty file or directory. Nothing else changes: every other inode,
    /// every data bit, and every directory reads as before.
    #[verifier::spinoff_prover]
    #[verifier::rlimit(100)]
    #[verifier::spinoff_prover]
    #[verifier::rlimit(100)]
    pub fn alloc_inode(&mut self, ty: DiskInodeType) -> (r: Option<u32>)
        requires
            old(self).wf(),
        ensures
            final(self).wf(),
            final(self).same_layout(old(self)),
            final(self)@.len() == old(self)@.len(),
            match r {
                Some(n) => {
                    &&& n < old(self).max_inodes
                    &&& !old(self).ino_alloc(n as int)
                    &&& forall|m: int| 0 <= m < n ==> old(self).ino_alloc(m)
                    &&& final(self).ino_alloc(n as int)
                    &&& forall|m: int|
                        0 <= m < old(self).max_inodes && m != n ==> final(self).ino_alloc(m) == old(self).ino_alloc(m)
                    &&& forall|b: int|
                        old(self).in_data_area(b) ==> final(self).data_bit(b) == old(self).data_bit(b)
                    &&& forall|m: int|
                        0 <= m < old(self).max_inodes && m != n ==> final(self).inode_at(m) == old(self).inode_at(m)
                    &&& final(self).inode_at(n as int) == empty_inode(ty)
                    &&& forall|m: int|
                        0 <= m < old(self).max_inodes && old(self).ino_alloc(m) && m != n
                            ==> file_bytes(final(self).inode_at(m), final(self)@) == file_bytes(
                            old(self).inode_at(m),
                            old(self)@,
                        ) && dir_entries(final(self).inode_at(m), final(self)@) == dir_entries(
                            old(self).inode_at(m),
                            old(self)@,
                        )
                },
                None => {
                    &&& final(self)@ == old(self)@
                    &&& forall|m: int| 0 <= m < old(self).max_inodes ==> old(self).ino_alloc(m)
                },
            },
    {
        let ghost pre = *old(self);
        proof {
            pre.lemma_wf_layout();
        }
        let r = self.inode_bitmap.allocate(&mut self.cache);
        match r {
            None => {
                proof {
                    crate::vfs::lemma_fs_identical(&pre, &*self);
                }
                None
            },
            Some(n) => {
                let mut d = self.read_inode(n);
                d.initialize(ty);
                self.write_inode(n, &d);
                proof {
                    let nn = n as int;
                    let fin = &*self;
                    assert(fin.inode_at(nn) == empty_inode(ty));
                    // Changed blocks: one inode-bitmap block and one inode
                    // slot block; neither is in the data area.
                    assert forall|b: int, m: int|
                        #![trigger fin@[b], refd(pre.inode_at(m), pre@, b)]
                        0 <= b < pre@.len() && fin@[b] != pre@[b] && 0 <= m < pre.max_inodes
                            && pre.ino_alloc(m) implies !refd(pre.inode_at(m), pre@, b) by {
                        crate::bitmap::lemma_bit_block_range(pre.inode_bitmap.num_blocks(), nn);
                        pre.lemma_block_in_range(nn);
                        if refd(pre.inode_at(m), pre@, b) {
                            pre.lemma_wf_inode(m);
                            assert(pre.in_data_area(b));
                        }
                    }
                    assert forall|m: int|
                        0 <= m < pre.max_inodes && m != nn implies fin.ino_alloc(m)
                        == pre.ino_alloc(m) by {
                        crate::bitmap::lemma_bit_block_range(pre.inode_bitmap.num_blocks(), m);
                        crate::bitmap::lemma_bit_block_range(pre.inode_bitmap.num_blocks(), nn);
                        pre.lemma_block_in_range(nn);
                        assert(fin@[1 + m / 4096] == pre@[1 + m / 4096] || bitmap_bit(fin@, 1, m)
                            == bitmap_bit(pre@, 1, m));
                    }
                    assert forall|b: int|
                        pre.in_data_area(b) implies fin.data_bit(b) == pre.data_bit(b) by {
                        let mm = b - pre.data_area_start;
                        crate::bitmap::lemma_bit_block_range(pre.data_bitmap.num_blocks(), mm);
                        crate::bitmap::lemma_bit_block_range(pre.inode_bitmap.num_blocks(), nn);
                        pre.lemma_block_in_range(nn);
                        assert(fin@[pre.data_bitmap.start() + mm / 4096] == pre@[
                        pre.data_bitmap.start() + mm / 4096]);
                    }
                    assert forall|m: int|
                        0 <= m < pre.max_inodes && m != nn implies fin.inode_at(m) == pre.inode_at(
                        m,
                    ) by {}
                    assert(fin.layout_wf()) by {
                        crate::bitmap::lemma_bit_block_range(pre.inode_bitmap.num_blocks(), nn);
                        pre.lemma_block_in_range(nn);
                        assert(fin@[0] == pre@[0]);
                    }
                    assert(fin.ino_alloc(0)) by {
                        if nn != 0 {
                            assert(fin.ino_alloc(0) == pre.ino_alloc(0));
                        }
                    }
                    lemma_wf_after_meta_change(&pre, fin);
                }
                Some(n)
            },
        }
    }

}

/// A freshly initialized inode: size zero, no blocks, no parent.
pub open spec fn empty_inode(ty: DiskInodeType) -> InodeV {
    InodeV {
        size: 0,
        direct: Seq::new(28nat, |k: int| 0u32),
        indirect1: 0,
        indirect2: 0,
        parent: 0,
        ty: ty,
    }
}


/// Uniqueness of entry inode numbers carries over to a state where every
/// allocated directory either kept its entries or has none.
pub proof fn lemma_entries_unique_transfer(pre: &EasyFileSystem, fin: &EasyFileSystem)
    requires
        pre.entries_unique(),
        fin.max_inodes == pre.max_inodes,
        forall|n: int|
            0 <= n < pre.max_inodes && #[trigger] fin.ino_alloc(n) ==> (pre.ino_alloc(n)
                && fin.inode_at(n) == pre.inode_at(n) && dir_entries(fin.inode_at(n), fin@)
                == dir_entries(pre.inode_at(n), pre@)) || dir_entries(
                fin.inode_at(n),
                fin@,
            ).len() == 0,
    ensures
        fin.entries_unique(),
{
    assert forall|n1: int, e1: int, n2: int, e2: int|
        #![trigger dir_entries(fin.inode_at(n1), fin@)[e1], dir_entries(fin.inode_at(n2), fin@)[e2]]
        (0 <= n1 < fin.max_inodes && 0 <= n2 < fin.max_inodes && fin.ino_alloc(n1)
            && fin.ino_alloc(n2) && fin.inode_at(n1).ty == DiskInodeType::Directory
            && fin.inode_at(n2).ty == DiskInodeType::Directory && 0 <= e1 < dir_entries(
            fin.inode_at(n1),
            fin@,
        ).len() && 0 <= e2 < dir_entries(fin.inode_at(n2), fin@).len() && (n1 != n2 || e1
            != e2)) implies dir_entries(fin.inode_at(n1), fin@)[e1].ino != dir_entries(
        fin.inode_at(n2),
        fin@,
    )[e2].ino by {
        assert(dir_entries(fin.inode_at(n1), fin@) == dir_entries(pre.inode_at(n1), pre@));
        assert(dir_entries(fin.inode_at(n2), fin@) == dir_entries(pre.inode_at(n2), pre@));
        assert(dir_entries(pre.inode_at(n1), pre@)[e1].ino != dir_entries(
            pre.inode_at(n2),
            pre@,
        )[e2].ino);
    }
}


/// The filesystem invariant survives any state change that leaves every
/// inode slot readable as before and touches no block referenced by an
/// allocated inode: freshly allocated inodes must be empty, and an inode may
/// be freed only when no entry names it and a data bit may be cleared only
/// when no inode references its block.
#[verifier::spinoff_prover]
#[verifier::rlimit(100)]
pub proof fn lemma_wf_after_meta_change(pre: &EasyFileSystem, fin: &EasyFileSystem)
    requires
        pre.wf(),
        fin.layout_wf(),
        fin.same_layout(pre),
        fin@.len() == pre@.len(),
        forall|n: int|
            0 <= n < pre.max_inodes && pre.ino_alloc(n) ==> fin.inode_at(n) == pre.inode_at(n),
        forall|b: int, m: int|
            #![trigger fin@[b], refd(pre.inode_at(m), pre@, b)]
            0 <= b < pre@.len() && fin@[b] != pre@[b] && 0 <= m < pre.max_inodes && pre.ino_alloc(
                m,
            ) ==> !refd(pre.inode_at(m), pre@, b),
        forall|n: int|
            0 <= n < pre.max_inodes && #[trigger] fin.ino_alloc(n) && !pre.ino_alloc(n)
                ==> fin.inode_at(n).size == 0 && fin.inode_at(n).parent < pre.max_inodes
                && inode_shape(fin.inode_at(n)),
        forall|n: int|
            0 <= n < pre.max_inodes && pre.ino_alloc(n) && !(#[trigger] fin.ino_alloc(n)) ==> (
            forall|m: int, e: int|
                #![trigger dir_entries(pre.inode_at(m), pre@)[e]]
                (0 <= m < pre.max_inodes && pre.ino_alloc(m) && pre.inode_at(m).ty
                    == DiskInodeType::Directory && 0 <= e < dir_entries(
                    pre.inode_at(m),
                    pre@,
                ).len()) ==> dir_entries(pre.inode_at(m), pre@)[e].ino != n),
        forall|b: int|
            pre.in_data_area(b) && pre.data_bit(b) && !(#[trigger] fin.data_bit(b)) ==> (forall|
                m: int,
            |
                0 <= m < pre.max_inodes && pre.ino_alloc(m) ==> !(#[trigger] refd(
                    pre.inode_at(m),
                    pre@,
                    b,
                ))),
        fin.ino_alloc(0),
    ensures
        fin.wf(),
        forall|n: int|
            0 <= n < pre.max_inodes && pre.ino_alloc(n) && fin.ino_alloc(n) ==> file_bytes(
                fin.inode_at(n),
                fin@,
            ) == file_bytes(pre.inode_at(n), pre@) && dir_entries(fin.inode_at(n), fin@)
                == dir_entries(pre.inode_at(n), pre@) && (forall|b2: int|
                refd(fin.inode_at(n), fin@, b2) <==> refd(pre.inode_at(n), pre@, b2)),
{
    reveal(EasyFileSystem::wf);
    assert forall|n: int|
        0 <= n < pre.max_inodes && pre.ino_alloc(n) implies inode_ok(pre.inode_at(n), fin@) && (
    forall|b2: int| refd(pre.inode_at(n), fin@, b2) <==> refd(pre.inode_at(n), pre@, b2))
        && file_bytes(pre.inode_at(n), fin@) =~= file_bytes(pre.inode_at(n), pre@) && dir_entries(
        pre.inode_at(n),
        fin@,
    ) =~= dir_entries(pre.inode_at(n), pre@) by {
        assert(pre.inode_wf(n));
        let v = pre.inode_at(n);
        assert forall|b2: int| #[trigger] refd(v, pre@, b2) implies fin@[b2] == pre@[b2] by {
            if fin@[b2] != pre@[b2] {
                assert(!refd(pre.inode_at(n), pre@, b2));
            }
        }
        crate::layout::lemma_inode_same(v, pre@, fin@);
    }
    assert forall|n: int|
        0 <= n < fin.max_inodes && fin.ino_alloc(n) implies #[trigger] fin.inode_wf(n) by {
        if pre.ino_alloc(n) {
            assert(pre.inode_wf(n));
            let v = pre.inode_at(n);
            assert forall|b2: int| #[trigger] refd(v, fin@, b2) implies fin.in_data_area(b2)
                && fin.data_bit(b2) by {
                assert(refd(v, pre@, b2));
                assert(pre.data_bit(b2));
                if !fin.data_bit(b2) {
                    assert(!refd(pre.inode_at(n), pre@, b2));
                }
            }
        } else {
            let v = fin.inode_at(n);
            assert(v.size == 0);
            assert(blocks_for(0) == 0 && l2_count(0) == 0);
            assert forall|b2: int| !(#[trigger] refd(v, fin@, b2)) by {}
        }
    }
    assert forall|n: int|
        0 <= n < fin.max_inodes && fin.ino_alloc(n) && fin.inode_at(n).ty
            == DiskInodeType::Directory implies #[trigger] fin.dir_wf(n) by {
        if pre.ino_alloc(n) {
            assert(pre.dir_wf(n));
            let es = dir_entries(fin.inode_at(n), fin@);
            assert(es == dir_entries(pre.inode_at(n), pre@));
            assert forall|e: int|
                0 <= e < es.len() implies valid_name((#[trigger] es[e]).name) && 0 < es[e].ino
                < fin.max_inodes && fin.ino_alloc(es[e].ino as int) by {
                assert(pre.ino_alloc(es[e].ino as int));
                if !fin.ino_alloc(es[e].ino as int) {
                    assert(dir_entries(pre.inode_at(n), pre@)[e].ino != es[e].ino);
                }
            }
        } else {
            assert(fin.inode_at(n).size == 0);
            assert(dir_entries(fin.inode_at(n), fin@).len() == 0);
        }
    }
    assert(fin.inodes_disjoint()) by {
        assert forall|n1: int, n2: int, b: int|
            0 <= n1 < fin.max_inodes && 0 <= n2 < fin.max_inodes && n1 != n2 && fin.ino_alloc(n1)
                && fin.ino_alloc(n2) && #[trigger] refd(fin.inode_at(n1), fin@, b) implies !(
        #[trigger] refd(fin.inode_at(n2), fin@, b)) by {
            if !pre.ino_alloc(n1) {
                assert(!refd(fin.inode_at(n1), fin@, b));
            } else if !pre.ino_alloc(n2) {
                assert(fin.inode_at(n2).size == 0);
                assert(blocks_for(0) == 0 && l2_count(0) == 0);
            } else {
                assert(refd(pre.inode_at(n1), pre@, b));
                assert(refd(fin.inode_at(n2), fin@, b) ==> refd(pre.inode_at(n2), pre@, b));
            }
        }
    }
    assert(fin.entries_unique()) by {
        lemma_entries_unique_transfer(pre, fin);
    }
    assert(fin.inode_at(0).ty == DiskInodeType::Directory);
}


} // verus!

verus! {

impl EasyFileSystem {
    /// Frees inode number `n`. The inode must already be empty (size zero)
    /// and no directory entry may still name it; the root inode is never
    /// freed.
    #[verifier::spinoff_prover]
    #[verifier::rlimit(100)]
    #[verifier::spinoff_prover]
    #[verifier::rlimit(100)]
    pub fn dealloc_inode(&mut self, n: u32)
        requires
            old(self).wf(),
            0 < n < old(self).max_inodes,
            old(self).ino_alloc(n as int),
            old(self).inode_at(n as int).size == 0,
            forall|m: int, e: int|
                #![trigger dir_entries(old(self).inode_at(m), old(self)@)[e]]
                (0 <= m < old(self).max_inodes && old(self).ino_alloc(m) && old(self).inode_at(
                    m,
                ).ty == DiskInodeType::Directory && 0 <= e < dir_entries(
                    old(self).inode_at(m),
                    old(self)@,
                ).len()) ==> dir_entries(old(self).inode_at(m), old(self)@)[e].ino != n,
        ensures
            final(self).wf(),
            final(self).same_layout(old(self)),
            final(self)@.len() == old(self)@.len(),
            !final(self).ino_alloc(n as int),
            forall|m: int|
                0 <= m < old(self).max_inodes && m != n ==> final(self).ino_alloc(m) == old(self).ino_alloc(m),
            forall|b: int|
                old(self).in_data_area(b) ==> final(self).data_bit(b) == old(self).data_bit(b),
            forall|m: int| 0 <= m < old(self).max_inodes ==> final(self).inode_at(m) == old(self).inode_at(m),
            forall|m: int|
                0 <= m < old(self).max_inodes && old(self).ino_alloc(m) && m != n ==> file_bytes(
                    final(self).inode_at(m),
                    final(self)@,
                ) == file_bytes(old(self).inode_at(m), old(self)@) && dir_entries(
                    final(self).inode_at(m),
                    final(self)@,
                ) == dir_entries(old(self).inode_at(m), old(self)@),
    {
        let ghost pre = *old(self);
        proof {
            pre.lemma_wf_layout();
        }
        self.inode_bitmap.dealloc(&mut self.cache, n);
        proof {
            let nn = n as int;
            let fin = &*self;
            assert forall|b: int, m: int|
                #![trigger fin@[b], refd(pre.inode_at(m), pre@, b)]
                0 <= b < pre@.len() && fin@[b] != pre@[b] && 0 <= m < pre.max_inodes
                    && pre.ino_alloc(m) implies !refd(pre.inode_at(m), pre@, b) by {
                crate::bitmap::lemma_bit_block_range(pre.inode_bitmap.num_blocks(), nn);
                if refd(pre.inode_at(m), pre@, b) {
                    pre.lemma_wf_inode(m);
                    assert(pre.in_data_area(b));
                }
            }
            assert forall|m: int|
                0 <= m < pre.max_inodes && m != nn implies fin.ino_alloc(m) == pre.ino_alloc(
                m,
            ) by {
                crate::bitmap::lemma_bit_block_range(pre.inode_bitmap.num_blocks(), m);
            }
            assert forall|b: int|
                pre.in_data_area(b) implies fin.data_bit(b) == pre.data_bit(b) by {
                let mm = b - pre.data_area_start;
                crate::bitmap::lemma_bit_block_range(pre.data_bitmap.num_blocks(), mm);
                crate::bitmap::lemma_bit_block_range(pre.inode_bitmap.num_blocks(), nn);
                assert(fin@[pre.data_bitmap.start() + mm / 4096] == pre@[pre.data_bitmap.start()
                    + mm / 4096]);
            }
            assert forall|m: int|
                0 <= m < pre.max_inodes implies fin.inode_at(m) == pre.inode_at(m) by {
                pre.lemma_block_in_range(m);
                crate::bitmap::lemma_bit_block_range(pre.inode_bitmap.num_blocks(), nn);
                assert(fin@[pre.inode_block(m)] == pre@[pre.inode_block(m)]);
            }
            assert(fin.layout_wf()) by {
                crate::bitmap::lemma_bit_block_range(pre.inode_bitmap.num_blocks(), nn);
                assert(fin@[0] == pre@[0]);
            }
            assert(fin.ino_alloc(0)) by {
                assert(fin.ino_alloc(0) == pre.ino_alloc(0));
            }
            lemma_wf_after_meta_change(&pre, fin);
        }
    }


    /// Allocates the lowest free data block and returns its absolute block
    /// id. The block is freshly owned: no allocated inode references it.
    #[verifier::spinoff_prover]
    #[verifier::rlimit(100)]
    #[verifier::spinoff_prover]
    #[verifier::rlimit(100)]
    pub fn alloc_data(&mut self) -> (r: Option<u32>)
        requires
            old(self).wf(),
        ensures
            final(self).wf(),
            final(self).same_layout(old(self)),
            final(self)@.len() == old(self)@.len(),
            match r {
                Some(b) => {
                    &&& old(self).in_data_area(b as int)
                    &&& !old(self).data_bit(b as int)
                    &&& final(self).data_bit(b as int)
                    &&& forall|b2: int|
                        old(self).in_data_area(b2) && b2 != b ==> final(self).data_bit(b2) == old(self).data_bit(b2)
                    &&& forall|m: int|
                        0 <= m < old(self).max_inodes ==> final(self).ino_alloc(m) == old(self).ino_alloc(m)
                    &&& forall|m: int| 0 <= m < old(self).max_inodes ==> final(self).inode_at(m)
                        == old(self).inode_at(m)
                    &&& forall|m: int|
                        0 <= m < old(self).max_inodes && old(self).ino_alloc(m) ==> !refd(
                            old(self).inode_at(m),
                            old(self)@,
                            b as int,
                        )
                    &&& forall|m: int|
                        0 <= m < old(self).max_inodes && old(self).ino_alloc(m) ==> file_bytes(
                            final(self).inode_at(m),
                            final(self)@,
                        ) == file_bytes(old(self).inode_at(m), old(self)@) && dir_entries(
                            final(self).inode_at(m),
                            final(self)@,
                        ) == dir_entries(old(self).inode_at(m), old(self)@) && (forall|b2: int|
                            refd(final(self).inode_at(m), final(self)@, b2) <==> refd(
                                old(self).inode_at(m),
                                old(self)@,
                                b2,
                            ))
                    &&& final(self)@[b as int] == old(self)@[b as int]
                    &&& forall|b2: int|
                        #![trigger final(self)@[b2]]
                        0 <= b2 < old(self)@.len() && final(self)@[b2] != old(self)@[b2] ==> old(
                            self,
                        ).data_bitmap.start() <= b2 < old(self).data_area_start
                },
                None => {
                    &&& final(self)@ == old(self)@
                    &&& forall|b2: int| old(self).in_data_area(b2) ==> old(self).data_bit(b2)
                },
            },
    {
        let ghost pre = *old(self);
        proof {
            pre.lemma_wf_layout();
        }
        let r = self.data_bitmap.allocate(&mut self.cache);
        match r {
            None => {
                proof {
                    assert forall|b2: int| pre.in_data_area(b2) implies pre.data_bit(b2) by {}
                    crate::vfs::lemma_fs_identical(&pre, &*self);
                }
                None
            },
            Some(m) => {
                let b = self.data_area_start + m;
                proof {
                    let mm = m as int;
                    let fin = &*self;
                    assert forall|bb: int, q: int|
                        #![trigger fin@[bb], refd(pre.inode_at(q), pre@, bb)]
                        0 <= bb < pre@.len() && fin@[bb] != pre@[bb] && 0 <= q < pre.max_inodes
                            && pre.ino_alloc(q) implies !refd(pre.inode_at(q), pre@, bb) by {
                        crate::bitmap::lemma_bit_block_range(pre.data_bitmap.num_blocks(), mm);
                        if refd(pre.inode_at(q), pre@, bb) {
                            pre.lemma_wf_inode(q);
                            assert(pre.in_data_area(bb));
                        }
                    }
                    assert forall|q: int|
                        0 <= q < pre.max_inodes implies fin.ino_alloc(q) == pre.ino_alloc(q) by {
                        crate::bitmap::lemma_bit_block_range(pre.inode_bitmap.num_blocks(), q);
                        crate::bitmap::lemma_bit_block_range(pre.data_bitmap.num_blocks(), mm);
                        assert(fin@[1 + q / 4096] == pre@[1 + q / 4096]);
                    }
                    assert forall|b2: int|
                        pre.in_data_area(b2) && b2 != b implies fin.data_bit(b2) == pre.data_bit(
                        b2,
                    ) by {}
                    assert forall|q: int|
                        0 <= q < pre.max_inodes implies fin.inode_at(q) == pre.inode_at(q) by {
                        pre.lemma_block_in_range(q);
                        crate::bitmap::lemma_bit_block_range(pre.data_bitmap.num_blocks(), mm);
                        assert(fin@[pre.inode_block(q)] == pre@[pre.inode_block(q)]);
                    }
                    assert forall|q: int|
                        0 <= q < pre.max_inodes && pre.ino_alloc(q) implies !refd(
                        pre.inode_at(q),
                        pre@,
                        b as int,
                    ) by {
                        if refd(pre.inode_at(q), pre@, b as int) {
                            pre.lemma_wf_inode(q);
                            assert(pre.data_bit(b as int));
                        }
                    }
                    assert(fin.layout_wf()) by {
                        crate::bitmap::lemma_bit_block_range(pre.data_bitmap.num_blocks(), mm);
                        assert(fin@[0] == pre@[0]);
                    }
                    assert(fin.ino_alloc(0));
                    lemma_wf_after_meta_change(&pre, fin);
                    assert(fin@[b as int] == pre@[b as int]) by {
                        crate::bitmap::lemma_bit_block_range(pre.data_bitmap.num_blocks(), mm);
                    }
                }
                Some(b)
            },
        }
    }


    /// Returns data block `b` to the allocator: zeroes the block and clears
    /// its bit. The block must be orphaned: no allocated inode references
    /// it.
    #[verifier::spinoff_prover]
    #[verifier::rlimit(100)]
    #[verifier::spinoff_prover]
    #[verifier::rlimit(100)]
    pub fn dealloc_data(&mut self, b: u32)
        requires
            old(self).wf(),
            old(self).in_data_area(b as int),
            old(self).data_bit(b as int),
            forall|m: int|
                0 <= m < old(self).max_inodes && old(self).ino_alloc(m) ==> !refd(
                    old(self).inode_at(m),
                    old(self)@,
                    b as int,
                ),
        ensures
            final(self).wf(),
            final(self).same_layout(old(self)),
            final(self)@.len() == old(self)@.len(),
            !final(self).data_bit(b as int),
            forall|b2: int|
                old(self).in_data_area(b2) && b2 != b ==> final(self).data_bit(b2) == old(self).data_bit(b2),
            forall|m: int|
                0 <= m < old(self).max_inodes ==> final(self).ino_alloc(m) == old(self).ino_alloc(
                    m,
                ),
            forall|m: int| 0 <= m < old(self).max_inodes ==> final(self).inode_at(m) == old(self).inode_at(m),
            forall|m: int|
                0 <= m < old(self).max_inodes && old(self).ino_alloc(m) ==> file_bytes(
                    final(self).inode_at(m),
                    final(self)@,
                ) == file_bytes(old(self).inode_at(m), old(self)@) && dir_entries(
                    final(self).inode_at(m),
                    final(self)@,
                ) == dir_entries(old(self).inode_at(m), old(self)@) && (forall|b2: int|
                    refd(final(self).inode_at(m), final(self)@, b2) <==> refd(
                        old(self).inode_at(m),
                        old(self)@,
                        b2,
                    )),
    {
        let ghost pre = *old(self);
        proof {
            pre.lemma_wf_layout();
        }
        // Zero the freed block through the cache.
        let mut zeros: Vec<u8> = Vec::new();
        let mut k: usize = 0;
        while k < BLOCK_SZ
            invariant
                k <= BLOCK_SZ,
                zeros@.len() == k,
            decreases BLOCK_SZ - k,
        {
            zeros.push(0u8);
            k += 1;
        }
        proof {
            self.cache.lemma_view_wf();
        }
        self.cache.write_range(b as usize, 0, zeros.as_slice());
        self.data_bitmap.dealloc(&mut self.cache, b - self.data_area_start);
        proof {
            let fin = &*self;
            let mm = b as int - pre.data_area_start;
            assert forall|bb: int, q: int|
                #![trigger fin@[bb], refd(pre.inode_at(q), pre@, bb)]
                0 <= bb < pre@.len() && fin@[bb] != pre@[bb] && 0 <= q < pre.max_inodes
                    && pre.ino_alloc(q) implies !refd(pre.inode_at(q), pre@, bb) by {
                crate::bitmap::lemma_bit_block_range(pre.data_bitmap.num_blocks(), mm);
                if refd(pre.inode_at(q), pre@, bb) {
                    pre.lemma_wf_inode(q);
                    assert(pre.in_data_area(bb));
                    assert(bb == b as int ==> !refd(pre.inode_at(q), pre@, b as int));
                }
            }
            assert forall|q: int|
                0 <= q < pre.max_inodes implies fin.ino_alloc(q) == pre.ino_alloc(q) by {
                crate::bitmap::lemma_bit_block_range(pre.inode_bitmap.num_blocks(), q);
                crate::bitmap::lemma_bit_block_range(pre.data_bitmap.num_blocks(), mm);
                assert(fin@[1 + q / 4096] == pre@[1 + q / 4096]);
            }
            assert forall|b2: int|
                pre.in_data_area(b2) && b2 != b implies fin.data_bit(b2) == pre.data_bit(b2) by {}
            assert forall|q: int|
                0 <= q < pre.max_inodes implies fin.inode_at(q) == pre.inode_at(q) by {
                pre.lemma_block_in_range(q);
                crate::bitmap::lemma_bit_block_range(pre.data_bitmap.num_blocks(), mm);
                assert(fin@[pre.inode_block(q)] == pre@[pre.inode_block(q)]);
            }
            assert(fin.layout_wf()) by {
                crate::bitmap::lemma_bit_block_range(pre.data_bitmap.num_blocks(), mm);
                assert(fin@[0] == pre@[0]);
            }
            assert(fin.ino_alloc(0));
            assert forall|b2: int|
                pre.in_data_area(b2) && pre.data_bit(b2) && !(
            #[trigger] fin.data_bit(b2)) implies (forall|q: int|
                0 <= q < pre.max_inodes && pre.ino_alloc(q) ==> !(#[trigger] refd(
                    pre.inode_at(q),
                    pre@,
                    b2,
                ))) by {
                assert(b2 == b as int);
            }
            lemma_wf_after_meta_change(&pre, fin);
        }
    }

}

} // verus!

verus! {

impl EasyFileSystem {
    /// Creates a fresh filesystem on `device`: computes the region layout
    /// from the total block count and the inode-bitmap size, zeroes every
    /// block, writes the superblock, and installs an empty root directory as
    /// inode 0.
    #[verifier::spinoff_prover]
    #[verifier::rlimit(100)]
    pub fn create(device: MemDisk, total_blocks: u32, inode_bitmap_blocks: u32) -> (r: Self)
        requires
            device.wf(),
            total_blocks as int <= device@.len(),
            device@.len() <= usize::MAX,
            1 <= inode_bitmap_blocks,
            total_blocks < 0x10000000,
            inode_bitmap_blocks as int * 4096 < 0x1000000,
            1 + inode_bitmap_blocks as int + (inode_bitmap_blocks as int * 4096 + 2) / 3 + 2
                <= total_blocks,
        ensures
            r.wf(),
            r@.len() == device@.len(),
            r.total_blocks == total_blocks,
            r.max_inodes == inode_bitmap_blocks as int * 4096,
            r.inode_at(0) == empty_inode(DiskInodeType::Directory),
            dir_entries(r.inode_at(0), r@).len() == 0,
            forall|n: int| 1 <= n < r.max_inodes ==> !r.ino_alloc(n),
            forall|b: int| r.in_data_area(b) ==> !r.data_bit(b),
    {
        let bits = inode_bitmap_blocks * 4096;
        let inode_area_blocks = (bits + 2) / 3;
        let inode_area_start = 1 + inode_bitmap_blocks;
        let remaining = total_blocks - 1 - inode_bitmap_blocks - inode_area_blocks;
        let data_bitmap_blocks = (remaining + 4096) / 4097;
        let data_area_blocks = remaining - data_bitmap_blocks;
        proof {
            assert(remaining >= 2);
            assert(1 <= data_bitmap_blocks as int) by {
                vstd::arithmetic::div_mod::lemma_div_is_ordered(
                    4097,
                    remaining as int + 4096,
                    4097,
                );
            }
            assert(data_bitmap_blocks as int <= remaining - 1) by {
                vstd::arithmetic::div_mod::lemma_div_is_ordered(
                    remaining as int + 4096,
                    remaining as int * 4097 - 4097 + 4096,
                    4097,
                );
                assert((remaining as int * 4097 - 4097 + 4096) / 4097 == remaining - 1) by {
                    assert(remaining as int * 4097 - 4097 + 4096 == 4097 * (remaining as int - 1)
                        + 4096);
                    vstd::arithmetic::div_mod::lemma_hoist_over_denominator(
                        4096,
                        remaining as int - 1,
                        4097,
                    );
                    vstd::arithmetic::div_mod::lemma_basic_div(4096, 4097);
                }
            }
            assert(data_area_blocks as int <= data_bitmap_blocks as int * 4096) by {
                assert(remaining as int <= data_bitmap_blocks as int * 4097) by {
                    vstd::arithmetic::div_mod::lemma_fundamental_div_mod(
                        remaining as int + 4096,
                        4097,
                    );
                    vstd::arithmetic::div_mod::lemma_mod_bound(remaining as int + 4096, 4097);
                }
            }
            assert(data_bitmap_blocks as int * 4096 < 0x100000000) by {
                assert(data_bitmap_blocks as int <= remaining as int);
            }
            assert(bits as int <= inode_area_blocks as int * 3) by {
                vstd::arithmetic::div_mod::lemma_fundamental_div_mod(bits as int + 2, 3);
                vstd::arithmetic::div_mod::lemma_mod_bound(bits as int + 2, 3);
            }
        }
        let mut cache = BlockCache::new(device);
        zero_range(&mut cache, total_blocks as usize);
        // Write the superblock into block 0.
        let mut sb = SuperBlock {
            magic: 0,
            total_blocks: 0,
            inode_bitmap_blocks: 0,
            inode_area_blocks: 0,
            data_bitmap_blocks: 0,
            data_area_blocks: 0,
        };
        sb.initialize(
            total_blocks,
            inode_bitmap_blocks,
            inode_area_blocks,
            data_bitmap_blocks,
            data_area_blocks,
        );
        let sb_bytes = sb.encode();
        proof {
            cache.lemma_view_wf();
        }
        cache.write_range(0, 0, sb_bytes.as_slice());
        proof {
            assert(cache@[0].take(24) =~= sb_enc(sb));
            lemma_sb_roundtrip(sb);
        }
        let inode_bitmap = Bitmap::new(1, inode_bitmap_blocks as usize, bits as usize);
        let data_bitmap = Bitmap::new(
            (inode_area_start + inode_area_blocks) as usize,
            data_bitmap_blocks as usize,
            data_area_blocks as usize,
        );
        let mut fs = EasyFileSystem {
            cache,
            inode_bitmap,
            data_bitmap,
            inode_area_start,
            data_area_start: inode_area_start + inode_area_blocks + data_bitmap_blocks,
            max_inodes: bits,
            data_area_blocks,
            total_blocks,
            inode_bitmap_blocks,
            inode_area_blocks,
            data_bitmap_blocks,
        };
        proof {
            fs.lemma_fresh_fs();
        }
        // Allocate inode 0 and initialize it as the root directory.
        fs.install_root();
        fs
    }

    /// A bit of an all-zero region is clear.
    proof fn lemma_zero_image_bit(&self, d: Seq<Seq<u8>>, start: int, blocks: int, m: int)
        requires
            0 <= m < blocks * 4096,
            1 <= start,
            start + blocks <= self.total_blocks,
            self.total_blocks <= d.len(),
            forall|i: int| 1 <= i < self.total_blocks ==> #[trigger] d[i] =~= crate::disk::zero_block(),
        ensures
            !bitmap_bit(d, start, m),
    {
        crate::bitmap::lemma_bit_block_range(blocks, m);
        assert(1 <= start + m / 4096 < self.total_blocks);
        vstd::arithmetic::div_mod::lemma_mod_bound(m, 4096);
        vstd::arithmetic::div_mod::lemma_div_pos_is_pos(m % 4096, 8);
        vstd::arithmetic::div_mod::lemma_mod_bound(m, 8);
        assert((m % 4096) / 8 < 512) by {
            vstd::arithmetic::div_mod::lemma_div_is_ordered(m % 4096, 4095, 8);
        }
        assert(d[start + m / 4096] =~= crate::disk::zero_block());
        assert(d[start + m / 4096][(m % 4096) / 8] == 0u8);
        crate::bitmap::lemma_zero_byte_bit((m % 8) as u8);
    }

    /// Opens an existing image: validates the superblock and rebuilds the
    /// descriptor. Succeeds exactly on images whose stored superblock is
    /// consistent; anything else is a corrupt image.
    pub fn open(device: MemDisk) -> (r: Result<Self, FsError>)
        requires
            device.wf(),
            device@.len() <= usize::MAX,
        ensures
            r is Ok <==> image_sb_ok(device@),
            match r {
                Ok(fs) => {
                    &&& fs@ == device@
                    &&& fs.layout_wf()
                    &&& sb_dec(device@[0].take(24)).magic == EFS_MAGIC
                    &&& fs.total_blocks == sb_dec(device@[0].take(24)).total_blocks
                    &&& fs.inode_bitmap_blocks == sb_dec(device@[0].take(24)).inode_bitmap_blocks
                    &&& fs.inode_area_blocks == sb_dec(device@[0].take(24)).inode_area_blocks
                    &&& fs.data_bitmap_blocks == sb_dec(device@[0].take(24)).data_bitmap_blocks
                    &&& fs.data_area_blocks == sb_dec(device@[0].take(24)).data_area_blocks
                    &&& fs.max_inodes == fs.inode_bitmap_blocks as int * 4096
                },
                Err(e) => e is CorruptImage,
            },
    {
        if device.num_blocks() == 0 {
            return Err(FsError::CorruptImage);
        }
        let mut cache = BlockCache::new(device);
        proof {
            cache.lemma_view_wf();
        }
        let sb_bytes = cache.read_range(0, 0, 24);
        let sb = SuperBlock::decode(&sb_bytes);
        if !sb.is_valid() {
            return Err(FsError::CorruptImage);
        }
        // Validate the layout arithmetic without overflowing.
        let total = sb.total_blocks as u64;
        let ibb = sb.inode_bitmap_blocks as u64;
        let iab = sb.inode_area_blocks as u64;
        let dbb = sb.data_bitmap_blocks as u64;
        let dab = sb.data_area_blocks as u64;
        if ibb < 1 || ibb > 0xFFFFF {
            return Err(FsError::CorruptImage);
        }
        if ibb * 4096 > iab * 3 || iab > 0xFFFFF || dbb > 0xFFFFF || dab > dbb * 4096 {
            return Err(FsError::CorruptImage);
        }
        if 1 + ibb + iab + dbb + dab > total {
            return Err(FsError::CorruptImage);
        }
        if total > cache.num_blocks() as u64 {
            return Err(FsError::CorruptImage);
        }
        let max_inodes = (ibb * 4096) as u32;
        let inode_area_start = 1 + sb.inode_bitmap_blocks;
        let data_bitmap_start = inode_area_start + sb.inode_area_blocks;
        let inode_bitmap = Bitmap::new(1, sb.inode_bitmap_blocks as usize, max_inodes as usize);
        let data_bitmap = Bitmap::new(
            data_bitmap_start as usize,
            sb.data_bitmap_blocks as usize,
            sb.data_area_blocks as usize,
        );
        let fs = EasyFileSystem {
            cache,
            inode_bitmap,
            data_bitmap,
            inode_area_start,
            data_area_start: data_bitmap_start + sb.data_bitmap_blocks,
            max_inodes,
            data_area_blocks: sb.data_area_blocks,
            total_blocks: sb.total_blocks,
            inode_bitmap_blocks: sb.inode_bitmap_blocks,
            inode_area_blocks: sb.inode_area_blocks,
            data_bitmap_blocks: sb.data_bitmap_blocks,
        };
        assert(fs@[0].take(24) =~= sb_bytes@);
        Ok(fs)
    }

    /// Flushes every dirty cached block to the device. The logical contents
    /// do not change; afterwards the device holds them exactly.
    pub fn sync_all(&mut self)
        requires
            old(self).layout_wf(),
        ensures
            final(self).layout_wf(),
            final(self).same_layout(old(self)),
            final(self)@ == old(self)@,
            final(self).cache.device_view() =~= old(self)@,
            old(self).wf() ==> final(self).wf(),
    {
        let ghost pre = *old(self);
        self.cache.sync_all();
        proof {
            if pre.wf() {
                crate::vfs::lemma_fs_identical(&pre, &*self);
            }
        }
    }

    /// Hands the underlying device back; unsynced cache contents are
    /// dropped.
    pub fn into_device(self) -> (r: MemDisk)
        requires
            self.layout_wf(),
        ensures
            r.wf(),
            r@ == self.cache.device_view(),
    {
        self.cache.into_device()
    }
}

} // verus!

verus! {

impl EasyFileSystem {
    /// On a fresh image with every bit clear, allocates inode 0 and writes
    /// the empty root directory into its slot, establishing the filesystem
    /// invariant.
    #[verifier::spinoff_prover]
    #[verifier::rlimit(100)]
    fn install_root(&mut self)
        requires
            old(self).layout_wf(),
            forall|n: int| 0 <= n < old(self).max_inodes ==> !old(self).ino_alloc(n),
            forall|b: int| old(self).in_data_area(b) ==> !old(self).data_bit(b),
        ensures
            final(self).wf(),
            final(self).same_layout(old(self)),
            final(self)@.len() == old(self)@.len(),
            final(self).inode_at(0) == empty_inode(DiskInodeType::Directory),
            dir_entries(final(self).inode_at(0), final(self)@).len() == 0,
            forall|n: int| 1 <= n < final(self).max_inodes ==> !final(self).ino_alloc(n),
            forall|b: int| final(self).in_data_area(b) ==> !final(self).data_bit(b),
    {
        let ghost zfs = *old(self);
        let rn = self.inode_bitmap.allocate(&mut self.cache);
        let ghost mid = *self;
        let root_id: u32 = match rn {
            Some(n) => n,
            None => 0,
        };
        proof {
            assert(!bitmap_bit(old(self)@, 1, 0)) by {
                assert(!old(self).ino_alloc(0));
            }
            if rn is None {
                assert(bitmap_bit(old(self)@, 1, 0));
            } else if root_id != 0 {
                assert(bitmap_bit(old(self)@, 1, 0));
            }
        }
        assert(root_id == 0);
        let mut root = self.read_inode(0);
        root.initialize(DiskInodeType::Directory);
        self.write_inode(0, &root);
        proof {
            reveal(EasyFileSystem::wf);
            let fin = &*self;
            assert(fin.inode_at(0) == empty_inode(DiskInodeType::Directory));
            assert(fin.ino_alloc(0)) by {
                assert(mid.ino_alloc(0));
                crate::bitmap::lemma_bit_block_range(fin.inode_bitmap.num_blocks(), 0);
                zfs.lemma_block_in_range(0);
                assert(fin@[1] == mid@[1]);
            }
            assert forall|n: int| 1 <= n < fin.max_inodes implies !fin.ino_alloc(n) by {
                assert(!zfs.ino_alloc(n));
                crate::bitmap::lemma_bit_block_range(fin.inode_bitmap.num_blocks(), n);
                zfs.lemma_block_in_range(0);
                assert(fin@[1 + n / 4096] == mid@[1 + n / 4096]);
                assert(mid.ino_alloc(n) == zfs.ino_alloc(n));
            }
            assert forall|bb: int| fin.in_data_area(bb) implies !fin.data_bit(bb) by {
                let m = bb - fin.data_area_start;
                assert(!zfs.data_bit(bb));
                crate::bitmap::lemma_bit_block_range(fin.data_bitmap.num_blocks(), m);
                zfs.lemma_block_in_range(0);
                assert(fin@[fin.data_bitmap.start() + m / 4096] == zfs@[fin.data_bitmap.start() + m
                    / 4096]);
            }
            assert(blocks_for(0) == 0 && l2_count(0) == 0);
            assert forall|bb: int| !(#[trigger] refd(
                empty_inode(DiskInodeType::Directory),
                fin@,
                bb,
            )) by {}
            assert forall|n: int|
                0 <= n < fin.max_inodes && fin.ino_alloc(n) implies #[trigger] fin.inode_wf(
                n,
            ) by {
                assert(n == 0);
            }
            assert(dir_entries(fin.inode_at(0), fin@).len() == 0);
            assert forall|n: int|
                0 <= n < fin.max_inodes && fin.ino_alloc(n) && fin.inode_at(n).ty
                    == DiskInodeType::Directory implies #[trigger] fin.dir_wf(n) by {
                assert(n == 0);
            }
            assert(fin.inodes_disjoint());
            assert(fin.entries_unique()) by {
                assert forall|n1: int, e1: int, n2: int, e2: int|
                    #![trigger dir_entries(fin.inode_at(n1), fin@)[e1], dir_entries(fin.inode_at(n2), fin@)[e2]]
                    (0 <= n1 < fin.max_inodes && 0 <= n2 < fin.max_inodes && fin.ino_alloc(n1)
                        && fin.ino_alloc(n2) && fin.inode_at(n1).ty == DiskInodeType::Directory
                        && fin.inode_at(n2).ty == DiskInodeType::Directory && 0 <= e1
                        < dir_entries(fin.inode_at(n1), fin@).len() && 0 <= e2 < dir_entries(
                        fin.inode_at(n2),
                        fin@,
                    ).len() && (n1 != n2 || e1 != e2)) implies dir_entries(
                    fin.inode_at(n1),
                    fin@,
                )[e1].ino != dir_entries(fin.inode_at(n2), fin@)[e2].ino by {
                    assert(n1 == 0 && n2 == 0);
                    assert(dir_entries(fin.inode_at(0), fin@).len() == 0);
                }
            }
        }
    }
}

} // verus!

verus! {

impl EasyFileSystem {
    /// A freshly laid-out image, zeroed but for its superblock, has a valid
    /// layout and every bitmap bit clear.
    #[verifier::spinoff_prover]
    #[verifier::rlimit(100)]
    proof fn lemma_fresh_fs(&self)
        requires
            self.cache.wf(),
            self.inode_bitmap.wf(),
            self.data_bitmap.wf(),
            self.inode_bitmap.start() == 1,
            self.inode_bitmap.num_blocks() == self.inode_bitmap_blocks,
            self.inode_bitmap.num_bits() == self.max_inodes,
            self.inode_area_start == 1 + self.inode_bitmap_blocks,
            self.data_bitmap.start() == self.inode_area_start + self.inode_area_blocks,
            self.data_bitmap.num_blocks() == self.data_bitmap_blocks,
            self.data_bitmap.num_bits() == self.data_area_blocks,
            self.data_area_start == self.data_bitmap.start() + self.data_bitmap_blocks,
            self.data_area_start + self.data_area_blocks <= self.total_blocks,
            self.total_blocks <= self@.len(),
            self@.len() <= usize::MAX,
            self.max_inodes >= 1,
            self.max_inodes <= self.inode_area_blocks * 3,
            self.inode_bitmap_blocks >= 1,
            sb_dec(self@[0].take(24)) == (SuperBlock {
                magic: EFS_MAGIC,
                total_blocks: self.total_blocks,
                inode_bitmap_blocks: self.inode_bitmap_blocks,
                inode_area_blocks: self.inode_area_blocks,
                data_bitmap_blocks: self.data_bitmap_blocks,
                data_area_blocks: self.data_area_blocks,
            }),
            forall|i: int|
                1 <= i < self.total_blocks ==> #[trigger] self@[i] =~= crate::disk::zero_block(),
        ensures
            self.layout_wf(),
            forall|n: int| 0 <= n < self.max_inodes ==> !self.ino_alloc(n),
            forall|b: int| self.in_data_area(b) ==> !self.data_bit(b),
    {
        assert forall|n: int| 0 <= n < self.max_inodes implies !self.ino_alloc(n) by {
            self.lemma_zero_image_bit(self@, 1, self.inode_bitmap_blocks as int, n);
        }
        assert forall|b: int| self.in_data_area(b) implies !self.data_bit(b) by {
            self.lemma_zero_image_bit(
                self@,
                self.data_bitmap.start(),
                self.data_bitmap_blocks as int,
                b - self.data_area_start,
            );
        }
    }
}

} // verus!

verus! {

/// Zeroes the first `total` blocks of the cache's view.
fn zero_range(cache: &mut BlockCache, total: usize)
    requires
        old(cache).wf(),
        total <= old(cache)@.len(),
    ensures
        final(cache).wf(),
        final(cache)@.len() == old(cache)@.len(),
        forall|i: int| 0 <= i < total ==> #[trigger] final(cache)@[i] =~= crate::disk::zero_block(),
        forall|i: int| total <= i < old(cache)@.len() ==> final(cache)@[i] == old(cache)@[i],
{
    let mut zeros: Vec<u8> = Vec::new();
    let mut k: usize = 0;
    while k < BLOCK_SZ
        invariant
            k <= BLOCK_SZ,
            zeros@.len() == k,
            forall|i: int| 0 <= i < k ==> zeros@[i] == 0u8,
        decreases BLOCK_SZ - k,
    {
        zeros.push(0u8);
        k += 1;
    }
    let mut b: usize = 0;
    while b < total
        invariant
            cache.wf(),
            cache@.len() == old(cache)@.len(),
            total <= cache@.len(),
            b <= total,
            zeros@.len() == BLOCK_SZ,
            forall|i: int| 0 <= i < BLOCK_SZ ==> zeros@[i] == 0u8,
            forall|i: int| 0 <= i < b ==> #[trigger] cache@[i] =~= crate::disk::zero_block(),
            forall|i: int| b <= i < cache@.len() ==> cache@[i] == old(cache)@[i],
        decreases total - b,
    {
        proof {
            cache.lemma_view_wf();
        }
        cache.write_range(b, 0, zeros.as_slice());
        proof {
            assert(cache@[b as int] =~= crate::disk::zero_block());
        }
        b += 1;
    }
}

} // verus!

verus! {

impl EasyFileSystem {
    /// The filesystem invariant survives an update of one allocated inode,
    /// provided the inode stays valid with its blocks drawn from the data
    /// area with set bits, every block referenced by some other inode is
    /// untouched, and the changed inode's references stay disjoint from
    /// everyone else's. Directory shape and entry facts for the changed
    /// inode are the caller's to prove.
    #[verifier::spinoff_prover]
    #[verifier::rlimit(100)]
    pub proof fn lemma_wf_after_inode_update(pre: &Self, fin: &Self, nn: int)
        requires
            pre.wf(),
            fin.layout_wf(),
            fin.same_layout(pre),
            fin@.len() == pre@.len(),
            0 <= nn < pre.max_inodes,
            pre.ino_alloc(nn),
            forall|m: int|
                0 <= m < pre.max_inodes ==> fin.ino_alloc(m) == pre.ino_alloc(m),
            forall|b: int| pre.in_data_area(b) && pre.data_bit(b) ==> fin.data_bit(b),
            forall|m: int|
                0 <= m < pre.max_inodes && m != nn ==> fin.inode_at(m) == pre.inode_at(m),
            forall|b: int, m: int|
                #![trigger fin@[b], refd(pre.inode_at(m), pre@, b)]
                0 <= b < pre@.len() && fin@[b] != pre@[b] && 0 <= m < pre.max_inodes && m != nn
                    && pre.ino_alloc(m) ==> !refd(pre.inode_at(m), pre@, b),
            inode_ok(fin.inode_at(nn), fin@),
            forall|b: int|
                #[trigger] refd(fin.inode_at(nn), fin@, b) ==> fin.in_data_area(b) && fin.data_bit(
                    b,
                ),
            fin.inode_at(nn).ty == DiskInodeType::Directory ==> fin.inode_at(nn).size as int % 32
                == 0,
            fin.inode_at(nn).parent < pre.max_inodes,
            // The changed inode still avoids everyone else's blocks.
            forall|b: int, m: int|
                #![trigger refd(fin.inode_at(nn), fin@, b), refd(pre.inode_at(m), pre@, b)]
                0 <= m < pre.max_inodes && m != nn && pre.ino_alloc(m) && refd(
                    fin.inode_at(nn),
                    fin@,
                    b,
                ) ==> !refd(pre.inode_at(m), pre@, b),
            // Directory facts for the changed inode, stated by the caller.
            fin.inode_at(nn).ty == DiskInodeType::Directory ==> fin.dir_wf(nn),
            nn == 0 ==> fin.inode_at(0).ty == DiskInodeType::Directory,
            forall|e1: int, e2: int|
                #![trigger dir_entries(fin.inode_at(nn), fin@)[e1], dir_entries(fin.inode_at(nn), fin@)[e2]]
                (fin.inode_at(nn).ty == DiskInodeType::Directory && 0 <= e1 < dir_entries(
                    fin.inode_at(nn),
                    fin@,
                ).len() && 0 <= e2 < dir_entries(fin.inode_at(nn), fin@).len() && e1 != e2)
                    ==> dir_entries(fin.inode_at(nn), fin@)[e1].ino != dir_entries(
                    fin.inode_at(nn),
                    fin@,
                )[e2].ino,
            // Every entry ino of the changed directory must already be named
            // nowhere else, except as it was named in the old state at the
            // same directory.
            forall|e: int, m: int, e2: int|
                #![trigger dir_entries(fin.inode_at(nn), fin@)[e], dir_entries(pre.inode_at(m), pre@)[e2]]
                (fin.inode_at(nn).ty == DiskInodeType::Directory && 0 <= e < dir_entries(
                    fin.inode_at(nn),
                    fin@,
                ).len() && 0 <= m < pre.max_inodes && m != nn && pre.ino_alloc(m) && pre.inode_at(
                    m,
                ).ty == DiskInodeType::Directory && 0 <= e2 < dir_entries(
                    pre.inode_at(m),
                    pre@,
                ).len()) ==> dir_entries(fin.inode_at(nn), fin@)[e].ino != dir_entries(
                    pre.inode_at(m),
                    pre@,
                )[e2].ino,
        ensures
            fin.wf(),
            forall|m: int|
                0 <= m < pre.max_inodes && pre.ino_alloc(m) && m != nn ==> file_bytes(
                    fin.inode_at(m),
                    fin@,
                ) == file_bytes(pre.inode_at(m), pre@) && dir_entries(fin.inode_at(m), fin@)
                    == dir_entries(pre.inode_at(m), pre@) && (forall|b2: int|
                    refd(fin.inode_at(m), fin@, b2) <==> refd(pre.inode_at(m), pre@, b2)),
    {
        reveal(EasyFileSystem::wf);
        assert forall|m: int|
            0 <= m < pre.max_inodes && pre.ino_alloc(m) && m != nn implies inode_ok(
            pre.inode_at(m),
            fin@,
        ) && (forall|b2: int| refd(pre.inode_at(m), fin@, b2) <==> refd(pre.inode_at(m), pre@, b2))
            && file_bytes(pre.inode_at(m), fin@) =~= file_bytes(pre.inode_at(m), pre@)
            && dir_entries(pre.inode_at(m), fin@) =~= dir_entries(pre.inode_at(m), pre@) by {
            assert(pre.inode_wf(m));
            let v = pre.inode_at(m);
            assert forall|b2: int| #[trigger] refd(v, pre@, b2) implies fin@[b2] == pre@[b2] by {
                if fin@[b2] != pre@[b2] {
                    assert(!refd(pre.inode_at(m), pre@, b2));
                }
            }
            crate::layout::lemma_inode_same(v, pre@, fin@);
        }
        assert forall|m: int|
            0 <= m < fin.max_inodes && fin.ino_alloc(m) implies #[trigger] fin.inode_wf(m) by {
            if m != nn {
                assert(pre.inode_wf(m));
                let v = pre.inode_at(m);
                assert forall|b2: int| #[trigger] refd(v, fin@, b2) implies fin.in_data_area(b2)
                    && fin.data_bit(b2) by {
                    assert(refd(v, pre@, b2));
                    assert(pre.data_bit(b2));
                }
            }
        }
        assert forall|m: int|
            0 <= m < fin.max_inodes && fin.ino_alloc(m) && fin.inode_at(m).ty
                == DiskInodeType::Directory implies #[trigger] fin.dir_wf(m) by {
            if m != nn {
                assert(pre.dir_wf(m));
                let es = dir_entries(fin.inode_at(m), fin@);
                assert(es == dir_entries(pre.inode_at(m), pre@));
                assert forall|e: int|
                    0 <= e < es.len() implies valid_name((#[trigger] es[e]).name) && 0 < es[e].ino
                    < fin.max_inodes && fin.ino_alloc(es[e].ino as int) by {
                    assert(pre.ino_alloc(es[e].ino as int));
                }
            }
        }
        assert(fin.inodes_disjoint()) by {
            assert forall|n1: int, n2: int, b: int|
                0 <= n1 < fin.max_inodes && 0 <= n2 < fin.max_inodes && n1 != n2 && fin.ino_alloc(
                    n1,
                ) && fin.ino_alloc(n2) && #[trigger] refd(fin.inode_at(n1), fin@, b) implies !(
            #[trigger] refd(fin.inode_at(n2), fin@, b)) by {
                if n1 == nn {
                    if refd(fin.inode_at(n2), fin@, b) {
                        assert(refd(pre.inode_at(n2), pre@, b));
                    }
                } else if n2 == nn {
                    assert(refd(pre.inode_at(n1), pre@, b));
                    if refd(fin.inode_at(nn), fin@, b) {
                        assert(!refd(pre.inode_at(n1), pre@, b));
                    }
                } else {
                    assert(refd(pre.inode_at(n1), pre@, b));
                    if refd(fin.inode_at(n2), fin@, b) {
                        assert(refd(pre.inode_at(n2), pre@, b));
                    }
                }
            }
        }
        assert(fin.entries_unique()) by {
            assert forall|n1: int, e1: int, n2: int, e2: int|
                #![trigger dir_entries(fin.inode_at(n1), fin@)[e1], dir_entries(fin.inode_at(n2), fin@)[e2]]
                (0 <= n1 < fin.max_inodes && 0 <= n2 < fin.max_inodes && fin.ino_alloc(n1)
                    && fin.ino_alloc(n2) && fin.inode_at(n1).ty == DiskInodeType::Directory
                    && fin.inode_at(n2).ty == DiskInodeType::Directory && 0 <= e1 < dir_entries(
                    fin.inode_at(n1),
                    fin@,
                ).len() && 0 <= e2 < dir_entries(fin.inode_at(n2), fin@).len() && (n1 != n2 || e1
                    != e2)) implies dir_entries(fin.inode_at(n1), fin@)[e1].ino != dir_entries(
                fin.inode_at(n2),
                fin@,
            )[e2].ino by {
                if n1 == nn && n2 == nn {
                } else if n1 == nn {
                    assert(dir_entries(fin.inode_at(n2), fin@) == dir_entries(
                        pre.inode_at(n2),
                        pre@,
                    ));
                } else if n2 == nn {
                    assert(dir_entries(fin.inode_at(n1), fin@) == dir_entries(
                        pre.inode_at(n1),
                        pre@,
                    ));
                } else {
                    assert(dir_entries(fin.inode_at(n1), fin@) == dir_entries(
                        pre.inode_at(n1),
                        pre@,
                    ));
                    assert(dir_entries(fin.inode_at(n2), fin@) == dir_entries(
                        pre.inode_at(n2),
                        pre@,
                    ));
                }
            }
        }
        assert(fin.ino_alloc(0));
        assert(fin.inode_at(0).ty == DiskInodeType::Directory) by {
            if nn != 0 {
                assert(fin.inode_at(0) == pre.inode_at(0));
            }
        }
    }
}

} // verus!

verus! {

impl EasyFileSystem {
    /// The layout facts follow from the invariant.
    pub proof fn lemma_wf_layout(&self)
        requires
            self.wf(),
        ensures
            self.layout_wf(),
            self.ino_alloc(0),
            self.inode_at(0).ty == DiskInodeType::Directory,
    {
        reveal(EasyFileSystem::wf);
    }

    /// Each allocated inode is well-formed under the invariant.
    pub proof fn lemma_wf_inode(&self, n: int)
        requires
            self.wf(),
            0 <= n < self.max_inodes,
            self.ino_alloc(n),
        ensures
            self.inode_wf(n),
    {
        reveal(EasyFileSystem::wf);
    }

    /// Each allocated directory is well-formed under the invariant.
    pub proof fn lemma_wf_dir(&self, n: int)
        requires
            self.wf(),
            0 <= n < self.max_inodes,
            self.ino_alloc(n),
            self.inode_at(n).ty == DiskInodeType::Directory,
        ensures
            self.dir_wf(n),
    {
        reveal(EasyFileSystem::wf);
    }

    /// Two allocated inodes never share a block, under the invariant.
    pub proof fn lemma_wf_disjoint(&self, n1: int, n2: int, b: int)
        requires
            self.wf(),
            0 <= n1 < self.max_inodes,
            0 <= n2 < self.max_inodes,
            n1 != n2,
            self.ino_alloc(n1),
            self.ino_alloc(n2),
            refd(self.inode_at(n1), self@, b),
        ensures
            !refd(self.inode_at(n2), self@, b),
    {
        reveal(EasyFileSystem::wf);
    }
}

} // verus!

verus! {

impl EasyFileSystem {
    /// A filesystem reopened from the flushed image of a well-formed one is
    /// well-formed again, and every inode, bitmap bit and directory reads as
    /// before: the contents are functions of the layout numbers and the
    /// image, and both carried over.
    pub proof fn lemma_reopen_wf(pre: &Self, fs: &Self)
        requires
            pre.wf(),
            fs.layout_wf(),
            fs@ == pre@,
            fs.max_inodes == pre.max_inodes,
        ensures
            fs.wf(),
            forall|n: int| fs.inode_at(n) == pre.inode_at(n),
            forall|n: int| fs.ino_alloc(n) == pre.ino_alloc(n),
            forall|b: int| fs.data_bit(b) == pre.data_bit(b),
            forall|n: int|
                0 <= n < pre.max_inodes ==> dir_entries(fs.inode_at(n), fs@) == dir_entries(
                    pre.inode_at(n),
                    pre@,
                ) && file_bytes(fs.inode_at(n), fs@) == file_bytes(pre.inode_at(n), pre@),
    {
        pre.lemma_wf_layout();
        // Both layouts decode the same stored superblock, so every region
        // number, and with it each bitmap descriptor, agrees.
        assert(sb_dec(fs@[0].take(24)) == sb_dec(pre@[0].take(24)));
        assert(fs.total_blocks == pre.total_blocks);
        assert(fs.inode_bitmap_blocks == pre.inode_bitmap_blocks);
        assert(fs.inode_area_blocks == pre.inode_area_blocks);
        assert(fs.data_bitmap_blocks == pre.data_bitmap_blocks);
        assert(fs.data_area_blocks == pre.data_area_blocks);
        assert(fs.inode_area_start == pre.inode_area_start);
        assert(fs.data_area_start == pre.data_area_start);
        assert(fs.inode_bitmap == pre.inode_bitmap);
        assert(fs.data_bitmap == pre.data_bitmap);
        assert(fs.same_layout(pre));
        crate::vfs::lemma_fs_identical(pre, fs);
        assert forall|n: int|
            0 <= n < pre.max_inodes implies dir_entries(fs.inode_at(n), fs@) == dir_entries(
            pre.inode_at(n),
            pre@,
        ) && file_bytes(fs.inode_at(n), fs@) == file_bytes(pre.inode_at(n), pre@) by {
            assert(fs.inode_at(n) == pre.inode_at(n));
        }
    }
}

} // verus!

verus! {

impl EasyFileSystem {
    /// How many of the first `n` data-area blocks have a clear bit.
    #[verifier::opaque]
    pub open spec fn free_data_below(&self, n: int) -> int
        decreases n,
    {
        if n <= 0 {
            0
        } else {
            self.free_data_below(n - 1) + (if self.data_bit(self.data_area_start + n - 1) {
                0int
            } else {
                1int
            })
        }
    }

    /// How many data blocks are free to allocate.
    pub open spec fn free_data(&self) -> int {
        self.free_data_below(self.data_area_blocks as int)
    }

    /// Free counts are never negative.
    pub proof fn lemma_free_nonneg(&self, n: int)
        ensures
            0 <= self.free_data_below(n),
        decreases n,
    {
        reveal(EasyFileSystem::free_data_below);
        if n > 0 {
            self.lemma_free_nonneg(n - 1);
        }
    }

    /// Setting one clear bit lowers the free count by exactly one.
    pub proof fn lemma_free_flip(fs1: &Self, fs2: &Self, b0: int, n: int)
        requires
            fs2.same_layout(fs1),
            fs1.in_data_area(b0),
            !fs1.data_bit(b0),
            fs2.data_bit(b0),
            forall|b: int|
                fs1.in_data_area(b) && b != b0 ==> fs2.data_bit(b) == fs1.data_bit(b),
            0 <= n <= fs1.data_area_blocks,
        ensures
            fs2.free_data_below(n) == fs1.free_data_below(n) - (if b0 < fs1.data_area_start + n {
                1int
            } else {
                0int
            }),
        decreases n,
    {
        reveal(EasyFileSystem::free_data_below);
        if n > 0 {
            Self::lemma_free_flip(fs1, fs2, b0, n - 1);
            let b = fs1.data_area_start + n - 1;
            if b != b0 {
                assert(fs2.data_bit(b) == fs1.data_bit(b));
            }
        }
    }

    /// With every data bit set, nothing is free.
    pub proof fn lemma_free_all_set(&self, n: int)
        requires
            forall|b: int| self.in_data_area(b) ==> self.data_bit(b),
            n <= self.data_area_blocks,
        ensures
            self.free_data_below(n) == 0,
        decreases n,
    {
        reveal(EasyFileSystem::free_data_below);
        if n > 0 {
            self.lemma_free_all_set(n - 1);
            assert(self.in_data_area(self.data_area_start + n - 1));
        }
    }

    /// Two states with equal data bits count the same free blocks.
    pub proof fn lemma_free_same(fs1: &Self, fs2: &Self, n: int)
        requires
            fs2.same_layout(fs1),
            forall|b: int| fs1.in_data_area(b) ==> fs2.data_bit(b) == fs1.data_bit(b),
            n <= fs1.data_area_blocks,
        ensures
            fs2.free_data_below(n) == fs1.free_data_below(n),
        decreases n,
    {
        reveal(EasyFileSystem::free_data_below);
        if n > 0 {
            Self::lemma_free_same(fs1, fs2, n - 1);
            if n - 1 < fs1.data_area_blocks {
                assert(fs1.in_data_area(fs1.data_area_start + n - 1));
            }
        }
    }
}

} // verus!

verus! {

impl EasyFileSystem {
    /// Two distinct directory entries never name the same inode, under the
    /// invariant.
    pub proof fn lemma_wf_unique(&self, n1: int, e1: int, n2: int, e2: int)
        requires
            self.wf(),
            0 <= n1 < self.max_inodes,
            0 <= n2 < self.max_inodes,
            self.ino_alloc(n1),
            self.ino_alloc(n2),
            self.inode_at(n1).ty == DiskInodeType::Directory,
            self.inode_at(n2).ty == DiskInodeType::Directory,
            0 <= e1 < dir_entries(self.inode_at(n1), self@).len(),
            0 <= e2 < dir_entries(self.inode_at(n2), self@).len(),
            n1 != n2 || e1 != e2,
        ensures
            dir_entries(self.inode_at(n1), self@)[e1].ino != dir_entries(
                self.inode_at(n2),
                self@,
            )[e2].ino,
    {
        reveal(EasyFileSystem::wf);
    }
}

} // verus!
