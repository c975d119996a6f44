//! On-disk records: the superblock, the disk inode with its three-tier block
//! index (28 direct pointers, one single-indirect and one double-indirect
//! block), and the 32-byte directory entry. Each record has an exact byte
//! encoding, and the inode offers logical-block lookup, size growth and
//! shrinkage, and byte-level reads and writes through the block cache.

use vstd::prelude::*;
use crate::BLOCK_SZ;
use crate::block_cache::BlockCache;
use crate::bytes::{u32_at, u32_byte, u32_le, lemma_u32_le_roundtrip, splice};

verus! {

/// Sentinel marking a valid filesystem image.
pub const EFS_MAGIC: u32 = 0x3b800001;

/// Number of direct block pointers in an inode.
pub const INODE_DIRECT_COUNT: usize = 28;

/// Entries in one indirect block (512 / 4).
pub const INODE_INDIRECT1_COUNT: usize = 128;

/// Data blocks reachable through direct plus single-indirect pointers.
pub const INDIRECT1_BOUND: usize = 156;

/// Most data blocks one inode can reference: 28 + 128 + 128 * 128.
pub const INODE_MAX_BLOCKS: usize = 16540;

/// Largest file size in bytes.
pub const INODE_MAX_SIZE: u32 = 8468480;

/// Size of one encoded disk inode.
pub const INODE_SZ: usize = 132;

/// Disk inodes stored per 512-byte block.
pub const INODES_PER_BLOCK: usize = 3;

/// Size of one encoded directory entry.
pub const DIRENT_SZ: usize = 32;

/// Longest directory-entry name, in bytes.
pub const NAME_LENGTH_LIMIT: usize = 27;

/// Whether an inode describes a regular file or a directory.
#[derive(Clone, Copy, PartialEq, Eq, Structural)]
pub enum DiskInodeType {
    File,
    Directory,
}

/// The mathematical value of a disk inode.
pub ghost struct InodeV {
    pub size: u32,
    pub direct: Seq<u32>,
    pub indirect1: u32,
    pub indirect2: u32,
    pub parent: u32,
    pub ty: DiskInodeType,
}

/// An on-disk index node: logical size, the block index in three tiers, the
/// parent directory's inode number, and the file-or-directory type.
pub struct DiskInode {
    pub size: u32,
    pub direct: Vec<u32>,
    pub indirect1: u32,
    pub indirect2: u32,
    pub parent: u32,
    pub type_: DiskInodeType,
}

impl View for DiskInode {
    type V = InodeV;

    open spec fn view(&self) -> InodeV {
        InodeV {
            size: self.size,
            direct: self.direct@,
            indirect1: self.indirect1,
            indirect2: self.indirect2,
            parent: self.parent,
            ty: self.type_,
        }
    }
}

/// Number of data blocks needed for `size` bytes.
pub open spec fn blocks_for(size: int) -> int {
    (size + 511) / 512
}

/// Number of second-level indirect blocks needed for `db` data blocks.
pub open spec fn l2_count(db: int) -> int {
    if db > INDIRECT1_BOUND {
        (db - INDIRECT1_BOUND + 127) / 128
    } else {
        0
    }
}

/// Data blocks plus the indirect blocks needed to index them, for `db` data
/// blocks.
pub open spec fn meta_total(db: int) -> int {
    db + (if db > INODE_DIRECT_COUNT {
        1int
    } else {
        0int
    }) + (if db > INDIRECT1_BOUND {
        1 + l2_count(db)
    } else {
        0int
    })
}

/// `meta_total` never shrinks as the data-block count grows.
pub proof fn lemma_meta_total_mono(a: int, b: int)
    requires
        0 <= a <= b,
    ensures
        meta_total(a) <= meta_total(b),
        a < b ==> meta_total(a) < meta_total(b),
{
    if a > INDIRECT1_BOUND {
        assert((a - INDIRECT1_BOUND + 127) / 128 <= (b - INDIRECT1_BOUND + 127) / 128) by {
            assert(a - INDIRECT1_BOUND + 127 <= b - INDIRECT1_BOUND + 127);
            vstd::arithmetic::div_mod::lemma_div_is_ordered(
                a - INDIRECT1_BOUND + 127,
                b - INDIRECT1_BOUND + 127,
                128,
            );
        }
    } else if b > INDIRECT1_BOUND {
        assert((b - INDIRECT1_BOUND + 127) / 128 >= 1) by {
            vstd::arithmetic::div_mod::lemma_div_is_ordered(128, b - INDIRECT1_BOUND + 127, 128);
        }
    }
}

/// The 33 words of an encoded inode, in encoding order.
pub open spec fn inode_words(v: InodeV) -> Seq<u32> {
    seq![v.size] + v.direct + seq![
        v.indirect1,
        v.indirect2,
        v.parent,
        if v.ty == DiskInodeType::Directory {
            1u32
        } else {
            0u32
        },
    ]
}

/// The 132-byte encoding of an inode value.
#[verifier::opaque]
pub open spec fn inode_enc(v: InodeV) -> Seq<u8> {
    Seq::new(INODE_SZ as nat, |i: int| u32_byte(inode_words(v)[i / 4], i % 4))
}

/// The inode value stored in 132 bytes.
#[verifier::opaque]
pub open spec fn inode_dec(b: Seq<u8>) -> InodeV {
    InodeV {
        size: u32_at(b, 0),
        direct: Seq::new(INODE_DIRECT_COUNT as nat, |k: int| u32_at(b, 4 + 4 * k)),
        indirect1: u32_at(b, 116),
        indirect2: u32_at(b, 120),
        parent: u32_at(b, 124),
        ty: if u32_at(b, 128) == 1 {
            DiskInodeType::Directory
        } else {
            DiskInodeType::File
        },
    }
}

/// An inode value with a well-formed shape: 28 direct slots and a size
/// within the indexing scheme's capacity.
pub open spec fn inode_shape(v: InodeV) -> bool {
    &&& v.direct.len() == INODE_DIRECT_COUNT
    &&& v.size <= INODE_MAX_SIZE
}

/// An encoded inode is 132 bytes.
pub proof fn lemma_inode_enc_len(v: InodeV)
    ensures
        inode_enc(v).len() == 132,
{
    reveal(inode_enc);
}

/// Reading a word out of an encoding gives the word back.
pub proof fn lemma_inode_enc_word(v: InodeV, j: int)
    requires
        0 <= j < 33,
    ensures
        u32_at(inode_enc(v), 4 * j) == inode_words(v)[j],
{
    reveal(inode_enc);
    let b = inode_enc(v);
    assert(b[4 * j] == u32_byte(inode_words(v)[(4 * j) / 4], (4 * j) % 4));
    assert((4 * j) / 4 == j && (4 * j) % 4 == 0) by (nonlinear_arith);
    assert((4 * j + 1) / 4 == j && (4 * j + 1) % 4 == 1) by (nonlinear_arith);
    assert((4 * j + 2) / 4 == j && (4 * j + 2) % 4 == 2) by (nonlinear_arith);
    assert((4 * j + 3) / 4 == j && (4 * j + 3) % 4 == 3) by (nonlinear_arith);
    lemma_u32_le_roundtrip(inode_words(v)[j]);
}

/// Decoding an encoding restores the inode value.
pub proof fn lemma_inode_roundtrip(v: InodeV)
    requires
        inode_shape(v),
    ensures
        inode_dec(inode_enc(v)) == v,
{
    reveal(inode_enc);
    reveal(inode_dec);
    let b = inode_enc(v);
    let w = inode_words(v);
    lemma_inode_enc_word(v, 0);
    assert(w[0] == v.size);
    assert forall|k: int| 0 <= k < INODE_DIRECT_COUNT implies u32_at(b, 4 + 4 * k)
        == v.direct[k] by {
        lemma_inode_enc_word(v, 1 + k);
        assert(4 * (1 + k) == 4 + 4 * k);
        assert(w[1 + k] == v.direct[k]);
    }
    lemma_inode_enc_word(v, 29);
    lemma_inode_enc_word(v, 30);
    lemma_inode_enc_word(v, 31);
    lemma_inode_enc_word(v, 32);
    assert(inode_dec(b).direct =~= v.direct);
    assert(inode_dec(b) == v);
}

impl DiskInode {
    /// Resets this inode to an empty file or directory with no blocks and no
    /// parent.
    pub fn initialize(&mut self, type_: DiskInodeType)
        ensures
            final(self)@ == (InodeV {
                size: 0,
                direct: Seq::new(INODE_DIRECT_COUNT as nat, |k: int| 0u32),
                indirect1: 0,
                indirect2: 0,
                parent: 0,
                ty: type_,
            }),
            inode_shape(final(self)@),
    {
        self.size = 0;
        let mut direct: Vec<u32> = Vec::new();
        let mut k: usize = 0;
        while k < INODE_DIRECT_COUNT
            invariant
                k <= INODE_DIRECT_COUNT,
                direct@.len() == k,
                forall|j: int| 0 <= j < k ==> direct@[j] == 0u32,
            decreases INODE_DIRECT_COUNT - k,
        {
            direct.push(0u32);
            k += 1;
        }
        self.direct = direct;
        self.indirect1 = 0;
        self.indirect2 = 0;
        self.parent = 0;
        self.type_ = type_;
        assert(self.direct@ =~= Seq::new(INODE_DIRECT_COUNT as nat, |k: int| 0u32));
    }

    pub fn is_dir(&self) -> (r: bool)
        ensures
            r == (self@.ty == DiskInodeType::Directory),
    {
        self.type_ == DiskInodeType::Directory
    }

    pub fn is_file(&self) -> (r: bool)
        ensures
            r == (self@.ty == DiskInodeType::File),
    {
        self.type_ == DiskInodeType::File
    }

    /// Number of data blocks the current size occupies.
    pub fn data_blocks(&self) -> (r: u32)
        requires
            self@.size <= INODE_MAX_SIZE,
        ensures
            r == blocks_for(self@.size as int),
    {
        (self.size + (BLOCK_SZ as u32 - 1)) / (BLOCK_SZ as u32)
    }

    /// Data blocks plus indirect overhead needed for a file of `size` bytes.
    pub fn total_blocks(size: u32) -> (r: u32)
        requires
            size <= INODE_MAX_SIZE,
        ensures
            r == meta_total(blocks_for(size as int)),
    {
        let data_blocks = (size + (BLOCK_SZ as u32 - 1)) / (BLOCK_SZ as u32);
        let mut total = data_blocks;
        if data_blocks > INODE_DIRECT_COUNT as u32 {
            total += 1;
        }
        if data_blocks > INDIRECT1_BOUND as u32 {
            total += 1;
            total += (data_blocks - INDIRECT1_BOUND as u32 + 127) / 128;
        }
        total
    }

    /// How many fresh blocks a growth to `new_size` requires; the caller
    /// must allocate exactly this many before calling `increase_size`.
    pub fn blocks_num_needed(&self, new_size: u32) -> (r: u32)
        requires
            new_size >= self@.size,
            new_size <= INODE_MAX_SIZE,
        ensures
            r == meta_total(blocks_for(new_size as int)) - meta_total(blocks_for(
                self@.size as int,
            )),
    {
        proof {
            lemma_meta_total_mono(blocks_for(self@.size as int), blocks_for(new_size as int));
        }
        Self::total_blocks(new_size) - Self::total_blocks(self.size)
    }

    /// Encodes this inode into its 132-byte on-disk form.
    pub fn encode(&self) -> (r: Vec<u8>)
        requires
            inode_shape(self@),
        ensures
            r@ =~= inode_enc(self@),
            r@.len() == INODE_SZ,
    {
        let w = inode_words_exec(self);
        let ghost ws = inode_words(self@);
        proof {
            reveal(inode_enc);
        }
        assert(w@ =~= ws);
        let mut r: Vec<u8> = Vec::new();
        let mut j: usize = 0;
        while j < 33
            invariant
                j <= 33,
                w@ =~= ws,
                w@.len() == 33,
                r@.len() == 4 * j,
                forall|i: int| 0 <= i < 4 * j ==> r@[i] == u32_byte(ws[i / 4], i % 4),
            decreases 33 - j,
        {
            let ghost r0 = r@;
            crate::bytes::push_u32(&mut r, w[j]);
            proof {
                assert forall|i: int| 0 <= i < 4 * (j + 1) implies r@[i] == u32_byte(
                    ws[i / 4],
                    i % 4,
                ) by {
                    if i < 4 * j {
                        assert(r@[i] == r0[i]);
                    } else {
                        let k = i - 4 * j;
                        assert(r@[i] == u32_le(ws[j as int])[k]);
                        assert(i / 4 == j && i % 4 == k) by (nonlinear_arith)
                            requires
                                4 * j <= i < 4 * j + 4 && k == i - 4 * j,
                        ;
                    }
                }
            }
            j += 1;
        }
        assert(r@ =~= inode_enc(self@));
        r
    }

    /// Decodes a 132-byte on-disk record into an inode.
    pub fn decode(b: &Vec<u8>) -> (r: DiskInode)
        requires
            b@.len() == INODE_SZ,
        ensures
            r@ == inode_dec(b@),
            r@.direct.len() == INODE_DIRECT_COUNT,
    {
        let size = crate::bytes::read_u32(b, 0);
        let mut direct: Vec<u32> = Vec::new();
        let mut k: usize = 0;
        while k < INODE_DIRECT_COUNT
            invariant
                k <= INODE_DIRECT_COUNT,
                b@.len() == INODE_SZ,
                direct@.len() == k,
                forall|j: int| 0 <= j < k ==> direct@[j] == u32_at(b@, 4 + 4 * j),
            decreases INODE_DIRECT_COUNT - k,
        {
            direct.push(crate::bytes::read_u32(b, 4 + 4 * k));
            k += 1;
        }
        let indirect1 = crate::bytes::read_u32(b, 116);
        let indirect2 = crate::bytes::read_u32(b, 120);
        let parent = crate::bytes::read_u32(b, 124);
        let tyw = crate::bytes::read_u32(b, 128);
        let type_ = if tyw == 1 {
            DiskInodeType::Directory
        } else {
            DiskInodeType::File
        };
        let r = DiskInode { size, direct, indirect1, indirect2, parent, type_ };
        proof {
            reveal(inode_dec);
        }
        assert(r@.direct =~= inode_dec(b@).direct);
        assert(r@ == inode_dec(b@));
        r
    }
}

/// The 33 words of an inode, in encoding order, as a vector.
fn inode_words_exec(d: &DiskInode) -> (r: Vec<u32>)
    requires
        inode_shape(d@),
    ensures
        r@ =~= inode_words(d@),
{
    let mut r: Vec<u32> = Vec::new();
    r.push(d.size);
    let mut k: usize = 0;
    while k < INODE_DIRECT_COUNT
        invariant
            k <= INODE_DIRECT_COUNT,
            d@.direct.len() == INODE_DIRECT_COUNT,
            r@.len() == 1 + k,
            r@[0] == d@.size,
            forall|j: int| 0 <= j < k ==> r@[1 + j] == d@.direct[j],
        decreases INODE_DIRECT_COUNT - k,
    {
        r.push(d.direct[k]);
        k += 1;
    }
    r.push(d.indirect1);
    r.push(d.indirect2);
    r.push(d.parent);
    if d.type_ == DiskInodeType::Directory {
        r.push(1u32);
    } else {
        r.push(0u32);
    }
    r
}

} // verus!

verus! {

/// The physical block holding data block `j` of the second-level table:
/// entry `j` of the double-indirect block.
pub open spec fn l2bid(v: InodeV, disk: Seq<Seq<u8>>, j: int) -> int {
    u32_at(disk[v.indirect2 as int], 4 * j) as int
}

/// The physical block holding the `i`-th logical data block of inode `v`,
/// read through the direct table, the single-indirect block, or the two
/// levels of the double-indirect table.
pub open spec fn dbid(v: InodeV, disk: Seq<Seq<u8>>, i: int) -> int {
    if i < INODE_DIRECT_COUNT {
        v.direct[i] as int
    } else if i < INDIRECT1_BOUND {
        u32_at(disk[v.indirect1 as int], 4 * (i - INODE_DIRECT_COUNT)) as int
    } else {
        u32_at(disk[l2bid(v, disk, (i - INDIRECT1_BOUND) / 128)], 4 * ((i - INDIRECT1_BOUND) % 128))
            as int
    }
}

/// Validity of the block index for the first `db` data blocks: every
/// referenced block lies inside the disk and past the superblock, and all
/// referenced blocks (data, the two indirect roots, and the second-level
/// indirect blocks) are pairwise distinct.
pub open spec fn inode_ok_upto(v: InodeV, disk: Seq<Seq<u8>>, db: int) -> bool {
    &&& inode_shape(v)
    &&& db <= INODE_MAX_BLOCKS
    &&& forall|i: int| 0 <= i < db ==> 0 < #[trigger] dbid(v, disk, i) < disk.len()
    &&& (db > INODE_DIRECT_COUNT ==> 0 < v.indirect1 < disk.len())
    &&& (db > INDIRECT1_BOUND ==> 0 < v.indirect2 < disk.len())
    &&& forall|j: int| 0 <= j < l2_count(db) ==> 0 < #[trigger] l2bid(v, disk, j) < disk.len()
    &&& forall|i: int, i2: int|
        0 <= i < db && 0 <= i2 < db && i != i2 ==> #[trigger] dbid(v, disk, i) != #[trigger] dbid(
            v,
            disk,
            i2,
        )
    &&& (db > INODE_DIRECT_COUNT ==> forall|i: int|
        0 <= i < db ==> #[trigger] dbid(v, disk, i) != v.indirect1)
    &&& (db > INDIRECT1_BOUND ==> forall|i: int|
        0 <= i < db ==> #[trigger] dbid(v, disk, i) != v.indirect2)
    &&& forall|i: int, j: int|
        0 <= i < db && 0 <= j < l2_count(db) ==> #[trigger] dbid(v, disk, i) != #[trigger] l2bid(
            v,
            disk,
            j,
        )
    &&& (db > INDIRECT1_BOUND ==> v.indirect1 != v.indirect2)
    &&& forall|j: int|
        0 <= j < l2_count(db) ==> #[trigger] l2bid(v, disk, j) != v.indirect1 && l2bid(v, disk, j)
            != v.indirect2
    &&& forall|j: int, j2: int|
        0 <= j < l2_count(db) && 0 <= j2 < l2_count(db) && j != j2 ==> #[trigger] l2bid(v, disk, j)
            != #[trigger] l2bid(v, disk, j2)
}

/// Validity of the whole block index of `v`.
pub open spec fn inode_ok(v: InodeV, disk: Seq<Seq<u8>>) -> bool {
    inode_ok_upto(v, disk, blocks_for(v.size as int))
}

/// Whether block `b` is referenced among the first `db` data blocks of `v`:
/// as a data block, an indirect root, or a second-level indirect block.
pub open spec fn refd_upto(v: InodeV, disk: Seq<Seq<u8>>, db: int, b: int) -> bool {
    ||| exists|i: int| 0 <= i < db && #[trigger] dbid(v, disk, i) == b
    ||| (db > INODE_DIRECT_COUNT && v.indirect1 == b)
    ||| (db > INDIRECT1_BOUND && v.indirect2 == b)
    ||| exists|j: int| 0 <= j < l2_count(db) && #[trigger] l2bid(v, disk, j) == b
}

/// Whether block `b` is referenced anywhere by inode `v`.
pub open spec fn refd(v: InodeV, disk: Seq<Seq<u8>>, b: int) -> bool {
    refd_upto(v, disk, blocks_for(v.size as int), b)
}

/// The file contents of inode `v`: its `size` bytes, read through the block
/// index.
pub open spec fn file_bytes(v: InodeV, disk: Seq<Seq<u8>>) -> Seq<u8> {
    Seq::new(v.size as nat, |p: int| disk[dbid(v, disk, p / 512)][p % 512])
}

/// Positions of logical data block `i` in the second-level table.
pub proof fn lemma_l2_index(db: int, i: int)
    requires
        INDIRECT1_BOUND <= i < db,
        db <= INODE_MAX_BLOCKS,
    ensures
        0 <= (i - INDIRECT1_BOUND) / 128 < l2_count(db),
        0 <= (i - INDIRECT1_BOUND) % 128 < 128,
        4 * ((i - INDIRECT1_BOUND) % 128) + 4 <= 512,
{
    let t = i - INDIRECT1_BOUND;
    assert(0 <= t / 128 && 0 <= t % 128 < 128 && t == 128 * (t / 128) + t % 128) by {
        vstd::arithmetic::div_mod::lemma_fundamental_div_mod(t, 128);
        vstd::arithmetic::div_mod::lemma_div_pos_is_pos(t, 128);
        vstd::arithmetic::div_mod::lemma_mod_bound(t, 128);
    }
    assert(t / 128 < l2_count(db)) by {
        let n = db - INDIRECT1_BOUND;
        assert(l2_count(db) == (n + 127) / 128);
        assert(t <= n - 1);
        vstd::arithmetic::div_mod::lemma_div_is_ordered(t, n - 1, 128);
        assert((128 + (n - 1)) / 128 == 1 + (n - 1) / 128) by {
            vstd::arithmetic::div_mod::lemma_div_plus_one(n - 1, 128);
        }
    }
}

/// A 4-byte aligned word write leaves every other aligned word of the block
/// unchanged.
pub proof fn lemma_u32_slot_splice(blk: Seq<u8>, a: int, x: u32, b: int)
    requires
        blk.len() == BLOCK_SZ,
        0 <= a,
        4 * a + 4 <= 512,
        0 <= b,
        4 * b + 4 <= 512,
        a != b,
    ensures
        u32_at(splice(blk, 4 * a, u32_le(x)), 4 * b) == u32_at(blk, 4 * b),
        u32_at(splice(blk, 4 * a, u32_le(x)), 4 * a) == x,
{
    let s = splice(blk, 4 * a, u32_le(x));
    assert(s[4 * b] == blk[4 * b] && s[4 * b + 1] == blk[4 * b + 1] && s[4 * b + 2] == blk[4 * b
        + 2] && s[4 * b + 3] == blk[4 * b + 3]);
    assert(s[4 * a] == u32_byte(x, 0) && s[4 * a + 1] == u32_byte(x, 1) && s[4 * a + 2]
        == u32_byte(x, 2) && s[4 * a + 3] == u32_byte(x, 3));
    lemma_u32_le_roundtrip(x);
}

/// A 4-byte aligned word write stores exactly that word.
pub proof fn lemma_u32_slot_write(blk: Seq<u8>, a: int, x: u32)
    requires
        blk.len() == BLOCK_SZ,
        0 <= a,
        4 * a + 4 <= 512,
    ensures
        u32_at(splice(blk, 4 * a, u32_le(x)), 4 * a) == x,
{
    let s = splice(blk, 4 * a, u32_le(x));
    assert(s[4 * a] == u32_byte(x, 0) && s[4 * a + 1] == u32_byte(x, 1) && s[4 * a + 2]
        == u32_byte(x, 2) && s[4 * a + 3] == u32_byte(x, 3));
    lemma_u32_le_roundtrip(x);
}

/// If two disks agree on the indirect blocks of `v` (up to `db` data
/// blocks), the block index of `v` reads the same on both.
pub proof fn lemma_map_frame(v: InodeV, d1: Seq<Seq<u8>>, d2: Seq<Seq<u8>>, db: int)
    requires
        inode_shape(v),
        0 <= db <= INODE_MAX_BLOCKS,
        d1.len() == d2.len(),
        db > INODE_DIRECT_COUNT ==> 0 <= v.indirect1 < d1.len() && d2[v.indirect1 as int]
            == d1[v.indirect1 as int],
        db > INDIRECT1_BOUND ==> 0 <= v.indirect2 < d1.len() && d2[v.indirect2 as int]
            == d1[v.indirect2 as int],
        forall|j: int|
            0 <= j < l2_count(db) ==> 0 <= #[trigger] l2bid(v, d1, j) < d1.len() && d2[l2bid(
                v,
                d1,
                j,
            )] == d1[l2bid(v, d1, j)],
    ensures
        forall|j: int| 0 <= j < l2_count(db) ==> #[trigger] l2bid(v, d2, j) == l2bid(v, d1, j),
        forall|i: int| 0 <= i < db ==> #[trigger] dbid(v, d2, i) == dbid(v, d1, i),
        forall|b: int| refd_upto(v, d2, db, b) <==> refd_upto(v, d1, db, b),
        inode_ok_upto(v, d1, db) ==> inode_ok_upto(v, d2, db),
{
    assert forall|j: int| 0 <= j < l2_count(db) implies #[trigger] l2bid(v, d2, j) == l2bid(
        v,
        d1,
        j,
    ) by {
        assert(l2_count(db) > 0 ==> db > INDIRECT1_BOUND);
    }
    assert forall|i: int| 0 <= i < db implies #[trigger] dbid(v, d2, i) == dbid(v, d1, i) by {
        if i < INODE_DIRECT_COUNT {
        } else if i < INDIRECT1_BOUND {
        } else {
            lemma_l2_index(db, i);
            let j = (i - INDIRECT1_BOUND) / 128;
            assert(l2bid(v, d2, j) == l2bid(v, d1, j));
            assert(d2[l2bid(v, d1, j)] == d1[l2bid(v, d1, j)]);
        }
    }
    assert forall|b: int| refd_upto(v, d2, db, b) <==> refd_upto(v, d1, db, b) by {
        if refd_upto(v, d2, db, b) {
            assert(refd_upto(v, d1, db, b));
        }
        if refd_upto(v, d1, db, b) {
            if exists|i: int| 0 <= i < db && #[trigger] dbid(v, d1, i) == b {
                let i = choose|i: int| 0 <= i < db && #[trigger] dbid(v, d1, i) == b;
                assert(dbid(v, d2, i) == b);
            } else if exists|j: int| 0 <= j < l2_count(db) && #[trigger] l2bid(v, d1, j) == b {
                let j = choose|j: int| 0 <= j < l2_count(db) && #[trigger] l2bid(v, d1, j) == b;
                assert(l2bid(v, d2, j) == b);
            }
            assert(refd_upto(v, d2, db, b));
        }
    }
}

/// Updating a block that `v` does not reference leaves the block index, the
/// validity, and the file contents of `v` unchanged.
pub proof fn lemma_unrefd_update(v: InodeV, d1: Seq<Seq<u8>>, b: int, data: Seq<u8>)
    requires
        inode_ok(v, d1),
        0 <= b < d1.len(),
        !refd(v, d1, b),
    ensures
        forall|i: int|
            0 <= i < blocks_for(v.size as int) ==> #[trigger] dbid(v, d1.update(b, data), i)
                == dbid(v, d1, i),
        forall|b2: int| refd(v, d1.update(b, data), b2) <==> refd(v, d1, b2),
        inode_ok(v, d1.update(b, data)),
        file_bytes(v, d1.update(b, data)) =~= file_bytes(v, d1),
{
    let db = blocks_for(v.size as int);
    let d2 = d1.update(b, data);
    lemma_map_frame(v, d1, d2, db);
    assert forall|p: int| 0 <= p < v.size implies file_bytes(v, d2)[p] == file_bytes(
        v,
        d1,
    )[p] by {
        let i = p / 512;
        assert(0 <= i < db && p % 512 < 512) by {
            vstd::arithmetic::div_mod::lemma_fundamental_div_mod(p, 512);
            vstd::arithmetic::div_mod::lemma_div_pos_is_pos(p, 512);
            vstd::arithmetic::div_mod::lemma_mod_bound(p, 512);
            assert(512 * (db - 1) < v.size ==> true);
            vstd::arithmetic::div_mod::lemma_div_is_ordered(p, v.size - 1, 512);
            assert((v.size - 1) / 512 < blocks_for(v.size as int)) by {
                vstd::arithmetic::div_mod::lemma_div_plus_one(v.size - 1, 512);
            }
        }
        assert(dbid(v, d2, i) == dbid(v, d1, i));
        assert(dbid(v, d1, i) != b);
        assert(d2[dbid(v, d1, i)] == d1[dbid(v, d1, i)]);
    }
}

/// A byte position within the file lies in a valid data block.
pub proof fn lemma_pos_block(size: int, p: int)
    requires
        0 <= p < size,
    ensures
        0 <= p / 512 < blocks_for(size),
        0 <= p % 512 < 512,
        p / 512 * 512 + p % 512 == p,
{
    vstd::arithmetic::div_mod::lemma_fundamental_div_mod(p, 512);
    vstd::arithmetic::div_mod::lemma_div_pos_is_pos(p, 512);
    vstd::arithmetic::div_mod::lemma_mod_bound(p, 512);
    vstd::arithmetic::div_mod::lemma_div_is_ordered(p, size - 1, 512);
    assert((512 + (size - 1)) / 512 == 1 + (size - 1) / 512) by {
        vstd::arithmetic::div_mod::lemma_div_plus_one(size - 1, 512);
    }
    assert((size + 511) / 512 == (size - 1) / 512 + 1);
}

impl DiskInode {
    /// The absolute block id of the `inner_id`-th data block of this inode.
    pub fn get_block_id(&self, cache: &mut BlockCache, inner_id: u32) -> (r: u32)
        requires
            old(cache).wf(),
            inode_ok(self@, old(cache)@),
            inner_id < blocks_for(self@.size as int),
        ensures
            final(cache).wf(),
            final(cache)@ == old(cache)@,
            r as int == dbid(self@, old(cache)@, inner_id as int),
    {
        let i = inner_id as usize;
        proof {
            old(cache).lemma_view_wf();
        }
        if i < INODE_DIRECT_COUNT {
            self.direct[i]
        } else if i < INDIRECT1_BOUND {
            cache.read_u32(self.indirect1 as usize, 4 * (i - INODE_DIRECT_COUNT))
        } else {
            let t = i - INDIRECT1_BOUND;
            proof {
                lemma_l2_index(blocks_for(self@.size as int), i as int);
            }
            let l2 = cache.read_u32(self.indirect2 as usize, 4 * (t / 128));
            assert(l2 as int == l2bid(self@, old(cache)@, t as int / 128));
            cache.read_u32(l2 as usize, 4 * (t % 128))
        }
    }
}

} // verus!

verus! {

impl DiskInode {
    /// Reads bytes starting at `offset` into the front of `buf`, clipped by
    /// the file size: fills `min(buf.len(), size - offset)` bytes and
    /// returns that count. Bytes of `buf` past the count are untouched.
    pub fn read_at(&self, cache: &mut BlockCache, offset: usize, buf: &mut Vec<u8>) -> (n: usize)
        requires
            old(cache).wf(),
            inode_ok(self@, old(cache)@),
        ensures
            final(cache).wf(),
            final(cache)@ == old(cache)@,
            n == if offset as int >= self@.size as int {
                0int
            } else if old(buf)@.len() <= self@.size - offset {
                old(buf)@.len() as int
            } else {
                self@.size - offset
            },
            final(buf)@.len() == old(buf)@.len(),
            forall|q: int|
                0 <= q < n ==> final(buf)@[q] == file_bytes(self@, old(cache)@)[offset + q],
            forall|q: int| n <= q < old(buf)@.len() ==> final(buf)@[q] == old(buf)@[q],
    {
        let size = self.size as usize;
        if offset >= size {
            return 0;
        }
        let n = if buf.len() <= size - offset {
            buf.len()
        } else {
            size - offset
        };
        let ghost d0 = old(cache)@;
        let mut p: usize = 0;
        while p < n
            invariant
                old(cache).wf(),
                cache.wf(),
                cache@ == d0,
                inode_ok(self@, d0),
                size == self@.size,
                offset + n <= size,
                p <= n,
                buf@.len() == old(buf)@.len(),
                n <= old(buf)@.len(),
                forall|q: int| 0 <= q < p ==> buf@[q] == file_bytes(self@, d0)[offset + q],
                forall|q: int| p <= q < old(buf)@.len() ==> buf@[q] == old(buf)@[q],
            decreases n - p,
        {
            let x = offset + p;
            proof {
                lemma_pos_block(self@.size as int, x as int);
                cache.lemma_view_wf();
            }
            let bid = self.get_block_id(cache, (x / BLOCK_SZ) as u32);
            let byte = cache.read_byte(bid as usize, x % BLOCK_SZ);
            assert(byte == file_bytes(self@, d0)[x as int]);
            buf[p] = byte;
            p += 1;
        }
        n
    }

    /// Writes `buf` at `offset`, clipped by the file size: stores
    /// `min(buf.len(), size - offset)` bytes and returns that count. Only
    /// this inode's data blocks change; its block index is untouched.
    pub fn write_at(&self, cache: &mut BlockCache, offset: usize, buf: &Vec<u8>) -> (n: usize)
        requires
            old(cache).wf(),
            inode_ok(self@, old(cache)@),
            offset <= self@.size,
        ensures
            final(cache).wf(),
            final(cache)@.len() == old(cache)@.len(),
            n == if buf@.len() <= self@.size - offset {
                buf@.len() as int
            } else {
                self@.size - offset
            },
            file_bytes(self@, final(cache)@) =~= splice(
                file_bytes(self@, old(cache)@),
                offset as int,
                buf@.take(n as int),
            ),
            inode_ok(self@, final(cache)@),
            forall|i: int|
                0 <= i < blocks_for(self@.size as int) ==> #[trigger] dbid(self@, final(cache)@, i)
                    == dbid(self@, old(cache)@, i),
            forall|b: int| refd(self@, final(cache)@, b) <==> refd(self@, old(cache)@, b),
            forall|b: int|
                0 <= b < old(cache)@.len() && final(cache)@[b] != old(cache)@[b] ==> exists|i: int|
                    0 <= i < blocks_for(self@.size as int) && #[trigger] dbid(self@, old(cache)@, i)
                        == b,
    {
        let size = self.size as usize;
        let n = if buf.len() <= size - offset {
            buf.len()
        } else {
            size - offset
        };
        let ghost d0 = old(cache)@;
        let ghost db = blocks_for(self@.size as int);
        let mut p: usize = 0;
        while p < n
            invariant
                cache.wf(),
                cache@.len() == d0.len(),
                inode_ok(self@, d0),
                inode_ok(self@, cache@),
                size == self@.size,
                offset + n <= size,
                n <= buf@.len(),
                p <= n,
                db == blocks_for(self@.size as int),
                forall|i: int|
                    0 <= i < db ==> #[trigger] dbid(self@, cache@, i) == dbid(self@, d0, i),
                forall|b: int| refd(self@, cache@, b) <==> refd(self@, d0, b),
                forall|b: int|
                    0 <= b < d0.len() && cache@[b] != d0[b] ==> exists|i: int|
                        0 <= i < db && #[trigger] dbid(self@, d0, i) == b,
                file_bytes(self@, cache@) =~= splice(
                    file_bytes(self@, d0),
                    offset as int,
                    buf@.take(p as int),
                ),
            decreases n - p,
        {
            let x = offset + p;
            proof {
                lemma_pos_block(self@.size as int, x as int);
                cache.lemma_view_wf();
            }
            let ghost d1 = cache@;
            let bid = self.get_block_id(cache, (x / BLOCK_SZ) as u32);
            let ghost i0 = x as int / 512;
            assert(bid as int == dbid(self@, d1, i0));
            cache.write_byte(bid as usize, x % BLOCK_SZ, buf[p]);
            proof {
                let d2 = cache@;
                let bb = bid as int;
                assert(d2 =~= d1.update(bb, d1[bb].update(x as int % 512, buf@[p as int])));
                // The written block is a data block, so the block index is
                // unchanged.
                lemma_map_frame(self@, d1, d2, db);
                assert forall|b: int|
                    0 <= b < d0.len() && d2[b] != d0[b] implies exists|i: int|
                    0 <= i < db && #[trigger] dbid(self@, d0, i) == b by {
                    if b != bb {
                        assert(d2[b] == d1[b]);
                    } else {
                        assert(dbid(self@, d0, i0) == bb);
                    }
                }
                assert forall|q: int|
                    0 <= q < self@.size implies file_bytes(self@, d2)[q] == splice(
                    file_bytes(self@, d0),
                    offset as int,
                    buf@.take(p + 1),
                )[q] by {
                    lemma_pos_block(self@.size as int, q);
                    let iq = q / 512;
                    assert(dbid(self@, d2, iq) == dbid(self@, d1, iq));
                    if dbid(self@, d1, iq) == bb {
                        assert(iq == i0);
                        assert(q == 512 * iq + q % 512);
                        assert(x as int == 512 * i0 + x as int % 512);
                        if q % 512 == x as int % 512 {
                            assert(q == x);
                            assert(file_bytes(self@, d2)[q] == buf@[p as int]);
                        } else {
                            assert(file_bytes(self@, d2)[q] == d1[bb][q % 512]);
                            assert(file_bytes(self@, d1)[q] == d1[bb][q % 512]);
                        }
                    } else {
                        assert(d2[dbid(self@, d1, iq)] == d1[dbid(self@, d1, iq)]);
                        assert(file_bytes(self@, d2)[q] == file_bytes(self@, d1)[q]);
                    }
                }
            }
            p += 1;
        }
        assert(buf@.take(n as int) == buf@.take(p as int));
        n
    }
}

} // verus!


verus! {

/// How many fresh blocks the step from `i` to `i + 1` data blocks consumes:
/// the data block itself plus any indirect block materialized at `i`.
pub open spec fn step_cost(i: int) -> int {
    1 + (if i == INODE_DIRECT_COUNT {
        1int
    } else {
        0int
    }) + (if i == INDIRECT1_BOUND {
        1int
    } else {
        0int
    }) + (if i >= INDIRECT1_BOUND && (i - INDIRECT1_BOUND) % 128 == 0 {
        1int
    } else {
        0int
    })
}

/// `meta_total` advances by exactly the step cost.
pub proof fn lemma_meta_total_step(i: int)
    requires
        0 <= i < INODE_MAX_BLOCKS,
    ensures
        meta_total(i + 1) == meta_total(i) + step_cost(i),
{
    if i >= INDIRECT1_BOUND {
        let t = i - INDIRECT1_BOUND;
        vstd::arithmetic::div_mod::lemma_fundamental_div_mod(t, 128);
        vstd::arithmetic::div_mod::lemma_div_pos_is_pos(t, 128);
        vstd::arithmetic::div_mod::lemma_mod_bound(t, 128);
        if i == INDIRECT1_BOUND {
            assert(l2_count(i + 1) == (1 + 127) / 128);
        } else {
            assert(l2_count(i) == (t + 127) / 128);
            assert(l2_count(i + 1) == (t + 128) / 128);
            assert((128 + t) / 128 == 1 + t / 128) by {
                vstd::arithmetic::div_mod::lemma_div_plus_one(t, 128);
            }
            if t % 128 == 0 {
                assert((t + 127) / 128 == t / 128) by {
                    vstd::arithmetic::div_mod::lemma_hoist_over_denominator(127, t / 128, 128);
                    assert(127int / 128 + t / 128 == (127 + 128 * (t / 128)) / 128);
                    assert(t + 127 == 127 + 128 * (t / 128));
                }
            } else {
                assert((t + 127) / 128 == t / 128 + 1) by {
                    vstd::arithmetic::div_mod::lemma_hoist_over_denominator(
                        t % 128 + 127,
                        t / 128,
                        128,
                    );
                    assert((t % 128 + 127) / 128 + t / 128 == (t % 128 + 127 + 128 * (t / 128))
                        / 128);
                    assert(t + 127 == t % 128 + 127 + 128 * (t / 128));
                    assert((t % 128 + 127) / 128 == 1) by {
                        assert(0 <= t % 128 - 1 < 128);
                        assert((t % 128 - 1) / 128 == 0) by {
                            vstd::arithmetic::div_mod::lemma_basic_div(t % 128 - 1, 128);
                        }
                        vstd::arithmetic::div_mod::lemma_div_plus_one(t % 128 - 1, 128);
                        assert(1 + (t % 128 - 1) / 128 == (128 + (t % 128 - 1)) / 128);
                    }
                }
            }
        }
    }
}

/// The block-index positions referenced up to `a` stay referenced up to
/// `a2 >= a`.
pub proof fn lemma_refs_mono(v: InodeV, d: Seq<Seq<u8>>, a: int, a2: int, b: int)
    requires
        0 <= a <= a2,
        refd_upto(v, d, a, b),
    ensures
        refd_upto(v, d, a2, b),
{
    if a > INDIRECT1_BOUND {
        vstd::arithmetic::div_mod::lemma_div_is_ordered(
            a - INDIRECT1_BOUND + 127,
            a2 - INDIRECT1_BOUND + 127,
            128,
        );
    }
    assert(l2_count(a) <= l2_count(a2));
}

/// A block drawn from the unconsumed part of `nbs` is not yet referenced.
pub proof fn lemma_fresh_unrefd(
    v0: InodeV,
    d0: Seq<Seq<u8>>,
    vc: InodeV,
    dc: Seq<Seq<u8>>,
    i: int,
    c: int,
    nbs: Seq<u32>,
    k: int,
)
    requires
        forall|b: int|
            refd_upto(vc, dc, i, b) ==> refd(v0, d0, b) || exists|l: int|
                0 <= l < c && #[trigger] nbs[l] == b,
        forall|k1: int, l1: int|
            0 <= k1 < nbs.len() && 0 <= l1 < nbs.len() && k1 != l1 ==> #[trigger] nbs[k1]
                != #[trigger] nbs[l1],
        forall|l: int| 0 <= l < nbs.len() ==> !refd(v0, d0, #[trigger] nbs[l] as int),
        0 <= c <= k < nbs.len(),
    ensures
        !refd_upto(vc, dc, i, nbs[k] as int),
{
    if refd_upto(vc, dc, i, nbs[k] as int) {
        assert(refd(v0, d0, nbs[k] as int) || exists|l: int|
            0 <= l < c && #[trigger] nbs[l] == nbs[k]);
    }
}

/// Blocks suitable for growing an inode against disk `d0`: in range,
/// pairwise distinct, and not yet referenced by `v0`.
pub open spec fn fresh_blocks(v0: InodeV, d0: Seq<Seq<u8>>, nbs: Seq<u32>) -> bool {
    &&& forall|k: int| 0 <= k < nbs.len() ==> 0 < #[trigger] nbs[k] < d0.len()
    &&& forall|k: int, l: int|
        0 <= k < nbs.len() && 0 <= l < nbs.len() && k != l ==> #[trigger] nbs[k]
            != #[trigger] nbs[l]
    &&& forall|k: int| 0 <= k < nbs.len() ==> !refd(v0, d0, #[trigger] nbs[k] as int)
}

/// Fresh blocks consumed before the data slot of index `ii`: any roots
/// materialized at the crossings.
pub open spec fn cb_of(ii: int, ca: int) -> int {
    ca + (if ii == INODE_DIRECT_COUNT {
        1int
    } else {
        0int
    }) + (if ii == INDIRECT1_BOUND {
        1int
    } else {
        0int
    })
}

/// Fresh blocks consumed before the data slot, counting a fresh
/// second-level indirect block as well.
pub open spec fn cc_of(ii: int, ca: int) -> int {
    cb_of(ii, ca) + (if ii >= INDIRECT1_BOUND && (ii - INDIRECT1_BOUND) % 128 == 0 {
        1int
    } else {
        0int
    })
}

/// The state an inode passes through while growing from `v0` on disk `d0`:
/// the first `ii` data blocks are valid, the old map is intact, everything
/// new came from the first `ca` fresh blocks, and no old data block has
/// been touched.
pub open spec fn grow_inv(
    v0: InodeV,
    d0: Seq<Seq<u8>>,
    va: InodeV,
    da: Seq<Seq<u8>>,
    ii: int,
    ca: int,
    nbs: Seq<u32>,
) -> bool {
    let db0 = blocks_for(v0.size as int);
    &&& inode_ok(v0, d0)
    &&& da.len() == d0.len()
    &&& va.size == v0.size
    &&& va.parent == v0.parent
    &&& va.ty == v0.ty
    &&& db0 <= ii <= INODE_MAX_BLOCKS
    &&& ca == meta_total(ii) - meta_total(db0)
    &&& 0 <= ca <= nbs.len()
    &&& inode_ok_upto(va, da, ii)
    &&& (forall|x: int| 0 <= x < db0 ==> #[trigger] dbid(va, da, x) == dbid(v0, d0, x))
    &&& (forall|b: int|
        refd_upto(va, da, ii, b) ==> refd(v0, d0, b) || exists|k: int|
            0 <= k < ca && #[trigger] nbs[k] as int == b)
    &&& (forall|b: int|
        0 <= b < d0.len() && da[b] != d0[b] ==> refd_upto(va, da, ii, b) && !(exists|x: int|
            0 <= x < db0 && #[trigger] dbid(v0, d0, x) == b))
    &&& (forall|j: int| 0 <= j < l2_count(db0) ==> #[trigger] l2bid(va, da, j) == l2bid(v0, d0, j))
    &&& (forall|j: int|
        l2_count(db0) <= j < l2_count(ii) ==> exists|k: int|
            0 <= k < ca && #[trigger] nbs[k] as int == #[trigger] l2bid(va, da, j))
    &&& (ii <= INODE_DIRECT_COUNT || db0 > INODE_DIRECT_COUNT || va.indirect1 as int == nbs[
        meta_total(INODE_DIRECT_COUNT as int + 1) - meta_total(db0) - 2] as int)
    &&& (ii <= INODE_DIRECT_COUNT || db0 <= INODE_DIRECT_COUNT || va.indirect1 == v0.indirect1)
    &&& (ii <= INDIRECT1_BOUND || db0 > INDIRECT1_BOUND || va.indirect2 as int == nbs[meta_total(
        INDIRECT1_BOUND as int + 1,
    ) - meta_total(db0) - 3] as int)
    &&& (ii <= INDIRECT1_BOUND || db0 <= INDIRECT1_BOUND || va.indirect2 == v0.indirect2)
}

/// Group counts grow with the data-block count.
pub proof fn lemma_l2_count_mono(a: int, b: int)
    requires
        0 <= a <= b,
    ensures
        l2_count(a) <= l2_count(b),
{
    if a > INDIRECT1_BOUND {
        vstd::arithmetic::div_mod::lemma_div_is_ordered(
            a - INDIRECT1_BOUND + 127,
            b - INDIRECT1_BOUND + 127,
            128,
        );
    } else if b > INDIRECT1_BOUND {
        vstd::arithmetic::div_mod::lemma_div_pos_is_pos(b - INDIRECT1_BOUND + 127, 128);
    }
}

/// One growth step: after placing the data slot for index `ii` (and any
/// roots its crossing required), the growth invariant advances to `ii + 1`.
#[verifier::spinoff_prover]
#[verifier::rlimit(100)]
pub proof fn lemma_grow_step(
    v0: InodeV,
    d0: Seq<Seq<u8>>,
    va: InodeV,
    da: Seq<Seq<u8>>,
    vd: InodeV,
    dd: Seq<Seq<u8>>,
    ii: int,
    ca: int,
    nbs: Seq<u32>,
)
    requires
        fresh_blocks(v0, d0, nbs),
        grow_inv(v0, d0, va, da, ii, ca, nbs),
        ii < INODE_MAX_BLOCKS,
        meta_total(ii + 1) - meta_total(blocks_for(v0.size as int)) <= nbs.len(),
        vd.size == va.size,
        vd.parent == va.parent,
        vd.ty == va.ty,
        vd.direct.len() == INODE_DIRECT_COUNT,
        vd.indirect1 as int == (if ii == INODE_DIRECT_COUNT {
            nbs[ca] as int
        } else {
            va.indirect1 as int
        }),
        vd.indirect2 as int == (if ii == INDIRECT1_BOUND {
            nbs[cb_of(ii, ca) - 1] as int
        } else {
            va.indirect2 as int
        }),
        dd.len() == da.len(),
        forall|x: int| 0 <= x < ii ==> #[trigger] dbid(vd, dd, x) == dbid(va, da, x),
        dbid(vd, dd, ii) == nbs[cc_of(ii, ca)] as int,
        forall|j: int| 0 <= j < l2_count(ii) ==> #[trigger] l2bid(vd, dd, j) == l2bid(va, da, j),
        (ii >= INDIRECT1_BOUND && (ii - INDIRECT1_BOUND) % 128 == 0) ==> l2bid(
            vd,
            dd,
            l2_count(ii),
        ) == nbs[cb_of(ii, ca)] as int,
        forall|b: int|
            0 <= b < d0.len() && dd[b] != da[b] ==> (INODE_DIRECT_COUNT <= ii < INDIRECT1_BOUND
                && b == vd.indirect1 as int) || (ii >= INDIRECT1_BOUND && (b == vd.indirect2 as int
                || b == l2bid(vd, dd, (ii - INDIRECT1_BOUND) / 128))),
    ensures
        grow_inv(v0, d0, vd, dd, ii + 1, meta_total(ii + 1) - meta_total(blocks_for(v0.size as int)), nbs),
{
    let db0 = blocks_for(v0.size as int);
    let cb = cb_of(ii, ca);
    let cc = cc_of(ii, ca);
    let c = cc + 1;
    lemma_meta_total_step(ii);
    assert(c == meta_total(ii + 1) - meta_total(db0));
    lemma_l2_count_mono(db0, ii);
    assert(l2_count(ii + 1) == l2_count(ii) + (if ii >= INDIRECT1_BOUND && (ii - INDIRECT1_BOUND)
        % 128 == 0 {
        1int
    } else {
        0int
    }));
    let cross = ii >= INDIRECT1_BOUND && (ii - INDIRECT1_BOUND) % 128 == 0;
    if ii >= INDIRECT1_BOUND {
        lemma_l2_index(ii + 1, ii);
    }
    // Witness transfer from the pre-step state to the post-step one.
    assert forall|b: int| refd_upto(va, da, ii, b) implies refd_upto(vd, dd, ii + 1, b) by {
        if exists|x: int| 0 <= x < ii && #[trigger] dbid(va, da, x) == b {
            let x = choose|x: int| 0 <= x < ii && #[trigger] dbid(va, da, x) == b;
            assert(dbid(vd, dd, x) == b);
        } else if exists|j: int| 0 <= j < l2_count(ii) && #[trigger] l2bid(va, da, j) == b {
            let j = choose|j: int| 0 <= j < l2_count(ii) && #[trigger] l2bid(va, da, j) == b;
            assert(l2bid(vd, dd, j) == b);
        }
    }
    // Everything now referenced is old or consumed.
    assert forall|b: int| refd_upto(vd, dd, ii + 1, b) implies refd(v0, d0, b) || exists|k: int|
        0 <= k < c && #[trigger] nbs[k] as int == b by {
        if exists|x: int| 0 <= x < ii + 1 && #[trigger] dbid(vd, dd, x) == b {
            let x = choose|x: int| 0 <= x < ii + 1 && #[trigger] dbid(vd, dd, x) == b;
            if x == ii {
                assert(nbs[cc] as int == b);
            } else {
                assert(dbid(va, da, x) == b);
                assert(refd_upto(va, da, ii, b));
            }
        } else if ii + 1 > INODE_DIRECT_COUNT && vd.indirect1 as int == b {
            if ii == INODE_DIRECT_COUNT {
                assert(nbs[ca] as int == b);
            } else {
                assert(refd_upto(va, da, ii, b));
            }
        } else if ii + 1 > INDIRECT1_BOUND && vd.indirect2 as int == b {
            if ii == INDIRECT1_BOUND {
                assert(nbs[cb - 1] as int == b);
            } else {
                assert(refd_upto(va, da, ii, b));
            }
        } else if exists|j: int| 0 <= j < l2_count(ii + 1) && #[trigger] l2bid(vd, dd, j) == b {
            let j = choose|j: int| 0 <= j < l2_count(ii + 1) && #[trigger] l2bid(vd, dd, j) == b;
            if j < l2_count(ii) {
                assert(l2bid(va, da, j) == b);
                assert(refd_upto(va, da, ii, b));
            } else {
                assert(cross && j == l2_count(ii));
                assert(nbs[cb] as int == b);
            }
        }
    }
    let nb = nbs[cc] as int;
    assert(!refd_upto(va, da, ii, nb)) by {
        lemma_fresh_unrefd(v0, d0, va, da, ii, ca, nbs, cc);
    }
    // Validity at the wider level.
    assert(inode_ok_upto(vd, dd, ii + 1)) by {
        assert forall|x: int| 0 <= x < ii + 1 implies 0 < #[trigger] dbid(vd, dd, x)
            < dd.len() by {}
        assert forall|x: int, x2: int|
            0 <= x < ii + 1 && 0 <= x2 < ii + 1 && x != x2 implies #[trigger] dbid(vd, dd, x)
            != #[trigger] dbid(vd, dd, x2) by {
            if x2 == ii && x < ii {
                assert(refd_upto(va, da, ii, dbid(va, da, x)));
            } else if x == ii && x2 < ii {
                assert(refd_upto(va, da, ii, dbid(va, da, x2)));
            }
        }
        if ii + 1 > INODE_DIRECT_COUNT {
            assert forall|x: int| 0 <= x < ii + 1 implies #[trigger] dbid(vd, dd, x)
                != vd.indirect1 by {
                if ii == INODE_DIRECT_COUNT {
                    if x < ii {
                        assert(refd_upto(va, da, ii, dbid(va, da, x)));
                        lemma_fresh_unrefd(v0, d0, va, da, ii, ca, nbs, ca);
                    }
                } else {
                    assert(refd_upto(va, da, ii, va.indirect1 as int));
                    if x < ii {
                        assert(dbid(vd, dd, x) == dbid(va, da, x));
                        assert(dbid(va, da, x) != va.indirect1);
                    }
                }
            }
        }
        if ii + 1 > INDIRECT1_BOUND {
            assert forall|x: int| 0 <= x < ii + 1 implies #[trigger] dbid(vd, dd, x)
                != vd.indirect2 by {
                if ii == INDIRECT1_BOUND {
                    if x < ii {
                        assert(refd_upto(va, da, ii, dbid(va, da, x)));
                        lemma_fresh_unrefd(v0, d0, va, da, ii, ca, nbs, cb - 1);
                    }
                } else {
                    assert(refd_upto(va, da, ii, va.indirect2 as int));
                    if x < ii {
                        assert(dbid(vd, dd, x) == dbid(va, da, x));
                        assert(dbid(va, da, x) != va.indirect2);
                    }
                }
            }
        }
        assert forall|x: int, j: int|
            0 <= x < ii + 1 && 0 <= j < l2_count(ii + 1) implies #[trigger] dbid(vd, dd, x)
            != #[trigger] l2bid(vd, dd, j) by {
            if j < l2_count(ii) {
                if x == ii {
                    assert(refd_upto(va, da, ii, l2bid(va, da, j)));
                }
            } else {
                assert(cross && l2bid(vd, dd, j) == nbs[cb] as int);
                if x == ii {
                } else {
                    assert(refd_upto(va, da, ii, dbid(va, da, x)));
                    lemma_fresh_unrefd(v0, d0, va, da, ii, ca, nbs, cb);
                }
            }
        }
        assert forall|j: int, j2: int|
            0 <= j < l2_count(ii + 1) && 0 <= j2 < l2_count(ii + 1) && j != j2 implies #[trigger]
        l2bid(vd, dd, j) != #[trigger] l2bid(vd, dd, j2) by {
            if j2 >= l2_count(ii) && j < l2_count(ii) {
                assert(l2bid(vd, dd, j2) == nbs[cb] as int);
                assert(refd_upto(va, da, ii, l2bid(va, da, j)));
                lemma_fresh_unrefd(v0, d0, va, da, ii, ca, nbs, cb);
            } else if j >= l2_count(ii) && j2 < l2_count(ii) {
                assert(l2bid(vd, dd, j) == nbs[cb] as int);
                assert(refd_upto(va, da, ii, l2bid(va, da, j2)));
                lemma_fresh_unrefd(v0, d0, va, da, ii, ca, nbs, cb);
            }
        }
        assert forall|j: int|
            0 <= j < l2_count(ii + 1) implies #[trigger] l2bid(vd, dd, j) != vd.indirect1 && l2bid(
            vd,
            dd,
            j,
        ) != vd.indirect2 by {
            if j >= l2_count(ii) {
                assert(l2bid(vd, dd, j) == nbs[cb] as int);
                assert(ii >= INDIRECT1_BOUND);
                if ii == INDIRECT1_BOUND {
                    assert(vd.indirect2 as int == nbs[cb - 1] as int);
                } else {
                    assert(refd_upto(va, da, ii, va.indirect2 as int));
                }
                assert(refd_upto(va, da, ii, va.indirect1 as int));
                lemma_fresh_unrefd(v0, d0, va, da, ii, ca, nbs, cb);
            }
        }
    }
    // The old map is intact.
    assert forall|x: int| 0 <= x < db0 implies #[trigger] dbid(vd, dd, x) == dbid(v0, d0, x) by {}
    // Group bookkeeping.
    assert forall|j: int| 0 <= j < l2_count(db0) implies #[trigger] l2bid(vd, dd, j) == l2bid(
        v0,
        d0,
        j,
    ) by {}
    assert forall|j: int| l2_count(db0) <= j < l2_count(ii + 1) implies exists|k: int|
        0 <= k < c && #[trigger] nbs[k] as int == #[trigger] l2bid(vd, dd, j) by {
        if j < l2_count(ii) {
            let k = choose|k: int| 0 <= k < ca && #[trigger] nbs[k] as int == l2bid(va, da, j);
            assert(0 <= k < c && nbs[k] as int == l2bid(vd, dd, j));
        } else {
            assert(nbs[cb] as int == l2bid(vd, dd, j));
        }
    }
    // Frame: changed blocks are referenced and are not old data blocks.
    assert forall|b: int|
        0 <= b < d0.len() && dd[b] != d0[b] implies refd_upto(vd, dd, ii + 1, b) && !(exists|x: int|
            0 <= x < db0 && #[trigger] dbid(v0, d0, x) == b) by {
        if da[b] != d0[b] {
            assert(refd_upto(va, da, ii, b));
            assert(refd_upto(vd, dd, ii + 1, b));
        } else {
            assert(dd[b] != da[b]);
            if INODE_DIRECT_COUNT <= ii < INDIRECT1_BOUND && b == vd.indirect1 as int {
                assert(refd_upto(vd, dd, ii + 1, b));
                if db0 > INODE_DIRECT_COUNT {
                    assert(vd.indirect1 == v0.indirect1);
                    assert forall|x: int| 0 <= x < db0 implies #[trigger] dbid(v0, d0, x)
                        != b by {}
                } else {
                    assert(vd.indirect1 as int == nbs[(if ii == INODE_DIRECT_COUNT {
                        ca
                    } else {
                        meta_total(INODE_DIRECT_COUNT as int + 1) - meta_total(db0) - 2
                    })] as int);
                    assert(!refd(v0, d0, b));
                }
            } else if ii >= INDIRECT1_BOUND && b == vd.indirect2 as int {
                assert(refd_upto(vd, dd, ii + 1, b));
                if db0 > INDIRECT1_BOUND {
                    assert(vd.indirect2 == v0.indirect2);
                    assert forall|x: int| 0 <= x < db0 implies #[trigger] dbid(v0, d0, x)
                        != b by {}
                } else {
                    assert(vd.indirect2 as int == nbs[(if ii == INDIRECT1_BOUND {
                        cb - 1
                    } else {
                        meta_total(INDIRECT1_BOUND as int + 1) - meta_total(db0) - 3
                    })] as int);
                    assert(!refd(v0, d0, b));
                }
            } else {
                let g = (ii - INDIRECT1_BOUND) / 128;
                assert(ii >= INDIRECT1_BOUND && b == l2bid(vd, dd, g));
                assert(g < l2_count(ii + 1));
                assert(refd_upto(vd, dd, ii + 1, b));
                if cross {
                    assert(g == l2_count(ii)) by {
                        if ii > INDIRECT1_BOUND {
                            assert(ii - INDIRECT1_BOUND + 127 == 127 + 128 * g);
                            vstd::arithmetic::div_mod::lemma_hoist_over_denominator(127, g, 128);
                        }
                    }
                    assert(b == nbs[cb] as int);
                    assert(!refd(v0, d0, b));
                } else {
                    assert(g < l2_count(ii)) by {
                        assert(ii - INDIRECT1_BOUND + 127 == (ii - INDIRECT1_BOUND) % 128 + 127
                            + 128 * g);
                        assert(128 <= (ii - INDIRECT1_BOUND) % 128 + 127 < 256);
                        vstd::arithmetic::div_mod::lemma_hoist_over_denominator(
                            (ii - INDIRECT1_BOUND) % 128 + 127,
                            g,
                            128,
                        );
                        vstd::arithmetic::div_mod::lemma_div_plus_one(
                            (ii - INDIRECT1_BOUND) % 128 - 1,
                            128,
                        );
                        vstd::arithmetic::div_mod::lemma_basic_div(
                            (ii - INDIRECT1_BOUND) % 128 - 1,
                            128,
                        );
                    }
                    assert(l2bid(vd, dd, g) == l2bid(va, da, g));
                    if g < l2_count(db0) {
                        assert(l2bid(va, da, g) == l2bid(v0, d0, g));
                        assert forall|x: int| 0 <= x < db0 implies #[trigger] dbid(v0, d0, x)
                            != b by {}
                    } else {
                        let k = choose|k: int|
                            0 <= k < ca && #[trigger] nbs[k] as int == l2bid(va, da, g);
                        assert(nbs[k] as int == b);
                        assert(!refd(v0, d0, b));
                    }
                }
            }
        }
    }
}

} // verus!

verus! {

impl DiskInode {
    /// Grows the file to `new_size`, materializing indirect levels as they
    /// become necessary and filling every new slot from `new_blocks`, which
    /// must hold exactly `blocks_num_needed(new_size)` fresh, distinct
    /// blocks. The old contents, and the old logical-to-physical map, are
    /// preserved; only indirect blocks of this inode are written.
    #[verifier::spinoff_prover]
    #[verifier::rlimit(100)]
    pub fn increase_size(&mut self, cache: &mut BlockCache, new_size: u32, new_blocks: Vec<u32>)
        requires
            old(cache).wf(),
            inode_ok(old(self)@, old(cache)@),
            old(self)@.size <= new_size <= INODE_MAX_SIZE,
            new_blocks@.len() == meta_total(blocks_for(new_size as int)) - meta_total(
                blocks_for(old(self)@.size as int),
            ),
            fresh_blocks(old(self)@, old(cache)@, new_blocks@),
        ensures
            final(cache).wf(),
            final(cache)@.len() == old(cache)@.len(),
            final(self)@.size == new_size,
            final(self)@.parent == old(self)@.parent,
            final(self)@.ty == old(self)@.ty,
            inode_shape(final(self)@),
            inode_ok(final(self)@, final(cache)@),
            forall|x: int|
                0 <= x < blocks_for(old(self)@.size as int) ==> #[trigger] dbid(
                    final(self)@,
                    final(cache)@,
                    x,
                ) == dbid(old(self)@, old(cache)@, x),
            forall|b: int|
                refd(final(self)@, final(cache)@, b) ==> refd(old(self)@, old(cache)@, b)
                    || exists|k: int|
                    0 <= k < new_blocks@.len() && #[trigger] new_blocks@[k] as int == b,
            forall|b: int|
                0 <= b < old(cache)@.len() && final(cache)@[b] != old(cache)@[b] ==> refd(
                    final(self)@,
                    final(cache)@,
                    b,
                ) && !(exists|x: int|
                    0 <= x < blocks_for(old(self)@.size as int) && #[trigger] dbid(
                        old(self)@,
                        old(cache)@,
                        x,
                    ) == b),
            file_bytes(final(self)@, final(cache)@).subrange(0, old(self)@.size as int)
                =~= file_bytes(old(self)@, old(cache)@),
    {
        let ghost v0 = old(self)@;
        let ghost d0 = old(cache)@;
        let ghost db0 = blocks_for(v0.size as int);
        let ghost db1 = blocks_for(new_size as int);
        proof {
            lemma_meta_total_mono(db0, db1);
        }
        let first = self.data_blocks();
        let total = (new_size + (BLOCK_SZ as u32 - 1)) / (BLOCK_SZ as u32);
        let mut i: u32 = first;
        let mut c: usize = 0;
        while i < total
            invariant
                cache.wf(),
                fresh_blocks(v0, d0, new_blocks@),
                grow_inv(v0, d0, self@, cache@, i as int, c as int, new_blocks@),
                db0 == blocks_for(v0.size as int),
                db1 == blocks_for(new_size as int),
                new_size <= INODE_MAX_SIZE,
                v0.size <= new_size,
                total == db1,
                i <= total,
                new_blocks@.len() == meta_total(db1) - meta_total(db0),
            decreases total - i,
        {
            let ghost v_a = self@;
            let ghost d_a = cache@;
            let ghost c_a = c as int;
            proof {
                lemma_meta_total_step(i as int);
                lemma_meta_total_mono(i as int + 1, db1);
            }
            let iu = i as usize;
            let ghost ii = i as int;
            // Materialize the indirect roots at their crossings. Setting a
            // field touches no disk block, and no index at or before `i`
            // reads the field being set.
            if iu == INODE_DIRECT_COUNT {
                self.indirect1 = new_blocks[c];
                c += 1;
            }
            if iu == INDIRECT1_BOUND {
                self.indirect2 = new_blocks[c];
                c += 1;
            }
            let ghost v_b = self@;
            let ghost d_b = cache@;
            let ghost c_b = c as int;
            proof {
                assert(c_b == cb_of(ii, c_a));
                assert forall|x: int| 0 <= x < ii implies #[trigger] dbid(v_b, d_b, x) == dbid(
                    v_a,
                    d_a,
                    x,
                ) by {}
                assert forall|j: int| 0 <= j < l2_count(ii) implies #[trigger] l2bid(v_b, d_b, j)
                    == l2bid(v_a, d_a, j) by {
                    assert(ii > INDIRECT1_BOUND);
                }
            }
            // Install a fresh second-level indirect block when `i` opens a
            // new 128-entry group.
            if iu >= INDIRECT1_BOUND && (iu - INDIRECT1_BOUND) % 128 == 0 {
                let t = iu - INDIRECT1_BOUND;
                let ghost tt = t as int;
                proof {
                    vstd::arithmetic::div_mod::lemma_fundamental_div_mod(tt, 128);
                    vstd::arithmetic::div_mod::lemma_div_pos_is_pos(tt, 128);
                    assert(l2_count(ii) == tt / 128) by {
                        if ii > INDIRECT1_BOUND {
                            assert(tt + 127 == 127 + 128 * (tt / 128));
                            vstd::arithmetic::div_mod::lemma_hoist_over_denominator(
                                127,
                                tt / 128,
                                128,
                            );
                        }
                    }
                    assert(tt / 128 < l2_count(ii + 1)) by {
                        lemma_l2_index(ii + 1, ii);
                    }
                    assert(4 * (tt / 128) + 4 <= 512) by {
                        vstd::arithmetic::div_mod::lemma_div_is_ordered(tt, 16383, 128);
                    }
                    // The double-indirect root is distinct from the
                    // single-indirect root.
                    if ii == INDIRECT1_BOUND {
                        lemma_fresh_unrefd(v0, d0, v_a, d_a, ii, c_a, new_blocks@, c_b - 1);
                        assert(refd_upto(v_a, d_a, ii, v_a.indirect1 as int));
                    }
                    cache.lemma_view_wf();
                }
                let l2new = new_blocks[c];
                c += 1;
                cache.write_u32(self.indirect2 as usize, 4 * (t / 128), l2new);
                proof {
                    let ind2 = v_b.indirect2 as int;
                    let g = tt / 128;
                    assert(cache@ =~= d_b.update(ind2, splice(d_b[ind2], 4 * g, u32_le(l2new))));
                    assert(v_b.indirect1 != v_b.indirect2);
                    assert forall|j: int| 0 <= j < g implies #[trigger] l2bid(self@, cache@, j)
                        == l2bid(v_b, d_b, j) by {
                        lemma_u32_slot_splice(d_b[ind2], g, l2new, j);
                    }
                    assert(l2bid(self@, cache@, g) == l2new) by {
                        lemma_u32_slot_write(d_b[ind2], g, l2new);
                    }
                    assert forall|x: int| 0 <= x < ii implies #[trigger] dbid(self@, cache@, x)
                        == dbid(v_b, d_b, x) by {
                        if INODE_DIRECT_COUNT <= x < INDIRECT1_BOUND {
                            assert(cache@[v_b.indirect1 as int] == d_b[v_b.indirect1 as int]);
                        } else if x >= INDIRECT1_BOUND {
                            lemma_l2_index(ii, x);
                            let xj = (x - INDIRECT1_BOUND) / 128;
                            assert(xj < g) by {
                                vstd::arithmetic::div_mod::lemma_div_is_ordered(
                                    x - INDIRECT1_BOUND,
                                    tt - 1,
                                    128,
                                );
                                assert((tt - 1) / 128 == g - 1) by {
                                    assert(tt - 1 == 128 * (g - 1) + 127);
                                    vstd::arithmetic::div_mod::lemma_hoist_over_denominator(
                                        127,
                                        g - 1,
                                        128,
                                    );
                                }
                            }
                            assert(l2bid(self@, cache@, xj) == l2bid(v_b, d_b, xj));
                            assert(l2bid(v_b, d_b, xj) != ind2);
                            assert(cache@[l2bid(v_b, d_b, xj)] == d_b[l2bid(v_b, d_b, xj)]);
                        }
                    }
                }
            }
            let ghost v_c = self@;
            let ghost d_c = cache@;
            let ghost c_c = c as int;
            // Point the slot for data block `i` at a fresh block.
            let nb = new_blocks[c];
            c += 1;
            proof {
                assert(c_c == cc_of(ii, c_a));
                lemma_fresh_unrefd(v0, d0, v_a, d_a, ii, c_a, new_blocks@, c_c);
                cache.lemma_view_wf();
            }
            if iu < INODE_DIRECT_COUNT {
                self.direct[iu] = nb;
                proof {
                    assert forall|x: int| 0 <= x < ii implies #[trigger] dbid(self@, cache@, x)
                        == dbid(v_c, d_c, x) by {}
                    assert(dbid(self@, cache@, ii) == nb);
                }
            } else if iu < INDIRECT1_BOUND {
                proof {
                    assert(inode_ok_upto(v_c, d_c, ii) || ii == INODE_DIRECT_COUNT);
                    if ii == INODE_DIRECT_COUNT {
                        assert(0 < v_c.indirect1 < d_c.len());
                    }
                }
                cache.write_u32(self.indirect1 as usize, 4 * (iu - INODE_DIRECT_COUNT), nb);
                proof {
                    let ind1 = v_c.indirect1 as int;
                    let a = ii - INODE_DIRECT_COUNT;
                    assert(cache@ =~= d_c.update(ind1, splice(d_c[ind1], 4 * a, u32_le(nb))));
                    assert(dbid(self@, cache@, ii) == nb) by {
                        lemma_u32_slot_write(d_c[ind1], a, nb);
                    }
                    assert forall|x: int| 0 <= x < ii implies #[trigger] dbid(self@, cache@, x)
                        == dbid(v_c, d_c, x) by {
                        if INODE_DIRECT_COUNT <= x {
                            lemma_u32_slot_splice(d_c[ind1], a, nb, x - INODE_DIRECT_COUNT);
                        }
                    }
                }
            } else {
                let t = iu - INDIRECT1_BOUND;
                let ghost tt = t as int;
                proof {
                    lemma_l2_index(ii + 1, ii);
                    assert(0 < l2bid(v_c, d_c, tt / 128) < d_c.len()) by {
                        if tt % 128 == 0 {
                        } else {
                            assert(tt / 128 < l2_count(ii)) by {
                                vstd::arithmetic::div_mod::lemma_fundamental_div_mod(tt, 128);
                                assert(tt + 127 == 128 * (tt / 128) + (tt % 128 + 127));
                                vstd::arithmetic::div_mod::lemma_hoist_over_denominator(
                                    tt % 128 + 127,
                                    tt / 128,
                                    128,
                                );
                                vstd::arithmetic::div_mod::lemma_div_plus_one(tt % 128 - 1, 128);
                                vstd::arithmetic::div_mod::lemma_basic_div(tt % 128 - 1, 128);
                            }
                        }
                    }
                }
                let l2blk = cache.read_u32(self.indirect2 as usize, 4 * (t / 128));
                assert(l2blk as int == l2bid(v_c, d_c, tt / 128));
                cache.write_u32(l2blk as usize, 4 * (t % 128), nb);
                proof {
                    let lb = l2blk as int;
                    let m = tt % 128;
                    let g = tt / 128;
                    assert(cache@ =~= d_c.update(lb, splice(d_c[lb], 4 * m, u32_le(nb))));
                    assert(g < l2_count(ii) || (m == 0 && g == l2_count(ii))) by {
                        vstd::arithmetic::div_mod::lemma_fundamental_div_mod(tt, 128);
                        if m != 0 {
                            assert(tt + 127 == 128 * g + (m + 127));
                            vstd::arithmetic::div_mod::lemma_hoist_over_denominator(
                                m + 127,
                                g,
                                128,
                            );
                            vstd::arithmetic::div_mod::lemma_div_plus_one(m - 1, 128);
                            vstd::arithmetic::div_mod::lemma_basic_div(m - 1, 128);
                        } else {
                            if ii > INDIRECT1_BOUND {
                                assert(tt + 127 == 127 + 128 * g);
                                vstd::arithmetic::div_mod::lemma_hoist_over_denominator(
                                    127,
                                    g,
                                    128,
                                );
                            }
                        }
                    }
                    assert(lb != v_c.indirect2 as int && lb != v_c.indirect1 as int) by {
                        if g < l2_count(ii) {
                        } else {
                            assert(l2bid(v_c, d_c, g) == new_blocks@[c_b] as int);
                            lemma_fresh_unrefd(v0, d0, v_a, d_a, ii, c_a, new_blocks@, c_b);
                            assert(refd_upto(v_a, d_a, ii, v_a.indirect1 as int));
                            assert(v_c.indirect1 == v_a.indirect1);
                            if ii == INDIRECT1_BOUND {
                                assert(v_c.indirect2 as int == new_blocks@[c_b - 1] as int);
                            } else {
                                assert(refd_upto(v_a, d_a, ii, v_a.indirect2 as int));
                                assert(v_c.indirect2 == v_a.indirect2);
                            }
                        }
                    }
                    assert forall|j: int|
                        0 <= j < l2_count(ii + 1) implies #[trigger] l2bid(self@, cache@, j)
                        == l2bid(v_c, d_c, j) by {
                        assert(cache@[v_c.indirect2 as int] == d_c[v_c.indirect2 as int]);
                    }
                    assert(dbid(self@, cache@, ii) == nb) by {
                        lemma_u32_slot_write(d_c[lb], m, nb);
                    }
                    assert forall|x: int| 0 <= x < ii implies #[trigger] dbid(self@, cache@, x)
                        == dbid(v_c, d_c, x) by {
                        if INODE_DIRECT_COUNT <= x < INDIRECT1_BOUND {
                            assert(cache@[v_c.indirect1 as int] == d_c[v_c.indirect1 as int]);
                        } else if x >= INDIRECT1_BOUND {
                            lemma_l2_index(ii, x);
                            let xj = (x - INDIRECT1_BOUND) / 128;
                            let xm = (x - INDIRECT1_BOUND) % 128;
                            assert(l2bid(self@, cache@, xj) == l2bid(v_c, d_c, xj)) by {
                                lemma_l2_count_mono(ii, ii + 1);
                            }
                            if l2bid(v_c, d_c, xj) == lb {
                                assert(xj == g) by {
                                    if xj != g && g < l2_count(ii) {
                                        assert(l2bid(v_c, d_c, xj) != l2bid(v_c, d_c, g));
                                    }
                                    if xj != g && g >= l2_count(ii) {
                                        assert(l2bid(v_c, d_c, g) == new_blocks@[c_b] as int);
                                        lemma_fresh_unrefd(
                                            v0,
                                            d0,
                                            v_a,
                                            d_a,
                                            ii,
                                            c_a,
                                            new_blocks@,
                                            c_b,
                                        );
                                        assert(l2bid(v_a, d_a, xj) == l2bid(v_c, d_c, xj));
                                        assert(refd_upto(v_a, d_a, ii, l2bid(v_a, d_a, xj)));
                                    }
                                }
                                assert(xm != m) by {
                                    vstd::arithmetic::div_mod::lemma_fundamental_div_mod(tt, 128);
                                    vstd::arithmetic::div_mod::lemma_fundamental_div_mod(
                                        x - INDIRECT1_BOUND,
                                        128,
                                    );
                                }
                                lemma_u32_slot_splice(d_c[lb], m, nb, xm);
                            } else {
                                assert(cache@[l2bid(v_c, d_c, xj)] == d_c[l2bid(v_c, d_c, xj)]);
                            }
                        }
                    }
                }
            }
            proof {
                // All pieces are in place: advance the growth invariant.
                assert forall|x: int| 0 <= x < ii implies #[trigger] dbid(self@, cache@, x)
                    == dbid(v_a, d_a, x) by {}
                assert forall|j: int| 0 <= j < l2_count(ii) implies #[trigger] l2bid(
                    self@,
                    cache@,
                    j,
                ) == l2bid(v_a, d_a, j) by {
                    lemma_l2_count_mono(ii, ii + 1);
                }
                assert forall|b: int|
                    0 <= b < d0.len() && cache@[b] != d_a[b] implies (INODE_DIRECT_COUNT <= ii
                    < INDIRECT1_BOUND && b == self@.indirect1 as int) || (ii >= INDIRECT1_BOUND && (
                b == self@.indirect2 as int || b == l2bid(
                    self@,
                    cache@,
                    (ii - INDIRECT1_BOUND) / 128,
                ))) by {}
                lemma_grow_step(v0, d0, v_a, d_a, self@, cache@, ii, c_a, new_blocks@);
            }
            i += 1;
        }
        let ghost v_e = self@;
        let ghost d_e = cache@;
        self.size = new_size;
        proof {
            let vf = self@;
            let df = cache@;
            assert(df == d_e);
            assert(blocks_for(vf.size as int) == db1);
            assert forall|x: int| 0 <= x < db1 implies #[trigger] dbid(vf, df, x) == dbid(
                v_e,
                d_e,
                x,
            ) by {}
            assert forall|j: int| 0 <= j < l2_count(db1) implies #[trigger] l2bid(vf, df, j)
                == l2bid(v_e, d_e, j) by {}
            assert(inode_ok(vf, df)) by {
                assert(inode_ok_upto(v_e, d_e, db1));
            }
            assert forall|b: int| refd_upto(vf, df, db1, b) <==> refd_upto(v_e, d_e, db1, b) by {
                if exists|x: int| 0 <= x < db1 && #[trigger] dbid(vf, df, x) == b {
                    let x = choose|x: int| 0 <= x < db1 && #[trigger] dbid(vf, df, x) == b;
                    assert(dbid(v_e, d_e, x) == b);
                }
                if exists|x: int| 0 <= x < db1 && #[trigger] dbid(v_e, d_e, x) == b {
                    let x = choose|x: int| 0 <= x < db1 && #[trigger] dbid(v_e, d_e, x) == b;
                    assert(dbid(vf, df, x) == b);
                }
                if exists|j: int| 0 <= j < l2_count(db1) && #[trigger] l2bid(vf, df, j) == b {
                    let j = choose|j: int|
                        0 <= j < l2_count(db1) && #[trigger] l2bid(vf, df, j) == b;
                    assert(l2bid(v_e, d_e, j) == b);
                }
                if exists|j: int| 0 <= j < l2_count(db1) && #[trigger] l2bid(v_e, d_e, j) == b {
                    let j = choose|j: int|
                        0 <= j < l2_count(db1) && #[trigger] l2bid(v_e, d_e, j) == b;
                    assert(l2bid(vf, df, j) == b);
                }
            }
            // Old data blocks kept their bytes: every changed block is not
            // an old data block.
            assert forall|q: int| 0 <= q < v0.size implies file_bytes(vf, df)[q] == file_bytes(
                v0,
                d0,
            )[q] by {
                lemma_pos_block(v0.size as int, q);
                let x = q / 512;
                assert(dbid(vf, df, x) == dbid(v0, d0, x));
                assert(df[dbid(v0, d0, x)] == d0[dbid(v0, d0, x)]) by {
                    if df[dbid(v0, d0, x)] != d0[dbid(v0, d0, x)] {
                        assert(!(exists|x2: int|
                            0 <= x2 < db0 && #[trigger] dbid(v0, d0, x2) == dbid(v0, d0, x)));
                    }
                }
            }
            assert(file_bytes(vf, df).subrange(0, v0.size as int) =~= file_bytes(v0, d0));
        }
    }
}

} // verus!

verus! {

impl DiskInode {
    /// Shrinks the file to `new_size` and returns every block that the
    /// shrink orphans: the dropped data blocks plus the indirect blocks no
    /// longer needed. No disk block is written; the dropped slots of the
    /// inode itself are zeroed. The caller returns the orphans to the
    /// allocator.
    #[verifier::spinoff_prover]
    #[verifier::rlimit(100)]
    pub fn decrease_size(&mut self, cache: &mut BlockCache, new_size: u32) -> (r: Vec<u32>)
        requires
            old(cache).wf(),
            inode_ok(old(self)@, old(cache)@),
            new_size <= old(self)@.size,
        ensures
            final(cache).wf(),
            final(cache)@ == old(cache)@,
            final(self)@.size == new_size,
            final(self)@.parent == old(self)@.parent,
            final(self)@.ty == old(self)@.ty,
            inode_shape(final(self)@),
            inode_ok(final(self)@, final(cache)@),
            forall|x: int|
                0 <= x < blocks_for(new_size as int) && x < INODE_DIRECT_COUNT ==> final(self)@.direct[x] == old(self)@.direct[x],
            forall|x: int|
                blocks_for(new_size as int) <= x < INODE_DIRECT_COUNT ==> final(self)@.direct[x]
                    == 0u32,
            blocks_for(new_size as int) <= INODE_DIRECT_COUNT ==> final(self)@.indirect1 == 0,
            blocks_for(new_size as int) > INODE_DIRECT_COUNT ==> final(self)@.indirect1 == old(self)@.indirect1,
            blocks_for(new_size as int) <= INDIRECT1_BOUND ==> final(self)@.indirect2 == 0,
            blocks_for(new_size as int) > INDIRECT1_BOUND ==> final(self)@.indirect2 == old(self)@.indirect2,
            forall|x: int|
                0 <= x < blocks_for(new_size as int) ==> #[trigger] dbid(
                    final(self)@,
                    final(cache)@,
                    x,
                ) == dbid(old(self)@, old(cache)@, x),
            file_bytes(final(self)@, final(cache)@) =~= file_bytes(
                old(self)@,
                old(cache)@,
            ).subrange(0, new_size as int),
            r@.len() == meta_total(blocks_for(old(self)@.size as int)) - meta_total(
                blocks_for(new_size as int),
            ),
            forall|k: int, l: int|
                0 <= k < r@.len() && 0 <= l < r@.len() && k != l ==> #[trigger] r@[k]
                    != #[trigger] r@[l],
            forall|k: int|
                0 <= k < r@.len() ==> 0 < #[trigger] r@[k] < old(cache)@.len() && refd(
                    old(self)@,
                    old(cache)@,
                    r@[k] as int,
                ) && !refd(final(self)@, final(cache)@, r@[k] as int),
            forall|b: int|
                refd(old(self)@, old(cache)@, b) && !refd(final(self)@, final(cache)@, b)
                    ==> exists|k: int| 0 <= k < r@.len() && #[trigger] r@[k] as int == b,
    {
        let ghost v0 = old(self)@;
        let ghost d0 = old(cache)@;
        let ghost db0 = blocks_for(v0.size as int);
        let ghost db1 = blocks_for(new_size as int);
        proof {
            lemma_meta_total_mono(db1, db0);
            lemma_l2_count_mono(db1, db0);
        }
        let old_db = self.data_blocks();
        let new_db = (new_size + (BLOCK_SZ as u32 - 1)) / (BLOCK_SZ as u32);
        let mut r: Vec<u32> = Vec::new();
        // The dropped data blocks, in logical order.
        let mut i: u32 = new_db;
        while i < old_db
            invariant
                cache.wf(),
                cache@ == d0,
                self@ == v0,
                inode_ok(v0, d0),
                db0 == blocks_for(v0.size as int),
                old_db == db0,
                db1 <= i <= db0,
                new_db == db1,
                r@.len() == i - db1,
                forall|k: int| 0 <= k < r@.len() ==> #[trigger] r@[k] as int == dbid(
                    v0,
                    d0,
                    db1 + k,
                ),
            decreases old_db - i,
        {
            let bid = self.get_block_id(cache, i);
            r.push(bid);
            i += 1;
        }
        // The indirect blocks that the smaller size no longer needs.
        let ghost n_data = db0 - db1;
        let ghost has1: int = if db0 > INODE_DIRECT_COUNT && db1 <= INODE_DIRECT_COUNT {
            1
        } else {
            0
        };
        let ghost has2: int = if db0 > INDIRECT1_BOUND && db1 <= INDIRECT1_BOUND {
            1
        } else {
            0
        };
        if old_db > INODE_DIRECT_COUNT as u32 && new_db <= INODE_DIRECT_COUNT as u32 {
            r.push(self.indirect1);
        }
        if old_db > INDIRECT1_BOUND as u32 {
            if new_db <= INDIRECT1_BOUND as u32 {
                r.push(self.indirect2);
            }
            let l2_old = (old_db - INDIRECT1_BOUND as u32 + 127) / 128;
            let l2_new = if new_db > INDIRECT1_BOUND as u32 {
                (new_db - INDIRECT1_BOUND as u32 + 127) / 128
            } else {
                0
            };
            assert(l2_old == l2_count(db0) && l2_new == l2_count(db1));
            let mut j: u32 = l2_new;
            proof {
                cache.lemma_view_wf();
                lemma_l2_count_mono(db1, db0);
                vstd::arithmetic::div_mod::lemma_div_is_ordered(
                    old_db as int - INDIRECT1_BOUND + 127,
                    16511,
                    128,
                );
            }
            while j < l2_old
                invariant
                    cache.wf(),
                    cache@ == d0,
                    self@ == v0,
                    inode_ok(v0, d0),
                    db0 == blocks_for(v0.size as int),
                    db0 > INDIRECT1_BOUND,
                    n_data == db0 - db1,
                    has1 == (if db0 > INODE_DIRECT_COUNT && db1 <= INODE_DIRECT_COUNT {
                        1int
                    } else {
                        0int
                    }),
                    has2 == (if db1 <= INDIRECT1_BOUND {
                        1int
                    } else {
                        0int
                    }),
                    l2_old == l2_count(db0),
                    l2_new <= j <= l2_old,
                    l2_old <= 129,
                    l2_new == l2_count(db1),
                    r@.len() == n_data + has1 + has2 + (j - l2_new),
                    forall|k: int|
                        0 <= k < n_data ==> #[trigger] r@[k] as int == dbid(v0, d0, db1 + k),
                    has1 == 1 ==> r@[n_data as int] == v0.indirect1,
                    has2 == 1 ==> r@[n_data + has1] == v0.indirect2,
                    forall|k: int|
                        n_data + has1 + has2 <= k < r@.len() ==> #[trigger] r@[k] as int == l2bid(
                            v0,
                            d0,
                            l2_new + (k - (n_data + has1 + has2)),
                        ),
                decreases l2_old - j,
            {
                let bid = cache.read_u32(self.indirect2 as usize, 4 * (j as usize));
                assert(bid as int == l2bid(v0, d0, j as int));
                r.push(bid);
                j += 1;
            }
        }
        let ghost r_final_pre_zero = r@;
        // Zero the dropped slots of the inode record itself.
        let mut nd: Vec<u32> = Vec::new();
        let mut k: usize = 0;
        while k < INODE_DIRECT_COUNT
            invariant
                self@ == v0,
                v0.direct.len() == INODE_DIRECT_COUNT,
                db1 == new_db,
                k <= INODE_DIRECT_COUNT,
                nd@.len() == k,
                forall|x: int| 0 <= x < k && x < db1 ==> nd@[x] == v0.direct[x],
                forall|x: int| db1 <= x < k ==> nd@[x] == 0u32,
            decreases INODE_DIRECT_COUNT - k,
        {
            if (k as u32) < new_db {
                nd.push(self.direct[k]);
            } else {
                nd.push(0u32);
            }
            k += 1;
        }
        self.direct = nd;
        if new_db <= INODE_DIRECT_COUNT as u32 {
            self.indirect1 = 0;
        }
        if new_db <= INDIRECT1_BOUND as u32 {
            self.indirect2 = 0;
        }
        self.size = new_size;
        let ghost vf = self@;
        proof {
            let df = cache@;
            assert(df == d0);
            // The kept prefix of the map reads the same slots.
            assert forall|x: int| 0 <= x < db1 implies #[trigger] dbid(vf, df, x) == dbid(
                v0,
                d0,
                x,
            ) by {}
            assert forall|j2: int| 0 <= j2 < l2_count(db1) implies #[trigger] l2bid(vf, df, j2)
                == l2bid(v0, d0, j2) by {}
            assert(inode_ok(vf, df)) by {
                assert(blocks_for(vf.size as int) == db1);
            }
            assert forall|q: int| 0 <= q < new_size implies file_bytes(vf, df)[q] == file_bytes(
                v0,
                d0,
            )[q] by {
                lemma_pos_block(new_size as int, q);
                assert(dbid(vf, df, q / 512) == dbid(v0, d0, q / 512));
            }
            assert(file_bytes(vf, df) =~= file_bytes(v0, d0).subrange(0, new_size as int));
            // What the freed list holds, position by position.
            let n_data = db0 - db1;
            let has1 = if db0 > INODE_DIRECT_COUNT && db1 <= INODE_DIRECT_COUNT {
                1int
            } else {
                0int
            };
            let has2 = if db0 > INDIRECT1_BOUND && db1 <= INDIRECT1_BOUND {
                1int
            } else {
                0int
            };
            let n_l2 = l2_count(db0) - l2_count(db1);
            assert(r@.len() == n_data + has1 + has2 + n_l2);
            assert(r@.len() == meta_total(db0) - meta_total(db1));
            assert forall|k2: int| 0 <= k2 < n_data implies #[trigger] r@[k2] as int == dbid(
                v0,
                d0,
                db1 + k2,
            ) by {}
            assert(has1 == 1 ==> r@[n_data] == v0.indirect1);
            assert(has2 == 1 ==> r@[n_data + has1] == v0.indirect2);
            assert forall|k2: int| n_data + has1 + has2 <= k2 < r@.len() implies #[trigger] r@[k2]
                as int == l2bid(v0, d0, l2_count(db1) + (k2 - (n_data + has1 + has2))) by {}
            let freed = |b: int|
                (exists|x: int| db1 <= x < db0 && #[trigger] dbid(v0, d0, x) == b) || (has1 == 1
                    && v0.indirect1 as int == b) || (has2 == 1 && v0.indirect2 as int == b) || (
                exists|j2: int| l2_count(db1) <= j2 < l2_count(db0) && #[trigger] l2bid(v0, d0, j2)
                    == b);
            assert forall|k2: int| 0 <= k2 < r@.len() implies freed(#[trigger] r@[k2] as int) by {
                if k2 < n_data {
                    assert(r@[k2] as int == dbid(v0, d0, db1 + k2));
                } else if k2 < n_data + has1 {
                    assert(r@[k2] == v0.indirect1);
                } else if k2 < n_data + has1 + has2 {
                    assert(r@[k2] == v0.indirect2);
                } else {
                    assert(r@[k2] as int == l2bid(v0, d0, l2_count(db1) + (k2 - (n_data + has1
                        + has2))));
                }
            }
            // Freed blocks are referenced by the old inode and in range.
            assert forall|k2: int| 0 <= k2 < r@.len() implies 0 < #[trigger] r@[k2] < d0.len()
                && refd(v0, d0, r@[k2] as int) by {
                assert(freed(r@[k2] as int));
            }
            // Freed blocks are no longer referenced: the new index is a
            // strict restriction of the old one, and the old one never
            // references a block twice.
            assert forall|k2: int| 0 <= k2 < r@.len() implies !refd(vf, df, #[trigger] r@[k2] as int) by {
                let b = r@[k2] as int;
                assert(freed(b));
                if refd(vf, df, b) {
                    if exists|x: int| 0 <= x < db1 && #[trigger] dbid(vf, df, x) == b {
                        let x = choose|x: int| 0 <= x < db1 && #[trigger] dbid(vf, df, x) == b;
                        assert(dbid(v0, d0, x) == b);
                    } else if exists|j2: int|
                        0 <= j2 < l2_count(db1) && #[trigger] l2bid(vf, df, j2) == b {
                        let j2 = choose|j2: int|
                            0 <= j2 < l2_count(db1) && #[trigger] l2bid(vf, df, j2) == b;
                        assert(l2bid(v0, d0, j2) == b);
                    } else {
                        assert((db1 > INODE_DIRECT_COUNT && vf.indirect1 as int == b) || (db1
                            > INDIRECT1_BOUND && vf.indirect2 as int == b));
                    }
                }
            }
            // Distinctness of the freed list, from the old index's own
            // distinctness.
            assert forall|k2: int, l2: int|
                0 <= k2 < r@.len() && 0 <= l2 < r@.len() && k2 != l2 implies #[trigger] r@[k2]
                != #[trigger] r@[l2] by {
                let split = |k3: int|
                    if k3 < n_data {
                        0int
                    } else if k3 < n_data + has1 {
                        1int
                    } else if k3 < n_data + has1 + has2 {
                        2int
                    } else {
                        3int
                    };
                assert(r@[k2] as int != r@[l2] as int) by {
                    if split(k2) == 0 && split(l2) == 0 {
                        assert(r@[k2] as int == dbid(v0, d0, db1 + k2));
                        assert(r@[l2] as int == dbid(v0, d0, db1 + l2));
                    } else if split(k2) == 3 && split(l2) == 3 {
                        assert(r@[k2] as int == l2bid(v0, d0, l2_count(db1) + (k2 - (n_data + has1
                            + has2))));
                        assert(r@[l2] as int == l2bid(v0, d0, l2_count(db1) + (l2 - (n_data + has1
                            + has2))));
                    } else {
                        assert(freed(r@[k2] as int) && freed(r@[l2] as int));
                    }
                }
            }
            // Completeness: anything the old inode referenced that the new
            // one does not is in the list.
            assert forall|b: int|
                refd(v0, d0, b) && !refd(vf, df, b) implies exists|k3: int|
                0 <= k3 < r@.len() && #[trigger] r@[k3] as int == b by {
                if exists|x: int| 0 <= x < db0 && #[trigger] dbid(v0, d0, x) == b {
                    let x = choose|x: int| 0 <= x < db0 && #[trigger] dbid(v0, d0, x) == b;
                    if x < db1 {
                        assert(dbid(vf, df, x) == b);
                    } else {
                        assert(r@[x - db1] as int == b);
                    }
                } else if db0 > INODE_DIRECT_COUNT && v0.indirect1 as int == b {
                    if db1 > INODE_DIRECT_COUNT {
                        assert(vf.indirect1 as int == b);
                    } else {
                        assert(r@[n_data] as int == b);
                    }
                } else if db0 > INDIRECT1_BOUND && v0.indirect2 as int == b {
                    if db1 > INDIRECT1_BOUND {
                        assert(vf.indirect2 as int == b);
                    } else {
                        assert(r@[n_data + has1] as int == b);
                    }
                } else {
                    let j2 = choose|j2: int|
                        0 <= j2 < l2_count(db0) && #[trigger] l2bid(v0, d0, j2) == b;
                    if j2 < l2_count(db1) {
                        assert(l2bid(vf, df, j2) == b);
                    } else {
                        assert(r@[n_data + has1 + has2 + (j2 - l2_count(db1))] as int == b);
                    }
                }
            }
        }
        r
    }

    /// Truncates the file to size zero, returning every block it held, data
    /// and indirect alike. Equivalent to shrinking to size 0.
    pub fn clear_size(&mut self, cache: &mut BlockCache) -> (r: Vec<u32>)
        requires
            old(cache).wf(),
            inode_ok(old(self)@, old(cache)@),
        ensures
            final(cache).wf(),
            final(cache)@ == old(cache)@,
            final(self)@.size == 0,
            final(self)@.parent == old(self)@.parent,
            final(self)@.ty == old(self)@.ty,
            forall|x: int| 0 <= x < INODE_DIRECT_COUNT ==> final(self)@.direct[x] == 0u32,
            final(self)@.indirect1 == 0,
            final(self)@.indirect2 == 0,
            inode_shape(final(self)@),
            inode_ok(final(self)@, final(cache)@),
            r@.len() == meta_total(blocks_for(old(self)@.size as int)),
            forall|k: int, l: int|
                0 <= k < r@.len() && 0 <= l < r@.len() && k != l ==> #[trigger] r@[k]
                    != #[trigger] r@[l],
            forall|k: int|
                0 <= k < r@.len() ==> 0 < #[trigger] r@[k] < old(cache)@.len() && refd(
                    old(self)@,
                    old(cache)@,
                    r@[k] as int,
                ),
            forall|b: int|
                refd(old(self)@, old(cache)@, b) ==> exists|k: int|
                    0 <= k < r@.len() && #[trigger] r@[k] as int == b,
    {
        let r = self.decrease_size(cache, 0);
        proof {
            assert(blocks_for(0) == 0 && meta_total(0) == 0);
            assert forall|b: int| !refd(final(self)@, final(cache)@, b) by {
                assert(l2_count(0) == 0);
            }
        }
        r
    }
}

} // verus!

verus! {

/// A superblock value: the magic sentinel and the sizes of the four
/// on-disk regions.
pub struct SuperBlock {
    pub magic: u32,
    pub total_blocks: u32,
    pub inode_bitmap_blocks: u32,
    pub inode_area_blocks: u32,
    pub data_bitmap_blocks: u32,
    pub data_area_blocks: u32,
}

/// The 24-byte encoding of a superblock, stored at the start of block 0.
pub open spec fn sb_enc(s: SuperBlock) -> Seq<u8> {
    u32_le(s.magic) + u32_le(s.total_blocks) + u32_le(s.inode_bitmap_blocks) + u32_le(
        s.inode_area_blocks,
    ) + u32_le(s.data_bitmap_blocks) + u32_le(s.data_area_blocks)
}

/// The superblock stored in 24 bytes.
pub open spec fn sb_dec(b: Seq<u8>) -> SuperBlock {
    SuperBlock {
        magic: u32_at(b, 0),
        total_blocks: u32_at(b, 4),
        inode_bitmap_blocks: u32_at(b, 8),
        inode_area_blocks: u32_at(b, 12),
        data_bitmap_blocks: u32_at(b, 16),
        data_area_blocks: u32_at(b, 20),
    }
}

/// Decoding an encoded superblock restores it.
pub proof fn lemma_sb_roundtrip(s: SuperBlock)
    ensures
        sb_dec(sb_enc(s)) == s,
{
    lemma_u32_le_roundtrip(s.magic);
    lemma_u32_le_roundtrip(s.total_blocks);
    lemma_u32_le_roundtrip(s.inode_bitmap_blocks);
    lemma_u32_le_roundtrip(s.inode_area_blocks);
    lemma_u32_le_roundtrip(s.data_bitmap_blocks);
    lemma_u32_le_roundtrip(s.data_area_blocks);
    assert(sb_dec(sb_enc(s)).magic == s.magic);
    assert(sb_dec(sb_enc(s)).total_blocks == s.total_blocks);
    assert(sb_dec(sb_enc(s)).inode_bitmap_blocks == s.inode_bitmap_blocks);
    assert(sb_dec(sb_enc(s)).inode_area_blocks == s.inode_area_blocks);
    assert(sb_dec(sb_enc(s)).data_bitmap_blocks == s.data_bitmap_blocks);
    assert(sb_dec(sb_enc(s)).data_area_blocks == s.data_area_blocks);
}

impl SuperBlock {
    /// Fills in a fresh superblock with the region sizes and the magic
    /// sentinel.
    pub fn initialize(
        &mut self,
        total_blocks: u32,
        inode_bitmap_blocks: u32,
        inode_area_blocks: u32,
        data_bitmap_blocks: u32,
        data_area_blocks: u32,
    )
        ensures
            final(self).magic == EFS_MAGIC,
            final(self).total_blocks == total_blocks,
            final(self).inode_bitmap_blocks == inode_bitmap_blocks,
            final(self).inode_area_blocks == inode_area_blocks,
            final(self).data_bitmap_blocks == data_bitmap_blocks,
            final(self).data_area_blocks == data_area_blocks,
    {
        self.magic = EFS_MAGIC;
        self.total_blocks = total_blocks;
        self.inode_bitmap_blocks = inode_bitmap_blocks;
        self.inode_area_blocks = inode_area_blocks;
        self.data_bitmap_blocks = data_bitmap_blocks;
        self.data_area_blocks = data_area_blocks;
    }

    /// Whether the magic sentinel marks a valid image.
    pub fn is_valid(&self) -> (r: bool)
        ensures
            r == (self.magic == EFS_MAGIC),
    {
        self.magic == EFS_MAGIC
    }

    /// Encodes the superblock into its 24-byte on-disk form.
    pub fn encode(&self) -> (r: Vec<u8>)
        ensures
            r@ =~= sb_enc(*self),
            r@.len() == 24,
    {
        let mut r: Vec<u8> = Vec::new();
        crate::bytes::push_u32(&mut r, self.magic);
        crate::bytes::push_u32(&mut r, self.total_blocks);
        crate::bytes::push_u32(&mut r, self.inode_bitmap_blocks);
        crate::bytes::push_u32(&mut r, self.inode_area_blocks);
        crate::bytes::push_u32(&mut r, self.data_bitmap_blocks);
        crate::bytes::push_u32(&mut r, self.data_area_blocks);
        r
    }

    /// Decodes a 24-byte on-disk record into a superblock.
    pub fn decode(b: &Vec<u8>) -> (r: SuperBlock)
        requires
            b@.len() == 24,
        ensures
            r == sb_dec(b@),
    {
        SuperBlock {
            magic: crate::bytes::read_u32(b, 0),
            total_blocks: crate::bytes::read_u32(b, 4),
            inode_bitmap_blocks: crate::bytes::read_u32(b, 8),
            inode_area_blocks: crate::bytes::read_u32(b, 12),
            data_bitmap_blocks: crate::bytes::read_u32(b, 16),
            data_area_blocks: crate::bytes::read_u32(b, 20),
        }
    }
}

/// The name stored in a NUL-padded name field: the bytes before the first
/// NUL.
pub open spec fn name_of(b: Seq<u8>) -> Seq<u8>
    decreases b.len(),
{
    if b.len() == 0 || b[0] == 0 {
        seq![]
    } else {
        seq![b[0]] + name_of(b.skip(1))
    }
}

/// A usable directory-entry name: 1 to 27 bytes, none of them NUL.
pub open spec fn valid_name(n: Seq<u8>) -> bool {
    &&& 1 <= n.len() <= NAME_LENGTH_LIMIT
    &&& forall|i: int| 0 <= i < n.len() ==> n[i] != 0u8
}

/// `name_of` recovers exactly the bytes before the first NUL.
pub proof fn lemma_name_of(b: Seq<u8>, k: int)
    requires
        0 <= k <= b.len(),
        forall|i: int| 0 <= i < k ==> b[i] != 0u8,
        k < b.len() ==> b[k] == 0u8,
    ensures
        name_of(b) =~= b.take(k),
    decreases b.len(),
{
    if b.len() == 0 || b[0] == 0 {
        assert(k == 0);
    } else {
        assert(k >= 1);
        lemma_name_of(b.skip(1), k - 1);
        assert(name_of(b) =~= seq![b[0]] + b.skip(1).take(k - 1));
    }
}

/// A 32-byte directory entry: a NUL-padded 28-byte name and an inode
/// number.
pub struct DirEntry {
    name: Vec<u8>,
    inode_number: u32,
}

/// The name field of an encoded directory entry.
pub open spec fn de_name(b: Seq<u8>) -> Seq<u8> {
    name_of(b.take(28))
}

/// The inode number of an encoded directory entry.
pub open spec fn de_ino(b: Seq<u8>) -> u32 {
    u32_at(b, 28)
}

impl DirEntry {
    /// The raw 28 name bytes followed by the inode number.
    pub closed spec fn view(&self) -> Seq<u8> {
        self.name@ + u32_le(self.inode_number)
    }

    pub closed spec fn wf(&self) -> bool {
        self.name@.len() == 28
    }

    /// An all-zero entry.
    pub fn empty() -> (r: Self)
        ensures
            r.wf(),
            de_name(r@) =~= Seq::<u8>::empty(),
            de_ino(r@) == 0,
            r@.len() == DIRENT_SZ,
            forall|i: int| 0 <= i < DIRENT_SZ ==> r@[i] == 0u8,
    {
        let mut name: Vec<u8> = Vec::new();
        let mut k: usize = 0;
        while k < 28
            invariant
                k <= 28,
                name@.len() == k,
                forall|i: int| 0 <= i < k ==> name@[i] == 0u8,
            decreases 28 - k,
        {
            name.push(0u8);
            k += 1;
        }
        let r = DirEntry { name, inode_number: 0 };
        proof {
            lemma_name_of(r@.take(28), 0);
            lemma_u32_le_roundtrip(0);
        }
        r
    }

    /// An entry binding `name` to `inode_number`: the name NUL-padded to 28
    /// bytes, then the number as a little-endian word.
    #[verifier::spinoff_prover]
    #[verifier::rlimit(100)]
    pub fn new(name: &Vec<u8>, inode_number: u32) -> (r: Self)
        requires
            valid_name(name@),
        ensures
            r.wf(),
            r@.len() == DIRENT_SZ,
            de_name(r@) =~= name@,
            de_ino(r@) == inode_number,
            r@ =~= name@ + Seq::new((28 - name@.len()) as nat, |i: int| 0u8) + u32_le(
                inode_number,
            ),
    {
        let mut field: Vec<u8> = Vec::new();
        let mut k: usize = 0;
        let n = name.len();
        while k < 28
            invariant
                k <= 28,
                n == name@.len(),
                valid_name(name@),
                field@.len() == k,
                forall|i: int| 0 <= i < k && i < n ==> field@[i] == name@[i],
                forall|i: int| n <= i < k ==> field@[i] == 0u8,
            decreases 28 - k,
        {
            if k < n {
                field.push(name[k]);
            } else {
                field.push(0u8);
            }
            k += 1;
        }
        let r = DirEntry { name: field, inode_number };
        proof {
            lemma_name_of(r@.take(28), n as int);
            assert(r@.take(28).take(n as int) =~= name@);
            lemma_u32_le_roundtrip(inode_number);
        }
        r
    }

    /// Rebuilds an entry from its 32 on-disk bytes.
    #[verifier::spinoff_prover]
    #[verifier::rlimit(100)]
    pub fn decode(b: &Vec<u8>) -> (r: Self)
        requires
            b@.len() == DIRENT_SZ,
        ensures
            r.wf(),
            r@ =~= b@,
    {
        let mut name: Vec<u8> = Vec::new();
        let mut k: usize = 0;
        while k < 28
            invariant
                k <= 28,
                b@.len() == DIRENT_SZ,
                name@.len() == k,
                forall|i: int| 0 <= i < k ==> name@[i] == b@[i],
            decreases 28 - k,
        {
            name.push(b[k]);
            k += 1;
        }
        let ino = crate::bytes::read_u32(b, 28);
        let r = DirEntry { name, inode_number: ino };
        proof {
            lemma_u32_le_roundtrip(ino);
            assert forall|i: int| 0 <= i < 32 implies r@[i] == b@[i] by {
                if i >= 28 {
                    assert(r@[i] == u32_le(ino)[i - 28]);
                }
            }
        }
        r
    }

    /// The entry's 32 on-disk bytes.
    #[verifier::spinoff_prover]
    #[verifier::rlimit(100)]
    pub fn encode(&self) -> (r: Vec<u8>)
        requires
            self.wf(),
        ensures
            r@ =~= self@,
            r@.len() == DIRENT_SZ,
    {
        let mut r: Vec<u8> = Vec::new();
        let mut k: usize = 0;
        while k < 28
            invariant
                k <= 28,
                self.wf(),
                r@.len() == k,
                forall|i: int| 0 <= i < k ==> r@[i] == self.name@[i],
            decreases 28 - k,
        {
            r.push(self.name[k]);
            k += 1;
        }
        crate::bytes::push_u32(&mut r, self.inode_number);
        assert(r@ =~= self@);
        r
    }

    /// The stored name: the bytes before the first NUL of the name field.
    #[verifier::spinoff_prover]
    #[verifier::rlimit(100)]
    pub fn name(&self) -> (r: Vec<u8>)
        requires
            self.wf(),
        ensures
            r@ =~= de_name(self@),
    {
        let mut k: usize = 0;
        while k < 28 && self.name[k] != 0
            invariant
                self.wf(),
                k <= 28,
                forall|i: int| 0 <= i < k ==> self.name@[i] != 0u8,
            decreases 28 - k,
        {
            k += 1;
        }
        let mut r: Vec<u8> = Vec::new();
        let mut i: usize = 0;
        while i < k
            invariant
                self.wf(),
                i <= k <= 28,
                r@.len() == i,
                forall|j: int| 0 <= j < i ==> r@[j] == self.name@[j],
            decreases k - i,
        {
            r.push(self.name[i]);
            i += 1;
        }
        proof {
            assert(self@.take(28) =~= self.name@);
            lemma_name_of(self.name@, k as int);
            assert(r@ =~= self.name@.take(k as int));
        }
        r
    }

    /// The stored inode number.
    pub fn inode_number(&self) -> (r: u32)
        requires
            self.wf(),
        ensures
            r == de_ino(self@),
    {
        proof {
            lemma_u32_le_roundtrip(self.inode_number);
        }
        self.inode_number
    }
}

} // verus!

verus! {

/// The mathematical value of one directory entry.
pub ghost struct DirEntV {
    pub name: Seq<u8>,
    pub ino: u32,
}

/// The entries of a directory inode: its file contents read as packed
/// 32-byte records.
pub open spec fn dir_entries(v: InodeV, disk: Seq<Seq<u8>>) -> Seq<DirEntV> {
    Seq::new(
        (v.size as int / 32) as nat,
        |e: int|
            DirEntV {
                name: de_name(file_bytes(v, disk).subrange(32 * e, 32 * e + 32)),
                ino: de_ino(file_bytes(v, disk).subrange(32 * e, 32 * e + 32)),
            },
    )
}

/// If two disks agree on every block an inode references, the inode reads
/// the same on both: same block index, same file contents, same directory
/// entries.
pub proof fn lemma_inode_same(v: InodeV, d1: Seq<Seq<u8>>, d2: Seq<Seq<u8>>)
    requires
        inode_ok(v, d1),
        d1.len() == d2.len(),
        forall|b: int| #[trigger] refd(v, d1, b) ==> d2[b] == d1[b],
    ensures
        inode_ok(v, d2),
        forall|i: int|
            0 <= i < blocks_for(v.size as int) ==> #[trigger] dbid(v, d2, i) == dbid(v, d1, i),
        forall|b: int| refd(v, d2, b) <==> refd(v, d1, b),
        file_bytes(v, d2) =~= file_bytes(v, d1),
        dir_entries(v, d2) =~= dir_entries(v, d1),
{
    let db = blocks_for(v.size as int);
    if db > INODE_DIRECT_COUNT {
        assert(refd(v, d1, v.indirect1 as int));
    }
    if db > INDIRECT1_BOUND {
        assert(refd(v, d1, v.indirect2 as int));
    }
    assert forall|j: int| 0 <= j < l2_count(db) implies 0 <= #[trigger] l2bid(v, d1, j) < d1.len()
        && d2[l2bid(v, d1, j)] == d1[l2bid(v, d1, j)] by {
        assert(refd(v, d1, l2bid(v, d1, j)));
    }
    lemma_map_frame(v, d1, d2, db);
    assert forall|p: int| 0 <= p < v.size implies file_bytes(v, d2)[p] == file_bytes(
        v,
        d1,
    )[p] by {
        lemma_pos_block(v.size as int, p);
        assert(dbid(v, d2, p / 512) == dbid(v, d1, p / 512));
        assert(refd(v, d1, dbid(v, d1, p / 512)));
        assert(d2[dbid(v, d1, p / 512)] == d1[dbid(v, d1, p / 512)]);
    }
    assert(file_bytes(v, d2) =~= file_bytes(v, d1));
    assert forall|e: int| 0 <= e < dir_entries(v, d2).len() implies dir_entries(v, d2)[e]
        == dir_entries(v, d1)[e] by {
        assert(file_bytes(v, d2).subrange(32 * e, 32 * e + 32) == file_bytes(v, d1).subrange(
            32 * e,
            32 * e + 32,
        ));
    }
}

} // verus!
