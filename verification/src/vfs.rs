//! The directory layer. An `Inode` is a lightweight handle to an on-disk
//! inode, identified by the block and offset of its slot; every operation
//! borrows the filesystem it belongs to. Paths are byte strings with `/`
//! separators; `.` and `` are skipped and `..` resolves through the on-disk
//! parent field.

use vstd::prelude::*;
use crate::BLOCK_SZ;
use crate::efs::{EasyFileSystem, FsError, empty_inode};
use crate::layout::{
    DirEntV, DirEntry, DiskInode, DiskInodeType, InodeV, blocks_for, dir_entries, file_bytes,
    inode_ok, refd, valid_name, DIRENT_SZ, NAME_LENGTH_LIMIT,
};

verus! {

/// The observable filesystem state did not change: same layout numbers and
/// the same logical disk contents.
pub open spec fn fs_preserved(a: &EasyFileSystem, b: &EasyFileSystem) -> bool {
    &&& b.same_layout(a)
    &&& b@ == a@
    &&& b.cache.wf()
}

/// How many fresh blocks a write of `len` bytes at `offset` into a file of
/// `size` bytes must allocate: the block-count difference of the grow, or
/// none for a pure overwrite.
#[verifier::opaque]
pub open spec fn write_growth(size: int, offset: int, len: int) -> int {
    if offset + len > size {
        crate::layout::meta_total(blocks_for(offset + len)) - crate::layout::meta_total(
            blocks_for(size),
        )
    } else {
        0
    }
}

/// A handle to an on-disk inode: the block and byte offset of its slot.
#[derive(Clone, Copy, PartialEq, Eq, Structural)]
pub struct Inode {
    pub block_id: usize,
    pub block_offset: usize,
}

impl Inode {
    /// The inode number this handle stands for.
    pub open spec fn ino(&self, fs: &EasyFileSystem) -> int {
        (self.block_id - fs.inode_area_start) * 3 + self.block_offset as int / 132
    }

    /// Whether the handle points at a real slot of `fs`.
    pub open spec fn valid(&self, fs: &EasyFileSystem) -> bool {
        &&& 0 <= self.ino(fs) < fs.max_inodes
        &&& self.block_id == fs.inode_block(self.ino(fs))
        &&& self.block_offset == fs.inode_off(self.ino(fs))
    }

    /// The inode value this handle reads.
    pub open spec fn inode_v(&self, fs: &EasyFileSystem) -> InodeV {
        fs.inode_at(self.ino(fs))
    }

    /// A handle from a slot position.
    pub fn new(block_id: u32, block_offset: usize) -> (r: Self)
        ensures
            r.block_id == block_id,
            r.block_offset == block_offset,
    {
        Inode { block_id: block_id as usize, block_offset }
    }

    /// Whether two handles name the same on-disk inode.
    pub fn same_inode(node1: &Inode, node2: &Inode) -> (r: bool)
        ensures
            r == (node1.block_id == node2.block_id && node1.block_offset == node2.block_offset),
    {
        node1.block_id == node2.block_id && node1.block_offset == node2.block_offset
    }

    /// The inode number behind this handle.
    pub fn inode_id(&self, fs: &EasyFileSystem) -> (r: u32)
        requires
            fs.layout_wf(),
            self.valid(fs),
        ensures
            r == self.ino(fs),
    {
        fs.get_inode_id(self.block_id as u32, self.block_offset)
    }
}

impl EasyFileSystem {
    /// The handle for inode number `n`.
    pub open spec fn handle_of(&self, n: int) -> Inode {
        Inode { block_id: self.inode_block(n) as usize, block_offset: self.inode_off(n) as usize }
    }

    /// The handle of a valid inode number is valid and reads that number
    /// back.
    pub proof fn lemma_handle_of(&self, n: int)
        requires
            self.layout_wf(),
            0 <= n < self.max_inodes,
        ensures
            self.handle_of(n).valid(self),
            self.handle_of(n).ino(self) == n,
    {
        crate::efs::lemma_slot_bounds(n, n, self.max_inodes as int);
        self.lemma_block_in_range(n);
        vstd::arithmetic::div_mod::lemma_fundamental_div_mod(n, 3);
        let h = self.handle_of(n);
        assert(h.block_offset as int / 132 == n % 3) by {
            vstd::arithmetic::div_mod::lemma_hoist_over_denominator(0, n % 3, 132);
            vstd::arithmetic::div_mod::lemma_basic_div(0, 132);
        }
    }

    /// The handle for inode number `inode_id`.
    pub fn get_inode(&self, inode_id: u32) -> (r: Inode)
        requires
            self.layout_wf(),
            inode_id < self.max_inodes,
        ensures
            r == self.handle_of(inode_id as int),
            r.valid(self),
            r.ino(self) == inode_id,
    {
        let (blk, off) = self.get_disk_inode_pos(inode_id);
        proof {
            self.lemma_handle_of(inode_id as int);
        }
        Inode::new(blk, off)
    }

    /// The handle of the root directory, inode 0.
    pub fn root_inode(&self) -> (r: Inode)
        requires
            self.layout_wf(),
        ensures
            r == self.handle_of(0),
            r.valid(self),
            r.ino(self) == 0,
    {
        self.get_inode(0)
    }
}

impl Inode {
    /// Whether this inode is a directory.
    pub fn is_dir(&self, fs: &mut EasyFileSystem) -> (r: bool)
        requires
            old(fs).layout_wf(),
            self.valid(old(fs)),
        ensures
            fs_preserved(old(fs), final(fs)),
            old(fs).wf() ==> final(fs).wf(),
            r == (self.inode_v(old(fs)).ty == DiskInodeType::Directory),
    {
        let ghost pre = *old(fs);
        let d = fs.read_inode(self.inode_id(fs));
        let r = d.is_dir();
        proof {
            crate::vfs::lemma_fs_identical(&pre, fs);
        }
        r
    }

    /// Whether this inode is a regular file.
    pub fn is_file(&self, fs: &mut EasyFileSystem) -> (r: bool)
        requires
            old(fs).layout_wf(),
            self.valid(old(fs)),
        ensures
            fs_preserved(old(fs), final(fs)),
            old(fs).wf() ==> final(fs).wf(),
            r == (self.inode_v(old(fs)).ty == DiskInodeType::File),
    {
        let ghost pre = *old(fs);
        let d = fs.read_inode(self.inode_id(fs));
        let r = d.is_file();
        proof {
            crate::vfs::lemma_fs_identical(&pre, fs);
        }
        r
    }

    /// The handle of this inode's parent directory; the root is its own
    /// parent.
    pub fn parent(&self, fs: &mut EasyFileSystem) -> (r: Inode)
        requires
            old(fs).layout_wf(),
            self.valid(old(fs)),
            self.inode_v(old(fs)).parent < old(fs).max_inodes,
        ensures
            fs_preserved(old(fs), final(fs)),
            old(fs).wf() ==> final(fs).wf(),
            r == old(fs).handle_of(self.inode_v(old(fs)).parent as int),
            r.valid(old(fs)),
            r.ino(old(fs)) == self.inode_v(old(fs)).parent,
    {
        let ghost pre = *old(fs);
        let d = fs.read_inode(self.inode_id(fs));
        let r = fs.get_inode(d.parent);
        proof {
            crate::vfs::lemma_fs_identical(&pre, fs);
        }
        r
    }
}

/// A filesystem whose cache did not change its logical view, layout, or
/// contents is the same state for every specification in this crate; this
/// restates that two such values are equal as abstract states.
pub proof fn lemma_fs_identical(fs1: &EasyFileSystem, fs2: &EasyFileSystem)
    requires
        fs1.layout_wf(),
        fs2.same_layout(fs1),
        fs2@ == fs1@,
        fs2.cache.wf(),
    ensures
        forall|n: int| fs2.inode_at(n) == fs1.inode_at(n),
        forall|n: int| fs2.ino_alloc(n) == fs1.ino_alloc(n),
        forall|b: int| fs2.data_bit(b) == fs1.data_bit(b),
        fs2.layout_wf(),
        fs1.wf() ==> fs2.wf(),
{
    reveal(EasyFileSystem::wf);
    assert forall|n: int| fs2.inode_at(n) == fs1.inode_at(n) by {}
    if fs1.wf() {
        assert forall|n: int|
            0 <= n < fs2.max_inodes && fs2.ino_alloc(n) implies #[trigger] fs2.inode_wf(n) by {
            assert(fs1.inode_wf(n));
        }
        assert forall|n: int|
            0 <= n < fs2.max_inodes && fs2.ino_alloc(n) && fs2.inode_at(n).ty
                == DiskInodeType::Directory implies #[trigger] fs2.dir_wf(n) by {
            assert(fs1.dir_wf(n));
        }
        assert(fs2.inodes_disjoint()) by {
            assert forall|n1: int, n2: int, b: int|
                0 <= n1 < fs2.max_inodes && 0 <= n2 < fs2.max_inodes && n1 != n2 && fs2.ino_alloc(
                    n1,
                ) && fs2.ino_alloc(n2) && #[trigger] refd(fs2.inode_at(n1), fs2@, b) implies !(
            #[trigger] refd(fs2.inode_at(n2), fs2@, b)) by {
                assert(refd(fs1.inode_at(n1), fs1@, b));
            }
        }
        assert(fs2.entries_unique()) by {
            crate::efs::lemma_entries_unique_transfer(fs1, fs2);
        }
    }
}

} // verus!

verus! {

impl Inode {
    /// Reads bytes starting at `offset` into the front of `buf`, clipped by
    /// the file size; returns how many bytes were read.
    #[verifier::spinoff_prover]
    #[verifier::rlimit(100)]
    pub fn read_at(&self, fs: &mut EasyFileSystem, offset: usize, buf: &mut Vec<u8>) -> (n: usize)
        requires
            old(fs).wf(),
            self.valid(old(fs)),
            old(fs).ino_alloc(self.ino(old(fs))),
        ensures
            fs_preserved(old(fs), final(fs)),
            final(fs).wf(),
            n == if offset as int >= self.inode_v(old(fs)).size as int {
                0int
            } else if old(buf)@.len() <= self.inode_v(old(fs)).size - offset {
                old(buf)@.len() as int
            } else {
                self.inode_v(old(fs)).size - offset
            },
            final(buf)@.len() == old(buf)@.len(),
            forall|q: int|
                0 <= q < n ==> final(buf)@[q] == file_bytes(self.inode_v(old(fs)), old(fs)@)[offset
                    + q],
            forall|q: int| n <= q < old(buf)@.len() ==> final(buf)@[q] == old(buf)@[q],
    {
        let ghost pre = *old(fs);
        proof {
            pre.lemma_wf_layout();
            pre.lemma_wf_inode(self.ino(&pre));
        }
        let nid = self.inode_id(fs);
        let d = fs.read_inode(nid);
        let n = d.read_at(&mut fs.cache, offset, buf);
        proof {
            crate::vfs::lemma_fs_identical(&pre, fs);
        }
        n
    }

    /// The directory entry at index `e` of this directory.
    #[verifier::spinoff_prover]
    #[verifier::rlimit(100)]
    fn read_entry(&self, fs: &mut EasyFileSystem, e: usize) -> (r: DirEntry)
        requires
            old(fs).wf(),
            self.valid(old(fs)),
            old(fs).ino_alloc(self.ino(old(fs))),
            self.inode_v(old(fs)).ty == DiskInodeType::Directory,
            e < dir_entries(self.inode_v(old(fs)), old(fs)@).len(),
        ensures
            fs_preserved(old(fs), final(fs)),
            final(fs).wf(),
            r.wf(),
            crate::layout::de_name(r@) == dir_entries(self.inode_v(old(fs)), old(fs)@)[e as int].name,
            crate::layout::de_ino(r@) == dir_entries(self.inode_v(old(fs)), old(fs)@)[e as int].ino,
    {
        let ghost pre = *old(fs);
        let ghost v = self.inode_v(old(fs));
        proof {
            pre.lemma_wf_layout();
            pre.lemma_wf_inode(self.ino(&pre));
            assert(v.size as int % 32 == 0);
            assert(32 * e + 32 <= v.size) by {
                assert(e < v.size as int / 32);
                vstd::arithmetic::div_mod::lemma_fundamental_div_mod(v.size as int, 32);
            }
        }
        let mut buf: Vec<u8> = Vec::new();
        let mut k: usize = 0;
        while k < DIRENT_SZ
            invariant
                k <= DIRENT_SZ,
                buf@.len() == k,
            decreases DIRENT_SZ - k,
        {
            buf.push(0u8);
            k += 1;
        }
        let nid = self.inode_id(fs);
        let d = fs.read_inode(nid);
        let got = d.read_at(&mut fs.cache, 32 * e, &mut buf);
        proof {
            crate::vfs::lemma_fs_identical(&pre, fs);
            assert(got == 32);
            assert forall|q: int| 0 <= q < 32 implies buf@[q] == file_bytes(v, pre@).subrange(
                32 * e,
                32 * e + 32,
            )[q] by {}
            assert(buf@ =~= file_bytes(v, pre@).subrange(32 * e, 32 * e + 32));
        }
        let de = DirEntry::decode(&buf);
        proof {
            assert(de@ =~= file_bytes(v, pre@).subrange(32 * e as int, 32 * e + 32));
        }
        de
    }

    /// The first entry of this directory carrying `name`, with its index,
    /// or nothing when no entry does.
    #[verifier::spinoff_prover]
    #[verifier::rlimit(100)]
    fn find_entry(&self, fs: &mut EasyFileSystem, name: &Vec<u8>) -> (r: Option<(usize, u32)>)
        requires
            old(fs).wf(),
            self.valid(old(fs)),
            old(fs).ino_alloc(self.ino(old(fs))),
            self.inode_v(old(fs)).ty == DiskInodeType::Directory,
        ensures
            fs_preserved(old(fs), final(fs)),
            final(fs).wf(),
            match r {
                Some(p) => {
                    &&& 0 <= p.0 < dir_entries(self.inode_v(old(fs)), old(fs)@).len()
                    &&& dir_entries(self.inode_v(old(fs)), old(fs)@)[p.0 as int].name == name@
                    &&& dir_entries(self.inode_v(old(fs)), old(fs)@)[p.0 as int].ino == p.1
                    &&& forall|e: int|
                        0 <= e < p.0 ==> #[trigger] dir_entries(
                            self.inode_v(old(fs)),
                            old(fs)@,
                        )[e].name != name@
                },
                None => forall|e: int|
                    0 <= e < dir_entries(self.inode_v(old(fs)), old(fs)@).len() ==> #[trigger]
                    dir_entries(self.inode_v(old(fs)), old(fs)@)[e].name != name@,
            },
    {
        let ghost pre = *old(fs);
        let ghost v = self.inode_v(old(fs));
        proof {
            pre.lemma_wf_layout();
            pre.lemma_wf_inode(self.ino(&pre));
        }
        let nid = self.inode_id(fs);
        let d = fs.read_inode(nid);
        let count = (d.size as usize) / DIRENT_SZ;
        proof {
            assert(count == dir_entries(v, pre@).len());
            crate::vfs::lemma_fs_identical(&pre, fs);
        }
        let mut e: usize = 0;
        while e < count
            invariant
                pre == *old(fs),
                fs.wf(),
                fs_preserved(&pre, fs),
                pre.wf(),
                pre.layout_wf(),
                self.valid(&pre),
                pre.ino_alloc(self.ino(&pre)),
                v == self.inode_v(&pre),
                v.ty == DiskInodeType::Directory,
                count == dir_entries(v, pre@).len(),
                e <= count,
                forall|e2: int|
                    0 <= e2 < e ==> #[trigger] dir_entries(v, pre@)[e2].name != name@,
            decreases count - e,
        {
            proof {
                crate::vfs::lemma_fs_identical(&pre, fs);
                assert(self.inode_v(fs) == v);
            }
            let ghost mid = *fs;
            let de = self.read_entry(fs, e);
            let ename = de.name();
            let same = vec_eq(&ename, name);
            if same {
                proof {
                    assert(dir_entries(v, pre@)[e as int].name == name@);
                }
                let ino = de.inode_number();
                return Some((e, ino));
            }
            e += 1;
        }
        None
    }

    /// The names of this directory's entries, in entry order.
    #[verifier::spinoff_prover]
    #[verifier::rlimit(100)]
    pub fn ls(&self, fs: &mut EasyFileSystem) -> (r: Vec<Vec<u8>>)
        requires
            old(fs).wf(),
            self.valid(old(fs)),
            old(fs).ino_alloc(self.ino(old(fs))),
            self.inode_v(old(fs)).ty == DiskInodeType::Directory,
        ensures
            fs_preserved(old(fs), final(fs)),
            final(fs).wf(),
            r@.len() == dir_entries(self.inode_v(old(fs)), old(fs)@).len(),
            forall|e: int|
                0 <= e < r@.len() ==> (#[trigger] r@[e])@ == dir_entries(
                    self.inode_v(old(fs)),
                    old(fs)@,
                )[e].name,
    {
        let ghost pre = *old(fs);
        let ghost v = self.inode_v(old(fs));
        proof {
            pre.lemma_wf_layout();
            pre.lemma_wf_inode(self.ino(&pre));
        }
        let nid = self.inode_id(fs);
        let d = fs.read_inode(nid);
        let count = (d.size as usize) / DIRENT_SZ;
        proof {
            crate::vfs::lemma_fs_identical(&pre, fs);
            assert(count == dir_entries(v, pre@).len());
        }
        let mut r: Vec<Vec<u8>> = Vec::new();
        let mut e: usize = 0;
        while e < count
            invariant
                pre == *old(fs),
                fs.wf(),
                fs_preserved(&pre, fs),
                pre.wf(),
                pre.layout_wf(),
                self.valid(&pre),
                pre.ino_alloc(self.ino(&pre)),
                v == self.inode_v(&pre),
                v.ty == DiskInodeType::Directory,
                count == dir_entries(v, pre@).len(),
                e <= count,
                r@.len() == e,
                forall|e2: int|
                    0 <= e2 < e ==> (#[trigger] r@[e2])@ == dir_entries(v, pre@)[e2].name,
            decreases count - e,
        {
            proof {
                crate::vfs::lemma_fs_identical(&pre, fs);
                assert(self.inode_v(fs) == v);
            }
            let de = self.read_entry(fs, e);
            let ename = de.name();
            r.push(ename);
            e += 1;
        }
        r
    }

    /// Looks `name` up in this directory: the handle of the named inode, or
    /// nothing.
    #[verifier::spinoff_prover]
    #[verifier::rlimit(100)]
    pub fn find(&self, fs: &mut EasyFileSystem, name: &Vec<u8>) -> (r: Option<Inode>)
        requires
            old(fs).wf(),
            self.valid(old(fs)),
            old(fs).ino_alloc(self.ino(old(fs))),
            self.inode_v(old(fs)).ty == DiskInodeType::Directory,
        ensures
            fs_preserved(old(fs), final(fs)),
            final(fs).wf(),
            match r {
                Some(h) => exists|e: int|
                    0 <= e < dir_entries(self.inode_v(old(fs)), old(fs)@).len() && (#[trigger]
                    dir_entries(self.inode_v(old(fs)), old(fs)@)[e]).name == name@ && h == old(fs).handle_of(dir_entries(self.inode_v(old(fs)), old(fs)@)[e].ino as int),
                None => forall|e: int|
                    0 <= e < dir_entries(self.inode_v(old(fs)), old(fs)@).len() ==> (#[trigger]
                    dir_entries(self.inode_v(old(fs)), old(fs)@)[e]).name != name@,
            },
            r is Some ==> r.unwrap().valid(old(fs)) && old(fs).ino_alloc(r.unwrap().ino(old(fs))),
    {
        let ghost pre = *old(fs);
        match self.find_entry(fs, name) {
            None => None,
            Some((e, ino)) => {
                proof {
                    pre.lemma_wf_layout();
                    pre.lemma_wf_dir(self.ino(&pre));
                    assert(0 < ino < pre.max_inodes);
                    crate::vfs::lemma_fs_identical(&pre, fs);
                }
                let h = fs.get_inode(ino);
                proof {
                    assert(dir_entries(self.inode_v(&pre), pre@)[e as int].name == name@);
                }
                Some(h)
            },
        }
    }
}

/// Whether two byte vectors hold the same bytes.
pub fn vec_eq(a: &Vec<u8>, b: &Vec<u8>) -> (r: bool)
    ensures
        r == (a@ == b@),
{
    if a.len() != b.len() {
        proof {
            assert(a@.len() != b@.len());
        }
        return false;
    }
    let mut i: usize = 0;
    while i < a.len()
        invariant
            a@.len() == b@.len(),
            i <= a@.len(),
            forall|j: int| 0 <= j < i ==> a@[j] == b@[j],
        decreases a@.len() - i,
    {
        if a[i] != b[i] {
            return false;
        }
        i += 1;
    }
    proof {
        assert(a@ =~= b@);
    }
    true
}

} // verus!

verus! {

/// Gathers `needed` fresh data blocks for inode `target`, or frees the
/// partial batch and reports exhaustion. The blocks come back in range,
/// distinct, bits set, and unreferenced by the target inode.
#[verifier::spinoff_prover]
#[verifier::rlimit(100)]
fn gather_blocks(fs: &mut EasyFileSystem, needed: u32, target: Ghost<int>) -> (r: Result<
    Vec<u32>,
    FsError,
>)
    requires
        old(fs).wf(),
        0 <= target@ < old(fs).max_inodes,
        old(fs).ino_alloc(target@),
    ensures
        final(fs).wf(),
        final(fs).same_layout(old(fs)),
        final(fs)@.len() == old(fs)@.len(),
        final(fs).ino_alloc(target@),
        final(fs).inode_at(target@) == old(fs).inode_at(target@),
        forall|b2: int|
            refd(final(fs).inode_at(target@), final(fs)@, b2) <==> refd(
                old(fs).inode_at(target@),
                old(fs)@,
                b2,
            ),
        file_bytes(final(fs).inode_at(target@), final(fs)@) == file_bytes(
            old(fs).inode_at(target@),
            old(fs)@,
        ),
        dir_entries(final(fs).inode_at(target@), final(fs)@) == dir_entries(
            old(fs).inode_at(target@),
            old(fs)@,
        ),
        forall|b2: int|
            #![trigger final(fs)@[b2]]
            0 <= b2 < old(fs)@.len() && final(fs)@[b2] != old(fs)@[b2] ==> old(fs).data_bitmap.start() <= b2 < old(fs).data_area_start,
        r is Ok <==> old(fs).free_data() >= needed,
        match r {
            Ok(fresh) => {
                &&& fresh@.len() == needed
                &&& forall|kk: int|
                    0 <= kk < fresh@.len() ==> final(fs).in_data_area(#[trigger] fresh@[kk] as int)
                        && final(fs).data_bit(fresh@[kk] as int)
                &&& forall|kk: int, ll: int|
                    0 <= kk < fresh@.len() && 0 <= ll < fresh@.len() && kk != ll
                        ==> #[trigger] fresh@[kk] != #[trigger] fresh@[ll]
                &&& forall|kk: int, m: int|
                    #![trigger refd(old(fs).inode_at(m), old(fs)@, fresh@[kk] as int)]
                    0 <= kk < fresh@.len() && 0 <= m < old(fs).max_inodes && old(fs).ino_alloc(m)
                        ==> !refd(old(fs).inode_at(m), old(fs)@, fresh@[kk] as int)
            },
            Err(e) => e is OutOfSpace,
        },
        forall|b2: int|
            old(fs).in_data_area(b2) && old(fs).data_bit(b2) ==> final(fs).data_bit(b2),
{
    let ghost pre = *old(fs);
    let ghost tt = target@;
    let mut fresh: Vec<u32> = Vec::new();
    let mut k: u32 = 0;
    while k < needed
        invariant
            pre == *old(fs),
            fs.wf(),
            fs.same_layout(&pre),
            fs@.len() == pre@.len(),
            pre.wf(),
            tt == target@,
            0 <= tt < pre.max_inodes,
            pre.ino_alloc(tt),
            fs.ino_alloc(tt),
            k <= needed,
            fresh@.len() == k,
            fs.free_data() == pre.free_data() - k,
            fs.data_area_blocks == pre.data_area_blocks,
            forall|m: int|
                0 <= m < pre.max_inodes ==> fs.ino_alloc(m) == pre.ino_alloc(m) && fs.inode_at(m)
                    == pre.inode_at(m),
            forall|m: int, b2: int|
                #![trigger refd(fs.inode_at(m), fs@, b2)]
                0 <= m < pre.max_inodes && pre.ino_alloc(m) ==> (refd(fs.inode_at(m), fs@, b2)
                    <==> refd(pre.inode_at(m), pre@, b2)),
            forall|b2: int|
                #![trigger fs@[b2]]
                0 <= b2 < pre@.len() && fs@[b2] != pre@[b2] ==> pre.data_bitmap.start() <= b2
                    < pre.data_area_start,
            forall|b2: int| pre.in_data_area(b2) && pre.data_bit(b2) ==> fs.data_bit(b2),
            file_bytes(fs.inode_at(tt), fs@) == file_bytes(pre.inode_at(tt), pre@),
            dir_entries(fs.inode_at(tt), fs@) == dir_entries(pre.inode_at(tt), pre@),
            forall|kk: int|
                0 <= kk < fresh@.len() ==> fs.in_data_area(#[trigger] fresh@[kk] as int)
                    && fs.data_bit(fresh@[kk] as int),
            forall|kk: int, ll: int|
                0 <= kk < fresh@.len() && 0 <= ll < fresh@.len() && kk != ll ==> #[trigger]
                fresh@[kk] != #[trigger] fresh@[ll],
            forall|kk: int, m: int|
                #![trigger refd(pre.inode_at(m), pre@, fresh@[kk] as int)]
                0 <= kk < fresh@.len() && 0 <= m < pre.max_inodes && pre.ino_alloc(m) ==> !refd(
                    pre.inode_at(m),
                    pre@,
                    fresh@[kk] as int,
                ),
        decreases needed - k,
    {
        let ghost step = *fs;
        match alloc_data_for(fs, target) {
            Some(b) => {
                proof {
                    assert forall|kk: int|
                        0 <= kk < fresh@.len() implies fs.in_data_area(
                        #[trigger] fresh@[kk] as int,
                    ) && fs.data_bit(fresh@[kk] as int) && fresh@[kk] != b by {
                        assert(step.data_bit(fresh@[kk] as int));
                        assert(!step.data_bit(b as int));
                    }
                    assert forall|b2: int|
                        #![trigger fs@[b2]]
                        0 <= b2 < pre@.len() && fs@[b2] != pre@[b2] implies pre.data_bitmap.start()
                        <= b2 < pre.data_area_start by {
                        if fs@[b2] != step@[b2] {
                            assert(step.data_bitmap.start() <= b2 < step.data_area_start);
                        } else {
                            assert(step@[b2] != pre@[b2]);
                        }
                    }
                    assert forall|b2: int|
                        pre.in_data_area(b2) && pre.data_bit(b2) implies fs.data_bit(b2) by {
                        assert(step.data_bit(b2));
                        if b2 != b {
                            assert(fs.data_bit(b2) == step.data_bit(b2));
                        }
                    }
                    assert forall|m: int|
                        0 <= m < pre.max_inodes && pre.ino_alloc(m) implies !refd(
                        pre.inode_at(m),
                        pre@,
                        b as int,
                    ) by {
                        assert(step.ino_alloc(m) == pre.ino_alloc(m) && step.inode_at(m)
                            == pre.inode_at(m));
                        assert(!refd(fs.inode_at(m), fs@, b as int));
                        assert(refd(fs.inode_at(m), fs@, b as int) <==> refd(
                            step.inode_at(m),
                            step@,
                            b as int,
                        ));
                        assert(refd(step.inode_at(m), step@, b as int) <==> refd(
                            pre.inode_at(m),
                            pre@,
                            b as int,
                        ));
                    }
                    EasyFileSystem::lemma_free_flip(
                        &step,
                        &*fs,
                        b as int,
                        step.data_area_blocks as int,
                    );
                }
                fresh.push(b);
                k += 1;
            },
            None => {
                // A partial batch stays allocated; the grow fails without
                // rollback, and the file keeps its old size. Exhaustion here
                // means the image had fewer free blocks than the growth
                // needs.
                proof {
                    assert forall|b2: int| fs.in_data_area(b2) implies fs.data_bit(b2) by {
                        assert(step.data_bit(b2));
                    }
                    fs.lemma_free_all_set(fs.data_area_blocks as int);
                    EasyFileSystem::lemma_free_same(&step, &*fs, step.data_area_blocks as int);
                    assert(step.free_data() == pre.free_data() - k);
                    assert(pre.free_data() == k);
                    assert(k < needed);
                }
                return Err(FsError::OutOfSpace);
            },
        }
    }
    proof {
        fs.lemma_free_nonneg(fs.data_area_blocks as int);
        assert(pre.free_data() >= needed);
    }
    Ok(fresh)
}

} // verus!

verus! {

/// Allocates one fresh data block, phrased for one inode of interest: that
/// inode's record, contents, and references are untouched, and the block is
/// fresh to it.
#[verifier::spinoff_prover]
#[verifier::rlimit(100)]
fn alloc_data_for(fs: &mut EasyFileSystem, target: Ghost<int>) -> (r: Option<u32>)
    requires
        old(fs).wf(),
        0 <= target@ < old(fs).max_inodes,
        old(fs).ino_alloc(target@),
    ensures
        final(fs).wf(),
        final(fs).same_layout(old(fs)),
        final(fs)@.len() == old(fs)@.len(),
        final(fs).ino_alloc(target@),
        forall|m: int|
            0 <= m < old(fs).max_inodes ==> final(fs).ino_alloc(m) == old(fs).ino_alloc(m)
                && final(fs).inode_at(m) == old(fs).inode_at(m),
        forall|m: int, b2: int|
            #![trigger refd(final(fs).inode_at(m), final(fs)@, b2)]
            0 <= m < old(fs).max_inodes && old(fs).ino_alloc(m) ==> (refd(
                final(fs).inode_at(m),
                final(fs)@,
                b2,
            ) <==> refd(old(fs).inode_at(m), old(fs)@, b2)),
        file_bytes(final(fs).inode_at(target@), final(fs)@) == file_bytes(
            old(fs).inode_at(target@),
            old(fs)@,
        ),
        dir_entries(final(fs).inode_at(target@), final(fs)@) == dir_entries(
            old(fs).inode_at(target@),
            old(fs)@,
        ),
        r is Some ==> final(fs).in_data_area(r.unwrap() as int) && !old(fs).data_bit(
            r.unwrap() as int,
        ) && final(fs).data_bit(r.unwrap() as int),
        r is Some ==> forall|b2: int|
            old(fs).in_data_area(b2) && b2 != r.unwrap() ==> final(fs).data_bit(b2) == old(fs).data_bit(b2),
        r is Some ==> forall|m: int|
            #![trigger refd(final(fs).inode_at(m), final(fs)@, r.unwrap() as int)]
            0 <= m < old(fs).max_inodes && old(fs).ino_alloc(m) ==> !refd(
                final(fs).inode_at(m),
                final(fs)@,
                r.unwrap() as int,
            ),
        forall|b2: int|
            #![trigger final(fs)@[b2]]
            0 <= b2 < old(fs)@.len() && final(fs)@[b2] != old(fs)@[b2] ==> old(fs).data_bitmap.start() <= b2 < old(fs).data_area_start,
        r is None ==> final(fs)@ == old(fs)@ && (forall|b2: int|
            old(fs).in_data_area(b2) ==> old(fs).data_bit(b2)),
{
    let r = fs.alloc_data();
    proof {
        if r is Some {
            assert(!refd(old(fs).inode_at(target@), old(fs)@, r.unwrap() as int));
        }
    }
    r
}

/// Frees one data block, phrased for one inode of interest.
#[verifier::spinoff_prover]
#[verifier::rlimit(100)]
fn dealloc_data_for(fs: &mut EasyFileSystem, b: u32, target: Ghost<int>)
    requires
        old(fs).wf(),
        0 <= target@ < old(fs).max_inodes,
        old(fs).ino_alloc(target@),
        old(fs).in_data_area(b as int),
        old(fs).data_bit(b as int),
        !refd(old(fs).inode_at(target@), old(fs)@, b as int),
        forall|m: int|
            0 <= m < old(fs).max_inodes && old(fs).ino_alloc(m) && m != target@ ==> !refd(
                old(fs).inode_at(m),
                old(fs)@,
                b as int,
            ),
    ensures
        final(fs).wf(),
        final(fs).same_layout(old(fs)),
        final(fs)@.len() == old(fs)@.len(),
        final(fs).ino_alloc(target@),
        final(fs).inode_at(target@) == old(fs).inode_at(target@),
        forall|b2: int|
            refd(final(fs).inode_at(target@), final(fs)@, b2) <==> refd(
                old(fs).inode_at(target@),
                old(fs)@,
                b2,
            ),
        file_bytes(final(fs).inode_at(target@), final(fs)@) == file_bytes(
            old(fs).inode_at(target@),
            old(fs)@,
        ),
        dir_entries(final(fs).inode_at(target@), final(fs)@) == dir_entries(
            old(fs).inode_at(target@),
            old(fs)@,
        ),
        !final(fs).data_bit(b as int),
        forall|b2: int|
            old(fs).in_data_area(b2) && b2 != b ==> final(fs).data_bit(b2) == old(fs).data_bit(b2),
{
    fs.dealloc_data(b);
}

} // verus!

verus! {

impl Inode {
    /// Writes `buf` at `offset`, growing the file first when the write ends
    /// past its size. On success the whole buffer is stored at `offset`;
    /// when the data area cannot supply the growth, nothing is written.
    #[verifier::spinoff_prover]
    #[verifier::rlimit(100)]
    pub fn write_at(&self, fs: &mut EasyFileSystem, offset: usize, buf: &Vec<u8>) -> (r: Result<
        usize,
        FsError,
    >)
        requires
            old(fs).wf(),
            self.valid(old(fs)),
            old(fs).ino_alloc(self.ino(old(fs))),
            self.inode_v(old(fs)).ty == DiskInodeType::File,
            offset + buf@.len() <= crate::layout::INODE_MAX_SIZE,
        ensures
            final(fs).layout_wf(),
            final(fs).same_layout(old(fs)),
            final(fs)@.len() == old(fs)@.len(),
            r is Ok ==> final(fs).wf(),
            r is Ok ==> forall|m: int|
                0 <= m < old(fs).max_inodes ==> final(fs).ino_alloc(m) == old(fs).ino_alloc(m),
            r is Ok ==> forall|m: int|
                0 <= m < old(fs).max_inodes && old(fs).ino_alloc(m) && m != self.ino(old(fs))
                    ==> final(fs).inode_at(m) == old(fs).inode_at(m) && file_bytes(
                    final(fs).inode_at(m),
                    final(fs)@,
                ) == file_bytes(old(fs).inode_at(m), old(fs)@) && dir_entries(
                    final(fs).inode_at(m),
                    final(fs)@,
                ) == dir_entries(old(fs).inode_at(m), old(fs)@),
            r is Err ==> old(fs).free_data() < write_growth(
                self.inode_v(old(fs)).size as int,
                offset as int,
                buf@.len() as int,
            ),
            r is Ok ==> old(fs).free_data() >= write_growth(
                self.inode_v(old(fs)).size as int,
                offset as int,
                buf@.len() as int,
            ),
            match r {
                Ok(n) => {
                    &&& n == buf@.len()
                    &&& self.inode_v(final(fs)).size as int == (if offset + buf@.len()
                        > self.inode_v(old(fs)).size as int {
                        offset + buf@.len()
                    } else {
                        self.inode_v(old(fs)).size as int
                    })
                    &&& self.inode_v(final(fs)).ty == self.inode_v(old(fs)).ty
                    &&& self.inode_v(final(fs)).parent == self.inode_v(old(fs)).parent
                    &&& file_bytes(self.inode_v(final(fs)), final(fs)@).subrange(
                        offset as int,
                        offset + buf@.len(),
                    ) =~= buf@
                    &&& forall|q: int|
                        0 <= q < self.inode_v(old(fs)).size && !(offset <= q < offset
                            + buf@.len()) ==> file_bytes(self.inode_v(final(fs)), final(fs)@)[q]
                            == file_bytes(self.inode_v(old(fs)), old(fs)@)[q]
                },
                Err(e) => {
                    &&& e is OutOfSpace
                    &&& self.inode_v(final(fs)) == self.inode_v(old(fs))
                },
            },
    {
        let ghost pre = *old(fs);
        proof {
            pre.lemma_wf_layout();
        }
        let nid = self.inode_id(fs);
        let ghost nn = nid as int;
        let mut d = fs.read_inode(nid);
        proof {
            crate::vfs::lemma_fs_identical(&pre, fs);
            EasyFileSystem::lemma_free_same(&pre, &*fs, pre.data_area_blocks as int);
        }
        let end = offset + buf.len();
        if end > d.size as usize {
            proof {
                reveal(write_growth);
                assert(write_growth(d@.size as int, offset as int, buf@.len() as int)
                    == crate::layout::meta_total(blocks_for(end as int))
                    - crate::layout::meta_total(blocks_for(d@.size as int)));
            }
            match grow_file(fs, nid, &mut d, end as u32) {
                Err(e) => {
                    return Err(FsError::OutOfSpace);
                },
                Ok(()) => {},
            }
        } else {
            proof {
                reveal(write_growth);
                assert(write_growth(d@.size as int, offset as int, buf@.len() as int) == 0);
                pre.lemma_free_nonneg(pre.data_area_blocks as int);
            }
        }
        let ghost gfs = *fs;
        proof {
            if end <= pre.inode_at(nn).size as usize {
                gfs.lemma_wf_inode(nn);
            }
            assert(gfs.wf());
        }
        let written = write_clipped(fs, Ghost(nn), &d, offset, buf);
        proof {
            lemma_wf_after_file_write(&gfs, &*fs, nn, d@);
        }
        Ok(written)
    }

    /// Truncates this file to size zero and returns every block it held to
    /// the allocator.
    #[verifier::spinoff_prover]
    #[verifier::rlimit(100)]
    pub fn clear(&self, fs: &mut EasyFileSystem)
        requires
            old(fs).wf(),
            self.valid(old(fs)),
            old(fs).ino_alloc(self.ino(old(fs))),
            self.inode_v(old(fs)).ty == DiskInodeType::File,
        ensures
            final(fs).wf(),
            final(fs).same_layout(old(fs)),
            final(fs)@.len() == old(fs)@.len(),
            self.inode_v(final(fs)).size == 0,
            self.inode_v(final(fs)).ty == self.inode_v(old(fs)).ty,
            self.inode_v(final(fs)).parent == self.inode_v(old(fs)).parent,
            file_bytes(self.inode_v(final(fs)), final(fs)@) =~= Seq::<u8>::empty(),
            forall|m: int|
                0 <= m < old(fs).max_inodes ==> final(fs).ino_alloc(m) == old(fs).ino_alloc(m),
    {
        let ghost pre = *old(fs);
        proof {
            pre.lemma_wf_layout();
            pre.lemma_wf_inode(self.ino(&pre));
        }
        let nid = self.inode_id(fs);
        let ghost nn = nid as int;
        let mut d = fs.read_inode(nid);
        let freed = d.clear_size(&mut fs.cache);
        fs.write_inode(nid, &d);
        let ghost mid = *fs;
        proof {
            assert forall|b: int, m: int|
                #![trigger mid@[b], refd(pre.inode_at(m), pre@, b)]
                0 <= b < pre@.len() && mid@[b] != pre@[b] && 0 <= m < pre.max_inodes && m != nn
                    && pre.ino_alloc(m) implies !refd(pre.inode_at(m), pre@, b) by {
                pre.lemma_block_in_range(nn);
                if refd(pre.inode_at(m), pre@, b) {
                    pre.lemma_wf_inode(m);
                    assert(pre.in_data_area(b));
                }
            }
            assert(blocks_for(0) == 0 && crate::layout::l2_count(0) == 0);
            assert forall|b: int| !(#[trigger] refd(mid.inode_at(nn), mid@, b)) by {}
            assert(dir_entries(mid.inode_at(nn), mid@).len() == 0 || mid.inode_at(nn).ty
                != DiskInodeType::Directory);
            EasyFileSystem::lemma_wf_after_inode_update(&pre, &mid, nn);
            assert forall|kk: int, m: int|
                #![trigger refd(mid.inode_at(m), mid@, freed@[kk] as int)]
                0 <= kk < freed@.len() && 0 <= m < mid.max_inodes && mid.ino_alloc(m) implies !refd(
                mid.inode_at(m),
                mid@,
                freed@[kk] as int,
            ) by {
                if m == nn {
                } else {
                    if refd(mid.inode_at(m), mid@, freed@[kk] as int) {
                        pre.lemma_wf_inode(m);
                        assert forall|b2: int|
                            #[trigger] refd(pre.inode_at(m), pre@, b2) implies mid@[b2]
                            == pre@[b2] by {}
                        crate::layout::lemma_inode_same(pre.inode_at(m), pre@, mid@);
                        assert(refd(pre.inode_at(m), pre@, freed@[kk] as int));
                        assert(refd(pre.inode_at(nn), pre@, freed@[kk] as int));
                        pre.lemma_wf_disjoint(nn, m, freed@[kk] as int);
                    }
                }
            }
        }
        proof {
            assert forall|m: int|
                0 <= m < pre.max_inodes implies mid.ino_alloc(m) == pre.ino_alloc(m) by {}
        }
        // Return every freed block to the data allocator.
        let mut k: usize = 0;
        while k < freed.len()
            invariant
                pre == *old(fs),
                pre.max_inodes == mid.max_inodes,
                forall|m: int|
                    0 <= m < pre.max_inodes ==> mid.ino_alloc(m) == pre.ino_alloc(m),
                fs.wf(),
                fs.same_layout(&mid),
                fs@.len() == mid@.len(),
                mid.wf(),
                0 <= nn < mid.max_inodes,
                fs.ino_alloc(nn),
                mid.ino_alloc(nn),
                k <= freed@.len(),
                fs.inode_at(nn) == mid.inode_at(nn),
                mid.inode_at(nn).size == 0,
                forall|m: int| 0 <= m < mid.max_inodes ==> fs.ino_alloc(m) == mid.ino_alloc(m),
                forall|m: int| 0 <= m < mid.max_inodes ==> fs.inode_at(m) == mid.inode_at(m),
                forall|kk: int|
                    k <= kk < freed@.len() ==> mid.in_data_area(#[trigger] freed@[kk] as int)
                        && fs.data_bit(freed@[kk] as int),
                forall|kk: int, ll: int|
                    0 <= kk < freed@.len() && 0 <= ll < freed@.len() && kk != ll
                        ==> #[trigger] freed@[kk] != #[trigger] freed@[ll],
                forall|kk: int, m: int|
                    #![trigger refd(fs.inode_at(m), fs@, freed@[kk] as int)]
                    k <= kk < freed@.len() && 0 <= m < fs.max_inodes && fs.ino_alloc(m) ==> !refd(
                        fs.inode_at(m),
                        fs@,
                        freed@[kk] as int,
                    ),
            decreases freed@.len() - k,
        {
            let b = freed[k];
            let ghost step = *fs;
            fs.dealloc_data(b);
            proof {
                assert forall|kk: int|
                    k + 1 <= kk < freed@.len() implies mid.in_data_area(
                    #[trigger] freed@[kk] as int,
                ) && fs.data_bit(freed@[kk] as int) by {
                    assert(freed@[kk] != freed@[k as int]);
                    assert(step.data_bit(freed@[kk] as int));
                }
                assert forall|kk: int, m: int|
                    #![trigger refd(fs.inode_at(m), fs@, freed@[kk] as int)]
                    k + 1 <= kk < freed@.len() && 0 <= m < fs.max_inodes && fs.ino_alloc(
                        m,
                    ) implies !refd(fs.inode_at(m), fs@, freed@[kk] as int) by {
                    assert(!refd(step.inode_at(m), step@, freed@[kk] as int));
                }
            }
            k += 1;
        }
        proof {
            assert(file_bytes(fs.inode_at(nn), fs@) =~= Seq::<u8>::empty());
        }
    }
}

} // verus!

verus! {

/// Grows the on-disk record `d` of inode `nid` to `new_size`, allocating
/// the blocks it needs; on exhaustion the file keeps its old size.
#[verifier::spinoff_prover]
#[verifier::rlimit(100)]
fn grow_file(fs: &mut EasyFileSystem, nid: u32, d: &mut DiskInode, new_size: u32) -> (r: Result<
    (),
    FsError,
>)
    requires
        old(fs).wf(),
        nid < old(fs).max_inodes,
        old(fs).ino_alloc(nid as int),
        old(d)@ == old(fs).inode_at(nid as int),
        old(d)@.size <= new_size <= crate::layout::INODE_MAX_SIZE,
    ensures
        final(fs).layout_wf(),
        final(fs).same_layout(old(fs)),
        final(fs)@.len() == old(fs)@.len(),
        r is Ok <==> old(fs).free_data() >= crate::layout::meta_total(
            blocks_for(new_size as int),
        ) - crate::layout::meta_total(blocks_for(old(d)@.size as int)),
        match r {
            Ok(()) => {
                &&& final(d)@ == final(fs).inode_at(nid as int)
                &&& final(d)@.size == new_size
                &&& final(d)@.ty == old(d)@.ty
                &&& final(d)@.parent == old(d)@.parent
                &&& inode_ok(final(d)@, final(fs)@)
                &&& forall|b2: int|
                    #[trigger] refd(final(d)@, final(fs)@, b2) ==> final(fs).in_data_area(b2)
                        && final(fs).data_bit(b2)
                &&& file_bytes(final(d)@, final(fs)@).subrange(0, old(d)@.size as int)
                    =~= file_bytes(old(d)@, old(fs)@)
                &&& (old(d)@.ty == DiskInodeType::File ==> final(fs).wf())
                &&& forall|m: int|
                    0 <= m < old(fs).max_inodes ==> final(fs).ino_alloc(m) == old(fs).ino_alloc(m)
                &&& forall|m: int|
                    0 <= m < old(fs).max_inodes && m != nid ==> final(fs).inode_at(m) == old(fs).inode_at(m)
                &&& forall|b: int|
                    old(fs).in_data_area(b) && old(fs).data_bit(b) ==> final(fs).data_bit(b)
                &&& forall|b: int, m: int|
                    #![trigger final(fs)@[b], refd(old(fs).inode_at(m), old(fs)@, b)]
                    0 <= b < old(fs)@.len() && final(fs)@[b] != old(fs)@[b] && 0 <= m < old(
                        fs,
                    ).max_inodes && m != nid && old(fs).ino_alloc(m) ==> !refd(
                        old(fs).inode_at(m),
                        old(fs)@,
                        b,
                    )
                &&& forall|b: int, m: int|
                    #![trigger refd(final(d)@, final(fs)@, b), refd(old(fs).inode_at(m), old(fs)@, b)]
                    0 <= m < old(fs).max_inodes && m != nid && old(fs).ino_alloc(m) && refd(
                        final(d)@,
                        final(fs)@,
                        b,
                    ) ==> !refd(old(fs).inode_at(m), old(fs)@, b)
                &&& (old(d)@.ty == DiskInodeType::File ==> forall|m: int|
                    0 <= m < old(fs).max_inodes && old(fs).ino_alloc(m) && m != nid ==> file_bytes(
                        final(fs).inode_at(m),
                        final(fs)@,
                    ) == file_bytes(old(fs).inode_at(m), old(fs)@) && dir_entries(
                        final(fs).inode_at(m),
                        final(fs)@,
                    ) == dir_entries(old(fs).inode_at(m), old(fs)@) && (forall|b2: int|
                        refd(final(fs).inode_at(m), final(fs)@, b2) <==> refd(
                            old(fs).inode_at(m),
                            old(fs)@,
                            b2,
                        )))
            },
            Err(e) => {
                &&& e is OutOfSpace
                &&& *final(d) == *old(d)
                &&& final(fs).inode_at(nid as int) == old(fs).inode_at(nid as int)
                &&& file_bytes(final(fs).inode_at(nid as int), final(fs)@) == file_bytes(
                    old(fs).inode_at(nid as int),
                    old(fs)@,
                )
            },
        },
{
    let ghost pre = *old(fs);
    let ghost nn = nid as int;
    proof {
        pre.lemma_wf_layout();
    }
    let needed = d.blocks_num_needed(new_size);
    match gather_blocks(fs, needed, Ghost(nn)) {
        Err(e) => {
            proof {
                let ghost cur = *fs;
                cur.lemma_wf_layout();
            }
            Err(FsError::OutOfSpace)
        },
        Ok(fresh) => {
            proof {
                let ghost g = *fs;
                assert forall|b2: int|
                    #![trigger g@[b2]]
                    0 <= b2 < pre@.len() && g@[b2] != pre@[b2] implies pre.data_bitmap.start()
                    <= b2 < pre.data_area_start by {}
                assert forall|b2: int|
                    pre.in_data_area(b2) && pre.data_bit(b2) implies g.data_bit(b2) by {}
                assert forall|kk: int, m: int|
                    #![trigger refd(pre.inode_at(m), pre@, fresh@[kk] as int)]
                    0 <= kk < fresh@.len() && 0 <= m < pre.max_inodes && pre.ino_alloc(
                        m,
                    ) implies !refd(pre.inode_at(m), pre@, fresh@[kk] as int) by {}
            }
            extend_index(fs, nid, d, new_size, fresh, Ghost(pre));
            Ok(())
        },
    }
}

/// Extends the block index of inode `nid` with the gathered blocks and
/// stores the grown record. `pre` is the state from before the gather, to
/// which the frame conditions refer.
#[verifier::spinoff_prover]
#[verifier::rlimit(100)]
fn extend_index(
    fs: &mut EasyFileSystem,
    nid: u32,
    d: &mut DiskInode,
    new_size: u32,
    fresh: Vec<u32>,
    pre: Ghost<EasyFileSystem>,
)
    requires
        pre@.wf(),
        nid < pre@.max_inodes,
        pre@.ino_alloc(nid as int),
        old(d)@ == pre@.inode_at(nid as int),
        old(d)@.size <= new_size <= crate::layout::INODE_MAX_SIZE,
        fresh@.len() == crate::layout::meta_total(blocks_for(new_size as int))
            - crate::layout::meta_total(blocks_for(old(d)@.size as int)),
        // the state after the gather
        old(fs).wf(),
        old(fs).same_layout(&pre@),
        old(fs)@.len() == pre@@.len(),
        old(fs).ino_alloc(nid as int),
        old(fs).inode_at(nid as int) == old(d)@,
        forall|b2: int|
            #![trigger old(fs)@[b2]]
            0 <= b2 < pre@@.len() && old(fs)@[b2] != pre@@[b2] ==> pre@.data_bitmap.start() <= b2
                < pre@.data_area_start,
        forall|b2: int| pre@.in_data_area(b2) && pre@.data_bit(b2) ==> old(fs).data_bit(b2),
        forall|kk: int|
            0 <= kk < fresh@.len() ==> old(fs).in_data_area(#[trigger] fresh@[kk] as int) && old(fs).data_bit(fresh@[kk] as int),
        forall|kk: int, ll: int|
            0 <= kk < fresh@.len() && 0 <= ll < fresh@.len() && kk != ll ==> #[trigger] fresh@[kk]
                != #[trigger] fresh@[ll],
        forall|kk: int|
            0 <= kk < fresh@.len() ==> !refd(
                old(fs).inode_at(nid as int),
                old(fs)@,
                #[trigger] fresh@[kk] as int,
            ),
        forall|kk: int, m: int|
            #![trigger refd(pre@.inode_at(m), pre@@, fresh@[kk] as int)]
            0 <= kk < fresh@.len() && 0 <= m < pre@.max_inodes && pre@.ino_alloc(m) ==> !refd(
                pre@.inode_at(m),
                pre@@,
                fresh@[kk] as int,
            ),
    ensures
        final(fs).layout_wf(),
        final(fs).same_layout(&pre@),
        final(fs)@.len() == pre@@.len(),
        final(d)@ == final(fs).inode_at(nid as int),
        final(d)@.size == new_size,
        final(d)@.ty == old(d)@.ty,
        final(d)@.parent == old(d)@.parent,
        inode_ok(final(d)@, final(fs)@),
        forall|b2: int|
            #[trigger] refd(final(d)@, final(fs)@, b2) ==> final(fs).in_data_area(b2) && final(fs).data_bit(b2),
        file_bytes(final(d)@, final(fs)@).subrange(0, old(d)@.size as int) =~= file_bytes(
            old(d)@,
            pre@@,
        ),
        old(d)@.ty == DiskInodeType::File ==> final(fs).wf(),
        forall|m: int| 0 <= m < pre@.max_inodes ==> final(fs).ino_alloc(m) == pre@.ino_alloc(m),
        forall|m: int|
            0 <= m < pre@.max_inodes && m != nid ==> final(fs).inode_at(m) == pre@.inode_at(m),
        forall|b: int| pre@.in_data_area(b) && pre@.data_bit(b) ==> final(fs).data_bit(b),
        forall|b: int, m: int|
            #![trigger final(fs)@[b], refd(pre@.inode_at(m), pre@@, b)]
            0 <= b < pre@@.len() && final(fs)@[b] != pre@@[b] && 0 <= m < pre@.max_inodes && m
                != nid && pre@.ino_alloc(m) ==> !refd(pre@.inode_at(m), pre@@, b),
        forall|b: int, m: int|
            #![trigger refd(final(d)@, final(fs)@, b), refd(pre@.inode_at(m), pre@@, b)]
            0 <= m < pre@.max_inodes && m != nid && pre@.ino_alloc(m) && refd(
                final(d)@,
                final(fs)@,
                b,
            ) ==> !refd(pre@.inode_at(m), pre@@, b),
        old(d)@.ty == DiskInodeType::File ==> forall|m: int|
            0 <= m < pre@.max_inodes && pre@.ino_alloc(m) && m != nid ==> file_bytes(
                final(fs).inode_at(m),
                final(fs)@,
            ) == file_bytes(pre@.inode_at(m), pre@@) && dir_entries(
                final(fs).inode_at(m),
                final(fs)@,
            ) == dir_entries(pre@.inode_at(m), pre@@) && (forall|b2: int|
                refd(final(fs).inode_at(m), final(fs)@, b2) <==> refd(
                    pre@.inode_at(m),
                    pre@@,
                    b2,
                )),
{
    let ghost nn = nid as int;
    let ghost gpre = *old(fs);
    proof {
        gpre.lemma_wf_layout();
        gpre.lemma_wf_inode(nn);
        assert(crate::layout::fresh_blocks(d@, fs@, fresh@)) by {
            assert forall|kk: int|
                0 <= kk < fresh@.len() implies 0 < #[trigger] fresh@[kk] < fs@.len() && !refd(
                    d@,
                    fs@,
                    fresh@[kk] as int,
                ) by {
                assert(fs.in_data_area(fresh@[kk] as int));
                assert(!refd(fs.inode_at(nn), fs@, fresh@[kk] as int));
            }
        }
        assert(inode_ok(d@, fs@));
    }
    d.increase_size(&mut fs.cache, new_size, fresh);
    let ghost ginc = *fs;
    fs.write_inode(nid, d);
    proof {
        lemma_grow_wf(&pre@, &gpre, &ginc, &*fs, old(d)@, d@, nn, fresh@);
    }
}

} // verus!

verus! {

/// Writes `buf` into the (already large enough) file of inode `nn`, whose
/// record is `d`. Afterwards the file's bytes are the old ones with `buf`
/// spliced in at `offset`; only data blocks of `nn` changed, so every inode
/// record, every bitmap bit, and the block index of `nn` read as before.
#[verifier::spinoff_prover]
#[verifier::rlimit(100)]
fn write_clipped(
    fs: &mut EasyFileSystem,
    nn: Ghost<int>,
    d: &DiskInode,
    offset: usize,
    buf: &Vec<u8>,
) -> (written: usize)
    requires
        old(fs).layout_wf(),
        0 <= nn@ < old(fs).max_inodes,
        d@ == old(fs).inode_at(nn@),
        inode_ok(d@, old(fs)@),
        forall|b2: int| #[trigger] refd(d@, old(fs)@, b2) ==> old(fs).in_data_area(b2),
        offset + buf@.len() <= d@.size,
    ensures
        final(fs).layout_wf(),
        final(fs).same_layout(old(fs)),
        final(fs)@.len() == old(fs)@.len(),
        written == buf@.len(),
        forall|m: int|
            0 <= m < old(fs).max_inodes ==> final(fs).inode_at(m) == old(fs).inode_at(m)
                && final(fs).ino_alloc(m) == old(fs).ino_alloc(m),
        forall|b: int| old(fs).in_data_area(b) ==> final(fs).data_bit(b) == old(fs).data_bit(b),
        forall|b2: int| refd(d@, final(fs)@, b2) <==> refd(d@, old(fs)@, b2),
        inode_ok(d@, final(fs)@),
        forall|b: int|
            #![trigger final(fs)@[b]]
            0 <= b < old(fs)@.len() && final(fs)@[b] != old(fs)@[b] ==> exists|x: int|
                0 <= x < blocks_for(d@.size as int) && #[trigger] crate::layout::dbid(
                    d@,
                    old(fs)@,
                    x,
                ) == b,
        file_bytes(d@, final(fs)@) =~= crate::bytes::splice(
            file_bytes(d@, old(fs)@),
            offset as int,
            buf@,
        ),
{
    let ghost gfs = *old(fs);
    let written = d.write_at(&mut fs.cache, offset, buf);
    proof {
        lemma_untouched_after_data_write(&gfs, &*fs, nn@, d@);
        assert forall|b: int|
            gfs.in_data_area(b) implies fs.data_bit(b) == gfs.data_bit(b) by {
            let mm = b - gfs.data_area_start;
            crate::bitmap::lemma_bit_block_range(gfs.data_bitmap.num_blocks(), mm);
            assert(fs@[gfs.data_bitmap.start() + mm / 4096] == gfs@[gfs.data_bitmap.start() + mm
                / 4096]) by {
                if fs@[gfs.data_bitmap.start() + mm / 4096] != gfs@[gfs.data_bitmap.start() + mm
                    / 4096] {
                    let x = choose|x: int|
                        0 <= x < blocks_for(d@.size as int) && #[trigger] crate::layout::dbid(
                            d@,
                            gfs@,
                            x,
                        ) == gfs.data_bitmap.start() + mm / 4096;
                    assert(refd(d@, gfs@, gfs.data_bitmap.start() + mm / 4096));
                    assert(gfs.in_data_area(gfs.data_bitmap.start() + mm / 4096));
                }
            }
        }
        assert(written == buf@.len());
        assert(file_bytes(d@, fs@) =~= crate::bytes::splice(
            file_bytes(d@, gfs@),
            offset as int,
            buf@,
        )) by {
            assert(file_bytes(d@, fs@) =~= crate::bytes::splice(
                file_bytes(d@, gfs@),
                offset as int,
                buf@.take(written as int),
            ));
            assert(buf@.take(written as int) =~= buf@);
        }
    }
    written
}

} // verus!

verus! {

/// A write that only touched an inode's own data blocks leaves the layout,
/// the bitmaps, and every inode slot as they were.
#[verifier::spinoff_prover]
#[verifier::rlimit(100)]
pub proof fn lemma_untouched_after_data_write(
    gfs: &EasyFileSystem,
    fin: &EasyFileSystem,
    nn: int,
    v: InodeV,
)
    requires
        gfs.layout_wf(),
        fin.same_layout(gfs),
        fin.cache.wf(),
        fin@.len() == gfs@.len(),
        0 <= nn < gfs.max_inodes,
        v == gfs.inode_at(nn),
        inode_ok(v, gfs@),
        forall|b: int| #[trigger] refd(v, gfs@, b) ==> gfs.in_data_area(b),
        forall|b: int|
            #![trigger fin@[b]]
            0 <= b < gfs@.len() && fin@[b] != gfs@[b] ==> exists|x: int|
                0 <= x < blocks_for(v.size as int) && #[trigger] crate::layout::dbid(v, gfs@, x)
                    == b,
    ensures
        fin.layout_wf(),
        forall|m: int| 0 <= m < gfs.max_inodes ==> fin.ino_alloc(m) == gfs.ino_alloc(m),
        forall|m: int| 0 <= m < gfs.max_inodes ==> fin.inode_at(m) == gfs.inode_at(m),
        forall|b2: int| refd(v, fin@, b2) <==> refd(v, gfs@, b2),
        inode_ok(v, fin@),
{
    assert forall|m: int|
        0 <= m < gfs.max_inodes implies fin.ino_alloc(m) == gfs.ino_alloc(m) by {
        crate::bitmap::lemma_bit_block_range(gfs.inode_bitmap.num_blocks(), m);
        assert(fin@[1 + m / 4096] == gfs@[1 + m / 4096]) by {
            if fin@[1 + m / 4096] != gfs@[1 + m / 4096] {
                let x = choose|x: int|
                    0 <= x < blocks_for(v.size as int) && #[trigger] crate::layout::dbid(
                        v,
                        gfs@,
                        x,
                    ) == 1 + m / 4096;
                assert(refd(v, gfs@, 1 + m / 4096));
                assert(gfs.in_data_area(1 + m / 4096));
            }
        }
    }
    assert forall|m: int|
        0 <= m < gfs.max_inodes implies fin.inode_at(m) == gfs.inode_at(m) by {
        gfs.lemma_block_in_range(m);
        assert(fin@[gfs.inode_block(m)] == gfs@[gfs.inode_block(m)]) by {
            if fin@[gfs.inode_block(m)] != gfs@[gfs.inode_block(m)] {
                let x = choose|x: int|
                    0 <= x < blocks_for(v.size as int) && #[trigger] crate::layout::dbid(
                        v,
                        gfs@,
                        x,
                    ) == gfs.inode_block(m);
                assert(refd(v, gfs@, gfs.inode_block(m)));
                assert(gfs.in_data_area(gfs.inode_block(m)));
            }
        }
    }
    assert(fin.layout_wf()) by {
        assert(fin@[0] == gfs@[0]) by {
            if fin@[0] != gfs@[0] {
                let x = choose|x: int|
                    0 <= x < blocks_for(v.size as int) && #[trigger] crate::layout::dbid(
                        v,
                        gfs@,
                        x,
                    ) == 0;
                assert(refd(v, gfs@, 0));
                assert(gfs.in_data_area(0));
            }
        }
    }
    let db = blocks_for(v.size as int);
    if db > crate::layout::INODE_DIRECT_COUNT {
        assert(fin@[v.indirect1 as int] == gfs@[v.indirect1 as int]) by {
            if fin@[v.indirect1 as int] != gfs@[v.indirect1 as int] {
                let x = choose|x: int|
                    0 <= x < db && #[trigger] crate::layout::dbid(v, gfs@, x) == v.indirect1;
            }
        }
    }
    if db > crate::layout::INDIRECT1_BOUND {
        assert(fin@[v.indirect2 as int] == gfs@[v.indirect2 as int]) by {
            if fin@[v.indirect2 as int] != gfs@[v.indirect2 as int] {
                let x = choose|x: int|
                    0 <= x < db && #[trigger] crate::layout::dbid(v, gfs@, x) == v.indirect2;
            }
        }
    }
    assert forall|j: int|
        0 <= j < crate::layout::l2_count(db) implies 0 <= #[trigger] crate::layout::l2bid(
        v,
        gfs@,
        j,
    ) < gfs@.len() && fin@[crate::layout::l2bid(v, gfs@, j)] == gfs@[crate::layout::l2bid(
        v,
        gfs@,
        j,
    )] by {
        if fin@[crate::layout::l2bid(v, gfs@, j)] != gfs@[crate::layout::l2bid(v, gfs@, j)] {
            let x = choose|x: int|
                0 <= x < db && #[trigger] crate::layout::dbid(v, gfs@, x) == crate::layout::l2bid(
                    v,
                    gfs@,
                    j,
                );
        }
    }
    crate::layout::lemma_map_frame(v, gfs@, fin@, db);
}

} // verus!





verus! {

/// After a grow of inode `nn` — fresh blocks gathered, the block index
/// extended, and the record stored — the filesystem reads as before
/// everywhere else, the grown inode is valid with every referenced block
/// backed by a set bit, and for a regular file the whole invariant holds
/// again. `pre` is the state before gathering, `gpre` after it, `ginc`
/// after the index extension, and `fin` after the record store.
#[verifier::spinoff_prover]
#[verifier::rlimit(100)]
proof fn lemma_grow_wf(
    pre: &EasyFileSystem,
    gpre: &EasyFileSystem,
    ginc: &EasyFileSystem,
    fin: &EasyFileSystem,
    dv0: InodeV,
    dv: InodeV,
    nn: int,
    fresh: Seq<u32>,
)
    requires
        pre.wf(),
        0 <= nn < pre.max_inodes,
        pre.ino_alloc(nn),
        dv0 == pre.inode_at(nn),
        // after gathering
        gpre.wf(),
        gpre.same_layout(pre),
        gpre@.len() == pre@.len(),
        gpre.ino_alloc(nn),
        gpre.inode_at(nn) == dv0,
        forall|b2: int|
            #![trigger gpre@[b2]]
            0 <= b2 < pre@.len() && gpre@[b2] != pre@[b2] ==> pre.data_bitmap.start() <= b2
                < pre.data_area_start,
        forall|b2: int| pre.in_data_area(b2) && pre.data_bit(b2) ==> gpre.data_bit(b2),
        forall|kk: int|
            0 <= kk < fresh.len() ==> gpre.in_data_area(#[trigger] fresh[kk] as int)
                && gpre.data_bit(fresh[kk] as int),
        forall|kk: int, m: int|
            #![trigger refd(pre.inode_at(m), pre@, fresh[kk] as int)]
            0 <= kk < fresh.len() && 0 <= m < pre.max_inodes && pre.ino_alloc(m) ==> !refd(
                pre.inode_at(m),
                pre@,
                fresh[kk] as int,
            ),
        // after the index extension
        ginc.same_layout(pre),
        ginc@.len() == pre@.len(),
        dv.ty == dv0.ty,
        dv.parent == dv0.parent,
        inode_ok(dv, ginc@),
        forall|b2: int|
            #[trigger] refd(dv, ginc@, b2) ==> refd(dv0, gpre@, b2) || exists|kk: int|
                0 <= kk < fresh.len() && #[trigger] fresh[kk] as int == b2,
        forall|b2: int|
            #![trigger ginc@[b2]]
            0 <= b2 < pre@.len() && ginc@[b2] != gpre@[b2] ==> refd(dv, ginc@, b2),
        file_bytes(dv, ginc@).subrange(0, dv0.size as int) =~= file_bytes(dv0, gpre@),
        // after the record store
        fin.layout_wf(),
        fin.same_layout(pre),
        fin@.len() == pre@.len(),
        fin.inode_at(nn) == dv,
        forall|m: int| 0 <= m < pre.max_inodes && m != nn ==> fin.inode_at(m) == ginc.inode_at(m),
        forall|b2: int|
            #![trigger fin@[b2]]
            0 <= b2 < pre@.len() && fin@[b2] != ginc@[b2] ==> b2 == pre.inode_block(nn),
        forall|m: int| 0 <= m < pre.max_inodes ==> fin.ino_alloc(m) == ginc.ino_alloc(m),
        forall|b2: int| pre.in_data_area(b2) ==> fin.data_bit(b2) == ginc.data_bit(b2),
        forall|m: int| 0 <= m < pre.max_inodes ==> ginc.ino_alloc(m) == gpre.ino_alloc(m),
        forall|m: int| 0 <= m < pre.max_inodes ==> ginc.inode_at(m) == gpre.inode_at(m),
        forall|b2: int| pre.in_data_area(b2) ==> ginc.data_bit(b2) == gpre.data_bit(b2),
    ensures
        inode_ok(dv, fin@),
        forall|b2: int|
            #[trigger] refd(dv, fin@, b2) ==> fin.in_data_area(b2) && fin.data_bit(b2),
        forall|m: int| 0 <= m < pre.max_inodes ==> fin.ino_alloc(m) == pre.ino_alloc(m),
        forall|m: int| 0 <= m < pre.max_inodes && m != nn ==> fin.inode_at(m) == pre.inode_at(m),
        forall|b: int| pre.in_data_area(b) && pre.data_bit(b) ==> fin.data_bit(b),
        forall|b: int, m: int|
            #![trigger fin@[b], refd(pre.inode_at(m), pre@, b)]
            0 <= b < pre@.len() && fin@[b] != pre@[b] && 0 <= m < pre.max_inodes && m != nn
                && pre.ino_alloc(m) ==> !refd(pre.inode_at(m), pre@, b),
        forall|b: int, m: int|
            #![trigger refd(dv, fin@, b), refd(pre.inode_at(m), pre@, b)]
            0 <= m < pre.max_inodes && m != nn && pre.ino_alloc(m) && refd(dv, fin@, b) ==> !refd(
                pre.inode_at(m),
                pre@,
                b,
            ),
        dv.ty == DiskInodeType::File ==> fin.wf(),
        dv.ty == DiskInodeType::File ==> forall|m: int|
            0 <= m < pre.max_inodes && pre.ino_alloc(m) && m != nn ==> file_bytes(
                fin.inode_at(m),
                fin@,
            ) == file_bytes(pre.inode_at(m), pre@) && dir_entries(fin.inode_at(m), fin@)
                == dir_entries(pre.inode_at(m), pre@) && (forall|b2: int|
                refd(fin.inode_at(m), fin@, b2) <==> refd(pre.inode_at(m), pre@, b2)),
        file_bytes(dv, fin@).subrange(0, dv0.size as int) =~= file_bytes(dv0, pre@),
{
    pre.lemma_wf_layout();
    gpre.lemma_wf_inode(nn);
    pre.lemma_block_in_range(nn);
    let slot = pre.inode_block(nn);
    // Every block the grown index references lies in the data area and has
    // its bit set.
    assert forall|b2: int| #[trigger] refd(dv, ginc@, b2) implies pre.in_data_area(b2)
        && gpre.data_bit(b2) by {
        if refd(dv0, gpre@, b2) {
            assert(gpre.inode_wf(nn));
        } else {
            let kk = choose|kk: int| 0 <= kk < fresh.len() && #[trigger] fresh[kk] as int == b2;
            assert(gpre.in_data_area(fresh[kk] as int));
        }
    }
    // The record store touched only the slot block, which no index entry
    // reaches, so the index reads the same afterwards.
    assert forall|b2: int| #[trigger] refd(dv, ginc@, b2) implies fin@[b2] == ginc@[b2] by {
        if fin@[b2] != ginc@[b2] {
            assert(b2 == slot);
            assert(pre.in_data_area(b2));
        }
    }
    crate::layout::lemma_inode_same(dv, ginc@, fin@);
    assert forall|b2: int| #[trigger] refd(dv, fin@, b2) implies fin.in_data_area(b2)
        && fin.data_bit(b2) by {
        assert(refd(dv, ginc@, b2));
        assert(pre.in_data_area(b2) && gpre.data_bit(b2));
    }
    // The rest of the filesystem reads as before the gather began: the
    // gather touched bitmap blocks, the extension only blocks of this
    // inode, and the store only its slot.
    assert forall|m: int| 0 <= m < pre.max_inodes implies fin.ino_alloc(m) == pre.ino_alloc(
        m,
    ) by {
        crate::bitmap::lemma_bit_block_range(pre.inode_bitmap.num_blocks(), m);
        assert(gpre@[1 + m / 4096] == pre@[1 + m / 4096]);
        assert(gpre.ino_alloc(m) == pre.ino_alloc(m));
    }
    assert forall|m: int|
        0 <= m < pre.max_inodes && m != nn implies fin.inode_at(m) == pre.inode_at(m) by {
        pre.lemma_block_in_range(m);
        assert(gpre@[pre.inode_block(m)] == pre@[pre.inode_block(m)]);
        assert(gpre.inode_at(m) == pre.inode_at(m));
    }
    // Other inodes reference none of the changed blocks, whatever the type
    // of the grown inode.
    assert forall|b: int, m: int|
            #![trigger fin@[b], refd(gpre.inode_at(m), gpre@, b)]
            0 <= b < pre@.len() && fin@[b] != gpre@[b] && 0 <= m < pre.max_inodes && m != nn
                && gpre.ino_alloc(m) implies !refd(gpre.inode_at(m), gpre@, b) by {
            if refd(gpre.inode_at(m), gpre@, b) {
                gpre.lemma_wf_inode(m);
                assert(gpre.in_data_area(b));
                assert(b != slot);
                assert(ginc@[b] != gpre@[b] || fin@[b] != ginc@[b]);
                assert(refd(dv, ginc@, b));
                assert(gpre.inode_at(m) == pre.inode_at(m));
                assert(gpre.ino_alloc(m) == pre.ino_alloc(m));
                pre.lemma_wf_inode(m);
                assert forall|b3: int| #[trigger] refd(pre.inode_at(m), pre@, b3) implies gpre@[b3]
                    == pre@[b3] by {
                    assert(pre.in_data_area(b3));
                }
                crate::layout::lemma_inode_same(pre.inode_at(m), pre@, gpre@);
                if refd(dv0, gpre@, b) {
                    gpre.lemma_wf_disjoint(nn, m, b);
                } else {
                    let kk = choose|kk: int|
                        0 <= kk < fresh.len() && #[trigger] fresh[kk] as int == b;
                    assert(refd(pre.inode_at(m), pre@, fresh[kk] as int) == refd(
                        gpre.inode_at(m),
                        gpre@,
                        fresh[kk] as int,
                    ));
                    assert(!refd(pre.inode_at(m), pre@, fresh[kk] as int));
                }
            }
        }
    assert forall|b: int, m: int|
        #![trigger refd(dv, fin@, b), refd(gpre.inode_at(m), gpre@, b)]
        0 <= m < pre.max_inodes && m != nn && gpre.ino_alloc(m) && refd(
            dv,
            fin@,
            b,
        ) implies !refd(gpre.inode_at(m), gpre@, b) by {
        assert(refd(dv, ginc@, b));
        pre.lemma_wf_inode(m);
        assert forall|b3: int| #[trigger] refd(pre.inode_at(m), pre@, b3) implies gpre@[b3]
            == pre@[b3] by {
            assert(pre.in_data_area(b3));
        }
        crate::layout::lemma_inode_same(pre.inode_at(m), pre@, gpre@);
        if refd(dv0, gpre@, b) {
            gpre.lemma_wf_disjoint(nn, m, b);
        } else {
            let kk = choose|kk: int| 0 <= kk < fresh.len() && #[trigger] fresh[kk] as int == b;
            assert(!refd(pre.inode_at(m), pre@, fresh[kk] as int));
        }
    }
    // Frames vs the state before the gather, for every other inode.
    assert forall|b: int, m: int|
        #![trigger fin@[b], refd(pre.inode_at(m), pre@, b)]
        0 <= b < pre@.len() && fin@[b] != pre@[b] && 0 <= m < pre.max_inodes && m != nn
            && pre.ino_alloc(m) implies !refd(pre.inode_at(m), pre@, b) by {
        if refd(pre.inode_at(m), pre@, b) {
            pre.lemma_wf_inode(m);
            assert forall|b3: int| #[trigger] refd(pre.inode_at(m), pre@, b3) implies gpre@[b3]
                == pre@[b3] by {
                assert(pre.in_data_area(b3));
            }
            crate::layout::lemma_inode_same(pre.inode_at(m), pre@, gpre@);
            if gpre@[b] != pre@[b] {
                assert(pre.data_bitmap.start() <= b < pre.data_area_start);
                assert(pre.in_data_area(b));
            } else {
                assert(fin@[b] != gpre@[b]);
                assert(refd(gpre.inode_at(m), gpre@, b));
            }
        }
    }
    assert forall|b: int, m: int|
        #![trigger refd(dv, fin@, b), refd(pre.inode_at(m), pre@, b)]
        0 <= m < pre.max_inodes && m != nn && pre.ino_alloc(m) && refd(
            dv,
            fin@,
            b,
        ) implies !refd(pre.inode_at(m), pre@, b) by {
        pre.lemma_wf_inode(m);
        assert forall|b3: int| #[trigger] refd(pre.inode_at(m), pre@, b3) implies gpre@[b3]
            == pre@[b3] by {
            assert(pre.in_data_area(b3));
        }
        crate::layout::lemma_inode_same(pre.inode_at(m), pre@, gpre@);
        assert(!refd(gpre.inode_at(m), gpre@, b));
        assert(gpre.inode_at(m) == pre.inode_at(m));
    }
    // Data bits only grow across the whole step.
    assert forall|b: int| pre.in_data_area(b) && pre.data_bit(b) implies fin.data_bit(b) by {
        assert(gpre.data_bit(b));
        assert(ginc.data_bit(b) == gpre.data_bit(b));
        assert(fin.data_bit(b) == ginc.data_bit(b));
    }
    if dv.ty == DiskInodeType::File {
        if nn == 0 {
            assert(gpre.inode_at(0).ty == DiskInodeType::Directory) by {
                gpre.lemma_wf_layout();
            }
            assert(false);
        }
        assert(fin.inode_at(nn).parent < gpre.max_inodes) by {
            assert(gpre.inode_wf(nn));
        }
        EasyFileSystem::lemma_wf_after_inode_update(gpre, fin, nn);
        // Chain the frames of the other inodes back to the state before the
        // gather.
        assert forall|m: int|
            0 <= m < pre.max_inodes && pre.ino_alloc(m) && m != nn implies file_bytes(
            fin.inode_at(m),
            fin@,
        ) == file_bytes(pre.inode_at(m), pre@) && dir_entries(fin.inode_at(m), fin@)
            == dir_entries(pre.inode_at(m), pre@) && (forall|b2: int|
            refd(fin.inode_at(m), fin@, b2) <==> refd(pre.inode_at(m), pre@, b2)) by {
            assert(gpre.ino_alloc(m) == pre.ino_alloc(m));
            assert(gpre.inode_at(m) == pre.inode_at(m));
            pre.lemma_wf_inode(m);
            assert forall|b3: int| #[trigger] refd(pre.inode_at(m), pre@, b3) implies gpre@[b3]
                == pre@[b3] by {
                assert(pre.in_data_area(b3));
            }
            crate::layout::lemma_inode_same(pre.inode_at(m), pre@, gpre@);
        }
    }
    // The old contents carried through every step: the gather touched only
    // bitmap blocks, the extension preserved the prefix, and the store
    // touched only the slot.
    assert(file_bytes(dv0, gpre@) =~= file_bytes(dv0, pre@)) by {
        pre.lemma_wf_inode(nn);
        assert forall|b3: int| #[trigger] refd(dv0, pre@, b3) implies gpre@[b3] == pre@[b3] by {
            assert(pre.in_data_area(b3));
        }
        crate::layout::lemma_inode_same(dv0, pre@, gpre@);
    }
    assert(file_bytes(dv, fin@).subrange(0, dv0.size as int) =~= file_bytes(dv0, pre@)) by {
        assert(file_bytes(dv, fin@) =~= file_bytes(dv, ginc@));
    }
}

} // verus!

verus! {

/// After writing file data into the (File-typed) inode `nn`'s own data
/// blocks, the filesystem invariant holds again and every other inode reads
/// as before.
#[verifier::spinoff_prover]
#[verifier::rlimit(100)]
proof fn lemma_wf_after_file_write(gfs: &EasyFileSystem, fin: &EasyFileSystem, nn: int, dv: InodeV)
    requires
        gfs.wf(),
        fin.same_layout(gfs),
        fin.cache.wf(),
        fin@.len() == gfs@.len(),
        0 <= nn < gfs.max_inodes,
        gfs.ino_alloc(nn),
        dv == gfs.inode_at(nn),
        dv.ty == DiskInodeType::File,
        inode_ok(dv, fin@),
        forall|m: int|
            0 <= m < gfs.max_inodes ==> fin.inode_at(m) == gfs.inode_at(m) && fin.ino_alloc(m)
                == gfs.ino_alloc(m),
        forall|b: int| gfs.in_data_area(b) ==> fin.data_bit(b) == gfs.data_bit(b),
        forall|b2: int| refd(dv, fin@, b2) <==> refd(dv, gfs@, b2),
        forall|b: int|
            #![trigger fin@[b]]
            0 <= b < gfs@.len() && fin@[b] != gfs@[b] ==> exists|x: int|
                0 <= x < blocks_for(dv.size as int) && #[trigger] crate::layout::dbid(
                    dv,
                    gfs@,
                    x,
                ) == b,
    ensures
        fin.wf(),
        forall|m: int|
            0 <= m < gfs.max_inodes && gfs.ino_alloc(m) && m != nn ==> file_bytes(
                fin.inode_at(m),
                fin@,
            ) == file_bytes(gfs.inode_at(m), gfs@) && dir_entries(fin.inode_at(m), fin@)
                == dir_entries(gfs.inode_at(m), gfs@) && (forall|b2: int|
                refd(fin.inode_at(m), fin@, b2) <==> refd(gfs.inode_at(m), gfs@, b2)),
{
    gfs.lemma_wf_layout();
    gfs.lemma_wf_inode(nn);
    assert forall|b: int, m: int|
        #![trigger fin@[b], refd(gfs.inode_at(m), gfs@, b)]
        0 <= b < gfs@.len() && fin@[b] != gfs@[b] && 0 <= m < gfs.max_inodes && m != nn
            && gfs.ino_alloc(m) implies !refd(gfs.inode_at(m), gfs@, b) by {
        if refd(gfs.inode_at(m), gfs@, b) {
            let x = choose|x: int|
                0 <= x < blocks_for(dv.size as int) && #[trigger] crate::layout::dbid(dv, gfs@, x)
                    == b;
            assert(refd(dv, gfs@, b));
            gfs.lemma_wf_disjoint(nn, m, b);
        }
    }
    assert forall|b: int| #[trigger] refd(fin.inode_at(nn), fin@, b) implies fin.in_data_area(b)
        && fin.data_bit(b) by {
        assert(refd(dv, gfs@, b));
        assert(gfs.inode_wf(nn));
        assert(gfs.in_data_area(b));
    }
    assert forall|b: int, m: int|
        #![trigger refd(fin.inode_at(nn), fin@, b), refd(gfs.inode_at(m), gfs@, b)]
        0 <= m < gfs.max_inodes && m != nn && gfs.ino_alloc(m) && refd(
            fin.inode_at(nn),
            fin@,
            b,
        ) implies !refd(gfs.inode_at(m), gfs@, b) by {
        assert(refd(dv, gfs@, b));
        gfs.lemma_wf_disjoint(nn, m, b);
    }
    assert(fin.inode_at(nn).parent < gfs.max_inodes) by {
        assert(gfs.inode_wf(nn));
    }
    if nn == 0 {
        assert(gfs.inode_at(0).ty == DiskInodeType::Directory);
        assert(false);
    }
    EasyFileSystem::lemma_wf_after_inode_update(gfs, fin, nn);
}

} // verus!

verus! {

/// A name that a directory operation accepts: 1 to 27 non-NUL bytes, and
/// not one of the two reserved path components.
pub open spec fn usable_name(n: Seq<u8>) -> bool {
    &&& valid_name(n)
    &&& n != seq![46u8]
    &&& n != seq![46u8, 46u8]
}

/// Whether `name` names an entry of the directory value `v`.
pub open spec fn has_name(v: InodeV, d: Seq<Seq<u8>>, name: Seq<u8>) -> bool {
    exists|e: int|
        0 <= e < dir_entries(v, d).len() && (#[trigger] dir_entries(v, d)[e]).name == name
}

/// The entry-level facts of an append: the grown directory is well-formed
/// and no inode is named twice, within it or against any other directory.
#[verifier::spinoff_prover]
#[verifier::rlimit(100)]
proof fn lemma_append_entry_facts(
    pre2: &EasyFileSystem,
    fin: &EasyFileSystem,
    nn: int,
    name: Seq<u8>,
    child: int,
)
    requires
        pre2.wf(),
        0 <= nn < pre2.max_inodes,
        pre2.ino_alloc(nn),
        pre2.inode_at(nn).ty == DiskInodeType::Directory,
        valid_name(name),
        !has_name(pre2.inode_at(nn), pre2@, name),
        0 < child < pre2.max_inodes,
        pre2.ino_alloc(child),
        forall|m: int, e: int|
            #![trigger dir_entries(pre2.inode_at(m), pre2@)[e]]
            (0 <= m < pre2.max_inodes && pre2.ino_alloc(m) && pre2.inode_at(m).ty
                == DiskInodeType::Directory && 0 <= e < dir_entries(
                pre2.inode_at(m),
                pre2@,
            ).len()) ==> dir_entries(pre2.inode_at(m), pre2@)[e].ino != child,
        fin.same_layout(pre2),
        forall|m: int| 0 <= m < pre2.max_inodes ==> fin.ino_alloc(m) == pre2.ino_alloc(m),
        fin.inode_at(nn).ty == DiskInodeType::Directory,
        dir_entries(fin.inode_at(nn), fin@) == dir_entries(pre2.inode_at(nn), pre2@).push(
            DirEntV { name: name, ino: child as u32 },
        ),
    ensures
        fin.dir_wf(nn),
        forall|e1: int, e2: int|
            #![trigger dir_entries(fin.inode_at(nn), fin@)[e1], dir_entries(fin.inode_at(nn), fin@)[e2]]
            (0 <= e1 < dir_entries(fin.inode_at(nn), fin@).len() && 0 <= e2 < dir_entries(
                fin.inode_at(nn),
                fin@,
            ).len() && e1 != e2) ==> dir_entries(fin.inode_at(nn), fin@)[e1].ino != dir_entries(
                fin.inode_at(nn),
                fin@,
            )[e2].ino,
        forall|e: int, m: int, e2: int|
            #![trigger dir_entries(fin.inode_at(nn), fin@)[e], dir_entries(pre2.inode_at(m), pre2@)[e2]]
            (fin.inode_at(nn).ty == DiskInodeType::Directory && 0 <= e < dir_entries(
                fin.inode_at(nn),
                fin@,
            ).len() && 0 <= m < pre2.max_inodes && m != nn && pre2.ino_alloc(m) && pre2.inode_at(
                m,
            ).ty == DiskInodeType::Directory && 0 <= e2 < dir_entries(
                pre2.inode_at(m),
                pre2@,
            ).len()) ==> dir_entries(fin.inode_at(nn), fin@)[e].ino != dir_entries(
                pre2.inode_at(m),
                pre2@,
            )[e2].ino,
{
    pre2.lemma_wf_layout();
    pre2.lemma_wf_dir(nn);
    let es0 = dir_entries(pre2.inode_at(nn), pre2@);
    let es1 = dir_entries(fin.inode_at(nn), fin@);
    assert(fin.dir_wf(nn)) by {
        assert forall|e: int|
            0 <= e < es1.len() implies valid_name((#[trigger] es1[e]).name) && 0 < es1[e].ino
            < fin.max_inodes && fin.ino_alloc(es1[e].ino as int) by {
            if e < es0.len() {
                assert(es1[e] == es0[e]);
            } else {
                assert(es1[e] == (DirEntV { name: name, ino: child as u32 }));
            }
        }
        assert forall|e1: int, e2: int|
            0 <= e1 < es1.len() && 0 <= e2 < es1.len() && e1 != e2 implies (
        #[trigger] es1[e1]).name != (#[trigger] es1[e2]).name by {
            if e1 < es0.len() && e2 < es0.len() {
                assert(es1[e1] == es0[e1] && es1[e2] == es0[e2]);
            } else if e1 < es0.len() {
                assert(es1[e2].name == name);
                if es0[e1].name == name {
                    assert(has_name(pre2.inode_at(nn), pre2@, name));
                }
            } else if e2 < es0.len() {
                assert(es1[e1].name == name);
                if es0[e2].name == name {
                    assert(has_name(pre2.inode_at(nn), pre2@, name));
                }
            }
        }
    }
    assert forall|e1: int, e2: int|
        #![trigger es1[e1], es1[e2]]
        (0 <= e1 < es1.len() && 0 <= e2 < es1.len() && e1 != e2) implies es1[e1].ino
        != es1[e2].ino by {
        if e1 < es0.len() && e2 < es0.len() {
            pre2.lemma_wf_unique(nn, e1, nn, e2);
        } else if e1 < es0.len() {
            assert(es1[e2].ino == child);
            assert(es0[e1].ino != child);
        } else if e2 < es0.len() {
            assert(es1[e1].ino == child);
            assert(es0[e2].ino != child);
        }
    }
    assert forall|e: int, m: int, e2: int|
        #![trigger es1[e], dir_entries(pre2.inode_at(m), pre2@)[e2]]
        (fin.inode_at(nn).ty == DiskInodeType::Directory && 0 <= e < es1.len() && 0 <= m
            < pre2.max_inodes && m != nn && pre2.ino_alloc(m) && pre2.inode_at(m).ty
            == DiskInodeType::Directory && 0 <= e2 < dir_entries(
            pre2.inode_at(m),
            pre2@,
        ).len()) implies es1[e].ino != dir_entries(pre2.inode_at(m), pre2@)[e2].ino by {
        if e < es0.len() {
            pre2.lemma_wf_unique(nn, e, m, e2);
        } else {
            assert(es1[e].ino == child);
            assert(dir_entries(pre2.inode_at(m), pre2@)[e2].ino != child);
        }
    }
}

} // verus!

verus! {

/// Appends the entry `(name, child)` to directory `nn`, whose record `dd`
/// has already been grown by one entry's worth of bytes; afterwards the
/// filesystem invariant holds again. `pre2` is the well-formed state from
/// before the grow.
#[verifier::spinoff_prover]
#[verifier::rlimit(100)]
fn append_entry(
    fs: &mut EasyFileSystem,
    nn: Ghost<int>,
    dd: &DiskInode,
    size0: u32,
    name: &Vec<u8>,
    child: u32,
    pre2: Ghost<EasyFileSystem>,
) -> (r: ())
    requires
        pre2@.wf(),
        0 <= nn@ < pre2@.max_inodes,
        pre2@.ino_alloc(nn@),
        pre2@.inode_at(nn@).ty == DiskInodeType::Directory,
        pre2@.inode_at(nn@).size == size0,
        size0 as int % 32 == 0,
        valid_name(name@),
        !has_name(pre2@.inode_at(nn@), pre2@@, name@),
        0 < child < pre2@.max_inodes,
        pre2@.ino_alloc(child as int),
        forall|m: int, e: int|
            #![trigger dir_entries(pre2@.inode_at(m), pre2@@)[e]]
            (0 <= m < pre2@.max_inodes && pre2@.ino_alloc(m) && pre2@.inode_at(m).ty
                == DiskInodeType::Directory && 0 <= e < dir_entries(
                pre2@.inode_at(m),
                pre2@@,
            ).len()) ==> dir_entries(pre2@.inode_at(m), pre2@@)[e].ino != child,
        // the state after the grow
        old(fs).layout_wf(),
        old(fs).same_layout(&pre2@),
        old(fs)@.len() == pre2@@.len(),
        dd@ == old(fs).inode_at(nn@),
        dd@.size == size0 + 32,
        dd@.ty == DiskInodeType::Directory,
        dd@.parent == pre2@.inode_at(nn@).parent,
        inode_ok(dd@, old(fs)@),
        forall|b2: int|
            #[trigger] refd(dd@, old(fs)@, b2) ==> old(fs).in_data_area(b2) && old(fs).data_bit(
                b2,
            ),
        file_bytes(dd@, old(fs)@).subrange(0, size0 as int) =~= file_bytes(
            pre2@.inode_at(nn@),
            pre2@@,
        ),
        forall|m: int| 0 <= m < pre2@.max_inodes ==> old(fs).ino_alloc(m) == pre2@.ino_alloc(m),
        forall|b: int| pre2@.in_data_area(b) && pre2@.data_bit(b) ==> old(fs).data_bit(b),
        forall|m: int|
            0 <= m < pre2@.max_inodes && m != nn@ ==> old(fs).inode_at(m) == pre2@.inode_at(m),
        forall|b: int, m: int|
            #![trigger old(fs)@[b], refd(pre2@.inode_at(m), pre2@@, b)]
            0 <= b < pre2@@.len() && old(fs)@[b] != pre2@@[b] && 0 <= m < pre2@.max_inodes && m
                != nn@ && pre2@.ino_alloc(m) ==> !refd(pre2@.inode_at(m), pre2@@, b),
        forall|b: int, m: int|
            #![trigger refd(dd@, old(fs)@, b), refd(pre2@.inode_at(m), pre2@@, b)]
            0 <= m < pre2@.max_inodes && m != nn@ && pre2@.ino_alloc(m) && refd(
                dd@,
                old(fs)@,
                b,
            ) ==> !refd(pre2@.inode_at(m), pre2@@, b),
    ensures
        final(fs).wf(),
        final(fs).same_layout(&pre2@),
        final(fs)@.len() == pre2@@.len(),
        forall|m: int| 0 <= m < pre2@.max_inodes ==> final(fs).ino_alloc(m) == pre2@.ino_alloc(m),
        forall|m: int|
            0 <= m < pre2@.max_inodes && m != nn@ ==> final(fs).inode_at(m) == pre2@.inode_at(m),
        final(fs).inode_at(nn@).ty == DiskInodeType::Directory,
        final(fs).inode_at(nn@).size == size0 + 32,
        final(fs).inode_at(nn@).parent == pre2@.inode_at(nn@).parent,
        dir_entries(final(fs).inode_at(nn@), final(fs)@) == dir_entries(
            pre2@.inode_at(nn@),
            pre2@@,
        ).push(DirEntV { name: name@, ino: child }),
{
    let de = DirEntry::new(name, child);
    let bytes = de.encode();
    let ghost gfs = *fs;
    let _w = write_clipped(fs, nn, dd, size0 as usize, &bytes);
    proof {
        let fin = &*fs;
        let vdir = fin.inode_at(nn@);
        assert(vdir == dd@);
        let es0 = dir_entries(pre2@.inode_at(nn@), pre2@@);
        let cnt = size0 as int / 32;
        assert(size0 as int == 32 * cnt) by {
            vstd::arithmetic::div_mod::lemma_fundamental_div_mod(size0 as int, 32);
        }
        // The new bytes decode to the appended entry; the earlier windows
        // read the old entries.
        let fb = file_bytes(vdir, fin@);
        let fbg = file_bytes(dd@, gfs@);
        assert(fb =~= crate::bytes::splice(fbg, size0 as int, bytes@));
        assert(dir_entries(vdir, fin@).len() == cnt + 1) by {
            vstd::arithmetic::div_mod::lemma_hoist_over_denominator(32, cnt, 32);
        }
        assert(es0.len() == cnt);
        assert forall|e: int|
            0 <= e < cnt + 1 implies #[trigger] dir_entries(vdir, fin@)[e] == es0.push(
            DirEntV { name: name@, ino: child },
        )[e] by {
            if e < cnt {
                assert(fb.subrange(32 * e, 32 * e + 32) =~= fbg.subrange(32 * e, 32 * e + 32));
                assert(fbg.subrange(32 * e, 32 * e + 32) =~= file_bytes(
                    pre2@.inode_at(nn@),
                    pre2@@,
                ).subrange(32 * e, 32 * e + 32)) by {
                    assert forall|q: int|
                        32 * e <= q < 32 * e + 32 implies fbg[q] == file_bytes(
                        pre2@.inode_at(nn@),
                        pre2@@,
                    )[q] by {
                        assert(fbg.subrange(0, size0 as int)[q] == fbg[q]);
                    }
                }
            } else {
                assert(fb.subrange(32 * e, 32 * e + 32) =~= bytes@);
                assert(crate::layout::de_name(bytes@) == name@);
                assert(crate::layout::de_ino(bytes@) == child);
            }
        }
        assert(dir_entries(vdir, fin@) =~= es0.push(DirEntV { name: name@, ino: child }));
        // The invariant holds again.
        lemma_append_entry_facts(&pre2@, fin, nn@, name@, child as int);
        assert forall|b: int, m: int|
            #![trigger fin@[b], refd(pre2@.inode_at(m), pre2@@, b)]
            0 <= b < pre2@@.len() && fin@[b] != pre2@@[b] && 0 <= m < pre2@.max_inodes && m != nn@
                && pre2@.ino_alloc(m) implies !refd(pre2@.inode_at(m), pre2@@, b) by {
            if fin@[b] != gfs@[b] {
                let x = choose|x: int|
                    0 <= x < blocks_for(dd@.size as int) && #[trigger] crate::layout::dbid(
                        dd@,
                        gfs@,
                        x,
                    ) == b;
                assert(refd(dd@, gfs@, b));
            }
        }
        assert(pre2@.inode_at(nn@).size as int % 32 == 0);
        assert(fin.inode_at(nn@).parent < pre2@.max_inodes) by {
            pre2@.lemma_wf_inode(nn@);
        }
        assert forall|b: int| pre2@.in_data_area(b) && pre2@.data_bit(b) implies fin.data_bit(
            b,
        ) by {
            assert(gfs.data_bit(b));
            assert(fin.data_bit(b) == gfs.data_bit(b));
        }
        assert forall|b: int| #[trigger] refd(fin.inode_at(nn@), fin@, b) implies fin.in_data_area(
            b,
        ) && fin.data_bit(b) by {
            assert(refd(dd@, gfs@, b));
            assert(gfs.in_data_area(b) && gfs.data_bit(b));
        }
        if nn@ == 0 {
        } else {
        }
        EasyFileSystem::lemma_wf_after_inode_update(&pre2@, fin, nn@);
    }
}

} // verus!

verus! {

impl Inode {
    /// Creates `name` in this directory as an empty file: takes a fresh
    /// inode, points its parent here, and appends the entry. Fails exactly
    /// on a bad name, an existing name, or an exhausted image; exhaustion is
    /// not rolled back and may leave the fresh inode allocated.
    pub fn create(&self, fs: &mut EasyFileSystem, name: &Vec<u8>) -> (r: Result<Inode, FsError>)
        requires
            old(fs).wf(),
            self.valid(old(fs)),
            old(fs).ino_alloc(self.ino(old(fs))),
            self.inode_v(old(fs)).ty == DiskInodeType::Directory,
        ensures
            final(fs).layout_wf(),
            final(fs).same_layout(old(fs)),
            final(fs)@.len() == old(fs)@.len(),
            r matches Err(e) && e is InvalidName <==> !usable_name(name@),
            r matches Err(e) && e is AlreadyExists <==> usable_name(name@) && has_name(
                self.inode_v(old(fs)),
                old(fs)@,
                name@,
            ),
            (r matches Err(e) && (e is InvalidName || e is AlreadyExists)) ==> final(fs)@ == old(
                fs,
            )@,
            r matches Err(e) && e is OutOfSpace ==> usable_name(name@) && !has_name(
                self.inode_v(old(fs)),
                old(fs)@,
                name@,
            ),
            match r {
                Ok(h) => {
                    &&& final(fs).wf()
                    &&& usable_name(name@) && !has_name(self.inode_v(old(fs)), old(fs)@, name@)
                    &&& h.valid(old(fs))
                    &&& 0 < h.ino(old(fs)) < old(fs).max_inodes
                    &&& !old(fs).ino_alloc(h.ino(old(fs)))
                    &&& final(fs).ino_alloc(h.ino(old(fs)))
                    &&& final(fs).inode_at(h.ino(old(fs))).ty == DiskInodeType::File
                    &&& final(fs).inode_at(h.ino(old(fs))).size == 0
                    &&& final(fs).inode_at(h.ino(old(fs))).parent == self.ino(old(fs))
                    &&& dir_entries(self.inode_v(final(fs)), final(fs)@) == dir_entries(
                        self.inode_v(old(fs)),
                        old(fs)@,
                    ).push(DirEntV { name: name@, ino: h.ino(old(fs)) as u32 })
                },
                Err(e) => e is InvalidName || e is AlreadyExists || e is OutOfSpace,
            },
    {
        self.create_typed(fs, name, DiskInodeType::File)
    }

    /// Creates `name` in this directory as an empty directory. `..` inside
    /// it resolves through its parent field, so no entries are stored.
    pub fn mkdir(&self, fs: &mut EasyFileSystem, name: &Vec<u8>) -> (r: Result<Inode, FsError>)
        requires
            old(fs).wf(),
            self.valid(old(fs)),
            old(fs).ino_alloc(self.ino(old(fs))),
            self.inode_v(old(fs)).ty == DiskInodeType::Directory,
        ensures
            final(fs).layout_wf(),
            final(fs).same_layout(old(fs)),
            final(fs)@.len() == old(fs)@.len(),
            r matches Err(e) && e is InvalidName <==> !usable_name(name@),
            r matches Err(e) && e is AlreadyExists <==> usable_name(name@) && has_name(
                self.inode_v(old(fs)),
                old(fs)@,
                name@,
            ),
            (r matches Err(e) && (e is InvalidName || e is AlreadyExists)) ==> final(fs)@ == old(
                fs,
            )@,
            r matches Err(e) && e is OutOfSpace ==> usable_name(name@) && !has_name(
                self.inode_v(old(fs)),
                old(fs)@,
                name@,
            ),
            match r {
                Ok(h) => {
                    &&& final(fs).wf()
                    &&& usable_name(name@) && !has_name(self.inode_v(old(fs)), old(fs)@, name@)
                    &&& h.valid(old(fs))
                    &&& 0 < h.ino(old(fs)) < old(fs).max_inodes
                    &&& !old(fs).ino_alloc(h.ino(old(fs)))
                    &&& final(fs).ino_alloc(h.ino(old(fs)))
                    &&& final(fs).inode_at(h.ino(old(fs))).ty == DiskInodeType::Directory
                    &&& final(fs).inode_at(h.ino(old(fs))).size == 0
                    &&& final(fs).inode_at(h.ino(old(fs))).parent == self.ino(old(fs))
                    &&& dir_entries(self.inode_v(final(fs)), final(fs)@) == dir_entries(
                        self.inode_v(old(fs)),
                        old(fs)@,
                    ).push(DirEntV { name: name@, ino: h.ino(old(fs)) as u32 })
                },
                Err(e) => e is InvalidName || e is AlreadyExists || e is OutOfSpace,
            },
    {
        self.create_typed(fs, name, DiskInodeType::Directory)
    }

    /// The shared body of `create` and `mkdir`.
    #[verifier::spinoff_prover]
    #[verifier::rlimit(100)]
    fn create_typed(&self, fs: &mut EasyFileSystem, name: &Vec<u8>, ty: DiskInodeType) -> (r:
        Result<Inode, FsError>)
        requires
            old(fs).wf(),
            self.valid(old(fs)),
            old(fs).ino_alloc(self.ino(old(fs))),
            self.inode_v(old(fs)).ty == DiskInodeType::Directory,
        ensures
            final(fs).layout_wf(),
            final(fs).same_layout(old(fs)),
            final(fs)@.len() == old(fs)@.len(),
            r matches Err(e) && e is InvalidName <==> !usable_name(name@),
            r matches Err(e) && e is AlreadyExists <==> usable_name(name@) && has_name(
                self.inode_v(old(fs)),
                old(fs)@,
                name@,
            ),
            (r matches Err(e) && (e is InvalidName || e is AlreadyExists)) ==> final(fs)@ == old(
                fs,
            )@,
            r matches Err(e) && e is OutOfSpace ==> usable_name(name@) && !has_name(
                self.inode_v(old(fs)),
                old(fs)@,
                name@,
            ),
            match r {
                Ok(h) => {
                    &&& final(fs).wf()
                    &&& usable_name(name@) && !has_name(self.inode_v(old(fs)), old(fs)@, name@)
                    &&& h.valid(old(fs))
                    &&& 0 < h.ino(old(fs)) < old(fs).max_inodes
                    &&& !old(fs).ino_alloc(h.ino(old(fs)))
                    &&& final(fs).ino_alloc(h.ino(old(fs)))
                    &&& final(fs).inode_at(h.ino(old(fs))).ty == ty
                    &&& final(fs).inode_at(h.ino(old(fs))).size == 0
                    &&& final(fs).inode_at(h.ino(old(fs))).parent == self.ino(old(fs))
                    &&& dir_entries(self.inode_v(final(fs)), final(fs)@) == dir_entries(
                        self.inode_v(old(fs)),
                        old(fs)@,
                    ).push(DirEntV { name: name@, ino: h.ino(old(fs)) as u32 })
                },
                Err(e) => e is InvalidName || e is AlreadyExists || e is OutOfSpace,
            },
    {
        let ghost pre = *old(fs);
        let ghost nn = self.ino(&pre);
        proof {
            pre.lemma_wf_layout();
        }
        if !name_usable(name) {
            return Err(FsError::InvalidName);
        }
        // An existing name?
        if let Some((_e0, _ino0)) = self.find_entry(fs, name) {
            proof {
                assert(has_name(self.inode_v(&pre), pre@, name@));
            }
            return Err(FsError::AlreadyExists);
        }
        proof {
            assert(!has_name(self.inode_v(&pre), pre@, name@)) by {
                if has_name(self.inode_v(&pre), pre@, name@) {
                    let e = choose|e: int|
                        0 <= e < dir_entries(self.inode_v(&pre), pre@).len() && (#[trigger]
                        dir_entries(self.inode_v(&pre), pre@)[e]).name == name@;
                }
            }
        }
        let r = self.create_named(fs, name, ty, Ghost(pre));
        r
    }
}

} // verus!

verus! {

impl Inode {
    /// The allocation-and-append stage of a create: the name has been
    /// validated and is absent from this directory, whose pre-state is
    /// `pre`.
    #[verifier::spinoff_prover]
    #[verifier::rlimit(100)]
    fn create_named(
        &self,
        fs: &mut EasyFileSystem,
        name: &Vec<u8>,
        ty: DiskInodeType,
        pre: Ghost<EasyFileSystem>,
    ) -> (r: Result<Inode, FsError>)
        requires
            pre@.wf(),
            self.valid(&pre@),
            pre@.ino_alloc(self.ino(&pre@)),
            self.inode_v(&pre@).ty == DiskInodeType::Directory,
            usable_name(name@),
            !has_name(self.inode_v(&pre@), pre@@, name@),
            old(fs).wf(),
            fs_preserved(&pre@, old(fs)),
        ensures
            final(fs).layout_wf(),
            final(fs).same_layout(&pre@),
            final(fs)@.len() == pre@@.len(),
            match r {
                Ok(h) => {
                    &&& final(fs).wf()
                    &&& h.valid(&pre@)
                    &&& 0 < h.ino(&pre@) < pre@.max_inodes
                    &&& !pre@.ino_alloc(h.ino(&pre@))
                    &&& final(fs).ino_alloc(h.ino(&pre@))
                    &&& final(fs).inode_at(h.ino(&pre@)).ty == ty
                    &&& final(fs).inode_at(h.ino(&pre@)).size == 0
                    &&& final(fs).inode_at(h.ino(&pre@)).parent == self.ino(&pre@)
                    &&& dir_entries(self.inode_v(final(fs)), final(fs)@) == dir_entries(
                        self.inode_v(&pre@),
                        pre@@,
                    ).push(DirEntV { name: name@, ino: h.ino(&pre@) as u32 })
                },
                Err(e) => e is OutOfSpace,
            },
    {
        let ghost nn = self.ino(&pre@);
        proof {
            pre@.lemma_wf_layout();
            crate::vfs::lemma_fs_identical(&pre@, old(fs));
            pre@.lemma_wf_inode(nn);
            pre@.lemma_wf_dir(nn);
        }
        let nid = self.inode_id(fs);
        let dd0 = fs.read_inode(nid);
        let size0 = dd0.size;
        proof {
            assert(size0 == pre@.inode_at(nn).size);
            assert(size0 as int % 32 == 0);
        }
        if size0 as usize + DIRENT_SZ > crate::layout::INODE_MAX_SIZE as usize {
            return Err(FsError::OutOfSpace);
        }
        proof {
            let ghost cur = *fs;
            crate::vfs::lemma_fs_identical(&pre@, &cur);
        }
        // A fresh inode of the wanted type.
        let child = match fs.alloc_inode(ty) {
            Some(c) => c,
            None => {
                proof {
                    let ghost cur = *fs;
                    cur.lemma_wf_layout();
                }
                return Err(FsError::OutOfSpace);
            },
        };
        let ghost mid = *fs;
        proof {
            mid.lemma_wf_layout();
        }
        proof {
            assert(child != 0) by {
                assert(pre@.ino_alloc(0));
            }
            assert(child as int != nn) by {
                assert(pre@.ino_alloc(nn));
            }
        }
        // Point the fresh inode at this directory.
        let mut cd = fs.read_inode(child);
        cd.parent = nid;
        let ghost before_parent = *fs;
        fs.write_inode(child, &cd);
        let ghost pre2 = *fs;
        proof {
            lemma_parent_set_wf(&mid, &before_parent, &pre2, child as int, nn);
        }
        // Grow the directory by one entry and append the record.
        let mut dd = fs.read_inode(nid);
        proof {
            crate::vfs::lemma_fs_identical(&pre2, fs);
        }
        match grow_file(fs, nid, &mut dd, size0 + DIRENT_SZ as u32) {
            Err(_) => {
                return Err(FsError::OutOfSpace);
            },
            Ok(()) => {},
        }
        proof {
            lemma_child_facts(&pre@, &mid, &pre2, nn, child as int, name@);
        }
        append_entry(fs, Ghost(nn), &dd, size0, name, child, Ghost(pre2));
        proof {
            pre2.lemma_wf_layout();
            let ghost fin0 = *fs;
            fin0.lemma_wf_layout();
            fs.lemma_handle_of(child as int);
            pre@.lemma_handle_of(child as int);
            // The fresh record survived the directory work: the grow and the
            // entry write changed no other inode's slot.
            assert(fs.inode_at(child as int) == pre2.inode_at(child as int));
            assert(dir_entries(self.inode_v(&pre2), pre2@) == dir_entries(
                self.inode_v(&pre@),
                pre@@,
            ));
        }
        let h = fs.get_inode(child);
        Ok(h)
    }
}

} // verus!

verus! {

/// Writing only the parent field of a freshly allocated, still empty inode
/// keeps the filesystem invariant: the record owns no blocks and no
/// directory names it yet.
#[verifier::spinoff_prover]
#[verifier::rlimit(100)]
proof fn lemma_parent_set_wf(
    mid: &EasyFileSystem,
    bp: &EasyFileSystem,
    pre2: &EasyFileSystem,
    child: int,
    nn: int,
)
    requires
        mid.wf(),
        0 < child < mid.max_inodes,
        0 <= nn < mid.max_inodes,
        mid.ino_alloc(child),
        fs_preserved(mid, bp),
        pre2.same_layout(bp),
        pre2.cache.wf(),
        pre2@.len() == bp@.len(),
        pre2.inode_at(child).size == 0,
        pre2.inode_at(child).parent == nn,
        crate::layout::inode_shape(pre2.inode_at(child)),
        forall|m: int| 0 <= m < mid.max_inodes && m != child ==> pre2.inode_at(m) == bp.inode_at(
            m,
        ),
        forall|b: int|
            0 <= b < bp@.len() && b != bp.inode_block(child) ==> pre2@[b] == bp@[b],
        forall|m: int| 0 <= m < mid.max_inodes ==> pre2.ino_alloc(m) == bp.ino_alloc(m),
        forall|b: int| bp.in_data_area(b) ==> pre2.data_bit(b) == bp.data_bit(b),
        pre2.layout_wf(),
    ensures
        pre2.wf(),
        forall|m: int| 0 <= m < mid.max_inodes ==> pre2.ino_alloc(m) == mid.ino_alloc(m),
        forall|m: int|
            0 <= m < mid.max_inodes && m != child ==> pre2.inode_at(m) == mid.inode_at(m),
        forall|m: int|
            0 <= m < mid.max_inodes && mid.ino_alloc(m) && m != child ==> dir_entries(
                pre2.inode_at(m),
                pre2@,
            ) == dir_entries(mid.inode_at(m), mid@) && file_bytes(pre2.inode_at(m), pre2@)
                == file_bytes(mid.inode_at(m), mid@),
    {
        mid.lemma_wf_layout();
        crate::vfs::lemma_fs_identical(mid, bp);
        mid.lemma_block_in_range(child);
        // The one changed block is an inode-area block: no inode references
        // it, so every other inode reads as before.
        assert forall|b: int, m: int|
            #![trigger pre2@[b], refd(bp.inode_at(m), bp@, b)]
            0 <= b < bp@.len() && pre2@[b] != bp@[b] && 0 <= m < bp.max_inodes && m != child
                && bp.ino_alloc(m) implies !refd(bp.inode_at(m), bp@, b) by {
            if refd(bp.inode_at(m), bp@, b) {
                bp.lemma_wf_inode(m);
                assert(bp.in_data_area(b));
                assert(b == bp.inode_block(child));
            }
        }
        assert(blocks_for(0) == 0 && crate::layout::l2_count(0) == 0);
        assert forall|b: int| !(#[trigger] refd(pre2.inode_at(child), pre2@, b)) by {}
        assert(inode_ok(pre2.inode_at(child), pre2@));
        assert(dir_entries(pre2.inode_at(child), pre2@).len() == 0);
        if pre2.inode_at(child).ty == DiskInodeType::Directory {
            assert(pre2.dir_wf(child)) by {
                assert(dir_entries(pre2.inode_at(child), pre2@).len() == 0);
            }
        }
        EasyFileSystem::lemma_wf_after_inode_update(bp, pre2, child);
        assert forall|m: int|
            0 <= m < mid.max_inodes && mid.ino_alloc(m) && m != child implies dir_entries(
            pre2.inode_at(m),
            pre2@,
        ) == dir_entries(mid.inode_at(m), mid@) && file_bytes(pre2.inode_at(m), pre2@)
            == file_bytes(mid.inode_at(m), mid@) by {
            bp.lemma_wf_inode(m);
            assert forall|b3: int| #[trigger] refd(bp.inode_at(m), bp@, b3) implies pre2@[b3]
                == bp@[b3] by {
                assert(bp.in_data_area(b3));
                assert(b3 != bp.inode_block(child));
            }
            crate::layout::lemma_inode_same(bp.inode_at(m), bp@, pre2@);
            assert(bp.inode_at(m) == mid.inode_at(m));
            assert(dir_entries(bp.inode_at(m), bp@) == dir_entries(mid.inode_at(m), mid@));
        }
    }

} // verus!

verus! {

/// The directory facts needed to append an entry naming the fresh inode
/// `child`, carried from the original state `pre` through the allocation
/// (`mid`) and the parent write (`pre2`): the directory's entries are
/// untouched and nothing names `child`.
#[verifier::spinoff_prover]
#[verifier::rlimit(100)]
proof fn lemma_child_facts(
    pre: &EasyFileSystem,
    mid: &EasyFileSystem,
    pre2: &EasyFileSystem,
    nn: int,
    child: int,
    name: Seq<u8>,
)
    requires
        pre.wf(),
        pre2.wf(),
        0 <= nn < pre.max_inodes,
        pre.ino_alloc(nn),
        pre.inode_at(nn).ty == DiskInodeType::Directory,
        !has_name(pre.inode_at(nn), pre@, name),
        0 < child < pre.max_inodes,
        child != nn,
        !pre.ino_alloc(child),
        // allocation: mid vs pre
        mid.same_layout(pre),
        mid@.len() == pre@.len(),
        forall|m: int| 0 <= m < pre.max_inodes && m != child ==> mid.ino_alloc(m) == pre.ino_alloc(
            m,
        ),
        mid.ino_alloc(child),
        forall|m: int| 0 <= m < pre.max_inodes && m != child ==> mid.inode_at(m) == pre.inode_at(
            m,
        ),
        forall|m: int|
            0 <= m < pre.max_inodes && pre.ino_alloc(m) && m != child ==> dir_entries(
                mid.inode_at(m),
                mid@,
            ) == dir_entries(pre.inode_at(m), pre@),
        // parent write: pre2 vs mid
        pre2.same_layout(pre),
        pre2@.len() == pre@.len(),
        forall|m: int| 0 <= m < pre.max_inodes ==> pre2.ino_alloc(m) == mid.ino_alloc(m),
        forall|m: int|
            0 <= m < pre.max_inodes && m != child ==> pre2.inode_at(m) == mid.inode_at(m),
        forall|m: int|
            0 <= m < pre.max_inodes && mid.ino_alloc(m) && m != child ==> dir_entries(
                pre2.inode_at(m),
                pre2@,
            ) == dir_entries(mid.inode_at(m), mid@),
        pre2.inode_at(child).size == 0,
    ensures
        pre2.ino_alloc(nn),
        pre2.ino_alloc(child),
        pre2.inode_at(nn) == pre.inode_at(nn),
        dir_entries(pre2.inode_at(nn), pre2@) == dir_entries(pre.inode_at(nn), pre@),
        !has_name(pre2.inode_at(nn), pre2@, name),
        forall|m: int, e: int|
            #![trigger dir_entries(pre2.inode_at(m), pre2@)[e]]
            (0 <= m < pre2.max_inodes && pre2.ino_alloc(m) && pre2.inode_at(m).ty
                == DiskInodeType::Directory && 0 <= e < dir_entries(
                pre2.inode_at(m),
                pre2@,
            ).len()) ==> dir_entries(pre2.inode_at(m), pre2@)[e].ino != child,
{
    assert(pre2.inode_at(nn) == pre.inode_at(nn));
    assert(dir_entries(pre2.inode_at(nn), pre2@) == dir_entries(pre.inode_at(nn), pre@));
    assert(!has_name(pre2.inode_at(nn), pre2@, name)) by {
        if has_name(pre2.inode_at(nn), pre2@, name) {
            let e = choose|e: int|
                0 <= e < dir_entries(pre2.inode_at(nn), pre2@).len() && (#[trigger] dir_entries(
                    pre2.inode_at(nn),
                    pre2@,
                )[e]).name == name;
            assert(dir_entries(pre.inode_at(nn), pre@)[e].name == name);
        }
    }
    assert forall|m: int, e: int|
        #![trigger dir_entries(pre2.inode_at(m), pre2@)[e]]
        (0 <= m < pre2.max_inodes && pre2.ino_alloc(m) && pre2.inode_at(m).ty
            == DiskInodeType::Directory && 0 <= e < dir_entries(
            pre2.inode_at(m),
            pre2@,
        ).len()) implies dir_entries(pre2.inode_at(m), pre2@)[e].ino != child by {
        if m == child {
            assert(dir_entries(pre2.inode_at(child), pre2@).len() == 0);
        } else {
            assert(pre.ino_alloc(m));
            assert(dir_entries(pre2.inode_at(m), pre2@) == dir_entries(pre.inode_at(m), pre@));
            pre.lemma_wf_dir(m);
            assert(pre.ino_alloc(
                dir_entries(pre.inode_at(m), pre@)[e].ino as int,
            ));
        }
    }
}

} // verus!

verus! {

/// Decides exactly whether a directory operation accepts `name`: 1 to 27
/// non-NUL bytes and not a reserved path component.
fn name_usable(name: &Vec<u8>) -> (r: bool)
    ensures
        r == usable_name(name@),
{
    let n = name.len();
    if n < 1 || n > NAME_LENGTH_LIMIT {
        return false;
    }
    let mut i: usize = 0;
    while i < n
        invariant
            n == name@.len(),
            i <= n,
            forall|j: int| 0 <= j < i ==> name@[j] != 0u8,
        decreases n - i,
    {
        if name[i] == 0 {
            return false;
        }
        i += 1;
    }
    proof {
        assert(valid_name(name@));
    }
    if n == 1 && name[0] == 46 {
        proof {
            assert(name@ =~= seq![46u8]);
        }
        return false;
    }
    if n == 2 && name[0] == 46 && name[1] == 46 {
        proof {
            assert(name@ =~= seq![46u8, 46u8]);
        }
        return false;
    }
    proof {
        assert(name@ != seq![46u8]) by {
            if name@ == seq![46u8] {
                assert(name@.len() == 1 && name@[0] == 46u8);
            }
        }
        assert(name@ != seq![46u8, 46u8]) by {
            if name@ == seq![46u8, 46u8] {
                assert(name@.len() == 2 && name@[0] == 46u8 && name@[1] == 46u8);
            }
        }
    }
    true
}

} // verus!
