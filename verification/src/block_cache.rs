//! The write-back block cache. It keeps up to `BLOCK_CACHE_SIZE` blocks in
//! memory, keyed by block id, with a dirty flag per entry. A full cache
//! evicts its oldest entry, writing it back first when dirty. The cache's
//! view is the logical disk: the device contents overridden by the cached
//! buffers. All filesystem components read and write through this view.

use vstd::prelude::*;
use crate::BLOCK_SZ;
use crate::disk::MemDisk;
use crate::bytes::{splice, u32_at, u32_le};

verus! {

/// The most blocks the cache holds at once.
pub const BLOCK_CACHE_SIZE: usize = 16;

/// One cached block: its id, its bytes, and whether it is newer than the
/// device copy.
pub struct CacheEntry {
    block_id: usize,
    data: Vec<u8>,
    dirty: bool,
}

/// Whether some cache entry holds block `b`.
pub closed spec fn has_entry(entries: Seq<CacheEntry>, b: int) -> bool {
    exists|j: int| 0 <= j < entries.len() && entries[j].block_id == b
}

/// The index of the cache entry holding block `b`, when one exists.
pub closed spec fn entry_idx(entries: Seq<CacheEntry>, b: int) -> int {
    choose|j: int| 0 <= j < entries.len() && entries[j].block_id == b
}

pub struct BlockCache {
    device: MemDisk,
    entries: Vec<CacheEntry>,
}

impl BlockCache {
    /// The logical disk: the device contents overridden by the cached blocks.
    pub closed spec fn view(&self) -> Seq<Seq<u8>> {
        Seq::new(
            self.device@.len(),
            |b: int|
                if has_entry(self.entries@, b) {
                    self.entries@[entry_idx(self.entries@, b)].data@
                } else {
                    self.device@[b]
                },
        )
    }

    /// The device contents alone, without the cached overrides.
    pub closed spec fn device_view(&self) -> Seq<Seq<u8>> {
        self.device@
    }

    pub closed spec fn wf(&self) -> bool {
        &&& self.device.wf()
        &&& self.entries@.len() <= BLOCK_CACHE_SIZE
        &&& forall|j: int|
            0 <= j < self.entries@.len() ==> (#[trigger] self.entries@[j]).block_id
                < self.device@.len()
        &&& forall|j: int|
            0 <= j < self.entries@.len() ==> (#[trigger] self.entries@[j]).data@.len() == BLOCK_SZ
        &&& forall|j: int|
            0 <= j < self.entries@.len() && !(#[trigger] self.entries@[j]).dirty
                ==> self.device@[self.entries@[j].block_id as int] == self.entries@[j].data@
        &&& forall|j: int, k: int|
            0 <= j < self.entries@.len() && 0 <= k < self.entries@.len() && j != k ==> (
            #[trigger] self.entries@[j]).block_id != (#[trigger] self.entries@[k]).block_id
    }

    /// Blocks in the view are all 512 bytes, and view and device agree in length.
    pub proof fn lemma_view_wf(&self)
        requires
            self.wf(),
        ensures
            self@.len() == self.device_view().len(),
            forall|b: int| 0 <= b < self@.len() ==> (#[trigger] self@[b]).len() == BLOCK_SZ,
            forall|b: int|
                0 <= b < self.device_view().len() ==> (#[trigger] self.device_view()[b]).len()
                    == BLOCK_SZ,
    {
        self.device.lemma_wf_blocks();
        assert forall|b: int| 0 <= b < self@.len() implies (#[trigger] self@[b]).len()
            == BLOCK_SZ by {
            if has_entry(self.entries@, b) {
                let k = entry_idx(self.entries@, b);
                assert(0 <= k < self.entries@.len() && self.entries@[k].block_id == b);
            }
        }
    }

    /// A cache over `device`, initially empty: the view is the device.
    pub fn new(device: MemDisk) -> (r: Self)
        requires
            device.wf(),
        ensures
            r.wf(),
            r@ =~= device@,
            r.device_view() == device@,
    {
        let r = BlockCache { device, entries: Vec::new() };
        assert forall|b: int| 0 <= b < r.device@.len() implies r@[b] == r.device@[b] by {
            assert(!has_entry(r.entries@, b));
        }
        r
    }

    /// How many blocks the underlying device holds.
    pub fn num_blocks(&self) -> (r: usize)
        ensures
            r == self@.len(),
    {
        self.device.num_blocks()
    }

    /// Finds or loads the cache slot for `block_id`, evicting the oldest
    /// entry when the cache is full. The logical view does not change.
    fn get_slot(&mut self, block_id: usize) -> (idx: usize)
        requires
            old(self).wf(),
            block_id < old(self)@.len(),
        ensures
            final(self).wf(),
            final(self)@ == old(self)@,
            idx < final(self).entries@.len(),
            final(self).entries@[idx as int].block_id == block_id,
            final(self).entries@[idx as int].data@ == final(self)@[block_id as int],
    {
        let ghost v0 = self@;
        let mut j: usize = 0;
        while j < self.entries.len()
            invariant
                self == old(self),
                self.wf(),
                block_id < self@.len(),
                j <= self.entries@.len(),
                forall|k: int| 0 <= k < j ==> (#[trigger] self.entries@[k]).block_id != block_id,
            decreases self.entries@.len() - j,
        {
            if self.entries[j].block_id == block_id {
                proof {
                    self.lemma_unique_entry(j as int, block_id as int);
                }
                return j;
            }
            j += 1;
        }
        assert(!has_entry(self.entries@, block_id as int));
        // Miss: make room if the cache is full.
        if self.entries.len() == BLOCK_CACHE_SIZE {
            let victim = self.entries.remove(0);
            let ghost pre = *self;
            if victim.dirty {
                self.device.write_block(victim.block_id, &victim.data);
            }
            proof {
                let e0 = old(self).entries@[0];
                assert forall|b: int| 0 <= b < v0.len() implies self@[b] == v0[b] by {
                    if b == e0.block_id {
                        assert(!has_entry(self.entries@, b)) by {
                            assert forall|k: int|
                                0 <= k < self.entries@.len() implies (
                            #[trigger] self.entries@[k]).block_id != b by {
                                assert(self.entries@[k] == old(self).entries@[k + 1]);
                            }
                        }
                        assert(old(self).entries@[0].block_id == b);
                        assert(has_entry(old(self).entries@, b));
                        assert(v0[b] == old(self).entries@[entry_idx(old(self).entries@, b)].data@);
                        assert(entry_idx(old(self).entries@, b) == 0) by {
                            let j0 = entry_idx(old(self).entries@, b);
                            assert(0 <= j0 < old(self).entries@.len() && old(self).entries@[j0].block_id == b);
                        }
                        assert(self@[b] == self.device@[b]);
                        assert(self.device@[b] == e0.data@);
                    } else {
                        if has_entry(self.entries@, b) {
                            let k = entry_idx(self.entries@, b);
                            assert(0 <= k < self.entries@.len() && self.entries@[k].block_id == b);
                            assert(self.entries@[k] == old(self).entries@[k + 1]);
                            assert(has_entry(old(self).entries@, b));
                            let k0 = entry_idx(old(self).entries@, b);
                            assert(0 <= k0 < old(self).entries@.len() && old(self).entries@[k0].block_id == b);
                            assert(k0 != 0);
                            assert(old(self).entries@[k0] == self.entries@[k0 - 1]);
                            assert(self.entries@[entry_idx(self.entries@, b)].data@
                                == self.entries@[k].data@);
                        } else {
                            assert(!has_entry(old(self).entries@, b)) by {
                                if has_entry(old(self).entries@, b) {
                                    let k0 = entry_idx(old(self).entries@, b);
                                    assert(0 <= k0 < old(self).entries@.len() && old(self).entries@[k0].block_id == b);
                                    assert(k0 != 0);
                                    assert(self.entries@[k0 - 1] == old(self).entries@[k0]);
                                }
                            }
                        }
                    }
                }
                assert(self@ =~= v0);
            }
        }
        let ghost v1 = self@;
        let ghost pre = *self;
        let data = self.device.read_block(block_id);
        assert(!has_entry(self.entries@, block_id as int));
        assert(data@ == v1[block_id as int]);
        self.entries.push(CacheEntry { block_id, data, dirty: false });
        proof {
            assert forall|b: int| 0 <= b < v1.len() implies self@[b] == v1[b] by {
                if b == block_id {
                    let n = self.entries@.len() - 1;
                    assert(self.entries@[n].block_id == b);
                    assert(has_entry(self.entries@, b));
                    let k = entry_idx(self.entries@, b);
                    assert(0 <= k < self.entries@.len() && self.entries@[k].block_id == b);
                    assert forall|k2: int|
                        0 <= k2 < self.entries@.len() - 1 implies (
                    #[trigger] self.entries@[k2]).block_id != b by {
                        assert(self.entries@[k2] == pre.entries@[k2]);
                        assert(!has_entry(pre.entries@, b));
                    }
                    assert(k == n);
                } else {
                    if has_entry(pre.entries@, b) {
                        let k0 = entry_idx(pre.entries@, b);
                        assert(0 <= k0 < pre.entries@.len() && pre.entries@[k0].block_id == b);
                        assert(self.entries@[k0] == pre.entries@[k0]);
                        assert(has_entry(self.entries@, b));
                        let k = entry_idx(self.entries@, b);
                        assert(0 <= k < self.entries@.len() && self.entries@[k].block_id == b);
                        assert(k < self.entries@.len() - 1);
                        assert(self.entries@[k] == pre.entries@[k]);
                        assert(self.entries@[k].data@ == pre.entries@[entry_idx(pre.entries@, b)].data@);
                    } else {
                        assert(!has_entry(self.entries@, b)) by {
                            if has_entry(self.entries@, b) {
                                let k = entry_idx(self.entries@, b);
                                assert(0 <= k < self.entries@.len() && self.entries@[k].block_id
                                    == b);
                                assert(k != self.entries@.len() - 1);
                                assert(self.entries@[k] == pre.entries@[k]);
                            }
                        }
                    }
                }
            }
            assert(self@ =~= v1);
            let n = self.entries@.len() - 1;
            assert(self.entries@[n].block_id == block_id);
            assert(has_entry(self.entries@, block_id as int));
            self.lemma_unique_entry(n, block_id as int);
        }
        self.entries.len() - 1
    }

    /// With unique block ids, the entry index for `b` is any slot holding `b`.
    proof fn lemma_unique_entry(&self, j: int, b: int)
        requires
            self.wf(),
            0 <= j < self.entries@.len(),
            self.entries@[j].block_id == b,
        ensures
            has_entry(self.entries@, b),
            entry_idx(self.entries@, b) == j,
            0 <= b < self@.len(),
            self@[b] == self.entries@[j].data@,
    {
        assert(has_entry(self.entries@, b));
        let k = entry_idx(self.entries@, b);
        assert(0 <= k < self.entries@.len() && self.entries@[k].block_id == b);
        if k != j {
            assert(self.entries@[k].block_id != self.entries@[j].block_id);
        }
    }

    /// Reads `len` bytes at `offset` within block `block_id` of the view.
    pub fn read_range(&mut self, block_id: usize, offset: usize, len: usize) -> (r: Vec<u8>)
        requires
            old(self).wf(),
            block_id < old(self)@.len(),
            offset + len <= BLOCK_SZ,
        ensures
            final(self).wf(),
            final(self)@ == old(self)@,
            r@ =~= old(self)@[block_id as int].subrange(offset as int, offset + len),
            r@.len() == len,
    {
        let idx = self.get_slot(block_id);
        let entry = &self.entries[idx];
        let mut r: Vec<u8> = Vec::new();
        let mut k: usize = 0;
        while k < len
            invariant
                k <= len,
                offset + len <= BLOCK_SZ,
                idx < self.entries@.len(),
                entry == self.entries@[idx as int],
                entry.data@.len() == BLOCK_SZ,
                r@ =~= entry.data@.subrange(offset as int, offset + k),
            decreases len - k,
        {
            r.push(entry.data[offset + k]);
            k += 1;
        }
        r
    }

    /// Overwrites `data.len()` bytes at `offset` within block `block_id`,
    /// marking the block dirty. Only that byte range of the view changes.
    pub fn write_range(&mut self, block_id: usize, offset: usize, data: &[u8])
        requires
            old(self).wf(),
            block_id < old(self)@.len(),
            offset + data@.len() <= BLOCK_SZ,
        ensures
            final(self).wf(),
            final(self)@ =~= old(self)@.update(
                block_id as int,
                splice(old(self)@[block_id as int], offset as int, data@),
            ),
    {
        let ghost v0 = self@;
        let idx = self.get_slot(block_id);
        let dlen: usize = data.len();
        let mut buf: Vec<u8> = Vec::new();
        let mut k: usize = 0;
        let ghost target = splice(v0[block_id as int], offset as int, data@);
        while k < BLOCK_SZ
            invariant
                k <= BLOCK_SZ,
                offset + dlen <= BLOCK_SZ,
                dlen == data@.len(),
                idx < self.entries@.len(),
                self.entries@[idx as int].data@.len() == BLOCK_SZ,
                self.entries@[idx as int].data@ == self@[self.entries@[idx as int].block_id as int],
                self.entries@[idx as int].block_id == block_id,
                self@ == v0,
                target == splice(v0[block_id as int], offset as int, data@),
                target.len() == BLOCK_SZ,
                buf@ =~= target.subrange(0, k as int),
            decreases BLOCK_SZ - k,
        {
            if k >= offset && k < offset + dlen {
                buf.push(data[k - offset]);
            } else {
                buf.push(self.entries[idx].data[k]);
            }
            k += 1;
        }
        assert(buf@ =~= target);
        let ghost pre = *self;
        self.entries[idx] = CacheEntry { block_id, data: buf, dirty: true };
        proof {
            assert(self.wf()) by {
                assert forall|j: int|
                    0 <= j < self.entries@.len() && j != idx implies self.entries@[j]
                    == pre.entries@[j] by {}
            }
            assert forall|b: int| 0 <= b < v0.len() implies self@[b] == v0.update(
                block_id as int,
                target,
            )[b] by {
                if b == block_id {
                    self.lemma_unique_entry(idx as int, b);
                } else {
                    if has_entry(pre.entries@, b) {
                        let k0 = entry_idx(pre.entries@, b);
                        assert(0 <= k0 < pre.entries@.len() && pre.entries@[k0].block_id == b);
                        assert(k0 != idx);
                        assert(self.entries@[k0] == pre.entries@[k0]);
                        self.lemma_unique_entry(k0, b);
                        pre.lemma_unique_entry(k0, b);
                    } else {
                        assert(!has_entry(self.entries@, b)) by {
                            if has_entry(self.entries@, b) {
                                let k = entry_idx(self.entries@, b);
                                assert(0 <= k < self.entries@.len() && self.entries@[k].block_id
                                    == b);
                                assert(k != idx);
                                assert(self.entries@[k] == pre.entries@[k]);
                            }
                        }
                    }
                }
            }
            assert(self@ =~= v0.update(block_id as int, target));
        }
    }

    /// Reads the byte at `offset` of block `block_id` of the view.
    pub fn read_byte(&mut self, block_id: usize, offset: usize) -> (r: u8)
        requires
            old(self).wf(),
            block_id < old(self)@.len(),
            offset < BLOCK_SZ,
        ensures
            final(self).wf(),
            final(self)@ == old(self)@,
            r == old(self)@[block_id as int][offset as int],
    {
        let idx = self.get_slot(block_id);
        self.entries[idx].data[offset]
    }

    /// Overwrites the byte at `offset` of block `block_id`, marking the
    /// block dirty.
    pub fn write_byte(&mut self, block_id: usize, offset: usize, v: u8)
        requires
            old(self).wf(),
            block_id < old(self)@.len(),
            offset < BLOCK_SZ,
        ensures
            final(self).wf(),
            final(self)@ =~= old(self)@.update(
                block_id as int,
                old(self)@[block_id as int].update(offset as int, v),
            ),
    {
        let ghost v0 = self@;
        let idx = self.get_slot(block_id);
        let ghost pre = *self;
        let entry = &mut self.entries[idx];
        entry.data[offset] = v;
        entry.dirty = true;
        proof {
            let target = v0[block_id as int].update(offset as int, v);
            assert(self.entries@[idx as int].block_id == block_id);
            assert(self.entries@[idx as int].data@ =~= target);
            assert forall|k: int|
                0 <= k < self.entries@.len() && k != idx implies self.entries@[k]
                == pre.entries@[k] by {}
            assert(self.wf());
            assert forall|b: int| 0 <= b < v0.len() implies self@[b] == v0.update(
                block_id as int,
                target,
            )[b] by {
                if b == block_id {
                    self.lemma_unique_entry(idx as int, b);
                } else {
                    if has_entry(pre.entries@, b) {
                        let k0 = entry_idx(pre.entries@, b);
                        assert(0 <= k0 < pre.entries@.len() && pre.entries@[k0].block_id == b);
                        assert(k0 != idx);
                        assert(self.entries@[k0] == pre.entries@[k0]);
                        self.lemma_unique_entry(k0, b);
                        pre.lemma_unique_entry(k0, b);
                    } else {
                        assert(!has_entry(self.entries@, b)) by {
                            if has_entry(self.entries@, b) {
                                let k = entry_idx(self.entries@, b);
                                assert(0 <= k < self.entries@.len() && self.entries@[k].block_id
                                    == b);
                                assert(k != idx);
                                assert(self.entries@[k] == pre.entries@[k]);
                            }
                        }
                    }
                }
            }
            assert(self@ =~= v0.update(block_id as int, target));
        }
    }

    /// Reads the 32-bit little-endian word at `offset` of block `block_id`.
    pub fn read_u32(&mut self, block_id: usize, offset: usize) -> (r: u32)
        requires
            old(self).wf(),
            block_id < old(self)@.len(),
            offset + 4 <= BLOCK_SZ,
        ensures
            final(self).wf(),
            final(self)@ == old(self)@,
            r == u32_at(old(self)@[block_id as int], offset as int),
    {
        proof {
            self.lemma_view_wf();
        }
        let bytes = self.read_range(block_id, offset, 4);
        assert(bytes@[0] == old(self)@[block_id as int][offset as int]);
        assert(bytes@[1] == old(self)@[block_id as int][offset as int + 1]);
        assert(bytes@[2] == old(self)@[block_id as int][offset as int + 2]);
        assert(bytes@[3] == old(self)@[block_id as int][offset as int + 3]);
        crate::bytes::read_u32(&bytes, 0)
    }

    /// Writes `v` little-endian at `offset` of block `block_id`.
    pub fn write_u32(&mut self, block_id: usize, offset: usize, v: u32)
        requires
            old(self).wf(),
            block_id < old(self)@.len(),
            offset + 4 <= BLOCK_SZ,
        ensures
            final(self).wf(),
            final(self)@ =~= old(self)@.update(
                block_id as int,
                splice(old(self)@[block_id as int], offset as int, u32_le(v)),
            ),
    {
        let mut bytes: Vec<u8> = Vec::new();
        crate::bytes::push_u32(&mut bytes, v);
        self.write_range(block_id, offset, bytes.as_slice());
    }

    /// Writes every dirty entry back to the device. Afterwards the device
    /// matches the logical view exactly.
    pub fn sync_all(&mut self)
        requires
            old(self).wf(),
        ensures
            final(self).wf(),
            final(self)@ == old(self)@,
            final(self).device_view() =~= old(self)@,
    {
        let ghost v0 = self@;
        let mut j: usize = 0;
        while j < self.entries.len()
            invariant
                self.wf(),
                j <= self.entries@.len(),
                self@ == v0,
                self.entries@.len() == old(self).entries@.len(),
                forall|k: int|
                    0 <= k < self.entries@.len() ==> (#[trigger] self.entries@[k]).block_id == old(self).entries@[k].block_id,
                forall|k: int|
                    0 <= k < self.entries@.len() ==> (#[trigger] self.entries@[k]).data@ == old(self).entries@[k].data@,
                forall|k: int|
                    0 <= k < j ==> self.device@[(#[trigger] self.entries@[k]).block_id as int]
                        == self.entries@[k].data@,
            decreases self.entries@.len() - j,
        {
            let dirty = self.entries[j].dirty;
            if dirty {
                let ghost pre = *self;
                let bid = self.entries[j].block_id;
                let data_copy = self.read_entry_data(j);
                self.device.write_block(bid, &data_copy);
                self.entries[j] = CacheEntry { block_id: bid, data: data_copy, dirty: false };
                proof {
                    assert forall|k: int|
                        0 <= k < self.entries@.len() && k != j implies self.entries@[k]
                        == pre.entries@[k] by {}
                    assert(self.entries@[j as int].block_id == pre.entries@[j as int].block_id);
                    assert(self.entries@[j as int].data@ == pre.entries@[j as int].data@);
                    assert(self.wf()) by {
                        assert forall|k: int|
                            0 <= k < self.entries@.len() && !(
                        #[trigger] self.entries@[k]).dirty implies self.device@[self.entries@[k].block_id as int]
                            == self.entries@[k].data@ by {
                            if k != j {
                                assert(self.entries@[k].block_id != bid);
                            }
                        }
                    }
                    assert forall|b: int| 0 <= b < v0.len() implies self@[b] == v0[b] by {
                        self.lemma_same_entries_same_view(&pre, b);
                        if b == bid {
                            pre.lemma_unique_entry(j as int, b);
                        }
                    }
                    assert(self@ =~= v0);
                }
            }
            j += 1;
        }
        proof {
            assert forall|b: int| 0 <= b < self.device@.len() implies self.device@[b]
                == self@[b] by {
                if has_entry(self.entries@, b) {
                    let k = entry_idx(self.entries@, b);
                    assert(0 <= k < self.entries@.len() && self.entries@[k].block_id == b);
                }
            }
        }
    }

    /// Two caches whose entries name the same blocks with the same bytes have
    /// the same view wherever the device agrees.
    proof fn lemma_same_entries_same_view(&self, other: &Self, b: int)
        requires
            self.wf(),
            other.wf(),
            self.entries@.len() == other.entries@.len(),
            forall|k: int|
                0 <= k < self.entries@.len() ==> (#[trigger] self.entries@[k]).block_id
                    == other.entries@[k].block_id,
            forall|k: int|
                0 <= k < self.entries@.len() ==> (#[trigger] self.entries@[k]).data@
                    == other.entries@[k].data@,
            self.device@.len() == other.device@.len(),
            0 <= b < self.device@.len(),
            has_entry(self.entries@, b) || self.device@[b] == other.device@[b],
        ensures
            self@[b] == other@[b],
    {
        if has_entry(self.entries@, b) {
            let k = entry_idx(self.entries@, b);
            assert(0 <= k < self.entries@.len() && self.entries@[k].block_id == b);
            assert(other.entries@[k].block_id == b);
            assert(has_entry(other.entries@, b));
            let k2 = entry_idx(other.entries@, b);
            assert(0 <= k2 < other.entries@.len() && other.entries@[k2].block_id == b);
            assert(self.entries@[k2].block_id == b);
            assert(k2 == k);
            assert(other.entries@[k2].data@ == self.entries@[k].data@);
        } else {
            assert(!has_entry(other.entries@, b)) by {
                if has_entry(other.entries@, b) {
                    let k2 = entry_idx(other.entries@, b);
                    assert(0 <= k2 < other.entries@.len() && other.entries@[k2].block_id == b);
                    assert(self.entries@[k2].block_id == b);
                }
            }
        }
    }

    /// Copies the bytes of entry `j` out of the cache.
    fn read_entry_data(&self, j: usize) -> (r: Vec<u8>)
        requires
            self.wf(),
            j < self.entries@.len(),
        ensures
            r@ == self.entries@[j as int].data@,
            r@.len() == BLOCK_SZ,
    {
        let entry = &self.entries[j];
        let mut r: Vec<u8> = Vec::new();
        let mut k: usize = 0;
        while k < BLOCK_SZ
            invariant
                k <= BLOCK_SZ,
                entry.data@.len() == BLOCK_SZ,
                r@ =~= entry.data@.subrange(0, k as int),
            decreases BLOCK_SZ - k,
        {
            r.push(entry.data[k]);
            k += 1;
        }
        assert(r@ =~= entry.data@);
        r
    }

    /// Hands the underlying device back, for reopening or inspection.
    /// Unsynced cache contents are dropped.
    pub fn into_device(self) -> (r: MemDisk)
        requires
            self.wf(),
        ensures
            r.wf(),
            r@ == self.device_view(),
    {
        self.device
    }
}

} // verus!
