//! The bit allocator. A bitmap spans a contiguous run of blocks and hands
//! out bit positions: `alloc` takes the lowest clear bit, `dealloc` clears a
//! set one. One instance allocates inode numbers, another data blocks.

use vstd::prelude::*;
use crate::BLOCK_SZ;
use crate::block_cache::BlockCache;

verus! {

/// Bit `j` of a byte.
pub open spec fn bit_of(byte: u8, j: u8) -> bool {
    (byte >> j) & 1 == 1
}

/// Bit `n` of the bitmap starting at block `start`, counting 4096 bits per
/// block.
pub open spec fn bitmap_bit(disk: Seq<Seq<u8>>, start: int, n: int) -> bool {
    bit_of(disk[start + n / 4096][(n % 4096) / 8], (n % 8) as u8)
}

/// Where bit `n` lives: its block within the run, its byte, and its bit.
pub proof fn lemma_bit_pos(byte_idx: int, j: int)
    requires
        0 <= byte_idx,
        0 <= j < 8,
    ensures
        (byte_idx * 8 + j) / 4096 == byte_idx / 512,
        ((byte_idx * 8 + j) % 4096) / 8 == byte_idx % 512,
        (byte_idx * 8 + j) % 8 == j,
{
    let n = byte_idx * 8 + j;
    let q = byte_idx / 512;
    let rem = byte_idx % 512;
    vstd::arithmetic::div_mod::lemma_fundamental_div_mod(byte_idx, 512);
    assert(n == 4096 * q + (8 * rem + j));
    assert(0 <= 8 * rem + j < 4096);
    vstd::arithmetic::div_mod::lemma_hoist_over_denominator(8 * rem + j, q, 4096);
    assert((8 * rem + j) / 4096 == 0 && (8 * rem + j) % 4096 == 8 * rem + j) by {
        vstd::arithmetic::div_mod::lemma_basic_div(8 * rem + j, 4096);
        vstd::arithmetic::div_mod::lemma_small_mod((8 * rem + j) as nat, 4096nat);
    }
    assert(n / 4096 == q) by {
        assert((8 * rem + j) / 4096 + q == (8 * rem + j + 4096 * q) / 4096);
    }
    assert(n % 4096 == 8 * rem + j) by {
        vstd::arithmetic::div_mod::lemma_fundamental_div_mod(n, 4096);
    }
    assert((8 * rem + j) / 8 == rem && (8 * rem + j) % 8 == j) by {
        vstd::arithmetic::div_mod::lemma_hoist_over_denominator(j, rem, 8);
        vstd::arithmetic::div_mod::lemma_basic_div(j, 8);
        vstd::arithmetic::div_mod::lemma_small_mod(j as nat, 8nat);
        vstd::arithmetic::div_mod::lemma_fundamental_div_mod(8 * rem + j, 8);
        assert(j / 8 + rem == (j + 8 * rem) / 8);
    }
    vstd::arithmetic::div_mod::lemma_fundamental_div_mod(n, 8);
    assert(n == 8 * byte_idx + j);
    assert(n % 8 == j) by {
        vstd::arithmetic::div_mod::lemma_hoist_over_denominator(j, byte_idx, 8);
        vstd::arithmetic::div_mod::lemma_small_mod(j as nat, 8nat);
        vstd::arithmetic::div_mod::lemma_mod_multiples_vanish(byte_idx, j, 8);
    }
}

/// A bit allocator over the blocks `[start_block_id, start_block_id +
/// blocks)`, of which the first `bits` bit positions are usable.
pub struct Bitmap {
    pub start_block_id: usize,
    pub blocks: usize,
    pub bits: usize,
}

impl Bitmap {
    pub open spec fn start(&self) -> int {
        self.start_block_id as int
    }

    pub open spec fn num_blocks(&self) -> int {
        self.blocks as int
    }

    /// How many bit positions this bitmap can hand out.
    pub open spec fn num_bits(&self) -> int {
        self.bits as int
    }

    pub open spec fn wf(&self) -> bool {
        &&& self.bits <= self.blocks * 4096
        &&& self.blocks * 4096 < 0x100000000
        &&& self.start_block_id + self.blocks <= usize::MAX
    }

    /// A bitmap over `blocks` blocks starting at `start_block_id`, exposing
    /// `bits` usable positions.
    pub fn new(start_block_id: usize, blocks: usize, bits: usize) -> (r: Self)
        requires
            bits <= blocks * 4096,
            blocks * 4096 < 0x100000000,
            start_block_id + blocks <= usize::MAX,
        ensures
            r.wf(),
            r.start() == start_block_id,
            r.num_blocks() == blocks,
            r.num_bits() == bits,
    {
        Bitmap { start_block_id, blocks, bits }
    }

    /// Takes the lowest clear bit: scans blocks in order, bytes within each
    /// block, and bits within each byte; sets the bit found and returns its
    /// index. Returns nothing when every usable bit is set.
    pub fn allocate(&self, cache: &mut BlockCache) -> (r: Option<u32>)
        requires
            old(cache).wf(),
            self.wf(),
            self.start() + self.num_blocks() <= old(cache)@.len(),
        ensures
            final(cache).wf(),
            final(cache)@.len() == old(cache)@.len(),
            match r {
                Some(n) => {
                    &&& 0 <= n < self.num_bits()
                    &&& !bitmap_bit(old(cache)@, self.start(), n as int)
                    &&& forall|m: int|
                        0 <= m < n ==> bitmap_bit(old(cache)@, self.start(), m)
                    &&& bitmap_bit(final(cache)@, self.start(), n as int)
                    &&& forall|m: int|
                        0 <= m < self.num_blocks() * 4096 && m != n ==> bitmap_bit(
                            final(cache)@,
                            self.start(),
                            m,
                        ) == bitmap_bit(old(cache)@, self.start(), m)
                    &&& forall|b: int|
                        0 <= b < old(cache)@.len() && b != self.start() + n as int / 4096
                            ==> final(cache)@[b] == old(cache)@[b]
                },
                None => {
                    &&& final(cache)@ == old(cache)@
                    &&& forall|m: int|
                        0 <= m < self.num_bits() ==> bitmap_bit(old(cache)@, self.start(), m)
                },
            },
    {
        let ghost d0 = cache@;
        let nbytes = (self.bits + 7) / 8;
        proof {
            assert(nbytes * 8 >= self.bits as int) by {
                vstd::arithmetic::div_mod::lemma_fundamental_div_mod(self.bits as int + 7, 8);
            }
            assert((nbytes - 1) * 8 < self.bits as int ==> true);
            assert(nbytes <= self.blocks * 512) by {
                assert(self.bits as int <= self.blocks as int * 4096);
                vstd::arithmetic::div_mod::lemma_div_is_ordered(
                    self.bits as int + 7,
                    self.blocks as int * 4096 + 7,
                    8,
                );
                assert((self.blocks as int * 4096 + 7) / 8 == self.blocks as int * 512) by {
                    vstd::arithmetic::div_mod::lemma_hoist_over_denominator(
                        7,
                        self.blocks as int * 512,
                        8,
                    );
                    vstd::arithmetic::div_mod::lemma_basic_div(7, 8);
                }
            }
        }
        let mut byte_idx: usize = 0;
        while byte_idx < nbytes
            invariant
                cache.wf(),
                cache@ == d0,
                d0 == old(cache)@,
                self.wf(),
                self.start() + self.num_blocks() <= cache@.len(),
                nbytes == (self.num_bits() + 7) / 8,
                nbytes <= self.num_blocks() * 512,
                byte_idx <= nbytes,
                forall|m: int|
                    0 <= m < byte_idx * 8 && m < self.num_bits() ==> bitmap_bit(
                        d0,
                        self.start(),
                        m,
                    ),
            decreases nbytes - byte_idx,
        {
            let block = self.start_block_id + byte_idx / 512;
            let off = byte_idx % 512;
            proof {
                vstd::arithmetic::div_mod::lemma_fundamental_div_mod(byte_idx as int, 512);
                vstd::arithmetic::div_mod::lemma_div_pos_is_pos(byte_idx as int, 512);
                vstd::arithmetic::div_mod::lemma_mod_bound(byte_idx as int, 512);
                assert(byte_idx as int / 512 < self.num_blocks()) by {
                    vstd::arithmetic::div_mod::lemma_div_is_ordered(
                        byte_idx as int,
                        self.num_blocks() * 512 - 1,
                        512,
                    );
                    assert((self.num_blocks() * 512 - 1) / 512 == self.num_blocks() - 1) by {
                        assert(self.num_blocks() * 512 - 1 == 512 * (self.num_blocks() - 1) + 511);
                        vstd::arithmetic::div_mod::lemma_hoist_over_denominator(
                            511,
                            self.num_blocks() - 1,
                            512,
                        );
                        vstd::arithmetic::div_mod::lemma_basic_div(511, 512);
                    }
                }
                cache.lemma_view_wf();
            }
            let byte = cache.read_byte(block, off);
            let jmax: usize = if self.bits - byte_idx * 8 < 8 {
                self.bits - byte_idx * 8
            } else {
                8
            };
            if byte != 255 {
                let mut j: usize = 0;
                while j < jmax
                    invariant
                        cache.wf(),
                        cache@ == d0,
                        d0 == old(cache)@,
                        self.wf(),
                        self.start() + self.num_blocks() <= cache@.len(),
                        j <= jmax,
                        jmax <= 8,
                        byte_idx * 8 + jmax <= self.num_bits(),
                        byte_idx < nbytes,
                        nbytes <= self.num_blocks() * 512,
                        block == self.start() + byte_idx as int / 512,
                        block < self.start() + self.num_blocks(),
                        off == byte_idx as int % 512,
                        off < 512,
                        byte == d0[block as int][off as int],
                        forall|m: int|
                            0 <= m < byte_idx * 8 && m < self.num_bits() ==> bitmap_bit(
                                d0,
                                self.start(),
                                m,
                            ),
                        forall|jj: u8| jj < j ==> #[trigger] bit_of(byte, jj),
                    decreases jmax - j,
                {
                    let n = byte_idx * 8 + j;
                    if (byte >> (j as u8)) & 1 == 0 {
                        // Lowest clear bit found: set it.
                        let newbyte = byte | (1u8 << (j as u8));
                        proof {
                            cache.lemma_view_wf();
                        }
                        cache.write_byte(block, off, newbyte);
                        proof {
                            lemma_bit_pos(byte_idx as int, j as int);
                            assert(!bit_of(byte, j as u8));
                            assert(bit_of(newbyte, j as u8)) by {
                                let ju = j as u8;
                                assert(((byte | (1u8 << ju)) >> ju) & 1 == 1) by (bit_vector)
                                    requires
                                        ju < 8,
                                ;
                            }
                            assert forall|k: u8| k < 8 && k != j as u8 implies bit_of(
                                newbyte,
                                k,
                            ) == bit_of(byte, k) by {
                                let ju = j as u8;
                                assert(((byte | (1u8 << ju)) >> k) & 1 == (byte >> k) & 1)
                                    by (bit_vector)
                                    requires
                                        ju < 8,
                                        k < 8,
                                        k != ju,
                                ;
                            }
                            assert forall|m: int| 0 <= m < n implies bitmap_bit(
                                d0,
                                self.start(),
                                m,
                            ) by {
                                if m >= byte_idx * 8 {
                                    let jm = m - byte_idx * 8;
                                    lemma_bit_pos(byte_idx as int, jm);
                                    assert(bit_of(byte, jm as u8));
                                }
                            }
                            assert(bitmap_bit(cache@, self.start(), n as int));
                            assert forall|m: int|
                                0 <= m < self.num_blocks() * 4096 && m != n implies bitmap_bit(
                                cache@,
                                self.start(),
                                m,
                            ) == bitmap_bit(d0, self.start(), m) by {
                                vstd::arithmetic::div_mod::lemma_fundamental_div_mod(m, 4096);
                                vstd::arithmetic::div_mod::lemma_div_pos_is_pos(m, 4096);
                                vstd::arithmetic::div_mod::lemma_mod_bound(m, 4096);
                                vstd::arithmetic::div_mod::lemma_fundamental_div_mod(m % 4096, 8);
                                vstd::arithmetic::div_mod::lemma_div_pos_is_pos(m % 4096, 8);
                                vstd::arithmetic::div_mod::lemma_mod_bound(m % 4096, 8);
                                if self.start() + m / 4096 == block as int {
                                    if (m % 4096) / 8 == off as int {
                                        lemma_bit_pos(byte_idx as int, j as int);
                                        assert(m == 4096 * (m / 4096) + 8 * ((m % 4096) / 8) + (m
                                            % 4096) % 8);
                                        assert((m % 4096) % 8 != j as int);
                                        assert(bit_of(newbyte, ((m % 4096) % 8) as u8) == bit_of(
                                            byte,
                                            ((m % 4096) % 8) as u8,
                                        ));
                                    }
                                }
                            }
                        }
                        return Some(n as u32);
                    }
                    proof {
                        let ju = j as u8;
                        assert((byte >> ju) & 1 == 0 || (byte >> ju) & 1 == 1) by (bit_vector);
                    }
                    j += 1;
                }
                proof {
                    // The byte's usable bits are all set.
                    assert forall|m: int|
                        0 <= m < (byte_idx + 1) * 8 && m < self.num_bits() implies bitmap_bit(
                        d0,
                        self.start(),
                        m,
                    ) by {
                        if m >= byte_idx * 8 {
                            let jm = m - byte_idx * 8;
                            lemma_bit_pos(byte_idx as int, jm);
                            assert(jm < jmax);
                            assert(bit_of(byte, jm as u8));
                        }
                    }
                }
            } else {
                proof {
                    assert forall|m: int|
                        0 <= m < (byte_idx + 1) * 8 && m < self.num_bits() implies bitmap_bit(
                        d0,
                        self.start(),
                        m,
                    ) by {
                        if m >= byte_idx * 8 {
                            let jm = m - byte_idx * 8;
                            lemma_bit_pos(byte_idx as int, jm);
                            assert(bit_of(255u8, jm as u8)) by {
                                let k = jm as u8;
                                assert((255u8 >> k) & 1 == 1) by (bit_vector)
                                    requires
                                        k < 8,
                                ;
                            }
                        }
                    }
                }
            }
            byte_idx += 1;
        }
        proof {
            assert forall|m: int| 0 <= m < self.num_bits() implies bitmap_bit(
                d0,
                self.start(),
                m,
            ) by {
                assert(m < nbytes * 8) by {
                    vstd::arithmetic::div_mod::lemma_fundamental_div_mod(
                        self.bits as int + 7,
                        8,
                    );
                }
            }
        }
        None
    }

    /// Clears bit `n`, which must be set.
    pub fn dealloc(&self, cache: &mut BlockCache, n: u32)
        requires
            old(cache).wf(),
            self.wf(),
            self.start() + self.num_blocks() <= old(cache)@.len(),
            n < self.num_bits(),
            bitmap_bit(old(cache)@, self.start(), n as int),
        ensures
            final(cache).wf(),
            final(cache)@.len() == old(cache)@.len(),
            !bitmap_bit(final(cache)@, self.start(), n as int),
            forall|m: int|
                0 <= m < self.num_blocks() * 4096 && m != n ==> bitmap_bit(
                    final(cache)@,
                    self.start(),
                    m,
                ) == bitmap_bit(old(cache)@, self.start(), m),
            forall|b: int|
                0 <= b < old(cache)@.len() && b != self.start() + n as int / 4096 ==> final(cache)@[b] == old(cache)@[b],
    {
        let ghost d0 = cache@;
        let nu = n as usize;
        let byte_idx = nu / 8;
        let j = nu % 8;
        proof {
            vstd::arithmetic::div_mod::lemma_fundamental_div_mod(nu as int, 8);
            vstd::arithmetic::div_mod::lemma_div_pos_is_pos(nu as int, 8);
            vstd::arithmetic::div_mod::lemma_mod_bound(nu as int, 8);
            lemma_bit_pos(byte_idx as int, j as int);
            assert(byte_idx as int / 512 < self.num_blocks()) by {
                assert(byte_idx as int <= (self.num_blocks() * 4096 - 1) / 8) by {
                    vstd::arithmetic::div_mod::lemma_div_is_ordered(
                        nu as int,
                        self.num_blocks() * 4096 - 1,
                        8,
                    );
                }
                assert((self.num_blocks() * 4096 - 1) / 8 == self.num_blocks() * 512 - 1) by {
                    assert(self.num_blocks() * 4096 - 1 == 8 * (self.num_blocks() * 512 - 1) + 7);
                    vstd::arithmetic::div_mod::lemma_hoist_over_denominator(
                        7,
                        self.num_blocks() * 512 - 1,
                        8,
                    );
                    vstd::arithmetic::div_mod::lemma_basic_div(7, 8);
                }
                vstd::arithmetic::div_mod::lemma_div_is_ordered(
                    byte_idx as int,
                    self.num_blocks() * 512 - 1,
                    512,
                );
                assert((self.num_blocks() * 512 - 1) / 512 == self.num_blocks() - 1) by {
                    assert(self.num_blocks() * 512 - 1 == 512 * (self.num_blocks() - 1) + 511);
                    vstd::arithmetic::div_mod::lemma_hoist_over_denominator(
                        511,
                        self.num_blocks() - 1,
                        512,
                    );
                    vstd::arithmetic::div_mod::lemma_basic_div(511, 512);
                }
            }
            vstd::arithmetic::div_mod::lemma_fundamental_div_mod(byte_idx as int, 512);
            vstd::arithmetic::div_mod::lemma_div_pos_is_pos(byte_idx as int, 512);
            vstd::arithmetic::div_mod::lemma_mod_bound(byte_idx as int, 512);
            cache.lemma_view_wf();
        }
        let block = self.start_block_id + byte_idx / 512;
        let off = byte_idx % 512;
        let byte = cache.read_byte(block, off);
        let newbyte = byte & !(1u8 << (j as u8));
        cache.write_byte(block, off, newbyte);
        proof {
            assert(n as int == byte_idx as int * 8 + j as int);
            assert(block as int == self.start() + n as int / 4096 && off as int == (n as int
                % 4096) / 8 && j as int == n as int % 8);
            assert(!bit_of(newbyte, j as u8)) by {
                let ju = j as u8;
                assert(((byte & !(1u8 << ju)) >> ju) & 1 == 0) by (bit_vector)
                    requires
                        ju < 8,
                ;
            }
            assert forall|k: u8| k < 8 && k != j as u8 implies bit_of(newbyte, k) == bit_of(
                byte,
                k,
            ) by {
                let ju = j as u8;
                assert(((byte & !(1u8 << ju)) >> k) & 1 == (byte >> k) & 1) by (bit_vector)
                    requires
                        ju < 8,
                        k < 8,
                        k != ju,
                ;
            }
            assert forall|m: int|
                0 <= m < self.num_blocks() * 4096 && m != n implies bitmap_bit(
                cache@,
                self.start(),
                m,
            ) == bitmap_bit(d0, self.start(), m) by {
                vstd::arithmetic::div_mod::lemma_fundamental_div_mod(m, 4096);
                vstd::arithmetic::div_mod::lemma_div_pos_is_pos(m, 4096);
                vstd::arithmetic::div_mod::lemma_mod_bound(m, 4096);
                vstd::arithmetic::div_mod::lemma_fundamental_div_mod(m % 4096, 8);
                vstd::arithmetic::div_mod::lemma_div_pos_is_pos(m % 4096, 8);
                vstd::arithmetic::div_mod::lemma_mod_bound(m % 4096, 8);
                if self.start() + m / 4096 == block as int {
                    if (m % 4096) / 8 == off as int {
                        assert(m == 4096 * (m / 4096) + 8 * ((m % 4096) / 8) + (m % 4096) % 8);
                        assert((m % 4096) % 8 != j as int);
                        assert(bit_of(newbyte, ((m % 4096) % 8) as u8) == bit_of(
                            byte,
                            ((m % 4096) % 8) as u8,
                        ));
                    }
                }
            }
        }
    }
}

} // verus!

verus! {

/// The block a bit lives in stays inside the bitmap's run.
pub proof fn lemma_bit_block_range(blocks: int, m: int)
    requires
        0 <= m < blocks * 4096,
    ensures
        0 <= m / 4096 < blocks,
{
    vstd::arithmetic::div_mod::lemma_div_pos_is_pos(m, 4096);
    vstd::arithmetic::div_mod::lemma_div_is_ordered(m, blocks * 4096 - 1, 4096);
    assert((blocks * 4096 - 1) / 4096 == blocks - 1) by {
        assert(blocks * 4096 - 1 == 4096 * (blocks - 1) + 4095);
        vstd::arithmetic::div_mod::lemma_hoist_over_denominator(4095, blocks - 1, 4096);
        vstd::arithmetic::div_mod::lemma_basic_div(4095, 4096);
    }
}

/// A bit of a zero byte is clear.
pub proof fn lemma_zero_byte_bit(j: u8)
    requires
        j < 8,
    ensures
        !bit_of(0u8, j),
{
    assert((0u8 >> j) & 1 == 0) by (bit_vector);
}

} // verus!
