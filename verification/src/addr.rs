//! Physical and virtual addresses and page numbers for an Sv39-style paging
//! scheme: 4 KiB pages, 56-bit physical and 39-bit virtual addresses, and
//! three 9-bit index levels per virtual page number.

use vstd::prelude::*;

verus! {

/// Bits of a page offset: pages are `1 << 12` bytes.
pub const PAGE_SIZE_BITS: usize = 12;

/// Bytes per page.
pub const PAGE_SIZE: usize = 4096;

/// A physical byte address.
#[derive(Clone, Copy, PartialEq, Eq, Structural)]
pub struct PhysAddr(pub usize);

/// A virtual byte address.
#[derive(Clone, Copy, PartialEq, Eq, Structural)]
pub struct VirtAddr(pub usize);

/// A physical page number.
#[derive(Clone, Copy, PartialEq, Eq, Structural)]
pub struct PhysPageNum(pub usize);

/// A virtual page number.
#[derive(Clone, Copy, PartialEq, Eq, Structural)]
pub struct VirtPageNum(pub usize);

impl PhysAddr {
    /// The offset of this address within its page.
    pub fn page_offset(&self) -> (r: usize)
        ensures
            r == self.0 as int % 4096,
    {
        let v = self.0;
        proof {
            assert(v & 4095 == v as int % 4096) by (bit_vector);
        }
        v & (PAGE_SIZE - 1)
    }

    /// The page containing this address.
    pub fn floor(&self) -> (r: PhysPageNum)
        ensures
            r.0 == self.0 as int / 4096,
    {
        PhysPageNum(self.0 / PAGE_SIZE)
    }

    /// The first page at or above this address; address zero rounds to page
    /// zero.
    pub fn ceil(&self) -> (r: PhysPageNum)
        requires
            self.0 <= usize::MAX - 4095,
        ensures
            r.0 == (if self.0 == 0 {
                0int
            } else {
                (self.0 - 1 + 4096) / 4096
            }),
    {
        if self.0 == 0 {
            PhysPageNum(0)
        } else {
            PhysPageNum((self.0 - 1 + PAGE_SIZE) / PAGE_SIZE)
        }
    }
}

impl VirtAddr {
    /// The offset of this address within its page.
    pub fn page_offset(&self) -> (r: usize)
        ensures
            r == self.0 as int % 4096,
    {
        let v = self.0;
        proof {
            assert(v & 4095 == v as int % 4096) by (bit_vector);
        }
        v & (PAGE_SIZE - 1)
    }

    /// The page containing this address.
    pub fn floor(&self) -> (r: VirtPageNum)
        ensures
            r.0 == self.0 as int / 4096,
    {
        VirtPageNum(self.0 / PAGE_SIZE)
    }

    /// The first page boundary at or above this address.
    pub fn ceil(&self) -> (r: VirtPageNum)
        requires
            self.0 <= usize::MAX - 4095,
        ensures
            r.0 == (self.0 + 4095) as int / 4096,
    {
        VirtPageNum((self.0 + (PAGE_SIZE - 1)) / PAGE_SIZE)
    }
}

impl VirtPageNum {
    /// The three 9-bit page-table indices of this page number, highest level
    /// first.
    pub fn indexes(&self) -> (r: [usize; 3])
        ensures
            r[2] == self.0 as int % 512,
            r[1] == self.0 as int / 512 % 512,
            r[0] == self.0 as int / 262144 % 512,
    {
        let mut vpn = self.0;
        let i2 = vpn & 511;
        proof {
            let v = vpn;
            assert(v & 511 == v as int % 512 && v >> 9u64 == v as int / 512) by (bit_vector);
        }
        vpn >>= 9;
        let i1 = vpn & 511;
        proof {
            let v = vpn;
            assert(v & 511 == v as int % 512 && v >> 9u64 == v as int / 512) by (bit_vector);
        }
        vpn >>= 9;
        let i0 = vpn & 511;
        proof {
            let v = vpn;
            assert(v & 511 == v as int % 512) by (bit_vector);
            vstd::arithmetic::div_mod::lemma_div_denominator(self.0 as int, 512, 512);
        }
        [i0, i1, i2]
    }
}

/// Types whose values step forward one unit at a time, with a mathematical
/// index that the step advances.
pub trait StepByOne: Sized {
    /// The position of this value on the number line.
    spec fn sval(&self) -> int;

    /// Advance by one.
    fn step(&mut self)
        requires
            old(self).sval() < usize::MAX,
        ensures
            final(self).sval() == old(self).sval() + 1,
    ;

    /// Whether two values sit at the same position.
    fn same(&self, other: &Self) -> (r: bool)
        ensures
            r == (self.sval() == other.sval()),
    ;
}

impl StepByOne for VirtPageNum {
    open spec fn sval(&self) -> int {
        self.0 as int
    }

    fn step(&mut self) {
        self.0 += 1;
    }

    fn same(&self, other: &Self) -> bool {
        self.0 == other.0
    }
}

impl StepByOne for PhysPageNum {
    open spec fn sval(&self) -> int {
        self.0 as int
    }

    fn step(&mut self) {
        self.0 += 1;
    }

    fn same(&self, other: &Self) -> bool {
        self.0 == other.0
    }
}

/// A half-open range `[l, r)` of steppable values.
#[derive(Clone, Copy)]
pub struct SimpleRange<T: StepByOne + Copy> {
    l: T,
    r: T,
}

impl<T: StepByOne + Copy> SimpleRange<T> {
    pub closed spec fn start_val(&self) -> int {
        self.l.sval()
    }

    pub closed spec fn end_val(&self) -> int {
        self.r.sval()
    }

    pub closed spec fn spec_start(&self) -> T {
        self.l
    }

    pub closed spec fn spec_end(&self) -> T {
        self.r
    }

    pub fn new(l: T, r: T) -> (res: Self)
        requires
            l.sval() <= r.sval(),
        ensures
            res.spec_start() == l,
            res.spec_end() == r,
            res.start_val() <= res.end_val(),
    {
        SimpleRange { l, r }
    }

    pub fn get_start(&self) -> (res: T)
        ensures
            res == self.spec_start(),
    {
        self.l
    }

    pub fn get_end(&self) -> (res: T)
        ensures
            res == self.spec_end(),
    {
        self.r
    }

    /// The iterator over the range, starting at its left end.
    pub fn iter(&self) -> (res: SimpleRangeIter<T>)
        ensures
            res.spec_cursor() == self.spec_start(),
            res.spec_iter_end() == self.spec_end(),
    {
        SimpleRangeIter { cursor: self.l, end: self.r }
    }
}

/// Walks a `SimpleRange` from start to end, one step at a time.
pub struct SimpleRangeIter<T: StepByOne + Copy> {
    cursor: T,
    end: T,
}

impl<T: StepByOne + Copy> SimpleRangeIter<T> {
    pub closed spec fn spec_cursor(&self) -> T {
        self.cursor
    }

    pub closed spec fn spec_iter_end(&self) -> T {
        self.end
    }

    /// The next value of the range, or nothing once the cursor has reached
    /// the end.
    pub fn next(&mut self) -> (r: Option<T>)
        requires
            old(self).spec_cursor().sval() <= old(self).spec_iter_end().sval(),
            old(self).spec_iter_end().sval() < usize::MAX,
        ensures
            final(self).spec_iter_end() == old(self).spec_iter_end(),
            match r {
                Some(v) => {
                    &&& old(self).spec_cursor().sval() < old(self).spec_iter_end().sval()
                    &&& v == old(self).spec_cursor()
                    &&& final(self).spec_cursor().sval() == old(self).spec_cursor().sval() + 1
                },
                None => {
                    &&& old(self).spec_cursor().sval() == old(self).spec_iter_end().sval()
                    &&& *final(self) == *old(self)
                },
            },
    {
        if self.cursor.same(&self.end) {
            return None;
        }
        let ret = self.cursor;
        self.cursor.step();
        Some(ret)
    }
}

/// A range of virtual page numbers.
pub type VPNRange = SimpleRange<VirtPageNum>;

} // verus!
