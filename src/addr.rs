//! Typed physical / virtual addresses and page numbers, and the Sv39 split of
//! a virtual page number into its three table indices.
use vstd::prelude::*;
use crate::consts::PAGE_SIZE_U64;

verus! {

/// Addresses keep their low 56 bits.
pub const PA_WIDTH_SV39: usize = 56;

/// Page numbers keep their low 44 bits.
pub const PPN_WIDTH_SV39: usize = 44;

pub const ADDR_MASK: u64 = 0xff_ffff_ffff_ffff;

pub const PPN_MASK: u64 = 0xfff_ffff_ffff;

/// Number of virtual pages that Sv39 can name (27 index bits).
pub const SV39_VPN_LIMIT: u64 = 0x800_0000;

#[derive(Clone, Copy, PartialEq, Eq, Structural, Debug)]
pub struct PhysAddr(pub u64);

#[derive(Clone, Copy, PartialEq, Eq, Structural, Debug)]
pub struct VirtAddr(pub u64);

#[derive(Clone, Copy, PartialEq, Eq, Structural, Debug)]
pub struct PhysPageNum(pub u64);

#[derive(Clone, Copy, PartialEq, Eq, Structural, Debug)]
pub struct VirtPageNum(pub u64);

pub open spec fn page_floor(a: int) -> int {
    a / (PAGE_SIZE_U64 as int)
}

pub open spec fn page_ceil(a: int) -> int {
    (a + PAGE_SIZE_U64 - 1) / (PAGE_SIZE_U64 as int)
}

pub open spec fn page_off(a: int) -> int {
    a % (PAGE_SIZE_U64 as int)
}

/// The three Sv39 table indices of a page number, root level first.
pub open spec fn sv39_indexes(vpn: int) -> Seq<int> {
    seq![(vpn / 0x4_0000) % 512, (vpn / 512) % 512, vpn % 512]
}

fn floor_of(a: u64) -> (r: u64)
    ensures
        r == page_floor(a as int),
{
    a / PAGE_SIZE_U64
}

fn ceil_of(a: u64) -> (r: u64)
    ensures
        r == page_ceil(a as int),
{
    if a % PAGE_SIZE_U64 == 0 {
        a / PAGE_SIZE_U64
    } else {
        a / PAGE_SIZE_U64 + 1
    }
}

fn offset_of(a: u64) -> (r: u64)
    ensures
        r == page_off(a as int),
{
    let r = a & (PAGE_SIZE_U64 - 1);
    assert(a & 4095 == a % 4096) by (bit_vector);
    r
}

impl PhysAddr {
    /// An address from a raw value, keeping its low 56 bits.
    pub fn new(v: u64) -> (r: PhysAddr)
        ensures
            r.0 == v % 0x100_0000_0000_0000,
    {
        assert(v & 0xff_ffff_ffff_ffff == v % 0x100_0000_0000_0000) by (bit_vector);
        PhysAddr(v & ADDR_MASK)
    }

    pub fn page_offset(&self) -> (r: u64)
        ensures
            r == page_off(self.0 as int),
    {
        offset_of(self.0)
    }

    pub fn floor(&self) -> (r: PhysPageNum)
        ensures
            r.0 == page_floor(self.0 as int),
    {
        PhysPageNum(floor_of(self.0))
    }

    pub fn ceil(&self) -> (r: PhysPageNum)
        ensures
            r.0 == page_ceil(self.0 as int),
    {
        PhysPageNum(ceil_of(self.0))
    }
}

impl VirtAddr {
    /// An address from a raw value, keeping its low 56 bits.
    pub fn new(v: u64) -> (r: VirtAddr)
        ensures
            r.0 == v % 0x100_0000_0000_0000,
    {
        assert(v & 0xff_ffff_ffff_ffff == v % 0x100_0000_0000_0000) by (bit_vector);
        VirtAddr(v & ADDR_MASK)
    }

    pub fn page_offset(&self) -> (r: u64)
        ensures
            r == page_off(self.0 as int),
    {
        offset_of(self.0)
    }

    pub fn floor(&self) -> (r: VirtPageNum)
        ensures
            r.0 == page_floor(self.0 as int),
    {
        VirtPageNum(floor_of(self.0))
    }

    pub fn ceil(&self) -> (r: VirtPageNum)
        ensures
            r.0 == page_ceil(self.0 as int),
    {
        VirtPageNum(ceil_of(self.0))
    }
}

impl PhysPageNum {
    /// A page number from a raw value, keeping its low 44 bits.
    pub fn new(v: u64) -> (r: PhysPageNum)
        ensures
            r.0 == v % 0x1000_0000_0000,
    {
        assert(v & 0xfff_ffff_ffff == v % 0x1000_0000_0000) by (bit_vector);
        PhysPageNum(v & PPN_MASK)
    }

    /// The page-aligned address where this page starts.
    pub fn addr(&self) -> (r: PhysAddr)
        requires
            self.0 < 0x1000_0000_0000,
        ensures
            r.0 == self.0 * PAGE_SIZE_U64,
    {
        PhysAddr(self.0 * PAGE_SIZE_U64)
    }

    /// The page that a page-aligned address starts.
    pub fn from_addr(a: PhysAddr) -> (r: PhysPageNum)
        requires
            page_off(a.0 as int) == 0,
        ensures
            r.0 * PAGE_SIZE_U64 == a.0,
    {
        a.floor()
    }
}

impl VirtPageNum {
    /// A page number from a raw value, keeping its low 44 bits.
    pub fn new(v: u64) -> (r: VirtPageNum)
        ensures
            r.0 == v % 0x1000_0000_0000,
    {
        assert(v & 0xfff_ffff_ffff == v % 0x1000_0000_0000) by (bit_vector);
        VirtPageNum(v & PPN_MASK)
    }

    /// The page-aligned address where this page starts.
    pub fn addr(&self) -> (r: VirtAddr)
        requires
            self.0 < 0x1000_0000_0000,
        ensures
            r.0 == self.0 * PAGE_SIZE_U64,
    {
        VirtAddr(self.0 * PAGE_SIZE_U64)
    }

    /// The page that a page-aligned address starts.
    pub fn from_addr(a: VirtAddr) -> (r: VirtPageNum)
        requires
            page_off(a.0 as int) == 0,
        ensures
            r.0 * PAGE_SIZE_U64 == a.0,
    {
        a.floor()
    }

    /// The Sv39 table indices `[vpn2, vpn1, vpn0]`, root level first.
    pub fn indexes(&self) -> (r: [usize; 3])
        ensures
            r@.len() == 3,
            r@[0] as u64 == (self.0 >> 18) & 511,
            r@[1] as u64 == (self.0 >> 9) & 511,
            r@[2] as u64 == self.0 & 511,
            r@[0] as int == sv39_indexes(self.0 as int)[0],
            r@[1] as int == sv39_indexes(self.0 as int)[1],
            r@[2] as int == sv39_indexes(self.0 as int)[2],
    {
        let v = self.0;
        let i0 = ((v >> 18) & 511) as usize;
        let i1 = ((v >> 9) & 511) as usize;
        let i2 = (v & 511) as usize;
        assert((v >> 18) & 511 == (v / 0x4_0000) % 512) by (bit_vector);
        assert((v >> 9) & 511 == (v / 512) % 512) by (bit_vector);
        assert(v & 511 == v % 512) by (bit_vector);
        [i0, i1, i2]
    }
}

/// Distinct Sv39 page numbers differ in at least one table index.
pub proof fn lemma_indexes_injective(v: u64, w: u64)
    requires
        v < 0x800_0000,
        w < 0x800_0000,
        sv39_indexes(v as int) == sv39_indexes(w as int),
    ensures
        v == w,
{
    assert((v >> 18) & 511 == (v / 0x4_0000) % 512) by (bit_vector);
    assert((v >> 9) & 511 == (v / 512) % 512) by (bit_vector);
    assert(v & 511 == v % 512) by (bit_vector);
    assert((w >> 18) & 511 == (w / 0x4_0000) % 512) by (bit_vector);
    assert((w >> 9) & 511 == (w / 512) % 512) by (bit_vector);
    assert(w & 511 == w % 512) by (bit_vector);
    assert(sv39_indexes(v as int)[0] == sv39_indexes(w as int)[0]);
    assert(sv39_indexes(v as int)[1] == sv39_indexes(w as int)[1]);
    assert(sv39_indexes(v as int)[2] == sv39_indexes(w as int)[2]);
    assert(v == w) by (bit_vector)
        requires
            v < 0x800_0000,
            w < 0x800_0000,
            (v >> 18) & 511 == (w >> 18) & 511,
            (v >> 9) & 511 == (w >> 9) & 511,
            v & 511 == w & 511,
    ;
}

} // verus!
