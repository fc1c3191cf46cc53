//! Typed Sv39 addresses and page numbers.
//!
//! A physical address has 56 bits, a virtual address 39; the page numbers are
//! the addresses without their 12 offset bits. Each kind has a wrapper of its
//! own, so that a physical address cannot be added to a virtual page number.

use vstd::prelude::*;
use vstd::std_specs::convert::FromSpecImpl;
use vstd::std_specs::ops::AddSpecImpl;

verus! {

/// A physical byte address.
#[derive(Clone, Copy, PartialEq, Eq, PartialOrd, Ord, Debug, Structural)]
pub struct PhysAddr(pub u64);

/// A virtual byte address.
#[derive(Clone, Copy, PartialEq, Eq, PartialOrd, Ord, Debug, Structural)]
pub struct VirtAddr(pub u64);

/// The number of a physical page, a frame.
#[derive(Clone, Copy, PartialEq, Eq, PartialOrd, Ord, Debug, Structural)]
pub struct PhysPageNum(pub u64);

/// The number of a virtual page.
#[derive(Clone, Copy, PartialEq, Eq, PartialOrd, Ord, Debug, Structural)]
pub struct VirtPageNum(pub u64);

/// The page that holds byte address `addr`.
pub open spec fn page_floor(addr: u64) -> u64 {
    (addr as int / 4096) as u64
}

/// The first page that starts at or after byte address `addr`.
pub open spec fn page_ceil(addr: u64) -> u64 {
    ((addr as int + 4095) / 4096) as u64
}

/// The position of byte address `addr` inside its page.
pub open spec fn page_offset_of(addr: u64) -> u64 {
    (addr as int % 4096) as u64
}

/// The byte address at which page `page` starts, within 64 bits.
pub open spec fn page_start(page: u64) -> u64 {
    ((page as int * 4096) % 0x1_0000_0000_0000_0000) as u64
}

/// The three 9-bit table indices of a virtual page number, most significant
/// first.
pub open spec fn vpn_indices(vpn: u64) -> (int, int, int) {
    ((vpn as int / 0x40000) % 512, (vpn as int / 512) % 512, vpn as int % 512)
}

/// The 27-bit page number that the three indices spell.
pub open spec fn vpn_of_indices(i2: int, i1: int, i0: int) -> int {
    i2 * 0x40000 + i1 * 512 + i0
}

impl From<u64> for PhysAddr {
    /// Keeps the low 56 bits.
    fn from(phys_addr: u64) -> (r: Self) {
        assert(phys_addr & 0xff_ffff_ffff_ffff == phys_addr % 0x100_0000_0000_0000) by (bit_vector);
        PhysAddr(phys_addr & 0xff_ffff_ffff_ffff)
    }
}

impl FromSpecImpl<u64> for PhysAddr {
    open spec fn obeys_from_spec() -> bool {
        true
    }

    open spec fn from_spec(phys_addr: u64) -> Self {
        PhysAddr((phys_addr as int % 0x100_0000_0000_0000) as u64)
    }
}

impl From<u64> for PhysPageNum {
    /// Keeps the low 44 bits.
    fn from(value: u64) -> (r: Self) {
        assert(value & 0xfff_ffff_ffff == value % 0x1000_0000_0000) by (bit_vector);
        PhysPageNum(value & 0xfff_ffff_ffff)
    }
}

impl FromSpecImpl<u64> for PhysPageNum {
    open spec fn obeys_from_spec() -> bool {
        true
    }

    open spec fn from_spec(value: u64) -> Self {
        PhysPageNum((value as int % 0x1000_0000_0000) as u64)
    }
}

impl From<PhysAddr> for u64 {
    fn from(phys_addr: PhysAddr) -> (r: Self) {
        phys_addr.0
    }
}

impl FromSpecImpl<PhysAddr> for u64 {
    open spec fn obeys_from_spec() -> bool {
        true
    }

    open spec fn from_spec(phys_addr: PhysAddr) -> Self {
        phys_addr.0
    }
}

impl From<PhysPageNum> for u64 {
    fn from(ppn: PhysPageNum) -> (r: Self) {
        ppn.0
    }
}

impl FromSpecImpl<PhysPageNum> for u64 {
    open spec fn obeys_from_spec() -> bool {
        true
    }

    open spec fn from_spec(ppn: PhysPageNum) -> Self {
        ppn.0
    }
}

impl From<PhysAddr> for PhysPageNum {
    /// The page that holds the address.
    fn from(phys_addr: PhysAddr) -> (r: Self) {
        phys_addr.floor()
    }
}

impl FromSpecImpl<PhysAddr> for PhysPageNum {
    open spec fn obeys_from_spec() -> bool {
        true
    }

    open spec fn from_spec(phys_addr: PhysAddr) -> Self {
        PhysPageNum(page_floor(phys_addr.0))
    }
}

impl From<PhysPageNum> for PhysAddr {
    /// The address at which the page starts, within 64 bits.
    fn from(ppn: PhysPageNum) -> (r: Self) {
        let p = ppn.0;
        assert(p << 12 == (p * 4096) % 0x1_0000_0000_0000_0000) by (bit_vector);
        PhysAddr(ppn.0 << crate::config::PAGE_SIZE_BITS)
    }
}

impl FromSpecImpl<PhysPageNum> for PhysAddr {
    open spec fn obeys_from_spec() -> bool {
        true
    }

    open spec fn from_spec(ppn: PhysPageNum) -> Self {
        PhysAddr(page_start(ppn.0))
    }
}

impl From<VirtAddr> for u64 {
    fn from(virt_addr: VirtAddr) -> (r: Self) {
        virt_addr.0
    }
}

impl FromSpecImpl<VirtAddr> for u64 {
    open spec fn obeys_from_spec() -> bool {
        true
    }

    open spec fn from_spec(virt_addr: VirtAddr) -> Self {
        virt_addr.0
    }
}

impl From<u64> for VirtAddr {
    /// Keeps the low 39 bits.
    fn from(addr: u64) -> (r: Self) {
        assert(addr & 0x7f_ffff_ffff == addr % 0x80_0000_0000) by (bit_vector);
        VirtAddr(addr & 0x7f_ffff_ffff)
    }
}

impl FromSpecImpl<u64> for VirtAddr {
    open spec fn obeys_from_spec() -> bool {
        true
    }

    open spec fn from_spec(addr: u64) -> Self {
        VirtAddr((addr as int % 0x80_0000_0000) as u64)
    }
}

impl From<VirtAddr> for VirtPageNum {
    /// The page that holds the address.
    fn from(virt_addr: VirtAddr) -> (r: Self) {
        virt_addr.floor()
    }
}

impl FromSpecImpl<VirtAddr> for VirtPageNum {
    open spec fn obeys_from_spec() -> bool {
        true
    }

    open spec fn from_spec(virt_addr: VirtAddr) -> Self {
        VirtPageNum(page_floor(virt_addr.0))
    }
}

impl From<VirtPageNum> for VirtAddr {
    /// The address at which the page starts, within 64 bits.
    fn from(vpn: VirtPageNum) -> (r: Self) {
        let p = vpn.0;
        assert(p << 12 == (p * 4096) % 0x1_0000_0000_0000_0000) by (bit_vector);
        VirtAddr(vpn.0 << crate::config::PAGE_SIZE_BITS)
    }
}

impl FromSpecImpl<VirtPageNum> for VirtAddr {
    open spec fn obeys_from_spec() -> bool {
        true
    }

    open spec fn from_spec(vpn: VirtPageNum) -> Self {
        VirtAddr(page_start(vpn.0))
    }
}

impl core::ops::Add<u64> for VirtAddr {
    type Output = VirtAddr;

    /// The address `rhs` bytes further on; the sum must fit 64 bits.
    fn add(self, rhs: u64) -> (r: VirtAddr) {
        VirtAddr(self.0 + rhs)
    }
}

impl AddSpecImpl<u64> for VirtAddr {
    open spec fn obeys_add_spec() -> bool {
        true
    }

    open spec fn add_req(self, rhs: u64) -> bool {
        self.0 + rhs <= u64::MAX
    }

    open spec fn add_spec(self, rhs: u64) -> VirtAddr {
        VirtAddr((self.0 + rhs) as u64)
    }
}

impl PhysAddr {
    /// Offset of the address inside its page.
    pub fn page_offset(&self) -> (r: u64)
        ensures
            r == page_offset_of(self.0),
            r < 4096,
    {
        offset_raw(self.0)
    }

    /// Number of the page that holds the address.
    pub fn floor(&self) -> (r: PhysPageNum)
        ensures
            r.0 == page_floor(self.0),
    {
        PhysPageNum(floor_raw(self.0))
    }

    /// Number of the first page that starts at or after the address.
    pub fn ceil(&self) -> (r: PhysPageNum)
        ensures
            r.0 == page_ceil(self.0),
    {
        PhysPageNum(ceil_raw(self.0))
    }

    /// Whether the address is the start of a page.
    pub fn aligned(&self) -> (r: bool)
        ensures
            r == (page_offset_of(self.0) == 0),
    {
        offset_raw(self.0) == 0
    }
}

impl VirtAddr {
    /// Number of the page that holds the address.
    pub fn floor(&self) -> (r: VirtPageNum)
        ensures
            r.0 == page_floor(self.0),
    {
        VirtPageNum(floor_raw(self.0))
    }

    /// Number of the first page that starts at or after the address.
    pub fn ceil(&self) -> (r: VirtPageNum)
        ensures
            r.0 == page_ceil(self.0),
    {
        VirtPageNum(ceil_raw(self.0))
    }

    /// Offset of the address inside its page.
    pub fn page_offset(&self) -> (r: u64)
        ensures
            r == page_offset_of(self.0),
            r < 4096,
    {
        offset_raw(self.0)
    }

    /// Whether the address is the start of a page.
    pub fn aligned(&self) -> (r: bool)
        ensures
            r == (page_offset_of(self.0) == 0),
    {
        offset_raw(self.0) == 0
    }
}

impl VirtPageNum {
    /// The three indices of the page-table walk, 9 bits each: the level-2
    /// index first, the level-0 index last.
    pub fn get_idxs(&self) -> (r: [usize; 3])
        ensures
            (r[0] as int, r[1] as int, r[2] as int) == vpn_indices(self.0),
            r[0] < 512 && r[1] < 512 && r[2] < 512,
            vpn_of_indices(r[0] as int, r[1] as int, r[2] as int) == self.0 as int % 0x800_0000,
    {
        let vpn = self.0;
        assert((vpn >> 18) & 0x1ff == (vpn / 0x40000) % 512) by (bit_vector);
        assert((vpn >> 9) & 0x1ff == (vpn / 512) % 512) by (bit_vector);
        assert(vpn & 0x1ff == vpn % 512) by (bit_vector);
        let i2: u64 = (vpn >> 18) & 0x1ff;
        let i1: u64 = (vpn >> 9) & 0x1ff;
        let i0: u64 = vpn & 0x1ff;
        proof {
            lemma_indices_spell_vpn(vpn);
        }
        [i2 as usize, i1 as usize, i0 as usize]
    }

    /// Number of pages from `start` up to `end`: the count, and the count
    /// again where `end` is not below `start`.
    pub fn steps_between(start: &Self, end: &Self) -> (r: (usize, Option<usize>))
        ensures
            start.0 <= end.0 && end.0 - start.0 <= usize::MAX ==> r == (
                (end.0 - start.0) as usize,
                Some((end.0 - start.0) as usize),
            ),
            start.0 > end.0 ==> r == (0usize, None::<usize>),
            start.0 <= end.0 && end.0 - start.0 > usize::MAX ==> r == (usize::MAX, None::<usize>),
    {
        if start.0 > end.0 {
            (0, None)
        } else {
            let steps: u64 = end.0 - start.0;
            if steps <= usize::MAX as u64 {
                (steps as usize, Some(steps as usize))
            } else {
                (usize::MAX, None)
            }
        }
    }

    /// The page `count` pages after `start`, where that fits 64 bits.
    pub fn forward_checked(start: Self, count: usize) -> (r: Option<Self>)
        ensures
            r == if start.0 + count <= u64::MAX {
                Some(VirtPageNum((start.0 + count) as u64))
            } else {
                None
            },
    {
        match start.0.checked_add(count as u64) {
            Some(n) => Some(VirtPageNum(n)),
            None => None,
        }
    }

    /// The page `count` pages before `start`, where there is one.
    pub fn backward_checked(start: Self, count: usize) -> (r: Option<Self>)
        ensures
            r == if start.0 >= count {
                Some(VirtPageNum((start.0 - count) as u64))
            } else {
                None
            },
    {
        match start.0.checked_sub(count as u64) {
            Some(n) => Some(VirtPageNum(n)),
            None => None,
        }
    }
}

/// `addr / 4096`.
fn floor_raw(addr: u64) -> (r: u64)
    ensures
        r == page_floor(addr),
{
    assert(addr >> 12 == addr / 4096) by (bit_vector);
    addr >> crate::config::PAGE_SIZE_BITS
}

/// `addr % 4096`.
fn offset_raw(addr: u64) -> (r: u64)
    ensures
        r == page_offset_of(addr),
        r < 4096,
{
    assert(addr & 0xfff == addr % 4096) by (bit_vector);
    addr & (crate::config::PAGE_SIZE - 1)
}

/// `(addr + 4095) / 4096`, computed without leaving 64 bits.
fn ceil_raw(addr: u64) -> (r: u64)
    ensures
        r == page_ceil(addr),
{
    let whole = floor_raw(addr);
    if offset_raw(addr) == 0 {
        whole
    } else {
        whole + 1
    }
}

/// The indices of a page number spell its low 27 bits.
pub proof fn lemma_indices_spell_vpn(vpn: u64)
    ensures
        ({
            let (i2, i1, i0) = vpn_indices(vpn);
            &&& 0 <= i2 < 512
            &&& 0 <= i1 < 512
            &&& 0 <= i0 < 512
            &&& vpn_of_indices(i2, i1, i0) == vpn as int % 0x800_0000
        }),
{
}

/// For every 27-bit page number, `(i2 << 18) | (i1 << 9) | i0` is the page
/// number again.
pub proof fn lemma_indices_round_trip(vpn: u64)
    requires
        vpn < 0x800_0000,
    ensures
        ({
            let (i2, i1, i0) = vpn_indices(vpn);
            ((i2 as u64) << 18) | ((i1 as u64) << 9) | (i0 as u64)
        }) == vpn,
{
    let i2: u64 = ((vpn as int / 0x40000) % 512) as u64;
    let i1: u64 = ((vpn as int / 512) % 512) as u64;
    let i0: u64 = (vpn as int % 512) as u64;
    assert(i2 == (vpn >> 18) & 0x1ff) by (bit_vector)
        requires
            i2 == (vpn / 0x40000) % 512,
    ;
    assert(i1 == (vpn >> 9) & 0x1ff) by (bit_vector)
        requires
            i1 == (vpn / 512) % 512,
    ;
    assert(i0 == vpn & 0x1ff) by (bit_vector)
        requires
            i0 == vpn % 512,
    ;
    assert(((((vpn >> 18) & 0x1ff) << 18) | (((vpn >> 9) & 0x1ff) << 9) | (vpn & 0x1ff)) == vpn)
        by (bit_vector)
        requires
            vpn < 0x800_0000,
    ;
}

/// Page numbers with the same low 27 bits have the same indices.
pub proof fn lemma_indices_of_low_bits(a: u64, b: u64)
    requires
        a as int % 0x800_0000 == b as int % 0x800_0000,
    ensures
        vpn_indices(a) == vpn_indices(b),
{
    assert((a / 0x40000) % 512 == (b / 0x40000) % 512 && (a / 512) % 512 == (b / 512) % 512 && a
        % 512 == b % 512) by (bit_vector)
        requires
            a % 0x800_0000 == b % 0x800_0000,
    ;
}

/// A page between two 27-bit pages that share their first index, or their
/// first two indices, shares them too.
pub proof fn lemma_indices_between(a: u64, b: u64, c: u64)
    requires
        a <= b <= c < 0x800_0000,
    ensures
        vpn_indices(a).0 == vpn_indices(c).0 ==> vpn_indices(b).0 == vpn_indices(c).0,
        vpn_indices(a).0 == vpn_indices(c).0 && vpn_indices(a).1 == vpn_indices(c).1
            ==> vpn_indices(b).0 == vpn_indices(c).0 && vpn_indices(b).1 == vpn_indices(c).1,
{
    assert(((a / 0x40000) % 512 == (c / 0x40000) % 512 ==> (b / 0x40000) % 512 == (c / 0x40000)
        % 512) && ((a / 0x40000) % 512 == (c / 0x40000) % 512 && (a / 512) % 512 == (c / 512) % 512
        ==> (b / 0x40000) % 512 == (c / 0x40000) % 512 && (b / 512) % 512 == (c / 512) % 512))
        by (bit_vector)
        requires
            a <= b <= c < 0x800_0000,
    ;
}

/// The page after a page shares its first two indices unless it starts a
/// run of 512 pages, and its first index unless it starts a run of 512
/// such runs.
pub proof fn lemma_indices_of_next(a: u64)
    requires
        a + 1 < 0x800_0000,
    ensures
        (vpn_indices((a + 1) as u64).0 == vpn_indices(a).0 && vpn_indices((a + 1) as u64).1
            == vpn_indices(a).1) <==> (a + 1) % 512 != 0,
        vpn_indices((a + 1) as u64).0 == vpn_indices(a).0 <==> (a + 1) % 0x40000 != 0,
{
    let b: u64 = (a + 1) as u64;
    assert((((b / 0x40000) % 512 == (a / 0x40000) % 512 && (b / 512) % 512 == (a / 512) % 512)
        <==> b % 512 != 0) && ((b / 0x40000) % 512 == (a / 0x40000) % 512 <==> b % 0x40000 != 0))
        by (bit_vector)
        requires
            b == a + 1,
            b < 0x800_0000,
    ;
}

/// The page of an address lies between the quotient by the page size and
/// the next page boundary, and the two page numbers agree exactly on page
/// boundaries.
pub proof fn lemma_floor_ceil(addr: u64)
    ensures
        page_floor(addr) <= addr as int / 4096 <= page_ceil(addr),
        page_ceil(addr) == page_floor(addr) <==> page_offset_of(addr) == 0,
        page_ceil(addr) <= page_floor(addr) + 1,
{
}

} // verus!
