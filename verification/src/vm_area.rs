//! Virtual memory areas: a half-open range of virtual pages with one
//! permission and one mapping strategy. A `Direct` area maps every page to
//! the frame of the same number; a `Framed` area takes a frame from the pool
//! for every page and owns it.

use crate::address::VirtAddr;
use crate::address::VirtPageNum;
use crate::address::PhysPageNum;
use crate::address::page_ceil;
use crate::address::page_floor;
use crate::frame_allocator::BuddyFrameAllocator;
use crate::frame_allocator::Frame;
use crate::frame_allocator::OutOfFrames;
use crate::memory::PhysMemory;
use crate::memory::lemma_took_frames_more;
use crate::memory::lemma_took_frames_twice;
use crate::memory::took_frames;
use crate::memory::zero_page;
use crate::page_table::PTEFlags;
use crate::page_table::PTE_V;
use crate::page_table::PageTable;
use crate::page_table::PageTableEntry;
use crate::page_table::lemma_entry_round_trip;
use crate::page_table::lemma_missing_after;
use crate::page_table::lemma_missing_after_twice;
use crate::page_table::missing_after;
use crate::page_table::pte_bits;
use std::collections::BTreeMap;
use vstd::prelude::*;
use vstd::std_specs::ops::BitOrSpec;
use vstd::std_specs::ops::BitOrSpecImpl;

verus! {

/// Readable.
pub const MAP_R: u8 = 0x02;

/// Writable.
pub const MAP_W: u8 = 0x04;

/// Executable.
pub const MAP_X: u8 = 0x08;

/// Accessible in user mode.
pub const MAP_U: u8 = 0x10;

/// All permission bits.
pub const MAP_ALL: u8 = 0x1e;

/// No virtual page number has more than 27 bits.
pub const VPN_LIMIT: u64 = 0x800_0000;

/// Number of tables that mapping page `vpn` takes from the pool when the
/// pages from `start` up to `vpn` are mapped in ascending order: those that
/// are missing on the way to `vpn` and that the page before did not need.
pub open spec fn tables_for_page(table: &PageTable, mem: &PhysMemory, start: u64, vpn: u64) -> int {
    if vpn == start {
        table.missing_tables(mem, vpn)
    } else {
        missing_after(table.missing_tables(mem, vpn), vpn, (vpn - 1) as u64)
    }
}

/// Number of tables that mapping the pages `start .. end` takes from the
/// pool.
pub open spec fn tables_for_pages(table: &PageTable, mem: &PhysMemory, start: u64, end: u64) -> int
    decreases end,
{
    if end <= start {
        0
    } else {
        tables_for_pages(table, mem, start, (end - 1) as u64) + tables_for_page(
            table,
            mem,
            start,
            (end - 1) as u64,
        )
    }
}

/// Mapping pages takes no table or some, at most two for each page, and
/// more pages take no fewer.
pub proof fn lemma_tables_for_pages(
    table: &PageTable,
    mem: &PhysMemory,
    start: u64,
    fewer: u64,
    more: u64,
)
    requires
        start <= fewer <= more,
    ensures
        0 <= tables_for_pages(table, mem, start, fewer) <= tables_for_pages(table, mem, start, more)
            <= 2 * (more - start),
    decreases more,
{
    if fewer < more {
        lemma_tables_for_pages(table, mem, start, fewer, (more - 1) as u64);
        table.lemma_missing_tables(mem, (more - 1) as u64);
        if more - 1 > start {
            lemma_missing_after(
                table.missing_tables(mem, (more - 1) as u64),
                (more - 1) as u64,
                (more - 2) as u64,
            );
        }
    } else if fewer > start {
        lemma_tables_for_pages(table, mem, start, (fewer - 1) as u64, (fewer - 1) as u64);
        table.lemma_missing_tables(mem, (fewer - 1) as u64);
        if fewer - 1 > start {
            lemma_missing_after(
                table.missing_tables(mem, (fewer - 1) as u64),
                (fewer - 1) as u64,
                (fewer - 2) as u64,
            );
        }
    }
}

/// A bound on the tables that mapping the pages `start .. end` takes: two
/// for the first page, and two for each run of 512 pages that the pages
/// enter.
pub open spec fn tables_bound(start: u64, end: u64) -> int {
    if start < end {
        2 + 2 * ((end - 1) / 512 - start / 512)
    } else {
        0
    }
}

/// Mapping 27-bit pages takes no more tables than two for the first page
/// and two for each run of 512 pages that the pages enter.
pub proof fn lemma_tables_bound(table: &PageTable, mem: &PhysMemory, start: u64, end: u64)
    requires
        end <= VPN_LIMIT,
    ensures
        tables_for_pages(table, mem, start, end) <= tables_bound(start, end),
    decreases end,
{
    if start < end {
        let last = (end - 1) as u64;
        lemma_tables_bound(table, mem, start, last);
        table.lemma_missing_tables(mem, last);
        if last > start {
            let before = (last - 1) as u64;
            lemma_missing_after(table.missing_tables(mem, last), last, before);
            crate::address::lemma_indices_of_next(before);
            if last % 512 != 0 {
                crate::page_table::lemma_missing_after_shared(
                    table.missing_tables(mem, last),
                    last,
                    before,
                );
            }
        }
    }
}

/// The permissions of an area: a subset of R, W, X and U, in the bit
/// positions that the page-table entry has for them.
#[derive(Clone, Copy, PartialEq, Eq, Debug, Structural)]
pub struct MapPermission {
    bits: u8,
}

impl View for MapPermission {
    type V = u8;

    closed spec fn view(&self) -> u8 {
        self.bits
    }
}

impl MapPermission {
    /// The permissions with the given bits; `None` where a bit is set that
    /// is no permission.
    pub fn from_bits(bits: u8) -> (r: Option<MapPermission>)
        ensures
            r is Some <==> bits & !MAP_ALL == 0,
            r is Some ==> r.unwrap()@ == bits,
    {
        if bits & !MAP_ALL == 0 {
            Some(MapPermission { bits })
        } else {
            None
        }
    }

    /// No permission.
    pub fn empty() -> (r: MapPermission)
        ensures
            r@ == 0,
    {
        MapPermission { bits: 0 }
    }

    /// The bits of the permissions.
    pub fn bits(&self) -> (r: u8)
        ensures
            r == self@,
    {
        self.bits
    }

    /// The permissions of either.
    pub fn union(self, other: MapPermission) -> (r: MapPermission)
        ensures
            r@ == self@ | other@,
    {
        MapPermission { bits: self.bits | other.bits }
    }

    /// Whether every permission of `other` is granted.
    pub fn contains(&self, other: MapPermission) -> (r: bool)
        ensures
            r == (self@ & other@ == other@),
    {
        self.bits & other.bits == other.bits
    }
}

impl core::ops::BitOr for MapPermission {
    type Output = MapPermission;

    /// The permissions of either.
    fn bitor(self, rhs: MapPermission) -> (r: MapPermission) {
        MapPermission { bits: self.bits | rhs.bits }
    }
}

impl BitOrSpecImpl for MapPermission {
    open spec fn obeys_bitor_spec() -> bool {
        true
    }

    open spec fn bitor_req(self, rhs: MapPermission) -> bool {
        true
    }

    closed spec fn bitor_spec(self, rhs: MapPermission) -> MapPermission {
        MapPermission { bits: self.bits | rhs.bits }
    }
}

/// `|` joins the bits of two sets of permissions.
pub broadcast proof fn lemma_permission_or(a: MapPermission, b: MapPermission)
    ensures
        (#[trigger] BitOrSpec::bitor_spec(a, b))@ == a@ | b@,
{
}

/// How the pages of an area get their frames.
#[derive(Clone, Copy, PartialEq, Eq, Debug, Structural)]
pub enum MapType {
    /// Page `n` is mapped to frame `n`.
    Direct,
    /// Every page is mapped to a frame of its own, taken from the pool.
    Framed,
}

/// A virtual memory area.
pub struct VmArea {
    start: VirtPageNum,
    end: VirtPageNum,
    frames_map: BTreeMap<u64, Frame>,
    perm: MapPermission,
    map_type: MapType,
    owners: Ghost<Map<int, u64>>,
}

impl VmArea {
    /// First page of the area.
    pub closed spec fn spec_start_vpn(&self) -> u64 {
        self.start.0
    }

    /// The page after the last one of the area.
    pub closed spec fn spec_end_vpn(&self) -> u64 {
        self.end.0
    }

    /// The permission bits of the area.
    pub closed spec fn spec_perm(&self) -> u8 {
        self.perm@
    }

    /// The mapping strategy of the area.
    pub closed spec fn spec_map_type(&self) -> MapType {
        self.map_type
    }

    /// The frames that the area owns, by the page that each backs.
    pub closed spec fn frames(&self) -> Map<u64, Frame> {
        self.frames_map@
    }

    /// The numbers of the frames that the area owns.
    pub closed spec fn frame_set(&self) -> Set<int> {
        self.owners@.dom()
    }

    /// Every owned frame backs exactly one page, and `frame_set` holds the
    /// numbers of the owned frames.
    pub closed spec fn linked(&self) -> bool {
        &&& forall|v: u64| #[trigger]
            self.frames_map@.contains_key(v) ==> self.owners@.contains_key(
                self.frames_map@[v].ppn.0 as int,
            ) && self.owners@[self.frames_map@[v].ppn.0 as int] == v
        &&& forall|p: int| #[trigger]
            self.owners@.contains_key(p) ==> self.frames_map@.contains_key(self.owners@[p])
                && self.frames_map@[self.owners@[p]].ppn.0 == p
    }

    /// Whether page `vpn` belongs to the area.
    pub open spec fn covers(&self, vpn: u64) -> bool {
        self.spec_start_vpn() <= vpn < self.spec_end_vpn()
    }

    /// Number of pages of the area.
    pub open spec fn page_count(&self) -> int {
        if self.spec_start_vpn() <= self.spec_end_vpn() {
            self.spec_end_vpn() - self.spec_start_vpn()
        } else {
            0
        }
    }

    /// Number of frames that mapping the area takes from the pool: the
    /// tables that are missing on the way to its pages, and a frame for
    /// every page of a `Framed` area.
    pub open spec fn frames_needed(&self, table: &PageTable, mem: &PhysMemory) -> int {
        tables_for_pages(table, mem, self.spec_start_vpn(), self.spec_end_vpn())
            + if self.spec_map_type()
            is Framed {
            self.page_count()
        } else {
            0
        }
    }

    /// Whether `other` has the same range, permissions and strategy.
    pub open spec fn same_shape(&self, other: &VmArea) -> bool {
        &&& self.spec_start_vpn() == other.spec_start_vpn()
        &&& self.spec_end_vpn() == other.spec_end_vpn()
        &&& self.spec_perm() == other.spec_perm()
        &&& self.spec_map_type() == other.spec_map_type()
    }

    /// The frame that backs page `vpn`.
    pub open spec fn backing(&self, vpn: u64) -> u64 {
        match self.spec_map_type() {
            MapType::Direct => vpn,
            MapType::Framed => self.frames()[vpn].ppn.0,
        }
    }

    /// The entry that the page table has for page `vpn` while the page is
    /// mapped: the backing frame, the permission bits and V.
    pub open spec fn expected_entry(&self, vpn: u64) -> PageTableEntry {
        PageTableEntry { bits: pte_bits(self.backing(vpn), self.spec_perm() | PTE_V) }
    }

    /// Whether page `vpn` is mapped as the area says.
    pub open spec fn page_mapped(&self, table: &PageTable, mem: &PhysMemory, vpn: u64) -> bool {
        &&& self.spec_map_type() is Framed ==> self.frames().contains_key(vpn)
        &&& table.find(mem, vpn) == Some(self.expected_entry(vpn))
    }

    /// The area fits the page table and the pool: its pages have at most 27
    /// bits; a `Direct` area owns no frame; every owned frame backs one page
    /// of the area, which is mapped to it; the owned frames are in use and
    /// none is a frame of the page table.
    pub open spec fn consistent(
        &self,
        table: &PageTable,
        mem: &PhysMemory,
        allocator: &BuddyFrameAllocator,
    ) -> bool {
        &&& self.spec_end_vpn() <= VPN_LIMIT
        &&& self.linked()
        &&& self.spec_map_type() is Direct ==> self.frames() == Map::<u64, Frame>::empty()
        &&& forall|v: u64| #[trigger]
            self.frames().contains_key(v) ==> self.covers(v) && self.page_mapped(table, mem, v)
        &&& forall|p: int| #[trigger]
            self.frame_set().contains(p) ==> allocator.in_use(p) && !table.owned().contains(p)
    }

    /// The area is consistent and every page of it is mapped.
    pub open spec fn fully_mapped(
        &self,
        table: &PageTable,
        mem: &PhysMemory,
        allocator: &BuddyFrameAllocator,
    ) -> bool {
        &&& self.consistent(table, mem, allocator)
        &&& forall|v: u64| self.covers(v) ==> #[trigger] self.page_mapped(table, mem, v)
    }

    /// The frame of a page is one of the owned frames, and two pages have
    /// two frames.
    pub proof fn lemma_linked(&self)
        requires
            self.linked(),
        ensures
            forall|v: u64| #[trigger]
                self.frames().contains_key(v) ==> self.frame_set().contains(
                    self.frames()[v].ppn.0 as int,
                ),
            forall|v: u64, w: u64|
                #![trigger self.frames()[v], self.frames()[w]]
                self.frames().contains_key(v) && self.frames().contains_key(w) && v != w
                    ==> self.frames()[v].ppn != self.frames()[w].ppn,
            self.frames() == Map::<u64, Frame>::empty() ==> self.frame_set() == Set::<int>::empty(),
    {
        if self.frames() == Map::<u64, Frame>::empty() {
            assert(self.frame_set() =~= Set::<int>::empty());
        }
    }

    /// A consistent area stays consistent while the page table finds the
    /// same for the pages that have a frame, the frames of the area stay in
    /// use and the page table takes none of them; it stays fully mapped
    /// where the page table finds the same for all its pages.
    pub proof fn lemma_stable(
        &self,
        table: &PageTable,
        mem: &PhysMemory,
        allocator: &BuddyFrameAllocator,
        new_table: &PageTable,
        new_mem: &PhysMemory,
        new_allocator: &BuddyFrameAllocator,
    )
        requires
            self.consistent(table, mem, allocator),
            forall|v: u64|
                self.frames().contains_key(v) ==> #[trigger] new_table.find(new_mem, v)
                    == table.find(mem, v),
            forall|p: int|
                #[trigger] self.frame_set().contains(p) ==> new_allocator.in_use(p)
                    && !new_table.owned().contains(p),
        ensures
            self.consistent(new_table, new_mem, new_allocator),
            self.fully_mapped(table, mem, allocator) && (forall|v: u64|
                self.covers(v) ==> #[trigger] new_table.find(new_mem, v) == table.find(mem, v))
                ==> self.fully_mapped(new_table, new_mem, new_allocator),
    {
        assert forall|v: u64| #[trigger] self.frames().contains_key(v) implies self.covers(v)
            && self.page_mapped(new_table, new_mem, v) by {
            assert(new_table.find(new_mem, v) == table.find(mem, v));
        }
        if self.fully_mapped(table, mem, allocator) && (forall|v: u64|
            self.covers(v) ==> #[trigger] new_table.find(new_mem, v) == table.find(mem, v)) {
            assert forall|v: u64| self.covers(v) implies #[trigger] self.page_mapped(
                new_table,
                new_mem,
                v,
            ) by {
                assert(self.page_mapped(table, mem, v));
                assert(new_table.find(new_mem, v) == table.find(mem, v));
            }
        }
    }

    /// The area from the page of `start_va` up to the first page boundary
    /// at or after `end_va`, with no page mapped.
    pub fn new(start_va: VirtAddr, end_va: VirtAddr, map_type: MapType, perm: MapPermission) -> (r:
        Self)
        ensures
            r.spec_start_vpn() == page_floor(start_va.0),
            r.spec_end_vpn() == page_ceil(end_va.0),
            r.spec_map_type() == map_type,
            r.spec_perm() == perm@,
            r.frames() == Map::<u64, Frame>::empty(),
            r.frame_set() == Set::<int>::empty(),
            r.linked(),
    {
        let r = VmArea {
            start: start_va.floor(),
            end: end_va.ceil(),
            frames_map: BTreeMap::new(),
            perm,
            map_type,
            owners: Ghost(Map::empty()),
        };
        assert(r.frame_set() =~= Set::<int>::empty());
        r
    }

    /// First page of the area.
    pub fn start_vpn(&self) -> (r: VirtPageNum)
        ensures
            r.0 == self.spec_start_vpn(),
    {
        self.start
    }

    /// The page after the last one of the area.
    pub fn end_vpn(&self) -> (r: VirtPageNum)
        ensures
            r.0 == self.spec_end_vpn(),
    {
        self.end
    }

    /// The permissions of the area.
    pub fn perm(&self) -> (r: MapPermission)
        ensures
            r@ == self.spec_perm(),
    {
        self.perm
    }

    /// The mapping strategy of the area.
    pub fn map_type(&self) -> (r: MapType)
        ensures
            r == self.spec_map_type(),
    {
        self.map_type
    }

    /// An area of the same range, permissions and strategy as `another`,
    /// with no page mapped.
    pub fn from_another(another: &VmArea) -> (r: Self)
        ensures
            r.same_shape(another),
            r.frames() == Map::<u64, Frame>::empty(),
            r.frame_set() == Set::<int>::empty(),
            r.linked(),
    {
        let r = VmArea {
            start: another.start,
            end: another.end,
            frames_map: BTreeMap::new(),
            perm: another.perm,
            map_type: another.map_type,
            owners: Ghost(Map::empty()),
        };
        assert(r.frame_set() =~= Set::<int>::empty());
        r
    }

    /// The flags of the entries of the area, without V.
    fn entry_flags(&self) -> (r: PTEFlags)
        ensures
            r@ == self.spec_perm(),
    {
        PTEFlags::from_bits(self.perm.bits()).unwrap()
    }

    /// The area with one more frame is consistent where the new frame backs
    /// a page of the area that is mapped to it, is in use, and was nobody's.
    proof fn lemma_consistent_insert(
        &self,
        longer: &VmArea,
        table: &PageTable,
        mem: &PhysMemory,
        allocator: &BuddyFrameAllocator,
        vpn: u64,
        frame: Frame,
    )
        requires
            self.consistent(table, mem, allocator),
            self.spec_map_type() is Framed,
            longer.same_shape(self),
            !self.frames_map@.contains_key(vpn),
            !self.owners@.contains_key(frame.ppn.0 as int),
            longer.frames_map@ == self.frames_map@.insert(vpn, frame),
            longer.owners@ == self.owners@.insert(frame.ppn.0 as int, vpn),
            self.covers(vpn),
            table.find(mem, vpn) == Some(
                PageTableEntry { bits: pte_bits(frame.ppn.0, self.spec_perm() | PTE_V) },
            ),
            allocator.in_use(frame.ppn.0 as int),
            !table.owned().contains(frame.ppn.0 as int),
        ensures
            longer.consistent(table, mem, allocator),
            longer.page_mapped(table, mem, vpn),
            longer.frame_set() == self.frame_set().insert(frame.ppn.0 as int),
    {
        assert(longer.frame_set() =~= self.frame_set().insert(frame.ppn.0 as int));
        assert forall|v: u64| #[trigger] longer.frames().contains_key(v) implies longer.covers(v)
            && longer.page_mapped(table, mem, v) by {
            if v != vpn {
                assert(self.frames().contains_key(v));
                assert(self.page_mapped(table, mem, v));
            }
        }
        assert forall|p: int| #[trigger] longer.frame_set().contains(p) implies allocator.in_use(p)
            && !table.owned().contains(p) by {
            if p != frame.ppn.0 {
                assert(self.frame_set().contains(p));
            }
        }
    }

    /// Map page `vpn` of a `Direct` area to frame `vpn`.
    fn map_direct(
        &mut self,
        page_table: &mut PageTable,
        mem: &mut PhysMemory,
        allocator: &mut BuddyFrameAllocator,
        vpn: VirtPageNum,
    ) -> (r: Result<(), OutOfFrames>)
        requires
            old(page_table).inv(old(mem), old(allocator)),
            old(self).consistent(old(page_table), old(mem), old(allocator)),
            old(self).covers(vpn.0),
            old(self).spec_map_type() is Direct,
            old(page_table).find(old(mem), vpn.0) is None,
        ensures
            final(page_table).inv(final(mem), final(allocator)),
            final(page_table).root() == old(page_table).root(),
            *final(self) == *old(self),
            final(self).consistent(final(page_table), final(mem), final(allocator)),
            took_frames(
                old(page_table).owned().union(old(self).frame_set()),
                final(page_table).owned().union(final(self).frame_set()),
                old(mem),
                final(mem),
                old(allocator),
                final(allocator),
            ),
            old(page_table).owned().subset_of(final(page_table).owned()),
            r is Ok <==> old(allocator).free().len() >= old(page_table).missing_tables(
                old(mem),
                vpn.0,
            ),
            r is Ok ==> final(self).page_mapped(final(page_table), final(mem), vpn.0),
            r is Ok ==> final(allocator).free().len() == old(allocator).free().len()
                - old(page_table).missing_tables(old(mem), vpn.0),
            r is Ok ==> forall|v: u64| #[trigger]
                final(page_table).missing_tables(final(mem), v) == missing_after(
                    old(page_table).missing_tables(old(mem), v),
                    v,
                    vpn.0,
                ),
            r is Err ==> final(page_table).find(final(mem), vpn.0) is None,
            forall|v: u64|
                v as int % 0x800_0000 != vpn.0 as int % 0x800_0000
                    ==> #[trigger] final(page_table).find(final(mem), v)
                    == old(page_table).find(old(mem), v),
    {
        let flags = self.entry_flags();
        proof {
            self.lemma_linked();
            assert(page_table.owned().union(self.frame_set()) =~= page_table.owned());
        }
        let r = page_table.map(mem, allocator, vpn, PhysPageNum(vpn.0), flags);
        proof {
            assert(page_table.owned().union(self.frame_set()) =~= page_table.owned());
        }
        r
    }

    /// Map page `vpn` of a `Framed` area to a zeroed frame from the pool.
    fn map_framed(
        &mut self,
        page_table: &mut PageTable,
        mem: &mut PhysMemory,
        allocator: &mut BuddyFrameAllocator,
        vpn: VirtPageNum,
    ) -> (r: Result<(), OutOfFrames>)
        requires
            old(page_table).inv(old(mem), old(allocator)),
            old(self).consistent(old(page_table), old(mem), old(allocator)),
            old(self).covers(vpn.0),
            old(self).spec_map_type() is Framed,
            old(page_table).find(old(mem), vpn.0) is None,
        ensures
            final(page_table).inv(final(mem), final(allocator)),
            final(page_table).root() == old(page_table).root(),
            final(self).same_shape(old(self)),
            final(self).consistent(final(page_table), final(mem), final(allocator)),
            took_frames(
                old(page_table).owned().union(old(self).frame_set()),
                final(page_table).owned().union(final(self).frame_set()),
                old(mem),
                final(mem),
                old(allocator),
                final(allocator),
            ),
            old(page_table).owned().subset_of(final(page_table).owned()),
            r is Ok <==> old(allocator).free().len() >= old(page_table).missing_tables(
                old(mem),
                vpn.0,
            ) + 1,
            r is Ok ==> final(self).page_mapped(final(page_table), final(mem), vpn.0),
            r is Ok ==> final(allocator).free().len() == old(allocator).free().len()
                - old(page_table).missing_tables(old(mem), vpn.0) - 1,
            forall|q: int| #[trigger]
                old(self).frame_set().contains(q) ==> final(mem).page(q) == old(mem).page(q),
            r is Ok ==> final(self).frames().dom() == old(self).frames().dom().insert(vpn.0),
            r is Ok ==> final(mem).page(final(self).frames()[vpn.0].ppn.0 as int) == zero_page(),
            forall|v: u64|
                old(self).frames().contains_key(v) ==> #[trigger] final(self).frames()[v]
                    == old(self).frames()[v],
            r is Err ==> *final(self) == *old(self),
            r is Ok ==> forall|v: u64| #[trigger]
                final(page_table).missing_tables(final(mem), v) == missing_after(
                    old(page_table).missing_tables(old(mem), v),
                    v,
                    vpn.0,
                ),
            r is Err ==> final(page_table).find(final(mem), vpn.0) is None,
            forall|v: u64|
                v as int % 0x800_0000 != vpn.0 as int % 0x800_0000
                    ==> #[trigger] final(page_table).find(final(mem), v)
                    == old(page_table).find(old(mem), v),
    {
        let flags = self.entry_flags();
        let ghost holder = page_table.owned().union(self.frame_set());
        proof {
            page_table.lemma_missing_tables(mem, vpn.0);
            allocator.lemma_free_in_window();
            old(page_table).lemma_owned(old(mem));
            assert(holder.disjoint(allocator.free()));
        }
        let frame = match Frame::try_allocate(allocator) {
            Some(frame) => frame,
            None => {
                proof {
                    assert(allocator.free() =~= old(allocator).free().difference(holder));
                }
                return Err(OutOfFrames);
            },
        };
        let ppn = frame.ppn;
        let ghost p = ppn.0 as int;
        mem.zero_frame(ppn);
        let ghost taken_mem = *mem;
        let ghost taken_allocator = *allocator;
        proof {
            assert(!holder.contains(p));
            old(page_table).lemma_stable(old(mem), mem);
            allocator.lemma_free_in_window();
            assert(allocator.free() =~= old(allocator).free().difference(holder.insert(p)));
            assert(took_frames(
                holder,
                holder.insert(p),
                old(mem),
                &taken_mem,
                old(allocator),
                &taken_allocator,
            ));
            self.lemma_stable(
                old(page_table),
                old(mem),
                old(allocator),
                page_table,
                mem,
                allocator,
            );
        }
        let mapped = page_table.map(mem, allocator, vpn, ppn, flags);
        proof {
            let more = self.frame_set().insert(p);
            assert(more.disjoint(taken_allocator.free()));
            lemma_took_frames_more(
                old(page_table).owned(),
                page_table.owned(),
                more,
                &taken_mem,
                mem,
                &taken_allocator,
                allocator,
            );
            assert(old(page_table).owned().union(more) =~= holder.insert(p));
            lemma_took_frames_twice(
                holder,
                holder.insert(p),
                page_table.owned().union(more),
                old(mem),
                &taken_mem,
                mem,
                old(allocator),
                &taken_allocator,
                allocator,
            );
            assert(!page_table.owned().contains(p)) by {
                if page_table.owned().contains(p) {
                    assert(page_table.owned().difference(old(page_table).owned()).contains(p));
                }
            }
            assert forall|q: int| #[trigger] self.frame_set().contains(q) implies allocator.in_use(
                q,
            ) && !page_table.owned().contains(q) by {
                if page_table.owned().contains(q) {
                    assert(page_table.owned().difference(old(page_table).owned()).contains(q));
                }
            }
            assert forall|v: u64| self.frames().contains_key(v) implies #[trigger] page_table.find(
                mem,
                v,
            ) == old(page_table).find(&taken_mem, v) by {
                assert(self.covers(v));
            }
            if mapped is Ok {
                assert forall|w: u64| #[trigger]
                    page_table.missing_tables(mem, w) == missing_after(
                        old(page_table).missing_tables(old(mem), w),
                        w,
                        vpn.0,
                    ) by {
                    assert(old(page_table).missing_tables(&taken_mem, w) == old(
                        page_table,
                    ).missing_tables(old(mem), w));
                }
            }
            assert forall|q: int| #[trigger] old(self).frame_set().contains(q) implies mem.page(q)
                == old(mem).page(q) by {
                assert(taken_allocator.in_use(q));
                assert(!old(page_table).owned().union(taken_allocator.free()).contains(q));
                assert(mem.page(q) == taken_mem.page(q));
                assert(taken_mem.page(q) == old(mem).page(q));
            }
            self.lemma_stable(
                old(page_table),
                &taken_mem,
                &taken_allocator,
                page_table,
                mem,
                allocator,
            );
            assert forall|v: u64|
                v as int % 0x800_0000 != vpn.0 as int % 0x800_0000
                    implies #[trigger] page_table.find(
                mem,
                v,
            ) == old(page_table).find(old(mem), v) by {
                assert(old(page_table).find(&taken_mem, v) == old(page_table).find(old(mem), v));
            }
        }
        match mapped {
            Err(e) => {
                let ghost failed_allocator = *allocator;
                frame.dealloc(allocator);
                proof {
                    assert(allocator.free() =~= old(allocator).free().difference(
                        page_table.owned().union(self.frame_set()),
                    ));
                    assert(page_table.owned().union(self.frame_set().insert(p)).union(
                        old(allocator).free(),
                    ) =~= page_table.owned().union(self.frame_set()).union(old(allocator).free()));
                    assert forall|q: int| #[trigger]
                        self.frame_set().contains(q) implies allocator.in_use(q)
                        && !page_table.owned().contains(q) by {
                        assert(failed_allocator.in_use(q));
                    }
                    self.lemma_stable(
                        page_table,
                        mem,
                        &failed_allocator,
                        page_table,
                        mem,
                        allocator,
                    );
                    assert(old(page_table).find(&taken_mem, vpn.0) == old(page_table).find(
                        old(mem),
                        vpn.0,
                    ));
                }
                Err(e)
            },
            Ok(()) => {
                let ghost shorter = *self;
                self.frames_map.insert(vpn.0, frame);
                proof {
                    self.owners = Ghost(self.owners@.insert(p, vpn.0));
                    mem.lemma_page_len(p);
                    shorter.lemma_consistent_insert(self, page_table, mem, allocator, vpn.0, frame);
                    assert(page_table.owned().union(shorter.frame_set().insert(p))
                        =~= page_table.owned().union(self.frame_set()));
                    assert(mem.page(p) == taken_mem.page(p));
                }
                Ok(())
            },
        }
    }

    /// Map page `vpn` of the area, which must not be mapped: a `Direct` area
    /// to frame `vpn`, a `Framed` area to a zeroed frame from the pool, which
    /// the area then owns. `Err` exactly when the pool has fewer free frames
    /// than the frame of a `Framed` area and the missing tables need; the
    /// area and all mappings are then as before.
    pub fn map_one(
        &mut self,
        page_table: &mut PageTable,
        mem: &mut PhysMemory,
        allocator: &mut BuddyFrameAllocator,
        vpn: VirtPageNum,
    ) -> (r: Result<(), OutOfFrames>)
        requires
            old(page_table).inv(old(mem), old(allocator)),
            old(self).consistent(old(page_table), old(mem), old(allocator)),
            old(self).covers(vpn.0),
            old(page_table).find(old(mem), vpn.0) is None,
        ensures
            final(page_table).inv(final(mem), final(allocator)),
            final(page_table).root() == old(page_table).root(),
            final(self).same_shape(old(self)),
            final(self).consistent(final(page_table), final(mem), final(allocator)),
            took_frames(
                old(page_table).owned().union(old(self).frame_set()),
                final(page_table).owned().union(final(self).frame_set()),
                old(mem),
                final(mem),
                old(allocator),
                final(allocator),
            ),
            old(page_table).owned().subset_of(final(page_table).owned()),
            r is Ok <==> old(allocator).free().len() >= old(page_table).missing_tables(
                old(mem),
                vpn.0,
            ) + if old(self).spec_map_type() is Framed {
                1int
            } else {
                0int
            },
            r is Ok ==> final(self).page_mapped(final(page_table), final(mem), vpn.0),
            r is Ok ==> final(allocator).free().len() == old(allocator).free().len()
                - old(page_table).missing_tables(old(mem), vpn.0)
                - if old(self).spec_map_type() is Framed {
                1int
            } else {
                0int
            },
            forall|q: int| #[trigger]
                old(self).frame_set().contains(q) ==> final(mem).page(q) == old(mem).page(q),
            r is Ok ==> final(self).frames().dom() == if old(self).spec_map_type() is Framed {
                old(self).frames().dom().insert(vpn.0)
            } else {
                old(self).frames().dom()
            },
            r is Ok && old(self).spec_map_type() is Framed ==> final(mem).page(
                final(self).frames()[vpn.0].ppn.0 as int,
            ) == zero_page(),
            forall|v: u64|
                old(self).frames().contains_key(v) ==> #[trigger] final(self).frames()[v]
                    == old(self).frames()[v],
            r is Err ==> *final(self) == *old(self),
            r is Ok ==> forall|v: u64| #[trigger]
                final(page_table).missing_tables(final(mem), v) == missing_after(
                    old(page_table).missing_tables(old(mem), v),
                    v,
                    vpn.0,
                ),
            r is Err ==> final(page_table).find(final(mem), vpn.0) is None,
            forall|v: u64|
                v as int % 0x800_0000 != vpn.0 as int % 0x800_0000
                    ==> #[trigger] final(page_table).find(final(mem), v)
                    == old(page_table).find(old(mem), v),
    {
        match self.map_type {
            MapType::Direct => self.map_direct(page_table, mem, allocator, vpn),
            MapType::Framed => self.map_framed(page_table, mem, allocator, vpn),
        }
    }

    /// The area without the frame of one page is consistent.
    proof fn lemma_consistent_remove(
        &self,
        shorter: &VmArea,
        table: &PageTable,
        mem: &PhysMemory,
        allocator: &BuddyFrameAllocator,
        vpn: u64,
    )
        requires
            self.consistent(table, mem, allocator),
            shorter.same_shape(self),
            self.frames_map@.contains_key(vpn),
            shorter.frames_map@ == self.frames_map@.remove(vpn),
            shorter.owners@ == self.owners@.remove(self.frames_map@[vpn].ppn.0 as int),
        ensures
            shorter.consistent(table, mem, allocator),
            shorter.frame_set() == self.frame_set().remove(self.frames()[vpn].ppn.0 as int),
            self.frame_set().contains(self.frames()[vpn].ppn.0 as int),
    {
        let p = self.frames()[vpn].ppn.0 as int;
        assert(shorter.frame_set() =~= self.frame_set().remove(p));
        assert forall|v: u64| #[trigger] shorter.frames().contains_key(v) implies shorter.covers(v)
            && shorter.page_mapped(table, mem, v) by {
            assert(self.frames().contains_key(v));
            assert(self.page_mapped(table, mem, v));
        }
        assert forall|q: int| #[trigger] shorter.frame_set().contains(q) implies allocator.in_use(
            q,
        ) && !table.owned().contains(q) by {
            assert(self.frame_set().contains(q));
        }
        assert forall|v: u64| #[trigger]
            shorter.frames_map@.contains_key(v) implies shorter.owners@.contains_key(
            shorter.frames_map@[v].ppn.0 as int,
        ) && shorter.owners@[shorter.frames_map@[v].ppn.0 as int] == v by {
            assert(self.frames_map@.contains_key(v));
        }
    }

    /// Remove the mapping of page `vpn` of the area, which must be mapped,
    /// and give the frame of a `Framed` area back to the pool.
    pub fn unmap_one(
        &mut self,
        page_table: &mut PageTable,
        mem: &mut PhysMemory,
        allocator: &mut BuddyFrameAllocator,
        vpn: VirtPageNum,
    )
        requires
            old(page_table).inv(old(mem), old(allocator)),
            old(self).consistent(old(page_table), old(mem), old(allocator)),
            old(self).covers(vpn.0),
            old(self).page_mapped(old(page_table), old(mem), vpn.0),
        ensures
            final(page_table).inv(final(mem), final(allocator)),
            final(page_table).root() == old(page_table).root(),
            final(page_table).owned() == old(page_table).owned(),
            final(self).same_shape(old(self)),
            final(self).consistent(final(page_table), final(mem), final(allocator)),
            final(self).frames() == old(self).frames().remove(vpn.0),
            final(self).frame_set().subset_of(old(self).frame_set()),
            final(allocator).free() == old(allocator).free().union(
                old(self).frame_set().difference(final(self).frame_set()),
            ),
            final(allocator).begin() == old(allocator).begin(),
            final(allocator).end() == old(allocator).end(),
            final(mem).same_except(old(mem), old(page_table).owned()),
            final(page_table).find(final(mem), vpn.0) is None,
            forall|v: u64|
                v as int % 0x800_0000 != vpn.0 as int % 0x800_0000
                    ==> #[trigger] final(page_table).find(final(mem), v)
                    == old(page_table).find(old(mem), v),
            forall|v: u64| #[trigger]
                final(page_table).missing_tables(final(mem), v) == old(page_table).missing_tables(
                    old(mem),
                    v,
                ),
    {
        let ghost before = *self;
        match self.map_type {
            MapType::Direct => {
                proof {
                    assert(self.frames().remove(vpn.0) =~= self.frames());
                    assert(allocator.free().union(
                        self.frame_set().difference(self.frame_set()),
                    ) =~= allocator.free());
                }
            },
            MapType::Framed => {
                match self.frames_map.remove(&vpn.0) {
                    Some(frame) => {
                        let ghost p = frame.ppn.0 as int;
                        proof {
                            self.owners = Ghost(self.owners@.remove(p));
                            before.lemma_consistent_remove(
                                self,
                                page_table,
                                mem,
                                allocator,
                                vpn.0,
                            );
                        }
                        frame.dealloc(allocator);
                        proof {
                            assert(before.frame_set().difference(self.frame_set()) =~= set![p]);
                            assert(allocator.free() =~= old(allocator).free().union(
                                before.frame_set().difference(self.frame_set()),
                            ));
                        }
                    },
                    None => {},
                }
            },
        }
        let ghost freed_allocator = *allocator;
        proof {
            assert forall|q: int| #[trigger] self.frame_set().contains(q) implies allocator.in_use(
                q,
            ) && !page_table.owned().contains(q) by {
                assert(before.frame_set().contains(q));
            }
            self.lemma_stable(
                page_table,
                mem,
                old(allocator),
                page_table,
                mem,
                allocator,
            );
        }
        page_table.unmap(mem, vpn);
        proof {
            assert forall|v: u64| self.frames().contains_key(v) implies #[trigger] page_table.find(
                mem,
                v,
            ) == old(page_table).find(old(mem), v) by {
                assert(self.covers(v));
            }
            self.lemma_stable(
                old(page_table),
                old(mem),
                &freed_allocator,
                page_table,
                mem,
                allocator,
            );
        }
    }

    /// Map every page of the area; no page of it may be mapped, and the area
    /// may own no frame. On `Err` the pool ran out of frames on the way: the
    /// pages that were mapped are unmapped again, their frames given back,
    /// and the page table finds what it found before.
    pub fn map(
        &mut self,
        page_table: &mut PageTable,
        mem: &mut PhysMemory,
        allocator: &mut BuddyFrameAllocator,
    ) -> (r: Result<(), OutOfFrames>)
        requires
            old(page_table).inv(old(mem), old(allocator)),
            old(self).spec_end_vpn() <= VPN_LIMIT,
            old(self).linked(),
            old(self).frames() == Map::<u64, Frame>::empty(),
            forall|v: u64|
                old(self).covers(v) ==> #[trigger] old(page_table).find(old(mem), v) is None,
        ensures
            final(page_table).inv(final(mem), final(allocator)),
            final(page_table).root() == old(page_table).root(),
            final(self).same_shape(old(self)),
            final(self).consistent(final(page_table), final(mem), final(allocator)),
            took_frames(
                old(page_table).owned(),
                final(page_table).owned().union(final(self).frame_set()),
                old(mem),
                final(mem),
                old(allocator),
                final(allocator),
            ),
            old(page_table).owned().subset_of(final(page_table).owned()),
            r is Ok ==> final(self).fully_mapped(final(page_table), final(mem), final(allocator)),
            r is Ok && old(self).spec_map_type() is Framed ==> forall|v: u64|
                old(self).covers(v) ==> #[trigger] final(mem).page(
                    final(self).frames()[v].ppn.0 as int,
                ) == zero_page(),
            r is Err ==> final(self).frames() == Map::<u64, Frame>::empty(),
            r is Err ==> forall|v: u64| #[trigger]
                final(page_table).find(final(mem), v) == old(page_table).find(old(mem), v),
            r is Ok <==> old(allocator).free().len() >= old(self).frames_needed(
                old(page_table),
                old(mem),
            ),
            r is Ok ==> final(allocator).free().len() == old(allocator).free().len() - old(
                self,
            ).frames_needed(old(page_table), old(mem)),
            old(self).frames_needed(old(page_table), old(mem)) <= 3 * old(self).page_count(),
            old(self).frames_needed(old(page_table), old(mem)) <= tables_bound(
                old(self).spec_start_vpn(),
                old(self).spec_end_vpn(),
            ) + if old(self).spec_map_type() is Framed {
                old(self).page_count()
            } else {
                0
            },
            final(allocator).free().len() >= old(allocator).free().len()
                - 3 * old(self).page_count(),
            forall|v: u64|
                !old(self).covers((v % VPN_LIMIT) as u64) ==> #[trigger] final(page_table).find(
                    final(mem),
                    v,
                ) == old(page_table).find(old(mem), v),
    {
        proof {
            self.lemma_linked();
            allocator.lemma_free_in_window();
            assert(page_table.owned().union(self.frame_set()) =~= page_table.owned());
            assert(allocator.free() =~= allocator.free().difference(page_table.owned()));
            if self.spec_start_vpn() <= self.spec_end_vpn() {
                lemma_tables_for_pages(
                    page_table,
                    mem,
                    self.spec_start_vpn(),
                    self.spec_start_vpn(),
                    self.spec_end_vpn(),
                );
            }
            lemma_tables_bound(page_table, mem, self.spec_start_vpn(), self.spec_end_vpn());
        }
        let mut vpn: u64 = self.start.0;
        let end: u64 = self.end.0;
        while vpn < end
            invariant
                end == self.spec_end_vpn(),
                end <= VPN_LIMIT,
                self.spec_start_vpn() <= vpn,
                self.same_shape(old(self)),
                page_table.inv(mem, allocator),
                page_table.root() == old(page_table).root(),
                self.consistent(page_table, mem, allocator),
                took_frames(
                    old(page_table).owned(),
                    page_table.owned().union(self.frame_set()),
                    old(mem),
                    mem,
                    old(allocator),
                    allocator,
                ),
                old(page_table).owned().subset_of(page_table.owned()),
                forall|v: u64|
                    self.spec_start_vpn() <= v < vpn ==> #[trigger] self.page_mapped(
                        page_table,
                        mem,
                        v,
                    ),
                forall|v: u64| #[trigger] self.frames().contains_key(v) ==> v < vpn,
                self.spec_map_type() is Framed ==> forall|v: u64|
                    self.spec_start_vpn() <= v < vpn ==> #[trigger] mem.page(
                        self.frames()[v].ppn.0 as int,
                    ) == zero_page(),
                forall|v: u64|
                    vpn <= v < end ==> #[trigger] page_table.find(mem, v) == old(page_table).find(
                        old(mem),
                        v,
                    ),
                forall|v: u64|
                    !old(self).covers((v % VPN_LIMIT) as u64) ==> #[trigger] page_table.find(mem, v)
                        == old(page_table).find(old(mem), v),
                forall|v: u64|
                    old(self).covers(v) ==> #[trigger] old(page_table).find(old(mem), v) is None,
                allocator.free().finite(),
                old(allocator).free().finite(),
                allocator.free().len() == old(allocator).free().len() - tables_for_pages(
                    old(page_table),
                    old(mem),
                    self.spec_start_vpn(),
                    vpn,
                ) - if self.spec_map_type() is Framed {
                    vpn - self.spec_start_vpn()
                } else {
                    0
                },
                forall|v: u64|
                    vpn <= v < end ==> #[trigger] page_table.missing_tables(mem, v)
                        == if vpn == self.spec_start_vpn() {
                        old(page_table).missing_tables(old(mem), v)
                    } else {
                        missing_after(
                            old(page_table).missing_tables(old(mem), v),
                            v,
                            (vpn - 1) as u64,
                        )
                    },
                vpn - self.spec_start_vpn() <= self.page_count(),
                tables_for_pages(old(page_table), old(mem), self.spec_start_vpn(), end)
                    <= tables_bound(self.spec_start_vpn(), end),
            decreases end - vpn,
        {
            let ghost step_table = *page_table;
            let ghost step_mem = *mem;
            let ghost step_allocator = *allocator;
            let ghost step_self = *self;
            proof {
                page_table.lemma_missing_tables(mem, vpn);
                assert(old(self).covers(vpn));
                assert(page_table.find(mem, vpn) == old(page_table).find(old(mem), vpn));
                assert(page_table.missing_tables(mem, vpn) == tables_for_page(
                    old(page_table),
                    old(mem),
                    self.spec_start_vpn(),
                    vpn,
                ));
                assert(tables_for_pages(
                    old(page_table),
                    old(mem),
                    self.spec_start_vpn(),
                    (vpn + 1) as u64,
                ) == tables_for_pages(old(page_table), old(mem), self.spec_start_vpn(), vpn)
                    + tables_for_page(old(page_table), old(mem), self.spec_start_vpn(), vpn));
                lemma_tables_for_pages(
                    old(page_table),
                    old(mem),
                    self.spec_start_vpn(),
                    (vpn + 1) as u64,
                    end,
                );
                lemma_tables_for_pages(
                    old(page_table),
                    old(mem),
                    self.spec_start_vpn(),
                    self.spec_start_vpn(),
                    end,
                );
            }
            match self.map_one(page_table, mem, allocator, VirtPageNum(vpn)) {
                Ok(()) => {
                    proof {
                        assert forall|v: u64| vpn + 1 <= v < end
                            implies #[trigger] page_table.missing_tables(
                        mem, v) == missing_after(
                            old(page_table).missing_tables(old(mem), v),
                            v,
                            vpn,
                        ) by {
                            assert(page_table.missing_tables(mem, v) == missing_after(
                                step_table.missing_tables(&step_mem, v),
                                v,
                                vpn,
                            ));
                            if vpn != self.spec_start_vpn() {
                                lemma_missing_after_twice(
                                    old(page_table).missing_tables(old(mem), v),
                                    v,
                                    (vpn - 1) as u64,
                                    vpn,
                                );
                            }
                        }
                        allocator.lemma_free_in_window();
                        lemma_took_frames_twice(
                            old(page_table).owned(),
                            step_table.owned().union(step_self.frame_set()),
                            page_table.owned().union(self.frame_set()),
                            old(mem),
                            &step_mem,
                            mem,
                            old(allocator),
                            &step_allocator,
                            allocator,
                        );
                        assert forall|v: u64|
                            self.spec_start_vpn() <= v < vpn + 1
                                implies #[trigger] self.page_mapped(
                            page_table,
                            mem,
                            v,
                        ) by {
                            if v != vpn {
                                assert(step_self.page_mapped(&step_table, &step_mem, v));
                                assert(page_table.find(mem, v) == step_table.find(&step_mem, v));
                                if self.spec_map_type() is Framed {
                                    assert(step_self.frames().contains_key(v));
                                    assert(self.frames().dom().contains(v));
                                    assert(self.frames()[v] == step_self.frames()[v]);
                                }
                            }
                        }
                        assert forall|v: u64| #[trigger] self.frames().contains_key(v) implies v
                            < vpn + 1 by {
                            assert(self.frames().dom().contains(v));
                            if v != vpn {
                                assert(step_self.frames().contains_key(v));
                            }
                        }
                        if self.spec_map_type() is Framed {
                            assert forall|v: u64|
                                self.spec_start_vpn() <= v < vpn + 1 implies #[trigger] mem.page(
                                self.frames()[v].ppn.0 as int,
                            ) == zero_page() by {
                                if v != vpn {
                                    assert(step_self.page_mapped(&step_table, &step_mem, v));
                                    assert(step_self.frames().contains_key(v));
                                    assert(self.frames()[v] == step_self.frames()[v]);
                                    step_self.lemma_linked();
                                    assert(step_self.frame_set().contains(
                                        step_self.frames()[v].ppn.0 as int,
                                    ));
                                    assert(step_mem.page(step_self.frames()[v].ppn.0 as int)
                                        == zero_page());
                                }
                            }
                        }
                        assert forall|v: u64| vpn + 1 <= v < end implies #[trigger] page_table.find(
                            mem,
                            v,
                        ) == old(page_table).find(old(mem), v) by {
                            assert(page_table.find(mem, v) == step_table.find(&step_mem, v));
                        }
                        assert forall|v: u64|
                            !old(self).covers((v % VPN_LIMIT) as u64)
                                implies #[trigger] page_table.find(
                            mem,
                            v,
                        ) == old(page_table).find(old(mem), v) by {
                            assert(page_table.find(mem, v) == step_table.find(&step_mem, v));
                        }
                    }
                    vpn = vpn + 1;
                },
                Err(e) => {
                    proof {
                        lemma_took_frames_twice(
                            old(page_table).owned(),
                            step_table.owned().union(step_self.frame_set()),
                            page_table.owned().union(self.frame_set()),
                            old(mem),
                            &step_mem,
                            mem,
                            old(allocator),
                            &step_allocator,
                            allocator,
                        );
                        assert forall|v: u64|
                            self.spec_start_vpn() <= v < vpn implies #[trigger] self.page_mapped(
                            page_table,
                            mem,
                            v,
                        ) by {
                            assert(step_self.page_mapped(&step_table, &step_mem, v));
                            assert(page_table.find(mem, v) == step_table.find(&step_mem, v));
                        }
                        assert forall|v: u64| #[trigger]
                            page_table.find(mem, v) == step_table.find(&step_mem, v) by {
                            if v as int % 0x800_0000 == vpn as int % 0x800_0000 {
                                crate::page_table::lemma_find_by_indices(
                                    page_table,
                                    mem,
                                    v,
                                    vpn,
                                );
                                crate::page_table::lemma_find_by_indices(
                                    &step_table,
                                    &step_mem,
                                    v,
                                    vpn,
                                );
                            }
                        }
                    }
                    let ghost failed_table = *page_table;
                    let ghost failed_mem = *mem;
                    self.unmap_span(page_table, mem, allocator, VirtPageNum(vpn));
                    proof {
                        assert(step_allocator.free().len() <= 2);
                        assert(allocator.free().len() >= 0);
                        assert(old(allocator).free().len() < old(self).frames_needed(
                            old(page_table),
                            old(mem),
                        ));
                        assert(self.frames() =~= Map::<u64, Frame>::empty());
                        self.lemma_linked();
                        assert(allocator.free() =~= old(allocator).free().difference(
                            page_table.owned().union(self.frame_set()),
                        ));
                        assert forall|v: u64| #[trigger]
                            page_table.find(mem, v) == old(page_table).find(old(mem), v) by {
                            let low = (v % VPN_LIMIT) as u64;
                            crate::page_table::lemma_find_by_indices(page_table, mem, v, low);
                            crate::page_table::lemma_find_by_indices(
                                old(page_table),
                                old(mem),
                                v,
                                low,
                            );
                            crate::page_table::lemma_find_by_indices(
                                &failed_table,
                                &failed_mem,
                                v,
                                low,
                            );
                            if self.spec_start_vpn() <= low < vpn {
                                assert(old(self).covers(low));
                            } else if vpn <= low < end {
                                assert(failed_table.find(&failed_mem, low) == old(page_table).find(
                                    old(mem),
                                    low,
                                ));
                            } else {
                                assert(!old(self).covers((low % VPN_LIMIT) as u64));
                            }
                        }
                    }
                    return Err(e);
                },
            }
        }
        proof {
            assert forall|v: u64| self.covers(v) implies #[trigger] self.page_mapped(
                page_table,
                mem,
                v,
            ) by {}
        }
        Ok(())
    }

    /// Unmap the pages of the area before `upto`, all of which must be
    /// mapped, and give their frames back to the pool.
    fn unmap_span(
        &mut self,
        page_table: &mut PageTable,
        mem: &mut PhysMemory,
        allocator: &mut BuddyFrameAllocator,
        upto: VirtPageNum,
    )
        requires
            old(page_table).inv(old(mem), old(allocator)),
            old(self).consistent(old(page_table), old(mem), old(allocator)),
            upto.0 <= old(self).spec_end_vpn(),
            forall|v: u64|
                old(self).spec_start_vpn() <= v < upto.0 ==> #[trigger] old(self).page_mapped(
                    old(page_table),
                    old(mem),
                    v,
                ),
            forall|v: u64| #[trigger] old(self).frames().contains_key(v) ==> v < upto.0,
        ensures
            final(page_table).inv(final(mem), final(allocator)),
            final(page_table).root() == old(page_table).root(),
            final(page_table).owned() == old(page_table).owned(),
            final(self).same_shape(old(self)),
            final(self).consistent(final(page_table), final(mem), final(allocator)),
            final(self).frames() == Map::<u64, Frame>::empty(),
            final(self).frame_set() == Set::<int>::empty(),
            final(allocator).free() == old(allocator).free().union(old(self).frame_set()),
            final(allocator).begin() == old(allocator).begin(),
            final(allocator).end() == old(allocator).end(),
            final(mem).same_except(old(mem), old(page_table).owned()),
            forall|v: u64|
                old(self).spec_start_vpn() <= v < upto.0 ==> #[trigger] final(page_table).find(
                    final(mem),
                    v,
                ) is None,
            forall|v: u64|
                !(old(self).spec_start_vpn() <= (v % VPN_LIMIT) as u64 && ((v % VPN_LIMIT) as u64)
                    < upto.0) ==> #[trigger] final(page_table).find(final(mem), v)
                        == old(page_table).find(old(mem), v),
            forall|v: u64| #[trigger]
                final(page_table).missing_tables(final(mem), v) == old(page_table).missing_tables(
                    old(mem),
                    v,
                ),
    {
        let mut vpn: u64 = self.start.0;
        let end: u64 = upto.0;
        proof {
            assert(allocator.free().union(old(self).frame_set().difference(self.frame_set()))
                =~= allocator.free());
        }
        while vpn < end
            invariant
                end == upto.0,
                end <= self.spec_end_vpn() <= VPN_LIMIT,
                self.spec_start_vpn() <= vpn,
                self.same_shape(old(self)),
                page_table.inv(mem, allocator),
                page_table.root() == old(page_table).root(),
                page_table.owned() == old(page_table).owned(),
                self.consistent(page_table, mem, allocator),
                self.frame_set().subset_of(old(self).frame_set()),
                allocator.free() == old(allocator).free().union(
                    old(self).frame_set().difference(self.frame_set()),
                ),
                allocator.begin() == old(allocator).begin(),
                allocator.end() == old(allocator).end(),
                mem.same_except(old(mem), old(page_table).owned()),
                forall|v: u64|
                    vpn <= v < end ==> #[trigger] self.page_mapped(page_table, mem, v),
                forall|v: u64| #[trigger]
                    self.frames().contains_key(v) ==> vpn <= v < end,
                forall|v: u64|
                    self.spec_start_vpn() <= v < vpn ==> #[trigger] page_table.find(mem, v) is None,
                forall|v: u64|
                    !(self.spec_start_vpn() <= (v % VPN_LIMIT) as u64 && ((v % VPN_LIMIT) as u64)
                        < end) ==> #[trigger] page_table.find(mem, v) == old(page_table).find(
                        old(mem),
                        v,
                    ),
                forall|v: u64| #[trigger]
                    page_table.missing_tables(mem, v) == old(page_table).missing_tables(
                        old(mem),
                        v,
                    ),
            decreases end - vpn,
        {
            let ghost step_table = *page_table;
            let ghost step_mem = *mem;
            let ghost step_self = *self;
            self.unmap_one(page_table, mem, allocator, VirtPageNum(vpn));
            proof {
                assert(allocator.free() =~= old(allocator).free().union(
                    old(self).frame_set().difference(self.frame_set()),
                ));
                assert forall|v: u64| vpn + 1 <= v < end implies #[trigger] self.page_mapped(
                    page_table,
                    mem,
                    v,
                ) by {
                    assert(step_self.page_mapped(&step_table, &step_mem, v));
                    assert(page_table.find(mem, v) == step_table.find(&step_mem, v));
                }
                assert forall|v: u64|
                    self.spec_start_vpn() <= v < vpn + 1 implies #[trigger] page_table.find(
                    mem,
                    v,
                ) is None by {
                    if v != vpn {
                        assert(page_table.find(mem, v) == step_table.find(&step_mem, v));
                    }
                }
                assert forall|v: u64|
                    !(self.spec_start_vpn() <= (v % VPN_LIMIT) as u64 && ((v % VPN_LIMIT) as u64)
                        < end) implies #[trigger] page_table.find(mem, v) == old(page_table).find(
                    old(mem),
                    v,
                ) by {
                    assert(page_table.find(mem, v) == step_table.find(&step_mem, v));
                }
                assert forall|v: u64| #[trigger]
                    page_table.missing_tables(mem, v) == old(page_table).missing_tables(
                        old(mem),
                        v,
                    ) by {
                    assert(page_table.missing_tables(mem, v) == step_table.missing_tables(
                        &step_mem,
                        v,
                    ));
                }
                assert(mem.same_except(old(mem), old(page_table).owned())) by {
                    assert forall|q: int|
                        mem.contains(q) && !old(page_table).owned().contains(
                            q,
                        ) implies #[trigger] mem.page(q) == old(mem).page(q) by {
                        assert(step_mem.page(q) == old(mem).page(q));
                    }
                }
            }
            vpn = vpn + 1;
        }
        proof {
            assert(self.frames() =~= Map::<u64, Frame>::empty());
            self.lemma_linked();
            assert(allocator.free() =~= old(allocator).free().union(old(self).frame_set()));
        }
    }

    /// Unmap every page of the area, all of which must be mapped, and give
    /// the frames of the area back to the pool.
    pub fn unmap(
        &mut self,
        page_table: &mut PageTable,
        mem: &mut PhysMemory,
        allocator: &mut BuddyFrameAllocator,
    )
        requires
            old(page_table).inv(old(mem), old(allocator)),
            old(self).fully_mapped(old(page_table), old(mem), old(allocator)),
        ensures
            final(page_table).inv(final(mem), final(allocator)),
            final(page_table).root() == old(page_table).root(),
            final(page_table).owned() == old(page_table).owned(),
            final(self).same_shape(old(self)),
            final(self).consistent(final(page_table), final(mem), final(allocator)),
            final(self).frames() == Map::<u64, Frame>::empty(),
            final(self).frame_set() == Set::<int>::empty(),
            final(allocator).free() == old(allocator).free().union(old(self).frame_set()),
            final(allocator).begin() == old(allocator).begin(),
            final(allocator).end() == old(allocator).end(),
            final(mem).same_except(old(mem), old(page_table).owned()),
            forall|v: u64|
                old(self).covers(v) ==> #[trigger] final(page_table).find(final(mem), v) is None,
            forall|v: u64|
                !old(self).covers((v % VPN_LIMIT) as u64) ==> #[trigger] final(page_table).find(
                    final(mem),
                    v,
                ) == old(page_table).find(old(mem), v),
            forall|v: u64| #[trigger]
                final(page_table).missing_tables(final(mem), v) == old(page_table).missing_tables(
                    old(mem),
                    v,
                ),
    {
        let end = self.end;
        self.unmap_span(page_table, mem, allocator, end);
    }

    /// The bytes of the area: those of the frame of its first page, then
    /// those of the frame of the second, and so on.
    pub open spec fn contents(&self, mem: &PhysMemory) -> Seq<u8> {
        Seq::new(
            (self.page_count() * 4096) as nat,
            |i: int| mem.bytes(self.backing((self.spec_start_vpn()
                + i / 4096) as u64) as int)[i % 4096],
        )
    }

    /// Reading an area whose pages are all mapped through the page table
    /// gives its bytes: byte `i` of the area is byte `i % 4096` of the frame
    /// that the page table has for page `i / 4096` of the area.
    pub proof fn lemma_contents_through_table(
        &self,
        table: &PageTable,
        mem: &PhysMemory,
        allocator: &BuddyFrameAllocator,
        i: int,
    )
        requires
            table.inv(mem, allocator),
            self.fully_mapped(table, mem, allocator),
            self.spec_map_type() is Framed,
            0 <= i < self.page_count() * 4096,
        ensures
            table.find(mem, (self.spec_start_vpn() + i / 4096) as u64) is Some,
            self.contents(mem)[i] == mem.bytes(
                table.find(mem, (self.spec_start_vpn()
                    + i / 4096) as u64).unwrap().spec_ppn() as int,
            )[i % 4096],
    {
        let vpn = (self.spec_start_vpn() + i / 4096) as u64;
        assert(self.covers(vpn));
        assert(self.page_mapped(table, mem, vpn));
        self.lemma_linked();
        let p = self.frames()[vpn].ppn.0;
        assert(self.frame_set().contains(p as int));
        assert(allocator.in_use(p as int));
        mem.lemma_page_len(p as int);
        lemma_entry_round_trip(p, self.spec_perm() | PTE_V);
    }

    /// The bytes of a `Framed` area whose frames are all zeroed are zero.
    pub proof fn lemma_zero_contents(
        &self,
        table: &PageTable,
        mem: &PhysMemory,
        allocator: &BuddyFrameAllocator,
    )
        requires
            self.fully_mapped(table, mem, allocator),
            self.spec_map_type() is Framed,
            forall|v: u64|
                self.covers(v) ==> #[trigger] mem.page(self.frames()[v].ppn.0 as int)
                    == zero_page(),
        ensures
            self.contents(mem) == Seq::new((self.page_count() * 4096) as nat, |i: int| 0u8),
    {
        crate::memory::lemma_zero_page_bytes();
        assert forall|i: int| 0 <= i < self.page_count() * 4096 implies self.contents(mem)[i]
            == 0u8 by {
            let w = (self.spec_start_vpn() + i / 4096) as u64;
            assert(self.covers(w));
            assert(mem.page(self.frames()[w].ppn.0 as int) == zero_page());
        }
        assert(self.contents(mem) =~= Seq::new((self.page_count() * 4096) as nat, |i: int| 0u8));
    }

    /// The bytes of the area stay while its frames keep their contents.
    pub proof fn lemma_contents_stable(&self, mem: &PhysMemory, other: &PhysMemory)
        requires
            self.spec_map_type() is Framed,
            forall|v: u64| self.covers(v) ==> #[trigger] self.frames().contains_key(v),
            self.linked(),
            forall|p: int| #[trigger] self.frame_set().contains(p) ==> other.page(p) == mem.page(p),
        ensures
            self.contents(other) == self.contents(mem),
    {
        self.lemma_linked();
        assert forall|i: int| 0 <= i < self.page_count() * 4096 implies self.contents(other)[i]
            == self.contents(mem)[i] by {
            let w = (self.spec_start_vpn() + i / 4096) as u64;
            assert(self.covers(w));
            assert(self.frames().contains_key(w));
            assert(self.frame_set().contains(self.frames()[w].ppn.0 as int));
        }
        assert(self.contents(other) =~= self.contents(mem));
    }

    /// Copy `data` to the start of a `Framed` area whose pages are all
    /// mapped: the first 4096 bytes to the frame that the page table gives
    /// for the first page, the next to that of the second, and so on; the
    /// last frame may be written in part. `data` must fit the area.
    pub fn copy_data(
        &self,
        page_table: &PageTable,
        mem: &mut PhysMemory,
        allocator: &BuddyFrameAllocator,
        data: &[u8],
    )
        requires
            page_table.inv(old(mem), allocator),
            self.fully_mapped(page_table, old(mem), allocator),
            self.spec_map_type() is Framed,
            data@.len() <= self.page_count() * 4096,
        ensures
            page_table.inv(final(mem), allocator),
            self.fully_mapped(page_table, final(mem), allocator),
            final(mem).same_except(old(mem), self.frame_set()),
            forall|v: u64| #[trigger] page_table.find(final(mem), v)
                == page_table.find(old(mem), v),
            forall|v: u64| #[trigger]
                page_table.missing_tables(final(mem), v) == page_table.missing_tables(old(mem), v),
            self.contents(final(mem)) == data@ + self.contents(old(mem)).subrange(
                data@.len() as int,
                self.page_count() * 4096,
            ),
    {
        let len = data.len();
        let mut offset: usize = 0;
        let mut vpn: u64 = self.start.0;
        proof {
            self.lemma_linked();
            page_table.lemma_owned(mem);
        }
        while offset < len
            invariant
                len == data@.len(),
                len <= self.page_count() * 4096,
                offset % 4096 == 0 || offset == len,
                offset <= len,
                offset < len ==> vpn == self.spec_start_vpn() + offset / 4096,
                page_table.inv(mem, allocator),
                self.fully_mapped(page_table, mem, allocator),
                self.spec_map_type() is Framed,
                mem.same_except(old(mem), self.frame_set()),
                forall|v: u64| #[trigger] page_table.find(mem, v) == page_table.find(old(mem), v),
                forall|v: u64| #[trigger]
                    page_table.missing_tables(mem, v) == page_table.missing_tables(old(mem), v),
                forall|i: int| 0 <= i < offset ==> #[trigger] self.contents(mem)[i] == data@[i],
                forall|i: int|
                    offset <= i < self.page_count() * 4096 ==> #[trigger] self.contents(mem)[i]
                        == self.contents(old(mem))[i],
            decreases len - offset,
        {
            let ghost step_mem = *mem;
            proof {
                self.lemma_linked();
                page_table.lemma_owned(mem);
                assert(self.covers(vpn));
                assert(self.page_mapped(page_table, mem, vpn));
                let p = self.frames()[vpn].ppn.0;
                assert(self.frame_set().contains(p as int));
                assert(allocator.in_use(p as int));
                mem.lemma_page_len(p as int);
                lemma_entry_round_trip(p, self.spec_perm() | PTE_V);
            }
            let ppn = match page_table.vpn2ppn(mem, VirtPageNum(vpn)) {
                Some(ppn) => ppn,
                None => {
                    return ;
                },
            };
            let chunk: usize = if len - offset < 4096 {
                len - offset
            } else {
                4096
            };
            mem.write_bytes(ppn, data, offset, chunk);
            proof {
                let p = ppn.0 as int;
                assert forall|q: int| #[trigger] page_table.owned().contains(q) implies mem.page(q)
                    == step_mem.page(q) by {
                    assert(step_mem.contains(q));
                    assert(q != p);
                }
                page_table.lemma_stable(&step_mem, mem);
                assert forall|v: u64| #[trigger]
                    page_table.find(mem, v) == page_table.find(old(mem), v) by {
                    assert(page_table.find(mem, v) == page_table.find(&step_mem, v));
                }
                assert forall|v: u64| #[trigger]
                    page_table.missing_tables(mem, v) == page_table.missing_tables(old(mem), v) by {
                    assert(page_table.missing_tables(mem, v) == page_table.missing_tables(
                        &step_mem,
                        v,
                    ));
                }
                self.lemma_stable(page_table, &step_mem, allocator, page_table, mem, allocator);
                assert(mem.same_except(old(mem), self.frame_set())) by {
                    assert forall|q: int|
                        mem.contains(q) && !self.frame_set().contains(q)
                            implies #[trigger] mem.page(
                        q,
                    ) == old(mem).page(q) by {
                        assert(step_mem.page(q) == old(mem).page(q));
                    }
                }
                assert forall|i: int| 0 <= i < offset + chunk implies #[trigger] self.contents(
                    mem,
                )[i] == data@[i] by {
                    let w = (self.spec_start_vpn() + i / 4096) as u64;
                    if w == vpn {
                        assert(mem.bytes(p)[i % 4096] == data@.subrange(
                            offset as int,
                            offset + chunk,
                        )[i % 4096]);
                    } else {
                        assert(self.covers(w));
                        assert(self.page_mapped(page_table, &step_mem, w));
                        assert(self.frames()[w].ppn != self.frames()[vpn].ppn);
                        assert(mem.page(self.frames()[w].ppn.0 as int) == step_mem.page(
                            self.frames()[w].ppn.0 as int,
                        ));
                        assert(self.contents(&step_mem)[i] == data@[i]);
                    }
                }
                assert forall|i: int|
                    offset + chunk <= i < self.page_count() * 4096 implies #[trigger] self.contents(
                    mem,
                )[i] == self.contents(old(mem))[i] by {
                    let w = (self.spec_start_vpn() + i / 4096) as u64;
                    assert(self.contents(&step_mem)[i] == self.contents(old(mem))[i]);
                    if w == vpn {
                        assert(mem.bytes(p)[i % 4096] == step_mem.bytes(p).subrange(
                            chunk as int,
                            4096,
                        )[i % 4096 - chunk]);
                    } else {
                        assert(self.covers(w));
                        assert(self.page_mapped(page_table, &step_mem, w));
                        assert(self.frames()[w].ppn != self.frames()[vpn].ppn);
                        assert(mem.page(self.frames()[w].ppn.0 as int) == step_mem.page(
                            self.frames()[w].ppn.0 as int,
                        ));
                    }
                }
            }
            offset = offset + chunk;
            if offset < len {
                vpn = vpn + 1;
            }
        }
        proof {
            assert(self.contents(mem) =~= data@ + self.contents(old(mem)).subrange(
                data@.len() as int,
                self.page_count() * 4096,
            ));
        }
    }
}

} // verus!
