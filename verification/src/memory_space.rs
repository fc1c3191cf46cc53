//! Address spaces: a page table, and the virtual memory areas that are
//! mapped in it, ordered by their first page.
//!
//! The pages that a space has mapped are those of its areas and, where it
//! was installed, the trampoline page, which belongs to no area.

use crate::address::PhysAddr;
use crate::address::PhysPageNum;
use crate::address::VirtAddr;
use crate::address::VirtPageNum;
use crate::address::page_floor;
use crate::address::page_offset_of;
use crate::frame_allocator::BuddyFrameAllocator;
use crate::frame_allocator::Frame;
use crate::frame_allocator::OutOfFrames;
use crate::memory::PhysMemory;
use crate::memory::lemma_took_frames_more;
use crate::memory::lemma_took_frames_twice;
use crate::memory::took_frames;
use crate::page_table::PTEFlags;
use crate::page_table::PTE_R;
use crate::page_table::PTE_V;
use crate::page_table::PTE_W;
use crate::page_table::PTE_X;
use crate::page_table::PageTable;
use crate::page_table::PageTableEntry;
use crate::page_table::pte_bits;
use crate::elf::ElfImage;
use crate::elf::LoadSegment;
use crate::elf::entry_point;
use crate::elf::image_ok;
use crate::elf::image_end;
use crate::elf::pages_of;
use crate::elf::segments;
use crate::elf::segments_loadable;
use vstd::slice::slice_subrange;
use crate::address::page_ceil;
use crate::vm_area::MAP_R;
use crate::vm_area::MAP_U;
use crate::vm_area::MAP_W;
use crate::vm_area::MAP_X;
use crate::vm_area::MapPermission;
use crate::vm_area::MapType;
use crate::vm_area::VPN_LIMIT;
use crate::area_map::AreaMap;
use crate::vm_area::VmArea;
use crate::vm_area::tables_bound;
use crate::vm_area::tables_for_pages;
use vstd::prelude::*;

verus! {

/// The page of the trampoline.
pub const TRAMPOLINE_VPN: u64 = 0x3ff_ffff;

/// The flags of the trampoline mapping, without V: readable and
/// executable.
pub const TRAMPOLINE_FLAGS: u8 = 0x0a;

/// The entry of the trampoline page: the page of the physical address
/// `strampoline`, readable and executable, valid.
pub open spec fn trampoline_entry(strampoline: u64) -> PageTableEntry {
    PageTableEntry {
        bits: pte_bits(
            page_floor((strampoline as int % 0x100_0000_0000_0000) as u64),
            TRAMPOLINE_FLAGS | PTE_V,
        ),
    }
}

/// The permission bits of the area of a segment: U, and R, W and X as the
/// segment has them.
pub open spec fn segment_perm(segment: LoadSegment) -> u8 {
    (0x10 + if segment.read {
        2int
    } else {
        0int
    } + if segment.write {
        4int
    } else {
        0int
    } + if segment.execute {
        8int
    } else {
        0int
    }) as u8
}

/// Whether `area` is the loaded segment `segment` of `image`: a `Framed`
/// area of the pages and permissions of the segment, whose bytes are those
/// of the segment in the file, then zeros.
pub open spec fn area_holds_segment(
    area: VmArea,
    segment: LoadSegment,
    image: Seq<u8>,
    mem: &PhysMemory,
) -> bool {
    &&& area.spec_start_vpn() == segment.start_vpn()
    &&& area.spec_end_vpn() == segment.end_vpn()
    &&& area.spec_map_type() is Framed
    &&& area.spec_perm() == segment_perm(segment)
    &&& area.contents(mem) == image.subrange(
        segment.offset as int,
        segment.offset + segment.file_size,
    ) + zero_bytes(area.page_count() * 4096 - segment.file_size)
}

/// Whether `area` is the area of one of the first `count` segments.
pub open spec fn area_is_loaded(
    area: VmArea,
    segments: Seq<LoadSegment>,
    count: int,
    image: Seq<u8>,
    mem: &PhysMemory,
) -> bool {
    exists|k: int| 0 <= k < count && area_holds_segment(area, #[trigger] segments[k], image, mem)
}

/// Whether one of `areas` is the area of `segment`.
pub open spec fn segment_is_loaded(
    areas: Seq<VmArea>,
    segment: LoadSegment,
    image: Seq<u8>,
    mem: &PhysMemory,
) -> bool {
    exists|i: int|
        0 <= i < areas.len() && area_holds_segment(#[trigger] areas[i], segment, image, mem)
}

/// Whether `areas` are the areas of the first `count` segments of `image`:
/// as many areas as segments, each area that of one of the segments, and
/// each segment with its area. The areas stand in the order of their pages,
/// whatever the order of the segments.
#[verifier::opaque]
pub open spec fn areas_of_segments(
    areas: Seq<VmArea>,
    segments: Seq<LoadSegment>,
    count: int,
    image: Seq<u8>,
    mem: &PhysMemory,
) -> bool {
    &&& areas.len() == count
    &&& forall|i: int|
        0 <= i < areas.len() ==> area_is_loaded(#[trigger] areas[i], segments, count, image, mem)
    &&& forall|k: int|
        0 <= k < count ==> segment_is_loaded(areas, #[trigger] segments[k], image, mem)
}

/// A range of addresses that is mapped directly, with its permissions.
#[derive(Clone, Copy, Debug)]
pub struct Region {
    /// First address of the range.
    pub start: u64,
    /// The address after the last one of the range.
    pub end: u64,
    /// The permissions of the pages of the range.
    pub perm: MapPermission,
}

impl View for Region {
    type V = (u64, u64, u8);

    open spec fn view(&self) -> (u64, u64, u8) {
        (self.start, self.end, self.perm@)
    }
}

/// First page of a region: the page of its first address, taken as a
/// 39-bit virtual address.
#[verifier::opaque]
pub open spec fn region_start(region: (u64, u64, u8)) -> u64 {
    page_floor((region.0 as int % 0x80_0000_0000) as u64)
}

/// The page after the last one of a region.
#[verifier::opaque]
pub open spec fn region_end(region: (u64, u64, u8)) -> u64 {
    page_ceil((region.1 as int % 0x80_0000_0000) as u64)
}

/// Whether regions can be mapped side by side: no two of those that have a
/// page share a page, and none has the trampoline page.
pub open spec fn regions_apart(regions: Seq<(u64, u64, u8)>) -> bool {
    &&& forall|k: int|
        0 <= k < regions.len() ==> !(region_start(#[trigger] regions[k]) <= TRAMPOLINE_VPN
            < region_end(regions[k]))
    &&& forall|j: int, k: int|
        0 <= j < k < regions.len() && region_start(regions[j]) < region_end(regions[j])
            && region_start(regions[k]) < region_end(regions[k]) ==> region_end(
            #[trigger] regions[j],
        ) <= region_start(#[trigger] regions[k]) || region_end(regions[k]) <= region_start(
            regions[j],
        )
}

/// The regions as triples of start, end and permission bits.
pub open spec fn region_views(regions: Seq<Region>) -> Seq<(u64, u64, u8)> {
    Seq::new(regions.len(), |k: int| regions[k]@)
}

/// Whether `area` is the `Direct` area of `region`, which has a page.
pub open spec fn area_of_region(area: VmArea, region: (u64, u64, u8)) -> bool {
    &&& region_start(region) < region_end(region)
    &&& area.spec_start_vpn() == region_start(region)
    &&& area.spec_end_vpn() == region_end(region)
    &&& area.spec_map_type() is Direct
    &&& area.spec_perm() == region.2
}

/// Whether `areas` are the areas of the first `count` regions: one for each
/// region that has a page, and no other.
#[verifier::opaque]
pub open spec fn areas_of_regions(
    areas: Seq<VmArea>,
    regions: Seq<(u64, u64, u8)>,
    count: int,
) -> bool {
    &&& forall|i: int|
        0 <= i < areas.len() ==> exists|k: int|
            0 <= k < count && area_of_region(#[trigger] areas[i], #[trigger] regions[k])
    &&& forall|k: int|
        0 <= k < count && region_start(#[trigger] regions[k]) < region_end(regions[k])
            ==> exists|i: int| 0 <= i < areas.len()
                && area_of_region(#[trigger] areas[i], regions[k])
}

/// A bound on the tables that mapping the first `count` regions takes.
pub open spec fn tables_of_regions(regions: Seq<(u64, u64, u8)>, count: int) -> int
    decreases count,
{
    if count <= 0 {
        0
    } else {
        tables_of_regions(regions, count - 1) + tables_bound(
            region_start(regions[count - 1]),
            region_end(regions[count - 1]),
        )
    }
}

/// More regions take no fewer tables.
pub proof fn lemma_tables_of_regions(regions: Seq<(u64, u64, u8)>, fewer: int, more: int)
    requires
        0 <= fewer <= more <= regions.len(),
    ensures
        0 <= tables_of_regions(regions, fewer) <= tables_of_regions(regions, more),
    decreases more,
{
    if fewer < more {
        lemma_tables_of_regions(regions, fewer, more - 1);
    } else if fewer > 0 {
        lemma_tables_of_regions(regions, fewer - 1, fewer - 1);
    }
}

/// The addresses of the sections of the kernel image and of the trampoline
/// code, as the linker gives them.
#[derive(Clone, Copy, Debug)]
pub struct KernelLayout {
    pub stext: u64,
    pub etext: u64,
    pub srodata: u64,
    pub erodata: u64,
    pub sdata: u64,
    pub edata: u64,
    pub sstack: u64,
    pub estack: u64,
    pub sbss: u64,
    pub ebss: u64,
    pub ekernel: u64,
    pub strampoline: u64,
}

/// The regions of the kernel space: `.text` readable and executable,
/// `.rodata` readable, `.data`, `.stack`, `.bss` and the memory from the end
/// of the kernel to the end of RAM readable and writable, then every
/// `(base, length)` window of `mmio` readable and writable.
#[verifier::opaque]
pub open spec fn kernel_regions(layout: KernelLayout, mmio: Seq<(u64, u64)>) -> Seq<
    (u64, u64, u8),
> {
    seq![
        (layout.stext, layout.etext, 0x0au8),
        (layout.srodata, layout.erodata, 0x02u8),
        (layout.sdata, layout.edata, 0x06u8),
        (layout.sstack, layout.estack, 0x06u8),
        (layout.sbss, layout.ebss, 0x06u8),
        (layout.ekernel, crate::config::MEMORY_END, 0x06u8),
    ] + Seq::new(mmio.len(), |k: int| (mmio[k].0, (mmio[k].0 + mmio[k].1) as u64, 0x06u8))
}

/// The page in the middle between the addresses `start` and `end`, taken
/// as a 39-bit virtual address.
pub open spec fn middle_page(start: u64, end: u64) -> u64 {
    page_floor((((start + end) / 2) % 0x80_0000_0000) as u64)
}

/// Whether there is an entry and it has none of the flag bits `flags`.
pub open spec fn entry_lacks(entry: Option<PageTableEntry>, flags: u8) -> bool {
    match entry {
        Some(e) => e.spec_flags() & flags == 0,
        None => false,
    }
}

/// The `satp` value that selects the page table of the kernel space.
pub fn kernel_satp(kernel_space: &MemorySpace) -> (r: u64)
    ensures
        r == 0x8000_0000_0000_0000u64 | (kernel_space.table().root() as u64),
        kernel_space.table().root() < 0x1000_0000_0000 ==> r == 0x8000_0000_0000_0000
            + kernel_space.table().root(),
{
    kernel_space.satp_token()
}

/// An address space.
pub struct MemorySpace {
    page_table: PageTable,
    areas: AreaMap,
}

impl MemorySpace {
    /// The areas of the space, ordered by their first page.
    pub closed spec fn areas(&self) -> Seq<VmArea> {
        self.areas@
    }

    /// The page table of the space.
    pub closed spec fn table(&self) -> PageTable {
        self.page_table
    }

    /// The valid level-0 entry that the page table of the space has for
    /// page `vpn`.
    pub open spec fn find(&self, mem: &PhysMemory, vpn: u64) -> Option<PageTableEntry> {
        self.table().find(mem, vpn)
    }

    /// The frames of the areas of the space.
    pub open spec fn area_frames(&self) -> Set<int> {
        frames_of_areas(self.areas())
    }

    /// The frames that the space owns: those of its page table and those of
    /// its areas.
    pub open spec fn owned(&self) -> Set<int> {
        self.table().owned().union(self.area_frames())
    }

    /// Whether an area of the space has page `vpn`.
    pub open spec fn covered(&self, vpn: u64) -> bool {
        covered_by(self.areas(), vpn)
    }

    /// Whether an area with the given range can join the areas of the
    /// space: every area of the space starts and ends before the first page
    /// of the range, or starts after the first page and not before the end
    /// of the range.
    pub open spec fn fits(&self, start: u64, end: u64) -> bool {
        fits_in(self.areas(), start, end)
    }

    /// The space is sound: its page table is; its areas are ordered, apart
    /// from each other, each fully mapped, and no two share a frame; and
    /// every page that is mapped is a page of an area or the trampoline
    /// page.
    pub open spec fn inv(&self, mem: &PhysMemory, allocator: &BuddyFrameAllocator) -> bool {
        sound(&self.table(), self.areas(), mem, allocator)
    }

    /// A sound space stays sound, and finds what it found, while the frames
    /// of its page table keep their contents and the frames that it owns
    /// stay in use.
    pub proof fn lemma_stable(
        &self,
        mem: &PhysMemory,
        allocator: &BuddyFrameAllocator,
        new_mem: &PhysMemory,
        new_allocator: &BuddyFrameAllocator,
    )
        requires
            self.inv(mem, allocator),
            new_mem.backs(new_allocator),
            new_mem.base() == mem.base(),
            new_mem.frames() == mem.frames(),
            forall|p: int|
                #[trigger] self.table().owned().contains(p) ==> new_mem.page(p) == mem.page(p),
            forall|p: int| #[trigger] self.owned().contains(p) ==> new_allocator.in_use(p),
        ensures
            self.inv(new_mem, new_allocator),
            forall|v: u64| #[trigger] self.find(new_mem, v) == self.find(mem, v),
    {
        let table = self.table();
        assert forall|p: int| #[trigger] table.owned().contains(p) implies new_allocator.in_use(
            p,
        ) by {
            assert(self.owned().contains(p));
        }
        table.lemma_stable(mem, new_mem);
        assert forall|i: int| 0 <= i < self.areas().len()
            implies (#[trigger] self.areas()[i]).fully_mapped(
        &table, new_mem, new_allocator) by {
            let area = self.areas()[i];
            assert forall|p: int| #[trigger] area.frame_set().contains(p)
                implies new_allocator.in_use(
                p,
            ) && !table.owned().contains(p) by {
                assert(self.area_frames().contains(p));
                assert(self.owned().contains(p));
            }
            area.lemma_stable(&table, mem, allocator, &table, new_mem, new_allocator);
        }
        assert forall|v: u64|
            v < VPN_LIMIT && (#[trigger] table.find(new_mem, v)) is Some implies v == TRAMPOLINE_VPN
            || self.covered(v) by {
            assert(table.find(mem, v) is Some);
        }
    }

    /// The `Framed` areas of a sound space keep their bytes while their
    /// frames keep their contents.
    pub proof fn lemma_contents_stable(
        &self,
        mem: &PhysMemory,
        allocator: &BuddyFrameAllocator,
        new_mem: &PhysMemory,
    )
        requires
            self.inv(mem, allocator),
            forall|p: int| #[trigger] self.area_frames().contains(p) ==> new_mem.page(p)
                == mem.page(p),
        ensures
            forall|i: int|
                0 <= i < self.areas().len()
                    && (#[trigger] self.areas()[i]).spec_map_type() is Framed
                    ==> self.areas()[i].contents(new_mem) == self.areas()[i].contents(mem),
    {
        let table = self.table();
        assert forall|i: int|
            0 <= i < self.areas().len() && (#[trigger] self.areas()[i]).spec_map_type()
                is Framed implies self.areas()[i].contents(new_mem) == self.areas()[i].contents(
            mem,
        ) by {
            let area = self.areas()[i];
            assert(area.fully_mapped(&table, mem, allocator));
            assert forall|p: int| #[trigger] area.frame_set().contains(p) implies new_mem.page(p)
                == mem.page(p) by {
                assert(self.area_frames().contains(p));
            }
            assert forall|v: u64| area.covers(v) implies #[trigger] area.frames().contains_key(
                v,
            ) by {
                assert(area.page_mapped(&table, mem, v));
            }
            area.lemma_contents_stable(mem, new_mem);
        }
    }

    /// The frames of the areas of a sound space are in use and apart from
    /// those of the page table; no frame that the space owns is free.
    pub proof fn lemma_owned_in_use(&self, mem: &PhysMemory, allocator: &BuddyFrameAllocator)
        requires
            self.inv(mem, allocator),
        ensures
            forall|p: int|
                #[trigger] self.area_frames().contains(p) ==> allocator.in_use(p)
                    && !self.table().owned().contains(p),
            forall|p: int| #[trigger] self.owned().contains(p) ==> allocator.in_use(p),
            self.owned().disjoint(allocator.free()),
            self.area_frames().disjoint(allocator.free()),
    {
        assert forall|p: int| #[trigger] self.area_frames().contains(p) implies allocator.in_use(p)
            && !self.table().owned().contains(p) by {
            let i = choose|i: int|
                0 <= i < self.areas().len() && (#[trigger] self.areas()[i]).frame_set().contains(p);
            assert(self.areas()[i].fully_mapped(&self.table(), mem, allocator));
        }
    }

    /// A space with a page table of its own, no area and no mapping. `None`
    /// exactly when the pool has no free frame.
    pub fn new_bare(mem: &mut PhysMemory, allocator: &mut BuddyFrameAllocator) -> (r: Option<Self>)
        requires
            old(mem).backs(old(allocator)),
        ensures
            final(mem).backs(final(allocator)),
            r is None <==> old(allocator).free() == Set::<int>::empty(),
            match r {
                Some(space) => {
                    &&& space.inv(final(mem), final(allocator))
                    &&& space.areas() == Seq::<VmArea>::empty()
                    &&& took_frames(
                        Set::<int>::empty(),
                        space.owned(),
                        old(mem),
                        final(mem),
                        old(allocator),
                        final(allocator),
                    )
                    &&& space.owned().len() == 1
                    &&& final(allocator).free().len() == old(allocator).free().len() - 1
                    &&& forall|vpn: u64| #[trigger] space.find(final(mem), vpn) is None
                },
                None => *final(mem) == *old(mem) && final(allocator).free()
                    == old(allocator).free() && final(allocator).begin()
                    == old(allocator).begin() && final(allocator).end() == old(allocator).end(),
            },
    {
        proof {
            allocator.lemma_free_in_window();
        }
        match PageTable::new(mem, allocator) {
            Some(page_table) => {
                let space = MemorySpace { page_table, areas: AreaMap::new() };
                proof {
                    assert(old(allocator).free().contains(page_table.root())) by {
                        assert(page_table.owned().difference(Set::<int>::empty()).contains(
                            page_table.root(),
                        ));
                    }
                    assert(allocator.free() =~= old(allocator).free().remove(page_table.root()));
                    assert(space.area_frames() =~= Set::<int>::empty());
                    assert(space.owned() =~= page_table.owned());
                }
                Some(space)
            },
            None => None,
        }
    }

    /// The `satp` value that selects the page table of the space.
    pub fn satp_token(&self) -> (r: u64)
        ensures
            r == 0x8000_0000_0000_0000u64 | (self.table().root() as u64),
            self.table().root() < 0x1000_0000_0000 ==> r == 0x8000_0000_0000_0000
                + self.table().root(),
    {
        self.page_table.satp_token()
    }

    /// The valid level-0 entry of page `vpn`.
    pub fn find_pte(&self, mem: &PhysMemory, vpn: VirtPageNum) -> (r: Option<PageTableEntry>)
        requires
            mem.wf(),
        ensures
            r == self.find(mem, vpn.0),
    {
        self.page_table.find_pte(mem, vpn)
    }

    /// The physical address that `va` is mapped to.
    pub fn translate(&self, mem: &PhysMemory, va: VirtAddr) -> (r: Option<PhysAddr>)
        requires
            mem.wf(),
        ensures
            r == match self.find(mem, page_floor(va.0)) {
                Some(e) => Some(PhysAddr((e.spec_ppn() * 4096 + page_offset_of(va.0)) as u64)),
                None => None,
            },
    {
        self.page_table.va2pa(mem, va)
    }

    /// Whether an area of the pages `start .. end` can be pushed: the range
    /// fits between the areas of the space, has no page of more than 27
    /// bits, and does not have the trampoline page while that is mapped.
    pub fn has_room(&self, mem: &PhysMemory, start: VirtPageNum, end: VirtPageNum) -> (r: bool)
        requires
            mem.wf(),
        ensures
            r == (self.fits(start.0, end.0) && end.0 <= VPN_LIMIT && (start.0 <= TRAMPOLINE_VPN
                < end.0 ==> self.find(mem, TRAMPOLINE_VPN) is None)),
    {
        if end.0 > VPN_LIMIT {
            return false;
        }
        if start.0 <= TRAMPOLINE_VPN && TRAMPOLINE_VPN < end.0 && self.page_table.find_pte(
            mem,
            VirtPageNum(TRAMPOLINE_VPN),
        ).is_some() {
            return false;
        }
        let mut i: usize = 0;
        while i < self.areas.len()
            invariant
                i <= self.areas@.len(),
                forall|j: int|
                    0 <= j < i ==> {
                        ||| ((#[trigger] self.areas@[j]).spec_start_vpn() < start.0
                            && self.areas@[j].spec_end_vpn() <= start.0)
                        ||| (start.0 < self.areas@[j].spec_start_vpn() && end.0
                            <= self.areas@[j].spec_start_vpn())
                    },
            decreases self.areas@.len() - i,
        {
            let from = self.areas.at(i).start_vpn().0;
            let to = self.areas.at(i).end_vpn().0;
            if !((from < start.0 && to <= start.0) || (start.0 < from && end.0 <= from)) {
                return false;
            }
            i = i + 1;
        }
        true
    }

    /// Number of areas of the space.
    pub fn area_count(&self) -> (r: usize)
        ensures
            r == self.areas().len(),
    {
        self.areas.len()
    }

    /// Position of the first area that does not start before page `start`.
    fn position(&self, start: u64) -> (k: usize)
        ensures
            k <= self.areas().len(),
            forall|i: int|
                0 <= i < k ==> (#[trigger] self.areas()[i]).spec_start_vpn() < start,
            k < self.areas().len() ==> self.areas()[k as int].spec_start_vpn() >= start,
    {
        let mut k: usize = 0;
        while k < self.areas.len()
            invariant
                k <= self.areas@.len(),
                forall|i: int| 0 <= i < k ==> (#[trigger] self.areas@[i]).spec_start_vpn() < start,
            decreases self.areas@.len() - k,
        {
            if self.areas.at(k).start_vpn().0 >= start {
                return k;
            }
            k = k + 1;
        }
        k
    }

    /// Map `area`, which owns no frame, into the page table of the space,
    /// copy `data` to its start where there is any, and add it to the areas
    /// of the space. The area must fit between the others and may not have
    /// the trampoline page while that is mapped. On `Err` the pool ran out
    /// of frames: the space has its areas and mappings as before.
    pub fn push(
        &mut self,
        mem: &mut PhysMemory,
        allocator: &mut BuddyFrameAllocator,
        area: VmArea,
        data: Option<&[u8]>,
    ) -> (r: Result<(), OutOfFrames>)
        requires
            old(self).inv(old(mem), old(allocator)),
            area.linked(),
            area.frames() == Map::<u64, Frame>::empty(),
            area.spec_end_vpn() <= VPN_LIMIT,
            old(self).fits(area.spec_start_vpn(), area.spec_end_vpn()),
            area.covers(TRAMPOLINE_VPN) ==> old(self).find(old(mem), TRAMPOLINE_VPN) is None,
            data matches Some(bytes) ==> area.spec_map_type() is Framed && bytes@.len()
                <= area.page_count() * 4096,
        ensures
            final(self).inv(final(mem), final(allocator)),
            final(self).table().root() == old(self).table().root(),
            took_frames(
                old(self).owned(),
                final(self).owned(),
                old(mem),
                final(mem),
                old(allocator),
                final(allocator),
            ),
            forall|p: int| #[trigger]
                old(self).area_frames().contains(p) ==> final(mem).page(p) == old(mem).page(p),
            r is Ok <==> old(allocator).free().len() >= area.frames_needed(
                &old(self).table(),
                old(mem),
            ),
            r is Ok ==> final(allocator).free().len() == old(allocator).free().len()
                - area.frames_needed(&old(self).table(), old(mem)),
            area.frames_needed(&old(self).table(), old(mem)) <= 3 * area.page_count(),
            area.frames_needed(&old(self).table(), old(mem)) <= tables_bound(
                area.spec_start_vpn(),
                area.spec_end_vpn(),
            ) + if area.spec_map_type() is Framed {
                area.page_count()
            } else {
                0
            },
            final(allocator).free().len() >= old(allocator).free().len() - 3 * area.page_count(),
            r is Ok ==> {
                let k = old(self).rank(area.spec_start_vpn());
                &&& 0 <= k <= old(self).areas().len()
                &&& final(self).areas() == old(self).areas().insert(k, final(self).areas()[k])
                &&& final(self).areas()[k].same_shape(&area)
                &&& area.spec_map_type() is Framed ==> final(self).areas()[k].contents(final(mem))
                    == match data {
                    Some(bytes) => bytes@ + zero_bytes(area.page_count() * 4096 - bytes@.len()),
                    None => zero_bytes(area.page_count() * 4096),
                }
            },
            r is Err ==> final(self).areas() == old(self).areas(),
            r is Err ==> forall|v: u64| #[trigger]
                final(self).find(final(mem), v) == old(self).find(old(mem), v),
            forall|v: u64|
                !area.covers((v % VPN_LIMIT) as u64) ==> #[trigger] final(self).find(final(mem), v)
                    == old(self).find(old(mem), v),
    {
        let mut area = area;
        let k = self.position(area.start_vpn().0);
        let ghost before = self.page_table;
        let ghost areas = self.areas@;
        proof {
            old(self).lemma_owned_in_use(old(mem), old(allocator));
            assert forall|i: int| k <= i < areas.len() implies area.spec_start_vpn() < (
            #[trigger] areas[i]).spec_start_vpn() && area.spec_end_vpn()
                <= areas[i].spec_start_vpn() by {
                if i > k {
                    assert(areas[k as int].spec_start_vpn() < areas[i].spec_start_vpn());
                }
            }
            assert forall|i: int| 0 <= i < k implies (#[trigger] areas[i]).spec_start_vpn()
                < area.spec_start_vpn() && areas[i].spec_end_vpn() <= area.spec_start_vpn() by {}
            lemma_rank(areas, area.spec_start_vpn(), k as int);
            assert forall|v: u64| area.covers(v)
                implies #[trigger] before.find(old(mem), v) is None by {
                if before.find(old(mem), v) is Some {
                    assert(v == TRAMPOLINE_VPN || covered_by(areas, v));
                    if v != TRAMPOLINE_VPN {
                        let i = choose|i: int| 0 <= i < areas.len()
                            && (#[trigger] areas[i]).covers(v);
                        assert(areas[i].covers(v));
                    }
                }
            }
        }
        let mapped = area.map(&mut self.page_table, mem, allocator);
        let ghost mapped_mem = *mem;
        proof {
            assert forall|p: int| #[trigger] old(self).area_frames().contains(p) implies mem.page(p)
                == old(mem).page(p) by {
                assert(!before.owned().union(old(allocator).free()).contains(p));
                assert(mem.contains(p));
            }
            lemma_took_frames_more(
                before.owned(),
                self.page_table.owned().union(area.frame_set()),
                old(self).area_frames(),
                old(mem),
                mem,
                old(allocator),
                allocator,
            );
        }
        match mapped {
            Err(e) => {
                proof {
                    area.lemma_linked();
                    assert(self.page_table.owned().union(area.frame_set()).union(
                        old(self).area_frames(),
                    ) =~= self.owned());
                    assert forall|i: int, v: u64|
                        0 <= i < areas.len() && (#[trigger] areas[i]).covers(
                            v,
                        ) implies #[trigger] self.page_table.find(mem, v) == before.find(
                        old(mem),
                        v,
                    ) by {}
                    lemma_areas_stable(
                        areas,
                        &before,
                        old(mem),
                        old(allocator),
                        &self.page_table,
                        mem,
                        allocator,
                    );
                    assert forall|v: u64|
                        v < VPN_LIMIT && (#[trigger] self.page_table.find(mem, v)) is Some implies v
                        == TRAMPOLINE_VPN || covered_by(areas, v) by {
                        assert(self.page_table.find(mem, v) == before.find(old(mem), v));
                    }
                }
                Err(e)
            },
            Ok(()) => {
                proof {
                    if area.spec_map_type() is Framed {
                        area.lemma_zero_contents(&self.page_table, mem, allocator);
                    }
                }
                match data {
                    Some(bytes) => {
                        area.copy_data(&self.page_table, mem, allocator, bytes);
                        proof {
                            assert forall|p: int| #[trigger]
                                old(self).area_frames().contains(p) implies mem.page(p)
                                    == old(mem).page(p) by {
                                assert(old(allocator).in_use(p));
                                if area.frame_set().contains(p) {
                                    assert(self.page_table.owned().union(
                                        area.frame_set(),
                                    ).difference(before.owned()).contains(p));
                                }
                                assert(mem.contains(p));
                                assert(mem.page(p) == mapped_mem.page(p));
                            }
                        }
                    },
                    None => {
                        proof {
                            if area.spec_map_type() is Framed {
                                assert(area.contents(mem) =~= zero_bytes(
                                    area.page_count() * 4096,
                                ));
                            }
                        }
                    },
                }
                proof {
                    assert(mem.same_except(
                        old(mem),
                        old(self).owned().union(old(allocator).free()),
                    )) by {
                        assert forall|q: int|
                            mem.contains(q) && !old(self).owned().union(
                                old(allocator).free(),
                            ).contains(q) implies #[trigger] mem.page(q) == old(mem).page(q) by {
                            assert(mapped_mem.page(q) == old(mem).page(q));
                            if area.frame_set().contains(q) {
                                assert(self.page_table.owned().union(
                                    area.frame_set(),
                                ).difference(before.owned()).contains(q));
                            }
                        }
                    }
                    assert forall|v: u64|
                        !area.covers((v % VPN_LIMIT) as u64)
                            implies #[trigger] self.page_table.find(
                        mem,
                        v,
                    ) == before.find(old(mem), v) by {
                        assert(self.page_table.find(&mapped_mem, v) == before.find(old(mem), v));
                    }
                    assert(area.frame_set().subset_of(old(allocator).free())) by {
                        assert forall|q: int| area.frame_set().contains(q)
                            implies old(allocator).free().contains(q) by {
                            assert(self.page_table.owned().union(area.frame_set()).difference(
                                before.owned(),
                            ).contains(q)) by {
                                assert(!self.page_table.owned().contains(q));
                                assert(before.owned().subset_of(self.page_table.owned()));
                            }
                        }
                    }
                    assert(self.page_table.owned().difference(before.owned()).subset_of(
                        old(allocator).free(),
                    )) by {
                        assert forall|q: int|
                            self.page_table.owned().difference(before.owned()).contains(
                                q,
                            ) implies old(allocator).free().contains(q) by {
                            assert(self.page_table.owned().union(area.frame_set()).difference(
                                before.owned(),
                            ).contains(q));
                        }
                    }
                    lemma_sound_insert(
                        &before,
                        areas,
                        old(mem),
                        old(allocator),
                        &self.page_table,
                        mem,
                        allocator,
                        area,
                        k as int,
                    );
                    lemma_insert_area(areas, k as int, area);
                    assert(self.page_table.owned().union(area.frame_set()).union(
                        old(self).area_frames(),
                    ) =~= self.page_table.owned().union(
                        frames_of_areas(areas.insert(k as int, area)),
                    ));
                }
                self.areas.insert(k, area);
                Ok(())
            },
        }
    }

    /// Add a `Framed` area from the page of `start_va` up to the first page
    /// boundary at or after `end_va`, with zeroed frames.
    pub fn insert_framed_area(
        &mut self,
        mem: &mut PhysMemory,
        allocator: &mut BuddyFrameAllocator,
        start_va: VirtAddr,
        end_va: VirtAddr,
        perm: MapPermission,
    ) -> (r: Result<(), OutOfFrames>)
        requires
            old(self).inv(old(mem), old(allocator)),
            crate::address::page_ceil(end_va.0) <= VPN_LIMIT,
            old(self).fits(page_floor(start_va.0), crate::address::page_ceil(end_va.0)),
            page_floor(start_va.0) <= TRAMPOLINE_VPN < crate::address::page_ceil(end_va.0)
                ==> old(self).find(old(mem), TRAMPOLINE_VPN) is None,
        ensures
            final(self).inv(final(mem), final(allocator)),
            final(self).table().root() == old(self).table().root(),
            took_frames(
                old(self).owned(),
                final(self).owned(),
                old(mem),
                final(mem),
                old(allocator),
                final(allocator),
            ),
            r is Ok <==> old(allocator).free().len() >= tables_for_pages(
                &old(self).table(),
                old(mem),
                page_floor(start_va.0),
                crate::address::page_ceil(end_va.0),
            ) + if page_floor(start_va.0) <= crate::address::page_ceil(end_va.0) {
                crate::address::page_ceil(end_va.0) - page_floor(start_va.0)
            } else {
                0
            },
            r is Ok ==> {
                let k = old(self).rank(page_floor(start_va.0));
                &&& 0 <= k <= old(self).areas().len()
                &&& final(self).areas() == old(self).areas().insert(k, final(self).areas()[k])
                &&& final(self).areas()[k].spec_start_vpn() == page_floor(start_va.0)
                &&& final(self).areas()[k].spec_end_vpn() == crate::address::page_ceil(end_va.0)
                &&& final(self).areas()[k].spec_perm() == perm@
                &&& final(self).areas()[k].spec_map_type() is Framed
                &&& final(self).areas()[k].contents(final(mem)) == zero_bytes(
                    final(self).areas()[k].page_count() * 4096,
                )
            },
            r is Err ==> final(self).areas() == old(self).areas(),
            r is Err ==> forall|v: u64| #[trigger]
                final(self).find(final(mem), v) == old(self).find(old(mem), v),
            forall|v: u64|
                !(page_floor(start_va.0) <= v % VPN_LIMIT < crate::address::page_ceil(end_va.0))
                    ==> #[trigger] final(self).find(final(mem), v) == old(self).find(old(mem), v),
    {
        let area = VmArea::new(start_va, end_va, MapType::Framed, perm);
        self.push(mem, allocator, area, None)
    }

    /// Remove the area that starts at page `start_vpn`, where there is one:
    /// unmap its pages and give its frames back to the pool.
    pub fn remove_area_with_start_vpn(
        &mut self,
        mem: &mut PhysMemory,
        allocator: &mut BuddyFrameAllocator,
        start_vpn: VirtPageNum,
    )
        requires
            old(self).inv(old(mem), old(allocator)),
        ensures
            final(self).inv(final(mem), final(allocator)),
            final(self).table().owned() == old(self).table().owned(),
            final(self).table().root() == old(self).table().root(),
            final(allocator).begin() == old(allocator).begin(),
            final(allocator).end() == old(allocator).end(),
            (forall|i: int|
                0 <= i < old(self).areas().len()
                    ==> (#[trigger] old(self).areas()[i]).spec_start_vpn() != start_vpn.0)
                    ==> final(self).areas() == old(self).areas() && *final(mem) == *old(mem)
                    && *final(allocator) == *old(allocator),
            forall|i: int|
                0 <= i < old(self).areas().len()
                    && (#[trigger] old(self).areas()[i]).spec_start_vpn() == start_vpn.0 ==> {
                    &&& final(self).areas() == old(self).areas().remove(i)
                    &&& final(allocator).free() == old(allocator).free().union(
                        old(self).areas()[i].frame_set(),
                    )
                    &&& final(mem).same_except(old(mem), old(self).table().owned())
                    &&& forall|v: u64|
                        old(self).areas()[i].covers(v) ==> #[trigger] final(self).find(
                            final(mem),
                            v,
                        ) is None
                    &&& forall|v: u64|
                        !old(self).areas()[i].covers((v % VPN_LIMIT) as u64)
                            ==> #[trigger] final(self).find(final(mem), v) == old(self).find(
                            old(mem),
                            v,
                        )
                },
    {
        let k = self.position(start_vpn.0);
        if k < self.areas.len() && self.areas.at(k).start_vpn().0 == start_vpn.0 {
            let ghost before = self.page_table;
            let ghost areas = self.areas@;
            proof {
                assert forall|i: int|
                    0 <= i < areas.len() && (#[trigger] areas[i]).spec_start_vpn()
                        == start_vpn.0 implies i == k by {
                    if i < k {
                    } else if i > k {
                        assert(areas[k as int].spec_start_vpn() < areas[i].spec_start_vpn());
                    }
                }
                assert(areas[k as int].fully_mapped(&before, old(mem), old(allocator)));
            }
            let mut area = self.areas.remove(k);
            area.unmap(&mut self.page_table, mem, allocator);
            proof {
                lemma_sound_remove(
                    &before,
                    areas,
                    old(mem),
                    old(allocator),
                    &self.page_table,
                    mem,
                    allocator,
                    k as int,
                );
            }
        } else {
            proof {
                assert forall|i: int| 0 <= i < self.areas().len()
                    implies (#[trigger] self.areas()[i]).spec_start_vpn()
                    != start_vpn.0 by {
                    if i > k {
                        assert(self.areas()[k as int].spec_start_vpn()
                            < self.areas()[i].spec_start_vpn());
                    }
                }
            }
        }
    }

    /// Remove every area of the space: unmap their pages and give their
    /// frames back to the pool. The page table and the trampoline mapping
    /// stay.
    pub fn recycle_data_pages(
        &mut self,
        mem: &mut PhysMemory,
        allocator: &mut BuddyFrameAllocator,
    )
        requires
            old(self).inv(old(mem), old(allocator)),
        ensures
            final(self).inv(final(mem), final(allocator)),
            final(self).areas() == Seq::<VmArea>::empty(),
            final(self).table().root() == old(self).table().root(),
            final(self).table().owned() == old(self).table().owned(),
            final(allocator).free() == old(allocator).free().union(old(self).area_frames()),
            final(allocator).begin() == old(allocator).begin(),
            final(allocator).end() == old(allocator).end(),
            final(mem).same_except(old(mem), old(self).table().owned()),
            forall|v: u64|
                old(self).covered(v) ==> #[trigger] final(self).find(final(mem), v) is None,
            forall|v: u64|
                !old(self).covered((v % VPN_LIMIT) as u64) ==> #[trigger] final(self).find(
                    final(mem),
                    v,
                ) == old(self).find(old(mem), v),
    {
        proof {
            assert(allocator.free().union(
                old(self).area_frames().difference(self.area_frames()),
            ) =~= allocator.free());
        }
        while self.areas.len() > 0
            invariant
                old(self).inv(old(mem), old(allocator)),
                self.inv(mem, allocator),
                self.page_table.root() == old(self).page_table.root(),
                self.page_table.owned() == old(self).page_table.owned(),
                self.area_frames().subset_of(old(self).area_frames()),
                allocator.free() == old(allocator).free().union(
                    old(self).area_frames().difference(self.area_frames()),
                ),
                allocator.begin() == old(allocator).begin(),
                allocator.end() == old(allocator).end(),
                mem.same_except(old(mem), old(self).page_table.owned()),
                forall|v: u64|
                    old(self).covered(v) && !self.covered(v) ==> #[trigger] self.find(mem, v)
                        is None,
                forall|v: u64| self.covered(v) ==> old(self).covered(v),
                forall|v: u64|
                    !old(self).covered((v % VPN_LIMIT) as u64) ==> #[trigger] self.find(mem, v)
                        == old(self).find(old(mem), v),
            decreases self.areas@.len(),
        {
            let ghost before = self.page_table;
            let ghost areas = self.areas@;
            let ghost step_self = *self;
            let ghost step_mem = *mem;
            let ghost step_allocator = *allocator;
            let ghost last = areas.len() - 1;
            proof {
                self.lemma_owned_in_use(mem, allocator);
                assert(areas[last].fully_mapped(&before, mem, allocator));
                lemma_remove_area(areas, last);
                assert(areas.remove(last) =~= areas.subrange(0, last));
            }
            let mut area = self.areas.pop().unwrap();
            area.unmap(&mut self.page_table, mem, allocator);
            proof {
                lemma_sound_remove(
                    &before,
                    areas,
                    &step_mem,
                    &step_allocator,
                    &self.page_table,
                    mem,
                    allocator,
                    last,
                );
                assert(allocator.free() =~= old(allocator).free().union(
                    old(self).area_frames().difference(self.area_frames()),
                )) by {
                    assert(frames_of_areas(areas) == self.area_frames().union(
                        areas[last].frame_set(),
                    ));
                    assert forall|p: int| areas[last].frame_set().contains(
                        p,
                    ) implies !self.area_frames().contains(p) by {
                        if self.area_frames().contains(p) {
                            let i = choose|i: int|
                                0 <= i < self.areas@.len() && (
                                #[trigger] self.areas@[i]).frame_set().contains(p);
                            assert(areas[i].frame_set().disjoint(areas[last].frame_set()));
                        }
                    }
                }
                assert(mem.same_except(old(mem), old(self).page_table.owned())) by {
                    assert forall|q: int|
                        mem.contains(q) && !old(self).page_table.owned().contains(
                            q,
                        ) implies #[trigger] mem.page(q) == old(mem).page(q) by {
                        assert(step_mem.page(q) == old(mem).page(q));
                    }
                }
                assert forall|v: u64| self.covered(v) implies old(self).covered(v) by {
                    assert(covered_by(areas, v));
                }
                assert forall|v: u64|
                    old(self).covered(v) && !self.covered(v) implies #[trigger] self.find(mem, v)
                    is None by {
                    let i = choose|i: int|
                        0 <= i < old(self).areas().len()
                            && (#[trigger] old(self).areas()[i]).covers(
                            v,
                        );
                    assert(old(self).areas()[i].fully_mapped(
                        &old(self).table(),
                        old(mem),
                        old(allocator),
                    ));
                    assert(v < VPN_LIMIT);
                    if !areas[last].covers(v) {
                        assert(!step_self.covered(v));
                        assert(step_self.find(&step_mem, v) is None);
                        assert(self.find(mem, v) == before.find(&step_mem, v));
                    }
                }
                assert forall|v: u64|
                    !old(self).covered((v % VPN_LIMIT) as u64) implies #[trigger] self.find(mem, v)
                    == old(self).find(old(mem), v) by {
                    assert(step_self.find(&step_mem, v) == old(self).find(old(mem), v));
                    if areas[last].covers((v % VPN_LIMIT) as u64) {
                        assert(step_self.covered((v % VPN_LIMIT) as u64));
                    }
                    assert(self.find(mem, v) == before.find(&step_mem, v));
                }
            }
        }
        proof {
            assert(self.areas() =~= Seq::<VmArea>::empty());
            assert(self.area_frames() =~= Set::<int>::empty());
            assert(allocator.free() =~= old(allocator).free().union(old(self).area_frames()));
            assert forall|v: u64| old(self).covered(v) implies #[trigger] self.find(mem, v)
                is None by {
                assert(!self.covered(v));
            }
        }
    }

    /// Give every frame of the space back to the pool: those of its areas
    /// and those of its page table.
    pub fn release(self, mem: &mut PhysMemory, allocator: &mut BuddyFrameAllocator)
        requires
            self.inv(old(mem), old(allocator)),
        ensures
            final(mem).backs(final(allocator)),
            final(allocator).free() == old(allocator).free().union(self.owned()),
            final(allocator).begin() == old(allocator).begin(),
            final(allocator).end() == old(allocator).end(),
            final(mem).same_except(old(mem), self.table().owned()),
    {
        let mut space = self;
        space.recycle_data_pages(mem, allocator);
        let MemorySpace { page_table, areas } = space;
        page_table.release(mem, allocator);
        proof {
            assert(allocator.free() =~= old(allocator).free().union(self.owned()));
        }
    }

    /// The permissions of the area of a segment.
    fn segment_permission(segment: &LoadSegment) -> (r: MapPermission)
        ensures
            r@ == segment_perm(*segment),
    {
        let mut bits: u8 = MAP_U;
        if segment.read {
            bits = bits + 2;
        }
        if segment.write {
            bits = bits + 4;
        }
        if segment.execute {
            bits = bits + 8;
        }
        assert(bits & !0x1eu8 == 0) by (bit_vector)
            requires
                bits == 0x10 || bits == 0x12 || bits == 0x14 || bits == 0x16 || bits == 0x18 || bits
                    == 0x1a || bits == 0x1c || bits == 0x1e,
        ;
        MapPermission::from_bits(bits).unwrap()
    }

    /// Add the area of a segment of the image `elf_data` to the space: map
    /// it and copy the bytes of the segment to it.
    fn load_segment(
        &mut self,
        mem: &mut PhysMemory,
        allocator: &mut BuddyFrameAllocator,
        elf_data: &[u8],
        segment: LoadSegment,
    ) -> (r: Result<(), OutOfFrames>)
        requires
            old(self).inv(old(mem), old(allocator)),
            segment.has_page(),
            segment.fits(elf_data@.len() as int),
            old(self).fits(segment.start_vpn(), segment.end_vpn()),
        ensures
            final(self).inv(final(mem), final(allocator)),
            took_frames(
                old(self).owned(),
                final(self).owned(),
                old(mem),
                final(mem),
                old(allocator),
                final(allocator),
            ),
            old(allocator).free().len() >= 3 * (segment.end_vpn() - segment.start_vpn()) ==> r
                is Ok,
            final(allocator).free().len() >= old(allocator).free().len() - 3 * (segment.end_vpn()
                - segment.start_vpn()),
            final(self).find(final(mem), TRAMPOLINE_VPN) == old(self).find(
                old(mem),
                TRAMPOLINE_VPN,
            ),
            r is Ok ==> {
                let k = old(self).rank(segment.start_vpn());
                &&& 0 <= k <= old(self).areas().len()
                &&& final(self).areas() == old(self).areas().insert(k, final(self).areas()[k])
                &&& area_holds_segment(final(self).areas()[k], segment, elf_data@, final(mem))
                &&& forall|j: int|
                    0 <= j < old(self).areas().len()
                        && (#[trigger] old(self).areas()[j]).spec_map_type() is Framed
                        ==> old(self).areas()[j].contents(
                        final(mem),
                    ) == old(self).areas()[j].contents(old(mem))
            },
    {
        let perm = Self::segment_permission(&segment);
        let area = VmArea::new(
            VirtAddr(segment.start_va),
            VirtAddr(segment.end_va),
            MapType::Framed,
            perm,
        );
        let image_len = elf_data.len();
        assert(segment.offset + segment.file_size <= image_len);
        let bytes = slice_subrange(elf_data, segment.offset, segment.offset + segment.file_size);
        proof {
            crate::address::lemma_floor_ceil(segment.end_va);
        }
        let r = self.push(mem, allocator, area, Some(bytes));
        proof {
            if r is Ok {
                old(self).lemma_contents_stable(old(mem), old(allocator), mem);
            }
        }
        r
    }

    /// The address space of the program whose segments `elf` lists and
    /// whose file is `elf_data`, with the page after its highest segment and
    /// one more as the base of the user stack, and its entry address.
    ///
    /// The space has the trampoline, mapped to the page of `strampoline`,
    /// and one `Framed` area for each segment, with the permissions of the
    /// segment and U. The area holds the bytes of the segment in the file,
    /// then zeros.
    ///
    /// On `Err` the pool ran out of frames: all frames that were taken are
    /// free again.
    pub fn from_image(
        mem: &mut PhysMemory,
        allocator: &mut BuddyFrameAllocator,
        elf: &ElfImage,
        elf_data: &[u8],
        strampoline: u64,
    ) -> (r: Result<(MemorySpace, u64, u64), OutOfFrames>)
        requires
            old(mem).backs(old(allocator)),
            page_offset_of(strampoline) == 0,
            elf.loadable(elf_data@.len() as int),
        ensures
            final(mem).backs(final(allocator)),
            final(allocator).begin() == old(allocator).begin(),
            final(allocator).end() == old(allocator).end(),
            final(mem).same_except(old(mem), old(allocator).free()),
            old(allocator).free().len() >= 3 + 3 * pages_of(
                elf.segments@,
                elf.segments@.len() as int,
            ) ==> r is Ok,
            match r {
                Ok((space, user_stack_base, entry)) => {
                    &&& space.inv(final(mem), final(allocator))
                    &&& took_frames(
                        Set::<int>::empty(),
                        space.owned(),
                        old(mem),
                        final(mem),
                        old(allocator),
                        final(allocator),
                    )
                    &&& !space.covered(TRAMPOLINE_VPN)
                    &&& entry == elf.entry_point
                    &&& user_stack_base == elf.end_vpn * 4096 + 4096
                    &&& areas_of_segments(
                        space.areas(),
                        elf.segments@,
                        elf.segments@.len() as int,
                        elf_data@,
                        final(mem),
                    )
                    &&& space.find(final(mem), TRAMPOLINE_VPN)
                        == Some(trampoline_entry(strampoline))
                },
                Err(_) => final(allocator).free() == old(allocator).free(),
            },
    {
        let ghost image = elf_data@;
        let ghost wanted = elf.segments@;
        proof {
            allocator.lemma_free_in_window();
            crate::elf::lemma_pages_of(wanted, 0, wanted.len() as int);
        }
        let mut space = match MemorySpace::new_bare(mem, allocator) {
            Some(space) => space,
            None => {
                return Err(OutOfFrames);
            },
        };
        let ghost bare = space;
        let ghost bare_mem = *mem;
        let ghost bare_allocator = *allocator;
        proof {
            allocator.lemma_free_in_window();
            space.table().lemma_missing_tables(mem, TRAMPOLINE_VPN);
        }
        let installed = space.map_trampoline(mem, allocator, strampoline);
        proof {
            lemma_took_frames_twice(
                Set::<int>::empty(),
                bare.owned(),
                space.owned(),
                old(mem),
                &bare_mem,
                mem,
                old(allocator),
                &bare_allocator,
                allocator,
            );
            allocator.lemma_free_in_window();
        }
        if installed.is_err() {
            space.release(mem, allocator);
            proof {
                assert(allocator.free() =~= old(allocator).free());
            }
            return Err(OutOfFrames);
        }
        proof {
            lemma_no_areas_of_segments(space.areas(), wanted, image, mem);
        }
        let mut i: usize = 0;
        while i < elf.segments.len()
            invariant
                i <= wanted.len(),
                elf.segments@ == wanted,
                image == elf_data@,
                segments_loadable(wanted, elf.end_vpn, image.len() as int),
                space.inv(mem, allocator),
                took_frames(
                    Set::<int>::empty(),
                    space.owned(),
                    old(mem),
                    mem,
                    old(allocator),
                    allocator,
                ),
                areas_of_segments(space.areas(), wanted, i as int, image, mem),
                space.find(mem, TRAMPOLINE_VPN) == Some(trampoline_entry(strampoline)),
                allocator.free().finite(),
                old(allocator).free().finite(),
                allocator.free().len() >= old(allocator).free().len() - 3 - 3 * pages_of(
                    wanted,
                    i as int,
                ),
            decreases wanted.len() - i,
        {
            let segment = elf.segments[i];
            let ghost step_space = space;
            let ghost step_mem = *mem;
            let ghost step_allocator = *allocator;
            proof {
                assert(segment == wanted[i as int]);
                assert(segment.has_page() && segment.fits(image.len() as int));
                crate::elf::lemma_pages_of(wanted, i + 1, wanted.len() as int);
                assert(pages_of(wanted, i + 1) == pages_of(wanted, i as int) + (
                segment.end_vpn() - segment.start_vpn()));
                lemma_segment_fits(space.areas(), wanted, i as int, image, mem);
            }
            let loaded = space.load_segment(mem, allocator, elf_data, segment);
            proof {
                lemma_took_frames_twice(
                    Set::<int>::empty(),
                    step_space.owned(),
                    space.owned(),
                    old(mem),
                    &step_mem,
                    mem,
                    old(allocator),
                    &step_allocator,
                    allocator,
                );
                allocator.lemma_free_in_window();
            }
            if loaded.is_err() {
                space.release(mem, allocator);
                proof {
                    assert(allocator.free() =~= old(allocator).free());
                }
                return Err(OutOfFrames);
            }
            proof {
                lemma_areas_of_segments_step(
                    step_space.areas(),
                    space.areas(),
                    wanted,
                    i as int,
                    step_space.rank(segment.start_vpn()),
                    image,
                    &step_mem,
                    mem,
                );
            }
            i = i + 1;
        }
        proof {
            lemma_segments_leave_trampoline(space.areas(), wanted, image, mem);
        }
        let user_stack_base = elf.end_vpn * 4096 + 4096;
        Ok((space, user_stack_base, elf.entry_point))
    }

    /// The address space of the program in the ELF image `elf_data`, with
    /// the page after its highest segment and one more as the base of the
    /// user stack, and its entry address: what `from_image` makes of the
    /// image that `ElfImage::parse` reads. The `LOAD` headers may come in
    /// any order.
    ///
    /// The image is one that can be loaded; `ElfImage::parse` tells. On
    /// `Err` the pool ran out of frames: all frames that were taken are free
    /// again.
    pub fn from_elf(
        mem: &mut PhysMemory,
        allocator: &mut BuddyFrameAllocator,
        elf_data: &[u8],
        strampoline: u64,
    ) -> (r: Result<(MemorySpace, u64, u64), OutOfFrames>)
        requires
            old(mem).backs(old(allocator)),
            page_offset_of(strampoline) == 0,
            image_ok(elf_data@),
        ensures
            final(mem).backs(final(allocator)),
            final(allocator).begin() == old(allocator).begin(),
            final(allocator).end() == old(allocator).end(),
            final(mem).same_except(old(mem), old(allocator).free()),
            old(allocator).free().len() >= 3 + 3 * pages_of(
                segments(elf_data@),
                segments(elf_data@).len() as int,
            ) ==> r is Ok,
            match r {
                Ok((space, user_stack_base, entry)) => {
                    &&& space.inv(final(mem), final(allocator))
                    &&& took_frames(
                        Set::<int>::empty(),
                        space.owned(),
                        old(mem),
                        final(mem),
                        old(allocator),
                        final(allocator),
                    )
                    &&& !space.covered(TRAMPOLINE_VPN)
                    &&& entry == entry_point(elf_data@)
                    &&& user_stack_base == image_end(elf_data@) * 4096 + 4096
                    &&& !space.covered(image_end(elf_data@))
                    &&& areas_of_segments(
                        space.areas(),
                        segments(elf_data@),
                        segments(elf_data@).len() as int,
                        elf_data@,
                        final(mem),
                    )
                    &&& space.find(final(mem), TRAMPOLINE_VPN)
                        == Some(trampoline_entry(strampoline))
                },
                Err(_) => final(allocator).free() == old(allocator).free(),
            },
    {
        let elf = ElfImage::parse(elf_data).unwrap();
        let r = Self::from_image(mem, allocator, &elf, elf_data, strampoline);
        proof {
            if r is Ok {
                lemma_segments_end(
                    r.unwrap().0.areas(),
                    elf.segments@,
                    elf.end_vpn,
                    elf_data@,
                    mem,
                );
            }
        }
        r
    }

    /// Copy the frames of the `Framed` area `index` of `source` to those of
    /// the area `index` of this space, page by page as the two page tables
    /// give them. The two areas have the same pages, and the two spaces
    /// share no frame.
    fn copy_pages(
        &self,
        mem: &mut PhysMemory,
        allocator: &BuddyFrameAllocator,
        source: &MemorySpace,
        index: usize,
    )
        requires
            self.inv(old(mem), allocator),
            source.inv(old(mem), allocator),
            self.owned().disjoint(source.owned()),
            index < self.areas().len(),
            index < source.areas().len(),
            self.areas()[index as int].same_shape(&source.areas()[index as int]),
            self.areas()[index as int].spec_map_type() is Framed,
        ensures
            self.inv(final(mem), allocator),
            source.inv(final(mem), allocator),
            final(mem).same_except(old(mem), self.areas()[index as int].frame_set()),
            forall|v: u64| #[trigger] self.find(final(mem), v) == self.find(old(mem), v),
            forall|v: u64| #[trigger] source.find(final(mem), v) == source.find(old(mem), v),
            self.areas()[index as int].contents(final(mem))
                == source.areas()[index as int].contents(
                old(mem),
            ),
    {
        let area = self.areas.at(index);
        let ghost target = self.areas()[index as int];
        let ghost origin = source.areas()[index as int];
        let mut vpn: u64 = area.start_vpn().0;
        let end: u64 = area.end_vpn().0;
        proof {
            assert(target.fully_mapped(&self.table(), mem, allocator));
            assert(origin.fully_mapped(&source.table(), mem, allocator));
            target.lemma_linked();
            origin.lemma_linked();
        }
        while vpn < end
            invariant
                target == self.areas()[index as int],
                origin == source.areas()[index as int],
                index < self.areas().len(),
                index < source.areas().len(),
                target.same_shape(&origin),
                target.spec_map_type() is Framed,
                target.linked(),
                origin.linked(),
                end == target.spec_end_vpn(),
                target.spec_start_vpn() <= vpn,
                self.inv(mem, allocator),
                source.inv(mem, allocator),
                self.inv(old(mem), allocator),
                source.inv(old(mem), allocator),
                self.owned().disjoint(source.owned()),
                mem.same_except(old(mem), target.frame_set()),
                forall|v: u64| #[trigger] self.find(mem, v) == self.find(old(mem), v),
                forall|v: u64| #[trigger] source.find(mem, v) == source.find(old(mem), v),
                forall|v: u64|
                    target.spec_start_vpn() <= v < vpn ==> mem.page(
                        (#[trigger] target.frames()[v]).ppn.0 as int,
                    ) == old(mem).page(origin.frames()[v].ppn.0 as int),
            decreases end - vpn,
        {
            let ghost step_mem = *mem;
            proof {
                target.lemma_linked();
                origin.lemma_linked();
                assert(target.covers(vpn) && origin.covers(vpn));
                assert(target.fully_mapped(&self.table(), mem, allocator));
                assert(origin.fully_mapped(&source.table(), mem, allocator));
                assert(target.page_mapped(&self.table(), mem, vpn));
                assert(origin.page_mapped(&source.table(), mem, vpn));
                let p = target.frames()[vpn].ppn.0;
                let q = origin.frames()[vpn].ppn.0;
                assert(target.frame_set().contains(p as int));
                assert(origin.frame_set().contains(q as int));
                assert(self.area_frames().contains(p as int));
                assert(source.area_frames().contains(q as int));
                assert(allocator.in_use(p as int) && allocator.in_use(q as int));
                mem.lemma_page_len(p as int);
                mem.lemma_page_len(q as int);
                crate::page_table::lemma_entry_round_trip(p, target.spec_perm() | PTE_V);
                crate::page_table::lemma_entry_round_trip(q, origin.spec_perm() | PTE_V);
            }
            let src_ppn = match source.page_table.vpn2ppn(mem, VirtPageNum(vpn)) {
                Some(ppn) => ppn,
                None => {
                    return ;
                },
            };
            let dst_ppn = match self.page_table.vpn2ppn(mem, VirtPageNum(vpn)) {
                Some(ppn) => ppn,
                None => {
                    return ;
                },
            };
            mem.copy_frame(dst_ppn, src_ppn);
            proof {
                let p = dst_ppn.0 as int;
                let q = src_ppn.0 as int;
                self.lemma_owned_in_use(&step_mem, allocator);
                source.lemma_owned_in_use(&step_mem, allocator);
                assert(self.owned().contains(p));
                assert(source.owned().contains(q));
                assert forall|t: int| #[trigger] self.table().owned().contains(t)
                    implies mem.page(t)
                    == step_mem.page(t) by {
                    assert(step_mem.contains(t));
                }
                assert forall|t: int| #[trigger] source.table().owned().contains(t)
                    implies mem.page(
                    t,
                ) == step_mem.page(t) by {
                    assert(source.owned().contains(t));
                    assert(step_mem.contains(t));
                }
                self.lemma_stable(&step_mem, allocator, mem, allocator);
                source.lemma_stable(&step_mem, allocator, mem, allocator);
                assert forall|v: u64| #[trigger] self.find(mem, v) == self.find(old(mem), v) by {
                    assert(self.find(mem, v) == self.find(&step_mem, v));
                }
                assert forall|v: u64| #[trigger] source.find(mem, v)
                    == source.find(old(mem), v) by {
                    assert(source.find(mem, v) == source.find(&step_mem, v));
                }
                assert(mem.same_except(old(mem), target.frame_set())) by {
                    assert forall|t: int|
                        mem.contains(t) && !target.frame_set().contains(
                            t,
                        ) implies #[trigger] mem.page(t) == old(mem).page(t) by {
                        assert(step_mem.page(t) == old(mem).page(t));
                    }
                }
                assert(step_mem.page(q) == old(mem).page(q)) by {
                    if target.frame_set().contains(q) {
                        assert(self.area_frames().contains(q));
                        assert(self.owned().contains(q));
                    }
                }
                assert forall|v: u64| target.spec_start_vpn() <= v < vpn + 1 implies mem.page(
                    (#[trigger] target.frames()[v]).ppn.0 as int,
                ) == old(mem).page(origin.frames()[v].ppn.0 as int) by {
                    if v != vpn {
                        assert(target.covers(v));
                        assert(target.page_mapped(&self.table(), &step_mem, v));
                        assert(target.frames()[v].ppn != target.frames()[vpn].ppn);
                        assert(mem.page(target.frames()[v].ppn.0 as int) == step_mem.page(
                            target.frames()[v].ppn.0 as int,
                        ));
                    }
                }
            }
            vpn = vpn + 1;
        }
        proof {
            assert forall|i: int| 0 <= i < target.page_count() * 4096
                implies target.contents(mem)[i]
                == origin.contents(old(mem))[i] by {
                let w = (target.spec_start_vpn() + i / 4096) as u64;
                assert(target.covers(w));
                assert(mem.page(target.frames()[w].ppn.0 as int) == old(mem).page(
                    origin.frames()[w].ppn.0 as int,
                ));
            }
            assert(target.contents(mem) =~= origin.contents(old(mem)));
        }
    }

    /// Add a copy of area `index` of `source` above the areas of this
    /// space, which are copies of the areas of `source` before `index`: an
    /// area of the same shape with frames of its own, which get the
    /// contents of the frames of the area of `source`.
    fn clone_area(
        &mut self,
        mem: &mut PhysMemory,
        allocator: &mut BuddyFrameAllocator,
        source: &MemorySpace,
        index: usize,
    ) -> (r: Result<(), OutOfFrames>)
        requires
            old(self).inv(old(mem), old(allocator)),
            source.inv(old(mem), old(allocator)),
            old(self).owned().disjoint(source.owned()),
            index < source.areas().len(),
            old(self).areas().len() == index,
            forall|j: int|
                0 <= j < index ==> (#[trigger] old(self).areas()[j]).same_shape(&source.areas()[j]),
            !source.areas()[index as int].covers(TRAMPOLINE_VPN),
        ensures
            final(self).inv(final(mem), final(allocator)),
            source.inv(final(mem), final(allocator)),
            final(self).owned().disjoint(source.owned()),
            took_frames(
                old(self).owned(),
                final(self).owned(),
                old(mem),
                final(mem),
                old(allocator),
                final(allocator),
            ),
            forall|p: int| #[trigger] source.owned().contains(p) ==> final(mem).page(p)
                == old(mem).page(p),
            forall|v: u64| #[trigger] source.find(final(mem), v) == source.find(old(mem), v),
            old(allocator).free().len() >= 3 * source.areas()[index as int].page_count() ==> r
                is Ok,
            final(allocator).free().len() >= old(allocator).free().len() - 3
                * source.areas()[index as int].page_count(),
            final(self).find(final(mem), TRAMPOLINE_VPN) == old(self).find(
                old(mem),
                TRAMPOLINE_VPN,
            ),
            r is Ok ==> {
                &&& final(self).areas().len() == index + 1
                &&& final(self).areas()[index as int].same_shape(&source.areas()[index as int])
                &&& final(self).areas()[index as int].spec_map_type() is Framed
                    ==> final(self).areas()[index as int].contents(final(mem))
                    == source.areas()[index as int].contents(
                    old(mem),
                )
                &&& forall|j: int|
                    0 <= j < index ==> #[trigger] final(self).areas()[j] == old(self).areas()[j]
                &&& forall|j: int|
                    0 <= j < index && (#[trigger] old(self).areas()[j]).spec_map_type() is Framed
                        ==> old(self).areas()[j].contents(final(mem))
                            == old(self).areas()[j].contents(old(mem))
            },
    {
        let new_area = VmArea::from_another(source.areas.at(index));
        let ghost origin = source.areas()[index as int];
        proof {
            assert(origin.fully_mapped(&source.table(), mem, allocator));
            assert forall|j: int| 0 <= j < index
                implies (#[trigger] self.areas()[j]).spec_start_vpn()
                < new_area.spec_start_vpn() && self.areas()[j].spec_end_vpn()
                <= new_area.spec_start_vpn() by {
                assert(self.areas()[j].same_shape(&source.areas()[j]));
                assert(source.areas()[j].spec_start_vpn()
                    < source.areas()[index as int].spec_start_vpn());
            }
            lemma_rank(self.areas(), new_area.spec_start_vpn(), index as int);
            source.lemma_owned_in_use(mem, allocator);
            self.lemma_owned_in_use(mem, allocator);
        }
        let pushed = self.push(mem, allocator, new_area, None);
        let ghost pushed_mem = *mem;
        proof {
            assert forall|p: int| #[trigger] source.owned().contains(p) implies mem.page(p)
                == old(mem).page(p) && allocator.in_use(p) && !self.owned().contains(p) by {
                assert(old(allocator).in_use(p));
                assert(!old(self).owned().union(old(allocator).free()).contains(p));
                assert(mem.contains(p));
                if self.owned().contains(p) {
                    assert(self.owned().difference(old(self).owned()).contains(p));
                }
            }
            source.lemma_stable(old(mem), old(allocator), mem, allocator);
            if pushed is Ok {
                lemma_insert_area(old(self).areas(), index as int, self.areas()[index as int]);
                old(self).lemma_contents_stable(old(mem), old(allocator), mem);
                source.lemma_contents_stable(old(mem), old(allocator), mem);
            }
        }
        if pushed.is_err() {
            return pushed;
        }
        match source.areas.at(index).map_type() {
            MapType::Framed => {
                self.copy_pages(mem, allocator, source, index);
                proof {
                    self.lemma_owned_in_use(&pushed_mem, allocator);
                    let target = self.areas()[index as int];
                    assert forall|p: int| #[trigger] target.frame_set().contains(
                        p,
                    ) implies self.owned().contains(p) && !old(self).area_frames().contains(p) by {
                        assert(self.area_frames().contains(p));
                        if old(self).area_frames().contains(p) {
                            let j = choose|j: int|
                                0 <= j < index && (#[trigger]
                                    old(self).areas()[j]).frame_set().contains(
                                    p,
                                );
                            assert(self.areas()[j] == old(self).areas()[j]);
                            assert(self.areas()[j].frame_set().disjoint(target.frame_set()));
                        }
                    }
                    assert forall|p: int| #[trigger] source.owned().contains(p) implies mem.page(p)
                        == old(mem).page(p) by {
                        assert(pushed_mem.page(p) == old(mem).page(p));
                        assert(pushed_mem.contains(p));
                    }
                    assert(mem.same_except(
                        old(mem),
                        old(self).owned().union(old(allocator).free()),
                    )) by {
                        assert forall|q: int|
                            mem.contains(q) && !old(self).owned().union(
                                old(allocator).free(),
                            ).contains(q) implies #[trigger] mem.page(q) == old(mem).page(q) by {
                            assert(pushed_mem.page(q) == old(mem).page(q));
                            if target.frame_set().contains(q) {
                                assert(self.owned().difference(old(self).owned()).contains(q));
                            }
                        }
                    }
                    assert forall|j: int|
                        0 <= j < index && (#[trigger] old(self).areas()[j]).spec_map_type()
                            is Framed implies old(self).areas()[j].contents(mem)
                                == old(self).areas()[j].contents(old(mem)) by {
                        let earlier = old(self).areas()[j];
                        assert(earlier == self.areas()[j]);
                        assert(earlier.fully_mapped(&self.table(), &pushed_mem, allocator));
                        assert forall|v: u64|
                            earlier.covers(v) implies #[trigger] earlier.frames().contains_key(
                            v,
                        ) by {
                            assert(earlier.page_mapped(&self.table(), &pushed_mem, v));
                        }
                        assert forall|p: int| #[trigger]
                            earlier.frame_set().contains(p) implies mem.page(p) == pushed_mem.page(
                            p,
                        ) by {
                            assert(old(self).area_frames().contains(p));
                            assert(pushed_mem.contains(p));
                        }
                        earlier.lemma_contents_stable(&pushed_mem, mem);
                    }
                }
            },
            MapType::Direct => {},
        }
        Ok(())
    }

    /// A copy of the address space `user_space`, which does not have the
    /// trampoline page in an area: a space with the trampoline, mapped to
    /// the page of `strampoline`, and for each area of `user_space` an area
    /// of the same pages, permissions and strategy. Every `Framed` area has
    /// frames of its own, with the contents of the frames of the area of
    /// `user_space`.
    ///
    /// On `Err` the pool ran out of frames: all frames that were taken are
    /// free again.
    pub fn from_existed_user(
        mem: &mut PhysMemory,
        allocator: &mut BuddyFrameAllocator,
        user_space: &MemorySpace,
        strampoline: u64,
    ) -> (r: Result<MemorySpace, OutOfFrames>)
        requires
            user_space.inv(old(mem), old(allocator)),
            !user_space.covered(TRAMPOLINE_VPN),
            page_offset_of(strampoline) == 0,
        ensures
            user_space.inv(final(mem), final(allocator)),
            final(allocator).begin() == old(allocator).begin(),
            final(allocator).end() == old(allocator).end(),
            final(mem).same_except(old(mem), old(allocator).free()),
            forall|v: u64| #[trigger] user_space.find(final(mem), v)
                == user_space.find(old(mem), v),
            old(allocator).free().len() >= 3 + 3 * pages_in(
                user_space.areas(),
                user_space.areas().len() as int,
            ) ==> r is Ok,
            match r {
                Ok(space) => {
                    &&& space.inv(final(mem), final(allocator))
                    &&& took_frames(
                        Set::<int>::empty(),
                        space.owned(),
                        old(mem),
                        final(mem),
                        old(allocator),
                        final(allocator),
                    )
                    &&& space.owned().disjoint(user_space.owned())
                    &&& !space.covered(TRAMPOLINE_VPN)
                    &&& space.areas().len() == user_space.areas().len()
                    &&& forall|i: int|
                        0 <= i < space.areas().len() ==> (#[trigger] space.areas()[i]).same_shape(
                            &user_space.areas()[i],
                        )
                    &&& forall|i: int|
                        0 <= i < space.areas().len()
                            && (#[trigger] space.areas()[i]).spec_map_type()
                            is Framed ==> space.areas()[i].contents(final(mem))
                            == user_space.areas()[i].contents(old(mem))
                    &&& space.find(final(mem), TRAMPOLINE_VPN)
                        == Some(trampoline_entry(strampoline))
                },
                Err(_) => final(allocator).free() == old(allocator).free(),
            },
    {
        proof {
            allocator.lemma_free_in_window();
            user_space.lemma_owned_in_use(mem, allocator);
            lemma_pages_in(user_space.areas(), 0, user_space.areas().len() as int);
        }
        let mut space = match MemorySpace::new_bare(mem, allocator) {
            Some(space) => space,
            None => {
                return Err(OutOfFrames);
            },
        };
        let ghost bare = space;
        let ghost bare_mem = *mem;
        let ghost bare_allocator = *allocator;
        proof {
            allocator.lemma_free_in_window();
            space.table().lemma_missing_tables(mem, TRAMPOLINE_VPN);
            assert forall|p: int| #[trigger] user_space.owned().contains(p) implies mem.page(p)
                == old(mem).page(p) && allocator.in_use(p) && !space.owned().contains(p) by {
                assert(old(allocator).in_use(p));
                assert(mem.contains(p));
                if space.owned().contains(p) {
                    assert(space.owned().difference(Set::<int>::empty()).contains(p));
                }
            }
            user_space.lemma_stable(old(mem), old(allocator), mem, allocator);
        }
        let installed = space.map_trampoline(mem, allocator, strampoline);
        proof {
            lemma_took_frames_twice(
                Set::<int>::empty(),
                bare.owned(),
                space.owned(),
                old(mem),
                &bare_mem,
                mem,
                old(allocator),
                &bare_allocator,
                allocator,
            );
            allocator.lemma_free_in_window();
            assert forall|p: int| #[trigger] user_space.owned().contains(p) implies mem.page(p)
                == old(mem).page(p) && allocator.in_use(p) && !space.owned().contains(p) by {
                assert(old(allocator).in_use(p));
                assert(mem.contains(p));
                if space.owned().contains(p) {
                    assert(space.owned().difference(Set::<int>::empty()).contains(p));
                }
            }
            user_space.lemma_stable(old(mem), old(allocator), mem, allocator);
        }
        if installed.is_err() {
            space.release(mem, allocator);
            proof {
                assert(allocator.free() =~= old(allocator).free());
                user_space.lemma_stable(old(mem), old(allocator), mem, allocator);
            }
            return Err(OutOfFrames);
        }
        let mut i: usize = 0;
        while i < user_space.areas.len()
            invariant
                i <= user_space.areas().len(),
                user_space.inv(old(mem), old(allocator)),
                !user_space.covered(TRAMPOLINE_VPN),
                user_space.inv(mem, allocator),
                space.inv(mem, allocator),
                space.owned().disjoint(user_space.owned()),
                took_frames(
                    Set::<int>::empty(),
                    space.owned(),
                    old(mem),
                    mem,
                    old(allocator),
                    allocator,
                ),
                forall|p: int| #[trigger]
                    user_space.owned().contains(p) ==> mem.page(p) == old(mem).page(p),
                forall|v: u64| #[trigger] user_space.find(mem, v) == user_space.find(old(mem), v),
                space.areas().len() == i,
                forall|j: int|
                    0 <= j < i ==> (#[trigger] space.areas()[j]).same_shape(&user_space.areas()[j]),
                forall|j: int|
                    0 <= j < i && (#[trigger] space.areas()[j]).spec_map_type() is Framed
                        ==> space.areas()[j].contents(mem) == user_space.areas()[j].contents(
                        old(mem),
                    ),
                space.find(mem, TRAMPOLINE_VPN) == Some(trampoline_entry(strampoline)),
                allocator.free().finite(),
                old(allocator).free().finite(),
                allocator.free().len() >= old(allocator).free().len() - 3 - 3 * pages_in(
                    user_space.areas(),
                    i as int,
                ),
            decreases user_space.areas().len() - i,
        {
            let ghost step_space = space;
            let ghost step_mem = *mem;
            let ghost step_allocator = *allocator;
            proof {
                lemma_pages_in(user_space.areas(), i + 1, user_space.areas().len() as int);
                assert(pages_in(user_space.areas(), i + 1) == pages_in(
                    user_space.areas(),
                    i as int,
                ) + user_space.areas()[i as int].page_count());
                assert(user_space.areas()[i as int].covers(TRAMPOLINE_VPN) ==> user_space.covered(
                    TRAMPOLINE_VPN,
                ));
            }
            let cloned = space.clone_area(mem, allocator, user_space, i);
            proof {
                lemma_took_frames_twice(
                    Set::<int>::empty(),
                    step_space.owned(),
                    space.owned(),
                    old(mem),
                    &step_mem,
                    mem,
                    old(allocator),
                    &step_allocator,
                    allocator,
                );
                allocator.lemma_free_in_window();
                assert forall|v: u64| #[trigger]
                    user_space.find(mem, v) == user_space.find(old(mem), v) by {
                    assert(user_space.find(mem, v) == user_space.find(&step_mem, v));
                }
                user_space.lemma_contents_stable(old(mem), old(allocator), &step_mem);
            }
            if cloned.is_err() {
                space.release(mem, allocator);
                proof {
                    assert(allocator.free() =~= old(allocator).free());
                    user_space.lemma_owned_in_use(old(mem), old(allocator));
                    user_space.lemma_stable(old(mem), old(allocator), mem, allocator);
                }
                return Err(OutOfFrames);
            }
            i = i + 1;
        }
        proof {
            if space.covered(TRAMPOLINE_VPN) {
                let j = choose|j: int|
                    0 <= j < space.areas().len() && (#[trigger] space.areas()[j]).covers(
                        TRAMPOLINE_VPN,
                    );
                assert(space.areas()[j].same_shape(&user_space.areas()[j]));
                assert(user_space.areas()[j].covers(TRAMPOLINE_VPN));
            }
        }
        Ok(space)
    }

    /// Add the `Direct` area of `region`, where the region has a page. The
    /// region shares no page with an area of the space and does not have
    /// the trampoline page.
    fn push_region(
        &mut self,
        mem: &mut PhysMemory,
        allocator: &mut BuddyFrameAllocator,
        region: Region,
    ) -> (r: Result<(), OutOfFrames>)
        requires
            old(self).inv(old(mem), old(allocator)),
            !(region_start(region@) <= TRAMPOLINE_VPN < region_end(region@)),
            region_start(region@) < region_end(region@) ==> forall|i: int|
                0 <= i < old(self).areas().len() ==> {
                    ||| ((#[trigger] old(self).areas()[i]).spec_start_vpn() < region_start(region@)
                        && old(self).areas()[i].spec_end_vpn() <= region_start(region@))
                    ||| (region_start(region@) < old(self).areas()[i].spec_start_vpn()
                        && region_end(region@) <= old(self).areas()[i].spec_start_vpn())
                },
        ensures
            final(self).inv(final(mem), final(allocator)),
            final(self).table().root() == old(self).table().root(),
            took_frames(
                old(self).owned(),
                final(self).owned(),
                old(mem),
                final(mem),
                old(allocator),
                final(allocator),
            ),
            final(self).find(final(mem), TRAMPOLINE_VPN) == old(self).find(
                old(mem),
                TRAMPOLINE_VPN,
            ),
            old(allocator).free().len() >= tables_bound(region_start(region@), region_end(region@))
                ==> r is Ok,
            final(allocator).free().len() >= old(allocator).free().len() - tables_bound(
                region_start(region@),
                region_end(region@),
            ),
            r is Err ==> final(self).areas() == old(self).areas(),
            r is Ok ==> if region_start(region@) < region_end(region@) {
                let k = old(self).rank(region_start(region@));
                &&& 0 <= k <= old(self).areas().len()
                &&& final(self).areas() == old(self).areas().insert(k, final(self).areas()[k])
                &&& area_of_region(final(self).areas()[k], region@)
            } else {
                final(self).areas() == old(self).areas() && *final(mem) == *old(mem)
                    && *final(allocator) == *old(allocator)
            },
    {
        reveal(region_start);
        reveal(region_end);
        let area = VmArea::new(
            VirtAddr::from(region.start),
            VirtAddr::from(region.end),
            MapType::Direct,
            region.perm,
        );
        if area.start_vpn().0 >= area.end_vpn().0 {
            proof {
                self.lemma_owned_in_use(mem, allocator);
                allocator.lemma_free_in_window();
                assert(allocator.free() =~= allocator.free().difference(self.owned()));
            }
            return Ok(());
        }
        proof {
            assert(area.spec_end_vpn() <= VPN_LIMIT);
        }
        self.push(mem, allocator, area, None)
    }

    /// The regions of the kernel space.
    fn regions_of(layout: &KernelLayout, mmio: &[(u64, u64)]) -> (r: Vec<Region>)
        requires
            forall|k: int| 0 <= k < mmio@.len() ==> (#[trigger] mmio@[k]).0 + mmio@[k].1
                <= u64::MAX,
        ensures
            r@.len() == kernel_regions(*layout, mmio@).len(),
            forall|k: int| 0 <= k < r@.len() ==> (#[trigger] r@[k])@
                == kernel_regions(*layout, mmio@)[k],
    {
        reveal(kernel_regions);
        assert(MAP_R | MAP_X == 0x0a && MAP_R | MAP_W == 0x06) by (bit_vector);
        assert(0x0au8 & !0x1eu8 == 0 && 0x02u8 & !0x1eu8 == 0 && 0x06u8 & !0x1eu8 == 0)
            by (bit_vector);
        let read_execute = MapPermission::from_bits(MAP_R | MAP_X).unwrap();
        let read = MapPermission::from_bits(MAP_R).unwrap();
        let read_write = MapPermission::from_bits(MAP_R | MAP_W).unwrap();
        let mut regions: Vec<Region> = Vec::new();
        regions.push(Region { start: layout.stext, end: layout.etext, perm: read_execute });
        regions.push(Region { start: layout.srodata, end: layout.erodata, perm: read });
        regions.push(Region { start: layout.sdata, end: layout.edata, perm: read_write });
        regions.push(Region { start: layout.sstack, end: layout.estack, perm: read_write });
        regions.push(Region { start: layout.sbss, end: layout.ebss, perm: read_write });
        regions.push(
            Region { start: layout.ekernel, end: crate::config::MEMORY_END, perm: read_write },
        );
        let mut k: usize = 0;
        while k < mmio.len()
            invariant
                k <= mmio@.len(),
                read_write@ == 0x06,
                regions@.len() == 6 + k,
                forall|j: int|
                    0 <= j < mmio@.len() ==> (#[trigger] mmio@[j]).0 + mmio@[j].1 <= u64::MAX,
                forall|j: int|
                    0 <= j < regions@.len() ==> (#[trigger] regions@[j])@ == kernel_regions(
                        *layout,
                        mmio@,
                    )[j],
            decreases mmio@.len() - k,
        {
            reveal(kernel_regions);
            let window = mmio[k];
            regions.push(Region { start: window.0, end: window.0 + window.1, perm: read_write });
            k = k + 1;
        }
        regions
    }

    /// First page of a region, and the page after its last one.
    fn region_pages(region: &Region) -> (r: (u64, u64))
        ensures
            r.0 == region_start(region@),
            r.1 == region_end(region@),
    {
        reveal(region_start);
        reveal(region_end);
        (VirtAddr::from(region.start).floor().0, VirtAddr::from(region.end).ceil().0)
    }

    /// Whether the regions can be mapped side by side.
    fn regions_are_apart(regions: &Vec<Region>) -> (r: bool)
        ensures
            r == regions_apart(region_views(regions@)),
    {
        let ghost views = region_views(regions@);
        let mut k: usize = 0;
        while k < regions.len()
            invariant
                k <= regions@.len(),
                views == region_views(regions@),
                forall|b: int|
                    0 <= b < k ==> !(region_start(#[trigger] views[b]) <= TRAMPOLINE_VPN
                        < region_end(views[b])),
                forall|a: int, b: int|
                    0 <= a < b < k && region_start(views[a]) < region_end(views[a])
                        && region_start(views[b]) < region_end(views[b]) ==> region_end(
                        #[trigger] views[a],
                    ) <= region_start(#[trigger] views[b]) || region_end(views[b])
                        <= region_start(views[a]),
            decreases regions@.len() - k,
        {
            let (start, end) = Self::region_pages(&regions[k]);
            assert(views[k as int] == regions@[k as int]@);
            if start <= TRAMPOLINE_VPN && TRAMPOLINE_VPN < end {
                return false;
            }
            if start < end {
                let mut j: usize = 0;
                while j < k
                    invariant
                        j <= k < regions@.len(),
                        views == region_views(regions@),
                        start == region_start(views[k as int]),
                        end == region_end(views[k as int]),
                        start < end,
                        forall|a: int|
                            0 <= a < j && region_start(views[a]) < region_end(views[a])
                                ==> region_end(#[trigger] views[a]) <= start || end
                                <= region_start(views[a]),
                    decreases k - j,
                {
                    let (other_start, other_end) = Self::region_pages(&regions[j]);
                    assert(views[j as int] == regions@[j as int]@);
                    if other_start < other_end && !(other_end <= start || end <= other_start) {
                        return false;
                    }
                    j = j + 1;
                }
            }
            k = k + 1;
        }
        true
    }

    /// Whether the kernel space can be built for `layout` and `mmio`: every
    /// window of `mmio` ends within 64 bits, and the regions of the kernel
    /// space can be mapped side by side.
    pub fn kernel_layout_ok(layout: &KernelLayout, mmio: &[(u64, u64)]) -> (r: bool)
        ensures
            r == ((forall|k: int|
                0 <= k < mmio@.len() ==> (#[trigger] mmio@[k]).0 + mmio@[k].1 <= u64::MAX)
                && regions_apart(kernel_regions(*layout, mmio@))),
    {
        let mut k: usize = 0;
        while k < mmio.len()
            invariant
                k <= mmio@.len(),
                forall|j: int| 0 <= j < k ==> (#[trigger] mmio@[j]).0 + mmio@[j].1 <= u64::MAX,
            decreases mmio@.len() - k,
        {
            let window = mmio[k];
            if window.0.checked_add(window.1).is_none() {
                return false;
            }
            k = k + 1;
        }
        let regions = Self::regions_of(layout, mmio);
        proof {
            assert(region_views(regions@) =~= kernel_regions(*layout, mmio@));
        }
        Self::regions_are_apart(&regions)
    }

    /// The kernel address space: the trampoline, mapped to the page of
    /// `layout.strampoline`, and a `Direct` area for each region of
    /// `kernel_regions` that has a page.
    ///
    /// On `Err` the pool ran out of frames: all frames that were taken are
    /// free again.
    pub fn new_kernel(
        mem: &mut PhysMemory,
        allocator: &mut BuddyFrameAllocator,
        layout: &KernelLayout,
        mmio: &[(u64, u64)],
    ) -> (r: Result<MemorySpace, OutOfFrames>)
        requires
            old(mem).backs(old(allocator)),
            page_offset_of(layout.strampoline) == 0,
            forall|k: int| 0 <= k < mmio@.len() ==> (#[trigger] mmio@[k]).0 + mmio@[k].1
                <= u64::MAX,
            regions_apart(kernel_regions(*layout, mmio@)),
        ensures
            final(mem).backs(final(allocator)),
            final(allocator).begin() == old(allocator).begin(),
            final(allocator).end() == old(allocator).end(),
            final(mem).same_except(old(mem), old(allocator).free()),
            old(allocator).free().len() >= 3 + tables_of_regions(
                kernel_regions(*layout, mmio@),
                kernel_regions(*layout, mmio@).len() as int,
            ) ==> r is Ok,
            match r {
                Ok(space) => {
                    &&& space.inv(final(mem), final(allocator))
                    &&& took_frames(
                        Set::<int>::empty(),
                        space.owned(),
                        old(mem),
                        final(mem),
                        old(allocator),
                        final(allocator),
                    )
                    &&& !space.covered(TRAMPOLINE_VPN)
                    &&& areas_of_regions(
                        space.areas(),
                        kernel_regions(*layout, mmio@),
                        kernel_regions(*layout, mmio@).len() as int,
                    )
                    &&& space.find(final(mem), TRAMPOLINE_VPN)
                        == Some(trampoline_entry(layout.strampoline))
                },
                Err(_) => final(allocator).free() == old(allocator).free(),
            },
    {
        let regions = Self::regions_of(layout, mmio);
        let ghost wanted = kernel_regions(*layout, mmio@);
        let strampoline = layout.strampoline;
        proof {
            allocator.lemma_free_in_window();
            lemma_tables_of_regions(wanted, 0, wanted.len() as int);
        }
        let mut space = match MemorySpace::new_bare(mem, allocator) {
            Some(space) => space,
            None => {
                return Err(OutOfFrames);
            },
        };
        let ghost bare = space;
        let ghost bare_mem = *mem;
        let ghost bare_allocator = *allocator;
        proof {
            allocator.lemma_free_in_window();
            space.table().lemma_missing_tables(mem, TRAMPOLINE_VPN);
        }
        let installed = space.map_trampoline(mem, allocator, strampoline);
        proof {
            lemma_took_frames_twice(
                Set::<int>::empty(),
                bare.owned(),
                space.owned(),
                old(mem),
                &bare_mem,
                mem,
                old(allocator),
                &bare_allocator,
                allocator,
            );
            allocator.lemma_free_in_window();
        }
        if installed.is_err() {
            space.release(mem, allocator);
            proof {
                assert(allocator.free() =~= old(allocator).free());
            }
            return Err(OutOfFrames);
        }
        proof {
            lemma_no_areas_of_regions(space.areas(), wanted);
        }
        let mut n: usize = 0;
        while n < regions.len()
            invariant
                n <= wanted.len(),
                wanted == kernel_regions(*layout, mmio@),
                regions@.len() == wanted.len(),
                forall|k: int| 0 <= k < regions@.len() ==> (#[trigger] regions@[k])@ == wanted[k],
                regions_apart(wanted),
                space.inv(mem, allocator),
                took_frames(
                    Set::<int>::empty(),
                    space.owned(),
                    old(mem),
                    mem,
                    old(allocator),
                    allocator,
                ),
                areas_of_regions(space.areas(), wanted, n as int),
                space.find(mem, TRAMPOLINE_VPN) == Some(trampoline_entry(strampoline)),
                allocator.free().finite(),
                old(allocator).free().finite(),
                allocator.free().len() >= old(allocator).free().len() - 3 - tables_of_regions(
                    wanted,
                    n as int,
                ),
            decreases wanted.len() - n,
        {
            let region = regions[n];
            let ghost step_space = space;
            let ghost step_mem = *mem;
            let ghost step_allocator = *allocator;
            proof {
                assert(region@ == wanted[n as int]);
                lemma_tables_of_regions(wanted, n + 1, wanted.len() as int);
                assert(tables_of_regions(wanted, n + 1) == tables_of_regions(wanted, n as int)
                    + tables_bound(region_start(wanted[n as int]), region_end(wanted[n as int])));
                if region_start(region@) < region_end(region@) {
                    lemma_region_fits(space.areas(), wanted, n as int);
                }
            }
            let pushed = space.push_region(mem, allocator, region);
            proof {
                lemma_took_frames_twice(
                    Set::<int>::empty(),
                    step_space.owned(),
                    space.owned(),
                    old(mem),
                    &step_mem,
                    mem,
                    old(allocator),
                    &step_allocator,
                    allocator,
                );
                allocator.lemma_free_in_window();
            }
            if pushed.is_err() {
                space.release(mem, allocator);
                proof {
                    assert(allocator.free() =~= old(allocator).free());
                }
                return Err(OutOfFrames);
            }
            proof {
                lemma_areas_of_regions_step(
                    step_space.areas(),
                    space.areas(),
                    wanted,
                    n as int,
                    step_space.rank(region_start(region@)),
                );
            }
            n = n + 1;
        }
        proof {
            lemma_regions_leave_trampoline(space.areas(), wanted);
        }
        Ok(space)
    }

    /// A view of the kernel space for reading: a space whose page table is
    /// a view of the page table of `kernel_space`, with areas of the same
    /// pages, permissions and strategy. The view owns no frame and finds
    /// what `kernel_space` finds.
    pub fn kernel_copy(kernel_space: &MemorySpace) -> (r: Self)
        ensures
            r.table().owned() == Set::<int>::empty(),
            r.area_frames() == Set::<int>::empty(),
            r.table().root() == kernel_space.table().root() % 0x1000_0000_0000,
            r.areas().len() == kernel_space.areas().len(),
            forall|i: int|
                0 <= i < r.areas().len() ==> (#[trigger] r.areas()[i]).same_shape(
                    &kernel_space.areas()[i],
                ),
    {
        let page_table = PageTable::from_satp(kernel_satp(kernel_space));
        let mut areas = AreaMap::new();
        let count = kernel_space.areas.len();
        let mut i: usize = 0;
        while i < count
            invariant
                i <= count == kernel_space.areas@.len(),
                areas@.len() == i,
                forall|j: int|
                    0 <= j < i ==> (#[trigger] areas@[j]).same_shape(&kernel_space.areas@[j])
                        && areas@[j].frame_set() == Set::<int>::empty(),
                forall|j: int, k: int|
                    0 <= j < k < count ==> (#[trigger] kernel_space.areas@[j]).spec_start_vpn() != (
                    #[trigger] kernel_space.areas@[k]).spec_start_vpn(),
            decreases count - i,
        {
            let area = VmArea::from_another(kernel_space.areas.at(i));
            let ghost before = areas@;
            areas.insert(i, area);
            proof {
                assert(areas@ =~= before.push(area));
            }
            i = i + 1;
        }
        let r = MemorySpace { page_table, areas };
        proof {
            assert(r.area_frames() =~= Set::<int>::empty());
            kernel_space.table().lemma_root_u64();
            let root = kernel_space.table().root() as u64;
            assert((0x8000_0000_0000_0000u64 | root) % 0x1000_0000_0000 == root % 0x1000_0000_0000)
                by (bit_vector);
        }
        r
    }

    /// Number of areas of the space that start before page `start`: the
    /// position at which an area that starts at `start` joins the others.
    pub open spec fn rank(&self, start: u64) -> int {
        rank_in(self.areas(), start)
    }

    /// Install the trampoline: map the trampoline page, which must not be
    /// mapped, to the page of the physical address `strampoline`, readable
    /// and executable. The page joins no area. `Err` exactly when the pool
    /// has fewer free frames than tables are missing on the way.
    pub fn map_trampoline(
        &mut self,
        mem: &mut PhysMemory,
        allocator: &mut BuddyFrameAllocator,
        strampoline: u64,
    ) -> (r: Result<(), OutOfFrames>)
        requires
            old(self).inv(old(mem), old(allocator)),
            old(self).find(old(mem), TRAMPOLINE_VPN) is None,
            page_offset_of(strampoline) == 0,
        ensures
            final(self).inv(final(mem), final(allocator)),
            final(self).areas() == old(self).areas(),
            final(self).table().root() == old(self).table().root(),
            took_frames(
                old(self).owned(),
                final(self).owned(),
                old(mem),
                final(mem),
                old(allocator),
                final(allocator),
            ),
            r is Ok <==> old(allocator).free().len() >= old(self).table().missing_tables(
                old(mem),
                TRAMPOLINE_VPN,
            ),
            r is Ok ==> final(self).find(final(mem), TRAMPOLINE_VPN)
                == Some(trampoline_entry(strampoline)),
            r is Ok ==> final(allocator).free().len() == old(allocator).free().len()
                - old(self).table().missing_tables(old(mem), TRAMPOLINE_VPN),
            r is Err ==> final(self).find(final(mem), TRAMPOLINE_VPN) is None,
            forall|v: u64|
                v as int % 0x800_0000 != TRAMPOLINE_VPN ==> #[trigger] final(self).find(
                    final(mem),
                    v,
                ) == old(self).find(old(mem), v),
    {
        let vpn: VirtPageNum = VirtAddr::from(crate::config::TRAMPOLINE).into();
        let ppn: PhysPageNum = PhysAddr::from(strampoline).into();
        let flags = PTEFlags::from_bits(PTE_R | PTE_X).unwrap();
        assert(PTE_R | PTE_X == TRAMPOLINE_FLAGS) by (bit_vector);
        assert(vpn.0 == TRAMPOLINE_VPN);
        let ghost before = self.page_table;
        let r = self.page_table.map(mem, allocator, vpn, ppn, flags);
        proof {
            old(self).lemma_owned_in_use(old(mem), old(allocator));
            assert(self.areas() == old(self).areas());
            assert(before == old(self).table());
            lemma_took_frames_more(
                before.owned(),
                self.page_table.owned(),
                self.area_frames(),
                old(mem),
                mem,
                old(allocator),
                allocator,
            );
            assert forall|i: int, v: u64|
                0 <= i < self.areas().len() && (#[trigger] self.areas()[i]).covers(
                    v,
                ) implies #[trigger] self.page_table.find(mem, v) == before.find(old(mem), v) by {
                assert(old(self).areas()[i].fully_mapped(&before, old(mem), old(allocator)));
                assert(old(self).areas()[i].page_mapped(&before, old(mem), v));
            }
            lemma_areas_stable(
                old(self).areas(),
                &before,
                old(mem),
                old(allocator),
                &self.page_table,
                mem,
                allocator,
            );
            assert forall|v: u64|
                v < VPN_LIMIT && (#[trigger] self.find(mem, v)) is Some implies v == TRAMPOLINE_VPN
                || self.covered(v) by {
                if v != TRAMPOLINE_VPN {
                    assert(self.find(mem, v) == old(self).find(old(mem), v));
                    assert(old(self).covered(v));
                }
            }
        }
        r
    }
}

/// Whether there is an entry and it has none of the flags `flags`.
fn lacks(entry: Option<PageTableEntry>, flags: u8) -> (r: bool)
    ensures
        r == entry_lacks(entry, flags),
{
    match entry {
        Some(e) => e.flags().bits() & flags == 0,
        None => false,
    }
}

/// Whether the kernel space `kernel_space`, built for `layout`, keeps the
/// middle of `.text` and of `.rodata` from being written and the middle of
/// `.data` from being executed: each of the three pages is mapped, the
/// first two without W, the third without X.
pub fn remap_test(kernel_space: &MemorySpace, mem: &PhysMemory, layout: &KernelLayout) -> (r: bool)
    requires
        mem.wf(),
        layout.stext + layout.etext <= u64::MAX,
        layout.srodata + layout.erodata <= u64::MAX,
        layout.sdata + layout.edata <= u64::MAX,
    ensures
        r == (entry_lacks(kernel_space.find(mem, middle_page(layout.stext, layout.etext)), PTE_W)
            && entry_lacks(
            kernel_space.find(mem, middle_page(layout.srodata, layout.erodata)),
            PTE_W,
        ) && entry_lacks(kernel_space.find(mem, middle_page(layout.sdata, layout.edata)), PTE_X)),
{
    let mid_text: VirtAddr = VirtAddr::from((layout.stext + layout.etext) / 2);
    let mid_rodata: VirtAddr = VirtAddr::from((layout.srodata + layout.erodata) / 2);
    let mid_data: VirtAddr = VirtAddr::from((layout.sdata + layout.edata) / 2);
    let text = lacks(kernel_space.find_pte(mem, mid_text.floor()), PTE_W);
    let rodata = lacks(kernel_space.find_pte(mem, mid_rodata.floor()), PTE_W);
    let data = lacks(kernel_space.find_pte(mem, mid_data.floor()), PTE_X);
    text && rodata && data
}

/// `count` zero bytes.
pub open spec fn zero_bytes(count: int) -> Seq<u8> {
    Seq::new(count as nat, |i: int| 0u8)
}

/// Whether one of the areas has page `vpn`.
pub open spec fn covered_by(areas: Seq<VmArea>, vpn: u64) -> bool {
    exists|i: int| 0 <= i < areas.len() && (#[trigger] areas[i]).covers(vpn)
}

/// Whether an area with the range `start .. end` can join `areas`: each of
/// them starts and ends before `start`, or starts after `start` and not
/// before `end`.
pub open spec fn fits_in(areas: Seq<VmArea>, start: u64, end: u64) -> bool {
    forall|i: int|
        0 <= i < areas.len() ==> {
            ||| ((#[trigger] areas[i]).spec_start_vpn() < start && areas[i].spec_end_vpn() <= start)
            ||| (start < areas[i].spec_start_vpn() && end <= areas[i].spec_start_vpn())
        }
}

/// The areas are ordered by their first page, and each ends before the next
/// one starts.
pub open spec fn areas_ordered(areas: Seq<VmArea>) -> bool {
    forall|i: int, j: int|
        0 <= i < j < areas.len() ==> (#[trigger] areas[i]).spec_start_vpn() < (
        #[trigger] areas[j]).spec_start_vpn() && areas[i].spec_end_vpn()
            <= areas[j].spec_start_vpn()
}

/// A page table and areas make a sound space: the page table is sound; the
/// areas are ordered, each fully mapped, and no two share a frame; and every
/// page that is mapped is a page of an area or the trampoline page.
pub open spec fn sound(
    table: &PageTable,
    areas: Seq<VmArea>,
    mem: &PhysMemory,
    allocator: &BuddyFrameAllocator,
) -> bool {
    &&& table.inv(mem, allocator)
    &&& areas_ordered(areas)
    &&& forall|i: int|
        0 <= i < areas.len() ==> (#[trigger] areas[i]).fully_mapped(table, mem, allocator)
    &&& forall|i: int, j: int|
        0 <= i < j < areas.len() ==> (#[trigger] areas[i]).frame_set().disjoint(
            (#[trigger] areas[j]).frame_set(),
        )
    &&& forall|v: u64|
        v < VPN_LIMIT && (#[trigger] table.find(mem, v)) is Some ==> v == TRAMPOLINE_VPN
            || covered_by(areas, v)
}

/// Number of areas in `areas` that start before page `start`.
pub open spec fn rank_in(areas: Seq<VmArea>, start: u64) -> int
    decreases areas.len(),
{
    if areas.len() == 0 {
        0
    } else {
        rank_in(areas.drop_last(), start) + if areas.last().spec_start_vpn() < start {
            1int
        } else {
            0int
        }
    }
}

/// Where the areas before position `k` start before `start` and the others
/// do not, `k` is the rank of `start`.
pub proof fn lemma_rank(areas: Seq<VmArea>, start: u64, k: int)
    requires
        0 <= k <= areas.len(),
        forall|i: int| 0 <= i < k ==> (#[trigger] areas[i]).spec_start_vpn() < start,
        forall|i: int| k <= i < areas.len() ==> (#[trigger] areas[i]).spec_start_vpn() >= start,
    ensures
        rank_in(areas, start) == k,
    decreases areas.len(),
{
    if areas.len() > 0 {
        let shorter = areas.drop_last();
        if k == areas.len() {
            assert(areas[k - 1].spec_start_vpn() < start);
            lemma_rank(shorter, start, k - 1);
        } else {
            assert(areas[areas.len() - 1].spec_start_vpn() >= start);
            lemma_rank(shorter, start, k);
        }
    }
}

/// The frames of the areas in `areas`.
pub open spec fn frames_of_areas(areas: Seq<VmArea>) -> Set<int> {
    Set::new(
        |p: int| exists|i: int| 0 <= i < areas.len()
            && (#[trigger] areas[i]).frame_set().contains(p),
    )
}

/// Areas that are fully mapped stay so over a step that leaves what the page
/// table finds for their pages, keeps the page table's frames, takes new
/// frames from the free ones only, and keeps the frames of the areas in
/// use.
pub proof fn lemma_areas_stable(
    areas: Seq<VmArea>,
    table: &PageTable,
    mem: &PhysMemory,
    allocator: &BuddyFrameAllocator,
    new_table: &PageTable,
    new_mem: &PhysMemory,
    new_allocator: &BuddyFrameAllocator,
)
    requires
        forall|i: int|
            0 <= i < areas.len() ==> (#[trigger] areas[i]).fully_mapped(table, mem, allocator),
        forall|i: int, v: u64|
            0 <= i < areas.len() && (#[trigger] areas[i]).covers(v) ==> #[trigger] new_table.find(
                new_mem,
                v,
            ) == table.find(mem, v),
        new_table.owned().difference(table.owned()).subset_of(allocator.free()),
        forall|p: int|
            #[trigger] frames_of_areas(areas).contains(p) ==> new_allocator.in_use(p),
    ensures
        forall|i: int|
            0 <= i < areas.len() ==> (#[trigger] areas[i]).fully_mapped(
                new_table,
                new_mem,
                new_allocator,
            ),
{
    assert forall|i: int| 0 <= i < areas.len() implies (#[trigger] areas[i]).fully_mapped(
        new_table,
        new_mem,
        new_allocator,
    ) by {
        let area = areas[i];
        assert forall|p: int| #[trigger] area.frame_set().contains(p) implies new_allocator.in_use(
            p,
        ) && !new_table.owned().contains(p) by {
            assert(frames_of_areas(areas).contains(p));
            if new_table.owned().contains(p) {
                assert(new_table.owned().difference(table.owned()).contains(p));
            }
        }
        assert forall|v: u64| area.covers(v) implies #[trigger] new_table.find(new_mem, v)
            == table.find(mem, v) by {
            assert(areas[i].covers(v));
        }
        area.lemma_stable(table, mem, allocator, new_table, new_mem, new_allocator);
    }
}

/// The areas around a new one at position `k`.
pub proof fn lemma_insert_area(areas: Seq<VmArea>, k: int, area: VmArea)
    requires
        0 <= k <= areas.len(),
    ensures
        areas.insert(k, area).len() == areas.len() + 1,
        areas.insert(k, area)[k] == area,
        forall|i: int| 0 <= i < k ==> #[trigger] areas.insert(k, area)[i] == areas[i],
        forall|i: int| k < i <= areas.len() ==> #[trigger] areas.insert(k, area)[i] == areas[i - 1],
        frames_of_areas(areas.insert(k, area)) == frames_of_areas(areas).union(area.frame_set()),
        forall|v: u64|
            #[trigger] covered_by(areas.insert(k, area), v) == (covered_by(areas, v) || area.covers(
                v,
            )),
{
    let longer = areas.insert(k, area);
    assert forall|p: int| frames_of_areas(longer).contains(p) == frames_of_areas(areas).union(
        area.frame_set(),
    ).contains(p) by {
        if frames_of_areas(longer).contains(p) {
            let i = choose|i: int|
                0 <= i < longer.len() && (#[trigger] longer[i]).frame_set().contains(p);
            if i < k {
                assert(areas[i].frame_set().contains(p));
            } else if i > k {
                assert(areas[i - 1].frame_set().contains(p));
            }
        }
        if frames_of_areas(areas).contains(p) {
            let i = choose|i: int|
                0 <= i < areas.len() && (#[trigger] areas[i]).frame_set().contains(p);
            if i < k {
                assert(longer[i].frame_set().contains(p));
            } else {
                assert(longer[i + 1].frame_set().contains(p));
            }
        }
        if area.frame_set().contains(p) {
            assert(longer[k].frame_set().contains(p));
        }
    }
    assert(frames_of_areas(longer) =~= frames_of_areas(areas).union(area.frame_set()));
    assert forall|v: u64| #[trigger]
        covered_by(longer, v) == (covered_by(areas, v) || area.covers(v)) by {
        if covered_by(longer, v) {
            let i = choose|i: int| 0 <= i < longer.len() && (#[trigger] longer[i]).covers(v);
            if i < k {
                assert(areas[i].covers(v));
            } else if i > k {
                assert(areas[i - 1].covers(v));
            }
        }
        if covered_by(areas, v) {
            let i = choose|i: int| 0 <= i < areas.len() && (#[trigger] areas[i]).covers(v);
            if i < k {
                assert(longer[i].covers(v));
            } else {
                assert(longer[i + 1].covers(v));
            }
        }
        if area.covers(v) {
            assert(longer[k].covers(v));
        }
    }
}

/// The areas around the place of a removed one.
pub proof fn lemma_remove_area(areas: Seq<VmArea>, k: int)
    requires
        0 <= k < areas.len(),
    ensures
        areas.remove(k).len() == areas.len() - 1,
        forall|i: int| 0 <= i < k ==> #[trigger] areas.remove(k)[i] == areas[i],
        forall|i: int| k <= i < areas.len() - 1 ==> #[trigger] areas.remove(k)[i] == areas[i + 1],
        frames_of_areas(areas) == frames_of_areas(areas.remove(k)).union(areas[k].frame_set()),
        forall|v: u64|
            #[trigger] covered_by(areas, v) == (covered_by(areas.remove(k), v) || areas[k].covers(
                v,
            )),
{
    let shorter = areas.remove(k);
    assert(shorter.insert(k, areas[k]) =~= areas);
    lemma_insert_area(shorter, k, areas[k]);
}

/// A sound space with one more area is sound, where the area was mapped in
/// a step that took its frames and those of new tables from the free
/// frames, and changed nothing that the page table finds outside the
/// area, and where the area stands in its place among the others.
pub proof fn lemma_sound_insert(
    table: &PageTable,
    areas: Seq<VmArea>,
    mem: &PhysMemory,
    allocator: &BuddyFrameAllocator,
    new_table: &PageTable,
    new_mem: &PhysMemory,
    new_allocator: &BuddyFrameAllocator,
    area: VmArea,
    k: int,
)
    requires
        sound(table, areas, mem, allocator),
        0 <= k <= areas.len(),
        forall|i: int|
            0 <= i < k ==> (#[trigger] areas[i]).spec_start_vpn() < area.spec_start_vpn()
                && areas[i].spec_end_vpn() <= area.spec_start_vpn(),
        forall|i: int|
            k <= i < areas.len() ==> area.spec_start_vpn() < (#[trigger] areas[i]).spec_start_vpn()
                && area.spec_end_vpn() <= areas[i].spec_start_vpn(),
        new_table.inv(new_mem, new_allocator),
        area.fully_mapped(new_table, new_mem, new_allocator),
        forall|v: u64|
            !area.covers((v % VPN_LIMIT) as u64) ==> #[trigger] new_table.find(new_mem, v)
                == table.find(mem, v),
        new_table.owned().difference(table.owned()).subset_of(allocator.free()),
        area.frame_set().subset_of(allocator.free()),
        new_allocator.free().subset_of(allocator.free()),
        new_allocator.begin() == allocator.begin(),
        new_allocator.end() == allocator.end(),
    ensures
        sound(new_table, areas.insert(k, area), new_mem, new_allocator),
{
    let longer = areas.insert(k, area);
    lemma_insert_area(areas, k, area);
    assert forall|i: int, v: u64|
        0 <= i < areas.len() && (#[trigger] areas[i]).covers(v) implies #[trigger] new_table.find(
        new_mem,
        v,
    ) == table.find(mem, v) by {
        assert(areas[i].fully_mapped(table, mem, allocator));
        assert(v < VPN_LIMIT);
        assert(!area.covers(v));
    }
    assert forall|p: int| #[trigger] frames_of_areas(areas).contains(p)
        implies new_allocator.in_use(
        p,
    ) by {
        let i = choose|i: int|
            0 <= i < areas.len() && (#[trigger] areas[i]).frame_set().contains(p);
        assert(areas[i].fully_mapped(table, mem, allocator));
    }
    lemma_areas_stable(areas, table, mem, allocator, new_table, new_mem, new_allocator);
    assert forall|i: int| 0 <= i < longer.len() implies (#[trigger] longer[i]).fully_mapped(
        new_table,
        new_mem,
        new_allocator,
    ) by {
        if i < k {
            assert(areas[i].fully_mapped(new_table, new_mem, new_allocator));
        } else if i > k {
            assert(areas[i - 1].fully_mapped(new_table, new_mem, new_allocator));
        }
    }
    assert forall|i: int, j: int| 0 <= i < j < longer.len()
        implies (#[trigger] longer[i]).frame_set().disjoint(
    (#[trigger] longer[j]).frame_set()) by {
        if i != k && j != k {
            let i0 = if i < k {
                i
            } else {
                i - 1
            };
            let j0 = if j < k {
                j
            } else {
                j - 1
            };
            assert(areas[i0].frame_set().disjoint(areas[j0].frame_set()));
        } else {
            let other = if i == k {
                j - 1
            } else {
                i
            };
            assert(areas[other].fully_mapped(table, mem, allocator));
            assert forall|p: int| areas[other].frame_set().contains(p)
                implies !area.frame_set().contains(
            p) by {
                assert(allocator.in_use(p));
            }
        }
    }
    assert forall|i: int, j: int| 0 <= i < j < longer.len()
        implies (#[trigger] longer[i]).spec_start_vpn()
        < (#[trigger] longer[j]).spec_start_vpn() && longer[i].spec_end_vpn()
        <= longer[j].spec_start_vpn() by {
        if i != k && j != k {
            let i0 = if i < k {
                i
            } else {
                i - 1
            };
            let j0 = if j < k {
                j
            } else {
                j - 1
            };
            assert(areas[i0].spec_start_vpn() < areas[j0].spec_start_vpn());
        } else if i == k {
            assert(area.spec_start_vpn() < areas[j - 1].spec_start_vpn());
        } else {
            assert(areas[i].spec_start_vpn() < area.spec_start_vpn());
        }
    }
    assert forall|v: u64|
        v < VPN_LIMIT && (#[trigger] new_table.find(new_mem, v)) is Some implies v == TRAMPOLINE_VPN
        || covered_by(longer, v) by {
        if !area.covers(v) {
            assert(new_table.find(new_mem, v) == table.find(mem, v));
            assert(v == TRAMPOLINE_VPN || covered_by(areas, v));
        }
        assert(covered_by(longer, v) == (covered_by(areas, v) || area.covers(v)));
    }
}

/// A sound space without one of its areas is sound, where the area was
/// unmapped in a step that gave its frames back and changed nothing else
/// that the page table finds.
pub proof fn lemma_sound_remove(
    table: &PageTable,
    areas: Seq<VmArea>,
    mem: &PhysMemory,
    allocator: &BuddyFrameAllocator,
    new_table: &PageTable,
    new_mem: &PhysMemory,
    new_allocator: &BuddyFrameAllocator,
    k: int,
)
    requires
        sound(table, areas, mem, allocator),
        0 <= k < areas.len(),
        new_table.inv(new_mem, new_allocator),
        new_table.owned() == table.owned(),
        forall|v: u64| areas[k].covers(v) ==> #[trigger] new_table.find(new_mem, v) is None,
        forall|v: u64|
            !areas[k].covers((v % VPN_LIMIT) as u64) ==> #[trigger] new_table.find(new_mem, v)
                == table.find(mem, v),
        new_allocator.free() == allocator.free().union(areas[k].frame_set()),
        new_allocator.begin() == allocator.begin(),
        new_allocator.end() == allocator.end(),
    ensures
        sound(new_table, areas.remove(k), new_mem, new_allocator),
{
    let shorter = areas.remove(k);
    lemma_remove_area(areas, k);
    assert(areas[k].fully_mapped(table, mem, allocator));
    assert forall|i: int| 0 <= i < shorter.len() implies (#[trigger] shorter[i]).fully_mapped(
        table,
        mem,
        allocator,
    ) && shorter[i].frame_set().disjoint(areas[k].frame_set()) && forall|v: u64|
        shorter[i].covers(v) ==> !areas[k].covers(v) by {
        let i0 = if i < k {
            i
        } else {
            i + 1
        };
        assert(shorter[i] == areas[i0]);
        assert(areas[i0].fully_mapped(table, mem, allocator));
        if i0 < k {
            assert(areas[i0].frame_set().disjoint(areas[k].frame_set()));
            assert(areas[i0].spec_end_vpn() <= areas[k].spec_start_vpn());
        } else {
            assert(areas[k].frame_set().disjoint(areas[i0].frame_set()));
            assert(areas[k].spec_end_vpn() <= areas[i0].spec_start_vpn());
        }
    }
    assert forall|i: int, v: u64|
        0 <= i < shorter.len() && (#[trigger] shorter[i]).covers(v)
            implies #[trigger] new_table.find(
        new_mem,
        v,
    ) == table.find(mem, v) by {
        assert(shorter[i].fully_mapped(table, mem, allocator));
        assert(v < VPN_LIMIT);
        assert(!areas[k].covers(v));
    }
    assert forall|p: int| #[trigger] frames_of_areas(shorter).contains(p)
        implies new_allocator.in_use(
        p,
    ) by {
        let i = choose|i: int|
            0 <= i < shorter.len() && (#[trigger] shorter[i]).frame_set().contains(p);
        assert(shorter[i].fully_mapped(table, mem, allocator));
        assert(shorter[i].frame_set().disjoint(areas[k].frame_set()));
    }
    assert(new_table.owned().difference(table.owned()) =~= Set::<int>::empty());
    lemma_areas_stable(shorter, table, mem, allocator, new_table, new_mem, new_allocator);
    assert forall|i: int, j: int| 0 <= i < j < shorter.len()
        implies (#[trigger] shorter[i]).frame_set().disjoint(
    (#[trigger] shorter[j]).frame_set()) && shorter[i].spec_start_vpn()
        < shorter[j].spec_start_vpn() && shorter[i].spec_end_vpn()
            <= shorter[j].spec_start_vpn() by {
        let i0 = if i < k {
            i
        } else {
            i + 1
        };
        let j0 = if j < k {
            j
        } else {
            j + 1
        };
        assert(areas[i0].frame_set().disjoint(areas[j0].frame_set()));
    }
    assert forall|v: u64|
        v < VPN_LIMIT && (#[trigger] new_table.find(new_mem, v)) is Some implies v == TRAMPOLINE_VPN
        || covered_by(shorter, v) by {
        assert(!areas[k].covers(v));
        assert(new_table.find(new_mem, v) == table.find(mem, v));
        assert(covered_by(areas, v) == (covered_by(shorter, v) || areas[k].covers(v)));
    }
}

/// Number of pages of the first `count` areas.
pub open spec fn pages_in(areas: Seq<VmArea>, count: int) -> int
    decreases count,
{
    if count <= 0 {
        0
    } else {
        pages_in(areas, count - 1) + areas[count - 1].page_count()
    }
}

/// The pages of more areas are at least those of fewer.
pub proof fn lemma_pages_in(areas: Seq<VmArea>, fewer: int, more: int)
    requires
        0 <= fewer <= more <= areas.len(),
    ensures
        0 <= pages_in(areas, fewer) <= pages_in(areas, more),
    decreases more,
{
    if fewer < more {
        lemma_pages_in(areas, fewer, more - 1);
    } else if fewer > 0 {
        lemma_pages_in(areas, fewer - 1, fewer - 1);
    }
}

/// No areas are the areas of no regions.
pub proof fn lemma_no_areas_of_regions(areas: Seq<VmArea>, regions: Seq<(u64, u64, u8)>)
    requires
        areas.len() == 0,
    ensures
        areas_of_regions(areas, regions, 0),
{
    reveal(areas_of_regions);
}

/// The areas of regions that are apart do not have the trampoline page.
pub proof fn lemma_regions_leave_trampoline(areas: Seq<VmArea>, regions: Seq<(u64, u64, u8)>)
    requires
        areas_of_regions(areas, regions, regions.len() as int),
        regions_apart(regions),
    ensures
        !covered_by(areas, TRAMPOLINE_VPN),
{
    reveal(areas_of_regions);
    if covered_by(areas, TRAMPOLINE_VPN) {
        let i = choose|i: int| 0 <= i < areas.len() && (#[trigger] areas[i]).covers(TRAMPOLINE_VPN);
        let k = choose|k: int|
            0 <= k < regions.len() && area_of_region(#[trigger] areas[i], #[trigger] regions[k]);
        assert(area_of_region(areas[i], regions[k]));
    }
}

/// The next region fits between the areas of the regions before it.
pub proof fn lemma_region_fits(areas: Seq<VmArea>, regions: Seq<(u64, u64, u8)>, count: int)
    requires
        0 <= count < regions.len(),
        areas_of_regions(areas, regions, count),
        regions_apart(regions),
        region_start(regions[count]) < region_end(regions[count]),
    ensures
        forall|i: int|
            0 <= i < areas.len() ==> {
                ||| ((#[trigger] areas[i]).spec_start_vpn() < region_start(regions[count])
                    && areas[i].spec_end_vpn() <= region_start(regions[count]))
                ||| (region_start(regions[count]) < areas[i].spec_start_vpn() && region_end(
                    regions[count],
                ) <= areas[i].spec_start_vpn())
            },
{
    reveal(areas_of_regions);
    assert forall|i: int| 0 <= i < areas.len() implies {
        ||| ((#[trigger] areas[i]).spec_start_vpn() < region_start(regions[count])
            && areas[i].spec_end_vpn() <= region_start(regions[count]))
        ||| (region_start(regions[count]) < areas[i].spec_start_vpn() && region_end(
            regions[count],
        ) <= areas[i].spec_start_vpn())
    } by {
        let k = choose|k: int|
            0 <= k < count && area_of_region(#[trigger] areas[i], #[trigger] regions[k]);
        assert(area_of_region(areas[i], regions[k]));
        assert(region_end(regions[k]) <= region_start(regions[count]) || region_end(
            regions[count],
        ) <= region_start(regions[k]));
    }
}

/// The areas of the first `count` regions, with the area of the next region
/// added where that has a page, are the areas of the first `count + 1`
/// regions.
pub proof fn lemma_areas_of_regions_step(
    before: Seq<VmArea>,
    after: Seq<VmArea>,
    regions: Seq<(u64, u64, u8)>,
    count: int,
    k: int,
)
    requires
        0 <= count < regions.len(),
        areas_of_regions(before, regions, count),
        if region_start(regions[count]) < region_end(regions[count]) {
            &&& 0 <= k <= before.len()
            &&& after == before.insert(k, after[k])
            &&& area_of_region(after[k], regions[count])
        } else {
            after == before
        },
    ensures
        areas_of_regions(after, regions, count + 1),
{
    reveal(areas_of_regions);
    if region_start(regions[count]) < region_end(regions[count]) {
        lemma_insert_area(before, k, after[k]);
        assert forall|i: int| 0 <= i < after.len() implies exists|j: int|
            0 <= j < count + 1 && area_of_region(#[trigger] after[i], #[trigger] regions[j]) by {
            if i == k {
                assert(area_of_region(after[i], regions[count]));
            } else {
                let i0 = if i < k {
                    i
                } else {
                    i - 1
                };
                assert(after[i] == before[i0]);
                let j = choose|j: int|
                    0 <= j < count && area_of_region(#[trigger] before[i0], #[trigger] regions[j]);
                assert(area_of_region(after[i], regions[j]));
            }
        }
        assert forall|j: int|
            0 <= j < count + 1 && region_start(#[trigger] regions[j]) < region_end(
                regions[j],
            ) implies exists|i: int|
            0 <= i < after.len() && area_of_region(#[trigger] after[i], regions[j]) by {
            if j == count {
                assert(area_of_region(after[k], regions[j]));
            } else {
                let i0 = choose|i: int|
                    0 <= i < before.len() && area_of_region(#[trigger] before[i], regions[j]);
                let i = if i0 < k {
                    i0
                } else {
                    i0 + 1
                };
                assert(after[i] == before[i0]);
                assert(area_of_region(after[i], regions[j]));
            }
        }
    } else {
        assert forall|i: int| 0 <= i < after.len() implies exists|j: int|
            0 <= j < count + 1 && area_of_region(#[trigger] after[i], #[trigger] regions[j]) by {
            let j = choose|j: int|
                0 <= j < count && area_of_region(#[trigger] before[i], #[trigger] regions[j]);
            assert(area_of_region(after[i], regions[j]));
        }
    }
}

/// No areas are the areas of no segments.
pub proof fn lemma_no_areas_of_segments(
    areas: Seq<VmArea>,
    segments: Seq<LoadSegment>,
    image: Seq<u8>,
    mem: &PhysMemory,
)
    requires
        areas.len() == 0,
    ensures
        areas_of_segments(areas, segments, 0, image, mem),
{
    reveal(areas_of_segments);
}

/// Each of the first `count` segments has its area among `areas`.
pub proof fn lemma_area_of_segment(
    areas: Seq<VmArea>,
    segments: Seq<LoadSegment>,
    count: int,
    image: Seq<u8>,
    mem: &PhysMemory,
    k: int,
) -> (i: int)
    requires
        areas_of_segments(areas, segments, count, image, mem),
        0 <= k < count,
    ensures
        0 <= i < areas.len(),
        area_holds_segment(areas[i], segments[k], image, mem),
{
    reveal(areas_of_segments);
    assert(segment_is_loaded(areas, segments[k], image, mem));
    choose|i: int|
        0 <= i < areas.len() && area_holds_segment(#[trigger] areas[i], segments[k], image, mem)
}

/// Each of `areas` is the area of one of the first `count` segments.
pub proof fn lemma_segment_of_area(
    areas: Seq<VmArea>,
    segments: Seq<LoadSegment>,
    count: int,
    image: Seq<u8>,
    mem: &PhysMemory,
    i: int,
) -> (k: int)
    requires
        areas_of_segments(areas, segments, count, image, mem),
        0 <= i < areas.len(),
    ensures
        0 <= k < count,
        area_holds_segment(areas[i], segments[k], image, mem),
{
    reveal(areas_of_segments);
    assert(area_is_loaded(areas[i], segments, count, image, mem));
    choose|k: int|
        0 <= k < count && area_holds_segment(areas[i], #[trigger] segments[k], image, mem)
}

/// The areas of segments that can be loaded do not have the trampoline
/// page.
pub proof fn lemma_segments_leave_trampoline(
    areas: Seq<VmArea>,
    segments: Seq<LoadSegment>,
    image: Seq<u8>,
    mem: &PhysMemory,
)
    requires
        areas_of_segments(areas, segments, segments.len() as int, image, mem),
        forall|k: int|
            0 <= k < segments.len() ==> (#[trigger] segments[k]).fits(image.len() as int),
    ensures
        !covered_by(areas, TRAMPOLINE_VPN),
{
    if covered_by(areas, TRAMPOLINE_VPN) {
        let i = choose|i: int|
            0 <= i < areas.len() && (#[trigger] areas[i]).covers(TRAMPOLINE_VPN);
        let k = lemma_segment_of_area(areas, segments, segments.len() as int, image, mem, i);
        assert(segments[k].fits(image.len() as int));
    }
}

/// The areas of segments that end at page `end_vpn` or before do not have
/// page `end_vpn`.
pub proof fn lemma_segments_end(
    areas: Seq<VmArea>,
    segments: Seq<LoadSegment>,
    end_vpn: u64,
    image: Seq<u8>,
    mem: &PhysMemory,
)
    requires
        areas_of_segments(areas, segments, segments.len() as int, image, mem),
        forall|k: int| 0 <= k < segments.len() ==> (#[trigger] segments[k]).end_vpn() <= end_vpn,
    ensures
        !covered_by(areas, end_vpn),
{
    if covered_by(areas, end_vpn) {
        let i = choose|i: int| 0 <= i < areas.len() && (#[trigger] areas[i]).covers(end_vpn);
        let k = lemma_segment_of_area(areas, segments, segments.len() as int, image, mem, i);
        assert(segments[k].end_vpn() <= end_vpn);
    }
}

/// The next segment fits between the areas of the segments before it.
pub proof fn lemma_segment_fits(
    areas: Seq<VmArea>,
    segments: Seq<LoadSegment>,
    count: int,
    image: Seq<u8>,
    mem: &PhysMemory,
)
    requires
        0 <= count < segments.len(),
        areas_of_segments(areas, segments, count, image, mem),
        forall|k: int| 0 <= k < segments.len() ==> (#[trigger] segments[k]).has_page(),
        forall|j: int, k: int|
            0 <= j < k < segments.len() ==> (#[trigger] segments[j]).apart(#[trigger] segments[k]),
    ensures
        fits_in(areas, segments[count].start_vpn(), segments[count].end_vpn()),
{
    let next = segments[count];
    assert forall|i: int| 0 <= i < areas.len() implies {
        ||| ((#[trigger] areas[i]).spec_start_vpn() < next.start_vpn() && areas[i].spec_end_vpn()
            <= next.start_vpn())
        ||| (next.start_vpn() < areas[i].spec_start_vpn() && next.end_vpn()
            <= areas[i].spec_start_vpn())
    } by {
        let k = lemma_segment_of_area(areas, segments, count, image, mem, i);
        assert(segments[k].apart(segments[count]));
        assert(segments[k].has_page());
        assert(next.has_page());
    }
}

/// The areas of the first `count` segments, with the area of the next
/// segment added and the bytes of the others untouched, are the areas of
/// the first `count + 1` segments.
pub proof fn lemma_areas_of_segments_step(
    before: Seq<VmArea>,
    after: Seq<VmArea>,
    segments: Seq<LoadSegment>,
    count: int,
    k: int,
    image: Seq<u8>,
    old_mem: &PhysMemory,
    new_mem: &PhysMemory,
)
    requires
        0 <= count < segments.len(),
        areas_of_segments(before, segments, count, image, old_mem),
        0 <= k <= before.len(),
        after == before.insert(k, after[k]),
        area_holds_segment(after[k], segments[count], image, new_mem),
        forall|j: int|
            0 <= j < before.len() && (#[trigger] before[j]).spec_map_type() is Framed
                ==> before[j].contents(new_mem) == before[j].contents(old_mem),
    ensures
        areas_of_segments(after, segments, count + 1, image, new_mem),
{
    lemma_insert_area(before, k, after[k]);
    assert(before.len() == count) by {
        reveal(areas_of_segments);
    }
    assert forall|i: int| 0 <= i < after.len() implies area_is_loaded(
        #[trigger] after[i],
        segments,
        count + 1,
        image,
        new_mem,
    ) by {
        if i == k {
            assert(area_holds_segment(after[i], segments[count], image, new_mem));
        } else {
            let i0 = if i < k {
                i
            } else {
                i - 1
            };
            assert(after[i] == before[i0]);
            let j = lemma_segment_of_area(before, segments, count, image, old_mem, i0);
            assert(area_holds_segment(after[i], segments[j], image, new_mem));
        }
    }
    assert forall|j: int| 0 <= j < count + 1 implies segment_is_loaded(
        after,
        #[trigger] segments[j],
        image,
        new_mem,
    ) by {
        if j == count {
            assert(area_holds_segment(after[k], segments[j], image, new_mem));
        } else {
            let i0 = lemma_area_of_segment(before, segments, count, image, old_mem, j);
            let i = if i0 < k {
                i0
            } else {
                i0 + 1
            };
            assert(after[i] == before[i0]);
            assert(area_holds_segment(after[i], segments[j], image, new_mem));
        }
    }
    assert(areas_of_segments(after, segments, count + 1, image, new_mem)) by {
        reveal(areas_of_segments);
    }
}

} // verus!
