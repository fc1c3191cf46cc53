use kernel::address::{PhysPageNum, VirtAddr, VirtPageNum};
use kernel::frame_allocator::{dealloc_all, BuddyFrameAllocator, Frame};
use kernel::memory::PhysMemory;
use kernel::page_table::{PageTable, PTE_R, PTE_U, PTE_V, PTE_W, PTE_X};
use kernel::vm_area::{MapPermission, MapType, VmArea, MAP_R, MAP_U, MAP_W, MAP_X};

fn machine(frames: usize) -> (PhysMemory, BuddyFrameAllocator) {
    let mem = PhysMemory::new(PhysPageNum(0x100), frames);
    let mut allocator = BuddyFrameAllocator::new();
    allocator.init(PhysPageNum(0x100), PhysPageNum(0x100 + frames as u64));
    (mem, allocator)
}

fn free_frames(allocator: &mut BuddyFrameAllocator) -> usize {
    let mut taken = Vec::new();
    while let Some(frame) = Frame::try_allocate(allocator) {
        taken.push(frame);
    }
    let count = taken.len();
    dealloc_all(taken, allocator);
    count
}

fn perm(bits: u8) -> MapPermission {
    MapPermission::from_bits(bits).unwrap()
}

#[test]
fn permissions_are_a_subset_of_rwxu() {
    assert_eq!(MAP_R, PTE_R);
    assert_eq!(MAP_W, PTE_W);
    assert_eq!(MAP_X, PTE_X);
    assert_eq!(MAP_U, PTE_U);
    assert_eq!(perm(MAP_R | MAP_U).bits(), 0x12);
    assert!(MapPermission::from_bits(PTE_V).is_none());
    assert!(MapPermission::from_bits(0x20).is_none());
    assert!(MapPermission::from_bits(0x1f).is_none());
    assert_eq!(MapPermission::empty().bits(), 0);
    assert_eq!(perm(MAP_R).union(perm(MAP_X)).bits(), MAP_R | MAP_X);
    assert_eq!((perm(MAP_R) | perm(MAP_W)).bits(), MAP_R | MAP_W);
    assert!(perm(MAP_R | MAP_W).contains(perm(MAP_W)));
    assert!(!perm(MAP_R | MAP_W).contains(perm(MAP_X)));
}

#[test]
fn an_area_covers_whole_pages() {
    let area = VmArea::new(VirtAddr(0x10234), VirtAddr(0x12001), MapType::Framed, perm(MAP_R));
    assert_eq!(area.start_vpn(), VirtPageNum(0x10));
    assert_eq!(area.end_vpn(), VirtPageNum(0x13));
    assert_eq!(area.map_type(), MapType::Framed);
    assert_eq!(area.perm(), perm(MAP_R));
    let twin = VmArea::from_another(&area);
    assert_eq!(twin.start_vpn(), VirtPageNum(0x10));
    assert_eq!(twin.end_vpn(), VirtPageNum(0x13));
    assert_eq!(twin.map_type(), MapType::Framed);
    assert_eq!(twin.perm(), perm(MAP_R));
}

#[test]
fn a_direct_area_maps_pages_to_the_frames_of_their_number() {
    let (mut mem, mut allocator) = machine(8);
    let mut table = PageTable::new(&mut mem, &mut allocator).unwrap();
    let mut area =
        VmArea::new(VirtAddr(0x8020_0000), VirtAddr(0x8020_3000), MapType::Direct,
            perm(MAP_R | MAP_X));
    area.map(&mut table, &mut mem, &mut allocator).unwrap();
    for vpn in 0x80200..0x80203u64 {
        let entry = table.find_pte(&mem, VirtPageNum(vpn)).unwrap();
        assert_eq!(entry.ppn(), PhysPageNum(vpn));
        assert_eq!(entry.flags().bits(), PTE_R | PTE_X | PTE_V);
    }
    assert!(table.find_pte(&mem, VirtPageNum(0x80203)).is_none());
    // One frame for the root, two for the tables; the area takes none.
    assert_eq!(free_frames(&mut allocator), 5);
    area.unmap(&mut table, &mut mem, &mut allocator);
    for vpn in 0x80200..0x80203u64 {
        assert!(table.find_pte(&mem, VirtPageNum(vpn)).is_none());
    }
    assert_eq!(free_frames(&mut allocator), 5);
}

#[test]
fn a_framed_area_takes_a_zeroed_frame_for_every_page() {
    let (mut mem, mut allocator) = machine(16);
    // Dirty the frames first, so that zeroing shows.
    for ppn in 0x100..0x110u64 {
        mem.write_word(PhysPageNum(ppn), 7, 0xdead_beef);
    }
    let mut table = PageTable::new(&mut mem, &mut allocator).unwrap();
    let mut area =
        VmArea::new(VirtAddr(0x10000), VirtAddr(0x13000), MapType::Framed,
            perm(MAP_R | MAP_W | MAP_U));
    area.map(&mut table, &mut mem, &mut allocator).unwrap();
    let mut frames = Vec::new();
    for vpn in 0x10..0x13u64 {
        let entry = table.find_pte(&mem, VirtPageNum(vpn)).unwrap();
        assert_eq!(entry.flags().bits(), PTE_R | PTE_W | PTE_U | PTE_V);
        let ppn = entry.ppn();
        assert!(ppn.0 >= 0x100 && ppn.0 < 0x110);
        assert!(!frames.contains(&ppn));
        assert_eq!(mem.read_word(ppn, 7), 0);
        frames.push(ppn);
    }
    assert_eq!(free_frames(&mut allocator), 16 - 3 - 3);
    area.unmap(&mut table, &mut mem, &mut allocator);
    assert_eq!(free_frames(&mut allocator), 16 - 3);
    assert!(table.find_pte(&mem, VirtPageNum(0x10)).is_none());
}

#[test]
fn pages_are_mapped_and_unmapped_one_by_one() {
    let (mut mem, mut allocator) = machine(16);
    let mut table = PageTable::new(&mut mem, &mut allocator).unwrap();
    let mut area =
        VmArea::new(VirtAddr(0x10000), VirtAddr(0x13000), MapType::Framed, perm(MAP_R));
    area.map_one(&mut table, &mut mem, &mut allocator, VirtPageNum(0x11)).unwrap();
    assert!(table.find_pte(&mem, VirtPageNum(0x10)).is_none());
    assert!(table.find_pte(&mem, VirtPageNum(0x11)).is_some());
    assert_eq!(free_frames(&mut allocator), 12);
    area.unmap_one(&mut table, &mut mem, &mut allocator, VirtPageNum(0x11));
    assert!(table.find_pte(&mem, VirtPageNum(0x11)).is_none());
    assert_eq!(free_frames(&mut allocator), 13);
}

#[test]
fn copied_data_is_read_back_through_the_page_table() {
    let (mut mem, mut allocator) = machine(16);
    let mut table = PageTable::new(&mut mem, &mut allocator).unwrap();
    let mut area =
        VmArea::new(VirtAddr(0x10000), VirtAddr(0x13000), MapType::Framed, perm(MAP_R | MAP_W));
    area.map(&mut table, &mut mem, &mut allocator).unwrap();
    let data: Vec<u8> = (0..0x2100usize).map(|i| (i % 251) as u8 + (i / 4096) as u8).collect();
    area.copy_data(&table, &mut mem, &allocator, &data);
    for i in 0..0x3000usize {
        let va = VirtAddr(0x10000 + i as u64);
        let pa = table.va2pa(&mem, va).unwrap();
        let byte = mem.read_byte(pa.floor(), pa.page_offset() as usize);
        if i < data.len() {
            assert_eq!(byte, data[i]);
        } else {
            assert_eq!(byte, 0);
        }
    }
}

#[test]
fn copying_no_data_changes_nothing() {
    let (mut mem, mut allocator) = machine(16);
    let mut table = PageTable::new(&mut mem, &mut allocator).unwrap();
    let mut area = VmArea::new(VirtAddr(0x10000), VirtAddr(0x11000), MapType::Framed, perm(MAP_R));
    area.map(&mut table, &mut mem, &mut allocator).unwrap();
    area.copy_data(&table, &mut mem, &allocator, &[]);
    let ppn = table.vpn2ppn(&mem, VirtPageNum(0x10)).unwrap();
    for offset in 0..4096 {
        assert_eq!(mem.read_byte(ppn, offset), 0);
    }
}

#[test]
fn mapping_an_area_without_enough_frames_leaves_nothing_mapped() {
    let (mut mem, mut allocator) = machine(5);
    let mut table = PageTable::new(&mut mem, &mut allocator).unwrap();
    let mut area =
        VmArea::new(VirtAddr(0x10000), VirtAddr(0x14000), MapType::Framed, perm(MAP_R));
    // Four pages need four frames and two tables; four frames are free.
    assert!(area.map(&mut table, &mut mem, &mut allocator).is_err());
    for vpn in 0x10..0x14u64 {
        assert!(table.find_pte(&mem, VirtPageNum(vpn)).is_none());
    }
    // The two tables stay with the page table; the frames are back.
    assert_eq!(free_frames(&mut allocator), 2);
}

#[test]
fn an_area_without_pages_maps_nothing() {
    let (mut mem, mut allocator) = machine(4);
    let mut table = PageTable::new(&mut mem, &mut allocator).unwrap();
    let mut area =
        VmArea::new(VirtAddr(0x5000), VirtAddr(0x5000), MapType::Framed, perm(MAP_R));
    assert_eq!(area.start_vpn(), area.end_vpn());
    area.map(&mut table, &mut mem, &mut allocator).unwrap();
    assert!(table.find_pte(&mem, VirtPageNum(5)).is_none());
    assert_eq!(free_frames(&mut allocator), 3);
}

#[test]
fn an_area_takes_a_frame_for_every_page_and_every_missing_table() {
    // 1030 pages from page 510 on lie in four runs of 512 pages.
    let (mut mem, mut allocator) = machine(1 + 1030 + 5);
    let mut table = PageTable::new(&mut mem, &mut allocator).unwrap();
    let mut area = VmArea::new(
        VirtAddr(510 * 4096),
        VirtAddr((510 + 1030) * 4096),
        MapType::Framed,
        perm(MAP_R),
    );
    area.map(&mut table, &mut mem, &mut allocator).unwrap();
    assert_eq!(free_frames(&mut allocator), 0);
    assert!(table.find_pte(&mem, VirtPageNum(509)).is_none());
    assert!(table.find_pte(&mem, VirtPageNum(510)).is_some());
    assert!(table.find_pte(&mem, VirtPageNum(1539)).is_some());
    assert!(table.find_pte(&mem, VirtPageNum(1540)).is_none());
    // One frame less is not enough.
    let (mut mem, mut allocator) = machine(1 + 1030 + 4);
    let mut table = PageTable::new(&mut mem, &mut allocator).unwrap();
    let mut area = VmArea::new(
        VirtAddr(510 * 4096),
        VirtAddr((510 + 1030) * 4096),
        MapType::Framed,
        perm(MAP_R),
    );
    assert!(area.map(&mut table, &mut mem, &mut allocator).is_err());
    assert!(table.find_pte(&mem, VirtPageNum(510)).is_none());
}
