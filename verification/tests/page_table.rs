use kernel::address::{PhysAddr, PhysPageNum, VirtAddr, VirtPageNum};
use kernel::frame_allocator::{BuddyFrameAllocator, Frame};
use kernel::memory::PhysMemory;
use kernel::page_table::{
    PTEFlags, PageTable, PageTableEntry, PTE_A, PTE_D, PTE_G, PTE_R, PTE_U, PTE_V, PTE_W, PTE_X,
};

fn machine(frames: usize) -> (PhysMemory, BuddyFrameAllocator) {
    let mem = PhysMemory::new(PhysPageNum(0x100), frames);
    let mut allocator = BuddyFrameAllocator::new();
    allocator.init(PhysPageNum(0x100), PhysPageNum(0x100 + frames as u64));
    (mem, allocator)
}

fn flags(bits: u8) -> PTEFlags {
    PTEFlags::from_bits(bits).unwrap()
}

#[test]
fn an_entry_gives_back_its_frame_and_flags() {
    for ppn in [0u64, 1, 0x12345, 0xfff_ffff_ffff] {
        for bits in [0u8, PTE_V, PTE_R | PTE_W | PTE_U, 0xff] {
            let entry = PageTableEntry::new(PhysPageNum(ppn), flags(bits));
            assert_eq!(entry.ppn(), PhysPageNum(ppn));
            assert_eq!(entry.flags().bits(), bits);
            assert_eq!(entry.bits, (ppn << 10) | bits as u64);
        }
    }
}

#[test]
fn high_bits_of_an_entry_are_ignored() {
    let entry = PageTableEntry { bits: (0x3ff << 54) | (0x12345 << 10) | 0x1f };
    assert_eq!(entry.ppn(), PhysPageNum(0x12345));
    assert_eq!(entry.flags().bits(), 0x1f);
    assert!(entry.is_valid());
    assert!(entry.is_leaf());
}

#[test]
fn the_empty_entry_is_not_valid() {
    let entry = PageTableEntry::empty();
    assert_eq!(entry.bits, 0);
    assert!(!entry.is_valid());
    assert!(!entry.is_leaf());
    assert!(PageTableEntry::new(PhysPageNum(5), flags(PTE_V)).is_valid());
    assert!(!PageTableEntry::new(PhysPageNum(5), flags(PTE_V)).is_leaf());
}

#[test]
fn flag_sets() {
    let all = [PTE_V, PTE_R, PTE_W, PTE_X, PTE_U, PTE_G, PTE_A, PTE_D];
    for (i, bit) in all.iter().enumerate() {
        assert_eq!(*bit, 1 << i);
    }
    let rw = flags(PTE_R).union(flags(PTE_W));
    assert_eq!(rw.bits(), 6);
    assert!(rw.contains(flags(PTE_R)));
    assert!(!rw.contains(flags(PTE_X)));
    assert_eq!(rw.intersection(flags(PTE_W | PTE_X)).bits(), PTE_W);
    assert!(PTEFlags::empty().is_empty());
    assert!(!rw.is_empty());
    assert_eq!((flags(PTE_R) | flags(PTE_X)).bits(), PTE_R | PTE_X);
    assert_eq!((rw & flags(PTE_W | PTE_U)).bits(), PTE_W);
    assert_eq!(rw, PTEFlags { bits: 6 });
}

#[test]
fn a_new_table_maps_nothing() {
    let (mut mem, mut allocator) = machine(16);
    let table = PageTable::new(&mut mem, &mut allocator).unwrap();
    assert!(table.find_pte(&mem, VirtPageNum(0)).is_none());
    assert!(table.find_pte(&mem, VirtPageNum(0x42)).is_none());
    assert!(table.vpn2ppn(&mem, VirtPageNum(0x3ff_ffff)).is_none());
    assert!(table.va2pa(&mem, VirtAddr(0x1234)).is_none());
}

#[test]
fn a_new_table_needs_a_frame() {
    let (mut mem, mut allocator) = machine(0);
    assert!(PageTable::new(&mut mem, &mut allocator).is_none());
}

#[test]
fn a_mapped_page_is_found() {
    let (mut mem, mut allocator) = machine(16);
    let mut table = PageTable::new(&mut mem, &mut allocator).unwrap();
    let vpn = VirtPageNum(0x42);
    table
        .map(&mut mem, &mut allocator, vpn, PhysPageNum(0x12345), flags(PTE_R | PTE_W))
        .unwrap();
    assert_eq!(table.vpn2ppn(&mem, vpn), Some(PhysPageNum(0x12345)));
    let entry = table.find_pte(&mem, vpn).unwrap();
    assert_eq!(entry.flags().bits(), PTE_R | PTE_W | PTE_V);
    assert!(table.find_pte(&mem, VirtPageNum(0x43)).is_none());
    assert!(table.find_pte(&mem, VirtPageNum(0x42 + 512)).is_none());
}

#[test]
fn an_unmapped_page_is_not_found() {
    let (mut mem, mut allocator) = machine(16);
    let mut table = PageTable::new(&mut mem, &mut allocator).unwrap();
    let vpn = VirtPageNum(0x42);
    let other = VirtPageNum(0x43);
    table.map(&mut mem, &mut allocator, vpn, PhysPageNum(7), flags(PTE_R)).unwrap();
    table.map(&mut mem, &mut allocator, other, PhysPageNum(8), flags(PTE_R)).unwrap();
    table.unmap(&mut mem, vpn);
    assert!(table.find_pte(&mem, vpn).is_none());
    assert_eq!(table.vpn2ppn(&mem, other), Some(PhysPageNum(8)));
}

#[test]
fn map_unmap_and_map_again() {
    let (mut mem, mut allocator) = machine(16);
    let mut table = PageTable::new(&mut mem, &mut allocator).unwrap();
    let vpn = VirtPageNum(0x42);
    table
        .map(&mut mem, &mut allocator, vpn, PhysPageNum(0x1_2345), flags(PTE_R | PTE_W | PTE_U))
        .unwrap();
    table.unmap(&mut mem, vpn);
    table
        .map(&mut mem, &mut allocator, vpn, PhysPageNum(0xa_bcde), flags(PTE_R | PTE_X | PTE_U))
        .unwrap();
    assert_eq!(
        table.va2pa(&mem, VirtAddr(0x42_042)),
        Some(PhysAddr(0xa_bcde * 0x1000 + 0x42))
    );
    let entry = table.find_pte(&mem, vpn).unwrap();
    assert_eq!(entry.flags().bits(), PTE_R | PTE_X | PTE_U | PTE_V);
}

#[test]
fn a_mapped_page_cannot_be_mapped_again() {
    let (mut mem, mut allocator) = machine(16);
    let mut table = PageTable::new(&mut mem, &mut allocator).unwrap();
    let vpn = VirtPageNum(0x99);
    table.map(&mut mem, &mut allocator, vpn, PhysPageNum(1), flags(PTE_R)).unwrap();
    // A second `map` of the page asks for a page that is not mapped; the
    // caller sees that it is.
    assert!(table.find_pte(&mem, vpn).is_some());
    assert_eq!(table.vpn2ppn(&mem, vpn), Some(PhysPageNum(1)));
}

#[test]
fn tables_are_created_on_the_way() {
    let (mut mem, mut allocator) = machine(16);
    let mut table = PageTable::new(&mut mem, &mut allocator).unwrap();
    let before = free_frames(&mut allocator);
    table.map(&mut mem, &mut allocator, VirtPageNum(0), PhysPageNum(1), flags(PTE_R)).unwrap();
    assert_eq!(free_frames(&mut allocator), before - 2);
    // The same level-0 table serves the next page.
    table.map(&mut mem, &mut allocator, VirtPageNum(1), PhysPageNum(2), flags(PTE_R)).unwrap();
    assert_eq!(free_frames(&mut allocator), before - 2);
    // Another level-0 table under the same level-1 table.
    table.map(&mut mem, &mut allocator, VirtPageNum(512), PhysPageNum(3), flags(PTE_R)).unwrap();
    assert_eq!(free_frames(&mut allocator), before - 3);
    // Another level-1 table.
    table
        .map(&mut mem, &mut allocator, VirtPageNum(1 << 18), PhysPageNum(4), flags(PTE_R))
        .unwrap();
    assert_eq!(free_frames(&mut allocator), before - 5);
    // Unmapping gives no table back.
    table.unmap(&mut mem, VirtPageNum(1 << 18));
    assert_eq!(free_frames(&mut allocator), before - 5);
}

fn free_frames(allocator: &mut BuddyFrameAllocator) -> usize {
    let mut taken = Vec::new();
    while let Some(frame) = Frame::try_allocate(allocator) {
        taken.push(frame);
    }
    let count = taken.len();
    kernel::frame_allocator::dealloc_all(taken, allocator);
    count
}

#[test]
fn mapping_fails_without_frames_for_the_tables() {
    let (mut mem, mut allocator) = machine(2);
    let mut table = PageTable::new(&mut mem, &mut allocator).unwrap();
    let vpn = VirtPageNum(0x42);
    assert!(table.map(&mut mem, &mut allocator, vpn, PhysPageNum(1), flags(PTE_R)).is_err());
    assert!(table.find_pte(&mem, vpn).is_none());
    assert!(table.find_pte_or_create(&mut mem, &mut allocator, vpn).is_none());
}

#[test]
fn the_entry_of_an_unmapped_page_can_be_created() {
    let (mut mem, mut allocator) = machine(16);
    let mut table = PageTable::new(&mut mem, &mut allocator).unwrap();
    let vpn = VirtPageNum(0x1234);
    let entry = table.find_pte_or_create(&mut mem, &mut allocator, vpn).unwrap();
    assert!(!entry.is_valid());
    assert!(table.find_pte(&mem, vpn).is_none());
    table.map(&mut mem, &mut allocator, vpn, PhysPageNum(9), flags(PTE_X)).unwrap();
    let entry = table.find_pte_or_create(&mut mem, &mut allocator, vpn).unwrap();
    assert_eq!(entry, table.find_pte(&mem, vpn).unwrap());
    assert_eq!(entry.ppn(), PhysPageNum(9));
}

#[test]
fn the_satp_token_names_the_root() {
    let (mut mem, mut allocator) = machine(16);
    let table = PageTable::new(&mut mem, &mut allocator).unwrap();
    let token = table.satp_token();
    assert_eq!(token >> 60, 8);
    let root = token & ((1 << 44) - 1);
    assert!(root >= 0x100 && root < 0x110);
    assert_eq!(token, (8 << 60) | root);
}

#[test]
fn a_view_finds_what_the_table_finds() {
    let (mut mem, mut allocator) = machine(16);
    let mut table = PageTable::new(&mut mem, &mut allocator).unwrap();
    let vpn = VirtPageNum(0x42);
    table.map(&mut mem, &mut allocator, vpn, PhysPageNum(0x777), flags(PTE_R)).unwrap();
    let view = PageTable::from_satp(table.satp_token());
    assert_eq!(view.vpn2ppn(&mem, vpn), Some(PhysPageNum(0x777)));
    assert!(view.find_pte(&mem, VirtPageNum(0x43)).is_none());
}

#[test]
fn a_view_of_a_root_outside_memory_finds_nothing() {
    let (mem, _allocator) = machine(4);
    let view = PageTable::from_satp((8 << 60) | 0x9999);
    assert!(view.find_pte(&mem, VirtPageNum(0)).is_none());
}

#[test]
fn releasing_a_table_frees_its_frames() {
    let (mut mem, mut allocator) = machine(16);
    let mut table = PageTable::new(&mut mem, &mut allocator).unwrap();
    table.map(&mut mem, &mut allocator, VirtPageNum(7), PhysPageNum(1), flags(PTE_R)).unwrap();
    assert_eq!(free_frames(&mut allocator), 13);
    table.release(&mem, &mut allocator);
    assert_eq!(free_frames(&mut allocator), 16);
}
