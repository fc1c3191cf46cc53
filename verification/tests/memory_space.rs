use kernel::address::{PhysAddr, PhysPageNum, VirtAddr, VirtPageNum};
use kernel::elf::{ElfImage, ProgramHeader, PT_LOAD};
use kernel::frame_allocator::{dealloc_all, BuddyFrameAllocator, Frame};
use kernel::memory::PhysMemory;
use kernel::memory_space::{
    kernel_satp, remap_test, KernelLayout, MemorySpace, TRAMPOLINE_FLAGS,
    TRAMPOLINE_VPN,
};
use kernel::page_table::{PageTable, PTE_R, PTE_U, PTE_V, PTE_W, PTE_X};
use kernel::vm_area::{MapPermission, MapType, VmArea, MAP_R, MAP_U, MAP_W};

const STRAMPOLINE: u64 = 0x8020_1000;

fn machine(frames: usize) -> (PhysMemory, BuddyFrameAllocator) {
    let mem = PhysMemory::new(PhysPageNum(0x100), frames);
    let mut allocator = BuddyFrameAllocator::new();
    allocator.init(PhysPageNum(0x100), PhysPageNum(0x100 + frames as u64));
    (mem, allocator)
}

fn free_frames(allocator: &mut BuddyFrameAllocator) -> usize {
    let mut taken = Vec::new();
    while let Some(frame) = Frame::try_allocate(allocator) {
        taken.push(frame);
    }
    let count = taken.len();
    dealloc_all(taken, allocator);
    count
}

fn perm(bits: u8) -> MapPermission {
    MapPermission::from_bits(bits).unwrap()
}

fn byte_at(space: &MemorySpace, mem: &PhysMemory, va: u64) -> u8 {
    let pa = space.translate(mem, VirtAddr(va)).unwrap();
    mem.read_byte(pa.floor(), pa.page_offset() as usize)
}

fn frame_of(space: &MemorySpace, mem: &PhysMemory, vpn: u64) -> PhysPageNum {
    space.find_pte(mem, VirtPageNum(vpn)).unwrap().ppn()
}

/// A 64-bit ELF image with one program header per entry of `headers`,
/// `(type, flags, offset, vaddr, filesz, memsz)`, and `len` bytes in all;
/// the byte at position `offset + i` of a segment is `i % 251`.
fn image(entry: u64, headers: &[(u32, u32, u64, u64, u64, u64)], len: usize) -> Vec<u8> {
    let mut bytes = vec![0u8; len];
    bytes[0..4].copy_from_slice(&[0x7f, 0x45, 0x4c, 0x46]);
    bytes[4] = 2;
    bytes[5] = 1;
    bytes[6] = 1;
    bytes[24..32].copy_from_slice(&entry.to_le_bytes());
    bytes[32..40].copy_from_slice(&64u64.to_le_bytes());
    bytes[52..54].copy_from_slice(&64u16.to_le_bytes());
    bytes[54..56].copy_from_slice(&56u16.to_le_bytes());
    bytes[56..58].copy_from_slice(&(headers.len() as u16).to_le_bytes());
    for (k, (kind, flags, offset, vaddr, filesz, memsz)) in headers.iter().enumerate() {
        let at = 64 + 56 * k;
        bytes[at..at + 4].copy_from_slice(&kind.to_le_bytes());
        bytes[at + 4..at + 8].copy_from_slice(&flags.to_le_bytes());
        bytes[at + 8..at + 16].copy_from_slice(&offset.to_le_bytes());
        bytes[at + 16..at + 24].copy_from_slice(&vaddr.to_le_bytes());
        bytes[at + 32..at + 40].copy_from_slice(&filesz.to_le_bytes());
        bytes[at + 40..at + 48].copy_from_slice(&memsz.to_le_bytes());
        for i in 0..*filesz as usize {
            bytes[*offset as usize + i] = (i % 251) as u8;
        }
    }
    bytes
}

#[test]
fn a_layout_with_shared_pages_is_refused() {
    let layout = KernelLayout {
        stext: 0x8020_0000,
        etext: 0x8020_4000,
        srodata: 0x8020_4000,
        erodata: 0x8020_6000,
        sdata: 0x8020_6000,
        edata: 0x8020_8000,
        sstack: 0x8020_8000,
        estack: 0x8020_c000,
        sbss: 0x8020_c000,
        ebss: 0x8021_0000,
        ekernel: 0x8021_0000,
        strampoline: STRAMPOLINE,
    };
    assert!(MemorySpace::kernel_layout_ok(&layout, &[]));
    assert!(MemorySpace::kernel_layout_ok(&layout, &[(0x1000_0000, 0x1000), (0x1000_1000,
        0x1000)]));
    // Two windows on one page.
    assert!(!MemorySpace::kernel_layout_ok(&layout, &[(0x1000_0000, 0x1000), (0x1000_0800,
        0x1000)]));
    // A window in the kernel image.
    assert!(!MemorySpace::kernel_layout_ok(&layout, &[(0x8020_5000, 0x1000)]));
    // A window on the trampoline page.
    assert!(!MemorySpace::kernel_layout_ok(&layout, &[(0x3f_ffff_f000, 0x1000)]));
    // A window that ends beyond 64 bits.
    assert!(!MemorySpace::kernel_layout_ok(&layout, &[(u64::MAX, 2)]));
    // Sections that are not apart.
    let crooked = KernelLayout { etext: 0x8020_4001, ..layout };
    assert!(!MemorySpace::kernel_layout_ok(&crooked, &[]));
}

#[test]
fn a_space_tells_whether_an_area_has_room() {
    let (mut mem, mut allocator) = machine(32);
    let mut space = MemorySpace::new_bare(&mut mem, &mut allocator).unwrap();
    space.map_trampoline(&mut mem, &mut allocator, STRAMPOLINE).unwrap();
    space
        .insert_framed_area(&mut mem, &mut allocator, VirtAddr(0x10000), VirtAddr(0x12000),
            perm(MAP_R))
        .unwrap();
    assert!(space.has_room(&mem, VirtPageNum(0x12), VirtPageNum(0x20)));
    assert!(space.has_room(&mem, VirtPageNum(0x8), VirtPageNum(0x10)));
    assert!(!space.has_room(&mem, VirtPageNum(0x11), VirtPageNum(0x13)));
    assert!(!space.has_room(&mem, VirtPageNum(0x10), VirtPageNum(0x10)));
    assert!(!space.has_room(&mem, VirtPageNum(0x8), VirtPageNum(0x11)));
    assert!(!space.has_room(&mem, VirtPageNum(TRAMPOLINE_VPN), VirtPageNum(TRAMPOLINE_VPN + 1)));
    assert!(!space.has_room(&mem, VirtPageNum(0x7ff_ffff), VirtPageNum(0x800_0001)));
}

#[test]
fn a_bare_space_maps_nothing() {
    let (mut mem, mut allocator) = machine(8);
    let space = MemorySpace::new_bare(&mut mem, &mut allocator).unwrap();
    assert_eq!(space.area_count(), 0);
    assert!(space.find_pte(&mem, VirtPageNum(TRAMPOLINE_VPN)).is_none());
    assert!(space.find_pte(&mem, VirtPageNum(0)).is_none());
    assert_eq!(free_frames(&mut allocator), 7);
    let token = space.satp_token();
    assert_eq!(token >> 60, 8);
    assert_eq!(kernel_satp(&space), token);
}

#[test]
fn a_bare_space_needs_a_frame() {
    let (mut mem, mut allocator) = machine(0);
    assert!(MemorySpace::new_bare(&mut mem, &mut allocator).is_none());
}

#[test]
fn the_trampoline_is_mapped_readable_and_executable() {
    let (mut mem, mut allocator) = machine(8);
    let mut space = MemorySpace::new_bare(&mut mem, &mut allocator).unwrap();
    space.map_trampoline(&mut mem, &mut allocator, STRAMPOLINE).unwrap();
    let entry = space.find_pte(&mem, VirtPageNum(TRAMPOLINE_VPN)).unwrap();
    assert_eq!(entry.ppn(), PhysPageNum(0x80201));
    assert_eq!(entry.flags().bits(), PTE_R | PTE_X | PTE_V);
    assert_eq!(TRAMPOLINE_FLAGS, PTE_R | PTE_X);
    assert_eq!(space.area_count(), 0);
    assert_eq!(
        space.translate(&mem, VirtAddr(0x3f_ffff_f123)),
        Some(PhysAddr(0x8020_1123))
    );
}

#[test]
fn the_trampoline_needs_frames_for_its_tables() {
    let (mut mem, mut allocator) = machine(2);
    let mut space = MemorySpace::new_bare(&mut mem, &mut allocator).unwrap();
    assert!(space.map_trampoline(&mut mem, &mut allocator, STRAMPOLINE).is_err());
    assert!(space.find_pte(&mem, VirtPageNum(TRAMPOLINE_VPN)).is_none());
}

#[test]
fn framed_areas_are_inserted_in_order() {
    let (mut mem, mut allocator) = machine(32);
    let mut space = MemorySpace::new_bare(&mut mem, &mut allocator).unwrap();
    space
        .insert_framed_area(&mut mem, &mut allocator, VirtAddr(0x20000), VirtAddr(0x22000),
            perm(MAP_R | MAP_U))
        .unwrap();
    space
        .insert_framed_area(&mut mem, &mut allocator, VirtAddr(0x10000), VirtAddr(0x11000),
            perm(MAP_R | MAP_W | MAP_U))
        .unwrap();
    assert_eq!(space.area_count(), 2);
    let first = space.find_pte(&mem, VirtPageNum(0x10)).unwrap();
    assert_eq!(first.flags().bits(), PTE_R | PTE_W | PTE_U | PTE_V);
    let second = space.find_pte(&mem, VirtPageNum(0x21)).unwrap();
    assert_eq!(second.flags().bits(), PTE_R | PTE_U | PTE_V);
    assert!(space.find_pte(&mem, VirtPageNum(0x11)).is_none());
    assert_eq!(byte_at(&space, &mem, 0x20fff), 0);
}

#[test]
fn an_area_is_removed_by_its_first_page() {
    let (mut mem, mut allocator) = machine(32);
    let mut space = MemorySpace::new_bare(&mut mem, &mut allocator).unwrap();
    space
        .insert_framed_area(&mut mem, &mut allocator, VirtAddr(0x10000), VirtAddr(0x12000),
            perm(MAP_R))
        .unwrap();
    space
        .insert_framed_area(&mut mem, &mut allocator, VirtAddr(0x20000), VirtAddr(0x21000),
            perm(MAP_R))
        .unwrap();
    let before = free_frames(&mut allocator);
    // No area starts at this page.
    space.remove_area_with_start_vpn(&mut mem, &mut allocator, VirtPageNum(0x11));
    assert_eq!(space.area_count(), 2);
    assert_eq!(free_frames(&mut allocator), before);
    space.remove_area_with_start_vpn(&mut mem, &mut allocator, VirtPageNum(0x10));
    assert_eq!(space.area_count(), 1);
    assert_eq!(free_frames(&mut allocator), before + 2);
    assert!(space.find_pte(&mem, VirtPageNum(0x10)).is_none());
    assert!(space.find_pte(&mem, VirtPageNum(0x11)).is_none());
    assert!(space.find_pte(&mem, VirtPageNum(0x20)).is_some());
}

#[test]
fn pushing_an_area_with_data() {
    let (mut mem, mut allocator) = machine(32);
    let mut space = MemorySpace::new_bare(&mut mem, &mut allocator).unwrap();
    let area = VmArea::new(VirtAddr(0x10000), VirtAddr(0x12000), MapType::Framed, perm(MAP_R));
    let data: Vec<u8> = (0..5000usize).map(|i| (i % 200) as u8 + 1).collect();
    space.push(&mut mem, &mut allocator, area, Some(&data)).unwrap();
    for i in 0..0x2000usize {
        let expected = if i < 5000 { (i % 200) as u8 + 1 } else { 0 };
        assert_eq!(byte_at(&space, &mem, 0x10000 + i as u64), expected);
    }
}

#[test]
fn pushing_fails_without_frames_and_keeps_the_space() {
    let (mut mem, mut allocator) = machine(6);
    let mut space = MemorySpace::new_bare(&mut mem, &mut allocator).unwrap();
    space
        .insert_framed_area(&mut mem, &mut allocator, VirtAddr(0x10000), VirtAddr(0x11000),
            perm(MAP_R))
        .unwrap();
    // Two frames are left; three pages need three.
    let result = space.insert_framed_area(
        &mut mem,
        &mut allocator,
        VirtAddr(0x11000),
        VirtAddr(0x14000),
        perm(MAP_R),
    );
    assert!(result.is_err());
    assert_eq!(space.area_count(), 1);
    assert!(space.find_pte(&mem, VirtPageNum(0x10)).is_some());
    assert!(space.find_pte(&mem, VirtPageNum(0x11)).is_none());
    assert_eq!(free_frames(&mut allocator), 2);
}

#[test]
fn the_kernel_space_maps_its_sections() {
    // The pool lies between the end of the kernel and the end of RAM.
    let mut mem = PhysMemory::new(PhysPageNum(0x80210), 0x5f0);
    let mut allocator = BuddyFrameAllocator::new();
    kernel::frame_allocator::init_frame_allocator(&mut allocator, 0x8021_0000);
    let layout = KernelLayout {
        stext: 0x8020_0000,
        etext: 0x8020_4000,
        srodata: 0x8020_4000,
        erodata: 0x8020_6000,
        sdata: 0x8020_6000,
        edata: 0x8020_8000,
        sstack: 0x8020_8000,
        estack: 0x8020_c000,
        sbss: 0x8020_c000,
        ebss: 0x8021_0000,
        ekernel: 0x8021_0000,
        strampoline: STRAMPOLINE,
    };
    let space = MemorySpace::new_kernel(&mut mem, &mut allocator, &layout, &[]).unwrap();
    assert_eq!(space.area_count(), 6);
    let flags_of = |vpn: u64| space.find_pte(&mem, VirtPageNum(vpn)).unwrap().flags().bits();
    assert_eq!(flags_of(0x80200), PTE_R | PTE_X | PTE_V);
    assert_eq!(flags_of(0x80201), PTE_R | PTE_X | PTE_V);
    assert_eq!(flags_of(0x80204), PTE_R | PTE_V);
    assert_eq!(flags_of(0x80206), PTE_R | PTE_W | PTE_V);
    assert_eq!(flags_of(0x80210), PTE_R | PTE_W | PTE_V);
    assert_eq!(flags_of(0x807ff), PTE_R | PTE_W | PTE_V);
    assert_eq!(flags_of(TRAMPOLINE_VPN), PTE_R | PTE_X | PTE_V);
    assert!(space.find_pte(&mem, VirtPageNum(0x80800)).is_none());
    assert!(space.find_pte(&mem, VirtPageNum(0x801ff)).is_none());
    // Direct: every page is mapped to the frame of its number.
    assert_eq!(frame_of(&space, &mem, 0x80200), PhysPageNum(0x80200));
    assert_eq!(frame_of(&space, &mem, 0x80456), PhysPageNum(0x80456));
    assert_eq!(
        space.translate(&mem, VirtAddr(0x8020_5678)),
        Some(PhysAddr(0x8020_5678))
    );
    assert!(remap_test(&space, &mem, &layout));
    let copy = MemorySpace::kernel_copy(&space);
    assert_eq!(copy.area_count(), 6);
    assert_eq!(copy.satp_token(), space.satp_token());
    assert_eq!(
        copy.find_pte(&mem, VirtPageNum(0x80204)).unwrap().flags().bits(),
        PTE_R | PTE_V
    );
}

#[test]
fn the_kernel_space_maps_device_windows() {
    let mut mem = PhysMemory::new(PhysPageNum(0x80210), 0x5f0);
    let mut allocator = BuddyFrameAllocator::new();
    kernel::frame_allocator::init_frame_allocator(&mut allocator, 0x8021_0000);
    let layout = KernelLayout {
        stext: 0x8020_0000,
        etext: 0x8020_4000,
        srodata: 0x8020_4000,
        erodata: 0x8020_6000,
        sdata: 0x8020_6000,
        edata: 0x8020_8000,
        sstack: 0x8020_8000,
        estack: 0x8020_8000,
        sbss: 0x8020_8000,
        ebss: 0x8021_0000,
        ekernel: 0x8021_0000,
        strampoline: STRAMPOLINE,
    };
    let mmio = [(0x1000_1000u64, 0x2000u64), (0x10_0000, 0x1000), (0x200_0000, 0)];
    let space = MemorySpace::new_kernel(&mut mem, &mut allocator, &layout, &mmio).unwrap();
    // The stack has no page and the last window has none.
    assert_eq!(space.area_count(), 5 + 2);
    let flags_of = |vpn: u64| space.find_pte(&mem, VirtPageNum(vpn)).unwrap().flags().bits();
    assert_eq!(flags_of(0x10001), PTE_R | PTE_W | PTE_V);
    assert_eq!(flags_of(0x10002), PTE_R | PTE_W | PTE_V);
    assert_eq!(flags_of(0x100), PTE_R | PTE_W | PTE_V);
    assert!(space.find_pte(&mem, VirtPageNum(0x10003)).is_none());
    assert!(space.find_pte(&mem, VirtPageNum(0x2000)).is_none());
    assert_eq!(frame_of(&space, &mem, 0x10002), PhysPageNum(0x10002));
}

#[test]
fn the_kernel_space_gives_its_frames_back_when_the_pool_runs_out() {
    let (mut mem, mut allocator) = machine(4);
    let layout = KernelLayout {
        stext: 0x8020_0000,
        etext: 0x8020_4000,
        srodata: 0x8020_4000,
        erodata: 0x8020_6000,
        sdata: 0x8020_6000,
        edata: 0x8020_8000,
        sstack: 0x8020_8000,
        estack: 0x8020_c000,
        sbss: 0x8020_c000,
        ebss: 0x8021_0000,
        ekernel: 0x8021_0000,
        strampoline: STRAMPOLINE,
    };
    assert!(MemorySpace::new_kernel(&mut mem, &mut allocator, &layout, &[]).is_err());
    assert_eq!(free_frames(&mut allocator), 4);
}

#[test]
fn the_kernel_space_takes_a_frame_for_every_table() {
    let layout = KernelLayout {
        stext: 0x8020_0000,
        etext: 0x8020_4000,
        srodata: 0x8020_4000,
        erodata: 0x8020_6000,
        sdata: 0x8020_6000,
        edata: 0x8020_8000,
        sstack: 0x8020_8000,
        estack: 0x8020_c000,
        sbss: 0x8020_c000,
        ebss: 0x8021_0000,
        ekernel: 0x8021_0000,
        strampoline: STRAMPOLINE,
    };
    // The root, two tables for the trampoline, one level-1 table and three
    // level-0 tables for the pages from 0x80200 to 0x807ff.
    let (mut mem, mut allocator) = machine(7);
    let space = MemorySpace::new_kernel(&mut mem, &mut allocator, &layout, &[]).unwrap();
    assert_eq!(free_frames(&mut allocator), 0);
    assert_eq!(space.area_count(), 6);
    space.release(&mut mem, &mut allocator);
    assert_eq!(free_frames(&mut allocator), 7);
    let (mut mem, mut allocator) = machine(6);
    assert!(MemorySpace::new_kernel(&mut mem, &mut allocator, &layout, &[]).is_err());
    assert_eq!(free_frames(&mut allocator), 6);
}

#[test]
fn a_kernel_space_that_lets_text_be_written_fails_the_remap_test() {
    let (mut mem, mut allocator) = machine(16);
    let layout = KernelLayout {
        stext: 0x1_0000,
        etext: 0x1_2000,
        srodata: 0x1_2000,
        erodata: 0x1_3000,
        sdata: 0x1_3000,
        edata: 0x1_4000,
        sstack: 0x1_4000,
        estack: 0x1_4000,
        sbss: 0x1_4000,
        ebss: 0x1_4000,
        ekernel: 0x1_4000,
        strampoline: STRAMPOLINE,
    };
    let mut space = MemorySpace::new_bare(&mut mem, &mut allocator).unwrap();
    assert!(!remap_test(&space, &mem, &layout));
    let writable = VmArea::new(VirtAddr(0x1_0000), VirtAddr(0x1_4000), MapType::Direct,
        perm(MAP_R | MAP_W));
    space.push(&mut mem, &mut allocator, writable, None).unwrap();
    assert!(!remap_test(&space, &mem, &layout));
}

#[test]
fn an_elf_image_is_loaded() {
    let (mut mem, mut allocator) = machine(32);
    let bytes = image(0x10078, &[(1, 5, 0x1000, 0x10000, 0x2500, 0x3000)], 0x3500);
    let (space, user_stack_base, entry) =
        MemorySpace::from_elf(&mut mem, &mut allocator, &bytes, STRAMPOLINE).unwrap();
    assert_eq!(entry, 0x10078);
    assert_eq!(user_stack_base, 0x14000);
    assert_eq!(space.area_count(), 1);
    for vpn in 0x10..0x13u64 {
        let entry = space.find_pte(&mem, VirtPageNum(vpn)).unwrap();
        assert_eq!(entry.flags().bits(), PTE_R | PTE_X | PTE_U | PTE_V);
        assert!(entry.ppn().0 >= 0x100 && entry.ppn().0 < 0x120);
    }
    assert!(space.find_pte(&mem, VirtPageNum(0x13)).is_none());
    assert!(space.find_pte(&mem, VirtPageNum(0xf)).is_none());
    for i in 0..0x3000u64 {
        let expected = if i < 0x2500 { (i % 251) as u8 } else { 0 };
        assert_eq!(byte_at(&space, &mem, 0x10000 + i), expected);
    }
    let trampoline = space.find_pte(&mem, VirtPageNum(TRAMPOLINE_VPN)).unwrap();
    assert_eq!(trampoline.flags().bits(), PTE_R | PTE_X | PTE_V);
    assert_eq!(trampoline.ppn(), PhysPageNum(0x80201));
}

#[test]
fn an_image_read_by_xmas_elf_is_loaded_alike() {
    let bytes = image(
        0x10078,
        &[(1, 5, 0x1000, 0x10000, 0x2500, 0x3000), (1, 6, 0x4000, 0x20000, 0x123, 0x2000)],
        0x5000,
    );
    let theirs = xmas_elf::ElfFile::new(&bytes).unwrap();
    let mut headers = Vec::new();
    for header in theirs.program_iter() {
        let kind = match header.get_type() {
            Ok(xmas_elf::program::Type::Load) => PT_LOAD,
            _ => 0,
        };
        headers.push(ProgramHeader {
            kind,
            flags: header.flags().0,
            offset: header.offset(),
            virtual_addr: header.virtual_addr(),
            file_size: header.file_size(),
            mem_size: header.mem_size(),
        });
    }
    let elf =
        ElfImage::from_headers(theirs.header.pt2.entry_point(), &headers, bytes.len()).unwrap();
    assert!(elf.check(bytes.len()));
    let (mut mem, mut allocator) = machine(32);
    let (space, user_stack_base, entry) =
        MemorySpace::from_image(&mut mem, &mut allocator, &elf, &bytes, STRAMPOLINE).unwrap();
    let (mut other_mem, mut other_allocator) = machine(32);
    let (other, other_base, other_entry) =
        MemorySpace::from_elf(&mut other_mem, &mut other_allocator, &bytes, STRAMPOLINE).unwrap();
    assert_eq!(entry, other_entry);
    assert_eq!(user_stack_base, other_base);
    assert_eq!(user_stack_base, 0x23000);
    assert_eq!(space.area_count(), other.area_count());
    for vpn in [0x10u64, 0x11, 0x12, 0x20, 0x21] {
        let ours = space.find_pte(&mem, VirtPageNum(vpn)).unwrap();
        let theirs = other.find_pte(&other_mem, VirtPageNum(vpn)).unwrap();
        assert_eq!(ours.flags(), theirs.flags());
        for offset in 0..4096u64 {
            let va = vpn * 4096 + offset;
            assert_eq!(byte_at(&space, &mem, va), byte_at(&other, &other_mem, va));
        }
    }
    assert_eq!(byte_at(&space, &mem, 0x20122), (0x122 % 251) as u8);
    assert_eq!(byte_at(&space, &mem, 0x20123), 0);
}

#[test]
fn segments_are_loaded_with_their_permissions() {
    let (mut mem, mut allocator) = machine(32);
    let bytes = image(
        0x10000,
        &[
            (1, 5, 0x1000, 0x10000, 0x100, 0x1000),
            (6, 4, 64, 0x10040, 0, 0),
            (1, 6, 0x2000, 0x11234, 0x10, 0x2000),
            (1, 4, 0x3000, 0x20000, 0, 0x1),
        ],
        0x4000,
    );
    let (space, user_stack_base, _entry) =
        MemorySpace::from_elf(&mut mem, &mut allocator, &bytes, STRAMPOLINE).unwrap();
    assert_eq!(space.area_count(), 3);
    let flags_of = |vpn: u64| space.find_pte(&mem, VirtPageNum(vpn)).unwrap().flags().bits();
    assert_eq!(flags_of(0x10), PTE_R | PTE_X | PTE_U | PTE_V);
    assert_eq!(flags_of(0x11), PTE_R | PTE_W | PTE_U | PTE_V);
    assert_eq!(flags_of(0x13), PTE_R | PTE_W | PTE_U | PTE_V);
    assert_eq!(flags_of(0x20), PTE_R | PTE_U | PTE_V);
    assert!(space.find_pte(&mem, VirtPageNum(0x14)).is_none());
    assert_eq!(user_stack_base, 0x22000);
    // The bytes of a segment stand at the start of its first page.
    assert_eq!(byte_at(&space, &mem, 0x11000), 0);
    assert_eq!(byte_at(&space, &mem, 0x11001), 1);
    assert_eq!(byte_at(&space, &mem, 0x1100f), 15);
    assert_eq!(byte_at(&space, &mem, 0x11234), 0);
}

#[test]
fn segments_are_loaded_in_any_order() {
    let (mut mem, mut allocator) = machine(64);
    let bytes = image(
        0x30010,
        &[
            (1, 6, 0x3000, 0x30000, 0x20, 0x1000),
            (1, 4, 0x1000, 0x50000, 0x10, 0x2800),
            (1, 5, 0x2000, 0x10000, 0x30, 0x3000),
        ],
        0x4000,
    );
    let (space, user_stack_base, entry) =
        MemorySpace::from_elf(&mut mem, &mut allocator, &bytes, STRAMPOLINE).unwrap();
    assert_eq!(entry, 0x30010);
    // The highest segment ends in page 0x52, whatever its place in the file.
    assert_eq!(user_stack_base, 0x53 * 4096 + 4096);
    assert_eq!(space.area_count(), 3);
    let flags_of = |vpn: u64| space.find_pte(&mem, VirtPageNum(vpn)).unwrap().flags().bits();
    assert_eq!(flags_of(0x30), PTE_R | PTE_W | PTE_U | PTE_V);
    for vpn in 0x50..0x53u64 {
        assert_eq!(flags_of(vpn), PTE_R | PTE_U | PTE_V);
    }
    for vpn in 0x10..0x13u64 {
        assert_eq!(flags_of(vpn), PTE_R | PTE_X | PTE_U | PTE_V);
    }
    // The page below the user stack is a page of no area.
    assert!(space.find_pte(&mem, VirtPageNum(user_stack_base / 4096 - 1)).is_none());
    assert!(space.has_room(&mem, VirtPageNum(0x53), VirtPageNum(0x54)));
    assert!(!space.has_room(&mem, VirtPageNum(0x52), VirtPageNum(0x54)));
    for vpn in [0x13u64, 0x2f, 0x31, 0x4f] {
        assert!(space.find_pte(&mem, VirtPageNum(vpn)).is_none());
    }
    for (start, file_size) in [(0x30000u64, 0x20u64), (0x50000, 0x10), (0x10000, 0x30)] {
        for i in 0..file_size {
            assert_eq!(byte_at(&space, &mem, start + i), i as u8);
        }
        assert_eq!(byte_at(&space, &mem, start + file_size), 0);
    }
    assert_eq!(byte_at(&space, &mem, 0x3001f), 0x1f);
    assert_eq!(byte_at(&space, &mem, 0x1002f), 0x2f);
    // The same image with the headers in ascending order gives the same space.
    let sorted = image(
        0x30010,
        &[
            (1, 5, 0x2000, 0x10000, 0x30, 0x3000),
            (1, 6, 0x3000, 0x30000, 0x20, 0x1000),
            (1, 4, 0x1000, 0x50000, 0x10, 0x2800),
        ],
        0x4000,
    );
    let (mut other_mem, mut other_allocator) = machine(64);
    let (other, other_base, _) =
        MemorySpace::from_elf(&mut other_mem, &mut other_allocator, &sorted, STRAMPOLINE).unwrap();
    assert_eq!(other_base, user_stack_base);
    assert_eq!(other.area_count(), 3);
    for va in [0x10000u64, 0x1002f, 0x12fff, 0x30000, 0x3001f, 0x50000, 0x5000f, 0x527ff] {
        assert_eq!(byte_at(&space, &mem, va), byte_at(&other, &other_mem, va));
    }
}

#[test]
fn a_32_bit_image_is_loaded() {
    let mut bytes = vec![0u8; 0x300];
    bytes[0..4].copy_from_slice(&[0x7f, 0x45, 0x4c, 0x46]);
    bytes[4] = 1;
    bytes[5] = 1;
    bytes[24..28].copy_from_slice(&0x10010u32.to_le_bytes());
    bytes[28..32].copy_from_slice(&52u32.to_le_bytes());
    bytes[42..44].copy_from_slice(&32u16.to_le_bytes());
    bytes[44..46].copy_from_slice(&1u16.to_le_bytes());
    // One segment: readable and writable, 0x20 bytes of the file at 0x200,
    // two pages at 0x10000.
    let fields: [u32; 8] = [1, 0x200, 0x10000, 0x10000, 0x20, 0x1800, 6, 0x1000];
    for (k, field) in fields.iter().enumerate() {
        bytes[52 + 4 * k..56 + 4 * k].copy_from_slice(&field.to_le_bytes());
    }
    for i in 0..0x20 {
        bytes[0x200 + i] = 0x80 + i as u8;
    }
    let (mut mem, mut allocator) = machine(16);
    let (space, user_stack_base, entry) =
        MemorySpace::from_elf(&mut mem, &mut allocator, &bytes, STRAMPOLINE).unwrap();
    assert_eq!(entry, 0x10010);
    assert_eq!(user_stack_base, 0x13000);
    assert_eq!(space.area_count(), 1);
    for vpn in 0x10..0x12u64 {
        let flags = space.find_pte(&mem, VirtPageNum(vpn)).unwrap().flags().bits();
        assert_eq!(flags, PTE_R | PTE_W | PTE_U | PTE_V);
    }
    assert!(space.find_pte(&mem, VirtPageNum(0x12)).is_none());
    assert_eq!(byte_at(&space, &mem, 0x10000), 0x80);
    assert_eq!(byte_at(&space, &mem, 0x1001f), 0x9f);
    assert_eq!(byte_at(&space, &mem, 0x10020), 0);
}

#[test]
fn a_bad_image_is_not_loaded() {
    let (mut mem, mut allocator) = machine(8);
    let mut bytes = image(0, &[(1, 5, 0x1000, 0x10000, 0x100, 0x1000)], 0x2000);
    bytes[0] = 0;
    // Such an image is told apart before a space is made of it.
    assert!(ElfImage::parse(&bytes).is_none());
    bytes[0] = 0x7f;
    assert!(ElfImage::parse(&bytes).is_some());
    assert!(MemorySpace::from_elf(&mut mem, &mut allocator, &bytes, STRAMPOLINE).is_ok());
}

#[test]
fn an_image_is_not_loaded_without_frames() {
    let (mut mem, mut allocator) = machine(6);
    let bytes = image(0, &[(1, 5, 0x1000, 0x10000, 0x100, 0x4000)], 0x2000);
    assert!(MemorySpace::from_elf(&mut mem, &mut allocator, &bytes, STRAMPOLINE).is_err());
    assert_eq!(free_frames(&mut allocator), 6);
}

#[test]
fn a_copy_of_a_space_has_the_same_bytes_in_other_frames() {
    let (mut mem, mut allocator) = machine(64);
    let bytes = image(
        0x10000,
        &[(1, 5, 0x1000, 0x10000, 0x1800, 0x2000), (1, 6, 0x3000, 0x20000, 0x1000, 0x3000)],
        0x4000,
    );
    let (source, _, _) =
        MemorySpace::from_elf(&mut mem, &mut allocator, &bytes, STRAMPOLINE).unwrap();
    let copy =
        MemorySpace::from_existed_user(&mut mem, &mut allocator, &source, STRAMPOLINE).unwrap();
    assert_eq!(copy.area_count(), source.area_count());
    for vpn in [0x10u64, 0x11, 0x20, 0x21, 0x22] {
        let from = source.find_pte(&mem, VirtPageNum(vpn)).unwrap();
        let to = copy.find_pte(&mem, VirtPageNum(vpn)).unwrap();
        assert_ne!(from.ppn(), to.ppn());
        assert_eq!(from.flags(), to.flags());
        for offset in 0..4096 {
            assert_eq!(mem.read_byte(from.ppn(), offset), mem.read_byte(to.ppn(), offset));
        }
    }
    assert_eq!(byte_at(&copy, &mem, 0x10005), 5);
    assert_eq!(byte_at(&copy, &mem, 0x20fff), (0xfff % 251) as u8);
    assert_eq!(byte_at(&copy, &mem, 0x21000), 0);
    assert!(copy.find_pte(&mem, VirtPageNum(0x12)).is_none());
    let trampoline = copy.find_pte(&mem, VirtPageNum(TRAMPOLINE_VPN)).unwrap();
    assert_eq!(trampoline.ppn(), PhysPageNum(0x80201));
    assert_ne!(copy.satp_token(), source.satp_token());
    // Writing to the copy leaves the source as it was.
    let target = frame_of(&copy, &mem, 0x10);
    mem.write_byte(target, 5, 0xee);
    assert_eq!(byte_at(&copy, &mem, 0x10005), 0xee);
    assert_eq!(byte_at(&source, &mem, 0x10005), 5);
}

#[test]
fn a_copy_is_not_made_without_frames() {
    let (mut mem, mut allocator) = machine(12);
    let bytes = image(0x10000, &[(1, 5, 0x1000, 0x10000, 0x1800, 0x2000)], 0x4000);
    let (source, _, _) =
        MemorySpace::from_elf(&mut mem, &mut allocator, &bytes, STRAMPOLINE).unwrap();
    let before = free_frames(&mut allocator);
    assert_eq!(before, 12 - 7);
    assert!(MemorySpace::from_existed_user(&mut mem, &mut allocator, &source,
        STRAMPOLINE).is_err());
    assert_eq!(free_frames(&mut allocator), before);
    assert_eq!(byte_at(&source, &mem, 0x10005), 5);
}

#[test]
fn recycling_gives_the_frames_of_the_areas_back_and_keeps_the_trampoline() {
    let (mut mem, mut allocator) = machine(64);
    let before_load = free_frames(&mut allocator);
    let bytes = image(
        0x10000,
        &[(1, 5, 0x1000, 0x10000, 0x1800, 0x2000), (1, 6, 0x3000, 0x20000, 0x1000, 0x3000)],
        0x4000,
    );
    let (source, _, _) =
        MemorySpace::from_elf(&mut mem, &mut allocator, &bytes, STRAMPOLINE).unwrap();
    let before_copy = free_frames(&mut allocator);
    let mut copy =
        MemorySpace::from_existed_user(&mut mem, &mut allocator, &source, STRAMPOLINE).unwrap();
    let tables = {
        let after_copy = free_frames(&mut allocator);
        before_copy - after_copy - 5
    };
    copy.recycle_data_pages(&mut mem, &mut allocator);
    assert_eq!(copy.area_count(), 0);
    assert_eq!(free_frames(&mut allocator), before_copy - tables);
    for vpn in [0x10u64, 0x11, 0x20, 0x21, 0x22] {
        assert!(copy.find_pte(&mem, VirtPageNum(vpn)).is_none());
        assert!(source.find_pte(&mem, VirtPageNum(vpn)).is_some());
    }
    let trampoline = copy.find_pte(&mem, VirtPageNum(TRAMPOLINE_VPN)).unwrap();
    assert!(trampoline.is_valid());
    assert_eq!(trampoline.flags().bits(), PTE_R | PTE_X | PTE_V);
    copy.release(&mut mem, &mut allocator);
    assert_eq!(free_frames(&mut allocator), before_copy);
    source.release(&mut mem, &mut allocator);
    assert_eq!(free_frames(&mut allocator), before_load);
}

#[test]
fn a_page_table_of_its_own_is_not_needed_to_read() {
    let (mut mem, mut allocator) = machine(16);
    let mut space = MemorySpace::new_bare(&mut mem, &mut allocator).unwrap();
    space
        .insert_framed_area(&mut mem, &mut allocator, VirtAddr(0x10000), VirtAddr(0x11000),
            perm(MAP_R))
        .unwrap();
    let view = PageTable::from_satp(space.satp_token());
    assert_eq!(
        view.vpn2ppn(&mem, VirtPageNum(0x10)),
        Some(frame_of(&space, &mem, 0x10))
    );
}
