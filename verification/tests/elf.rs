use kernel::elf::{ElfImage, LoadSegment, ProgramHeader};

/// A 64-bit ELF image with the given program headers
/// `(type, flags, offset, vaddr, filesz, memsz)` and `len` bytes in all,
/// the byte at position `i` being `i % 251` outside the headers.
fn image(entry: u64, headers: &[(u32, u32, u64, u64, u64, u64)], len: usize) -> Vec<u8> {
    let mut bytes: Vec<u8> = (0..len).map(|i| (i % 251) as u8).collect();
    bytes[0..4].copy_from_slice(&[0x7f, 0x45, 0x4c, 0x46]);
    bytes[4] = 2;
    bytes[5] = 1;
    bytes[6] = 1;
    for b in &mut bytes[7..16] {
        *b = 0;
    }
    bytes[16..18].copy_from_slice(&2u16.to_le_bytes());
    bytes[18..20].copy_from_slice(&243u16.to_le_bytes());
    bytes[20..24].copy_from_slice(&1u32.to_le_bytes());
    bytes[24..32].copy_from_slice(&entry.to_le_bytes());
    bytes[32..40].copy_from_slice(&64u64.to_le_bytes());
    bytes[40..48].copy_from_slice(&0u64.to_le_bytes());
    bytes[48..52].copy_from_slice(&0u32.to_le_bytes());
    bytes[52..54].copy_from_slice(&64u16.to_le_bytes());
    bytes[54..56].copy_from_slice(&56u16.to_le_bytes());
    bytes[56..58].copy_from_slice(&(headers.len() as u16).to_le_bytes());
    bytes[58..60].copy_from_slice(&64u16.to_le_bytes());
    bytes[60..62].copy_from_slice(&0u16.to_le_bytes());
    bytes[62..64].copy_from_slice(&0u16.to_le_bytes());
    for (k, (kind, flags, offset, vaddr, filesz, memsz)) in headers.iter().enumerate() {
        let at = 64 + 56 * k;
        bytes[at..at + 4].copy_from_slice(&kind.to_le_bytes());
        bytes[at + 4..at + 8].copy_from_slice(&flags.to_le_bytes());
        bytes[at + 8..at + 16].copy_from_slice(&offset.to_le_bytes());
        bytes[at + 16..at + 24].copy_from_slice(&vaddr.to_le_bytes());
        bytes[at + 24..at + 32].copy_from_slice(&vaddr.to_le_bytes());
        bytes[at + 32..at + 40].copy_from_slice(&filesz.to_le_bytes());
        bytes[at + 40..at + 48].copy_from_slice(&memsz.to_le_bytes());
        bytes[at + 48..at + 56].copy_from_slice(&0x1000u64.to_le_bytes());
    }
    bytes
}

#[test]
fn one_load_segment_is_read() {
    let bytes = image(0x10078, &[(1, 5, 0x1000, 0x10000, 0x2500, 0x3000)], 0x3500);
    let elf = ElfImage::parse(&bytes).unwrap();
    assert_eq!(elf.entry_point, 0x10078);
    assert_eq!(elf.end_vpn, 0x13);
    assert_eq!(elf.segments.len(), 1);
    let segment = elf.segments[0];
    assert_eq!(segment.start_va, 0x10000);
    assert_eq!(segment.end_va, 0x13000);
    assert!(segment.read);
    assert!(!segment.write);
    assert!(segment.execute);
    assert_eq!(segment.offset, 0x1000);
    assert_eq!(segment.file_size, 0x2500);
}

/// The program headers of an image as `xmas_elf` reads them.
fn headers_by_xmas_elf(bytes: &[u8]) -> (u64, Vec<ProgramHeader>) {
    let theirs = xmas_elf::ElfFile::new(bytes).unwrap();
    let mut headers = Vec::new();
    for header in theirs.program_iter() {
        let kind = match header.get_type() {
            Ok(xmas_elf::program::Type::Load) => 1,
            _ => 0,
        };
        let flags = (if header.flags().is_read() { 4 } else { 0 })
            | (if header.flags().is_write() { 2 } else { 0 })
            | (if header.flags().is_execute() { 1 } else { 0 });
        headers.push(ProgramHeader {
            kind,
            flags,
            offset: header.offset(),
            virtual_addr: header.virtual_addr(),
            file_size: header.file_size(),
            mem_size: header.mem_size(),
        });
    }
    (theirs.header.pt2.entry_point(), headers)
}

#[test]
fn the_reader_agrees_with_xmas_elf() {
    let bytes = image(
        0x10078,
        &[
            (6, 4, 64, 0x10040, 112, 112),
            (1, 5, 0x1000, 0x10000, 0x2500, 0x3000),
            (1, 6, 0x4000, 0x20000, 0x123, 0x2000),
        ],
        0x5000,
    );
    let ours = ElfImage::parse(&bytes).unwrap();
    let theirs = xmas_elf::ElfFile::new(&bytes).unwrap();
    assert_eq!(ours.entry_point, theirs.header.pt2.entry_point());
    let mut loads = Vec::new();
    for header in theirs.program_iter() {
        if header.get_type() == Ok(xmas_elf::program::Type::Load) {
            loads.push(header);
        }
    }
    assert_eq!(ours.segments.len(), loads.len());
    for (segment, header) in ours.segments.iter().zip(loads.iter()) {
        assert_eq!(segment.start_va, header.virtual_addr());
        assert_eq!(segment.end_va, header.virtual_addr() + header.mem_size());
        assert_eq!(segment.offset as u64, header.offset());
        assert_eq!(segment.file_size as u64, header.file_size());
        assert_eq!(segment.read, header.flags().is_read());
        assert_eq!(segment.write, header.flags().is_write());
        assert_eq!(segment.execute, header.flags().is_execute());
    }
}

#[test]
fn headers_read_by_xmas_elf_give_the_same_image() {
    let bytes = image(
        0x10078,
        &[
            (6, 4, 64, 0x10040, 112, 112),
            (1, 6, 0x4000, 0x20000, 0x123, 0x2000),
            (1, 5, 0x1000, 0x10000, 0x2500, 0x3000),
        ],
        0x5000,
    );
    let (entry, headers) = headers_by_xmas_elf(&bytes);
    let theirs = ElfImage::from_headers(entry, &headers, bytes.len()).unwrap();
    let ours = ElfImage::parse(&bytes).unwrap();
    assert_eq!(theirs.entry_point, ours.entry_point);
    assert_eq!(theirs.end_vpn, ours.end_vpn);
    assert_eq!(theirs.segments, ours.segments);
    assert_eq!(theirs.segments.len(), 2);
}

fn load(flags: u32, offset: u64, virtual_addr: u64, file_size: u64, mem_size: u64)
    -> ProgramHeader {
    ProgramHeader { kind: 1, flags, offset, virtual_addr, file_size, mem_size }
}

#[test]
fn load_headers_may_come_in_any_order() {
    let headers = vec![
        load(6, 0x300, 0x30000, 0x10, 0x1000),
        load(4, 0x100, 0x50000, 0x10, 0x2800),
        load(5, 0x200, 0x10000, 0x10, 0x3000),
    ];
    let elf = ElfImage::from_headers(0x10078, &headers, 0x400).unwrap();
    assert_eq!(elf.entry_point, 0x10078);
    assert_eq!(elf.segments.len(), 3);
    // The segments stand in the order of their headers.
    assert_eq!(elf.segments[0].start_va, 0x30000);
    assert_eq!(elf.segments[1].start_va, 0x50000);
    assert_eq!(elf.segments[2].start_va, 0x10000);
    // The highest segment is the second one: it ends in page 0x52.
    assert_eq!(elf.end_vpn, 0x53);
    assert!(elf.check(0x400));
    let bytes = image(
        0x10078,
        &[
            (1, 6, 0x300, 0x30000, 0x10, 0x1000),
            (1, 4, 0x100, 0x50000, 0x10, 0x2800),
            (1, 5, 0x200, 0x10000, 0x10, 0x3000),
        ],
        0x400,
    );
    let read = ElfImage::parse(&bytes).unwrap();
    assert_eq!(read.segments, elf.segments);
    assert_eq!(read.end_vpn, 0x53);
}

#[test]
fn headers_are_judged_one_by_one_and_in_pairs() {
    let good = vec![load(4, 0, 0x2000, 0x10, 0x1000), load(4, 0, 0x1000, 0x10, 0x1000)];
    assert!(ElfImage::from_headers(0, &good, 0x10).is_some());
    // The bytes of a segment end inside the file.
    assert!(ElfImage::from_headers(0, &good, 0xf).is_none());
    // The later segment has the last page of the earlier one.
    let shared = vec![load(4, 0, 0x2000, 0, 0x1001), load(4, 0, 0x3800, 0, 0x100)];
    assert!(ElfImage::from_headers(0, &shared, 0).is_none());
    // The earlier segment has the last page of the later one.
    let shared = vec![load(4, 0, 0x3800, 0, 0x100), load(4, 0, 0x2000, 0, 0x1001)];
    assert!(ElfImage::from_headers(0, &shared, 0).is_none());
    // A header that is not loaded is not judged.
    let mut other = load(4, 0x1000, 0x2000, 0x10, 0);
    other.kind = 2;
    assert!(ElfImage::from_headers(0, &vec![other, other], 0).unwrap().segments.is_empty());
    // A segment ends within 39 bits.
    let top = vec![load(4, 0, 0x7f_ffff_f000, 0, 0x1000)];
    assert_eq!(ElfImage::from_headers(0, &top, 0).unwrap().end_vpn, 0x800_0000);
    let over = vec![load(4, 0, 0x7f_ffff_f000, 0, 0x1001)];
    assert!(ElfImage::from_headers(0, &over, 0).is_none());
    let wraps = vec![load(4, 0, u64::MAX, 0, 2)];
    assert!(ElfImage::from_headers(0, &wraps, 0).is_none());
    // No segment has the trampoline page, also not in its middle.
    let across = vec![load(4, 0, 0x3f_ffff_e000, 0, 0x3000)];
    assert!(ElfImage::from_headers(0, &across, 0).is_none());
    let above = vec![load(4, 0, 0x40_0000_0000, 0, 0x1000)];
    assert_eq!(ElfImage::from_headers(0, &above, 0).unwrap().end_vpn, 0x400_0001);
}

#[test]
fn permissions_are_read_from_the_flags() {
    for flags in 0..8u32 {
        let elf = ElfImage::from_headers(0, &vec![load(flags, 0, 0x1000, 0, 1)], 0).unwrap();
        assert_eq!(elf.segments[0].read, flags & 4 != 0);
        assert_eq!(elf.segments[0].write, flags & 2 != 0);
        assert_eq!(elf.segments[0].execute, flags & 1 != 0);
    }
}

#[test]
fn other_program_headers_are_skipped() {
    let bytes = image(0, &[(2, 6, 0x100, 0x5000, 0x10, 0x10), (4, 4, 0x200, 0x6000, 0x10, 0x10)],
        0x400);
    let elf = ElfImage::parse(&bytes).unwrap();
    assert!(elf.segments.is_empty());
    assert_eq!(elf.end_vpn, 0);
}

#[test]
fn an_image_without_program_headers_has_no_segment() {
    let mut bytes = image(0x1234, &[], 64);
    let elf = ElfImage::parse(&bytes).unwrap();
    assert_eq!(elf.entry_point, 0x1234);
    assert!(elf.segments.is_empty());
    // No program header table at all.
    bytes[32..40].copy_from_slice(&0u64.to_le_bytes());
    bytes[56..58].copy_from_slice(&3u16.to_le_bytes());
    assert!(ElfImage::parse(&bytes).unwrap().segments.is_empty());
}

#[test]
fn a_segment_without_a_page_is_not_loaded() {
    let bytes = image(0, &[(1, 4, 0x100, 0x7000, 0, 0), (1, 4, 0x100, 0x8000, 0x10, 0x10)], 0x400);
    let elf = ElfImage::parse(&bytes).unwrap();
    assert_eq!(elf.segments.len(), 1);
    assert_eq!(elf.segments[0].start_va, 0x8000);
    assert_eq!(elf.end_vpn, 9);
}

#[test]
fn a_bad_magic_number_is_refused() {
    let mut bytes = image(0, &[], 64);
    bytes[1] = 0x46;
    assert!(ElfImage::parse(&bytes).is_none());
}

#[test]
fn a_short_image_is_refused() {
    let bytes = image(0, &[], 64);
    assert!(ElfImage::parse(&bytes[..63]).is_none());
    assert!(ElfImage::parse(&[]).is_none());
}

/// A 32-bit ELF image with the given program headers
/// `(type, flags, offset, vaddr, filesz, memsz)` and `len` bytes in all,
/// the byte at position `i` being `i % 251` outside the headers.
fn image32(entry: u32, headers: &[(u32, u32, u32, u32, u32, u32)], len: usize) -> Vec<u8> {
    let mut bytes: Vec<u8> = (0..len).map(|i| (i % 251) as u8).collect();
    bytes[0..4].copy_from_slice(&[0x7f, 0x45, 0x4c, 0x46]);
    bytes[4] = 1;
    bytes[5] = 1;
    bytes[6] = 1;
    for b in &mut bytes[7..16] {
        *b = 0;
    }
    bytes[16..18].copy_from_slice(&2u16.to_le_bytes());
    bytes[18..20].copy_from_slice(&243u16.to_le_bytes());
    bytes[20..24].copy_from_slice(&1u32.to_le_bytes());
    bytes[24..28].copy_from_slice(&entry.to_le_bytes());
    bytes[28..32].copy_from_slice(&52u32.to_le_bytes());
    bytes[32..36].copy_from_slice(&0u32.to_le_bytes());
    bytes[36..40].copy_from_slice(&0u32.to_le_bytes());
    bytes[40..42].copy_from_slice(&52u16.to_le_bytes());
    bytes[42..44].copy_from_slice(&32u16.to_le_bytes());
    bytes[44..46].copy_from_slice(&(headers.len() as u16).to_le_bytes());
    bytes[46..48].copy_from_slice(&40u16.to_le_bytes());
    bytes[48..50].copy_from_slice(&0u16.to_le_bytes());
    bytes[50..52].copy_from_slice(&0u16.to_le_bytes());
    for (k, (kind, flags, offset, vaddr, filesz, memsz)) in headers.iter().enumerate() {
        let at = 52 + 32 * k;
        bytes[at..at + 4].copy_from_slice(&kind.to_le_bytes());
        bytes[at + 4..at + 8].copy_from_slice(&offset.to_le_bytes());
        bytes[at + 8..at + 12].copy_from_slice(&vaddr.to_le_bytes());
        bytes[at + 12..at + 16].copy_from_slice(&vaddr.to_le_bytes());
        bytes[at + 16..at + 20].copy_from_slice(&filesz.to_le_bytes());
        bytes[at + 20..at + 24].copy_from_slice(&memsz.to_le_bytes());
        bytes[at + 24..at + 28].copy_from_slice(&flags.to_le_bytes());
        bytes[at + 28..at + 32].copy_from_slice(&0x1000u32.to_le_bytes());
    }
    bytes
}

#[test]
fn a_32_bit_image_is_read() {
    let bytes = image32(
        0x10054,
        &[(6, 4, 52, 0x10034, 64, 64), (1, 6, 0x400, 0x20000, 0x123, 0x2000),
            (1, 5, 0x200, 0x10000, 0x100, 0x1800)],
        0x600,
    );
    let elf = ElfImage::parse(&bytes).unwrap();
    assert_eq!(elf.entry_point, 0x10054);
    assert_eq!(elf.end_vpn, 0x22);
    assert_eq!(elf.segments.len(), 2);
    assert_eq!(elf.segments[0], LoadSegment {
        start_va: 0x20000,
        end_va: 0x22000,
        read: true,
        write: true,
        execute: false,
        offset: 0x400,
        file_size: 0x123,
    });
    assert_eq!(elf.segments[1].start_va, 0x10000);
    assert_eq!(elf.segments[1].end_va, 0x11800);
    assert!(elf.segments[1].execute);
    let (entry, headers) = headers_by_xmas_elf(&bytes);
    let theirs = ElfImage::from_headers(entry, &headers, bytes.len()).unwrap();
    assert_eq!(theirs.entry_point, elf.entry_point);
    assert_eq!(theirs.end_vpn, elf.end_vpn);
    assert_eq!(theirs.segments, elf.segments);
}

#[test]
fn a_32_bit_image_has_a_header_of_52_bytes() {
    let bytes = image32(7, &[], 52);
    assert_eq!(ElfImage::parse(&bytes).unwrap().entry_point, 7);
    assert!(ElfImage::parse(&bytes[..51]).is_none());
    // Its program headers have 32 bytes at least.
    let mut bytes = image32(0, &[(1, 4, 0x100, 0x8000, 0x10, 0x10)], 0x400);
    assert_eq!(ElfImage::parse(&bytes).unwrap().segments.len(), 1);
    assert!(ElfImage::parse(&bytes[..52 + 31]).is_none());
    bytes[42..44].copy_from_slice(&31u16.to_le_bytes());
    assert!(ElfImage::parse(&bytes).is_none());
}

#[test]
fn an_image_of_another_class_is_refused() {
    let mut bytes = image(0, &[], 64);
    bytes[4] = 0;
    assert!(ElfImage::parse(&bytes).is_none());
    bytes[4] = 3;
    assert!(ElfImage::parse(&bytes).is_none());
}

#[test]
fn program_headers_outside_the_file_are_refused() {
    let bytes = image(0, &[(1, 4, 0x100, 0x8000, 0x10, 0x10)], 0x400);
    assert!(ElfImage::parse(&bytes[..64 + 55]).is_none());
    let mut small = bytes.clone();
    small[54..56].copy_from_slice(&55u16.to_le_bytes());
    assert!(ElfImage::parse(&small).is_none());
}

#[test]
fn segment_bytes_outside_the_file_are_refused() {
    let bytes = image(0, &[(1, 4, 0x300, 0x8000, 0x101, 0x1000)], 0x400);
    assert!(ElfImage::parse(&bytes).is_none());
    let bytes = image(0, &[(1, 4, 0x300, 0x8000, 0x100, 0x1000)], 0x400);
    assert!(ElfImage::parse(&bytes).is_some());
}

#[test]
fn more_file_bytes_than_the_pages_hold_are_refused() {
    let bytes = image(0, &[(1, 4, 0x100, 0x8000, 0x1001, 0x10)], 0x2000);
    assert!(ElfImage::parse(&bytes).is_none());
}

#[test]
fn segments_that_share_a_page_are_refused() {
    let bytes = image(
        0,
        &[(1, 4, 0x100, 0x8000, 0x10, 0x1800), (1, 4, 0x200, 0x9800, 0x10, 0x100)],
        0x400,
    );
    assert!(ElfImage::parse(&bytes).is_none());
    let bytes = image(
        0,
        &[(1, 4, 0x100, 0x8000, 0x10, 0x1800), (1, 4, 0x200, 0xa000, 0x10, 0x100)],
        0x400,
    );
    assert_eq!(ElfImage::parse(&bytes).unwrap().segments.len(), 2);
}

#[test]
fn a_segment_on_the_trampoline_page_is_refused() {
    let bytes = image(0, &[(1, 4, 0x100, 0x3f_ffff_f000, 0x10, 0x10)], 0x400);
    assert!(ElfImage::parse(&bytes).is_none());
    let bytes = image(0, &[(1, 4, 0x100, 0x3f_ffff_e000, 0x10, 0x1000)], 0x400);
    assert_eq!(ElfImage::parse(&bytes).unwrap().end_vpn, 0x3ff_ffff);
}

fn segment(start_va: u64, end_va: u64, offset: usize, file_size: usize) -> LoadSegment {
    LoadSegment { start_va, end_va, read: true, write: false, execute: false, offset, file_size }
}

#[test]
fn what_was_read_can_be_loaded() {
    let bytes = image(
        0x10078,
        &[(1, 5, 0x1000, 0x10000, 0x2500, 0x3000), (1, 6, 0x4000, 0x20000, 0x123, 0x2000)],
        0x5000,
    );
    let elf = ElfImage::parse(&bytes).unwrap();
    assert!(elf.check(bytes.len()));
    // The bytes of the second segment end at 0x4123.
    assert!(elf.check(0x4123));
    assert!(!elf.check(0x4122));
}

#[test]
fn segments_are_checked() {
    let good = ElfImage {
        entry_point: 0,
        segments: vec![segment(0x1000, 0x3000, 0, 0x2000), segment(0x3000, 0x3001, 0x10, 1)],
        end_vpn: 4,
    };
    assert!(good.check(0x2000));
    let low_end = ElfImage { end_vpn: 3, segments: good.segments.clone(), entry_point: 0 };
    assert!(!low_end.check(0x2000));
    let shared_page = ElfImage {
        entry_point: 0,
        segments: vec![segment(0x1000, 0x3001, 0, 0), segment(0x3800, 0x4000, 0, 0)],
        end_vpn: 4,
    };
    assert!(!shared_page.check(0x2000));
    let descending = ElfImage {
        entry_point: 0,
        segments: vec![segment(0x3000, 0x4000, 0, 0), segment(0x1000, 0x2000, 0, 0)],
        end_vpn: 4,
    };
    assert!(descending.check(0x2000));
    let shared_below = ElfImage {
        entry_point: 0,
        segments: vec![segment(0x3800, 0x4000, 0, 0), segment(0x1000, 0x3001, 0, 0)],
        end_vpn: 4,
    };
    assert!(!shared_below.check(0x2000));
    let no_page = ElfImage { entry_point: 0, segments: vec![segment(0x1000, 0x1000, 0, 0)],
        end_vpn: 4 };
    assert!(!no_page.check(0x2000));
    let backwards = ElfImage { entry_point: 0, segments: vec![segment(0x2000, 0x1000, 0, 0)],
        end_vpn: 4 };
    assert!(!backwards.check(0x2000));
    let too_many_bytes =
        ElfImage { entry_point: 0, segments: vec![segment(0x1000, 0x2000, 0, 0x1001)], end_vpn: 4 };
    assert!(!too_many_bytes.check(0x2000));
    let beyond_the_file =
        ElfImage { entry_point: 0, segments: vec![segment(0x1000, 0x2000, 0x1f01, 0x100)],
            end_vpn: 4 };
    assert!(!beyond_the_file.check(0x2000));
    let on_the_trampoline = ElfImage {
        entry_point: 0,
        segments: vec![segment(0x3f_ffff_f000, 0x3f_ffff_f001, 0, 0)],
        end_vpn: 0x400_0000,
    };
    assert!(!on_the_trampoline.check(0x2000));
    let nothing = ElfImage { entry_point: 0, segments: vec![], end_vpn: 0x3ff_ffff };
    assert!(nothing.check(0));
    let highest = ElfImage { entry_point: 0, segments: vec![], end_vpn: 0x800_0000 };
    assert!(highest.check(0));
    let too_high = ElfImage { entry_point: 0, segments: vec![], end_vpn: 0x800_0001 };
    assert!(!too_high.check(0));
}
