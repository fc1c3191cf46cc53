use kernel::address::PhysPageNum;
use kernel::memory::PhysMemory;

#[test]
fn new_memory_is_zero() {
    let mem = PhysMemory::new(PhysPageNum(0x80), 4);
    assert_eq!(mem.base_ppn(), PhysPageNum(0x80));
    assert_eq!(mem.frame_count(), 4);
    assert!(mem.has_frame(PhysPageNum(0x80)));
    assert!(mem.has_frame(PhysPageNum(0x83)));
    assert!(!mem.has_frame(PhysPageNum(0x84)));
    assert!(!mem.has_frame(PhysPageNum(0x7f)));
    assert_eq!(mem.read_word(PhysPageNum(0x82), 511), 0);
    assert_eq!(mem.read_byte(PhysPageNum(0x83), 4095), 0);
}

#[test]
fn words_are_little_endian_bytes() {
    let mut mem = PhysMemory::new(PhysPageNum(0x80), 2);
    mem.write_word(PhysPageNum(0x81), 3, 0x0807_0605_0403_0201);
    for k in 0..8 {
        assert_eq!(mem.read_byte(PhysPageNum(0x81), 24 + k), k as u8 + 1);
    }
    mem.write_byte(PhysPageNum(0x81), 26, 0xaa);
    assert_eq!(mem.read_word(PhysPageNum(0x81), 3), 0x0807_0605_04aa_0201);
    assert_eq!(mem.read_word(PhysPageNum(0x81), 2), 0);
    assert_eq!(mem.read_word(PhysPageNum(0x80), 3), 0);
}

#[test]
fn frames_are_zeroed_and_copied_as_a_whole() {
    let mut mem = PhysMemory::new(PhysPageNum(0x80), 3);
    for idx in 0..512 {
        mem.write_word(PhysPageNum(0x80), idx, idx as u64 * 3 + 1);
    }
    mem.copy_frame(PhysPageNum(0x82), PhysPageNum(0x80));
    for idx in 0..512 {
        assert_eq!(mem.read_word(PhysPageNum(0x82), idx), idx as u64 * 3 + 1);
        assert_eq!(mem.read_word(PhysPageNum(0x81), idx), 0);
    }
    mem.zero_frame(PhysPageNum(0x80));
    for idx in 0..512 {
        assert_eq!(mem.read_word(PhysPageNum(0x80), idx), 0);
        assert_eq!(mem.read_word(PhysPageNum(0x82), idx), idx as u64 * 3 + 1);
    }
}

#[test]
fn bytes_are_written_to_the_start_of_a_frame() {
    let mut mem = PhysMemory::new(PhysPageNum(0x80), 1);
    mem.write_byte(PhysPageNum(0x80), 5, 0x55);
    let data = [1u8, 2, 3, 4, 5, 6, 7];
    mem.write_bytes(PhysPageNum(0x80), &data, 2, 3);
    assert_eq!(mem.read_byte(PhysPageNum(0x80), 0), 3);
    assert_eq!(mem.read_byte(PhysPageNum(0x80), 1), 4);
    assert_eq!(mem.read_byte(PhysPageNum(0x80), 2), 5);
    assert_eq!(mem.read_byte(PhysPageNum(0x80), 3), 0);
    assert_eq!(mem.read_byte(PhysPageNum(0x80), 5), 0x55);
}
