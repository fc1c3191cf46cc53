use kernel::address::{PhysAddr, PhysPageNum, VirtAddr, VirtPageNum};

#[test]
fn floor_and_ceil_of_an_unaligned_address() {
    let a = PhysAddr(0x8020_0123);
    assert_eq!(a.floor(), PhysPageNum(0x80200));
    assert_eq!(a.ceil(), PhysPageNum(0x80201));
    assert_eq!(a.page_offset(), 0x123);
    assert!(!a.aligned());
}

#[test]
fn floor_and_ceil_agree_on_a_page_boundary() {
    let a = VirtAddr(0x8020_4000);
    assert_eq!(a.floor(), VirtPageNum(0x80204));
    assert_eq!(a.ceil(), VirtPageNum(0x80204));
    assert_eq!(a.page_offset(), 0);
    assert!(a.aligned());
}

#[test]
fn floor_and_ceil_bracket_the_quotient() {
    for a in [0u64, 1, 0xfff, 0x1000, 0x1001, 0x12345678, u64::MAX - 4096, u64::MAX] {
        let floor = VirtAddr(a).floor().0;
        let ceil = VirtAddr(a).ceil().0;
        assert!(floor <= a / 4096);
        assert!(a / 4096 <= ceil);
        assert_eq!(ceil == floor, VirtAddr(a).aligned());
    }
    assert_eq!(VirtAddr(u64::MAX).ceil().0, 1 << 52);
}

#[test]
fn indices_of_a_page_number() {
    let vpn = VirtPageNum((5 << 18) | (7 << 9) | 3);
    assert_eq!(vpn.get_idxs(), [5, 7, 3]);
}

#[test]
fn indices_spell_the_page_number() {
    for vpn in [0u64, 1, 511, 512, 0x42, 0x80200, 0x3ff_ffff, 0x7ff_ffff] {
        let [i2, i1, i0] = VirtPageNum(vpn).get_idxs();
        assert_eq!(((i2 << 18) | (i1 << 9) | i0) as u64, vpn);
    }
}

#[test]
fn indices_use_the_low_27_bits_only() {
    let low = VirtPageNum(0x123_4567);
    let high = VirtPageNum(0x123_4567 + (1 << 27));
    assert_eq!(low.get_idxs(), high.get_idxs());
}

#[test]
fn conversions_truncate_to_the_architectural_width() {
    assert_eq!(PhysAddr::from(u64::MAX).0, (1 << 56) - 1);
    assert_eq!(VirtAddr::from(u64::MAX).0, (1 << 39) - 1);
    assert_eq!(PhysPageNum::from(u64::MAX).0, (1 << 44) - 1);
    assert_eq!(PhysAddr::from(0x8020_0000u64).0, 0x8020_0000);
    assert_eq!(u64::from(PhysAddr(7)), 7);
    assert_eq!(u64::from(VirtAddr(9)), 9);
    assert_eq!(u64::from(PhysPageNum(11)), 11);
}

#[test]
fn conversions_between_addresses_and_pages() {
    assert_eq!(PhysPageNum::from(PhysAddr(0x8020_0fff)), PhysPageNum(0x80200));
    assert_eq!(PhysAddr::from(PhysPageNum(0x80200)), PhysAddr(0x8020_0000));
    assert_eq!(VirtPageNum::from(VirtAddr(0x3f_ffff_f000)), VirtPageNum(0x3ff_ffff));
    assert_eq!(VirtAddr::from(VirtPageNum(0x13)), VirtAddr(0x13000));
}

#[test]
fn adding_to_a_virtual_address() {
    assert_eq!(VirtAddr(0x1000) + 0x234, VirtAddr(0x1234));
    assert_eq!(VirtAddr(u64::MAX - 1) + 1, VirtAddr(u64::MAX));
}

#[test]
fn stepping_over_pages() {
    let a = VirtPageNum(10);
    let b = VirtPageNum(14);
    assert_eq!(VirtPageNum::steps_between(&a, &b), (4, Some(4)));
    assert_eq!(VirtPageNum::steps_between(&b, &a), (0, None));
    assert_eq!(VirtPageNum::forward_checked(a, 4), Some(b));
    assert_eq!(VirtPageNum::forward_checked(VirtPageNum(u64::MAX), 1), None);
    assert_eq!(VirtPageNum::backward_checked(b, 4), Some(a));
    assert_eq!(VirtPageNum::backward_checked(a, 11), None);
}

#[test]
fn page_numbers_are_ordered_by_their_value() {
    assert!(VirtPageNum(3) < VirtPageNum(4));
    assert!(PhysAddr(0x2000) > PhysAddr(0x1fff));
    assert_eq!(PhysPageNum(5), PhysPageNum(5));
}
