use kernel::address::PhysPageNum;
use kernel::frame_allocator::{
    dealloc_all, dealloc_all_blocks, frame_allocator_test, init_frame_allocator,
    BuddyFrameAllocator, Frame, Frames, MAX_BLOCK_FRAMES,
};

fn pool(begin: u64, end: u64) -> BuddyFrameAllocator {
    let mut allocator = BuddyFrameAllocator::new();
    allocator.init(PhysPageNum(begin), PhysPageNum(end));
    allocator
}

/// Number of free frames: takes them all and gives them back.
fn count_free(allocator: &mut BuddyFrameAllocator) -> usize {
    let mut taken = Vec::new();
    while let Some(frame) = Frame::try_allocate(allocator) {
        taken.push(frame);
    }
    let count = taken.len();
    dealloc_all(taken, allocator);
    count
}

#[test]
fn a_pool_without_frames_gives_none() {
    let mut allocator = BuddyFrameAllocator::new();
    assert!(allocator.allocate(1).is_none());
    assert!(Frame::try_allocate(&mut allocator).is_none());
    assert!(Frames::try_allocate(&mut allocator, 2).is_none());
}

#[test]
fn every_frame_of_the_window_can_be_taken_once() {
    let mut allocator = pool(0x100, 0x110);
    let mut seen = Vec::new();
    while let Some(frame) = Frame::try_allocate(&mut allocator) {
        assert!(frame.ppn.0 >= 0x100 && frame.ppn.0 < 0x110);
        assert!(!seen.contains(&frame.ppn.0));
        seen.push(frame.ppn.0);
    }
    assert_eq!(seen.len(), 16);
}

#[test]
fn taking_and_giving_back_restores_the_pool() {
    let mut allocator = pool(0x100, 0x110);
    let first = allocator.allocate(3).unwrap();
    allocator.dealloc(first, 3);
    assert_eq!(count_free(&mut allocator), 16);
    let again = allocator.allocate(3).unwrap();
    assert_eq!(first, again);
}

#[test]
fn a_request_reserves_the_next_power_of_two() {
    let mut allocator = pool(0x100, 0x110);
    let block = allocator.allocate(3).unwrap();
    assert_eq!(block.0 % 4, 0);
    assert_eq!(count_free(&mut allocator), 12);
    allocator.dealloc(block, 3);
    assert_eq!(count_free(&mut allocator), 16);
}

#[test]
fn live_blocks_do_not_overlap() {
    let mut allocator = pool(0x100, 0x120);
    let a = allocator.allocate(4).unwrap().0;
    let b = allocator.allocate(2).unwrap().0;
    let c = allocator.allocate(8).unwrap().0;
    let blocks = [(a, 4u64), (b, 2), (c, 8)];
    for (i, (start, len)) in blocks.iter().enumerate() {
        assert!(*start >= 0x100 && start + len <= 0x120);
        for (other, other_len) in blocks.iter().skip(i + 1) {
            assert!(start + len <= *other || other + other_len <= *start);
        }
    }
}

#[test]
fn a_freed_slot_is_used_again() {
    let mut allocator = pool(0x100, 0x110);
    let one = allocator.allocate(1).unwrap();
    let two = allocator.allocate(2).unwrap();
    let four = allocator.allocate(4).unwrap();
    allocator.dealloc(two, 2);
    let again = allocator.allocate(2).unwrap();
    assert_eq!(again, two);
    assert_ne!(again, one);
    assert_ne!(again, four);
}

#[test]
fn a_single_frame_is_refused_only_when_none_is_free() {
    let mut allocator = pool(0x200, 0x203);
    let a = Frame::try_allocate(&mut allocator).unwrap();
    let b = Frame::try_allocate(&mut allocator).unwrap();
    let c = Frame::try_allocate(&mut allocator).unwrap();
    assert!(Frame::try_allocate(&mut allocator).is_none());
    b.dealloc(&mut allocator);
    let d = Frame::try_allocate(&mut allocator).unwrap();
    assert!(Frame::try_allocate(&mut allocator).is_none());
    assert_ne!(d.ppn, a.ppn);
    assert_ne!(d.ppn, c.ppn);
}

#[test]
fn too_large_a_block_is_refused() {
    let mut allocator = pool(0x100, 0x110);
    assert!(allocator.allocate(MAX_BLOCK_FRAMES + 1).is_none());
    assert!(allocator.allocate(32).is_none());
    assert_eq!(count_free(&mut allocator), 16);
}

#[test]
fn contiguous_frames_come_and_go_as_a_whole() {
    let mut allocator = pool(0x100, 0x110);
    let frames = Frames::try_allocate(&mut allocator, 4).unwrap();
    assert_eq!(frames.num, 4);
    assert_eq!(frames.ppn.0 % 4, 0);
    assert_eq!(count_free(&mut allocator), 12);
    frames.dealloc(&mut allocator);
    assert_eq!(count_free(&mut allocator), 16);
}

#[test]
fn the_pool_window_lies_between_kernel_and_end_of_ram() {
    let mut allocator = BuddyFrameAllocator::new();
    init_frame_allocator(&mut allocator, 0x807f_e001);
    let frame = Frame::try_allocate(&mut allocator).unwrap();
    assert_eq!(frame.ppn, PhysPageNum(0x807ff));
    assert!(Frame::try_allocate(&mut allocator).is_none());
}

#[test]
fn the_self_test_leaves_the_pool_as_it_was() {
    let mut allocator = pool(0x100, 0x110);
    assert!(frame_allocator_test(&mut allocator));
    assert_eq!(count_free(&mut allocator), 16);
    let first = Frame::try_allocate(&mut allocator).unwrap();
    assert_eq!(first.ppn, PhysPageNum(0x100));
}

#[test]
fn the_self_test_fails_in_a_small_pool() {
    let mut allocator = pool(0x100, 0x104);
    assert!(!frame_allocator_test(&mut allocator));
    assert_eq!(count_free(&mut allocator), 4);
    // Five frames serve the single frames, but not five pairs.
    let mut allocator = pool(0x100, 0x105);
    assert!(!frame_allocator_test(&mut allocator));
    assert_eq!(count_free(&mut allocator), 5);
}

#[test]
fn blocks_are_given_back_together() {
    let mut allocator = pool(0x100, 0x110);
    let blocks = vec![
        Frames::try_allocate(&mut allocator, 2).unwrap(),
        Frames::try_allocate(&mut allocator, 3).unwrap(),
        Frames::try_allocate(&mut allocator, 1).unwrap(),
    ];
    assert_eq!(count_free(&mut allocator), 16 - 2 - 4 - 1);
    dealloc_all_blocks(blocks, &mut allocator);
    assert_eq!(count_free(&mut allocator), 16);
}

#[test]
fn the_lowest_block_of_the_smallest_order_is_taken() {
    let mut allocator = pool(0x80210, 0x80220);
    // Sixteen aligned frames are one block, which is halved down to one frame.
    assert_eq!(allocator.allocate(1), Some(PhysPageNum(0x80210)));
    // The upper halves wait on their lists: eight frames at 0x80218.
    assert_eq!(allocator.allocate(8), Some(PhysPageNum(0x80218)));
    assert_eq!(allocator.allocate(8), None);
    assert_eq!(allocator.allocate(2), Some(PhysPageNum(0x80212)));
    assert_eq!(allocator.allocate(4), Some(PhysPageNum(0x80214)));
    assert_eq!(allocator.allocate(2), None);
    assert_eq!(allocator.allocate(1), Some(PhysPageNum(0x80211)));
    assert_eq!(allocator.allocate(1), None);
}

#[test]
fn a_freed_pair_is_the_next_pair() {
    let mut allocator = pool(0x80210, 0x80220);
    assert_eq!(allocator.allocate(1), Some(PhysPageNum(0x80210)));
    assert_eq!(allocator.allocate(2), Some(PhysPageNum(0x80212)));
    assert_eq!(allocator.allocate(4), Some(PhysPageNum(0x80214)));
    allocator.dealloc(PhysPageNum(0x80212), 2);
    assert_eq!(allocator.allocate(2), Some(PhysPageNum(0x80212)));
    // Without the freed pair the next one comes out of the block of eight.
    assert_eq!(allocator.allocate(2), Some(PhysPageNum(0x80218)));
}

#[test]
fn a_window_is_cut_into_aligned_blocks() {
    // Frame 3 alone, then 4..8, then 8..10: no block of eight, one of four.
    let mut allocator = pool(3, 10);
    assert_eq!(allocator.allocate(8), None);
    assert_eq!(allocator.allocate(4), Some(PhysPageNum(4)));
    assert_eq!(allocator.allocate(4), None);
    assert_eq!(allocator.allocate(2), Some(PhysPageNum(8)));
    assert_eq!(allocator.allocate(1), Some(PhysPageNum(3)));
    assert_eq!(allocator.allocate(1), None);
}

#[test]
fn giving_back_joins_the_halves_again() {
    let mut allocator = pool(0x80210, 0x80220);
    let one = allocator.allocate(1).unwrap();
    assert_eq!(allocator.allocate(16), None);
    allocator.dealloc(one, 1);
    // The pool serves what it served before the frame was taken.
    assert_eq!(allocator.allocate(16), Some(PhysPageNum(0x80210)));
    allocator.dealloc(PhysPageNum(0x80210), 16);
    let three = allocator.allocate(3).unwrap();
    assert_eq!(three, PhysPageNum(0x80210));
    allocator.dealloc(three, 3);
    assert_eq!(allocator.allocate(16), Some(PhysPageNum(0x80210)));
}

#[test]
fn a_frame_is_taken_from_a_pool_that_has_one() {
    let mut allocator = pool(0x300, 0x302);
    let first = Frame::allocate(&mut allocator);
    let second = Frame::allocate(&mut allocator);
    assert_eq!(first.ppn, PhysPageNum(0x300));
    assert_eq!(second.ppn, PhysPageNum(0x301));
    assert!(Frame::try_allocate(&mut allocator).is_none());
    first.dealloc(&mut allocator);
    assert_eq!(Frame::allocate(&mut allocator).ppn, PhysPageNum(0x300));
}

#[test]
fn frames_are_taken_from_a_pool_that_serves_them() {
    let mut allocator = pool(0x80210, 0x80220);
    let four = Frames::allocate(&mut allocator, 3);
    assert_eq!(four.ppn, PhysPageNum(0x80210));
    assert_eq!(four.num, 3);
    let eight = Frames::allocate(&mut allocator, 8);
    assert_eq!(eight.ppn, PhysPageNum(0x80218));
    assert!(Frames::try_allocate(&mut allocator, 8).is_none());
    assert_eq!(Frames::allocate(&mut allocator, 4).ppn, PhysPageNum(0x80214));
    four.dealloc(&mut allocator);
    eight.dealloc(&mut allocator);
    assert_eq!(count_free(&mut allocator), 12);
}

#[test]
fn the_self_test_fails_without_five_pairs() {
    // Frame 1, the pair at 2 and the block of four at 4: seven frames, three pairs.
    let mut allocator = pool(1, 8);
    assert!(!frame_allocator_test(&mut allocator));
    assert_eq!(count_free(&mut allocator), 7);
    // The lists are as they were: the block of four is whole again.
    assert_eq!(allocator.allocate(4), Some(PhysPageNum(4)));
    assert_eq!(allocator.allocate(2), Some(PhysPageNum(2)));
    assert_eq!(allocator.allocate(1), Some(PhysPageNum(1)));
    assert_eq!(allocator.allocate(1), None);
}

#[test]
fn the_self_test_passes_with_five_frames_and_five_pairs() {
    // Ten frames from 6: pairs at 6, 8, 10, 12 and 14.
    let mut allocator = pool(6, 16);
    assert!(frame_allocator_test(&mut allocator));
    assert_eq!(allocator.allocate(8), Some(PhysPageNum(8)));
    assert_eq!(allocator.allocate(2), Some(PhysPageNum(6)));
}
