//! Physical frame allocation: a pool of 4 KiB frames managed by a buddy
//! system, and owning handles for the frames taken from it.
//!
//! The pool is described by the free lists of the buddy system, one for each
//! block size, and by the set of frames that are free: the frames of the
//! blocks on the lists. Allocation takes a block out of the free set,
//! release puts it back; the lists tell which requests are served and with
//! which block.

use crate::address::PhysAddr;
use crate::address::PhysPageNum;
use crate::address::page_ceil;
use crate::address::page_floor;
use crate::free_lists::ORDERS;
use crate::free_lists::first_order;
use crate::free_lists::frames_of_order;
use crate::free_lists::is_lowest;
use crate::free_lists::lists_after_add;
use crate::free_lists::lists_after_alloc;
use crate::free_lists::lists_after_dealloc;
use crate::free_lists::no_lists;
use crate::free_lists::order_of;
use crate::free_lists::proper;
use crate::free_lists::blocks_of_order;
use crate::free_lists::lemma_trail_push;
use crate::free_lists::lemma_trail_release;
use crate::free_lists::lemma_trail_row;
use crate::free_lists::lists_after_release;
use crate::free_lists::served_trail;
use crate::free_lists::frame_range;
use crate::free_lists::frames_on;
use crate::free_lists::lemma_frames_in_range;
use crate::free_lists::lemma_no_frames;
use crate::free_lists::lemma_add_carved;
use crate::free_lists::lemma_alloc_proper;
use crate::free_lists::lemma_carved_proper;
use crate::free_lists::lemma_dealloc_proper;
use crate::free_lists::lemma_first_order;
use crate::free_lists::lemma_highest_order;
use crate::free_lists::lemma_no_lists_proper;
use crate::free_lists::lemma_order_bound;
use crate::free_lists::lemma_proper_without_frames;
use crate::free_lists::lemma_restored;
use buddy_system_allocator::FrameAllocator;
use vstd::prelude::*;
use vstd::set_lib::lemma_int_range;
use vstd::set_lib::lemma_len_subset;

verus! {

/// `buddy_system_allocator::FrameAllocator`: the buddy system, of which the
/// proofs know what the items below say.
#[verifier::external_type_specification]
#[verifier::external_body]
pub struct ExFrameAllocator<const ORDER: usize>(FrameAllocator<ORDER>);

/// The frames that were handed to the buddy system, free or in use.
pub uninterp spec fn buddy_managed(a: FrameAllocator<23>) -> Set<int>;

/// The free lists of the buddy system, one for each order from 0 to 22:
/// list `order` holds the first frames of the free blocks of `2^order`
/// frames.
pub uninterp spec fn buddy_lists(a: FrameAllocator<23>) -> Seq<Set<int>>;

/// Largest number of frames that one block of the pool can hold.
pub const MAX_BLOCK_FRAMES: usize = 0x40_0000;

/// Number of frames that a request for `count` frames reserves: the least
/// power of two that is not below `count`, and 1 for an empty request.
pub open spec fn block_size(count: int) -> int
    decreases count,
{
    if count <= 1 {
        1
    } else {
        2 * block_size((count + 1) / 2)
    }
}

/// The free set after the block of `count` frames at `start` was taken.
pub open spec fn free_after_alloc(free: Set<int>, start: int, count: int) -> Set<int> {
    free.difference(frame_range(start, block_size(count)))
}

/// The free set after the block of `count` frames at `start` was given back.
pub open spec fn free_after_dealloc(free: Set<int>, start: int, count: int) -> Set<int> {
    free.union(frame_range(start, block_size(count)))
}

/// `FrameAllocator::new`: a buddy system that manages no frame; its lists
/// are empty.
#[verifier::external_body]
fn buddy_new() -> (a: FrameAllocator<23>)
    ensures
        buddy_managed(a) == Set::<int>::empty(),
        buddy_lists(a) == no_lists(),
{
    FrameAllocator::new()
}

/// `FrameAllocator::add_frame`: hands the frames `start..end` to the buddy
/// system. It cuts them from `start` into blocks, each as large as its
/// alignment, the frames that are left and the highest order allow, and
/// puts each on the list of its order. The frames must be new to it.
#[verifier::external_body]
fn buddy_add_frame(a: &mut FrameAllocator<23>, start: usize, end: usize)
    requires
        start <= end,
        end - start < 0x80_0000,
        buddy_managed(*old(a)).disjoint(frame_range(start as int, end - start)),
    ensures
        buddy_lists(*final(a)) == lists_after_add(buddy_lists(*old(a)), start as int, end as int),
        buddy_managed(*final(a)) == buddy_managed(*old(a)).union(
            frame_range(start as int, end - start),
        ),
{
    a.add_frame(start, end)
}

/// `FrameAllocator::alloc`: looks through the lists from the order of the
/// request up. Where all of them are empty it returns `None` and changes
/// nothing. Else it takes the lowest block of the first list that has one,
/// halves it down to the order of the request, leaves the upper halves on
/// their lists and returns its first frame.
#[verifier::external_body]
fn buddy_alloc(a: &mut FrameAllocator<23>, count: usize) -> (r: Option<usize>)
    requires
        count <= MAX_BLOCK_FRAMES,
    ensures
        buddy_managed(*final(a)) == buddy_managed(*old(a)),
        r is Some <==> first_order(buddy_lists(*old(a)), order_of(count as int)) < 23,
        match r {
            Some(start) => {
                let from = first_order(buddy_lists(*old(a)), order_of(count as int));
                &&& is_lowest(buddy_lists(*old(a))[from], start as int)
                &&& buddy_lists(*final(a)) == lists_after_alloc(
                    buddy_lists(*old(a)),
                    order_of(count as int),
                    from,
                    start as int,
                )
            },
            None => buddy_lists(*final(a)) == buddy_lists(*old(a)),
        },
{
    a.alloc(count)
}

/// `FrameAllocator::dealloc`: gives the block of `block_size(count)` frames
/// at `start` back. While the buddy of the block is on the list of its
/// order, below the highest order, it takes the buddy off and goes on with
/// the two as one block of the next order; it puts what is left on the list
/// of its order. The block must be aligned to its size and made of managed
/// frames that are on no list.
#[verifier::external_body]
fn buddy_dealloc(a: &mut FrameAllocator<23>, start: usize, count: usize)
    requires
        count <= MAX_BLOCK_FRAMES,
        start as int % block_size(count as int) == 0,
        frame_range(start as int, block_size(count as int)).subset_of(buddy_managed(*old(a))),
        frame_range(start as int, block_size(count as int)).disjoint(
            frames_on(buddy_lists(*old(a))),
        ),
    ensures
        buddy_managed(*final(a)) == buddy_managed(*old(a)),
        buddy_lists(*final(a)) == lists_after_dealloc(
            buddy_lists(*old(a)),
            start as int,
            order_of(count as int),
        ),
{
    a.dealloc(start, count)
}

/// A request reserves a block of its order.
pub proof fn lemma_order_of(count: int)
    ensures
        order_of(count) >= 0,
        block_size(count) == frames_of_order(order_of(count)),
    decreases count,
{
    if count > 1 {
        lemma_order_of((count + 1) / 2);
    }
}

/// A request reserves at least one frame and at least what was asked for.
pub proof fn lemma_block_size_bounds(count: int)
    ensures
        block_size(count) >= 1,
        block_size(count) >= count,
        count >= 1 ==> block_size(count) < 2 * count,
    decreases count,
{
    if count > 1 {
        lemma_block_size_bounds((count + 1) / 2);
    }
}

/// The pool of physical frames.
pub struct BuddyFrameAllocator {
    allocator: FrameAllocator<23>,
    begin: usize,
    end: usize,
}

impl BuddyFrameAllocator {
    /// The frames that are free: the frames of the blocks on the lists.
    pub closed spec fn free(&self) -> Set<int> {
        frames_on(buddy_lists(self.allocator))
    }

    /// The free lists: list `order` holds the first frames of the free
    /// blocks of `2^order` frames.
    pub closed spec fn lists(&self) -> Seq<Set<int>> {
        buddy_lists(self.allocator)
    }

    /// Whether a request for `num` frames is served: a list of its order or
    /// of a higher one has a block.
    pub open spec fn serves(&self, num: int) -> bool {
        num <= MAX_BLOCK_FRAMES && first_order(self.lists(), order_of(num)) < ORDERS
    }

    /// Whether `times` requests for `num` frames, one after the other, are
    /// all served.
    pub open spec fn serves_row(&self, num: int, times: int) -> bool {
        crate::free_lists::serves_row(self.lists(), order_of(num), times)
    }

    /// First frame of the window that the pool was given.
    pub closed spec fn begin(&self) -> int {
        self.begin as int
    }

    /// The frame after the last one of the window.
    pub closed spec fn end(&self) -> int {
        self.end as int
    }

    /// The pool manages exactly its window, and its lists are proper lists
    /// of the window.
    pub closed spec fn wf(&self) -> bool {
        &&& self.begin <= self.end
        &&& buddy_managed(self.allocator) == frame_range(self.begin as int, self.end - self.begin)
        &&& proper(self.lists(), self.begin as int, self.end as int)
    }

    /// Whether frame `ppn` belongs to the pool and is in use.
    pub open spec fn in_use(&self, ppn: int) -> bool {
        self.begin() <= ppn < self.end() && !self.free().contains(ppn)
    }

    /// Whether all frames of the block of `count` frames at `start` are in
    /// use.
    pub open spec fn block_in_use(&self, start: int, count: int) -> bool {
        forall|f: int| start <= f < start + block_size(count) ==> self.in_use(f)
    }

    /// The free frames lie in the window, and there are finitely many.
    pub proof fn lemma_free_in_window(&self)
        requires
            self.wf(),
        ensures
            self.begin() <= self.end(),
            forall|f: int| self.free().contains(f) ==> self.begin() <= f < self.end(),
            self.free().finite(),
            self.free().len() <= self.end() - self.begin(),
    {
        let window = frame_range(self.begin as int, self.end - self.begin);
        lemma_frames_in_range(self.lists(), self.begin as int, self.end as int);
        lemma_int_range(self.begin as int, self.end as int);
        lemma_len_subset(self.free(), window);
        assert forall|f: int| self.free().contains(f) implies self.begin() <= f < self.end() by {
            assert(window.contains(f));
        }
    }

    /// Create a pool without frames.
    pub fn new() -> (r: Self)
        ensures
            r.wf(),
            r.free() == Set::<int>::empty(),
            r.lists() == no_lists(),
            r.begin() == 0,
            r.end() == 0,
    {
        let r = BuddyFrameAllocator { allocator: buddy_new(), begin: 0, end: 0 };
        assert(frame_range(0, 0) =~= Set::<int>::empty());
        proof {
            lemma_no_lists_proper(0, 0);
        }
        r
    }

    /// Declare the window of frames `begin..end`; all of them are free
    /// afterwards. To be called once, on a pool without frames.
    pub fn init(&mut self, begin: PhysPageNum, end: PhysPageNum)
        requires
            old(self).wf(),
            old(self).begin() == old(self).end(),
            begin.0 <= end.0 <= usize::MAX,
            end.0 - begin.0 < 0x80_0000,
        ensures
            final(self).wf(),
            final(self).begin() == begin.0,
            final(self).end() == end.0,
            final(self).free() == frame_range(begin.0 as int, end.0 - begin.0),
            final(self).lists() == lists_after_add(
                old(self).lists(),
                begin.0 as int,
                end.0 as int,
            ),
    {
        let b: usize = begin.0 as usize;
        let e: usize = end.0 as usize;
        proof {
            assert(buddy_managed(self.allocator) =~= Set::<int>::empty());
            lemma_proper_without_frames(self.lists(), self.begin as int);
            lemma_add_carved(self.lists(), b as int, b as int, e as int);
        }
        buddy_add_frame(&mut self.allocator, b, e);
        self.begin = b;
        self.end = e;
        proof {
            assert(buddy_managed(self.allocator) =~= frame_range(b as int, e - b));
            lemma_carved_proper(self.lists(), b as int, e as int);
            assert(self.free() =~= frame_range(b as int, e - b));
        }
    }

    /// Take `num` contiguous frames (one frame for `num == 0`): the block of
    /// `block_size(num)` frames at the returned frame leaves the free set.
    /// `None` leaves the pool as it was; a single frame is refused only when
    /// no frame is free, a block of more than `MAX_BLOCK_FRAMES` always.
    ///
    /// The request is served exactly when a list of its order or of a
    /// higher one has a block, and then with the lowest block of the first
    /// such list.
    pub fn allocate(&mut self, num: usize) -> (r: Option<PhysPageNum>)
        requires
            old(self).wf(),
        ensures
            final(self).wf(),
            final(self).begin() == old(self).begin(),
            final(self).end() == old(self).end(),
            r is Some <==> old(self).serves(num as int),
            match r {
                Some(ppn) => {
                    let from = first_order(old(self).lists(), order_of(num as int));
                    &&& is_lowest(old(self).lists()[from], ppn.0 as int)
                    &&& final(self).lists() == lists_after_alloc(
                        old(self).lists(),
                        order_of(num as int),
                        from,
                        ppn.0 as int,
                    )
                },
                None => final(self).lists() == old(self).lists(),
            },
            match r {
                Some(ppn) => {
                    &&& old(self).begin() <= ppn.0
                    &&& ppn.0 + block_size(num as int) <= old(self).end()
                    &&& ppn.0 as int % block_size(num as int) == 0
                    &&& frame_range(ppn.0 as int, block_size(num as int)).subset_of(
                        old(self).free(),
                    )
                    &&& final(self).free() == free_after_alloc(
                        old(self).free(),
                        ppn.0 as int,
                        num as int,
                    )
                },
                None => final(self).free() == old(self).free(),
            },
            num <= 1 ==> (r is None <==> old(self).free() == Set::<int>::empty()),
            num > MAX_BLOCK_FRAMES ==> r is None,
    {
        if num > MAX_BLOCK_FRAMES {
            proof {
                if num <= 1 {
                }
            }
            return None;
        }
        proof {
            lemma_block_size_bounds(num as int);
            self.lemma_free_in_window();
            lemma_order_of(num as int);
            lemma_no_frames(self.lists());
            if num <= 1 {
                assert(order_of(num as int) == 0);
                lemma_first_order(self.lists(), 0);
            }
        }
        match buddy_alloc(&mut self.allocator, num) {
            Some(start) => {
                proof {
                    lemma_alloc_proper(
                        old(self).lists(),
                        order_of(num as int),
                        start as int,
                        self.begin as int,
                        self.end as int,
                    );
                    let block = frame_range(start as int, block_size(num as int));
                    assert(block.contains(start as int));
                    assert(block.contains(start + block_size(num as int) - 1));
                    assert(old(self).free().contains(start as int));
                    assert(old(self).free().contains(start + block_size(num as int) - 1));
                }
                Some(PhysPageNum(start as u64))
            },
            None => None,
        }
    }

    /// Give back the `num` contiguous frames at `frame` (one frame for
    /// `num == 0`), exactly as they were taken: the block of
    /// `block_size(num)` frames returns to the free set.
    pub fn dealloc(&mut self, frame: PhysPageNum, num: usize)
        requires
            old(self).wf(),
            num <= MAX_BLOCK_FRAMES,
            frame.0 as int % block_size(num as int) == 0,
            old(self).block_in_use(frame.0 as int, num as int),
        ensures
            final(self).wf(),
            final(self).begin() == old(self).begin(),
            final(self).end() == old(self).end(),
            final(self).free() == free_after_dealloc(old(self).free(), frame.0 as int, num as int),
            final(self).lists() == lists_after_dealloc(
                old(self).lists(),
                frame.0 as int,
                order_of(num as int),
            ),
    {
        proof {
            lemma_block_size_bounds(num as int);
            assert(self.in_use(frame.0 as int));
            assert(self.in_use(frame.0 + block_size(num as int) - 1));
            lemma_order_of(num as int);
            lemma_highest_order();
            lemma_order_bound(num as int, 22);
            assert forall|f: int|
                frame_range(frame.0 as int, block_size(num as int)).contains(
                    f,
                ) implies !self.free().contains(f) by {
                assert(self.in_use(f));
            }
            lemma_dealloc_proper(
                self.lists(),
                frame.0 as int,
                order_of(num as int),
                self.begin as int,
                self.end as int,
            );
        }
        let start: usize = frame.0 as usize;
        proof {
            let block = frame_range(start as int, block_size(num as int));
            assert forall|f: int| block.contains(f) implies buddy_managed(self.allocator).contains(
                f,
            ) && !frames_on(buddy_lists(self.allocator)).contains(f) by {
                assert(self.in_use(f));
            }
        }
        buddy_dealloc(&mut self.allocator, start, num);
    }
}

/// Taking a block and giving it back restores the free set.
pub proof fn lemma_alloc_dealloc_restores(free: Set<int>, start: int, count: int)
    requires
        frame_range(start, block_size(count)).subset_of(free),
    ensures
        free_after_dealloc(free_after_alloc(free, start, count), start, count) == free,
{
    assert(free_after_dealloc(free_after_alloc(free, start, count), start, count) =~= free);
}

/// Taking the block that a request is served with and giving it back
/// restores the free lists: the pool then serves every request that it
/// served before, and with the same block.
pub proof fn lemma_alloc_dealloc_restores_lists(
    lists: Seq<Set<int>>,
    begin: int,
    end: int,
    count: int,
    block: int,
)
    requires
        proper(lists, begin, end),
        first_order(lists, order_of(count)) < ORDERS,
        is_lowest(lists[first_order(lists, order_of(count))], block),
    ensures
        lists_after_dealloc(
            lists_after_alloc(lists, order_of(count), first_order(lists, order_of(count)), block),
            block,
            order_of(count),
        ) == lists,
{
    lemma_order_of(count);
    lemma_first_order(lists, order_of(count));
    lemma_restored(lists, order_of(count), first_order(lists, order_of(count)), block, begin, end);
}

/// A block that is taken while another one is in use does not overlap it:
/// the second block comes out of what the first one left free.
pub proof fn lemma_live_blocks_disjoint(
    free: Set<int>,
    first: int,
    first_count: int,
    second: int,
    second_count: int,
)
    requires
        frame_range(first, block_size(first_count)).subset_of(free),
        frame_range(second, block_size(second_count)).subset_of(
            free_after_alloc(free, first, first_count),
        ),
    ensures
        frame_range(first, block_size(first_count)).disjoint(
            frame_range(second, block_size(second_count)),
        ),
{
}

/// A block that is in use stays out of the free set while other blocks are
/// taken and given back.
pub proof fn lemma_live_block_stays(free: Set<int>, live: int, start: int, count: int)
    requires
        !free.contains(live),
        !frame_range(start, block_size(count)).contains(live),
    ensures
        !free_after_alloc(free, start, count).contains(live),
        !free_after_dealloc(free, start, count).contains(live),
{
}

/// The pool had no free frame left for a request.
#[derive(Clone, Copy, PartialEq, Eq, Debug, Structural)]
pub struct OutOfFrames;

/// Exclusive ownership of one physical frame.
#[derive(Debug)]
pub struct Frame {
    pub ppn: PhysPageNum,
}

impl Frame {
    /// Take one frame from a pool that has a free frame.
    pub fn allocate(allocator: &mut BuddyFrameAllocator) -> (r: Self)
        requires
            old(allocator).wf(),
            old(allocator).free() != Set::<int>::empty(),
        ensures
            final(allocator).wf(),
            final(allocator).begin() == old(allocator).begin(),
            final(allocator).end() == old(allocator).end(),
            old(allocator).free().contains(r.ppn.0 as int),
            final(allocator).free() == old(allocator).free().remove(r.ppn.0 as int),
            final(allocator).in_use(r.ppn.0 as int),
    {
        Self::try_allocate(allocator).unwrap()
    }

    /// Take one frame from the pool; `None` exactly when no frame is free.
    pub fn try_allocate(allocator: &mut BuddyFrameAllocator) -> (r: Option<Self>)
        requires
            old(allocator).wf(),
        ensures
            final(allocator).wf(),
            final(allocator).begin() == old(allocator).begin(),
            final(allocator).end() == old(allocator).end(),
            r is None <==> old(allocator).free() == Set::<int>::empty(),
            r is Some <==> first_order(old(allocator).lists(), 0) < ORDERS,
            match r {
                Some(frame) => {
                    &&& old(allocator).free().contains(frame.ppn.0 as int)
                    &&& final(allocator).free() == old(allocator).free().remove(frame.ppn.0 as int)
                    &&& final(allocator).in_use(frame.ppn.0 as int)
                    &&& is_lowest(
                        old(allocator).lists()[first_order(old(allocator).lists(), 0)],
                        frame.ppn.0 as int,
                    )
                    &&& final(allocator).lists() == lists_after_alloc(
                        old(allocator).lists(),
                        0,
                        first_order(old(allocator).lists(), 0),
                        frame.ppn.0 as int,
                    )
                },
                None => {
                    &&& final(allocator).free() == old(allocator).free()
                    &&& final(allocator).lists() == old(allocator).lists()
                },
            },
    {
        assert(order_of(1) == 0);
        match allocator.allocate(1) {
            Some(ppn) => {
                proof {
                    assert(frame_range(ppn.0 as int, 1).contains(ppn.0 as int));
                    assert(allocator.free() =~= old(allocator).free().remove(ppn.0 as int));
                }
                Some(Frame { ppn })
            },
            None => None,
        }
    }

    /// Give the frame back to the pool.
    pub fn dealloc(self, allocator: &mut BuddyFrameAllocator)
        requires
            old(allocator).wf(),
            old(allocator).in_use(self.ppn.0 as int),
        ensures
            final(allocator).wf(),
            final(allocator).begin() == old(allocator).begin(),
            final(allocator).end() == old(allocator).end(),
            final(allocator).free() == old(allocator).free().insert(self.ppn.0 as int),
            final(allocator).lists() == lists_after_dealloc(
                old(allocator).lists(),
                self.ppn.0 as int,
                0,
            ),
    {
        assert(order_of(1) == 0);
        allocator.dealloc(self.ppn, 1);
        proof {
            assert(allocator.free() =~= old(allocator).free().insert(self.ppn.0 as int));
        }
    }
}

/// The frame numbers of a sequence of handles.
pub open spec fn ppns_of(frames: Seq<Frame>) -> Set<int> {
    Set::new(|p: int| exists|i: int| 0 <= i < frames.len() && #[trigger] frames[i].ppn.0 == p)
}

/// Whether no two handles of the sequence are for the same frame.
pub open spec fn distinct_frames(frames: Seq<Frame>) -> bool {
    forall|i: int, j: int|
        0 <= i < j < frames.len() ==> (#[trigger] frames[i]).ppn != (#[trigger] frames[j]).ppn
}

/// The frame numbers of a sequence with one more handle.
pub proof fn lemma_ppns_push(frames: Seq<Frame>, frame: Frame)
    ensures
        ppns_of(frames.push(frame)) == ppns_of(frames).insert(frame.ppn.0 as int),
{
    let longer = frames.push(frame);
    assert forall|p: int| ppns_of(longer).contains(p) == ppns_of(frames).insert(
        frame.ppn.0 as int,
    ).contains(p) by {
        if ppns_of(longer).contains(p) {
            let i = choose|i: int| 0 <= i < longer.len() && #[trigger] longer[i].ppn.0 == p;
            if i < frames.len() {
                assert(frames[i].ppn.0 == p);
            }
        }
        if ppns_of(frames).contains(p) {
            let i = choose|i: int| 0 <= i < frames.len() && #[trigger] frames[i].ppn.0 == p;
            assert(longer[i].ppn.0 == p);
        }
        if p == frame.ppn.0 {
            assert(longer[frames.len() as int].ppn.0 == p);
        }
    }
    assert(ppns_of(longer) =~= ppns_of(frames).insert(frame.ppn.0 as int));
}

/// The frame numbers of a sequence without its last handle, where no frame
/// occurs twice.
pub proof fn lemma_ppns_drop_last(frames: Seq<Frame>)
    requires
        frames.len() > 0,
        distinct_frames(frames),
    ensures
        ppns_of(frames.drop_last()) == ppns_of(frames).remove(frames.last().ppn.0 as int),
        distinct_frames(frames.drop_last()),
{
    let shorter = frames.drop_last();
    assert forall|p: int| ppns_of(shorter).contains(p) == ppns_of(frames).remove(
        frames.last().ppn.0 as int,
    ).contains(p) by {
        if ppns_of(shorter).contains(p) {
            let i = choose|i: int| 0 <= i < shorter.len() && #[trigger] shorter[i].ppn.0 == p;
            assert(frames[i].ppn.0 == p);
            assert(frames[i].ppn != frames[frames.len() - 1].ppn);
        }
        if ppns_of(frames).remove(frames.last().ppn.0 as int).contains(p) {
            let i = choose|i: int| 0 <= i < frames.len() && #[trigger] frames[i].ppn.0 == p;
            assert(shorter[i].ppn.0 == p);
        }
    }
    assert(ppns_of(shorter) =~= ppns_of(frames).remove(frames.last().ppn.0 as int));
    assert forall|i: int, j: int| 0 <= i < j < shorter.len() implies (#[trigger] shorter[i]).ppn
        != (
    #[trigger] shorter[j]).ppn by {
        assert(frames[i].ppn != frames[j].ppn);
    }
}

/// The frames of the handles as blocks of one frame each.
pub open spec fn single_blocks(frames: Seq<Frame>) -> Seq<(int, int)> {
    Seq::new(frames.len(), |at: int| (frames[at].ppn.0 as int, 0int))
}

/// Give all the frames back to the pool, from the last to the first. Each
/// must be in use, and none may occur twice.
pub fn dealloc_all(frames: Vec<Frame>, allocator: &mut BuddyFrameAllocator)
    requires
        old(allocator).wf(),
        distinct_frames(frames@),
        forall|p: int| #[trigger] ppns_of(frames@).contains(p) ==> old(allocator).in_use(p),
    ensures
        final(allocator).wf(),
        final(allocator).begin() == old(allocator).begin(),
        final(allocator).end() == old(allocator).end(),
        final(allocator).free() == old(allocator).free().union(ppns_of(frames@)),
        final(allocator).lists() == lists_after_release(
            old(allocator).lists(),
            single_blocks(frames@),
        ),
{
    let mut frames = frames;
    let ghost all = frames@;
    proof {
        assert(allocator.free().union(ppns_of(frames@)) =~= old(allocator).free().union(
            ppns_of(all),
        ));
    }
    while frames.len() > 0
        invariant
            allocator.wf(),
            allocator.begin() == old(allocator).begin(),
            allocator.end() == old(allocator).end(),
            distinct_frames(frames@),
            forall|p: int| #[trigger] ppns_of(frames@).contains(p) ==> allocator.in_use(p),
            allocator.free().union(ppns_of(frames@)) == old(allocator).free().union(ppns_of(all)),
            lists_after_release(allocator.lists(), single_blocks(frames@)) == lists_after_release(
                old(allocator).lists(),
                single_blocks(all),
            ),
        decreases frames.len(),
    {
        let ghost before = frames@;
        let ghost free_before = allocator.free();
        proof {
            lemma_ppns_drop_last(before);
            assert(before[before.len() - 1].ppn.0 == before.last().ppn.0);
            assert(ppns_of(before).contains(before.last().ppn.0 as int));
            assert(single_blocks(before).last() == (before.last().ppn.0 as int, 0int));
            assert(single_blocks(before).drop_last() =~= single_blocks(before.drop_last()));
        }
        let frame = frames.pop().unwrap();
        assert(frames@ == before.drop_last());
        frame.dealloc(allocator);
        proof {
            assert(allocator.free().union(ppns_of(frames@)) =~= free_before.union(ppns_of(before)));
            assert forall|p: int| #[trigger] ppns_of(frames@).contains(p) implies allocator.in_use(
                p,
            ) by {
                assert(ppns_of(before).contains(p));
            }
        }
    }
    proof {
        assert(ppns_of(frames@) =~= Set::<int>::empty());
        assert(allocator.free() =~= old(allocator).free().union(ppns_of(all)));
    }
}

/// Exclusive ownership of `num` contiguous physical frames, starting at
/// `ppn`.
#[derive(Debug)]
pub struct Frames {
    pub ppn: PhysPageNum,
    pub num: usize,
}

impl Frames {
    /// Take `num` contiguous frames from a pool that serves the request:
    /// the lowest block of the first list, from the order of the request
    /// up, that has one.
    pub fn allocate(allocator: &mut BuddyFrameAllocator, num: usize) -> (r: Self)
        requires
            old(allocator).wf(),
            old(allocator).serves(num as int),
        ensures
            final(allocator).wf(),
            final(allocator).begin() == old(allocator).begin(),
            final(allocator).end() == old(allocator).end(),
            r.num == num,
            is_lowest(
                old(allocator).lists()[first_order(old(allocator).lists(), order_of(num as int))],
                r.ppn.0 as int,
            ),
            old(allocator).begin() <= r.ppn.0,
            r.ppn.0 + block_size(num as int) <= old(allocator).end(),
            r.ppn.0 as int % block_size(num as int) == 0,
            frame_range(r.ppn.0 as int, block_size(num as int)).subset_of(old(allocator).free()),
            final(allocator).free() == free_after_alloc(
                old(allocator).free(),
                r.ppn.0 as int,
                num as int,
            ),
            final(allocator).block_in_use(r.ppn.0 as int, num as int),
    {
        Self::try_allocate(allocator, num).unwrap()
    }

    /// Take `num` contiguous frames from the pool: the lowest block of the
    /// first list, from the order of the request up, that has one. `None`,
    /// where there is no such list, leaves the pool as it was.
    pub fn try_allocate(allocator: &mut BuddyFrameAllocator, num: usize) -> (r: Option<Self>)
        requires
            old(allocator).wf(),
        ensures
            final(allocator).wf(),
            final(allocator).begin() == old(allocator).begin(),
            final(allocator).end() == old(allocator).end(),
            r is Some <==> old(allocator).serves(num as int),
            num <= 1 ==> (r is None <==> old(allocator).free() == Set::<int>::empty()),
            num > MAX_BLOCK_FRAMES ==> r is None,
            match r {
                Some(frames) => {
                    &&& frames.num == num
                    &&& is_lowest(
                        old(allocator).lists()[first_order(
                            old(allocator).lists(),
                            order_of(num as int),
                        )],
                        frames.ppn.0 as int,
                    )
                    &&& old(allocator).begin() <= frames.ppn.0
                    &&& frames.ppn.0 + block_size(num as int) <= old(allocator).end()
                    &&& frames.ppn.0 as int % block_size(num as int) == 0
                    &&& frame_range(frames.ppn.0 as int, block_size(num as int)).subset_of(
                        old(allocator).free(),
                    )
                    &&& final(allocator).free() == free_after_alloc(
                        old(allocator).free(),
                        frames.ppn.0 as int,
                        num as int,
                    )
                    &&& final(allocator).block_in_use(frames.ppn.0 as int, num as int)
                    &&& final(allocator).lists() == lists_after_alloc(
                        old(allocator).lists(),
                        order_of(num as int),
                        first_order(old(allocator).lists(), order_of(num as int)),
                        frames.ppn.0 as int,
                    )
                },
                None => {
                    &&& final(allocator).free() == old(allocator).free()
                    &&& final(allocator).lists() == old(allocator).lists()
                },
            },
    {
        match allocator.allocate(num) {
            Some(ppn) => Some(Frames { ppn, num }),
            None => None,
        }
    }

    /// Give the frames back to the pool.
    pub fn dealloc(self, allocator: &mut BuddyFrameAllocator)
        requires
            old(allocator).wf(),
            self.num <= MAX_BLOCK_FRAMES,
            self.ppn.0 as int % block_size(self.num as int) == 0,
            old(allocator).block_in_use(self.ppn.0 as int, self.num as int),
        ensures
            final(allocator).wf(),
            final(allocator).begin() == old(allocator).begin(),
            final(allocator).end() == old(allocator).end(),
            final(allocator).free() == free_after_dealloc(
                old(allocator).free(),
                self.ppn.0 as int,
                self.num as int,
            ),
            final(allocator).lists() == lists_after_dealloc(
                old(allocator).lists(),
                self.ppn.0 as int,
                order_of(self.num as int),
            ),
    {
        allocator.dealloc(self.ppn, self.num);
    }
}

/// The frames of the blocks of a sequence of handles.
pub open spec fn frames_of_blocks(blocks: Seq<Frames>) -> Set<int> {
    Set::new(
        |p: int|
            exists|i: int|
                0 <= i < blocks.len() && frame_range(
                    (#[trigger] blocks[i]).ppn.0 as int,
                    block_size(blocks[i].num as int),
                ).contains(p),
    )
}

/// Whether the handles are for blocks as the pool gives them, no two of
/// which share a frame.
pub open spec fn blocks_apart(blocks: Seq<Frames>) -> bool {
    &&& forall|i: int|
        0 <= i < blocks.len() ==> (#[trigger] blocks[i]).num <= MAX_BLOCK_FRAMES
            && blocks[i].ppn.0 as int % block_size(blocks[i].num as int) == 0
    &&& forall|i: int, j: int|
        0 <= i < j < blocks.len() ==> frame_range(
            (#[trigger] blocks[i]).ppn.0 as int,
            block_size(blocks[i].num as int),
        ).disjoint(
            frame_range((#[trigger] blocks[j]).ppn.0 as int, block_size(blocks[j].num as int)),
        )
}

/// The frames of a sequence of blocks with one more block.
pub proof fn lemma_blocks_push(blocks: Seq<Frames>, block: Frames)
    ensures
        frames_of_blocks(blocks.push(block)) == frames_of_blocks(blocks).union(
            frame_range(block.ppn.0 as int, block_size(block.num as int)),
        ),
{
    let longer = blocks.push(block);
    let range = frame_range(block.ppn.0 as int, block_size(block.num as int));
    assert forall|p: int| frames_of_blocks(longer).contains(p) == frames_of_blocks(blocks).union(
        range,
    ).contains(p) by {
        if frames_of_blocks(longer).contains(p) {
            let i = choose|i: int|
                0 <= i < longer.len() && frame_range(
                    (#[trigger] longer[i]).ppn.0 as int,
                    block_size(longer[i].num as int),
                ).contains(p);
            if i < blocks.len() {
                assert(frame_range(
                    blocks[i].ppn.0 as int,
                    block_size(blocks[i].num as int),
                ).contains(p));
            }
        }
        if frames_of_blocks(blocks).contains(p) {
            let i = choose|i: int|
                0 <= i < blocks.len() && frame_range(
                    (#[trigger] blocks[i]).ppn.0 as int,
                    block_size(blocks[i].num as int),
                ).contains(p);
            assert(frame_range(
                longer[i].ppn.0 as int,
                block_size(longer[i].num as int),
            ).contains(p));
        }
        if range.contains(p) {
            assert(frame_range(
                longer[blocks.len() as int].ppn.0 as int,
                block_size(longer[blocks.len() as int].num as int),
            ).contains(p));
        }
    }
    assert(frames_of_blocks(longer) =~= frames_of_blocks(blocks).union(range));
}

/// The frames of a sequence of blocks without its last block, where no two
/// blocks share a frame.
pub proof fn lemma_blocks_drop_last(blocks: Seq<Frames>)
    requires
        blocks.len() > 0,
        blocks_apart(blocks),
    ensures
        blocks_apart(blocks.drop_last()),
        frames_of_blocks(blocks) == frames_of_blocks(blocks.drop_last()).union(
            frame_range(blocks.last().ppn.0 as int, block_size(blocks.last().num as int)),
        ),
        frames_of_blocks(blocks.drop_last()).disjoint(
            frame_range(blocks.last().ppn.0 as int, block_size(blocks.last().num as int)),
        ),
{
    let shorter = blocks.drop_last();
    assert(shorter.push(blocks.last()) =~= blocks);
    lemma_blocks_push(shorter, blocks.last());
    let range = frame_range(blocks.last().ppn.0 as int, block_size(blocks.last().num as int));
    assert forall|i: int, j: int| 0 <= i < j < shorter.len() implies frame_range(
        (#[trigger] shorter[i]).ppn.0 as int,
        block_size(shorter[i].num as int),
    ).disjoint(
        frame_range((#[trigger] shorter[j]).ppn.0 as int, block_size(shorter[j].num as int)),
    ) by {
        assert(shorter[i] == blocks[i] && shorter[j] == blocks[j]);
    }
    assert forall|i: int| 0 <= i < shorter.len() implies (#[trigger] shorter[i]).num
        <= MAX_BLOCK_FRAMES && shorter[i].ppn.0 as int % block_size(shorter[i].num as int) == 0 by {
        assert(shorter[i] == blocks[i]);
    }
    assert forall|p: int| frames_of_blocks(shorter).contains(p) implies !range.contains(p) by {
        let i = choose|i: int|
            0 <= i < shorter.len() && frame_range(
                (#[trigger] shorter[i]).ppn.0 as int,
                block_size(shorter[i].num as int),
            ).contains(p);
        assert(shorter[i] == blocks[i]);
        assert(frame_range(blocks[i].ppn.0 as int, block_size(blocks[i].num as int)).disjoint(
            frame_range(
                blocks[blocks.len() - 1].ppn.0 as int,
                block_size(blocks[blocks.len() - 1].num as int),
            ),
        ));
    }
}

/// The blocks of the handles, each with its order.
pub open spec fn whole_blocks(blocks: Seq<Frames>) -> Seq<(int, int)> {
    Seq::new(blocks.len(), |at: int| (blocks[at].ppn.0 as int, order_of(blocks[at].num as int)))
}

/// Give all the blocks back to the pool, from the last to the first. Each
/// must be in use as it was taken, and no two may share a frame.
pub fn dealloc_all_blocks(blocks: Vec<Frames>, allocator: &mut BuddyFrameAllocator)
    requires
        old(allocator).wf(),
        blocks_apart(blocks@),
        forall|p: int| #[trigger] frames_of_blocks(blocks@).contains(p)
            ==> old(allocator).in_use(p),
    ensures
        final(allocator).wf(),
        final(allocator).begin() == old(allocator).begin(),
        final(allocator).end() == old(allocator).end(),
        final(allocator).free() == old(allocator).free().union(frames_of_blocks(blocks@)),
        final(allocator).lists() == lists_after_release(
            old(allocator).lists(),
            whole_blocks(blocks@),
        ),
{
    let mut blocks = blocks;
    let ghost all = blocks@;
    while blocks.len() > 0
        invariant
            allocator.wf(),
            allocator.begin() == old(allocator).begin(),
            allocator.end() == old(allocator).end(),
            blocks_apart(blocks@),
            forall|p: int| #[trigger] frames_of_blocks(blocks@).contains(p) ==> allocator.in_use(p),
            allocator.free().union(frames_of_blocks(blocks@)) == old(allocator).free().union(
                frames_of_blocks(all),
            ),
            lists_after_release(allocator.lists(), whole_blocks(blocks@)) == lists_after_release(
                old(allocator).lists(),
                whole_blocks(all),
            ),
        decreases blocks.len(),
    {
        let ghost before = blocks@;
        let ghost free_before = allocator.free();
        proof {
            lemma_blocks_drop_last(before);
            assert(whole_blocks(before).last() == (
                before.last().ppn.0 as int,
                order_of(before.last().num as int),
            ));
            assert(whole_blocks(before).drop_last() =~= whole_blocks(before.drop_last()));
        }
        let block = blocks.pop().unwrap();
        assert(blocks@ == before.drop_last());
        proof {
            let range = frame_range(block.ppn.0 as int, block_size(block.num as int));
            assert forall|f: int|
                block.ppn.0 <= f < block.ppn.0 + block_size(
                    block.num as int,
                ) implies allocator.in_use(f) by {
                assert(range.contains(f));
                assert(frames_of_blocks(before).contains(f));
            }
        }
        block.dealloc(allocator);
        proof {
            assert(allocator.free().union(frames_of_blocks(blocks@)) =~= free_before.union(
                frames_of_blocks(before),
            ));
            assert forall|p: int| #[trigger]
                frames_of_blocks(blocks@).contains(p) implies allocator.in_use(p) by {
                assert(frames_of_blocks(before).contains(p));
            }
        }
    }
    proof {
        assert(frames_of_blocks(blocks@) =~= Set::<int>::empty());
        assert(allocator.free() =~= old(allocator).free().union(frames_of_blocks(all)));
    }
}

/// Exercise the pool: take five single frames and give them back, then
/// take five blocks of two frames and give them back. The pool is left as it
/// was, its lists too. The result tells whether every request was served:
/// five requests for one frame in a row, which are served exactly when five
/// frames are free, and five requests for two frames in a row.
pub fn frame_allocator_test(allocator: &mut BuddyFrameAllocator) -> (r: bool)
    requires
        old(allocator).wf(),
    ensures
        final(allocator).wf(),
        final(allocator).begin() == old(allocator).begin(),
        final(allocator).end() == old(allocator).end(),
        final(allocator).free() == old(allocator).free(),
        final(allocator).lists() == old(allocator).lists(),
        r <==> old(allocator).serves_row(1, 5) && old(allocator).serves_row(2, 5),
        r ==> old(allocator).free().len() >= 5,
{
    let mut served = true;
    let mut singles: Vec<Frame> = Vec::new();
    let mut i: usize = 0;
    let ghost mut trail: Seq<Seq<Set<int>>> = seq![allocator.lists()];
    let ghost mut taken: Seq<int> = Seq::empty();
    proof {
        assert(order_of(1) == 0);
        assert(order_of(2) == 1) by {
            reveal_with_fuel(order_of, 3);
        }
        assert(single_blocks(singles@) =~= blocks_of_order(taken, 0));
        allocator.lemma_free_in_window();
        assert(ppns_of(singles@) =~= Set::<int>::empty());
        assert(allocator.free() =~= old(allocator).free().difference(ppns_of(singles@)));
    }
    while i < 5 && served
        invariant
            i <= 5,
            allocator.wf(),
            allocator.begin() == old(allocator).begin(),
            allocator.end() == old(allocator).end(),
            distinct_frames(singles@),
            ppns_of(singles@).subset_of(old(allocator).free()),
            allocator.free() == old(allocator).free().difference(ppns_of(singles@)),
            old(allocator).free().finite(),
            served ==> singles@.len() == i,
            allocator.free().len() == old(allocator).free().len() - singles@.len(),
            served_trail(trail, taken, 0, allocator.begin(), allocator.end()),
            trail[0] == old(allocator).lists(),
            trail.last() == allocator.lists(),
            single_blocks(singles@) == blocks_of_order(taken, 0),
            singles@.len() <= i,
            !served ==> i < 5 && first_order(allocator.lists(), 0) >= ORDERS,
        decreases 5 - i + if served {
            1int
        } else {
            0int
        },
    {
        let ghost held = singles@;
        proof {
            allocator.lemma_free_in_window();
        }
        match Frame::try_allocate(allocator) {
            Some(frame) => {
                singles.push(frame);
                proof {
                    lemma_trail_push(
                        trail,
                        taken,
                        0,
                        allocator.begin(),
                        allocator.end(),
                        frame.ppn.0 as int,
                    );
                    let ghost before = taken;
                    trail = trail.push(allocator.lists());
                    taken = taken.push(frame.ppn.0 as int);
                    assert(single_blocks(held).len() == before.len());
                    assert forall|at: int| 0 <= at < singles@.len() implies single_blocks(
                        singles@,
                    )[at] == blocks_of_order(taken, 0)[at] by {
                        if at < held.len() {
                            assert(singles@[at] == held[at]);
                            assert(single_blocks(held)[at] == blocks_of_order(before, 0)[at]);
                        }
                    }
                    assert(single_blocks(singles@) =~= blocks_of_order(taken, 0));
                    lemma_ppns_push(held, frame);
                    assert(!ppns_of(held).contains(frame.ppn.0 as int));
                    assert forall|a: int, b: int| 0 <= a < b < singles@.len() implies (
                    #[trigger] singles@[a]).ppn != (#[trigger] singles@[b]).ppn by {
                        if b == held.len() {
                            assert(held[a].ppn.0 == singles@[a].ppn.0);
                            assert(ppns_of(held).contains(held[a].ppn.0 as int));
                        } else {
                            assert(held[a].ppn != held[b].ppn);
                        }
                    }
                    assert(allocator.free() =~= old(allocator).free().difference(
                        ppns_of(singles@),
                    ));
                }
                i = i + 1;
            },
            None => {
                served = false;
            },
        }
    }
    let ghost enough = served;
    proof {
        assert forall|p: int| #[trigger] ppns_of(singles@).contains(p) implies allocator.in_use(
            p,
        ) by {
            allocator.lemma_free_in_window();
            old(allocator).lemma_free_in_window();
        }
        assert(taken.len() == single_blocks(singles@).len());
        lemma_trail_row(trail, taken, 0, allocator.begin(), allocator.end(), 0, 5);
        lemma_trail_release(
            trail,
            taken,
            0,
            allocator.begin(),
            allocator.end(),
            taken.len() as int,
        );
        assert(taken.take(taken.len() as int) =~= taken);
        assert(enough <==> old(allocator).serves_row(1, 5));
    }
    dealloc_all(singles, allocator);
    proof {
        assert(allocator.free() =~= old(allocator).free());
        assert(allocator.lists() == old(allocator).lists());
    }
    let mut pairs: Vec<Frames> = Vec::new();
    let mut k: usize = 0;
    proof {
        trail = seq![allocator.lists()];
        taken = Seq::empty();
        assert(whole_blocks(pairs@) =~= blocks_of_order(taken, 1));
        assert(frames_of_blocks(pairs@) =~= Set::<int>::empty());
        assert(allocator.free() =~= old(allocator).free().difference(frames_of_blocks(pairs@)));
    }
    while k < 5 && served
        invariant
            k <= 5,
            allocator.wf(),
            allocator.begin() == old(allocator).begin(),
            allocator.end() == old(allocator).end(),
            blocks_apart(pairs@),
            frames_of_blocks(pairs@).subset_of(old(allocator).free()),
            allocator.free() == old(allocator).free().difference(frames_of_blocks(pairs@)),
            served ==> enough,
            served_trail(trail, taken, 1, allocator.begin(), allocator.end()),
            trail[0] == old(allocator).lists(),
            trail.last() == allocator.lists(),
            whole_blocks(pairs@) == blocks_of_order(taken, 1),
            order_of(2) == 1,
            pairs@.len() <= k,
            served ==> pairs@.len() == k,
            enough && !served ==> k < 5 && first_order(allocator.lists(), 1) >= ORDERS,
        decreases 5 - k + if served {
            1int
        } else {
            0int
        },
    {
        let ghost held = pairs@;
        match Frames::try_allocate(allocator, 2) {
            Some(frames) => {
                pairs.push(frames);
                proof {
                    lemma_trail_push(
                        trail,
                        taken,
                        1,
                        allocator.begin(),
                        allocator.end(),
                        frames.ppn.0 as int,
                    );
                    let ghost before = taken;
                    trail = trail.push(allocator.lists());
                    taken = taken.push(frames.ppn.0 as int);
                    assert(whole_blocks(held).len() == before.len());
                    assert forall|at: int| 0 <= at < pairs@.len() implies whole_blocks(
                        pairs@,
                    )[at] == blocks_of_order(taken, 1)[at] by {
                        if at < held.len() {
                            assert(pairs@[at] == held[at]);
                            assert(whole_blocks(held)[at] == blocks_of_order(before, 1)[at]);
                        }
                    }
                    assert(whole_blocks(pairs@) =~= blocks_of_order(taken, 1));
                    lemma_blocks_push(held, frames);
                    let range = frame_range(frames.ppn.0 as int, block_size(2));
                    assert forall|a: int, b: int| 0 <= a < b < pairs@.len() implies frame_range(
                        (#[trigger] pairs@[a]).ppn.0 as int,
                        block_size(pairs@[a].num as int),
                    ).disjoint(
                        frame_range(
                            (#[trigger] pairs@[b]).ppn.0 as int,
                            block_size(pairs@[b].num as int),
                        ),
                    ) by {
                        if b == held.len() {
                            let first = frame_range(
                                held[a].ppn.0 as int,
                                block_size(held[a].num as int),
                            );
                            assert forall|p: int| first.contains(p) implies !range.contains(p) by {
                                assert(frames_of_blocks(held).contains(p));
                            }
                        } else {
                            assert(held[a] == pairs@[a] && held[b] == pairs@[b]);
                        }
                    }
                    assert forall|a: int| 0 <= a < pairs@.len() implies (#[trigger] pairs@[a]).num
                        <= MAX_BLOCK_FRAMES && pairs@[a].ppn.0 as int % block_size(
                        pairs@[a].num as int,
                    ) == 0 by {
                        if a < held.len() {
                            assert(held[a] == pairs@[a]);
                        }
                    }
                    assert(allocator.free() =~= old(allocator).free().difference(
                        frames_of_blocks(pairs@),
                    ));
                }
                k = k + 1;
            },
            None => {
                served = false;
            },
        }
    }
    proof {
        assert forall|p: int| #[trigger] frames_of_blocks(pairs@).contains(p)
            implies allocator.in_use(
            p,
        ) by {
            old(allocator).lemma_free_in_window();
        }
        assert(taken.len() == whole_blocks(pairs@).len());
        lemma_trail_row(trail, taken, 1, allocator.begin(), allocator.end(), 0, 5);
        lemma_trail_release(
            trail,
            taken,
            1,
            allocator.begin(),
            allocator.end(),
            taken.len() as int,
        );
        assert(taken.take(taken.len() as int) =~= taken);
        assert(enough ==> (served <==> old(allocator).serves_row(2, 5)));
    }
    dealloc_all_blocks(pairs, allocator);
    proof {
        assert(allocator.free() =~= old(allocator).free());
    }
    served
}

/// Declare the frames between the end of the kernel image and the end of
/// RAM as the pool's window: from the first page boundary at or after
/// `ekernel` up to the page of `MEMORY_END`.
pub fn init_frame_allocator(allocator: &mut BuddyFrameAllocator, ekernel: u64)
    requires
        old(allocator).wf(),
        old(allocator).begin() == old(allocator).end(),
        ekernel <= crate::config::MEMORY_END,
    ensures
        final(allocator).wf(),
        final(allocator).begin() == page_ceil(ekernel),
        final(allocator).end() == page_floor(crate::config::MEMORY_END),
        final(allocator).free() == frame_range(
            page_ceil(ekernel) as int,
            page_floor(crate::config::MEMORY_END) - page_ceil(ekernel),
        ),
{
    let begin = PhysAddr(ekernel).ceil();
    let end = PhysAddr(crate::config::MEMORY_END).floor();
    allocator.init(begin, end);
}

} // verus!
