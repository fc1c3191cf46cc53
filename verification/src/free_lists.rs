//! The free lists of a buddy system, as sets of block starts: what taking a
//! block, giving one back and adding a range of frames do to them, and what
//! holds of them throughout.

use vstd::arithmetic::div_mod::lemma_div_minus_one;
use vstd::arithmetic::div_mod::lemma_div_multiples_vanish;
use vstd::arithmetic::div_mod::lemma_div_plus_one;
use vstd::arithmetic::div_mod::lemma_fundamental_div_mod;
use vstd::arithmetic::div_mod::lemma_mod_add_multiples_vanish;
use vstd::arithmetic::div_mod::lemma_mod_multiples_basic;
use vstd::arithmetic::div_mod::lemma_mod_sub_multiples_vanish;
use vstd::prelude::*;
use vstd::set_lib::set_int_range;

verus! {

/// Number of free lists of the buddy system.
pub const ORDERS: usize = 23;

/// Number of frames of a block of the given order: 2 to its power.
pub open spec fn frames_of_order(order: int) -> int
    decreases order,
{
    if order <= 0 {
        1
    } else {
        2 * frames_of_order(order - 1)
    }
}

/// The order of the block that a request for `count` frames reserves.
pub open spec fn order_of(count: int) -> int
    decreases count,
{
    if count <= 1 {
        0
    } else {
        1 + order_of((count + 1) / 2)
    }
}

/// Free lists without a block.
pub open spec fn no_lists() -> Seq<Set<int>> {
    Seq::new(23, |order: int| Set::<int>::empty())
}

/// The first order from `order` up whose list has a block, and the number
/// of lists where there is none.
pub open spec fn first_order(lists: Seq<Set<int>>, order: int) -> int
    decreases lists.len() - order,
{
    if order >= lists.len() {
        lists.len() as int
    } else if order >= 0 && lists[order] != Set::<int>::empty() {
        order
    } else {
        first_order(lists, order + 1)
    }
}

/// Whether `block` is the lowest block of the list.
pub open spec fn is_lowest(list: Set<int>, block: int) -> bool {
    list.contains(block) && forall|other: int| list.contains(other) ==> block <= other
}

/// The free lists after `block` was taken from the list of order `from` for
/// a request of order `order`: the block leaves its list, and is halved
/// down to the order of the request, the upper half of each step joining
/// the list of its order.
pub open spec fn lists_after_alloc(lists: Seq<Set<int>>, order: int, from: int, block: int) -> Seq<
    Set<int>,
> {
    Seq::new(
        lists.len(),
        |at: int|
            if at == from {
                lists[at].remove(block)
            } else if order <= at < from {
                lists[at].insert(block + frames_of_order(at))
            } else {
                lists[at]
            },
    )
}

/// The block that makes a block of the next order with `block`: the one
/// `2^order` frames above it where `block` is the lower half, and below it
/// where it is the upper half.
pub open spec fn buddy_of(block: int, order: int) -> int {
    if (block / frames_of_order(order)) % 2 == 0 {
        block + frames_of_order(order)
    } else {
        block - frames_of_order(order)
    }
}

/// The free lists after `block` of the given order was given back: as long
/// as its buddy is free and the order below the highest, the two leave the
/// lists as one block of the next order; what is left joins the list of its
/// order.
pub open spec fn lists_after_dealloc(lists: Seq<Set<int>>, block: int, order: int) -> Seq<Set<int>>
    decreases 22 - order,
{
    if 0 <= order < 22 && lists[order].contains(buddy_of(block, order)) {
        lists_after_dealloc(
            lists.update(order, lists[order].remove(buddy_of(block, order))),
            if block < buddy_of(block, order) {
                block
            } else {
                buddy_of(block, order)
            },
            order + 1,
        )
    } else {
        lists.update(order, lists[order].insert(block))
    }
}

/// The highest order up to `limit` of a block that can start at frame
/// `start` with `room` frames ahead: the block is aligned to its size and
/// not longer than `room`.
pub open spec fn order_at(start: int, room: int, limit: int) -> int
    decreases limit,
{
    if limit <= 0 {
        0
    } else if start % frames_of_order(limit) == 0 && frames_of_order(limit) <= room {
        limit
    } else {
        order_at(start, room, limit - 1)
    }
}

/// The free lists after the frames `start..end` were added: the range is
/// cut from its start into blocks of the highest order that fits, each of
/// which joins the list of its order.
pub open spec fn lists_after_add(lists: Seq<Set<int>>, start: int, end: int) -> Seq<Set<int>>
    decreases end - start,
    via lists_after_add_ends
{
    if start >= end {
        lists
    } else {
        let order = order_at(start, end - start, 22);
        lists_after_add(
            lists.update(order, lists[order].insert(start)),
            start + frames_of_order(order),
            end,
        )
    }
}

#[via_fn]
proof fn lists_after_add_ends(lists: Seq<Set<int>>, start: int, end: int) {
    if start < end {
        lemma_frames_of_order(order_at(start, end - start, 22));
        lemma_order_at(start, end - start, 22);
    }
}

/// The block that starts a range fits the range.
pub proof fn lemma_order_at(start: int, room: int, limit: int)
    requires
        room >= 1,
    ensures
        0 <= order_at(start, room, limit),
        limit >= 0 ==> order_at(start, room, limit) <= limit,
        frames_of_order(order_at(start, room, limit)) <= room,
        start % frames_of_order(order_at(start, room, limit)) == 0,
    decreases limit,
{
    if limit > 0 {
        lemma_order_at(start, room, limit - 1);
    }
}

/// A block has a frame.
pub proof fn lemma_frames_of_order(order: int)
    ensures
        frames_of_order(order) >= 1,
    decreases order,
{
    if order > 0 {
        lemma_frames_of_order(order - 1);
    }
}

/// Whether `frame` is a frame of a block on the lists.
pub open spec fn on_block(lists: Seq<Set<int>>, frame: int) -> bool {
    exists|order: int, block: int|
        0 <= order < lists.len() && #[trigger] lists[order].contains(block) && block <= frame
            < block + frames_of_order(order)
}

/// The frames of the blocks on the lists: the free frames.
pub open spec fn frames_on(lists: Seq<Set<int>>) -> Set<int> {
    Set::new(|frame: int| on_block(lists, frame))
}

/// The frames `start`, `start + 1`, ..., `start + count - 1`.
pub open spec fn frame_range(start: int, count: int) -> Set<int> {
    set_int_range(start, start + count)
}

/// No two blocks on the lists share a frame.
pub open spec fn no_overlap(lists: Seq<Set<int>>) -> bool {
    forall|o1: int, b1: int, o2: int, b2: int|
        0 <= o1 < lists.len() && 0 <= o2 < lists.len() && #[trigger] lists[o1].contains(b1)
            && #[trigger] lists[o2].contains(b2) && (o1 != o2 || b1 != b2) ==> b1
            + frames_of_order(o1) <= b2 || b2 + frames_of_order(o2) <= b1
}

/// Whether the lists are those of a buddy system over the frames
/// `begin..end`: every block is aligned to its size and lies in the range,
/// no two blocks share a frame, and below the highest order no block is on
/// a list together with its buddy.
pub open spec fn proper(lists: Seq<Set<int>>, begin: int, end: int) -> bool {
    &&& lists.len() == ORDERS
    &&& no_overlap(lists)
    &&& forall|order: int, block: int|
        0 <= order < ORDERS && #[trigger] lists[order].contains(block) ==> {
            &&& block % frames_of_order(order) == 0
            &&& begin <= block
            &&& block + frames_of_order(order) <= end
            &&& order < ORDERS - 1 ==> !lists[order].contains(buddy_of(block, order))
        }
}

/// Whether the lists hold blocks that were cut from the frames
/// `begin..start` of a range that ends at `end`: every block is aligned to
/// its size, lies below `start`, and has the highest order that fitted
/// where it starts; no two blocks share a frame.
pub open spec fn carved(lists: Seq<Set<int>>, begin: int, start: int, end: int) -> bool {
    &&& lists.len() == ORDERS
    &&& no_overlap(lists)
    &&& forall|order: int, block: int|
        0 <= order < ORDERS && #[trigger] lists[order].contains(block) ==> {
            &&& block % frames_of_order(order) == 0
            &&& begin <= block
            &&& block + frames_of_order(order) <= start
            &&& order == order_at(block, end - block, ORDERS - 1)
        }
}

/// A request for no more frames than a block of an order has reserves a
/// block of that order at most.
pub proof fn lemma_order_bound(count: int, order: int)
    requires
        0 <= order,
        count <= frames_of_order(order),
    ensures
        0 <= order_of(count) <= order,
    decreases order,
{
    if count > 1 {
        lemma_frames_of_order(order - 1);
        if order > 0 {
            lemma_order_bound((count + 1) / 2, order - 1);
        }
    }
}

/// A block of the highest order has 2 to the power of 22 frames.
pub proof fn lemma_highest_order()
    ensures
        frames_of_order(22) == 0x40_0000,
{
    reveal_with_fuel(frames_of_order, 24);
}

/// A block of a higher order has more frames, and a block that is aligned
/// to it is aligned to the lower order too.
pub proof fn lemma_lower_order(block: int, high: int, low: int)
    requires
        0 <= low <= high,
        block % frames_of_order(high) == 0,
    ensures
        block % frames_of_order(low) == 0,
        1 <= frames_of_order(low) <= frames_of_order(high),
        low < high ==> 2 * frames_of_order(low) <= frames_of_order(high),
    decreases high - low,
{
    lemma_frames_of_order(low);
    if low < high {
        let m = frames_of_order(high - 1);
        lemma_frames_of_order(high - 1);
        let t = block / (2 * m);
        lemma_fundamental_div_mod(block, 2 * m);
        assert(block == (2 * t) * m) by (nonlinear_arith)
            requires
                block == (2 * m) * t,
        ;
        lemma_mod_multiples_basic(2 * t, m);
        lemma_lower_order(block, high - 1, low);
    }
}

/// A block of `m` aligned frames is the lower or the upper half of a block
/// of `2 * m` aligned frames.
pub proof fn lemma_half(x: int, m: int)
    requires
        m >= 1,
        x % m == 0,
    ensures
        (x / m) % 2 == 0 <==> x % (2 * m) == 0,
        (x / m) % 2 == 0 ==> (x + m) % m == 0 && ((x + m) / m) % 2 == 1,
        (x / m) % 2 != 0 ==> (x - m) % m == 0 && ((x - m) / m) % 2 == 0 && (x - m) % (2 * m) == 0,
{
    let q = x / m;
    lemma_fundamental_div_mod(x, m);
    lemma_div_plus_one(x, m);
    lemma_div_minus_one(x, m);
    lemma_mod_add_multiples_vanish(x, m);
    lemma_mod_sub_multiples_vanish(x, m);
    assert(m + x == x + m);
    assert(-m + x == x - m);
    if q % 2 == 0 {
        let r = q / 2;
        assert(x == r * (2 * m)) by (nonlinear_arith)
            requires
                x == m * q,
                q == 2 * r,
        ;
        lemma_mod_multiples_basic(r, 2 * m);
    } else {
        let r = (q - 1) / 2;
        assert(x - m == r * (2 * m)) by (nonlinear_arith)
            requires
                x == m * q,
                q - 1 == 2 * r,
        ;
        lemma_mod_multiples_basic(r, 2 * m);
        if x % (2 * m) == 0 {
            let t = x / (2 * m);
            lemma_fundamental_div_mod(x, 2 * m);
            assert(x == m * (2 * t)) by (nonlinear_arith)
                requires
                    x == (2 * m) * t,
            ;
            lemma_div_multiples_vanish(2 * t, m);
        }
    }
}

/// The buddy of an aligned block is aligned, another block, and has the
/// block as its buddy; the lower one of the two is aligned to the next
/// order.
pub proof fn lemma_buddy(block: int, order: int)
    requires
        0 <= order,
        block % frames_of_order(order) == 0,
    ensures
        buddy_of(block, order) % frames_of_order(order) == 0,
        buddy_of(buddy_of(block, order), order) == block,
        buddy_of(block, order) == block + frames_of_order(order) || buddy_of(block, order) == block
            - frames_of_order(order),
        block % frames_of_order(order + 1) == 0 <==> buddy_of(block, order) == block
            + frames_of_order(order),
        block % frames_of_order(order + 1) != 0 ==> buddy_of(block, order) % frames_of_order(
            order + 1,
        ) == 0,
        frames_of_order(order) >= 1,
{
    let m = frames_of_order(order);
    lemma_frames_of_order(order);
    lemma_half(block, m);
    assert(frames_of_order(order + 1) == 2 * m);
}

/// The lists below the first one that has a block are empty.
pub proof fn lemma_first_order(lists: Seq<Set<int>>, order: int)
    requires
        0 <= order <= lists.len(),
    ensures
        order <= first_order(lists, order) <= lists.len(),
        forall|at: int| order <= at < first_order(lists, order) ==> #[trigger] lists[at] == Set::<
            int,
        >::empty(),
        first_order(lists, order) < lists.len() ==> lists[first_order(lists, order)] != Set::<
            int,
        >::empty(),
    decreases lists.len() - order,
{
    if order < lists.len() && lists[order] == Set::<int>::empty() {
        lemma_first_order(lists, order + 1);
    }
}

/// A block that starts a range with the highest order that fits cannot be
/// of a lower order than one that fits.
pub proof fn lemma_order_at_least(start: int, room: int, limit: int, order: int)
    requires
        0 <= order <= limit,
        start % frames_of_order(order) == 0,
        frames_of_order(order) <= room,
    ensures
        order_at(start, room, limit) >= order,
    decreases limit,
{
    if limit > order {
        if !(start % frames_of_order(limit) == 0 && frames_of_order(limit) <= room) {
            lemma_order_at_least(start, room, limit - 1, order);
        }
    }
}

/// Lists without a block are proper lists of any range, and without
/// frames.
pub proof fn lemma_no_lists_proper(begin: int, end: int)
    ensures
        proper(no_lists(), begin, end),
        frames_on(no_lists()) == Set::<int>::empty(),
{
    assert(frames_on(no_lists()) =~= Set::<int>::empty());
}

/// Proper lists of a range without frames have no block.
pub proof fn lemma_proper_without_frames(lists: Seq<Set<int>>, begin: int)
    requires
        proper(lists, begin, begin),
    ensures
        forall|order: int, block: int|
            0 <= order < ORDERS ==> !(#[trigger] lists[order].contains(block)),
        frames_on(lists) == Set::<int>::empty(),
{
    assert forall|order: int, block: int| 0 <= order < ORDERS implies !(
    #[trigger] lists[order].contains(block)) by {
        lemma_frames_of_order(order);
    }
    assert(frames_on(lists) =~= Set::<int>::empty());
}

/// The frames on proper lists of a range are frames of the range.
pub proof fn lemma_frames_in_range(lists: Seq<Set<int>>, begin: int, end: int)
    requires
        proper(lists, begin, end),
    ensures
        frames_on(lists).subset_of(frame_range(begin, end - begin)),
{
}

/// Lists have a frame exactly when one of them has a block.
pub proof fn lemma_no_frames(lists: Seq<Set<int>>)
    requires
        lists.len() == ORDERS,
    ensures
        frames_on(lists) == Set::<int>::empty() <==> first_order(lists, 0) == ORDERS,
{
    lemma_first_order(lists, 0);
    let first = first_order(lists, 0);
    if first < ORDERS {
        assert(!(lists[first] =~= Set::<int>::empty()));
        let block = choose|block: int| lists[first].contains(block);
        lemma_frames_of_order(first);
        assert(on_block(lists, block));
        assert(frames_on(lists).contains(block));
    } else {
        assert forall|frame: int| !on_block(lists, frame) by {
            if on_block(lists, frame) {
                let (order, block) = choose|order: int, block: int|
                    0 <= order < lists.len() && #[trigger] lists[order].contains(block) && block
                        <= frame < block + frames_of_order(order);
                assert(lists[order] == Set::<int>::empty());
            }
        }
        assert(frames_on(lists) =~= Set::<int>::empty());
    }
}

/// A distance from a block start that lies in the block but beyond its
/// first part of order `low` lies in the upper half of one of the orders
/// between.
pub proof fn lemma_upper_half(distance: int, low: int, high: int) -> (at: int)
    requires
        0 <= low <= high,
        frames_of_order(low) <= distance < frames_of_order(high),
    ensures
        low <= at < high,
        frames_of_order(at) <= distance < frames_of_order(at + 1),
    decreases high - low,
{
    if distance >= frames_of_order(high - 1) {
        high - 1
    } else {
        lemma_upper_half(distance, low, high - 1)
    }
}

/// Taking a block keeps the lists proper, and takes the frames of the
/// request, which were on the lists, off them.
pub proof fn lemma_alloc_proper(
    lists: Seq<Set<int>>,
    order: int,
    block: int,
    begin: int,
    end: int,
)
    requires
        proper(lists, begin, end),
        0 <= order,
        first_order(lists, order) < ORDERS,
        lists[first_order(lists, order)].contains(block),
    ensures
        proper(lists_after_alloc(lists, order, first_order(lists, order), block), begin, end),
        frame_range(block, frames_of_order(order)).subset_of(frames_on(lists)),
        frames_on(lists_after_alloc(lists, order, first_order(lists, order), block))
            == frames_on(lists).difference(frame_range(block, frames_of_order(order))),
        block % frames_of_order(order) == 0,
        begin <= block,
        block + frames_of_order(order) <= end,
{
    let from = first_order(lists, order);
    let after = lists_after_alloc(lists, order, from, block);
    lemma_first_order(lists, order);
    lemma_lower_order(block, from, order);
    assert forall|at: int, other: int| 0 <= at < ORDERS && #[trigger] after[at].contains(
        other,
    ) implies {
        &&& other % frames_of_order(at) == 0
        &&& begin <= other
        &&& other + frames_of_order(at) <= end
        &&& at < ORDERS - 1 ==> !after[at].contains(buddy_of(other, at))
        &&& if order <= at < from {
            other == block + frames_of_order(at) && block <= other && other + frames_of_order(at)
                <= block + frames_of_order(from)
        } else {
            lists[at].contains(other) && (at != from || other != block)
        }
    } by {
        if at == from {
            assert(lists[at].contains(other));
        } else if order <= at < from {
            assert(lists[at] == Set::<int>::empty());
            assert(!lists[at].contains(other));
            assert(other == block + frames_of_order(at));
            lemma_lower_order(block, from, at);
            lemma_lower_order(block, from, at + 1);
            assert(frames_of_order(at + 1) == 2 * frames_of_order(at));
            lemma_half(block, frames_of_order(at));
            lemma_buddy(other, at);
            assert(!lists[at].contains(buddy_of(other, at)));
        } else {
            assert(lists[at].contains(other));
        }
    }
    assert forall|o1: int, b1: int, o2: int, b2: int|
        0 <= o1 < after.len() && 0 <= o2 < after.len() && #[trigger] after[o1].contains(b1)
            && #[trigger] after[o2].contains(b2) && (o1 != o2 || b1 != b2) implies b1
        + frames_of_order(o1) <= b2 || b2 + frames_of_order(o2) <= b1 by {
        let half1 = order <= o1 < from;
        let half2 = order <= o2 < from;
        if half1 && half2 {
            if o1 < o2 {
                lemma_lower_order(0, o2, o1 + 1);
            } else {
                lemma_lower_order(0, o1, o2 + 1);
            }
        } else if half1 {
            assert(lists[o2].contains(b2));
            assert(lists[from].contains(block));
        } else if half2 {
            assert(lists[o1].contains(b1));
            assert(lists[from].contains(block));
        } else {
            assert(lists[o1].contains(b1));
            assert(lists[o2].contains(b2));
        }
    }
    let taken = frame_range(block, frames_of_order(order));
    assert forall|frame: int| taken.contains(frame) implies frames_on(lists).contains(frame) by {
        assert(lists[from].contains(block));
        assert(on_block(lists, frame));
    }
    assert forall|frame: int| frames_on(after).contains(frame) == (frames_on(lists).contains(frame)
        && !taken.contains(frame)) by {
        if on_block(after, frame) {
            let (at, other) = choose|at: int, other: int|
                0 <= at < after.len() && #[trigger] after[at].contains(other) && other <= frame
                    < other + frames_of_order(at);
            if order <= at < from {
                lemma_lower_order(0, at, order);
                assert(lists[from].contains(block));
                assert(on_block(lists, frame));
            } else {
                assert(lists[at].contains(other));
                assert(lists[from].contains(block));
                assert(on_block(lists, frame));
            }
        }
        if on_block(lists, frame) && !taken.contains(frame) {
            let (at, other) = choose|at: int, other: int|
                0 <= at < lists.len() && #[trigger] lists[at].contains(other) && other <= frame
                    < other + frames_of_order(at);
            if at == from && other == block {
                let half = lemma_upper_half(frame - block, order, from);
                assert(after[half].contains(block + frames_of_order(half)));
                assert(frames_of_order(half + 1) == 2 * frames_of_order(half));
                assert(on_block(after, frame));
            } else {
                if order <= at < from {
                    assert(lists[at] == Set::<int>::empty());
                }
                assert(after[at].contains(other));
                assert(on_block(after, frame));
            }
        }
    }
    assert(frames_on(after) =~= frames_on(lists).difference(taken));
}

/// Giving back an aligned block of the range, none of whose frames is on
/// the lists, keeps the lists proper and puts its frames on them.
pub proof fn lemma_dealloc_proper(
    lists: Seq<Set<int>>,
    block: int,
    order: int,
    begin: int,
    end: int,
)
    requires
        proper(lists, begin, end),
        0 <= order < ORDERS,
        block % frames_of_order(order) == 0,
        begin <= block,
        block + frames_of_order(order) <= end,
        frame_range(block, frames_of_order(order)).disjoint(frames_on(lists)),
    ensures
        proper(lists_after_dealloc(lists, block, order), begin, end),
        frames_on(lists_after_dealloc(lists, block, order)) == frames_on(lists).union(
            frame_range(block, frames_of_order(order)),
        ),
    decreases ORDERS - order,
{
    let buddy = buddy_of(block, order);
    let size = frames_of_order(order);
    let given = frame_range(block, size);
    lemma_buddy(block, order);
    assert forall|at: int, other: int|
        0 <= at < ORDERS && #[trigger] lists[at].contains(other) implies other + frames_of_order(at)
        <= block || block + size <= other by {
        lemma_frames_of_order(at);
        if !(other + frames_of_order(at) <= block || block + size <= other) {
            let shared = if other <= block {
                block
            } else {
                other
            };
            assert(given.contains(shared));
            assert(on_block(lists, shared));
            assert(frames_on(lists).contains(shared));
        }
    }
    if order < 22 && lists[order].contains(buddy) {
        let fewer = lists.update(order, lists[order].remove(buddy));
        assert forall|at: int, other: int| 0 <= at < ORDERS && #[trigger] fewer[at].contains(
            other,
        ) implies {
            &&& other % frames_of_order(at) == 0
            &&& begin <= other
            &&& other + frames_of_order(at) <= end
            &&& at < ORDERS - 1 ==> !fewer[at].contains(buddy_of(other, at))
            &&& lists[at].contains(other)
            &&& at != order || other != buddy
        } by {
            assert(lists[at].contains(other));
        }
        assert(no_overlap(fewer)) by {
            assert forall|o1: int, b1: int, o2: int, b2: int|
                0 <= o1 < fewer.len() && 0 <= o2 < fewer.len() && #[trigger] fewer[o1].contains(b1)
                    && #[trigger] fewer[o2].contains(b2) && (o1 != o2 || b1 != b2) implies b1
                + frames_of_order(o1) <= b2 || b2 + frames_of_order(o2) <= b1 by {
                assert(lists[o1].contains(b1));
                assert(lists[o2].contains(b2));
            }
        }
        let lower = if block < buddy {
            block
        } else {
            buddy
        };
        assert(frames_of_order(order + 1) == 2 * size);
        let joined = frame_range(lower, 2 * size);
        assert forall|frame: int| frames_on(fewer).contains(frame) == (frames_on(lists).contains(
            frame,
        ) && !(buddy <= frame < buddy + size)) by {
            if on_block(fewer, frame) {
                let (at, other) = choose|at: int, other: int|
                    0 <= at < fewer.len() && #[trigger] fewer[at].contains(other) && other <= frame
                        < other + frames_of_order(at);
                assert(lists[at].contains(other));
                assert(lists[order].contains(buddy));
                assert(on_block(lists, frame));
            }
            if on_block(lists, frame) && !(buddy <= frame < buddy + size) {
                let (at, other) = choose|at: int, other: int|
                    0 <= at < lists.len() && #[trigger] lists[at].contains(other) && other <= frame
                        < other + frames_of_order(at);
                assert(fewer[at].contains(other));
                assert(on_block(fewer, frame));
            }
        }
        assert forall|frame: int| joined.contains(frame) implies !frames_on(fewer).contains(
            frame,
        ) by {
            if block <= frame < block + size {
                assert(given.contains(frame));
            }
        }
        lemma_dealloc_proper(fewer, lower, order + 1, begin, end);
        assert forall|frame: int| buddy <= frame < buddy + size implies frames_on(lists).contains(
            frame,
        ) by {
            assert(lists[order].contains(buddy));
            assert(on_block(lists, frame));
        }
        assert(frames_on(fewer).union(joined) =~= frames_on(lists).union(given));
    } else {
        let more = lists.update(order, lists[order].insert(block));
        assert forall|at: int, other: int| 0 <= at < ORDERS && #[trigger] more[at].contains(
            other,
        ) implies {
            &&& other % frames_of_order(at) == 0
            &&& begin <= other
            &&& other + frames_of_order(at) <= end
            &&& at < ORDERS - 1 ==> !more[at].contains(buddy_of(other, at))
            &&& (at == order && other == block) || lists[at].contains(other)
        } by {
            if at == order && other != block {
                assert(lists[at].contains(other));
                lemma_buddy(other, at);
            } else if at != order {
                assert(lists[at].contains(other));
            }
        }
        assert(no_overlap(more)) by {
            assert forall|o1: int, b1: int, o2: int, b2: int|
                0 <= o1 < more.len() && 0 <= o2 < more.len() && #[trigger] more[o1].contains(b1)
                    && #[trigger] more[o2].contains(b2) && (o1 != o2 || b1 != b2) implies b1
                + frames_of_order(o1) <= b2 || b2 + frames_of_order(o2) <= b1 by {
                if !(o1 == order && b1 == block) {
                    assert(lists[o1].contains(b1));
                }
                if !(o2 == order && b2 == block) {
                    assert(lists[o2].contains(b2));
                }
            }
        }
        assert forall|frame: int| frames_on(more).contains(frame) == (frames_on(lists).contains(
            frame,
        ) || given.contains(frame)) by {
            if on_block(more, frame) {
                let (at, other) = choose|at: int, other: int|
                    0 <= at < more.len() && #[trigger] more[at].contains(other) && other <= frame
                        < other + frames_of_order(at);
                if !(at == order && other == block) {
                    assert(lists[at].contains(other));
                    assert(on_block(lists, frame));
                }
            }
            if on_block(lists, frame) {
                let (at, other) = choose|at: int, other: int|
                    0 <= at < lists.len() && #[trigger] lists[at].contains(other) && other <= frame
                        < other + frames_of_order(at);
                assert(more[at].contains(other));
                assert(on_block(more, frame));
            }
            if given.contains(frame) {
                assert(more[order].contains(block));
                assert(on_block(more, frame));
            }
        }
        assert(frames_on(more) =~= frames_on(lists).union(given));
    }
}

/// Cutting a range into blocks gives carved lists, with the frames of the
/// range on them.
pub proof fn lemma_add_carved(lists: Seq<Set<int>>, begin: int, start: int, end: int)
    requires
        carved(lists, begin, start, end),
        begin <= start <= end,
    ensures
        carved(lists_after_add(lists, start, end), begin, end, end),
        frames_on(lists_after_add(lists, start, end)) == frames_on(lists).union(
            frame_range(start, end - start),
        ),
    decreases end - start,
{
    if start < end {
        let order = order_at(start, end - start, 22);
        lemma_order_at(start, end - start, 22);
        lemma_frames_of_order(order);
        let more = lists.update(order, lists[order].insert(start));
        let next = start + frames_of_order(order);
        assert forall|at: int, other: int| 0 <= at < ORDERS && #[trigger] more[at].contains(
            other,
        ) implies {
            &&& other % frames_of_order(at) == 0
            &&& begin <= other
            &&& other + frames_of_order(at) <= next
            &&& at == order_at(other, end - other, ORDERS - 1)
            &&& (at == order && other == start) || (lists[at].contains(other) && other
                + frames_of_order(at) <= start)
        } by {
            if !(at == order && other == start) {
                assert(lists[at].contains(other));
            }
        }
        assert(no_overlap(more)) by {
            assert forall|o1: int, b1: int, o2: int, b2: int|
                0 <= o1 < more.len() && 0 <= o2 < more.len() && #[trigger] more[o1].contains(b1)
                    && #[trigger] more[o2].contains(b2) && (o1 != o2 || b1 != b2) implies b1
                + frames_of_order(o1) <= b2 || b2 + frames_of_order(o2) <= b1 by {
                if !(o1 == order && b1 == start) {
                    assert(lists[o1].contains(b1));
                }
                if !(o2 == order && b2 == start) {
                    assert(lists[o2].contains(b2));
                }
            }
        }
        assert forall|frame: int| frames_on(more).contains(frame) == (frames_on(lists).contains(
            frame,
        ) || start <= frame < next) by {
            if on_block(more, frame) {
                let (at, other) = choose|at: int, other: int|
                    0 <= at < more.len() && #[trigger] more[at].contains(other) && other <= frame
                        < other + frames_of_order(at);
                if !(at == order && other == start) {
                    assert(lists[at].contains(other));
                    assert(on_block(lists, frame));
                }
            }
            if on_block(lists, frame) {
                let (at, other) = choose|at: int, other: int|
                    0 <= at < lists.len() && #[trigger] lists[at].contains(other) && other <= frame
                        < other + frames_of_order(at);
                assert(more[at].contains(other));
                assert(on_block(more, frame));
            }
            if start <= frame < next {
                assert(more[order].contains(start));
                assert(on_block(more, frame));
            }
        }
        lemma_add_carved(more, begin, next, end);
        assert(frames_on(more).union(frame_range(next, end - next)) =~= frames_on(lists).union(
            frame_range(start, end - start),
        ));
    } else {
        assert forall|at: int, other: int| 0 <= at < ORDERS && #[trigger] lists[at].contains(
            other,
        ) implies other + frames_of_order(at) <= end by {}
        assert(frames_on(lists).union(frame_range(start, end - start)) =~= frames_on(lists));
    }
}

/// Lists that were carved from a whole range are proper lists of it.
pub proof fn lemma_carved_proper(lists: Seq<Set<int>>, begin: int, end: int)
    requires
        carved(lists, begin, end, end),
    ensures
        proper(lists, begin, end),
{
    assert forall|order: int, block: int| 0 <= order < ORDERS && #[trigger] lists[order].contains(
        block,
    ) && order < ORDERS - 1 implies !lists[order].contains(buddy_of(block, order)) by {
        let buddy = buddy_of(block, order);
        if lists[order].contains(buddy) {
            lemma_buddy(block, order);
            let lower = if block < buddy {
                block
            } else {
                buddy
            };
            assert(lists[order].contains(lower));
            assert(frames_of_order(order + 1) == 2 * frames_of_order(order));
            assert(lower % frames_of_order(order + 1) == 0);
            assert(lower + frames_of_order(order + 1) <= end);
            lemma_order_at_least(lower, end - lower, 22, order + 1);
        }
    }
}

/// Taking a block from proper lists and giving it back restores the lists:
/// the halves that the block left behind join it again, one order after the
/// other.
pub proof fn lemma_restored(
    lists: Seq<Set<int>>,
    order: int,
    from: int,
    block: int,
    begin: int,
    end: int,
)
    requires
        proper(lists, begin, end),
        0 <= order <= from < ORDERS,
        forall|at: int| order <= at < from ==> #[trigger] lists[at] == Set::<int>::empty(),
        lists[from].contains(block),
    ensures
        lists_after_dealloc(lists_after_alloc(lists, order, from, block), block, order) == lists,
    decreases from - order,
{
    let taken = lists_after_alloc(lists, order, from, block);
    lemma_lower_order(block, from, order);
    lemma_buddy(block, order);
    if order == from {
        assert(!taken[order].contains(buddy_of(block, order)) || order >= 22);
        assert(taken.update(order, taken[order].insert(block)) =~~= lists);
    } else {
        lemma_lower_order(block, from, order + 1);
        let buddy = block + frames_of_order(order);
        assert(buddy_of(block, order) == buddy);
        assert(lists[order] == Set::<int>::empty());
        assert(taken[order].contains(buddy));
        assert(taken.update(order, taken[order].remove(buddy)) =~~= lists_after_alloc(
            lists,
            order + 1,
            from,
            block,
        ));
        lemma_restored(lists, order + 1, from, block, begin, end);
    }
}

/// The lowest block of a list that has a block.
pub open spec fn lowest_of(list: Set<int>) -> int {
    choose|block: int| is_lowest(list, block)
}

/// The free lists after a request of the given order was served.
pub open spec fn lists_after_request(lists: Seq<Set<int>>, order: int) -> Seq<Set<int>> {
    lists_after_alloc(
        lists,
        order,
        first_order(lists, order),
        lowest_of(lists[first_order(lists, order)]),
    )
}

/// Whether `times` requests of the given order, one after the other, are
/// all served.
pub open spec fn serves_row(lists: Seq<Set<int>>, order: int, times: int) -> bool
    decreases times,
{
    times <= 0 || (first_order(lists, order) < ORDERS && serves_row(
        lists_after_request(lists, order),
        order,
        times - 1,
    ))
}

/// The free lists after the blocks, each given with its order, were given
/// back from the last to the first.
pub open spec fn lists_after_release(lists: Seq<Set<int>>, blocks: Seq<(int, int)>) -> Seq<
    Set<int>,
>
    decreases blocks.len(),
{
    if blocks.len() == 0 {
        lists
    } else {
        lists_after_release(
            lists_after_dealloc(lists, blocks.last().0, blocks.last().1),
            blocks.drop_last(),
        )
    }
}

/// The blocks, each with the given order.
pub open spec fn blocks_of_order(blocks: Seq<int>, order: int) -> Seq<(int, int)> {
    Seq::new(blocks.len(), |at: int| (blocks[at], order))
}

/// Whether request `at` of a trail was served with block `at`: the lists
/// before it had a block for it, the lowest of which is the block, and the
/// lists after it are those without the block.
pub open spec fn served_step(
    trail: Seq<Seq<Set<int>>>,
    blocks: Seq<int>,
    order: int,
    at: int,
) -> bool {
    &&& first_order(trail[at], order) < ORDERS
    &&& is_lowest(trail[at][first_order(trail[at], order)], blocks[at])
    &&& trail[at + 1] == lists_after_alloc(
        trail[at],
        order,
        first_order(trail[at], order),
        blocks[at],
    )
}

/// Whether `trail` holds the lists before and after each of the requests of
/// the given order that were served with `blocks`, one after the other.
pub open spec fn served_trail(
    trail: Seq<Seq<Set<int>>>,
    blocks: Seq<int>,
    order: int,
    begin: int,
    end: int,
) -> bool {
    &&& trail.len() == blocks.len() + 1
    &&& forall|at: int| 0 <= at < trail.len() ==> proper(#[trigger] trail[at], begin, end)
    &&& forall|at: int| 0 <= at < blocks.len() ==> #[trigger] served_step(trail, blocks, order, at)
}

/// A trail with one more request served.
pub proof fn lemma_trail_push(
    trail: Seq<Seq<Set<int>>>,
    blocks: Seq<int>,
    order: int,
    begin: int,
    end: int,
    block: int,
)
    requires
        served_trail(trail, blocks, order, begin, end),
        0 <= order,
        first_order(trail.last(), order) < ORDERS,
        is_lowest(trail.last()[first_order(trail.last(), order)], block),
    ensures
        served_trail(
            trail.push(
                lists_after_alloc(trail.last(), order, first_order(trail.last(), order), block),
            ),
            blocks.push(block),
            order,
            begin,
            end,
        ),
{
    let next = lists_after_alloc(trail.last(), order, first_order(trail.last(), order), block);
    let longer = trail.push(next);
    let more = blocks.push(block);
    lemma_alloc_proper(trail.last(), order, block, begin, end);
    assert forall|at: int| 0 <= at < longer.len() implies proper(
        #[trigger] longer[at],
        begin,
        end,
    ) by {
        if at < trail.len() {
            assert(longer[at] == trail[at]);
        }
    }
    assert forall|at: int| 0 <= at < more.len() implies #[trigger] served_step(
        longer,
        more,
        order,
        at,
    ) by {
        assert(longer[at] == trail[at]);
        if at < blocks.len() {
            assert(served_step(trail, blocks, order, at));
            assert(more[at] == blocks[at]);
            assert(longer[at + 1] == trail[at + 1]);
        } else {
            assert(trail[at] == trail.last());
            assert(more[at] == block);
            assert(longer[at + 1] == next);
        }
    }
    assert(served_trail(longer, more, order, begin, end));
}

/// Whether a row of requests is served, told from the end of a trail of
/// requests that were served: the rest of the row is served from there.
pub proof fn lemma_trail_row(
    trail: Seq<Seq<Set<int>>>,
    blocks: Seq<int>,
    order: int,
    begin: int,
    end: int,
    at: int,
    times: int,
)
    requires
        served_trail(trail, blocks, order, begin, end),
        0 <= at <= blocks.len() <= times,
    ensures
        serves_row(trail[at], order, times - at) == serves_row(
            trail.last(),
            order,
            times - blocks.len(),
        ),
    decreases blocks.len() - at,
{
    if at < blocks.len() {
        let from = first_order(trail[at], order);
        assert(served_step(trail, blocks, order, at));
        assert(is_lowest(trail[at][from], lowest_of(trail[at][from])));
        assert(lists_after_request(trail[at], order) == trail[at + 1]);
        lemma_trail_row(trail, blocks, order, begin, end, at + 1, times);
    }
}

/// Giving the first `count` blocks of a trail back, from the last to the
/// first, restores the lists that the trail started with.
pub proof fn lemma_trail_release(
    trail: Seq<Seq<Set<int>>>,
    blocks: Seq<int>,
    order: int,
    begin: int,
    end: int,
    count: int,
)
    requires
        served_trail(trail, blocks, order, begin, end),
        0 <= order,
        0 <= count <= blocks.len(),
    ensures
        lists_after_release(trail[count], blocks_of_order(blocks.take(count), order)) == trail[0],
    decreases count,
{
    let given = blocks_of_order(blocks.take(count), order);
    if count > 0 {
        let before = trail[count - 1];
        let from = first_order(before, order);
        assert(served_step(trail, blocks, order, count - 1));
        assert(trail[count] == lists_after_alloc(before, order, from, blocks[count - 1]));
        lemma_first_order(before, order);
        lemma_restored(before, order, from, blocks[count - 1], begin, end);
        assert(given.last() == (blocks[count - 1], order));
        assert(given.drop_last() =~= blocks_of_order(blocks.take(count - 1), order));
        lemma_trail_release(trail, blocks, order, begin, end, count - 1);
    }
}

} // verus!
