//! Physical memory as the page table and the address spaces see it: a run of
//! 4 KiB frames, each readable as 512 little-endian 64-bit words or as 4096
//! bytes.

use crate::address::PhysPageNum;
use crate::frame_allocator::BuddyFrameAllocator;
use vstd::prelude::*;

verus! {

/// No frame of the memory has a number of more than 44 bits.
pub const PPN_LIMIT: u64 = 0x1000_0000_0000;

/// Byte `k` (0 to 7, least significant first) of a word.
pub open spec fn byte_of_word(word: u64, k: u64) -> u8 {
    ((word >> (8 * k)) & 0xff) as u8
}

/// The word with byte `k` replaced by `value`.
pub open spec fn word_with_byte(word: u64, k: u64, value: u8) -> u64 {
    (word & !(0xffu64 << (8 * k))) | ((value as u64) << (8 * k))
}

/// The 4096 bytes that 512 words hold, the low byte of each word first.
pub open spec fn bytes_of_words(words: Seq<u64>) -> Seq<u8> {
    Seq::new(4096, |i: int| byte_of_word(words[i / 8], (i % 8) as u64))
}

/// A frame of zero words.
pub open spec fn zero_page() -> Seq<u64> {
    Seq::new(512, |i: int| 0u64)
}

/// Replacing a byte of a word changes that byte and no other.
pub proof fn lemma_word_with_byte(word: u64, k: u64, value: u8, j: u64)
    requires
        k < 8,
        j < 8,
    ensures
        byte_of_word(word_with_byte(word, k, value), j) == if j == k {
            value
        } else {
            byte_of_word(word, j)
        },
{
    assert(((((word & !(0xffu64 << (8 * k))) | ((value as u64) << (8 * k))) >> (8 * k)) & 0xff)
        as u8 == value) by (bit_vector)
        requires
            k < 8,
    ;
    if j != k {
        assert(((((word & !(0xffu64 << (8 * k))) | ((value as u64) << (8 * k))) >> (8 * j)) & 0xff)
            as u8 == ((word >> (8 * j)) & 0xff) as u8) by (bit_vector)
            requires
                k < 8,
                j < 8,
                j != k,
        ;
    }
}

/// Every byte of the zero word is zero.
pub proof fn lemma_zero_word_bytes(k: u64)
    requires
        k < 8,
    ensures
        byte_of_word(0, k) == 0,
{
    assert(((0u64 >> (8 * k)) & 0xff) as u8 == 0) by (bit_vector)
        requires
            k < 8,
    ;
}

/// The frames `base .. base + frames` of physical memory.
pub struct PhysMemory {
    base: u64,
    words: Vec<u64>,
}

impl PhysMemory {
    /// Number of the first frame.
    pub closed spec fn base(&self) -> int {
        self.base as int
    }

    /// Number of frames.
    pub closed spec fn frames(&self) -> int {
        self.words@.len() as int / 512
    }

    /// The memory is made of whole frames whose numbers have at most 44 bits.
    pub closed spec fn wf(&self) -> bool {
        &&& self.words@.len() % 512 == 0
        &&& self.base + self.words@.len() / 512 <= PPN_LIMIT
    }

    /// Whether frame `ppn` is part of the memory.
    pub open spec fn contains(&self, ppn: int) -> bool {
        self.base() <= ppn < self.base() + self.frames()
    }

    /// The 512 words of frame `ppn`.
    pub closed spec fn page(&self, ppn: int) -> Seq<u64> {
        self.words@.subrange((ppn - self.base) * 512, (ppn - self.base) * 512 + 512)
    }

    /// The 4096 bytes of frame `ppn`.
    pub open spec fn bytes(&self, ppn: int) -> Seq<u8> {
        bytes_of_words(self.page(ppn))
    }

    /// Whether the memory holds every frame of the pool `allocator`, and both
    /// are well formed.
    pub open spec fn backs(&self, allocator: &BuddyFrameAllocator) -> bool {
        &&& self.wf()
        &&& allocator.wf()
        &&& self.base() <= allocator.begin()
        &&& allocator.end() <= self.base() + self.frames()
    }

    /// Whether `other` has the same frames, with the same contents but for
    /// the frames in `touched`.
    pub open spec fn same_except(&self, other: &PhysMemory, touched: Set<int>) -> bool {
        &&& self.base() == other.base()
        &&& self.frames() == other.frames()
        &&& forall|ppn: int|
            self.contains(ppn) && !touched.contains(ppn) ==> #[trigger] self.page(ppn)
                == other.page(ppn)
    }

    /// A frame of the memory has 512 words and a number below `PPN_LIMIT`.
    pub proof fn lemma_page_len(&self, ppn: int)
        requires
            self.wf(),
            self.contains(ppn),
        ensures
            self.page(ppn).len() == 512,
            self.bytes(ppn).len() == 4096,
            0 <= ppn < PPN_LIMIT,
    {
    }

    /// Memory of `frames` zeroed frames, the first of which is frame `base`.
    pub fn new(base: PhysPageNum, frames: usize) -> (r: Self)
        requires
            frames <= usize::MAX / 512,
            base.0 + frames <= PPN_LIMIT,
        ensures
            r.wf(),
            r.base() == base.0,
            r.frames() == frames,
            forall|ppn: int| r.contains(ppn) ==> #[trigger] r.page(ppn) == zero_page(),
    {
        let total: usize = frames * 512;
        let mut words: Vec<u64> = Vec::new();
        let mut i: usize = 0;
        while i < total
            invariant
                i <= total,
                words@.len() == i,
                forall|j: int| 0 <= j < i ==> words@[j] == 0,
            decreases total - i,
        {
            words.push(0);
            i = i + 1;
        }
        let r = PhysMemory { base: base.0, words };
        proof {
            assert forall|ppn: int| r.contains(ppn) implies #[trigger] r.page(ppn)
                == zero_page() by {
                assert(r.page(ppn) =~= zero_page());
            }
        }
        r
    }

    /// Number of the first frame.
    pub fn base_ppn(&self) -> (r: PhysPageNum)
        ensures
            r.0 == self.base(),
    {
        PhysPageNum(self.base)
    }

    /// Number of frames.
    pub fn frame_count(&self) -> (r: usize)
        ensures
            r == self.frames(),
    {
        self.words.len() / 512
    }

    /// Whether frame `ppn` is part of the memory.
    pub fn has_frame(&self, ppn: PhysPageNum) -> (r: bool)
        requires
            self.wf(),
        ensures
            r == self.contains(ppn.0 as int),
    {
        ppn.0 >= self.base && ppn.0 - self.base < (self.words.len() / 512) as u64
    }

    /// Position of word `idx` of frame `ppn` in the store.
    fn slot(&self, ppn: PhysPageNum, idx: usize) -> (r: usize)
        requires
            self.wf(),
            self.contains(ppn.0 as int),
            idx < 512,
        ensures
            r == (ppn.0 - self.base) * 512 + idx,
            r < self.words@.len(),
    {
        let count: usize = self.words.len() / 512;
        assert(ppn.0 - self.base < count);
        let frame: usize = (ppn.0 - self.base) as usize;
        assert(frame * 512 + 512 <= count * 512 <= self.words@.len());
        frame * 512 + idx
    }

    /// Read word `idx` of frame `ppn`.
    pub fn read_word(&self, ppn: PhysPageNum, idx: usize) -> (r: u64)
        requires
            self.wf(),
            self.contains(ppn.0 as int),
            idx < 512,
        ensures
            r == self.page(ppn.0 as int)[idx as int],
    {
        let at = self.slot(ppn, idx);
        self.words[at]
    }

    /// Write word `idx` of frame `ppn`; nothing else changes.
    pub fn write_word(&mut self, ppn: PhysPageNum, idx: usize, value: u64)
        requires
            old(self).wf(),
            old(self).contains(ppn.0 as int),
            idx < 512,
        ensures
            final(self).wf(),
            final(self).page(ppn.0 as int)
                == old(self).page(ppn.0 as int).update(idx as int, value),
            final(self).same_except(old(self), set![ppn.0 as int]),
    {
        let at = self.slot(ppn, idx);
        self.words.set(at, value);
        proof {
            assert(self.page(ppn.0 as int) =~= old(self).page(ppn.0 as int).update(
                idx as int,
                value,
            ));
            assert forall|q: int| self.contains(q) && q != ppn.0 implies #[trigger] self.page(q)
                == old(self).page(q) by {
                assert(self.page(q) =~= old(self).page(q));
            }
        }
    }

    /// Read byte `offset` of frame `ppn`.
    pub fn read_byte(&self, ppn: PhysPageNum, offset: usize) -> (r: u8)
        requires
            self.wf(),
            self.contains(ppn.0 as int),
            offset < 4096,
        ensures
            r == self.bytes(ppn.0 as int)[offset as int],
    {
        let word = self.read_word(ppn, offset / 8);
        let k: u64 = (offset % 8) as u64;
        ((word >> (8 * k)) & 0xff) as u8
    }

    /// Write byte `offset` of frame `ppn`; nothing else changes.
    pub fn write_byte(&mut self, ppn: PhysPageNum, offset: usize, value: u8)
        requires
            old(self).wf(),
            old(self).contains(ppn.0 as int),
            offset < 4096,
        ensures
            final(self).wf(),
            final(self).bytes(ppn.0 as int) == old(self).bytes(ppn.0 as int).update(
                offset as int,
                value,
            ),
            final(self).same_except(old(self), set![ppn.0 as int]),
    {
        let idx: usize = offset / 8;
        let k: u64 = (offset % 8) as u64;
        let word = self.read_word(ppn, idx);
        let updated: u64 = (word & !(0xffu64 << (8 * k))) | ((value as u64) << (8 * k));
        self.write_word(ppn, idx, updated);
        proof {
            let before = old(self).bytes(ppn.0 as int);
            let after = self.bytes(ppn.0 as int);
            assert forall|i: int| 0 <= i < 4096 implies after[i] == before.update(
                offset as int,
                value,
            )[i] by {
                if i / 8 == idx {
                    lemma_word_with_byte(word, k, value, (i % 8) as u64);
                }
            }
            assert(after =~= before.update(offset as int, value));
        }
    }

    /// Write the bytes `data[from .. from + count]` to the start of frame
    /// `ppn`; the rest of the frame and the other frames stay as they are.
    pub fn write_bytes(&mut self, ppn: PhysPageNum, data: &[u8], from: usize, count: usize)
        requires
            old(self).wf(),
            old(self).contains(ppn.0 as int),
            count <= 4096,
            from + count <= data@.len(),
        ensures
            final(self).wf(),
            final(self).bytes(ppn.0 as int) == data@.subrange(from as int, from + count)
                + old(self).bytes(ppn.0 as int).subrange(count as int, 4096),
            final(self).same_except(old(self), set![ppn.0 as int]),
    {
        let mut k: usize = 0;
        let total: usize = data.len();
        proof {
            old(self).lemma_page_len(ppn.0 as int);
        }
        while k < count
            invariant
                k <= count <= 4096,
                total == data@.len(),
                from + count <= total,
                self.wf(),
                self.contains(ppn.0 as int),
                self.same_except(old(self), set![ppn.0 as int]),
                self.bytes(ppn.0 as int).len() == 4096,
                old(self).bytes(ppn.0 as int).len() == 4096,
                forall|j: int| 0 <= j < k ==> self.bytes(ppn.0 as int)[j] == data@[from + j],
                forall|j: int|
                    k <= j < 4096 ==> self.bytes(ppn.0 as int)[j] == old(self).bytes(
                        ppn.0 as int,
                    )[j],
            decreases count - k,
        {
            let ghost before = self.bytes(ppn.0 as int);
            self.write_byte(ppn, k, data[from + k]);
            proof {
                assert forall|j: int| 0 <= j < k + 1 implies self.bytes(ppn.0 as int)[j]
                    == data@[from
                    + j] by {
                    if j < k {
                        assert(before[j] == data@[from + j]);
                    }
                }
            }
            k = k + 1;
        }
        proof {
            assert(self.bytes(ppn.0 as int) =~= data@.subrange(from as int, from + count)
                + old(self).bytes(ppn.0 as int).subrange(count as int, 4096));
        }
    }

    /// Fill frame `ppn` with zeros; nothing else changes.
    pub fn zero_frame(&mut self, ppn: PhysPageNum)
        requires
            old(self).wf(),
            old(self).contains(ppn.0 as int),
        ensures
            final(self).wf(),
            final(self).page(ppn.0 as int) == zero_page(),
            final(self).same_except(old(self), set![ppn.0 as int]),
    {
        let mut idx: usize = 0;
        while idx < 512
            invariant
                idx <= 512,
                self.wf(),
                self.contains(ppn.0 as int),
                self.same_except(old(self), set![ppn.0 as int]),
                self.page(ppn.0 as int).len() == 512,
                forall|j: int| 0 <= j < idx ==> self.page(ppn.0 as int)[j] == 0,
            decreases 512 - idx,
        {
            self.write_word(ppn, idx, 0);
            idx = idx + 1;
        }
        proof {
            assert(self.page(ppn.0 as int) =~= zero_page());
        }
    }

    /// Copy the contents of frame `src` to frame `dst`; nothing else
    /// changes.
    pub fn copy_frame(&mut self, dst: PhysPageNum, src: PhysPageNum)
        requires
            old(self).wf(),
            old(self).contains(dst.0 as int),
            old(self).contains(src.0 as int),
        ensures
            final(self).wf(),
            final(self).page(dst.0 as int) == old(self).page(src.0 as int),
            final(self).same_except(old(self), set![dst.0 as int]),
    {
        if dst.0 == src.0 {
            return ;
        }
        let mut idx: usize = 0;
        while idx < 512
            invariant
                idx <= 512,
                dst.0 != src.0,
                self.wf(),
                self.contains(dst.0 as int),
                self.contains(src.0 as int),
                self.same_except(old(self), set![dst.0 as int]),
                self.page(dst.0 as int).len() == 512,
                old(self).page(src.0 as int).len() == 512,
                forall|j: int|
                    0 <= j < idx ==> self.page(dst.0 as int)[j] == old(self).page(src.0 as int)[j],
            decreases 512 - idx,
        {
            let word = self.read_word(src, idx);
            self.write_word(dst, idx, word);
            idx = idx + 1;
        }
        proof {
            assert(self.page(dst.0 as int) =~= old(self).page(src.0 as int));
        }
    }
}

/// How a step that may take frames from the pool relates the states around
/// it, for a holder whose frames were `before` and are `after`: the holder
/// kept its frames, the new ones were free, exactly they left the free set,
/// and no frame changed its contents but those of the holder and those that
/// were free.
pub open spec fn took_frames(
    before: Set<int>,
    after: Set<int>,
    old_mem: &PhysMemory,
    new_mem: &PhysMemory,
    old_allocator: &BuddyFrameAllocator,
    new_allocator: &BuddyFrameAllocator,
) -> bool {
    &&& before.subset_of(after)
    &&& after.difference(before).subset_of(old_allocator.free())
    &&& new_allocator.free() == old_allocator.free().difference(after)
    &&& new_allocator.begin() == old_allocator.begin()
    &&& new_allocator.end() == old_allocator.end()
    &&& new_mem.same_except(old_mem, before.union(old_allocator.free()))
}

/// A step that takes frames for one holder is a step that takes frames for
/// that holder together with more frames that are in use.
pub proof fn lemma_took_frames_more(
    before: Set<int>,
    after: Set<int>,
    more: Set<int>,
    old_mem: &PhysMemory,
    new_mem: &PhysMemory,
    old_allocator: &BuddyFrameAllocator,
    new_allocator: &BuddyFrameAllocator,
)
    requires
        took_frames(before, after, old_mem, new_mem, old_allocator, new_allocator),
        more.disjoint(old_allocator.free()),
    ensures
        took_frames(
            before.union(more),
            after.union(more),
            old_mem,
            new_mem,
            old_allocator,
            new_allocator,
        ),
{
    assert(new_allocator.free() =~= old_allocator.free().difference(after.union(more)));
    assert forall|ppn: int| after.union(more).difference(before.union(more)).contains(
        ppn,
    ) implies old_allocator.free().contains(ppn) by {
        assert(after.difference(before).contains(ppn));
    }
}

/// Two steps that take frames make one that takes the frames of both.
pub proof fn lemma_took_frames_twice(
    before: Set<int>,
    between: Set<int>,
    after: Set<int>,
    mem0: &PhysMemory,
    mem1: &PhysMemory,
    mem2: &PhysMemory,
    allocator0: &BuddyFrameAllocator,
    allocator1: &BuddyFrameAllocator,
    allocator2: &BuddyFrameAllocator,
)
    requires
        took_frames(before, between, mem0, mem1, allocator0, allocator1),
        took_frames(between, after, mem1, mem2, allocator1, allocator2),
    ensures
        took_frames(before, after, mem0, mem2, allocator0, allocator2),
{
    assert(allocator2.free() =~= allocator0.free().difference(after));
    assert forall|ppn: int| after.difference(before).contains(ppn)
        implies allocator0.free().contains(
        ppn,
    ) by {
        if between.contains(ppn) {
            assert(between.difference(before).contains(ppn));
        } else {
            assert(after.difference(between).contains(ppn));
            assert(allocator1.free().contains(ppn));
        }
    }
    assert forall|ppn: int|
        mem2.contains(ppn) && !before.union(allocator0.free()).contains(
            ppn,
        ) implies #[trigger] mem2.page(ppn) == mem0.page(ppn) by {
        assert(mem1.contains(ppn));
        if between.contains(ppn) {
            assert(between.difference(before).contains(ppn));
        }
        assert(!between.union(allocator1.free()).contains(ppn));
        assert(mem1.page(ppn) == mem0.page(ppn));
    }
}

/// The bytes of a zeroed frame are all zero.
pub proof fn lemma_zero_page_bytes()
    ensures
        bytes_of_words(zero_page()) == Seq::new(4096, |i: int| 0u8),
{
    assert forall|i: int| 0 <= i < 4096 implies bytes_of_words(zero_page())[i] == 0u8 by {
        lemma_zero_word_bytes((i % 8) as u64);
    }
    assert(bytes_of_words(zero_page()) =~= Seq::new(4096, |i: int| 0u8));
}

} // verus!
