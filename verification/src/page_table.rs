//! Sv39 page-table entries and the three-level page table.

use crate::address::PhysAddr;
use crate::address::PhysPageNum;
use crate::address::VirtAddr;
use crate::address::VirtPageNum;
use crate::address::page_floor;
use crate::address::page_offset_of;
use crate::address::vpn_indices;
use crate::frame_allocator::BuddyFrameAllocator;
use crate::frame_allocator::Frame;
use crate::frame_allocator::OutOfFrames;
use crate::frame_allocator::dealloc_all;
use crate::frame_allocator::distinct_frames;
use crate::frame_allocator::lemma_ppns_push;
use crate::frame_allocator::ppns_of;
use crate::memory::PhysMemory;
use crate::memory::lemma_took_frames_twice;
use crate::memory::took_frames;
use crate::memory::zero_page;
use vstd::prelude::*;
use vstd::std_specs::ops::BitAndSpecImpl;
use vstd::std_specs::ops::BitOrSpecImpl;

verus! {

/// Valid.
pub const PTE_V: u8 = 0x01;

/// Readable.
pub const PTE_R: u8 = 0x02;

/// Writable.
pub const PTE_W: u8 = 0x04;

/// Executable.
pub const PTE_X: u8 = 0x08;

/// Accessible in user mode.
pub const PTE_U: u8 = 0x10;

/// Global.
pub const PTE_G: u8 = 0x20;

/// Accessed.
pub const PTE_A: u8 = 0x40;

/// Dirty.
pub const PTE_D: u8 = 0x80;

/// The eight flag bits of a page-table entry.
#[derive(Clone, Copy, PartialEq, Eq, Debug, Structural)]
pub struct PTEFlags {
    pub bits: u8,
}

impl View for PTEFlags {
    type V = u8;

    open spec fn view(&self) -> u8 {
        self.bits
    }
}

impl PTEFlags {
    /// The flags with the given bits. All eight bits are flags, so every
    /// value is accepted.
    pub fn from_bits(bits: u8) -> (r: Option<PTEFlags>)
        ensures
            r is Some,
            r.unwrap()@ == bits,
    {
        Some(PTEFlags { bits })
    }

    /// No flag.
    pub fn empty() -> (r: PTEFlags)
        ensures
            r@ == 0,
    {
        PTEFlags { bits: 0 }
    }

    /// The bits of the flags.
    pub fn bits(&self) -> (r: u8)
        ensures
            r == self@,
    {
        self.bits
    }

    /// Whether no flag is set.
    pub fn is_empty(&self) -> (r: bool)
        ensures
            r == (self@ == 0),
    {
        self.bits == 0
    }

    /// The flags of either.
    pub fn union(self, other: PTEFlags) -> (r: PTEFlags)
        ensures
            r@ == self@ | other@,
    {
        PTEFlags { bits: self.bits | other.bits }
    }

    /// The flags of both.
    pub fn intersection(self, other: PTEFlags) -> (r: PTEFlags)
        ensures
            r@ == self@ & other@,
    {
        PTEFlags { bits: self.bits & other.bits }
    }

    /// Whether every flag of `other` is set.
    pub fn contains(&self, other: PTEFlags) -> (r: bool)
        ensures
            r == (self@ & other@ == other@),
    {
        self.bits & other.bits == other.bits
    }
}

impl core::ops::BitOr for PTEFlags {
    type Output = PTEFlags;

    /// The flags of either.
    fn bitor(self, rhs: PTEFlags) -> (r: PTEFlags) {
        PTEFlags { bits: self.bits | rhs.bits }
    }
}

impl BitOrSpecImpl for PTEFlags {
    open spec fn obeys_bitor_spec() -> bool {
        true
    }

    open spec fn bitor_req(self, rhs: PTEFlags) -> bool {
        true
    }

    open spec fn bitor_spec(self, rhs: PTEFlags) -> PTEFlags {
        PTEFlags { bits: self.bits | rhs.bits }
    }
}

impl core::ops::BitAnd for PTEFlags {
    type Output = PTEFlags;

    /// The flags of both.
    fn bitand(self, rhs: PTEFlags) -> (r: PTEFlags) {
        PTEFlags { bits: self.bits & rhs.bits }
    }
}

impl BitAndSpecImpl for PTEFlags {
    open spec fn obeys_bitand_spec() -> bool {
        true
    }

    open spec fn bitand_req(self, rhs: PTEFlags) -> bool {
        true
    }

    open spec fn bitand_spec(self, rhs: PTEFlags) -> PTEFlags {
        PTEFlags { bits: self.bits & rhs.bits }
    }
}

/// The word of an entry that points to frame `ppn` with flag bits `flags`:
/// the frame number from bit 10 on, the flags in the low 8 bits.
pub open spec fn pte_bits(ppn: u64, flags: u8) -> u64 {
    ((ppn as int % 0x40_0000_0000_0000) * 1024 + flags as int) as u64
}

/// A page-table entry: a 64-bit word.
#[derive(Clone, Copy, PartialEq, Eq, Debug, Structural)]
pub struct PageTableEntry {
    pub bits: u64,
}

impl PageTableEntry {
    /// The frame number that the entry holds: bits 10 to 53.
    pub open spec fn spec_ppn(&self) -> u64 {
        ((self.bits as int / 1024) % 0x1000_0000_0000) as u64
    }

    /// The flag bits of the entry: its low 8 bits.
    pub open spec fn spec_flags(&self) -> u8 {
        (self.bits as int % 256) as u8
    }

    /// Whether the V flag is set.
    pub open spec fn spec_is_valid(&self) -> bool {
        self.bits as int % 2 == 1
    }

    /// Whether the entry is a leaf: one of R, W and X is set.
    pub open spec fn spec_is_leaf(&self) -> bool {
        (self.bits as int / 2) % 8 != 0
    }

    /// The entry that points to frame `ppn` with flags `flags`.
    pub fn new(ppn: PhysPageNum, flags: PTEFlags) -> (r: Self)
        ensures
            r.bits == pte_bits(ppn.0, flags@),
            r.spec_ppn() == ppn.0 as int % 0x1000_0000_0000,
            r.spec_flags() == flags@,
    {
        let p = ppn.0;
        let f = flags.bits();
        assert(((p << 10) | (f as u64)) == (p % 0x40_0000_0000_0000) * 1024 + f) by (bit_vector);
        proof {
            lemma_entry_round_trip(p, f);
        }
        PageTableEntry { bits: (ppn.0 << 10) | (flags.bits() as u64) }
    }

    /// The entry without any bit.
    pub fn empty() -> (r: Self)
        ensures
            r.bits == 0,
            !r.spec_is_valid(),
    {
        PageTableEntry { bits: 0 }
    }

    /// The frame number of the entry.
    pub fn ppn(&self) -> (r: PhysPageNum)
        ensures
            r.0 == self.spec_ppn(),
            r.0 < 0x1000_0000_0000,
    {
        let b = self.bits;
        assert((b >> 10) & 0xfff_ffff_ffff == (b / 1024) % 0x1000_0000_0000) by (bit_vector);
        PhysPageNum((self.bits >> 10) & 0xfff_ffff_ffff)
    }

    /// The flags of the entry.
    pub fn flags(&self) -> (r: PTEFlags)
        ensures
            r@ == self.spec_flags(),
    {
        let b = self.bits;
        assert((b & 0xff) == b % 256) by (bit_vector);
        PTEFlags { bits: (self.bits & 0xff) as u8 }
    }

    /// Whether the V flag is set.
    pub fn is_valid(&self) -> (r: bool)
        ensures
            r == self.spec_is_valid(),
    {
        let b = self.bits;
        assert((b & 1 != 0) == (b % 2 == 1)) by (bit_vector);
        self.bits & 1 != 0
    }

    /// Whether the entry is a leaf: one of R, W and X is set.
    pub fn is_leaf(&self) -> (r: bool)
        ensures
            r == self.spec_is_leaf(),
    {
        let b = self.bits;
        assert((b & 0xe != 0) == ((b / 2) % 8 != 0)) by (bit_vector);
        self.bits & 0xe != 0
    }
}

/// Decoding an entry gives back the frame number and the flags that it was
/// made of: the low 44 bits of the frame number, and all eight flag bits.
pub proof fn lemma_entry_round_trip(ppn: u64, flags: u8)
    ensures
        (PageTableEntry { bits: pte_bits(ppn, flags) }).spec_ppn() == ppn as int % 0x1000_0000_0000,
        (PageTableEntry { bits: pte_bits(ppn, flags) }).spec_flags() == flags,
        (PageTableEntry { bits: pte_bits(ppn, flags) }).spec_is_valid() == (flags as int % 2 == 1),
        (PageTableEntry { bits: pte_bits(ppn, flags) }).spec_is_leaf() == ((flags as int / 2) % 8
            != 0),
{
    let b: u64 = (ppn << 10) | (flags as u64);
    assert(b == (ppn % 0x40_0000_0000_0000) * 1024 + flags) by (bit_vector)
        requires
            b == (ppn << 10) | (flags as u64),
    ;
    assert((b / 1024) % 0x1000_0000_0000 == ppn % 0x1000_0000_0000 && b % 256 == flags && (b % 2
        == 1) == (flags % 2 == 1) && ((b / 2) % 8 != 0) == ((flags / 2) % 8 != 0)) by (bit_vector)
        requires
            b == (ppn << 10) | (flags as u64),
    ;
    assert(pte_bits(ppn, flags) == b);
}

/// Adding the V flag to flag bits makes them odd and keeps the other bits.
pub proof fn lemma_with_valid(flags: u8)
    ensures
        (flags | PTE_V) as int % 2 == 1,
        (flags | PTE_V) as int / 2 == flags as int / 2,
{
    assert((flags | 1u8) % 2 == 1 && (flags | 1u8) / 2 == flags / 2) by (bit_vector);
}

/// Number of tables that a mapping of page `vpn` needs after a table was
/// created under entry `idx` of a table with the role `parent`, where it
/// needed `before`: one less where the new table lies on the way to
/// `vpn`.
pub open spec fn missing_after_table(before: int, parent: TableRole, idx: int, vpn: u64) -> int {
    match parent {
        TableRole::Root => if vpn_indices(vpn).0 == idx {
            1
        } else {
            before
        },
        TableRole::Mid(i2) => if vpn_indices(vpn).0 == i2 && vpn_indices(vpn).1 == idx {
            0
        } else {
            before
        },
        TableRole::Low(_, _) => before,
    }
}

/// Number of tables that a mapping of page `vpn` needs after page `mapped`
/// was mapped, where it needed `before`: none where the two pages share
/// their level-0 table, at most one where they share their level-1 table,
/// and as many as before otherwise.
#[verifier::opaque]
pub open spec fn missing_after(before: int, vpn: u64, mapped: u64) -> int {
    if vpn_indices(vpn).0 == vpn_indices(mapped).0 && vpn_indices(vpn).1 == vpn_indices(
        mapped,
    ).1 {
        0
    } else if vpn_indices(vpn).0 == vpn_indices(mapped).0 && before >= 1 {
        1
    } else {
        before
    }
}

/// What mapping a page does to the tables that another page needs is what
/// mapping the last page before that one does, where pages are mapped in
/// ascending order.
pub proof fn lemma_missing_after_twice(before: int, vpn: u64, first: u64, second: u64)
    requires
        first <= second < vpn < 0x800_0000,
    ensures
        missing_after(missing_after(before, vpn, first), vpn, second) == missing_after(
            before,
            vpn,
            second,
        ),
{
    reveal(missing_after);
    crate::address::lemma_indices_between(first, second, vpn);
}

/// A page needs no table after it was mapped, and a page needs no fewer
/// than no table and no more than before after another one was mapped.
pub proof fn lemma_missing_after(before: int, vpn: u64, mapped: u64)
    requires
        0 <= before <= 2,
    ensures
        0 <= missing_after(before, vpn, mapped) <= before,
        missing_after(before, mapped, mapped) == 0,
{
    reveal(missing_after);
}

/// A page needs no table after a page that shares its first two indices
/// was mapped.
pub proof fn lemma_missing_after_shared(before: int, vpn: u64, mapped: u64)
    requires
        vpn_indices(vpn).0 == vpn_indices(mapped).0,
        vpn_indices(vpn).1 == vpn_indices(mapped).1,
    ensures
        missing_after(before, vpn, mapped) == 0,
{
    reveal(missing_after);
}

/// What a frame of a page table serves as: the root table, the level-1
/// table under one root index, or the level-0 table under a pair of indices.
pub enum TableRole {
    Root,
    Mid(int),
    Low(int, int),
}

/// Entry `idx` of the table in frame `table`.
pub open spec fn entry_at(mem: &PhysMemory, table: int, idx: int) -> PageTableEntry {
    PageTableEntry { bits: mem.page(table)[idx] }
}

/// The table that entry `idx` of the table in frame `table` leads to: the
/// frame of a valid entry, where `table` is part of the memory.
pub open spec fn follow(mem: &PhysMemory, table: int, idx: int) -> Option<int> {
    if mem.contains(table) && entry_at(mem, table, idx).spec_is_valid() {
        Some(entry_at(mem, table, idx).spec_ppn() as int)
    } else {
        None
    }
}

/// A three-level Sv39 page table: the root frame, and the frames of the
/// tables that were created under it.
pub struct PageTable {
    root_ppn: PhysPageNum,
    frames: Vec<Frame>,
    roles: Ghost<Map<int, TableRole>>,
}

impl PageTable {
    /// The frame of the root table.
    pub closed spec fn root(&self) -> int {
        self.root_ppn.0 as int
    }

    /// The frames that the table owns: the root and the tables under it. A
    /// view made by `from_satp` owns none.
    pub closed spec fn owned(&self) -> Set<int> {
        self.roles@.dom()
    }

    /// The level-1 table on the way to page `vpn`.
    pub closed spec fn mid_table(&self, mem: &PhysMemory, vpn: u64) -> Option<int> {
        follow(mem, self.root(), vpn_indices(vpn).0)
    }

    /// The level-0 table on the way to page `vpn`.
    pub closed spec fn low_table(&self, mem: &PhysMemory, vpn: u64) -> Option<int> {
        match self.mid_table(mem, vpn) {
            Some(mid) => follow(mem, mid, vpn_indices(vpn).1),
            None => None,
        }
    }

    /// The level-0 entry of page `vpn`, valid or not, where the walk reaches
    /// a level-0 table in memory.
    pub closed spec fn slot(&self, mem: &PhysMemory, vpn: u64) -> Option<PageTableEntry> {
        match self.low_table(mem, vpn) {
            Some(low) => if mem.contains(low) {
                Some(entry_at(mem, low, vpn_indices(vpn).2))
            } else {
                None
            },
            None => None,
        }
    }

    /// What the table finds for a page is the level-0 entry of the page
    /// where that is valid, and the walk reaches the level-0 entry of a
    /// well-formed table exactly when no table is missing.
    pub proof fn lemma_slot(&self, mem: &PhysMemory, vpn: u64)
        ensures
            self.find(mem, vpn) == match self.slot(mem, vpn) {
                Some(e) => if e.spec_is_valid() {
                    Some(e)
                } else {
                    None
                },
                None => None,
            },
            self.wf(mem) ==> (self.slot(mem, vpn) is Some <==> self.missing_tables(mem, vpn) == 0),
    {
        if self.wf(mem) {
            let (i2, i1, i0) = vpn_indices(vpn);
            assert(self.entry_ok(mem, self.root(), i2));
            match self.mid_table(mem, vpn) {
                Some(mid) => {
                    assert(self.entry_ok(mem, mid, i1));
                },
                None => {},
            }
        }
    }

    /// The valid level-0 entry of page `vpn`, where the walk reaches one.
    pub closed spec fn find(&self, mem: &PhysMemory, vpn: u64) -> Option<PageTableEntry> {
        match self.low_table(mem, vpn) {
            Some(low) => if mem.contains(low) && entry_at(
                mem,
                low,
                vpn_indices(vpn).2,
            ).spec_is_valid() {
                Some(entry_at(mem, low, vpn_indices(vpn).2))
            } else {
                None
            },
            None => None,
        }
    }

    /// Number of tables that a mapping of page `vpn` still needs.
    pub closed spec fn missing_tables(&self, mem: &PhysMemory, vpn: u64) -> int {
        if self.mid_table(mem, vpn) is None {
            2
        } else if self.low_table(mem, vpn) is None {
            1
        } else {
            0
        }
    }

    /// A mapping needs at most two more tables, and none where the page is
    /// mapped.
    pub proof fn lemma_missing_tables(&self, mem: &PhysMemory, vpn: u64)
        ensures
            0 <= self.missing_tables(mem, vpn) <= 2,
            self.find(mem, vpn) is Some ==> self.missing_tables(mem, vpn) == 0,
    {
    }

    /// Whether entry `idx` of the owned table `table` leads where its role
    /// says.
    pub closed spec fn entry_ok(&self, mem: &PhysMemory, table: int, idx: int) -> bool {
        let e = entry_at(mem, table, idx);
        e.spec_is_valid() ==> match self.roles@[table] {
            TableRole::Root => {
                &&& self.roles@.contains_key(e.spec_ppn() as int)
                &&& self.roles@[e.spec_ppn() as int] == TableRole::Mid(idx)
                &&& e.bits == pte_bits(e.spec_ppn(), PTE_V)
            },
            TableRole::Mid(i2) => {
                &&& self.roles@.contains_key(e.spec_ppn() as int)
                &&& self.roles@[e.spec_ppn() as int] == TableRole::Low(i2, idx)
                &&& e.bits == pte_bits(e.spec_ppn(), PTE_V)
            },
            TableRole::Low(_, _) => true,
        }
    }

    /// The table is a tree in memory: the handles are those of the owned
    /// frames, each once; the owned frames lie in memory; every valid entry
    /// of the root leads to a level-1 table of its own, every valid entry of
    /// a level-1 table to a level-0 table of its own.
    pub closed spec fn wf(&self, mem: &PhysMemory) -> bool {
        &&& mem.wf()
        &&& self.frames@.len() >= 1
        &&& self.frames@[0].ppn == self.root_ppn
        &&& self.roles@.contains_key(self.root())
        &&& self.roles@[self.root()] == TableRole::Root
        &&& self.roles@.dom() == ppns_of(self.frames@)
        &&& distinct_frames(self.frames@)
        &&& forall|p: int|
            #[trigger] self.roles@.contains_key(p) ==> mem.contains(p) && (self.roles@[p] is Root
                ==> p == self.root())
        &&& forall|t: int, idx: int|
            self.roles@.contains_key(t) && 0 <= idx < 512 ==> #[trigger] self.entry_ok(mem, t, idx)
    }

    /// The table is a tree in memory, the memory holds the pool, and the
    /// pool has every owned frame as in use.
    pub open spec fn inv(&self, mem: &PhysMemory, allocator: &BuddyFrameAllocator) -> bool {
        &&& mem.backs(allocator)
        &&& self.wf(mem)
        &&& forall|p: int| #[trigger] self.owned().contains(p) ==> allocator.in_use(p)
    }

    /// The memory of a well-formed table is well formed, the root is owned,
    /// and the owned frames lie in memory.
    pub proof fn lemma_owned(&self, mem: &PhysMemory)
        requires
            self.wf(mem),
        ensures
            mem.wf(),
            self.owned().contains(self.root()),
            forall|p: int| #[trigger] self.owned().contains(p) ==> mem.contains(p),
    {
    }

    /// A well-formed table stays well formed, and finds what it found, when
    /// the frames that it owns keep their contents.
    pub proof fn lemma_stable(&self, mem: &PhysMemory, other: &PhysMemory)
        requires
            self.wf(mem),
            other.wf(),
            other.base() == mem.base(),
            other.frames() == mem.frames(),
            forall|p: int| #[trigger] self.owned().contains(p) ==> other.page(p) == mem.page(p),
        ensures
            self.wf(other),
            forall|vpn: u64| #[trigger] self.find(other, vpn) == self.find(mem, vpn),
            forall|vpn: u64| #[trigger]
                self.missing_tables(other, vpn) == self.missing_tables(mem, vpn),
    {
        assert forall|t: int, idx: int|
            self.roles@.contains_key(t) && 0 <= idx < 512 implies #[trigger] self.entry_ok(
            other,
            t,
            idx,
        ) by {
            assert(self.owned().contains(t));
            assert(self.entry_ok(mem, t, idx));
        }
        assert forall|vpn: u64| #[trigger] self.find(other, vpn) == self.find(mem, vpn) by {
            self.lemma_walk_same(mem, other, vpn);
        }
        assert forall|vpn: u64| #[trigger]
            self.missing_tables(other, vpn) == self.missing_tables(mem, vpn) by {
            self.lemma_walk_same(mem, other, vpn);
        }
    }

    /// The walk to one page visits owned frames only.
    proof fn lemma_walk_same(&self, mem: &PhysMemory, other: &PhysMemory, vpn: u64)
        requires
            self.wf(mem),
            other.base() == mem.base(),
            other.frames() == mem.frames(),
            forall|p: int| #[trigger] self.owned().contains(p) ==> other.page(p) == mem.page(p),
        ensures
            self.find(other, vpn) == self.find(mem, vpn),
            self.mid_table(other, vpn) == self.mid_table(mem, vpn),
            self.low_table(other, vpn) == self.low_table(mem, vpn),
            self.missing_tables(other, vpn) == self.missing_tables(mem, vpn),
    {
        let (i2, i1, i0) = vpn_indices(vpn);
        assert(self.owned().contains(self.root()));
        assert(self.entry_ok(mem, self.root(), i2));
        match self.mid_table(mem, vpn) {
            Some(mid) => {
                assert(self.owned().contains(mid));
                assert(self.entry_ok(mem, mid, i1));
                match self.low_table(mem, vpn) {
                    Some(low) => {
                        assert(self.owned().contains(low));
                    },
                    None => {},
                }
            },
            None => {},
        }
    }

    /// Creating a table under an entry that was not valid, with all its
    /// entries empty, changes nothing that the table finds.
    proof fn lemma_created_table(
        &self,
        mem: &PhysMemory,
        after: &PageTable,
        new_mem: &PhysMemory,
        table: int,
        idx: int,
        child: int,
        vpn: u64,
    )
        requires
            self.wf(mem),
            after.root() == self.root(),
            self.roles@.contains_key(table),
            !(self.roles@[table] is Low),
            !self.roles@.contains_key(child),
            mem.contains(child),
            0 <= idx < 512,
            follow(mem, table, idx) is None,
            new_mem.page(child) == zero_page(),
            new_mem.page(table) == mem.page(table).update(idx, pte_bits(child as u64, PTE_V)),
            new_mem.same_except(mem, set![child, table]),
            self.roles@[table] matches TableRole::Mid(j2) ==> 0 <= j2 < 512 && follow(
                mem,
                self.root(),
                j2,
            ) == Some(table),
        ensures
            after.find(new_mem, vpn) == self.find(mem, vpn),
            after.missing_tables(new_mem, vpn) == missing_after_table(
                self.missing_tables(mem, vpn),
                self.roles@[table],
                idx,
                vpn,
            ),
    {
        let (i2, i1, i0) = vpn_indices(vpn);
        let root = self.root();
        mem.lemma_page_len(child);
        mem.lemma_page_len(table);
        lemma_entry_round_trip(child as u64, PTE_V);
        assert(self.entry_ok(mem, root, i2));
        assert(root != child);
        if table == root {
            if i2 != idx {
                assert(after.mid_table(new_mem, vpn) == self.mid_table(mem, vpn));
                match self.mid_table(mem, vpn) {
                    Some(mid) => {
                        assert(self.entry_ok(mem, mid, i1));
                        assert(new_mem.page(mid) == mem.page(mid));
                        assert(after.low_table(new_mem, vpn) == self.low_table(mem, vpn));
                        match self.low_table(mem, vpn) {
                            Some(low) => {
                                assert(new_mem.page(low) == mem.page(low));
                            },
                            None => {},
                        }
                    },
                    None => {},
                }
            } else {
                assert(self.mid_table(mem, vpn) is None);
                assert(after.mid_table(new_mem, vpn) == Some(child));
                assert(new_mem.page(child)[i1] == 0);
                assert(after.low_table(new_mem, vpn) is None);
            }
        } else {
            assert(new_mem.page(root) == mem.page(root));
            assert(after.mid_table(new_mem, vpn) == self.mid_table(mem, vpn));
            let j2 = self.roles@[table]->Mid_0;
            assert(self.entry_ok(mem, root, j2));
            match self.mid_table(mem, vpn) {
                Some(mid) => {
                    assert(self.entry_ok(mem, mid, i1));
                    assert(mid == table <==> i2 == j2);
                    if mid == table {
                        if i1 == idx {
                            assert(after.low_table(new_mem, vpn) == Some(child));
                        } else {
                            assert(after.low_table(new_mem, vpn) == self.low_table(mem, vpn));
                        }
                        if i1 != idx {
                            match self.low_table(mem, vpn) {
                                Some(low) => {
                                    assert(new_mem.page(low) == mem.page(low));
                                },
                                None => {},
                            }
                        }
                    } else {
                        assert(new_mem.page(mid) == mem.page(mid));
                        assert(after.low_table(new_mem, vpn) == self.low_table(mem, vpn));
                        match self.low_table(mem, vpn) {
                            Some(low) => {
                                assert(new_mem.page(low) == mem.page(low));
                            },
                            None => {},
                        }
                    }
                },
                None => {},
            }
        }
    }

    /// Writing one entry of a level-0 table changes what the table finds for
    /// the page of that entry, and for no other page.
    proof fn lemma_leaf_write(
        &self,
        mem: &PhysMemory,
        new_mem: &PhysMemory,
        low: int,
        at: u64,
        bits: u64,
        vpn: u64,
    )
        requires
            self.wf(mem),
            self.low_table(mem, at) == Some(low),
            self.roles@.contains_key(low),
            self.roles@[low] == TableRole::Low(vpn_indices(at).0, vpn_indices(at).1),
            new_mem.wf(),
            new_mem.page(low) == mem.page(low).update(vpn_indices(at).2, bits),
            new_mem.same_except(mem, set![low]),
        ensures
            self.wf(new_mem),
            vpn_indices(vpn) != vpn_indices(at) ==> self.find(new_mem, vpn) == self.find(mem, vpn),
            vpn_indices(vpn) == vpn_indices(at) ==> self.find(new_mem, vpn) == if (PageTableEntry {
                bits,
            }).spec_is_valid() {
                Some(PageTableEntry { bits })
            } else {
                None
            },
            self.missing_tables(new_mem, vpn) == self.missing_tables(mem, vpn),
            self.low_table(new_mem, vpn) == self.low_table(mem, vpn),
    {
        let (i2, i1, i0) = vpn_indices(vpn);
        let root = self.root();
        mem.lemma_page_len(low);
        assert(self.entry_ok(mem, root, i2));
        assert(self.entry_ok(mem, root, vpn_indices(at).0));
        assert(new_mem.page(root) == mem.page(root));
        match self.mid_table(mem, vpn) {
            Some(mid) => {
                assert(self.entry_ok(mem, mid, i1));
                assert(new_mem.page(mid) == mem.page(mid));
                match self.low_table(mem, vpn) {
                    Some(other) => {
                        if other != low {
                            assert(new_mem.page(other) == mem.page(other));
                        }
                    },
                    None => {},
                }
            },
            None => {},
        }
        match self.mid_table(mem, at) {
            Some(mid) => {
                assert(self.entry_ok(mem, mid, vpn_indices(at).1));
            },
            None => {},
        }
        assert forall|t: int, idx: int|
            self.roles@.contains_key(t) && 0 <= idx < 512 implies #[trigger] self.entry_ok(
            new_mem,
            t,
            idx,
        ) by {
            assert(self.entry_ok(mem, t, idx));
            if t != low {
                assert(new_mem.page(t) == mem.page(t));
            }
        }
    }

    /// A table with a root of its own and no mapping. `None` exactly when
    /// the pool has no free frame.
    pub fn new(mem: &mut PhysMemory, allocator: &mut BuddyFrameAllocator) -> (r: Option<Self>)
        requires
            old(mem).backs(old(allocator)),
        ensures
            final(mem).backs(final(allocator)),
            r is None <==> old(allocator).free() == Set::<int>::empty(),
            match r {
                Some(table) => {
                    &&& table.inv(final(mem), final(allocator))
                    &&& table.owned() == set![table.root()]
                    &&& took_frames(
                        Set::<int>::empty(),
                        table.owned(),
                        old(mem),
                        final(mem),
                        old(allocator),
                        final(allocator),
                    )
                    &&& forall|vpn: u64| #[trigger] table.find(final(mem), vpn) is None
                },
                None => *final(mem) == *old(mem) && final(allocator).free()
                    == old(allocator).free() && final(allocator).begin()
                    == old(allocator).begin() && final(allocator).end() == old(allocator).end(),
            },
    {
        proof {
            allocator.lemma_free_in_window();
        }
        match Frame::try_allocate(allocator) {
            None => None,
            Some(frame) => {
                let root_ppn = frame.ppn;
                mem.zero_frame(root_ppn);
                let mut frames: Vec<Frame> = Vec::new();
                frames.push(frame);
                let table = PageTable {
                    root_ppn,
                    frames,
                    roles: Ghost(Map::empty().insert(root_ppn.0 as int, TableRole::Root)),
                };
                proof {
                    lemma_ppns_push(Seq::<Frame>::empty(), frame);
                    assert(ppns_of(Seq::<Frame>::empty()) =~= Set::<int>::empty());
                    assert(table.frames@ =~= Seq::<Frame>::empty().push(frame));
                    assert(table.roles@.dom() =~= ppns_of(table.frames@));
                    assert(table.owned() =~= set![table.root()]);
                    assert(allocator.free() =~= old(allocator).free().difference(table.owned()));
                    assert forall|t: int, idx: int|
                        table.roles@.contains_key(t) && 0 <= idx < 512
                            implies #[trigger] table.entry_ok(
                    mem, t, idx) by {
                        assert(mem.page(t)[idx] == 0);
                    }
                }
                Some(table)
            },
        }
    }

    /// The table that entry `idx` of the owned table `table` leads to,
    /// created empty where the entry is not valid. `None` where a table is
    /// needed and the pool has no free frame.
    fn next_or_create(
        &mut self,
        mem: &mut PhysMemory,
        allocator: &mut BuddyFrameAllocator,
        table: PhysPageNum,
        idx: usize,
        Ghost(role): Ghost<TableRole>,
    ) -> (r: Option<PhysPageNum>)
        requires
            old(self).inv(old(mem), old(allocator)),
            old(self).roles@.contains_key(table.0 as int),
            idx < 512,
            match old(self).roles@[table.0 as int] {
                TableRole::Root => role == TableRole::Mid(idx as int),
                TableRole::Mid(i2) => role == TableRole::Low(i2, idx as int) && 0 <= i2 < 512
                    && follow(old(mem), old(self).root(), i2) == Some(table.0 as int),
                TableRole::Low(_, _) => false,
            },
        ensures
            final(self).inv(final(mem), final(allocator)),
            final(self).root() == old(self).root(),
            took_frames(
                old(self).owned(),
                final(self).owned(),
                old(mem),
                final(mem),
                old(allocator),
                final(allocator),
            ),
            forall|vpn: u64| #[trigger]
                final(self).find(final(mem), vpn) == old(self).find(old(mem), vpn),
            match r {
                Some(child) => {
                    &&& follow(final(mem), table.0 as int, idx as int) == Some(child.0 as int)
                    &&& final(self).roles@.contains_key(child.0 as int)
                    &&& final(self).roles@[child.0 as int] == role
                },
                None => follow(old(mem), table.0 as int, idx as int) is None
                    && old(allocator).free() == Set::<int>::empty(),
            },
            follow(old(mem), table.0 as int, idx as int) is Some ==> {
                &&& r == Some(
                    PhysPageNum(follow(old(mem), table.0 as int, idx as int).unwrap() as u64),
                )
                &&& *final(mem) == *old(mem)
                &&& *final(allocator) == *old(allocator)
                &&& final(self).roles@ == old(self).roles@
            },
            follow(old(mem), table.0 as int, idx as int) is None && r is Some ==> {
                let child = r.unwrap().0 as int;
                &&& old(allocator).free().contains(child)
                &&& final(allocator).free() == old(allocator).free().remove(child)
                &&& final(self).roles@ == old(self).roles@.insert(child, role)
                &&& final(mem).page(child) == zero_page()
                &&& forall|k: int|
                    0 <= k < 512 && k != idx ==> follow(final(mem), table.0 as int, k) == follow(
                        old(mem),
                        table.0 as int,
                        k,
                    )
            },
            r is None ==> final(self).roles@ == old(self).roles@ && *final(mem) == *old(mem),
            forall|t: int|
                old(self).roles@.contains_key(t) && t != table.0 ==> #[trigger] final(mem).page(t)
                    == old(mem).page(t),
            forall|vpn: u64| #[trigger]
                final(self).missing_tables(final(mem), vpn) == if follow(
                    old(mem),
                    table.0 as int,
                    idx as int,
                ) is None && r is Some {
                    missing_after_table(
                        old(self).missing_tables(old(mem), vpn),
                        old(self).roles@[table.0 as int],
                        idx as int,
                        vpn,
                    )
                } else {
                    old(self).missing_tables(old(mem), vpn)
                },
    {
        proof {
            old(mem).lemma_page_len(table.0 as int);
            allocator.lemma_free_in_window();
        }
        let e = PageTableEntry { bits: mem.read_word(table, idx) };
        if e.is_valid() {
            proof {
                assert(self.entry_ok(mem, table.0 as int, idx as int));
                assert(self.owned() =~= old(self).owned());
                assert(allocator.free() =~= old(allocator).free().difference(self.owned()));
            }
            return Some(e.ppn());
        }
        match Frame::try_allocate(allocator) {
            None => {
                proof {
                    assert(allocator.free() =~= old(allocator).free().difference(self.owned()));
                }
                None
            },
            Some(frame) => {
                let child = frame.ppn;
                proof {
                    assert(old(allocator).free().contains(child.0 as int));
                    assert(!old(allocator).in_use(child.0 as int));
                    assert(!self.owned().contains(child.0 as int));
                    old(mem).lemma_page_len(child.0 as int);
                }
                mem.zero_frame(child);
                let ghost zeroed = *mem;
                let pointer = PageTableEntry::new(child, PTEFlags { bits: PTE_V });
                mem.write_word(table, idx, pointer.bits);
                self.frames.push(frame);
                proof {
                    self.roles = Ghost(self.roles@.insert(child.0 as int, role));
                    lemma_ppns_push(old(self).frames@, frame);
                    assert(self.roles@.dom() =~= ppns_of(self.frames@));
                    lemma_entry_round_trip(child.0, PTE_V);
                    assert(mem.page(child.0 as int) == zero_page());
                    assert(mem.page(table.0 as int) == old(mem).page(table.0 as int).update(
                        idx as int,
                        pte_bits(child.0, PTE_V),
                    ));
                    assert(self.owned() =~= old(self).owned().insert(child.0 as int));
                    assert(allocator.free() =~= old(allocator).free().difference(self.owned()));
                    assert(mem.same_except(old(mem), set![child.0 as int, table.0 as int])) by {
                        assert forall|q: int|
                            mem.contains(q) && !set![child.0 as int, table.0 as int].contains(
                                q,
                            ) implies #[trigger] mem.page(q) == old(mem).page(q) by {
                            assert(zeroed.page(q) == old(mem).page(q));
                        }
                    }
                    assert forall|t: int, k: int|
                        self.roles@.contains_key(t) && 0 <= k < 512
                            implies #[trigger] self.entry_ok(
                    mem, t, k) by {
                        if t == child.0 as int {
                            assert(mem.page(t)[k] == 0);
                        } else {
                            assert(old(self).entry_ok(old(mem), t, k));
                            if t != table.0 as int {
                                assert(mem.page(t) == old(mem).page(t));
                            }
                        }
                    }
                    assert forall|vpn: u64| #[trigger]
                        self.find(mem, vpn) == old(self).find(old(mem), vpn) by {
                        old(self).lemma_created_table(
                            old(mem),
                            self,
                            mem,
                            table.0 as int,
                            idx as int,
                            child.0 as int,
                            vpn,
                        );
                    }
                    assert forall|vpn: u64| #[trigger]
                        self.missing_tables(mem, vpn) == missing_after_table(
                            old(self).missing_tables(old(mem), vpn),
                            old(self).roles@[table.0 as int],
                            idx as int,
                            vpn,
                        ) by {
                        old(self).lemma_created_table(
                            old(mem),
                            self,
                            mem,
                            table.0 as int,
                            idx as int,
                            child.0 as int,
                            vpn,
                        );
                    }
                }
                Some(child)
            },
        }
    }

    /// The level-0 table of page `vpn`, with the tables on the way created
    /// where they are missing. `None` exactly when the pool has fewer free
    /// frames than tables are missing.
    fn low_table_or_create(
        &mut self,
        mem: &mut PhysMemory,
        allocator: &mut BuddyFrameAllocator,
        vpn: VirtPageNum,
    ) -> (r: Option<(PhysPageNum, usize)>)
        requires
            old(self).inv(old(mem), old(allocator)),
        ensures
            final(self).inv(final(mem), final(allocator)),
            final(self).root() == old(self).root(),
            took_frames(
                old(self).owned(),
                final(self).owned(),
                old(mem),
                final(mem),
                old(allocator),
                final(allocator),
            ),
            forall|v: u64| #[trigger] final(self).find(final(mem), v)
                == old(self).find(old(mem), v),
            r is Some <==> old(allocator).free().len() >= old(self).missing_tables(
                old(mem),
                vpn.0,
            ),
            match r {
                Some((low, i0)) => {
                    &&& final(self).low_table(final(mem), vpn.0) == Some(low.0 as int)
                    &&& final(self).roles@.contains_key(low.0 as int)
                    &&& final(self).roles@[low.0 as int] == TableRole::Low(
                        vpn_indices(vpn.0).0,
                        vpn_indices(vpn.0).1,
                    )
                    &&& i0 == vpn_indices(vpn.0).2
                    &&& final(allocator).free().len() == old(allocator).free().len()
                        - old(self).missing_tables(old(mem), vpn.0)
                },
                None => final(allocator).free() == Set::<int>::empty(),
            },
            r is Some ==> forall|v: u64| #[trigger]
                final(self).missing_tables(final(mem), v) == missing_after(
                    old(self).missing_tables(old(mem), v),
                    v,
                    vpn.0,
                ),
            r matches Some((low, i0)) ==> final(mem).page(low.0 as int) == if old(
                self,
            ).missing_tables(old(mem), vpn.0) == 0 {
                old(mem).page(old(self).low_table(old(mem), vpn.0).unwrap())
            } else {
                zero_page()
            },
            r is Some && old(self).missing_tables(old(mem), vpn.0) == 0 ==> old(self).low_table(
                old(mem),
                vpn.0,
            ) == Some(r.unwrap().0.0 as int),
    {
        let idxs = vpn.get_idxs();
        let root = self.root_ppn;
        let ghost i2 = idxs[0] as int;
        let ghost i1 = idxs[1] as int;
        proof {
            allocator.lemma_free_in_window();
        }
        let mid = match self.next_or_create(mem, allocator, root, idxs[0],
            Ghost(TableRole::Mid(i2))) {
            Some(mid) => mid,
            None => {
                return None;
            },
        };
        let ghost mid_pt = *self;
        let ghost mid_mem = *mem;
        let ghost mid_allocator = *allocator;
        proof {
            allocator.lemma_free_in_window();
        }
        let low = match self.next_or_create(mem, allocator, mid, idxs[1], Ghost(TableRole::Low(i2,
            i1))) {
            Some(low) => low,
            None => {
                proof {
                    lemma_took_frames_twice(
                        old(self).owned(),
                        mid_pt.owned(),
                        self.owned(),
                        old(mem),
                        &mid_mem,
                        mem,
                        old(allocator),
                        &mid_allocator,
                        allocator,
                    );
                    assert forall|v: u64| #[trigger]
                        self.find(mem, v) == old(self).find(old(mem), v) by {
                        assert(mid_pt.find(&mid_mem, v) == old(self).find(old(mem), v));
                    }
                    assert(allocator.free() =~= Set::<int>::empty());
                    if follow(old(mem), root.0 as int, i2) is None {
                        assert(mid_mem.page(mid.0 as int) == zero_page());
                    } else {
                        assert(follow(&mid_mem, mid.0 as int, i1) == follow(
                            old(mem),
                            mid.0 as int,
                            i1,
                        ));
                    }
                }
                return None;
            },
        };
        proof {
            lemma_took_frames_twice(
                old(self).owned(),
                mid_pt.owned(),
                self.owned(),
                old(mem),
                &mid_mem,
                mem,
                old(allocator),
                &mid_allocator,
                allocator,
            );
            assert forall|v: u64| #[trigger] self.find(mem, v) == old(self).find(old(mem), v) by {
                assert(mid_pt.find(&mid_mem, v) == old(self).find(old(mem), v));
            }
            if follow(old(mem), root.0 as int, i2) is None {
                assert(mid_mem.page(mid.0 as int) == zero_page());
                assert(follow(&mid_mem, mid.0 as int, i1) is None);
            } else {
                assert(follow(&mid_mem, mid.0 as int, i1) == follow(old(mem), mid.0 as int, i1));
            }
            assert(follow(mem, root.0 as int, i2) == Some(mid.0 as int)) by {
                if follow(&mid_mem, mid.0 as int, i1) is None {
                    assert(mid_pt.roles@[root.0 as int] == TableRole::Root);
                    assert(mem.page(root.0 as int) == mid_mem.page(root.0 as int));
                }
            }
            assert forall|v: u64| #[trigger]
                self.missing_tables(mem, v) == missing_after(
                    old(self).missing_tables(old(mem), v),
                    v,
                    vpn.0,
                ) by {
                reveal(missing_after);
                let before = old(self).missing_tables(old(mem), v);
                let between = mid_pt.missing_tables(&mid_mem, v);
                assert(self.missing_tables(mem, v) == if follow(&mid_mem, mid.0 as int, i1)
                    is None {
                    missing_after_table(between, mid_pt.roles@[mid.0 as int], i1, v)
                } else {
                    between
                });
                assert(between == if follow(old(mem), root.0 as int, i2) is None {
                    missing_after_table(before, old(self).roles@[root.0 as int], i2, v)
                } else {
                    before
                });
                assert(mid_pt.roles@[mid.0 as int] == TableRole::Mid(i2));
                assert(old(self).roles@[root.0 as int] == TableRole::Root);
                assert(self.low_table(mem, vpn.0) == Some(low.0 as int));
            }
        }
        Some((low, idxs[2]))
    }

    /// The level-0 entry of page `vpn`, valid or not, with the tables on the
    /// way created where they are missing. `None` exactly when the pool has
    /// fewer free frames than tables are missing.
    pub fn find_pte_or_create(
        &mut self,
        mem: &mut PhysMemory,
        allocator: &mut BuddyFrameAllocator,
        vpn: VirtPageNum,
    ) -> (r: Option<PageTableEntry>)
        requires
            old(self).inv(old(mem), old(allocator)),
        ensures
            final(self).inv(final(mem), final(allocator)),
            final(self).root() == old(self).root(),
            took_frames(
                old(self).owned(),
                final(self).owned(),
                old(mem),
                final(mem),
                old(allocator),
                final(allocator),
            ),
            forall|v: u64| #[trigger] final(self).find(final(mem), v)
                == old(self).find(old(mem), v),
            r is Some <==> old(allocator).free().len() >= old(self).missing_tables(
                old(mem),
                vpn.0,
            ),
            r is Some ==> final(self).missing_tables(final(mem), vpn.0) == 0,
            r is Some ==> final(allocator).free().len() == old(allocator).free().len() - old(
                self,
            ).missing_tables(old(mem), vpn.0),
            r is Some ==> forall|v: u64| #[trigger]
                final(self).missing_tables(final(mem), v) == missing_after(
                    old(self).missing_tables(old(mem), v),
                    v,
                    vpn.0,
                ),
            r is Some ==> r == final(self).slot(final(mem), vpn.0),
            r is Some ==> r == if old(self).missing_tables(old(mem), vpn.0) == 0 {
                old(self).slot(old(mem), vpn.0)
            } else {
                Some(PageTableEntry { bits: 0 })
            },
            r is None ==> final(allocator).free() == Set::<int>::empty(),
    {
        proof {
            old(self).lemma_slot(old(mem), vpn.0);
        }
        match self.low_table_or_create(mem, allocator, vpn) {
            Some((low, i0)) => {
                proof {
                    mem.lemma_page_len(low.0 as int);
                    assert(mem.contains(low.0 as int));
                }
                Some(PageTableEntry { bits: mem.read_word(low, i0) })
            },
            None => None,
        }
    }

    /// Map page `vpn` to frame `ppn` with the flags `flags` and V. The page
    /// must not be mapped. `Err` exactly when the pool has fewer free
    /// frames than tables are missing on the way; no mapping changes then.
    pub fn map(
        &mut self,
        mem: &mut PhysMemory,
        allocator: &mut BuddyFrameAllocator,
        vpn: VirtPageNum,
        ppn: PhysPageNum,
        flags: PTEFlags,
    ) -> (r: Result<(), OutOfFrames>)
        requires
            old(self).inv(old(mem), old(allocator)),
            old(self).find(old(mem), vpn.0) is None,
        ensures
            final(self).inv(final(mem), final(allocator)),
            final(self).root() == old(self).root(),
            took_frames(
                old(self).owned(),
                final(self).owned(),
                old(mem),
                final(mem),
                old(allocator),
                final(allocator),
            ),
            r is Ok <==> old(allocator).free().len() >= old(self).missing_tables(old(mem), vpn.0),
            r is Ok ==> final(self).find(final(mem), vpn.0) == Some(
                PageTableEntry { bits: pte_bits(ppn.0, flags@ | PTE_V) },
            ),
            r is Ok ==> final(allocator).free().len() == old(allocator).free().len()
                - old(self).missing_tables(old(mem), vpn.0),
            r is Ok ==> forall|v: u64| #[trigger]
                final(self).missing_tables(final(mem), v) == missing_after(
                    old(self).missing_tables(old(mem), v),
                    v,
                    vpn.0,
                ),
            r is Err ==> final(self).find(final(mem), vpn.0) is None,
            r is Err ==> final(allocator).free() == Set::<int>::empty(),
            forall|v: u64|
                v as int % 0x800_0000 != vpn.0 as int % 0x800_0000 ==> #[trigger] final(self).find(
                    final(mem),
                    v,
                ) == old(self).find(old(mem), v),
    {
        let (low, i0) = match self.low_table_or_create(mem, allocator, vpn) {
            Some(at) => at,
            None => {
                return Err(OutOfFrames);
            },
        };
        let ghost ready_mem = *mem;
        let entry = PageTableEntry::new(ppn, flags.union(PTEFlags { bits: PTE_V }));
        proof {
            mem.lemma_page_len(low.0 as int);
        }
        mem.write_word(low, i0, entry.bits);
        proof {
            lemma_with_valid(flags@);
            lemma_entry_round_trip(ppn.0, flags@ | PTE_V);
            let touched = old(self).owned().union(old(allocator).free());
            assert(self.owned().contains(low.0 as int));
            assert(touched.contains(low.0 as int)) by {
                if !old(self).owned().contains(low.0 as int) {
                    assert(self.owned().difference(old(self).owned()).contains(low.0 as int));
                }
            }
            assert(mem.same_except(old(mem), touched)) by {
                assert forall|q: int|
                    mem.contains(q) && !touched.contains(q) implies #[trigger] mem.page(q)
                        == old(mem).page(q) by {
                    assert(ready_mem.page(q) == old(mem).page(q));
                }
            }
            assert forall|v: u64|
                v as int % 0x800_0000 != vpn.0 as int % 0x800_0000
                    implies #[trigger] self.find(mem, v) == old(self).find(old(mem), v) by {
                crate::address::lemma_indices_spell_vpn(v);
                crate::address::lemma_indices_spell_vpn(vpn.0);
                self.lemma_leaf_write(&ready_mem, mem, low.0 as int, vpn.0, entry.bits, v);
                assert(self.find(&ready_mem, v) == old(self).find(old(mem), v));
            }
            self.lemma_leaf_write(&ready_mem, mem, low.0 as int, vpn.0, entry.bits, vpn.0);
            assert forall|v: u64| #[trigger]
                self.missing_tables(mem, v) == missing_after(
                    old(self).missing_tables(old(mem), v),
                    v,
                    vpn.0,
                ) by {
                self.lemma_leaf_write(&ready_mem, mem, low.0 as int, vpn.0, entry.bits, v);
                assert(self.missing_tables(&ready_mem, v) == missing_after(
                    old(self).missing_tables(old(mem), v),
                    v,
                    vpn.0,
                ));
            }
        }
        Ok(())
    }

    /// Give the frames of the table back to the pool.
    pub fn release(self, mem: &PhysMemory, allocator: &mut BuddyFrameAllocator)
        requires
            self.inv(mem, old(allocator)),
        ensures
            final(allocator).wf(),
            final(allocator).begin() == old(allocator).begin(),
            final(allocator).end() == old(allocator).end(),
            final(allocator).free() == old(allocator).free().union(self.owned()),
    {
        proof {
            assert forall|p: int| #[trigger] ppns_of(self.frames@).contains(p)
                implies allocator.in_use(
                p,
            ) by {
                assert(self.owned().contains(p));
            }
        }
        dealloc_all(self.frames, allocator);
    }

    /// Remove the mapping of page `vpn`, which must be mapped. The tables
    /// on the way stay.
    pub fn unmap(&mut self, mem: &mut PhysMemory, vpn: VirtPageNum)
        requires
            old(self).wf(old(mem)),
            old(self).find(old(mem), vpn.0) is Some,
        ensures
            final(self).wf(final(mem)),
            final(mem).wf(),
            final(self).root() == old(self).root(),
            final(self).owned() == old(self).owned(),
            final(mem).same_except(old(mem), old(self).owned()),
            final(self).find(final(mem), vpn.0) is None,
            final(self).slot(final(mem), vpn.0) == Some(PageTableEntry { bits: 0 }),
            forall|v: u64|
                v as int % 0x800_0000 != vpn.0 as int % 0x800_0000 ==> #[trigger] final(self).find(
                    final(mem),
                    v,
                ) == old(self).find(old(mem), v),
            forall|v: u64| #[trigger]
                final(self).missing_tables(final(mem), v) == old(self).missing_tables(old(mem), v),
    {
        let (low, i0) = match self.locate(mem, vpn) {
            Some(at) => at,
            None => {
                return ;
            },
        };
        proof {
            let (i2, i1, _i0) = vpn_indices(vpn.0);
            assert(self.entry_ok(mem, self.root(), i2));
            assert(self.entry_ok(mem, self.mid_table(mem, vpn.0).unwrap(), i1));
        }
        mem.write_word(low, i0, PageTableEntry::empty().bits);
        proof {
            assert forall|v: u64|
                v as int % 0x800_0000 != vpn.0 as int % 0x800_0000
                    implies #[trigger] self.find(mem, v) == old(self).find(old(mem), v) by {
                crate::address::lemma_indices_spell_vpn(v);
                crate::address::lemma_indices_spell_vpn(vpn.0);
                self.lemma_leaf_write(old(mem), mem, low.0 as int, vpn.0, 0, v);
            }
            assert forall|v: u64| #[trigger]
                self.missing_tables(mem, v) == old(self).missing_tables(old(mem), v) by {
                self.lemma_leaf_write(old(mem), mem, low.0 as int, vpn.0, 0, v);
            }
            self.lemma_leaf_write(old(mem), mem, low.0 as int, vpn.0, 0, vpn.0);
            old(mem).lemma_page_len(low.0 as int);
            assert(mem.page(low.0 as int)[i0 as int] == 0);
        }
    }

    /// A view of the table whose root the `satp` value names: the low 44
    /// bits are the root frame. The view owns no frame.
    pub fn from_satp(satp: u64) -> (r: Self)
        ensures
            r.root() == satp as int % 0x1000_0000_0000,
            r.owned() == Set::<int>::empty(),
    {
        assert(satp & 0xfff_ffff_ffff == satp % 0x1000_0000_0000) by (bit_vector);
        let r = PageTable {
            root_ppn: PhysPageNum(satp & 0xfff_ffff_ffff),
            frames: Vec::new(),
            roles: Ghost(Map::empty()),
        };
        assert(r.owned() =~= Set::<int>::empty());
        r
    }

    /// The entries that lead to the tables of a well-formed table are owned
    /// by it and carry the V flag alone.
    pub proof fn lemma_directories(&self, mem: &PhysMemory, vpn: u64)
        requires
            self.wf(mem),
        ensures
            self.mid_table(mem, vpn) matches Some(mid) ==> self.owned().contains(mid) && entry_at(
                mem,
                self.root(),
                vpn_indices(vpn).0,
            ).bits == pte_bits(mid as u64, PTE_V),
            self.low_table(mem, vpn) matches Some(low) ==> self.owned().contains(low) && entry_at(
                mem,
                self.mid_table(mem, vpn).unwrap(),
                vpn_indices(vpn).1,
            ).bits == pte_bits(low as u64, PTE_V),
    {
        let (i2, i1, i0) = vpn_indices(vpn);
        assert(self.entry_ok(mem, self.root(), i2));
        match self.mid_table(mem, vpn) {
            Some(mid) => {
                assert(self.entry_ok(mem, mid, i1));
            },
            None => {},
        }
    }

    /// The root is a 64-bit number.
    pub proof fn lemma_root_u64(&self)
        ensures
            0 <= self.root() <= u64::MAX,
    {
    }

    /// The root of a well-formed table has at most 44 bits.
    pub proof fn lemma_root_bound(&self, mem: &PhysMemory)
        requires
            self.wf(mem),
        ensures
            0 <= self.root() < 0x1000_0000_0000,
    {
        mem.lemma_page_len(self.root());
    }

    /// The `satp` value that selects this table: Sv39 mode in the top four
    /// bits, address-space number 0, and the root frame.
    pub fn satp_token(&self) -> (r: u64)
        ensures
            r == 0x8000_0000_0000_0000u64 | (self.root() as u64),
            self.root() < 0x1000_0000_0000 ==> r == 0x8000_0000_0000_0000 + self.root(),
            self.root() < 0x1000_0000_0000 ==> r as int % 0x1000_0000_0000 == self.root(),
    {
        let root = self.root_ppn.0;
        assert(8u64 << 60 == 0x8000_0000_0000_0000u64) by (bit_vector);
        assert(root < 0x1000_0000_0000 ==> (0x8000_0000_0000_0000u64 | root)
            == 0x8000_0000_0000_0000u64 + root) by (bit_vector);
        (8u64 << 60) | self.root_ppn.0
    }

    /// Where the level-0 entry of page `vpn` stands: the level-0 table and
    /// the index in it, where the walk reaches a table in memory.
    fn locate(&self, mem: &PhysMemory, vpn: VirtPageNum) -> (r: Option<(PhysPageNum, usize)>)
        requires
            mem.wf(),
        ensures
            match r {
                Some((low, i0)) => {
                    &&& self.low_table(mem, vpn.0) == Some(low.0 as int)
                    &&& mem.contains(low.0 as int)
                    &&& i0 == vpn_indices(vpn.0).2
                },
                None => self.low_table(mem, vpn.0) is None || !mem.contains(
                    self.low_table(mem, vpn.0).unwrap(),
                ),
            },
    {
        let idxs = vpn.get_idxs();
        if !mem.has_frame(self.root_ppn) {
            return None;
        }
        let e2 = PageTableEntry { bits: mem.read_word(self.root_ppn, idxs[0]) };
        if !e2.is_valid() {
            return None;
        }
        let mid = e2.ppn();
        if !mem.has_frame(mid) {
            return None;
        }
        let e1 = PageTableEntry { bits: mem.read_word(mid, idxs[1]) };
        if !e1.is_valid() {
            return None;
        }
        let low = e1.ppn();
        if !mem.has_frame(low) {
            return None;
        }
        Some((low, idxs[2]))
    }

    /// The valid level-0 entry of page `vpn`: `None` where a table on the
    /// way is missing or the entry is not valid.
    pub fn find_pte(&self, mem: &PhysMemory, vpn: VirtPageNum) -> (r: Option<PageTableEntry>)
        requires
            mem.wf(),
        ensures
            r == self.find(mem, vpn.0),
    {
        match self.locate(mem, vpn) {
            Some((low, i0)) => {
                let e = PageTableEntry { bits: mem.read_word(low, i0) };
                if e.is_valid() {
                    Some(e)
                } else {
                    None
                }
            },
            None => None,
        }
    }

    /// The frame that page `vpn` is mapped to.
    pub fn vpn2ppn(&self, mem: &PhysMemory, vpn: VirtPageNum) -> (r: Option<PhysPageNum>)
        requires
            mem.wf(),
        ensures
            r == match self.find(mem, vpn.0) {
                Some(e) => Some(PhysPageNum(e.spec_ppn())),
                None => None,
            },
    {
        match self.find_pte(mem, vpn) {
            Some(e) => Some(e.ppn()),
            None => None,
        }
    }

    /// The physical address that `va` is mapped to: the start of the frame
    /// of its page, plus its offset in the page.
    pub fn va2pa(&self, mem: &PhysMemory, va: VirtAddr) -> (r: Option<PhysAddr>)
        requires
            mem.wf(),
        ensures
            r == match self.find(mem, page_floor(va.0)) {
                Some(e) => Some(PhysAddr((e.spec_ppn() * 4096 + page_offset_of(va.0)) as u64)),
                None => None,
            },
    {
        match self.find_pte(mem, va.floor()) {
            Some(e) => {
                let ppn = e.ppn();
                let offset = va.page_offset();
                Some(PhysAddr(ppn.0 * 4096 + offset))
            },
            None => None,
        }
    }
}

/// What a table finds depends on its root and on the memory only: a view
/// of a table finds what the table finds.
pub proof fn lemma_find_by_root(table: &PageTable, view: &PageTable, mem: &PhysMemory, vpn: u64)
    requires
        table.root() == view.root(),
    ensures
        view.find(mem, vpn) == table.find(mem, vpn),
        view.missing_tables(mem, vpn) == table.missing_tables(mem, vpn),
{
}

/// What a table finds depends on the low 27 bits of the page number only.
pub proof fn lemma_find_by_indices(table: &PageTable, mem: &PhysMemory, a: u64, b: u64)
    requires
        a as int % 0x800_0000 == b as int % 0x800_0000,
    ensures
        table.find(mem, a) == table.find(mem, b),
        table.missing_tables(mem, a) == table.missing_tables(mem, b),
{
    crate::address::lemma_indices_of_low_bits(a, b);
}

} // verus!
