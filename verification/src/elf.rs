//! The part of an ELF image that an address space needs: the entry point,
//! and of every `LOAD` program header the address range, the permissions and
//! the place of the segment's bytes in the file.
//!
//! The program headers are plain values here. `ElfImage::from_headers`
//! decides which of them are loaded and whether they can be, whoever read
//! them; `ElfImage::parse` reads them from a little-endian image of 32 or
//! 64 bits.

use crate::address::page_ceil;
use crate::address::page_floor;
use crate::memory_space::TRAMPOLINE_VPN;
use vstd::prelude::*;

verus! {

/// Size of the file header of a 64-bit image.
pub const HEADER_SIZE: usize = 64;

/// Least size of a program header of a 64-bit image.
pub const PROGRAM_HEADER_SIZE: usize = 56;

/// Size of the file header of a 32-bit image.
pub const HEADER_SIZE_32: usize = 52;

/// Least size of a program header of a 32-bit image.
pub const PROGRAM_HEADER_SIZE_32: usize = 32;

/// The type of a program header whose segment is loaded.
pub const PT_LOAD: u32 = 1;

/// No segment reaches beyond the 39 bits of a virtual address.
pub const VA_LIMIT: u64 = 0x80_0000_0000;

/// The 16-bit number that two bytes at `at` spell, low byte first.
#[verifier::opaque]
pub open spec fn le_u16(bytes: Seq<u8>, at: int) -> u16 {
    (bytes[at] as int + bytes[at + 1] as int * 0x100) as u16
}

/// The 32-bit number that four bytes at `at` spell, low byte first.
#[verifier::opaque]
pub open spec fn le_u32(bytes: Seq<u8>, at: int) -> u32 {
    (le_u16(bytes, at) as int + le_u16(bytes, at + 2) as int * 0x1_0000) as u32
}

/// The 64-bit number that eight bytes at `at` spell, low byte first.
#[verifier::opaque]
pub open spec fn le_u64(bytes: Seq<u8>, at: int) -> u64 {
    (le_u32(bytes, at) as int + le_u32(bytes, at + 4) as int * 0x1_0000_0000) as u64
}

/// Whether the image is one of 64 bits: its class is 2.
pub open spec fn wide(image: Seq<u8>) -> bool {
    image[4] == 2
}

/// Whether the image starts with the header of an ELF file: the magic
/// number `7F 45 4C 46`, then class 2 and at least 64 bytes, or class 1 and
/// at least 52 bytes.
pub open spec fn header_ok(image: Seq<u8>) -> bool {
    &&& image.len() >= 52
    &&& image[0] == 0x7f
    &&& image[1] == 0x45
    &&& image[2] == 0x4c
    &&& image[3] == 0x46
    &&& (image[4] == 2 && image.len() >= 64) || image[4] == 1
}

/// The entry address of the image.
pub open spec fn entry_point(image: Seq<u8>) -> u64 {
    if wide(image) {
        le_u64(image, 24)
    } else {
        le_u32(image, 24) as u64
    }
}

/// Where the program headers start in the file.
pub open spec fn ph_offset(image: Seq<u8>) -> u64 {
    if wide(image) {
        le_u64(image, 32)
    } else {
        le_u32(image, 28) as u64
    }
}

/// Size of one program header.
pub open spec fn ph_entry_size(image: Seq<u8>) -> u16 {
    if wide(image) {
        le_u16(image, 54)
    } else {
        le_u16(image, 42)
    }
}

/// Number of program headers that the image has: the count of the header,
/// and none where the program headers have no place or no size.
pub open spec fn ph_count(image: Seq<u8>) -> int {
    if ph_offset(image) > 0 && ph_entry_size(image) > 0 {
        if wide(image) {
            le_u16(image, 56) as int
        } else {
            le_u16(image, 44) as int
        }
    } else {
        0
    }
}

/// Where program header `index` starts in the file.
pub open spec fn ph_at(image: Seq<u8>, index: int) -> int {
    ph_offset(image) + index * ph_entry_size(image)
}

/// Number of bytes that the fields of a program header take.
pub open spec fn ph_fields(image: Seq<u8>) -> int {
    if wide(image) {
        56
    } else {
        32
    }
}

/// Whether every program header lies inside the file and has room for its
/// fields.
pub open spec fn headers_readable(image: Seq<u8>) -> bool {
    ph_count(image) > 0 ==> ph_entry_size(image) >= ph_fields(image) && ph_at(
        image,
        ph_count(image),
    ) <= image.len()
}

/// A program header: its type, its flags, the place and size of its bytes
/// in the file, and its address and size in memory.
#[derive(Clone, Copy, PartialEq, Eq, Debug, Structural)]
pub struct ProgramHeader {
    pub kind: u32,
    pub flags: u32,
    pub offset: u64,
    pub virtual_addr: u64,
    pub file_size: u64,
    pub mem_size: u64,
}

/// A segment to load.
#[derive(Clone, Copy, PartialEq, Eq, Debug, Structural)]
pub struct LoadSegment {
    /// First address of the segment in memory.
    pub start_va: u64,
    /// The address after the last one of the segment in memory.
    pub end_va: u64,
    /// Whether the segment is readable.
    pub read: bool,
    /// Whether the segment is writable.
    pub write: bool,
    /// Whether the segment is executable.
    pub execute: bool,
    /// Where the bytes of the segment start in the file.
    pub offset: usize,
    /// Number of bytes of the segment in the file.
    pub file_size: usize,
}

impl LoadSegment {
    /// First page of the segment.
    pub open spec fn start_vpn(&self) -> u64 {
        page_floor(self.start_va)
    }

    /// The page after the last one of the segment.
    pub open spec fn end_vpn(&self) -> u64 {
        page_ceil(self.end_va)
    }

    /// Whether the segment has a page.
    pub open spec fn has_page(&self) -> bool {
        self.start_vpn() < self.end_vpn()
    }

    /// Whether the segment shares no page with `other`.
    pub open spec fn apart(&self, other: LoadSegment) -> bool {
        self.end_vpn() <= other.start_vpn() || other.end_vpn() <= self.start_vpn()
    }

    /// Whether the segment can be loaded from a file of `len` bytes: it ends
    /// within 39 bits, does not have the trampoline page, and has its bytes
    /// inside the file, no more of them than its pages hold.
    pub open spec fn fits(&self, len: int) -> bool {
        &&& self.start_va <= self.end_va <= VA_LIMIT
        &&& !(self.start_vpn() <= TRAMPOLINE_VPN < self.end_vpn())
        &&& self.offset + self.file_size <= len
        &&& self.file_size <= (self.end_vpn() - self.start_vpn()) * 4096
    }
}

impl ProgramHeader {
    /// Whether the header is that of a segment to load.
    pub open spec fn loads(&self) -> bool {
        self.kind == PT_LOAD
    }

    /// The segment that a `LOAD` header describes.
    pub open spec fn segment(&self) -> LoadSegment {
        LoadSegment {
            start_va: self.virtual_addr,
            end_va: (self.virtual_addr + self.mem_size) as u64,
            read: (self.flags as int / 4) % 2 == 1,
            write: (self.flags as int / 2) % 2 == 1,
            execute: self.flags as int % 2 == 1,
            offset: self.offset as usize,
            file_size: self.file_size as usize,
        }
    }

    /// Whether the segment of a `LOAD` header can be loaded from a file of
    /// `len` bytes: its addresses end within 39 bits, its bytes end inside
    /// the file, and the segment fits.
    pub open spec fn fits(&self, len: int) -> bool {
        &&& self.virtual_addr + self.mem_size <= VA_LIMIT
        &&& self.offset + self.file_size <= len
        &&& self.segment().fits(len)
    }

    /// Whether the header is that of a segment to load that has a page.
    pub open spec fn makes_area(&self) -> bool {
        self.loads() && self.segment().has_page()
    }
}

/// The program header at position `at` of the file.
pub open spec fn header_from(image: Seq<u8>, at: int) -> ProgramHeader {
    if wide(image) {
        ProgramHeader {
            kind: le_u32(image, at),
            flags: le_u32(image, at + 4),
            offset: le_u64(image, at + 8),
            virtual_addr: le_u64(image, at + 16),
            file_size: le_u64(image, at + 32),
            mem_size: le_u64(image, at + 40),
        }
    } else {
        ProgramHeader {
            kind: le_u32(image, at),
            flags: le_u32(image, at + 24),
            offset: le_u32(image, at + 4) as u64,
            virtual_addr: le_u32(image, at + 8) as u64,
            file_size: le_u32(image, at + 16) as u64,
            mem_size: le_u32(image, at + 20) as u64,
        }
    }
}

/// The program headers of the image.
pub open spec fn headers(image: Seq<u8>) -> Seq<ProgramHeader> {
    Seq::new(ph_count(image) as nat, |i: int| header_from(image, ph_at(image, i)))
}

/// Whether the segments of the `LOAD` headers can be loaded from a file of
/// `len` bytes: each fits, and no two that have a page share a page.
pub open spec fn headers_ok(headers: Seq<ProgramHeader>, len: int) -> bool {
    &&& forall|i: int|
        0 <= i < headers.len() && (#[trigger] headers[i]).loads() ==> headers[i].fits(len)
    &&& forall|i: int, j: int|
        0 <= i < j < headers.len() && (#[trigger] headers[i]).makes_area() && (
        #[trigger] headers[j]).makes_area() ==> headers[i].segment().apart(headers[j].segment())
}

/// The segments of the first `count` headers that are loaded: those of the
/// `LOAD` headers that have a page, in the order of the headers.
pub open spec fn segments_of(headers: Seq<ProgramHeader>, count: int) -> Seq<LoadSegment>
    decreases count,
{
    if count <= 0 {
        Seq::empty()
    } else if headers[count - 1].makes_area() {
        segments_of(headers, count - 1).push(headers[count - 1].segment())
    } else {
        segments_of(headers, count - 1)
    }
}

/// The page after the last one of the highest segment of the first `count`
/// headers: the greatest end page of a `LOAD` header among them, and 0
/// where there is none.
pub open spec fn end_of(headers: Seq<ProgramHeader>, count: int) -> u64
    decreases count,
{
    if count <= 0 {
        0
    } else if headers[count - 1].loads() && headers[count - 1].segment().end_vpn() > end_of(
        headers,
        count - 1,
    ) {
        headers[count - 1].segment().end_vpn()
    } else {
        end_of(headers, count - 1)
    }
}

/// Whether the image can be loaded: it has the header of an ELF file,
/// its program headers lie inside it, and its `LOAD` segments fit and share
/// no page.
pub open spec fn image_ok(image: Seq<u8>) -> bool {
    &&& header_ok(image)
    &&& headers_readable(image)
    &&& headers_ok(headers(image), image.len() as int)
}

/// The segments of the image that are loaded.
pub open spec fn segments(image: Seq<u8>) -> Seq<LoadSegment> {
    segments_of(headers(image), ph_count(image))
}

/// The page after the last one of the highest `LOAD` segment of the image.
pub open spec fn image_end(image: Seq<u8>) -> u64 {
    end_of(headers(image), ph_count(image))
}

/// Number of pages of the first `count` segments.
pub open spec fn pages_of(segments: Seq<LoadSegment>, count: int) -> int
    decreases count,
{
    if count <= 0 {
        0
    } else {
        pages_of(segments, count - 1) + segments[count - 1].end_vpn() - segments[count
            - 1].start_vpn()
    }
}

/// Whether the segments can be loaded from a file of `len` bytes, up to
/// page `end_vpn`: each has a page, fits and ends at `end_vpn` or before,
/// and no two share a page.
pub open spec fn segments_loadable(segments: Seq<LoadSegment>, end_vpn: u64, len: int) -> bool {
    &&& end_vpn <= 0x800_0000
    &&& forall|i: int|
        0 <= i < segments.len() ==> (#[trigger] segments[i]).has_page() && segments[i].fits(len)
            && segments[i].end_vpn() <= end_vpn
    &&& forall|i: int, j: int|
        0 <= i < j < segments.len() ==> (#[trigger] segments[i]).apart(#[trigger] segments[j])
}

/// What an address space needs of an ELF image.
pub struct ElfImage {
    /// The entry address.
    pub entry_point: u64,
    /// The segments to load, in the order of their headers.
    pub segments: Vec<LoadSegment>,
    /// The page after the last one of the highest segment.
    pub end_vpn: u64,
}

/// Read two bytes as a number, low byte first.
fn read_u16(image: &[u8], at: usize) -> (r: u16)
    requires
        at + 2 <= image@.len(),
    ensures
        r == le_u16(image@, at as int),
{
    reveal(le_u16);
    let len = image.len();
    let b0 = image[at];
    let b1 = image[at + 1];
    assert((b0 as u16) | ((b1 as u16) << 8) == b0 + b1 * 0x100) by (bit_vector);
    (b0 as u16) | ((b1 as u16) << 8)
}

/// Read four bytes as a number, low byte first.
fn read_u32(image: &[u8], at: usize) -> (r: u32)
    requires
        at + 4 <= image@.len(),
    ensures
        r == le_u32(image@, at as int),
{
    reveal(le_u32);
    let len = image.len();
    let low = read_u16(image, at);
    let high = read_u16(image, at + 2);
    assert((low as u32) | ((high as u32) << 16) == low + high * 0x1_0000) by (bit_vector);
    (low as u32) | ((high as u32) << 16)
}

/// Read eight bytes as a number, low byte first.
fn read_u64(image: &[u8], at: usize) -> (r: u64)
    requires
        at + 8 <= image@.len(),
    ensures
        r == le_u64(image@, at as int),
{
    reveal(le_u64);
    let len = image.len();
    let low = read_u32(image, at);
    let high = read_u32(image, at + 4);
    assert((low as u64) | ((high as u64) << 32) == low + high * 0x1_0000_0000) by (bit_vector);
    (low as u64) | ((high as u64) << 32)
}

/// Read the program header at position `at`.
fn read_header(image: &[u8], at: usize) -> (r: ProgramHeader)
    requires
        image@.len() >= 5,
        at + ph_fields(image@) <= image@.len() <= usize::MAX,
    ensures
        r == header_from(image@, at as int),
{
    if image[4] == 2 {
        ProgramHeader {
            kind: read_u32(image, at),
            flags: read_u32(image, at + 4),
            offset: read_u64(image, at + 8),
            virtual_addr: read_u64(image, at + 16),
            file_size: read_u64(image, at + 32),
            mem_size: read_u64(image, at + 40),
        }
    } else {
        ProgramHeader {
            kind: read_u32(image, at),
            flags: read_u32(image, at + 24),
            offset: read_u32(image, at + 4) as u64,
            virtual_addr: read_u32(image, at + 8) as u64,
            file_size: read_u32(image, at + 16) as u64,
            mem_size: read_u32(image, at + 20) as u64,
        }
    }
}

/// The segment of a `LOAD` header, where it fits a file of `len` bytes.
fn segment_of(header: &ProgramHeader, len: usize) -> (r: Option<LoadSegment>)
    ensures
        r is Some <==> header.fits(len as int),
        r is Some ==> r.unwrap() == header.segment(),
{
    if header.mem_size > VA_LIMIT || header.virtual_addr > VA_LIMIT - header.mem_size {
        return None;
    }
    let end_va = header.virtual_addr + header.mem_size;
    let start_vpn = crate::address::VirtAddr(header.virtual_addr).floor().0;
    let end_vpn = crate::address::VirtAddr(end_va).ceil().0;
    if start_vpn <= TRAMPOLINE_VPN && TRAMPOLINE_VPN < end_vpn {
        return None;
    }
    if header.file_size > len as u64 || header.offset > len as u64 - header.file_size {
        return None;
    }
    if start_vpn > end_vpn || header.file_size > (end_vpn - start_vpn) * 4096 {
        return None;
    }
    let flags = header.flags;
    assert(flags & 4 != 0 <==> (flags / 4) % 2 == 1) by (bit_vector);
    assert(flags & 2 != 0 <==> (flags / 2) % 2 == 1) by (bit_vector);
    assert(flags & 1 != 0 <==> flags % 2 == 1) by (bit_vector);
    Some(
        LoadSegment {
            start_va: header.virtual_addr,
            end_va,
            read: flags & 4 != 0,
            write: flags & 2 != 0,
            execute: flags & 1 != 0,
            offset: header.offset as usize,
            file_size: header.file_size as usize,
        },
    )
}

/// Whether two segments share no page.
fn segments_apart(a: &LoadSegment, b: &LoadSegment) -> (r: bool)
    ensures
        r == a.apart(*b),
{
    let a_start = crate::address::VirtAddr(a.start_va).floor().0;
    let a_end = crate::address::VirtAddr(a.end_va).ceil().0;
    let b_start = crate::address::VirtAddr(b.start_va).floor().0;
    let b_end = crate::address::VirtAddr(b.end_va).ceil().0;
    a_end <= b_start || b_end <= a_start
}

/// Whether a segment has a page.
fn segment_has_page(segment: &LoadSegment) -> (r: bool)
    ensures
        r == segment.has_page(),
{
    crate::address::VirtAddr(segment.start_va).floor().0 < crate::address::VirtAddr(
        segment.end_va,
    ).ceil().0
}

/// The position of the header of loaded segment `k` among the first
/// `count` headers.
pub open spec fn source_of(headers: Seq<ProgramHeader>, count: int, k: int) -> int
    decreases count,
{
    if count <= 0 {
        0
    } else if headers[count - 1].makes_area() && k == segments_of(headers, count - 1).len() {
        count - 1
    } else {
        source_of(headers, count - 1, k)
    }
}

/// Every loaded segment is that of a `LOAD` header that has a page.
pub proof fn lemma_segment_source(headers: Seq<ProgramHeader>, count: int, k: int)
    requires
        0 <= count <= headers.len(),
        0 <= k < segments_of(headers, count).len(),
    ensures
        0 <= source_of(headers, count, k) < count,
        headers[source_of(headers, count, k)].makes_area(),
        segments_of(headers, count)[k] == headers[source_of(headers, count, k)].segment(),
    decreases count,
{
    if !(headers[count - 1].makes_area() && k == segments_of(headers, count - 1).len()) {
        lemma_segment_source(headers, count - 1, k);
    }
}

/// Loaded segments stand in the order of their headers.
pub proof fn lemma_segment_order(headers: Seq<ProgramHeader>, count: int, i: int, j: int)
    requires
        0 <= count <= headers.len(),
        0 <= i < j < segments_of(headers, count).len(),
    ensures
        source_of(headers, count, i) < source_of(headers, count, j),
    decreases count,
{
    if headers[count - 1].makes_area() && j == segments_of(headers, count - 1).len() {
        lemma_segment_source(headers, count - 1, i);
    } else {
        lemma_segment_order(headers, count - 1, i, j);
    }
}

/// Every `LOAD` header that has a page has its segment among the loaded
/// ones.
pub proof fn lemma_segment_place(headers: Seq<ProgramHeader>, count: int, j: int) -> (k: int)
    requires
        0 <= j < count <= headers.len(),
        headers[j].makes_area(),
    ensures
        0 <= k < segments_of(headers, count).len(),
        segments_of(headers, count)[k] == headers[j].segment(),
    decreases count,
{
    if j == count - 1 {
        segments_of(headers, count - 1).len() as int
    } else {
        lemma_segment_place(headers, count - 1, j)
    }
}

/// The highest end page is no lower than the end page of any `LOAD` header
/// and lies within 27 bits where the headers fit.
pub proof fn lemma_end_of(headers: Seq<ProgramHeader>, count: int, len: int)
    requires
        0 <= count <= headers.len(),
        forall|i: int|
            0 <= i < headers.len() && (#[trigger] headers[i]).loads() ==> headers[i].fits(len),
    ensures
        end_of(headers, count) <= 0x800_0000,
        forall|j: int|
            0 <= j < count && (#[trigger] headers[j]).loads() ==> headers[j].segment().end_vpn()
                <= end_of(headers, count),
    decreases count,
{
    if count > 0 {
        lemma_end_of(headers, count - 1, len);
        if headers[count - 1].loads() {
            assert(headers[count - 1].fits(len));
        }
    }
}

/// The loaded segments of headers that can be loaded can be loaded.
pub proof fn lemma_segments(headers: Seq<ProgramHeader>, len: int)
    requires
        headers_ok(headers, len),
        len <= usize::MAX,
    ensures
        segments_loadable(
            segments_of(headers, headers.len() as int),
            end_of(headers, headers.len() as int),
            len,
        ),
{
    let count = headers.len() as int;
    let all = segments_of(headers, count);
    lemma_end_of(headers, count, len);
    assert forall|i: int| 0 <= i < all.len() implies (#[trigger] all[i]).has_page()
        && all[i].fits(len) && all[i].end_vpn() <= end_of(headers, count) by {
        lemma_segment_source(headers, count, i);
        assert(headers[source_of(headers, count, i)].fits(len));
    }
    assert forall|i: int, j: int| 0 <= i < j < all.len() implies (#[trigger] all[i]).apart(
        #[trigger] all[j],
    ) by {
        lemma_segment_source(headers, count, i);
        lemma_segment_source(headers, count, j);
        lemma_segment_order(headers, count, i, j);
        let a = source_of(headers, count, i);
        let b = source_of(headers, count, j);
        assert(headers[a].segment().apart(headers[b].segment()));
    }
}

/// The pages of more segments are at least those of fewer.
pub proof fn lemma_pages_of(segments: Seq<LoadSegment>, fewer: int, more: int)
    requires
        0 <= fewer <= more <= segments.len(),
        forall|i: int|
            0 <= i < segments.len() ==> (#[trigger] segments[i]).start_vpn()
                <= segments[i].end_vpn(),
    ensures
        0 <= pages_of(segments, fewer) <= pages_of(segments, more),
    decreases more,
{
    if fewer < more {
        lemma_pages_of(segments, fewer, more - 1);
    } else if fewer > 0 {
        lemma_pages_of(segments, fewer - 1, fewer - 1);
    }
}

impl ElfImage {
    /// Whether the segments of the image can be loaded from a file of `len`
    /// bytes.
    pub open spec fn loadable(&self, len: int) -> bool {
        segments_loadable(self.segments@, self.end_vpn, len)
    }

    /// Whether the segments of the image can be loaded from a file of `len`
    /// bytes.
    pub fn check(&self, len: usize) -> (r: bool)
        ensures
            r == self.loadable(len as int),
    {
        if self.end_vpn > 0x800_0000 {
            return false;
        }
        let mut i: usize = 0;
        while i < self.segments.len()
            invariant
                i <= self.segments@.len(),
                self.end_vpn <= 0x800_0000,
                forall|j: int|
                    0 <= j < i ==> (#[trigger] self.segments@[j]).has_page()
                        && self.segments@[j].fits(len as int) && self.segments@[j].end_vpn()
                        <= self.end_vpn,
                forall|j: int, k: int|
                    0 <= j < k < i ==> (#[trigger] self.segments@[j]).apart(
                        #[trigger] self.segments@[k],
                    ),
            decreases self.segments@.len() - i,
        {
            let segment = self.segments[i];
            if segment.start_va > segment.end_va || segment.end_va > VA_LIMIT {
                return false;
            }
            let start_vpn = crate::address::VirtAddr(segment.start_va).floor().0;
            let end_vpn = crate::address::VirtAddr(segment.end_va).ceil().0;
            if start_vpn >= end_vpn || end_vpn > self.end_vpn {
                return false;
            }
            if start_vpn <= TRAMPOLINE_VPN && TRAMPOLINE_VPN < end_vpn {
                return false;
            }
            if segment.file_size > len || segment.offset > len - segment.file_size {
                return false;
            }
            if segment.file_size as u64 > (end_vpn - start_vpn) * 4096 {
                return false;
            }
            let mut j: usize = 0;
            while j < i
                invariant
                    j <= i < self.segments@.len(),
                    segment == self.segments@[i as int],
                    forall|k: int|
                        0 <= k < j ==> (#[trigger] self.segments@[k]).apart(segment),
                decreases i - j,
            {
                if !segments_apart(&self.segments[j], &segment) {
                    return false;
                }
                j = j + 1;
            }
            i = i + 1;
        }
        true
    }

    /// What is loaded of an image with the given entry address and program
    /// headers, from a file of `len` bytes: the segments of the `LOAD`
    /// headers that have a page, and the page after the highest segment.
    /// `None` exactly when a segment does not fit or two segments share a
    /// page.
    pub fn from_headers(entry_point: u64, headers: &Vec<ProgramHeader>, len: usize) -> (r: Option<
        ElfImage,
    >)
        ensures
            r is Some <==> headers_ok(headers@, len as int),
            r matches Some(elf) ==> elf.entry_point == entry_point && elf.segments@ == segments_of(
                headers@,
                headers@.len() as int,
            ) && elf.end_vpn == end_of(headers@, headers@.len() as int) && elf.loadable(
                len as int,
            ),
    {
        let mut found: Vec<LoadSegment> = Vec::new();
        let mut end_vpn: u64 = 0;
        let mut i: usize = 0;
        while i < headers.len()
            invariant
                i <= headers@.len(),
                found@ == segments_of(headers@, i as int),
                end_vpn == end_of(headers@, i as int),
                forall|j: int|
                    0 <= j < i && (#[trigger] headers@[j]).loads() ==> headers@[j].fits(len as int),
                forall|j: int, k: int|
                    0 <= j < k < i && (#[trigger] headers@[j]).makes_area() && (
                    #[trigger] headers@[k]).makes_area() ==> headers@[j].segment().apart(
                        headers@[k].segment(),
                    ),
            decreases headers@.len() - i,
        {
            let header = headers[i];
            if header.kind == PT_LOAD {
                let segment = match segment_of(&header, len) {
                    Some(segment) => segment,
                    None => {
                        return None;
                    },
                };
                let last = crate::address::VirtAddr(segment.end_va).ceil().0;
                if segment_has_page(&segment) {
                    let mut j: usize = 0;
                    while j < i
                        invariant
                            j <= i < headers@.len(),
                            segment == headers@[i as int].segment(),
                            headers@[i as int].makes_area(),
                            forall|k: int|
                                0 <= k < j && (#[trigger] headers@[k]).makes_area()
                                    ==> headers@[k].segment().apart(segment),
                            forall|k: int|
                                0 <= k < i && (#[trigger] headers@[k]).loads()
                                    ==> headers@[k].fits(len as int),
                        decreases i - j,
                    {
                        let earlier = headers[j];
                        if earlier.kind == PT_LOAD {
                            match segment_of(&earlier, len) {
                                Some(other) => {
                                    if segment_has_page(&other) && !segments_apart(
                                        &other,
                                        &segment,
                                    ) {
                                        return None;
                                    }
                                },
                                None => {},
                            }
                        }
                        j = j + 1;
                    }
                    found.push(segment);
                }
                if last > end_vpn {
                    end_vpn = last;
                }
            }
            i = i + 1;
        }
        proof {
            lemma_segments(headers@, len as int);
        }
        Some(ElfImage { entry_point, segments: found, end_vpn })
    }

    /// Read the image. `None` exactly when the image cannot be loaded.
    pub fn parse(image: &[u8]) -> (r: Option<ElfImage>)
        ensures
            r is Some <==> image_ok(image@),
            r matches Some(elf) ==> elf.entry_point == entry_point(image@) && elf.segments@
                == segments(image@) && elf.end_vpn == image_end(image@) && elf.loadable(
                image@.len() as int,
            ),
    {
        let len = image.len();
        if len < HEADER_SIZE_32 {
            return None;
        }
        if image[0] != 0x7f || image[1] != 0x45 || image[2] != 0x4c || image[3] != 0x46 {
            return None;
        }
        let class = image[4];
        if !(class == 2 && len >= HEADER_SIZE || class == 1) {
            return None;
        }
        let entry = if class == 2 {
            read_u64(image, 24)
        } else {
            read_u32(image, 24) as u64
        };
        let offset = if class == 2 {
            read_u64(image, 32)
        } else {
            read_u32(image, 28) as u64
        };
        let entry_size = if class == 2 {
            read_u16(image, 54)
        } else {
            read_u16(image, 42)
        };
        let declared = if class == 2 {
            read_u16(image, 56)
        } else {
            read_u16(image, 44)
        };
        let fields: usize = if class == 2 {
            PROGRAM_HEADER_SIZE
        } else {
            PROGRAM_HEADER_SIZE_32
        };
        let count: u16 = if offset > 0 && entry_size > 0 {
            declared
        } else {
            0
        };
        let mut read: Vec<ProgramHeader> = Vec::new();
        if count > 0 {
            if (entry_size as usize) < fields {
                return None;
            }
            if offset > len as u64 || (len as u64 - offset) / (entry_size as u64) < count as u64 {
                proof {
                    assert(offset + count * entry_size > len) by (nonlinear_arith)
                        requires
                            offset > len || (len - offset) / (entry_size as int) < count,
                            entry_size > 0,
                            offset >= 0,
                            len >= 0,
                    ;
                }
                return None;
            }
            proof {
                assert(offset + count * entry_size <= len) by (nonlinear_arith)
                    requires
                        offset <= len,
                        (len - offset) / (entry_size as int) >= count,
                        entry_size > 0,
                        count >= 0,
                ;
            }
            let mut index: u16 = 0;
            while index < count
                invariant
                    index <= count,
                    count == ph_count(image@),
                    offset == ph_offset(image@),
                    entry_size == ph_entry_size(image@),
                    entry_size >= ph_fields(image@),
                    len == image@.len(),
                    len >= 52,
                    offset + count * entry_size <= len,
                    read@.len() == index,
                    forall|j: int|
                        0 <= j < index ==> #[trigger] read@[j] == header_from(
                            image@,
                            ph_at(image@, j),
                        ),
                decreases count - index,
            {
                proof {
                    assert(offset + index * entry_size + entry_size <= offset + count * entry_size)
                        by (nonlinear_arith)
                        requires
                            index < count,
                            entry_size >= 0,
                    ;
                }
                assert(index * entry_size <= 0xffff * 0xffff) by (nonlinear_arith)
                    requires
                        0 <= index <= 0xffff,
                        0 <= entry_size <= 0xffff,
                ;
                let at: usize = (offset + (index as u64) * (entry_size as u64)) as usize;
                read.push(read_header(image, at));
                index = index + 1;
            }
        }
        proof {
            assert(read@ =~= headers(image@));
        }
        Self::from_headers(entry, &read, len)
    }
}

} // verus!
