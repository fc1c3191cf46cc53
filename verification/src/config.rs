//! Architectural and board constants.

use vstd::prelude::*;

verus! {

/// Size of a page in bytes (4 KiB).
pub const PAGE_SIZE: u64 = 0x1000;

/// Number of address bits covered by one page.
pub const PAGE_SIZE_BITS: u64 = 12;

/// End of usable RAM.
pub const MEMORY_END: u64 = 0x8080_0000;

/// Size of the kernel heap in bytes (2 MiB).
pub const KERNEL_HEAP_SIZE: u64 = 0x20_0000;

/// The fixed virtual slot of the trampoline page: the last page of the
/// lower half of the Sv39 address space.
pub const TRAMPOLINE: u64 = 0x3F_FFFF_F000;

/// Number of size classes of the buddy frame pool.
pub const FRAME_POOL_ORDER: u64 = 23;

} // verus!
