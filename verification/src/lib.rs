//! Sv39 virtual-memory core of a small RISC-V supervisor kernel: typed
//! addresses, a buddy-backed frame allocator, a three-level page table and
//! address spaces built from virtual memory areas.

pub mod address;
pub mod area_map;
pub mod config;
pub mod elf;
pub mod frame_allocator;
pub mod free_lists;
pub mod memory;
pub mod memory_space;
pub mod page_table;
pub mod vm_area;
