//! Memory management: addresses, the physical frame allocator and page table entries.
pub mod address;
pub mod frame_allocator;
pub mod page_table;
