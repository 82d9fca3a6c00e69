//! Verified core of a small RISC-V teaching kernel and its file system:
//! allocation bitmaps and directories of the file system, the physical frame
//! allocator and SV39 page tables, deadlock detection, task bookkeeping and
//! system call argument handling.
pub mod easy_fs;
pub mod mm;
pub mod syscall;
pub mod task;
