# rcore_os

The verified core of a small RISC-V (SV39) teaching kernel and of its file
system, written in Verus.

- `src/easy_fs/bitmap.rs`: allocation bitmaps over the blocks of a device:
  the lowest clear bit is allocated, a set bit is freed.
- `src/easy_fs/vfs.rs`: directories as sequences of entries; lookup,
  listing, creation (taking an inode from the inode bitmap and initialising
  it as an empty file), links, and unlinks that free an inode and its data
  blocks when its last link goes.
- `src/mm/address.rs`: addresses and page numbers of SV39.
- `src/mm/frame_allocator.rs`: the stack based physical frame allocator and
  the frames that page tables live in.
- `src/mm/page_table.rs`: page table entries and flags, the three level page
  table walk (find, create, map, unmap, translate), and the page by page
  plans for reading and writing user buffers.
- `src/task/deadlock_detector.rs`: deadlock detection over the available
  vector and the request and allocation matrices, with the proof that a
  deadlock is exactly the absence of a safe order.
- `src/task/manager.rs`: the scheduler's ready queue, which hands out a
  task of greatest rank.
- `src/task/task.rs`: the task control block: its trap context frame found
  through its page table, its heap break and its system call counts.
- `src/syscall/process.rs`: the process system calls: argument checks, the
  physical place of a traced user byte, and what mmap, munmap and sbrk ask
  of the address space.

`app/` is the kernel glue that Verus does not see: global allocator state,
the bitflags form of the page table flags, and system call drivers that carry
out the plans on physical memory and on the address space.
