//! Memory-management core of a small x86_64 kernel: heap allocators that
//! keep their bookkeeping over raw addresses, the physical frame source that
//! backs the heap, and the scancode channel between the keyboard interrupt
//! and the task that reads it.
pub mod align;
pub mod allocator;
pub mod memory;
pub mod task;
