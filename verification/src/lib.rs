//! Memory-management core of a small x86-64 kernel: a bit-indexed free set,
//! a physical frame allocator, a four-level virtual memory manager with
//! demand-paged ranges, the page-fault resolution logic, and a slab
//! allocator layered on the frame allocator.

pub mod addr;
pub mod bitmap;
pub mod cpu;
pub mod ext2;
pub mod fault;
pub mod math;
pub mod pmm;
pub mod proc;
pub mod slab;
pub mod vfs;
pub mod vmm;
