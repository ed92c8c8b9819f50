//! Memory-management core of a freestanding 64-bit RISC-V kernel:
//! a physical page allocator over a fixed memory window, and a
//! four-level radix-tree page-table mapper built on top of it.

pub mod err;
pub mod page;
pub mod pte;
pub mod mem;
