//! A small RISC-V (Sv32) teaching kernel's core logic: page-table entry
//! encoding, physical memory and frame management, two-level page tables,
//! process bookkeeping and the nested interrupt-disable counter.

pub mod bits;
pub mod layout;
pub mod frames;
pub mod physmem;
pub mod pagetable;
pub mod vm;
pub mod process;
pub mod kernel;
pub mod trap;
pub mod allocator;
pub mod syscall;
