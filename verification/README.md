# rvkernel

The core of a small RISC-V (Sv32, 32-bit) teaching kernel, written in Verus
and proved against its contracts.

## Layout

- `src/` — the verified library:
  - `bits` — page-table entries, virtual and physical addresses, `satp`;
  - `layout` — the machine's memory map, kernel-stack addresses, alignment;
  - `frames` — the contracts of the calls into `buddy_system_allocator`'s
    frame allocator;
  - `physmem` — RAM as bytes, with the frame allocator that hands out its
    pages;
  - `pagetable` — the two-level tree: walk, map, unmap, and what an address
    translates to;
  - `vm` — user and kernel address spaces built on the tree;
  - `allocator` — page-sized allocations for kernel objects;
  - `process` — process slots, trap frames, `exec`, the return to user mode;
  - `kernel` — interrupt nesting, the process table and its invariant,
    process allocation and scheduling;
  - `trap` — interrupt-enable bits and the kernel's trap decision;
  - `syscall` — system calls.
- `tests/` — tests of the library on concrete values.
- `app/` — a program that boots the kernel on a simulated hart and runs the
  scheduler; its `allocator` and `lock` modules hold the spin-locked kernel
  heap and the interrupt-masking lock for a build on the hart itself (the
  simulation does not use them).

The library keeps physical memory as a model (`PhysMem`): page tables and
user pages are bytes in it, and the contracts state what each kernel
operation does to those bytes and to the free frames. Trap frames are kept as
values and written into their pages before each return to user mode.
