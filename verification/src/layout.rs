//! Memory layout of the machine and the kernel's virtual address spaces,
//! and page-alignment arithmetic.

use vstd::prelude::*;

verus! {

pub const PAGESIZE: u32 = 4 * 1024;

pub const RAMSIZE: u32 = 62 * 1024 * 1024;

pub const RAMSTART: u32 = 0x8020_0000;

pub const RAMEND: u32 = RAMSTART + RAMSIZE;

pub const KERNEL_START: u32 = 0x8020_0000;

pub const USER_START: u32 = 0x10000;

pub const UART: u32 = 0x1000_0000;

/// The last byte of the virtual address space.
pub const VIRT_END: u32 = 0xffff_ffff;

/// The trampoline page: the last page of every address space.
pub const TRAMPOLINE: u32 = VIRT_END - PAGESIZE + 1;

/// The trap-frame page, just below the trampoline in user address spaces.
pub const TRAPFRAME: u32 = TRAMPOLINE - PAGESIZE;

/// Highest address user memory may reach: the trap-frame page starts there.
pub const USER_TOP: u32 = TRAPFRAME;

pub const PTE_V: u32 = 0b1;

pub const PTE_R: u32 = 0b10;

pub const PTE_W: u32 = 0b100;

pub const PTE_X: u32 = 0b1000;

pub const PTE_U: u32 = 0b10000;

/// Pages of kernel stack per process.
pub const KERNEL_STACK_PAGES: u32 = 2;

/// Number of page-table entries in one page.
pub const ENTRIES_PER_PAGE: u32 = 1024;

/// Virtual address of the kernel stack of process slot `n`: stacks sit below
/// the trampoline, each with an unmapped guard page above it.
pub open spec fn kstack_spec(n: u32) -> int {
    TRAMPOLINE - (n + 1) * PAGESIZE * (KERNEL_STACK_PAGES + 1)
}

/// Largest process slot whose kernel stack address is computed without
/// overflow.
pub open spec fn kstack_slot_ok(n: u32) -> bool {
    (n + 1) * PAGESIZE * (KERNEL_STACK_PAGES + 1) <= TRAMPOLINE
}

/// Virtual address of the kernel stack of process slot `n`.
pub fn kstack(n: u32) -> (res: u32)
    requires
        kstack_slot_ok(n),
    ensures
        res == kstack_spec(n),
{
    TRAMPOLINE - ((n + 1) * PAGESIZE * (KERNEL_STACK_PAGES + 1))
}

/// Rounds `val` down to a multiple of `alignment`.
pub fn align_down(val: u32, alignment: u32) -> (res: u32)
    requires
        alignment > 0,
    ensures
        res == val - val % alignment,
        res % alignment == 0,
        res <= val < res + alignment,
{
    let rem = val % alignment;
    proof {
        vstd::arithmetic::div_mod::lemma_fundamental_div_mod(val as int, alignment as int);
        vstd::arithmetic::div_mod::lemma_mod_multiples_basic(
            (val / alignment) as int,
            alignment as int,
        );
        assert((val - rem) as int == alignment * (val / alignment));
        vstd::arithmetic::mul::lemma_mul_is_commutative(alignment as int, (val / alignment) as int);
    }
    val - rem
}

/// Rounds `val` up to a multiple of `alignment`.
pub fn align_up(val: u32, alignment: u32) -> (res: u32)
    requires
        alignment > 0,
        val + alignment <= u32::MAX,
    ensures
        res == (val + alignment - 1) - (val + alignment - 1) % (alignment as int),
        res % alignment == 0,
        val <= res < val + alignment,
{
    let tmp = val + alignment - 1;
    align_down(tmp, alignment)
}

} // verus!
