//! Trap set-up and handling decisions: the interrupt-enable bits of the
//! supervisor registers and what a trap taken in the kernel calls for. The
//! registers themselves are read and written by the caller.

use vstd::prelude::*;

verus! {

/// Supervisor external interrupt enable bit of `sie`.
pub const SIE_SEIE: u32 = 0x200;

/// Supervisor timer interrupt enable bit of `sie`.
pub const SIE_STIE: u32 = 0x20;

/// Supervisor interrupt enable bit of `sstatus`.
pub const SSTATUS_SIE: u32 = 0b10;

/// `scause` of a supervisor timer interrupt.
pub const SCAUSE_TIMER: u32 = 0x8000_0005;

/// Timer ticks between two timer interrupts.
pub const TIMER_INTERVAL: u32 = 1_000_000;

/// The values of `sie` and `sstatus` that turn on timer and external
/// interrupts and interrupts in supervisor mode, made from their current
/// values.
pub fn init_trap(sie: u32, sstatus: u32) -> (res: (u32, u32))
    ensures
        res == (sie | SIE_SEIE | SIE_STIE, sstatus | SSTATUS_SIE),
{
    (sie | SIE_SEIE | SIE_STIE, sstatus | SSTATUS_SIE)
}

/// `sstatus` with interrupts enabled.
pub fn interrupt_on(sstatus: u32) -> (res: u32)
    ensures
        res == sstatus | SSTATUS_SIE,
{
    sstatus | SSTATUS_SIE
}

/// `sstatus` with interrupts disabled.
pub fn interrupt_off(sstatus: u32) -> (res: u32)
    ensures
        res == sstatus & !SSTATUS_SIE,
{
    sstatus & !SSTATUS_SIE
}

/// Whether `sstatus` has interrupts enabled.
pub fn interrupt_read(sstatus: u32) -> (res: bool)
    ensures
        res == (sstatus & SSTATUS_SIE != 0),
{
    sstatus & SSTATUS_SIE != 0
}

/// Turning interrupts off and on again, or on and off again, changes no
/// other bit of `sstatus`, and the enable bit then reads as last set.
pub proof fn law_interrupt_toggle(sstatus: u32)
    ensures
        (sstatus | SSTATUS_SIE) & !SSTATUS_SIE == sstatus & !SSTATUS_SIE,
        (sstatus & !SSTATUS_SIE) | SSTATUS_SIE == sstatus | SSTATUS_SIE,
        (sstatus | SSTATUS_SIE) & SSTATUS_SIE != 0,
        (sstatus & !SSTATUS_SIE) & SSTATUS_SIE == 0,
        sstatus & SSTATUS_SIE != 0 ==> sstatus | SSTATUS_SIE == sstatus,
        sstatus & SSTATUS_SIE == 0 ==> sstatus & !SSTATUS_SIE == sstatus,
{
    assert({
        &&& (sstatus | 2u32) & !2u32 == sstatus & !2u32
        &&& (sstatus & !2u32) | 2u32 == sstatus | 2u32
        &&& (sstatus | 2u32) & 2u32 != 0
        &&& (sstatus & !2u32) & 2u32 == 0
        &&& sstatus & 2u32 != 0 ==> sstatus | 2u32 == sstatus
        &&& sstatus & 2u32 == 0 ==> sstatus & !2u32 == sstatus
    }) by (bit_vector);
}

/// What a timer interrupt taken in supervisor mode calls for: the time of
/// the next one, `TIMER_INTERVAL` ticks after `time`. Only the timer
/// interrupt is handled in supervisor mode; the caller stops on any other
/// cause before it gets here, and writes `sepc` and `sstatus` back as they
/// were afterwards.
pub fn kerneltrap(scause: u32, time: u32) -> (next: u32)
    requires
        scause == SCAUSE_TIMER,
        time + TIMER_INTERVAL <= u32::MAX,
    ensures
        next == time + TIMER_INTERVAL,
{
    time + TIMER_INTERVAL
}

} // verus!
