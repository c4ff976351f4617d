use rvkernel::trap::{
    init_trap, interrupt_off, interrupt_on, interrupt_read, kerneltrap, SCAUSE_TIMER, SIE_SEIE,
    SIE_STIE, SSTATUS_SIE, TIMER_INTERVAL,
};

#[test]
fn init_trap_enables_timer_and_external() {
    assert_eq!(init_trap(0, 0), (0x220, 0x2));
    assert_eq!(init_trap(0x2, 0x100), (0x222, 0x102));
    assert_eq!(SIE_SEIE | SIE_STIE, 0x220);
}

#[test]
fn interrupt_bit_toggles() {
    assert_eq!(interrupt_on(0x100), 0x102);
    assert_eq!(interrupt_off(0x103), 0x101);
    assert_eq!(interrupt_off(interrupt_on(0x120)), 0x120);
    assert!(interrupt_read(0x2));
    assert!(!interrupt_read(0x100));
    assert!(interrupt_read(interrupt_on(0)));
    assert!(!interrupt_read(interrupt_off(0xffff_ffff)));
    assert_eq!(SSTATUS_SIE, 2);
}

#[test]
fn timer_trap_schedules_next_interrupt() {
    assert_eq!(kerneltrap(SCAUSE_TIMER, 5), 5 + TIMER_INTERVAL);
    assert_eq!(kerneltrap(0x8000_0005, 0), 1_000_000);
    assert_eq!(kerneltrap(SCAUSE_TIMER, u32::MAX - TIMER_INTERVAL), u32::MAX);
}
