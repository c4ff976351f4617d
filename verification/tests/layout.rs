use rvkernel::layout::{align_down, align_up, kstack, PAGESIZE, TRAMPOLINE, TRAPFRAME};

#[test]
fn align_down_rounds_to_multiple() {
    assert_eq!(align_down(0x1234, 0x1000), 0x1000);
    assert_eq!(align_down(0x2000, 0x1000), 0x2000);
    assert_eq!(align_down(0, 0x1000), 0);
    assert_eq!(align_down(17, 5), 15);
    assert_eq!(align_down(0xffff_ffff, PAGESIZE), 0xffff_f000);
}

#[test]
fn align_up_rounds_to_multiple() {
    assert_eq!(align_up(0x1234, 0x1000), 0x2000);
    assert_eq!(align_up(0x2000, 0x1000), 0x2000);
    assert_eq!(align_up(0, 0x1000), 0);
    assert_eq!(align_up(1, 0x1000), 0x1000);
    assert_eq!(align_up(16, 5), 20);
}

#[test]
fn kernel_stacks_below_trampoline() {
    assert_eq!(TRAMPOLINE, 0xffff_f000);
    assert_eq!(TRAPFRAME, 0xffff_e000);
    assert_eq!(TRAMPOLINE % PAGESIZE, 0);
    assert_eq!(TRAPFRAME % PAGESIZE, 0);
    assert_eq!(kstack(0), 0xffff_c000);
    assert_eq!(kstack(1), 0xffff_9000);
    assert_eq!(kstack(0) - kstack(3), 3 * 3 * PAGESIZE);
}

#[test]
fn kernel_stacks_have_guard_pages_between() {
    for i in 0..8u32 {
        let lower_top = kstack(i + 1) / PAGESIZE + 1;
        let upper_bottom = kstack(i) / PAGESIZE;
        assert_eq!(upper_bottom - lower_top, 2);
    }
}

#[test]
fn guard_page_lies_between_trampoline_and_first_stack() {
    let top_page = kstack(0) / PAGESIZE + 1;
    assert_eq!(TRAMPOLINE / PAGESIZE - top_page, 2);
}
