use rvkernel::layout::{
    kstack, KERNEL_STACK_PAGES, PAGESIZE, PTE_R, PTE_U, PTE_V, PTE_W, PTE_X, TRAMPOLINE,
    USER_START,
};
use rvkernel::pagetable::walk;
use rvkernel::physmem::PhysMem;
use rvkernel::process::{
    forkret, prepare_return, trampoline_addr, Context, ProcState, Process, SSTATUS_SPIE,
    SSTATUS_SPP,
};
use rvkernel::syscall::{
    sys_exec, sys_exit, sys_getpid, sys_kill, sys_pause, sys_sbrk, sys_uptime, sys_wait,
};
use rvkernel::vm::Uvm;

const BASE: u32 = 0x8020_0000;

fn leaf(mem: &mut PhysMem, root: u32, va: u32) -> Option<u32> {
    let a = walk(mem, root, va, false)?;
    Some(mem.read_u32(a))
}

#[test]
fn zero_context() {
    let c = Context::zero();
    assert_eq!(c.ra, 0);
    assert_eq!(c.sp, 0);
    assert_eq!(c.s0, 0);
    assert_eq!(c.s11, 0);
    let d = Context::default();
    assert_eq!(d.ra, 0);
    assert_eq!(d.s5, 0);
}

#[test]
fn new_process_is_unused() {
    let mut mem = PhysMem::new(BASE, 2);
    let p = Process::new(2, &mut mem).unwrap();
    assert_eq!(p.pid, None);
    assert_eq!(p.state, ProcState::UNUSED);
    assert_eq!(p.kstack, kstack(2));
    assert!(p.pagetable.is_none());
    assert_eq!(p.trapframe.a0, 0);
    assert_eq!(p.trapframe.epc, 0);
    assert_eq!(p.trapframe_page % PAGESIZE, 0);
    assert_eq!(p.context.ra, 0);
}

#[test]
fn new_process_needs_a_frame() {
    let mut mem = PhysMem::new(BASE, 1);
    mem.alloc_frame().unwrap();
    assert!(Process::new(0, &mut mem).is_err());
}

#[test]
fn yield_makes_runnable() {
    let mut mem = PhysMem::new(BASE, 2);
    let mut p = Process::new(0, &mut mem).unwrap();
    p.state = ProcState::RUNNING;
    p.yeld();
    assert_eq!(p.state, ProcState::RUNNABLE);
    assert_eq!(p.kstack, kstack(0));
}

#[test]
fn exec_builds_image_guard_and_stack() {
    let mut mem = PhysMem::new(BASE, 16);
    let mut p = Process::new(0, &mut mem).unwrap();
    p.trapframe.a0 = 5;
    p.trapframe.s1 = 9;
    let img: Vec<u8> = vec![0x13, 0x05, 0x00, 0x00, 0x73, 0x00, 0x00, 0x00, 0xaa];
    p.kexec(&mut mem, &img).unwrap();
    let u = p.pagetable.unwrap();
    assert_eq!(u.begin, USER_START);
    assert_eq!(u.size, 3 * PAGESIZE);
    assert_eq!(p.trapframe.epc, USER_START);
    assert_eq!(p.trapframe.sp, USER_START + 3 * PAGESIZE);
    assert_eq!(p.trapframe.a0, 0);
    assert_eq!(p.trapframe.s1, 9);
    let text = leaf(&mut mem, u.pagetree, USER_START).unwrap();
    let guard = leaf(&mut mem, u.pagetree, USER_START + PAGESIZE).unwrap();
    let stack = leaf(&mut mem, u.pagetree, USER_START + 2 * PAGESIZE).unwrap();
    assert_eq!(text & 0x3ff, PTE_R | PTE_W | PTE_X | PTE_U | PTE_V);
    assert_eq!(guard & 0x3ff, PTE_U | PTE_V);
    assert_eq!(stack & 0x3ff, PTE_R | PTE_W | PTE_U | PTE_V);
    let page = (text >> 10) << 12;
    assert_eq!(mem.read_u32(page), 0x0000_0513);
    assert_eq!(mem.read_u32(page + 4), 0x0000_0073);
    assert_eq!(mem.read_u32(page + 8) & 0xff, 0xaa);
}

#[test]
fn exec_fails_without_frames_and_keeps_process() {
    let mut mem = PhysMem::new(BASE, 3);
    let mut p = Process::new(0, &mut mem).unwrap();
    p.trapframe.a0 = 5;
    assert!(p.kexec(&mut mem, &[1, 2, 3]).is_err());
    assert!(p.pagetable.is_none());
    assert_eq!(p.trapframe.a0, 5);
}

#[test]
fn trampoline_symbols_move_to_top() {
    assert_eq!(trampoline_addr(0x8020_3010, 0x8020_3000), TRAMPOLINE + 0x10);
    assert_eq!(trampoline_addr(0x8020_3000, 0x8020_3000), TRAMPOLINE);
}

#[test]
fn prepare_return_fills_trap_frame() {
    let mut mem = PhysMem::new(BASE, 2);
    let mut p = Process::new(1, &mut mem).unwrap();
    p.trapframe.epc = 0x1_0040;
    p.trapframe.a1 = 3;
    let r = prepare_return(&mut p, &mut mem, 0x8008_0201, 0x8020_2000, SSTATUS_SPP | 0x2, 0x8020_3000, 0x8020_3000);
    assert_eq!(r.stvec, TRAMPOLINE);
    assert_eq!(r.sstatus, SSTATUS_SPIE);
    assert_eq!(r.sepc, 0x1_0040);
    assert_eq!(p.trapframe.kernel_satp, 0x8008_0201);
    assert_eq!(p.trapframe.kernel_sp, kstack(1) + KERNEL_STACK_PAGES * PAGESIZE);
    assert_eq!(p.trapframe.trap_handler, 0x8020_2000);
    assert_eq!(p.trapframe.hartid, 0);
    assert_eq!(p.trapframe.a1, 3);
    assert_eq!(p.trapframe.epc, 0x1_0040);
    let page = p.trapframe_page;
    assert_eq!(mem.read_u32(page), 0x8008_0201);
    assert_eq!(mem.read_u32(page + 4), 0);
    assert_eq!(mem.read_u32(page + 8), kstack(1) + KERNEL_STACK_PAGES * PAGESIZE);
    assert_eq!(mem.read_u32(page + 16), 0x8020_2000);
    assert_eq!(mem.read_u32(page + 24), 0x1_0040);
    assert_eq!(mem.read_u32(page + 8 * 15), 3);
    assert_eq!(mem.read_u32(page + 8 * 35), 0);
}

#[test]
fn forkret_hands_user_satp_to_userret() {
    let mut mem = PhysMem::new(BASE, 4);
    let mut p = Process::new(0, &mut mem).unwrap();
    let u = Uvm::new(&mut mem).unwrap();
    p.pagetable = Some(u);
    p.trapframe.epc = USER_START;
    let r = forkret(&mut p, &mut mem, 0x8008_0201, 0x8020_2000, 0x100, 0x8020_3000, 0x8020_3090, 0x8020_3000);
    assert_eq!(r.user_satp, 0x8000_0000 | (u.pagetree >> 12));
    assert_eq!(r.userret, TRAMPOLINE + 0x90);
    assert_eq!(r.regs.stvec, TRAMPOLINE);
    assert_eq!(r.regs.sstatus, SSTATUS_SPIE);
    assert_eq!(r.regs.sepc, USER_START);
    assert_eq!(p.trapframe.kernel_satp, 0x8008_0201);
    assert_eq!(mem.read_u32(p.trapframe_page + 24), USER_START);
}

#[test]
fn exec_syscall_leaves_process() {
    let mut mem = PhysMem::new(BASE, 2);
    let mut p = Process::new(0, &mut mem).unwrap();
    p.trapframe.a0 = 0x1_0000;
    p.trapframe.a1 = 0x1_0100;
    sys_exec(&mut p);
    assert_eq!(p.trapframe.a0, 0x1_0000);
    assert_eq!(p.trapframe.a1, 0x1_0100);
    assert_eq!(p.state, ProcState::UNUSED);
}

#[test]
fn unimplemented_syscalls_do_nothing() {
    sys_exit();
    sys_getpid();
    sys_wait();
    sys_sbrk();
    sys_pause();
    sys_kill();
    sys_uptime();
}

#[test]
fn trap_frame_pages_are_pages_of_ram() {
    let mut mem = PhysMem::new(BASE, 2);
    let p = Process::new(0, &mut mem).unwrap();
    assert!(mem.holds_page(p.trapframe_page));
    assert!(!mem.holds_page(p.trapframe_page + 4));
    assert!(!mem.holds_page(BASE + 2 * PAGESIZE));
    assert!(!mem.holds_page(0));
}
