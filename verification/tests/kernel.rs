use rvkernel::kernel::{Cpu, Kernel};
use rvkernel::layout::{kstack, PAGESIZE, PTE_R, PTE_V, PTE_W, UART};
use rvkernel::pagetable::walk;
use rvkernel::physmem::PhysMem;
use rvkernel::process::ProcState;

const BASE: u32 = 0x8020_0000;
const END_TEXT: u32 = 0x8021_0000;

fn leaf(mem: &mut PhysMem, root: u32, va: u32) -> Option<u32> {
    let a = walk(mem, root, va, false)?;
    Some(mem.read_u32(a))
}

fn booted(pages: u32, nproc: u32) -> (Kernel, PhysMem) {
    let mut mem = PhysMem::new(BASE, pages);
    let mut k = Kernel::default();
    k.init(&mut mem, END_TEXT).unwrap();
    k.initproc(&mut mem, nproc).unwrap();
    (k, mem)
}

#[test]
fn outermost_section_restores_interrupts() {
    let mut c = Cpu::new();
    c.push_interrupt_off(true);
    assert_eq!(c.interrupt_off_stack, 1);
    assert!(c.interrupt_prev_state);
    assert!(c.pop_interrupt_off());
    assert_eq!(c.interrupt_off_stack, 0);
}

#[test]
fn nested_sections_keep_interrupts_off() {
    let mut c = Cpu::default();
    c.push_interrupt_off(true);
    c.push_interrupt_off(false);
    c.push_interrupt_off(false);
    assert_eq!(c.interrupt_off_stack, 3);
    assert!(!c.pop_interrupt_off());
    assert!(!c.pop_interrupt_off());
    assert!(c.pop_interrupt_off());
}

#[test]
fn sections_entered_with_interrupts_off_keep_them_off() {
    let mut c = Cpu::new();
    c.push_interrupt_off(false);
    c.push_interrupt_off(true);
    assert!(!c.pop_interrupt_off());
    assert!(!c.pop_interrupt_off());
}

#[test]
fn default_kernel_is_empty() {
    let k = Kernel::default();
    assert!(k.kvm.is_none());
    assert_eq!(k.process_table.len(), 0);
    assert_eq!(k.pid, 0);
    assert!(k.cpus.current.is_none());
    assert_eq!(k.cpus.interrupt_off_stack, 0);
}

#[test]
fn init_builds_kernel_space() {
    let mut mem = PhysMem::new(BASE, 32);
    let mut k = Kernel::default();
    k.init(&mut mem, END_TEXT).unwrap();
    let root = k.kvm.as_ref().unwrap().pagetree;
    assert_eq!(leaf(&mut mem, root, UART), Some(0x0400_0007));
}

#[test]
fn init_fails_without_frames() {
    let mut mem = PhysMem::new(BASE, 3);
    let mut k = Kernel::default();
    assert!(k.init(&mut mem, END_TEXT).is_err());
    assert!(k.kvm.is_none());
}

#[test]
fn initproc_needs_kernel_space() {
    let mut mem = PhysMem::new(BASE, 8);
    let mut k = Kernel::default();
    assert!(k.initproc(&mut mem, 2).is_err());
    assert_eq!(k.process_table.len(), 0);
}

#[test]
fn initproc_sets_up_unused_slots_with_stacks() {
    let (mut k, mut mem) = booted(64, 4);
    assert_eq!(k.process_table.len(), 4);
    let root = k.kvm.as_ref().unwrap().pagetree;
    for i in 0..4 {
        let p = &k.process_table[i];
        assert_eq!(p.state, ProcState::UNUSED);
        assert_eq!(p.pid, None);
        assert_eq!(p.kstack, kstack(i as u32));
        let va = p.kstack;
        for j in 0..2 {
            let e = leaf(&mut mem, root, va + j * PAGESIZE).unwrap();
            assert_eq!(e & 0x3ff, PTE_R | PTE_W | PTE_V);
        }
    }
    k.initproc(&mut mem, 1).unwrap();
    assert_eq!(k.process_table.len(), 5);
    assert_eq!(k.process_table[4].kstack, kstack(4));
}

#[test]
fn initproc_stops_when_frames_run_out() {
    let mut mem = PhysMem::new(BASE, 21);
    let mut k = Kernel::default();
    k.init(&mut mem, END_TEXT).unwrap();
    assert!(k.initproc(&mut mem, 4).is_err());
    assert!(k.process_table.len() < 4);
}

#[test]
fn allocproc_takes_first_unused_slot() {
    let (mut k, mut mem) = booted(64, 3);
    let i = k.allocproc(&mut mem, 0x8020_1000).unwrap();
    assert_eq!(i, 0);
    let p = &k.process_table[0];
    assert_eq!(p.pid, Some(0));
    assert_eq!(p.state, ProcState::RUNNABLE);
    assert_eq!(p.context.ra, 0x8020_1000);
    assert_eq!(p.context.sp, kstack(0) + 2 * PAGESIZE);
    let u = p.pagetable.unwrap();
    assert_eq!(u.size, 0);
    let j = k.allocproc(&mut mem, 0x8020_1000).unwrap();
    assert_eq!(j, 1);
    assert_eq!(k.process_table[1].pid, Some(1));
    assert_eq!(k.pid, 2);
}

#[test]
fn allocproc_skips_used_slots_and_reports_full_table() {
    let (mut k, mut mem) = booted(64, 2);
    k.process_table[0].state = ProcState::SLEEPING;
    assert_eq!(k.allocproc(&mut mem, 0), Some(1));
    assert_eq!(k.process_table[1].pid, Some(0));
    assert_eq!(k.allocproc(&mut mem, 0), None);
    assert_eq!(k.pid, 1);
}

#[test]
fn allocated_processes_have_distinct_pids() {
    let (mut k, mut mem) = booted(64, 4);
    for _ in 0..4 {
        k.allocproc(&mut mem, 0).unwrap();
    }
    for a in 0..4 {
        for b in 0..4 {
            if a != b {
                assert_ne!(k.process_table[a].pid, k.process_table[b].pid);
            }
        }
    }
}

#[test]
fn scheduler_picks_first_runnable() {
    let (mut k, mut mem) = booted(64, 3);
    assert_eq!(k.next_runnable(0), None);
    k.allocproc(&mut mem, 0).unwrap();
    k.allocproc(&mut mem, 0).unwrap();
    assert_eq!(k.next_runnable(0), Some(0));
    assert_eq!(k.process_table[0].state, ProcState::RUNNING);
    assert_eq!(k.cpus.current, Some(0));
    assert_eq!(k.next_runnable(0), Some(1));
    assert_eq!(k.cpus.current, Some(1));
    assert_eq!(k.next_runnable(0), None);
    assert_eq!(k.cpus.current, Some(1));
}

#[test]
fn scheduler_starts_from_given_slot() {
    let (mut k, mut mem) = booted(64, 3);
    for _ in 0..3 {
        k.allocproc(&mut mem, 0).unwrap();
    }
    assert_eq!(k.next_runnable(1), Some(1));
    assert_eq!(k.process_table[0].state, ProcState::RUNNABLE);
    assert_eq!(k.next_runnable(5), None);
}

#[test]
fn process_runs_its_program() {
    let (mut k, mut mem) = booted(64, 2);
    let i = k.allocproc(&mut mem, 0).unwrap();
    let img: Vec<u8> = vec![1, 2, 3, 4];
    k.kexec(&mut mem, i, &img).unwrap();
    let u = k.process_table[i].pagetable.unwrap();
    assert_eq!(k.process_table[i].trapframe.epc, u.begin);
    assert_eq!(k.process_table[i].trapframe.sp, u.begin + u.size);
    assert_eq!(k.process_table[i].pid, Some(0));
    let e = leaf(&mut mem, u.pagetree, u.begin).unwrap();
    assert_eq!(mem.read_u32((e >> 10) << 12), 0x0403_0201);
}

#[test]
fn allocproc_without_frames_changes_nothing() {
    let (mut k, mut mem) = booted(31, 2);
    while mem.alloc_frame().is_some() {}
    assert_eq!(k.allocproc(&mut mem, 0), None);
    assert_eq!(k.pid, 0);
    assert_eq!(k.process_table[0].state, ProcState::UNUSED);
}

#[test]
fn kexec_failure_keeps_the_process() {
    let (mut k, mut mem) = booted(64, 1);
    let i = k.allocproc(&mut mem, 0).unwrap();
    while mem.alloc_frame().is_some() {}
    assert!(k.kexec(&mut mem, i, &[1, 2, 3]).is_err());
    assert_eq!(k.process_table[i].pagetable.unwrap().size, 0);
    assert_eq!(k.process_table[i].state, ProcState::RUNNABLE);
}

#[test]
fn running_processes_keep_the_kernel_usable() {
    let (mut k, mut mem) = booted(64, 3);
    k.allocproc(&mut mem, 0).unwrap();
    assert_eq!(k.next_runnable(0), Some(0));
    k.process_table[0].yeld();
    k.cpus.current = None;
    assert_eq!(k.allocproc(&mut mem, 0), Some(1));
    assert_eq!(k.next_runnable(0), Some(0));
    assert_eq!(k.next_runnable(1), Some(1));
}

#[test]
fn sched_puts_back_the_remembered_interrupt_state() {
    let mut c = Cpu::new();
    c.push_interrupt_off(true);
    let saved = c.interrupt_prev_state;
    c.interrupt_prev_state = false;
    c.restore_interrupt_prev_state(saved);
    assert!(c.interrupt_prev_state);
    assert_eq!(c.interrupt_off_stack, 1);
}

#[test]
fn a_scheduler_pass_runs_each_runnable_process_once_in_order() {
    let (mut k, mut mem) = booted(64, 3);
    k.allocproc(&mut mem, 0).unwrap();
    k.allocproc(&mut mem, 0).unwrap();
    k.allocproc(&mut mem, 0).unwrap();
    k.process_table[1].state = ProcState::SLEEPING;
    let mut ran: Vec<usize> = Vec::new();
    let mut start = 0;
    while let Some(i) = k.next_runnable(start) {
        ran.push(i);
        k.process_table[i].yeld();
        k.cpus.current = None;
        start = i + 1;
    }
    assert_eq!(ran, vec![0, 2]);
    assert_eq!(k.process_table[0].state, ProcState::RUNNABLE);
    assert_eq!(k.process_table[1].state, ProcState::SLEEPING);
}
