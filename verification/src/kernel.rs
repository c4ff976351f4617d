//! The kernel's state: the processor's interrupt nesting, the kernel address
//! space and the table of processes.

use vstd::prelude::*;
use crate::layout::{
    kstack, kstack_slot_ok, kstack_spec, KERNEL_STACK_PAGES, KERNEL_START, PAGESIZE, RAMEND, TRAMPOLINE, UART,
    USER_START,
    PTE_R, PTE_W, PTE_X,
};
use crate::pagetable::{leaf_pte, mapped_frame, npages, page_va, translate, tree_frames, vpage};
use crate::physmem::{PhysMem, frame_of};
use crate::allocator::PageAllocator;
use crate::process::{
    Context, ProcState, Process, Trapframe, TRAPFRAME_SIZE, exec_image, only_free_changed, trapframe_zero,
};
use crate::vm::{Kvm, Uvm, identity_mapped, lemma_tree_untouched, lemma_uvm_untouched, pages_for, user_top};

verus! {

/// Execution state of the processor: the running process (an index in the
/// process table), the scheduler's saved registers, and the nesting of
/// interrupt-disabling sections.
pub struct Cpu {
    pub current: Option<usize>,
    pub context: Context,
    pub interrupt_off_stack: usize,
    pub interrupt_prev_state: bool,
}

/// The processor after entering an interrupt-disabling section while
/// interrupts were `enabled`.
pub open spec fn push_spec(c: Cpu, enabled: bool) -> Cpu {
    Cpu {
        interrupt_off_stack: (c.interrupt_off_stack + 1) as usize,
        interrupt_prev_state: if c.interrupt_off_stack == 0 {
            enabled
        } else {
            c.interrupt_prev_state
        },
        ..c
    }
}

/// The processor after leaving an interrupt-disabling section, and whether
/// interrupts are to be turned back on.
pub open spec fn pop_spec(c: Cpu) -> (Cpu, bool) {
    let n = (c.interrupt_off_stack - 1) as usize;
    (Cpu { interrupt_off_stack: n, ..c }, n == 0 && c.interrupt_prev_state)
}

impl Cpu {
    /// A processor running nothing, outside any interrupt-disabling section.
    pub fn new() -> (res: Cpu)
        ensures
            res.current is None,
            res.context.ra == 0 && res.context.sp == 0 && res.context.saved_zero(),
            res.interrupt_off_stack == 0,
            !res.interrupt_prev_state,
    {
        Cpu { current: None, context: Context::zero(), interrupt_off_stack: 0, interrupt_prev_state: false }
    }

    /// Enters an interrupt-disabling section; `enabled` tells whether
    /// interrupts were on before the caller turned them off. The outermost
    /// section remembers it.
    pub fn push_interrupt_off(&mut self, enabled: bool)
        requires
            old(self).interrupt_off_stack < usize::MAX,
        ensures
            *final(self) == push_spec(*old(self), enabled),
    {
        if self.interrupt_off_stack == 0 {
            self.interrupt_prev_state = enabled;
        }
        self.interrupt_off_stack = self.interrupt_off_stack + 1;
    }

    /// What a process does around its switch to the scheduler and back: the
    /// interrupt state remembered before the switch (`saved`) is put back,
    /// whatever the scheduler left there.
    pub fn restore_interrupt_prev_state(&mut self, saved: bool)
        ensures
            *final(self) == (Cpu { interrupt_prev_state: saved, ..*old(self) }),
    {
        self.interrupt_prev_state = saved;
    }

    /// Leaves an interrupt-disabling section. Returns whether interrupts are
    /// to be turned back on: when the outermost section ends and they were
    /// on before it.
    pub fn pop_interrupt_off(&mut self) -> (res: bool)
        requires
            old(self).interrupt_off_stack >= 1,
        ensures
            (*final(self), res) == pop_spec(*old(self)),
    {
        self.interrupt_off_stack = self.interrupt_off_stack - 1;
        self.interrupt_off_stack == 0 && self.interrupt_prev_state
    }
}

impl Default for Cpu {
    fn default() -> (res: Cpu)
        ensures
            res.current is None,
            res.interrupt_off_stack == 0,
            !res.interrupt_prev_state,
    {
        Cpu::new()
    }
}

/// Leaving the outermost interrupt-disabling section turns interrupts back on
/// exactly when they were on when it was entered, and leaves the processor
/// as it was apart from the remembered state.
pub proof fn law_outermost_section_restores(c: Cpu, enabled: bool)
    requires
        c.interrupt_off_stack == 0,
    ensures
        pop_spec(push_spec(c, enabled)) == (Cpu { interrupt_prev_state: enabled, ..c }, enabled),
{
}

/// Leaving a nested interrupt-disabling section never turns interrupts on,
/// and leaves the processor exactly as it was before the section.
pub proof fn law_nested_section_keeps_off(c: Cpu, enabled: bool)
    requires
        0 < c.interrupt_off_stack < usize::MAX,
    ensures
        pop_spec(push_spec(c, enabled)) == (c, false),
{
}

/// The processor after entering nested interrupt-disabling sections, the
/// `i`-th while interrupts were `es[i]`.
pub open spec fn push_all(c: Cpu, es: Seq<bool>) -> Cpu
    decreases es.len(),
{
    if es.len() == 0 {
        c
    } else {
        push_spec(push_all(c, es.drop_last()), es.last())
    }
}

/// The processor after leaving `k` sections, and whether leaving the last of
/// them turns interrupts back on.
pub open spec fn pop_all(c: Cpu, k: nat) -> (Cpu, bool)
    decreases k,
{
    if k == 0 {
        (c, false)
    } else {
        pop_spec(pop_all(c, (k - 1) as nat).0)
    }
}

proof fn lemma_push_all(c: Cpu, es: Seq<bool>)
    requires
        c.interrupt_off_stack == 0,
        0 < es.len() < usize::MAX,
    ensures
        push_all(c, es) == (Cpu { interrupt_off_stack: es.len() as usize, interrupt_prev_state: es[0], ..c }),
    decreases es.len(),
{
    reveal_with_fuel(push_all, 2);
    if es.len() > 1 {
        lemma_push_all(c, es.drop_last());
        assert(es.drop_last()[0] == es[0]);
    }
}

proof fn lemma_pop_all(c: Cpu, j: nat)
    requires
        1 <= j <= c.interrupt_off_stack,
    ensures
        pop_all(c, j) == (Cpu { interrupt_off_stack: (c.interrupt_off_stack - j) as usize, ..c }, c.interrupt_off_stack
            == j && c.interrupt_prev_state),
    decreases j,
{
    reveal_with_fuel(pop_all, 2);
    if j > 1 {
        lemma_pop_all(c, (j - 1) as nat);
    }
}

/// Entering any number of nested interrupt-disabling sections and leaving
/// them all turns interrupts back on exactly when they were on before the
/// outermost one was entered; leaving an inner one never does; and the
/// processor ends as it was apart from the remembered state.
pub proof fn law_nested_sections_restore(c: Cpu, es: Seq<bool>)
    requires
        c.interrupt_off_stack == 0,
        0 < es.len() < usize::MAX,
    ensures
        pop_all(push_all(c, es), es.len()) == (Cpu { interrupt_prev_state: es[0], ..c }, es[0]),
        forall|j: nat| 0 < j < es.len() ==> !(#[trigger] pop_all(push_all(c, es), j)).1,
{
    lemma_push_all(c, es);
    lemma_pop_all(push_all(c, es), es.len());
    assert forall|j: nat| 0 < j < es.len() implies !(#[trigger] pop_all(push_all(c, es), j)).1 by {
        lemma_pop_all(push_all(c, es), j);
    }
}

/// The frames a process owns: its trap-frame page and its address space.
pub open spec fn proc_frames(p: Process, mem: &PhysMem) -> Set<int> {
    match p.pagetable {
        Some(u) => set![frame_of(p.trapframe_page as int)].union(u.footprint(mem)),
        None => set![frame_of(p.trapframe_page as int)],
    }
}

/// A process slot is consistent with memory: its trap-frame page is an
/// allocated page of RAM, its kernel stack fits below the top of the address
/// space, and its address space is well formed and does not hold the trap
/// frame.
pub open spec fn proc_ok(p: Process, mem: &PhysMem) -> bool {
    &&& p.trapframe_page % PAGESIZE == 0
    &&& mem.managed().contains(frame_of(p.trapframe_page as int))
    &&& !mem.free().contains(frame_of(p.trapframe_page as int))
    &&& p.kstack + KERNEL_STACK_PAGES * PAGESIZE <= u32::MAX
    &&& p.pagetable matches Some(u) ==> u.wf(mem) && !u.footprint(mem).contains(
        frame_of(p.trapframe_page as int),
    )
}

/// The kernel's state.
pub struct Kernel {
    pub kvm: Option<Kvm>,
    pub cpus: Cpu,
    pub process_table: Vec<Process>,
    /// The next pid to hand out.
    pub pid: u32,
}

impl Default for Kernel {
    fn default() -> (res: Kernel)
        ensures
            res.kvm is None,
            res.cpus.current is None,
            res.cpus.interrupt_off_stack == 0,
            !res.cpus.interrupt_prev_state,
            res.process_table@.len() == 0,
            res.pid == 0,
    {
        Kernel { kvm: None, cpus: Cpu::default(), process_table: Vec::new(), pid: 0 }
    }
}

/// The kernel state made of the kernel's address space, the process table and
/// the next pid is consistent with memory: every process slot is, no two
/// processes and the kernel's page table share a frame, and the pids handed
/// out are distinct and below the next one.
pub open spec fn state_wf(kvm: Option<Kvm>, table: Seq<Process>, pid: u32, mem: &PhysMem) -> bool {
    &&& mem.wf()
    &&& kvm matches Some(k) ==> k.wf(mem)
    &&& forall|i: int| 0 <= i < table.len() ==> #[trigger] proc_ok(table[i], mem)
    &&& forall|i: int, j: int|
        0 <= i < table.len() && 0 <= j < table.len() && i != j ==> #[trigger] proc_frames(
            table[i],
            mem,
        ).disjoint(#[trigger] proc_frames(table[j], mem))
    &&& kvm matches Some(k) ==> forall|i: int|
        0 <= i < table.len() ==> tree_frames(mem, k.pagetree).disjoint(
            #[trigger] proc_frames(table[i], mem),
        )
    &&& forall|i: int|
        0 <= i < table.len() && (#[trigger] table[i]).pid is Some ==> table[i].pid.unwrap() < pid
    &&& forall|i: int, j: int|
        0 <= i < table.len() && 0 <= j < table.len() && i != j && (#[trigger] table[i]).pid is Some
            ==> (#[trigger] table[j]).pid != table[i].pid
}

impl Kernel {
    pub open spec fn wf(&self, mem: &PhysMem) -> bool {
        state_wf(self.kvm, self.process_table@, self.pid, mem)
    }
}

/// No frame a consistent process owns is free.
pub proof fn lemma_proc_frames_not_free(p: Process, mem: &PhysMem)
    requires
        proc_ok(p, mem),
    ensures
        proc_frames(p, mem).disjoint(mem.free()),
{
    if let Some(u) = p.pagetable {
        crate::pagetable::lemma_free_disjoint_tree(mem, u.pagetree);
        assert forall|f: int| u.footprint(mem).contains(f) implies !mem.free().contains(f) by {
            if crate::pagetable::range_frames(mem, u.pagetree, u.begin, u.npages()).contains(f) {
                let k = choose|k: int|
                    0 <= k < u.npages() && f == #[trigger] crate::pagetable::mapped_frame(
                        mem,
                        u.pagetree,
                        crate::pagetable::page_va(u.begin, k),
                    );
            }
        }
    }
}

/// A process whose frames memory left alone, and did not free, stays
/// consistent and owns the same frames.
pub proof fn lemma_proc_untouched(p: Process, m0: &PhysMem, m1: &PhysMem, changed: Set<int>)
    requires
        proc_ok(p, m0),
        m1.wf(),
        m1.same_range(m0),
        m1.agree_except_frames(m0, changed),
        changed.disjoint(proc_frames(p, m0)),
        m1.free().disjoint(proc_frames(p, m0)),
    ensures
        proc_ok(p, m1),
        proc_frames(p, m1) == proc_frames(p, m0),
{
    if let Some(u) = p.pagetable {
        lemma_uvm_untouched(m0, m1, u, changed);
    }
}

impl Kernel {
    /// Finds the first unused process slot and sets up a process in it: the
    /// next pid, runnable, a fresh trap frame of zeros with a new page for it
    /// (the old page goes back to the allocator), an empty address space, and
    /// a context that starts at `forkret` with the stack pointer at the top
    /// of the kernel stack. Returns the
    /// slot's index, or `None` when every slot is in use or no frame is
    /// free, changing nothing.
    pub fn allocproc(&mut self, mem: &mut PhysMem, forkret: u32) -> (res: Option<usize>)
        requires
            old(self).wf(old(mem)),
            (exists|i: int|
                0 <= i < old(self).process_table@.len() && (#[trigger] old(self).process_table@[i]).state
                    == ProcState::UNUSED) ==> old(self).pid < u32::MAX,
        ensures
            final(self).wf(final(mem)),
            final(self).kvm == old(self).kvm,
            final(self).cpus == old(self).cpus,
            res is None <==> old(mem).free().is_empty() || forall|i: int|
                0 <= i < old(self).process_table@.len() ==> (#[trigger] old(self).process_table@[i]).state != ProcState::UNUSED,
            res is None ==> final(self).process_table@ == old(self).process_table@ && final(self).pid
                == old(self).pid && final(mem).same_bytes(old(mem)) && final(mem).free() == old(mem).free(),
            res matches Some(i) ==> {
                &&& i < old(self).process_table@.len()
                &&& old(self).process_table@[i as int].state == ProcState::UNUSED
                &&& forall|j: int|
                    0 <= j < i ==> (#[trigger] old(self).process_table@[j]).state
                        != ProcState::UNUSED
                &&& final(self).pid == old(self).pid + 1
                &&& final(self).process_table@.len() == old(self).process_table@.len()
                &&& forall|j: int|
                    0 <= j < old(self).process_table@.len() && j != i ==> #[trigger] final(self).process_table@[j] == old(self).process_table@[j]
                &&& final(self).process_table@[i as int].pid == Some(old(self).pid)
                &&& final(self).process_table@[i as int].state == ProcState::RUNNABLE
                &&& final(self).process_table@[i as int].kstack == old(self).process_table@[i as int].kstack
                &&& final(self).process_table@[i as int].trapframe == trapframe_zero()
                &&& final(self).process_table@[i as int].context.ra == forkret
                &&& final(self).process_table@[i as int].context.sp == old(self).process_table@[i as int].kstack + KERNEL_STACK_PAGES * PAGESIZE
                &&& final(self).process_table@[i as int].context.saved_zero()
                &&& final(self).process_table@[i as int].pagetable matches Some(u) && u.size == 0
                    && forall|va: u32| #[trigger] translate(final(mem), u.pagetree, va) is None
            },
    {
        let n = self.process_table.len();
        let mut i: usize = 0;
        while i < n
            invariant
                n == self.process_table@.len(),
                0 <= i <= n,
                *self == *old(self),
                *mem == *old(mem),
                self.wf(mem),
                (exists|j: int|
                    0 <= j < self.process_table@.len() && (#[trigger] self.process_table@[j]).state
                        == ProcState::UNUSED) ==> self.pid < u32::MAX,
                forall|j: int| 0 <= j < i ==> (#[trigger] self.process_table@[j]).state != ProcState::UNUSED,
            decreases n - i,
        {
            if self.process_table[i].state == ProcState::UNUSED {
                let ghost m0 = *mem;
                let ghost t0 = self.process_table@;
                let kstack = self.process_table[i].kstack;
                let old_frame = self.process_table[i].trapframe_page;
                proof {
                    assert(proc_ok(t0[i as int], &m0));
                }
                let trapframe_page = match (PageAllocator {}).allocate(mem, TRAPFRAME_SIZE) {
                    Ok(p) => p,
                    Err(()) => {
                        proof {
                            lemma_same_mem_wf(self.kvm, t0, self.pid, &m0, mem);
                        }
                        return None;
                    },
                };
                let ghost m1 = *mem;
                (PageAllocator {}).deallocate(mem, old_frame);
                let ghost m2 = *mem;
                let pagetable = match Uvm::new(mem) {
                    Ok(u) => u,
                    Err(()) => return None,
                };
                let mut context = Context::default();
                context.ra = forkret;
                context.sp = kstack + KERNEL_STACK_PAGES * PAGESIZE;
                let p = Process {
                    pid: Some(self.pid),
                    state: ProcState::RUNNABLE,
                    kstack,
                    pagetable: Some(pagetable),
                    context,
                    trapframe: Trapframe::default(),
                    trapframe_page,
                };
                proof {
                    lemma_allocproc_wf(self.kvm, t0, self.pid, &m0, &m1, &m2, mem, i as int, p);
                }
                self.pid = self.pid + 1;
                self.process_table.set(i, p);
                return Some(i);
            }
            i = i + 1;
        }
        None
    }
}

/// Memory that changed only in frames that were free, and freed none, keeps
/// every process consistent and owning the same frames.
proof fn lemma_procs_untouched(table: Seq<Process>, m0: &PhysMem, m1: &PhysMem, changed: Set<int>)
    requires
        forall|i: int| 0 <= i < table.len() ==> #[trigger] proc_ok(table[i], m0),
        m1.wf(),
        m1.same_range(m0),
        m1.agree_except_frames(m0, changed),
        changed.subset_of(m0.free()),
        m1.free().subset_of(m0.free()),
    ensures
        forall|i: int| 0 <= i < table.len() ==> #[trigger] proc_ok(table[i], m1),
        forall|i: int|
            0 <= i < table.len() ==> #[trigger] proc_frames(table[i], m1) == proc_frames(table[i], m0),
{
    assert forall|i: int| 0 <= i < table.len() implies #[trigger] proc_ok(table[i], m1)
        && proc_frames(table[i], m1) == proc_frames(table[i], m0) by {
        lemma_proc_untouched_step(table[i], m0, m1, changed);
    }
    assert forall|i: int| 0 <= i < table.len() implies #[trigger] proc_frames(table[i], m1)
        == proc_frames(table[i], m0) by {
        lemma_proc_untouched_step(table[i], m0, m1, changed);
    }
}

proof fn lemma_proc_untouched_step(p: Process, m0: &PhysMem, m1: &PhysMem, changed: Set<int>)
    requires
        proc_ok(p, m0),
        m1.wf(),
        m1.same_range(m0),
        m1.agree_except_frames(m0, changed),
        changed.subset_of(m0.free()),
        m1.free().subset_of(m0.free()),
    ensures
        proc_ok(p, m1),
        proc_frames(p, m1) == proc_frames(p, m0),
{
    let fs = proc_frames(p, m0);
    lemma_proc_frames_not_free(p, m0);
    assert(changed.disjoint(fs));
    assert(m1.free().disjoint(fs));
    lemma_proc_untouched(p, m0, m1, changed);
}

impl Kernel {
    /// Builds the kernel's address space (see `Kvm::init`); `end_text` is
    /// where the kernel's text ends. Fails, leaving the kernel state as it
    /// was, when the allocator runs out of frames.
    pub fn init(&mut self, mem: &mut PhysMem, end_text: u32) -> (res: Result<(), ()>)
        requires
            old(self).wf(old(mem)),
            KERNEL_START <= end_text <= RAMEND,
        ensures
            final(self).wf(final(mem)),
            final(self).process_table@ == old(self).process_table@,
            final(self).pid == old(self).pid,
            final(self).cpus == old(self).cpus,
            res is Err ==> final(self).kvm == old(self).kvm && final(mem).free().is_empty(),
            res is Ok ==> (final(self).kvm matches Some(k) && {
                &&& identity_mapped(final(mem), k.pagetree, UART, 1, PTE_R | PTE_W)
                &&& forall|va: u32|
                    vpage(KERNEL_START) <= vpage(va) < vpage(end_text) ==> #[trigger] translate(
                        final(mem),
                        k.pagetree,
                        va,
                    ) == Some(leaf_pte(va, PTE_X | PTE_R))
                &&& identity_mapped(
                    final(mem),
                    k.pagetree,
                    end_text,
                    npages((RAMEND - end_text) as u32),
                    PTE_R | PTE_W,
                )
            }),
    {
        let ghost m0 = *old(mem);
        let ghost t = self.process_table@;
        let r = Kvm::init(mem, end_text);
        proof {
            lemma_procs_untouched(t, &m0, mem, m0.free());
            assert forall|i: int, j: int|
                0 <= i < t.len() && 0 <= j < t.len() && i != j implies #[trigger] proc_frames(
                t[i],
                mem,
            ).disjoint(#[trigger] proc_frames(t[j], mem)) by {
                assert(proc_frames(t[i], &m0).disjoint(proc_frames(t[j], &m0)));
            }
        }
        match r {
            Ok(k) => {
                proof {
                    assert forall|i: int| 0 <= i < t.len() implies tree_frames(mem, k.pagetree).disjoint(
                        #[trigger] proc_frames(t[i], mem),
                    ) by {
                        lemma_proc_frames_not_free(t[i], &m0);
                    }
                }
                self.kvm = Some(k);
                Ok(())
            },
            Err(()) => {
                proof {
                    if let Some(k) = self.kvm {
                        crate::pagetable::lemma_free_disjoint_tree(&m0, k.pagetree);
                        lemma_tree_untouched(&m0, mem, k.pagetree, m0.free());
                        assert forall|i: int| 0 <= i < t.len() implies tree_frames(mem, k.pagetree).disjoint(
                            #[trigger] proc_frames(t[i], mem),
                        ) by {
                            assert(tree_frames(&m0, k.pagetree).disjoint(proc_frames(t[i], &m0)));
                        }
                    }
                }
                Err(())
            },
        }
    }

    /// One step of the scheduler: picks the first runnable process from
    /// slot `start` on, marks it running and makes it the processor's
    /// current one. Returns its slot, or `None` when there is none. The
    /// switch to the process, and clearing the current process when it
    /// switches back, are the caller's, which looks again from the slot after
    /// the one that ran (see `law_scheduler_pass`).
    pub fn next_runnable(&mut self, start: usize) -> (res: Option<usize>)
        ensures
            final(self).kvm == old(self).kvm,
            res is None ==> final(self).cpus == old(self).cpus,
            res matches Some(i) ==> final(self).cpus == (Cpu { current: Some(i), ..old(self).cpus }),
            final(self).pid == old(self).pid,
            final(self).process_table@.len() == old(self).process_table@.len(),
            res is None <==> forall|j: int|
                start <= j < old(self).process_table@.len() ==> (#[trigger] old(self).process_table@[j]).state
                    != ProcState::RUNNABLE,
            res is None ==> final(self).process_table@ == old(self).process_table@,
            res is None ==> none_runnable_from(old(self).process_table@, start as int),
            res matches Some(i) ==> first_runnable_from(old(self).process_table@, start as int, i as int),
            res matches Some(i) ==> {
                &&& start <= i < old(self).process_table@.len()
                &&& old(self).process_table@[i as int].state == ProcState::RUNNABLE
                &&& forall|j: int|
                    start <= j < i ==> (#[trigger] old(self).process_table@[j]).state
                        != ProcState::RUNNABLE
                &&& final(self).process_table@ == old(self).process_table@.update(
                    i as int,
                    Process { state: ProcState::RUNNING, ..old(self).process_table@[i as int] },
                )
            },
    {
        let n: usize = self.process_table.len();
        let mut i: usize = start;
        while i < n
            invariant
                n == self.process_table@.len(),
                start <= i,
                *self == *old(self),
                forall|j: int| start <= j < i ==> (#[trigger] self.process_table@[j]).state != ProcState::RUNNABLE,
            decreases n - i,
        {
            if self.process_table[i].state == ProcState::RUNNABLE {
                let p = &self.process_table[i];
                let q = Process {
                    pid: p.pid,
                    state: ProcState::RUNNING,
                    kstack: p.kstack,
                    pagetable: p.pagetable,
                    context: p.context,
                    trapframe: p.trapframe,
                    trapframe_page: p.trapframe_page,
                };
                assert(q == Process { state: ProcState::RUNNING, ..old(self).process_table@[i as int] });
                self.process_table.set(i, q);
                self.cpus.current = Some(i);
                return Some(i);
            }
            i = i + 1;
        }
        None
    }
}

/// Slot `i` holds the first runnable process of `t` from slot `start` on.
pub open spec fn first_runnable_from(t: Seq<Process>, start: int, i: int) -> bool {
    &&& start <= i < t.len()
    &&& t[i].state == ProcState::RUNNABLE
    &&& forall|j: int| start <= j < i ==> (#[trigger] t[j]).state != ProcState::RUNNABLE
}

/// No process of `t` from slot `start` on is runnable.
pub open spec fn none_runnable_from(t: Seq<Process>, start: int) -> bool {
    forall|j: int| start <= j < t.len() ==> (#[trigger] t[j]).state != ProcState::RUNNABLE
}

/// Where the `k`-th step of a scheduler pass that ran the slots `picks`
/// looks from: slot 0 first, then the slot after the one run last.
pub open spec fn pass_start(picks: Seq<int>, k: int) -> int {
    if k == 0 {
        0
    } else {
        picks[k - 1] + 1
    }
}

/// A scheduler pass: `ts[k]` is the process table before its `k`-th step,
/// which runs the first runnable slot from `pass_start(picks, k)` on; running
/// it may change that slot and no other; the pass ends when no slot from
/// there on is runnable.
pub open spec fn is_pass(ts: Seq<Seq<Process>>, picks: Seq<int>) -> bool {
    &&& ts.len() == picks.len() + 1
    &&& forall|k: int| 0 <= k < ts.len() ==> (#[trigger] ts[k]).len() == ts[0].len()
    &&& forall|k: int|
        0 <= k < picks.len() ==> first_runnable_from(#[trigger] ts[k], pass_start(picks, k), picks[k])
    &&& forall|k: int, j: int|
        0 <= k < picks.len() && 0 <= j < ts[0].len() && j != picks[k] ==> #[trigger] ts[k + 1][j] == ts[k][j]
    &&& none_runnable_from(ts[picks.len() as int], pass_start(picks, picks.len() as int))
}

proof fn lemma_pass_prefix(ts: Seq<Seq<Process>>, picks: Seq<int>, k: int)
    requires
        is_pass(ts, picks),
        0 <= k <= picks.len(),
    ensures
        forall|k1: int| 0 <= k1 < k ==> picks[k1] < pass_start(picks, k),
        forall|j: int| pass_start(picks, k) <= j < ts[0].len() ==> #[trigger] ts[k][j] == ts[0][j],
    decreases k,
{
    if k > 0 {
        lemma_pass_prefix(ts, picks, k - 1);
        assert(first_runnable_from(ts[k - 1], pass_start(picks, k - 1), picks[k - 1]));
        assert forall|j: int| pass_start(picks, k) <= j < ts[0].len() implies #[trigger] ts[k][j] == ts[0][j] by {
            assert(ts[(k - 1) + 1][j] == ts[k - 1][j]);
        }
    }
}

proof fn lemma_pass_reaches(ts: Seq<Seq<Process>>, picks: Seq<int>, j: int, k: int)
    requires
        is_pass(ts, picks),
        0 <= j < ts[0].len(),
        ts[0][j].state == ProcState::RUNNABLE,
        0 <= k <= picks.len(),
    ensures
        j >= pass_start(picks, k) || exists|k1: int| 0 <= k1 < k && picks[k1] == j,
    decreases k,
{
    if k > 0 {
        lemma_pass_reaches(ts, picks, j, k - 1);
        if j >= pass_start(picks, k - 1) {
            lemma_pass_prefix(ts, picks, k - 1);
            assert(ts[k - 1][j] == ts[0][j]);
            assert(first_runnable_from(ts[k - 1], pass_start(picks, k - 1), picks[k - 1]));
            if j <= picks[k - 1] {
                assert(picks[k - 1] == j);
            }
        }
    }
}

/// A scheduler pass runs exactly the processes that were runnable when it
/// began, each once, in the order of their slots.
pub proof fn law_scheduler_pass(ts: Seq<Seq<Process>>, picks: Seq<int>)
    requires
        is_pass(ts, picks),
    ensures
        forall|k1: int, k2: int| 0 <= k1 < k2 < picks.len() ==> picks[k1] < picks[k2],
        forall|j: int|
            0 <= j < ts[0].len() ==> (ts[0][j].state == ProcState::RUNNABLE <==> exists|k: int|
                0 <= k < picks.len() && #[trigger] picks[k] == j),
{
    assert forall|k1: int, k2: int| 0 <= k1 < k2 < picks.len() implies picks[k1] < picks[k2] by {
        lemma_pass_prefix(ts, picks, k2);
        assert(first_runnable_from(ts[k2], pass_start(picks, k2), picks[k2]));
    }
    assert forall|j: int| 0 <= j < ts[0].len() implies (ts[0][j].state == ProcState::RUNNABLE <==> exists|k: int|
        0 <= k < picks.len() && #[trigger] picks[k] == j) by {
        if ts[0][j].state == ProcState::RUNNABLE {
            let m = picks.len() as int;
            lemma_pass_reaches(ts, picks, j, m);
            if j >= pass_start(picks, m) {
                lemma_pass_prefix(ts, picks, m);
                assert(ts[m][j] == ts[0][j]);
            }
        }
        if exists|k: int| 0 <= k < picks.len() && #[trigger] picks[k] == j {
            let k = choose|k: int| 0 <= k < picks.len() && #[trigger] picks[k] == j;
            lemma_pass_prefix(ts, picks, k);
            assert(first_runnable_from(ts[k], pass_start(picks, k), picks[k]));
            assert(ts[k][j] == ts[0][j]);
        }
    }
}

/// Marking a process running, or any other change of process states, keeps
/// the kernel state consistent.
pub proof fn law_state_change_keeps_wf(k: Kernel, mem: &PhysMem, i: int, s: ProcState)
    requires
        k.wf(mem),
        0 <= i < k.process_table@.len(),
    ensures
        state_wf(
            k.kvm,
            k.process_table@.update(i, Process { state: s, ..k.process_table@[i] }),
            k.pid,
            mem,
        ),
{
    let t0 = k.process_table@;
    let t1 = t0.update(i, Process { state: s, ..t0[i] });
    assert forall|j: int| 0 <= j < t1.len() implies proc_frames(#[trigger] t1[j], mem) == proc_frames(t0[j], mem)
        && proc_ok(t1[j], mem) == proc_ok(t0[j], mem) by {}
    assert forall|a: int, b: int|
        0 <= a < t1.len() && 0 <= b < t1.len() && a != b implies #[trigger] proc_frames(t1[a], mem).disjoint(
        #[trigger] proc_frames(t1[b], mem),
    ) by {
        assert(proc_frames(t0[a], mem).disjoint(proc_frames(t0[b], mem)));
    }
    if let Some(kv) = k.kvm {
        assert forall|j: int| 0 <= j < t1.len() implies tree_frames(mem, kv.pagetree).disjoint(
            #[trigger] proc_frames(t1[j], mem),
        ) by {
            assert(tree_frames(mem, kv.pagetree).disjoint(proc_frames(t0[j], mem)));
        }
    }
    assert forall|a: int, b: int|
        0 <= a < t1.len() && 0 <= b < t1.len() && a != b && (#[trigger] t1[a]).pid is Some implies (
        #[trigger] t1[b]).pid != t1[a].pid by {
        assert(t0[b].pid != t0[a].pid);
    }
    assert forall|a: int| 0 <= a < t1.len() && (#[trigger] t1[a]).pid is Some implies t1[a].pid.unwrap()
        < k.pid by {
        assert(t0[a].pid.unwrap() < k.pid);
    }
}

/// Setting up a process in slot `i` as `allocproc` does keeps the kernel
/// state consistent.
proof fn lemma_allocproc_wf(
    kvm: Option<Kvm>,
    t0: Seq<Process>,
    pid0: u32,
    m0: &PhysMem,
    m1: &PhysMem,
    m2: &PhysMem,
    m3: &PhysMem,
    i: int,
    p: Process,
)
    requires
        state_wf(kvm, t0, pid0, m0),
        0 <= i < t0.len(),
        pid0 < u32::MAX,
        m1.wf(),
        m1.same_range(m0),
        m1.same_bytes(m0),
        m0.free().contains(frame_of(p.trapframe_page as int)),
        m1.free() == m0.free().remove(frame_of(p.trapframe_page as int)),
        m1.is_ram_page(p.trapframe_page as int),
        p.trapframe_page % PAGESIZE == 0,
        m2.wf(),
        m2.same_range(m1),
        m2.same_bytes(m1),
        m2.free() == m1.free().insert(frame_of(t0[i].trapframe_page as int)),
        m3.wf(),
        m3.same_range(m2),
        p.pagetable matches Some(u) && {
            &&& u.wf(m3)
            &&& m2.free().contains(frame_of(u.pagetree as int))
            &&& m3.free() == m2.free().remove(frame_of(u.pagetree as int))
            &&& u.footprint(m3) == set![frame_of(u.pagetree as int)]
            &&& m3.agree_except_frames(m2, set![frame_of(u.pagetree as int)])
        },
        p.kstack == t0[i].kstack,
        p.pid == Some(pid0),
    ensures
        state_wf(kvm, t0.update(i, p), (pid0 + 1) as u32, m3),
{
    let u = p.pagetable.unwrap();
    let fa = frame_of(p.trapframe_page as int);
    let fb = frame_of(t0[i].trapframe_page as int);
    let fr = frame_of(u.pagetree as int);
    let t1 = t0.update(i, p);
    let changed = set![fr];
    assert(fa != fb) by {
        assert(proc_ok(t0[i], m0));
    }
    assert(fa != fr);
    assert(m3.agree_except_frames(m0, changed)) by {
        assert forall|pa: int|
            #![trigger m0.byte(pa)]
            m3.in_ram(pa, 1) && !changed.contains(frame_of(pa)) implies m3.byte(pa) == m0.byte(pa) by {
            assert(m3.byte(pa) == m2.byte(pa));
        }
    }
    assert(proc_frames(t0[i], m0).contains(fb));
    // every other process is untouched
    assert forall|j: int| 0 <= j < t0.len() && j != i implies proc_ok(#[trigger] t1[j], m3)
        && proc_frames(t1[j], m3) == proc_frames(t0[j], m0)
        && !proc_frames(t0[j], m0).contains(fa) && !proc_frames(t0[j], m0).contains(fr)
        && !proc_frames(t0[j], m0).contains(fb) by {
        assert(proc_ok(t0[j], m0));
        lemma_proc_frames_not_free(t0[j], m0);
        assert(proc_frames(t0[i], m0).disjoint(proc_frames(t0[j], m0)));
        assert(!proc_frames(t0[j], m0).contains(fb));
        assert(m3.free().disjoint(proc_frames(t0[j], m0)));
        lemma_proc_untouched(t0[j], m0, m3, changed);
    }
    // the new process
    assert(proc_frames(p, m3) =~= set![fa, fr]);
    assert(proc_ok(t1[i], m3)) by {
        assert(t1[i] == p);
        assert(proc_ok(t0[i], m0));
        assert(m3.managed().contains(fa)) by {
            assert(m0.free().subset_of(m0.managed()));
        }
        assert(!m3.free().contains(fa));
        assert(!u.footprint(m3).contains(fa));
    }
    assert forall|a: int, b: int|
        0 <= a < t1.len() && 0 <= b < t1.len() && a != b implies #[trigger] proc_frames(
        t1[a],
        m3,
    ).disjoint(#[trigger] proc_frames(t1[b], m3)) by {
        if a != i && b != i {
            assert(proc_frames(t0[a], m0).disjoint(proc_frames(t0[b], m0)));
        }
    }
    if let Some(k) = kvm {
        let tf = tree_frames(m0, k.pagetree);
        crate::pagetable::lemma_free_disjoint_tree(m0, k.pagetree);
        assert(tf.disjoint(proc_frames(t0[i], m0)));
        lemma_tree_untouched(m0, m3, k.pagetree, changed);
        assert forall|j: int| 0 <= j < t1.len() implies tree_frames(m3, k.pagetree).disjoint(
            #[trigger] proc_frames(t1[j], m3),
        ) by {
            if j != i {
                assert(tf.disjoint(proc_frames(t0[j], m0)));
            }
        }
    }
    assert forall|a: int| 0 <= a < t1.len() && (#[trigger] t1[a]).pid is Some implies t1[a].pid.unwrap()
        < pid0 + 1 by {
        if a != i {
            assert(t0[a].pid.unwrap() < pid0);
        }
    }
    assert forall|a: int, b: int|
        0 <= a < t1.len() && 0 <= b < t1.len() && a != b && (#[trigger] t1[a]).pid is Some implies (
        #[trigger] t1[b]).pid != t1[a].pid by {
        if a != i && b != i {
            assert(t0[b].pid != t0[a].pid);
        } else if a == i {
            if t0[b].pid is Some {
                assert(t0[b].pid.unwrap() < pid0);
            }
        } else {
            assert(t0[a].pid.unwrap() < pid0);
        }
    }
}

/// Growing the kernel's page tree with frames that were free keeps the
/// kernel state consistent.
proof fn lemma_kvm_grow_wf(k: Kvm, t: Seq<Process>, pid: u32, m0: &PhysMem, m1: &PhysMem)
    requires
        state_wf(Some(k), t, pid, m0),
        crate::vm::tree_grows(m0, m1, k.pagetree),
    ensures
        state_wf(Some(k), t, pid, m1),
{
    let changed = tree_frames(m1, k.pagetree);
    assert forall|i: int| 0 <= i < t.len() implies #[trigger] proc_ok(t[i], m1) && proc_frames(t[i], m1)
        == proc_frames(t[i], m0) && tree_frames(m1, k.pagetree).disjoint(proc_frames(t[i], m1)) by {
        let fs = proc_frames(t[i], m0);
        assert(proc_ok(t[i], m0));
        lemma_proc_frames_not_free(t[i], m0);
        assert(tree_frames(m0, k.pagetree).disjoint(fs));
        assert(changed.disjoint(fs));
        assert(m1.free().disjoint(fs));
        lemma_proc_untouched(t[i], m0, m1, changed);
    }
    assert forall|i: int, j: int|
        0 <= i < t.len() && 0 <= j < t.len() && i != j implies #[trigger] proc_frames(t[i], m1).disjoint(
        #[trigger] proc_frames(t[j], m1),
    ) by {
        assert(proc_frames(t[i], m0).disjoint(proc_frames(t[j], m0)));
        assert(proc_ok(t[i], m1) && proc_ok(t[j], m1));
    }
    assert forall|i: int| 0 <= i < t.len() implies tree_frames(m1, k.pagetree).disjoint(
        #[trigger] proc_frames(t[i], m1),
    ) by {
        assert(proc_ok(t[i], m1));
    }
}

/// Memory with the same bytes and the same free frames keeps the kernel
/// state consistent.
proof fn lemma_same_mem_wf(kvm: Option<Kvm>, t: Seq<Process>, pid: u32, m0: &PhysMem, m1: &PhysMem)
    requires
        state_wf(kvm, t, pid, m0),
        m1.wf(),
        m1.same_range(m0),
        m1.same_bytes(m0),
        m1.free() == m0.free(),
    ensures
        state_wf(kvm, t, pid, m1),
{
    let changed = Set::<int>::empty();
    assert(m1.agree_except_frames(m0, changed));
    lemma_procs_untouched(t, m0, m1, changed);
    assert forall|i: int, j: int|
        0 <= i < t.len() && 0 <= j < t.len() && i != j implies #[trigger] proc_frames(t[i], m1).disjoint(
        #[trigger] proc_frames(t[j], m1),
    ) by {
        assert(proc_frames(t[i], m0).disjoint(proc_frames(t[j], m0)));
    }
    if let Some(k) = kvm {
        crate::pagetable::lemma_free_disjoint_tree(m0, k.pagetree);
        lemma_tree_untouched(m0, m1, k.pagetree, changed);
        assert forall|i: int| 0 <= i < t.len() implies tree_frames(m1, k.pagetree).disjoint(
            #[trigger] proc_frames(t[i], m1),
        ) by {
            assert(tree_frames(m0, k.pagetree).disjoint(proc_frames(t[i], m0)));
        }
    }
}

/// Writing into the trap-frame page of the process in slot `i`, and nowhere
/// else (as `prepare_return` does), keeps the kernel state consistent.
pub proof fn law_trapframe_store_keeps_wf(
    kvm: Option<Kvm>,
    t: Seq<Process>,
    pid: u32,
    m0: &PhysMem,
    m1: &PhysMem,
    i: int,
)
    requires
        state_wf(kvm, t, pid, m0),
        0 <= i < t.len(),
        m1.wf(),
        m1.same_range(m0),
        m1.free() == m0.free(),
        m1.agree_except_frames(m0, set![frame_of(t[i].trapframe_page as int)]),
    ensures
        state_wf(kvm, t, pid, m1),
{
    let f = frame_of(t[i].trapframe_page as int);
    let changed = set![f];
    assert forall|j: int| #![trigger t[j]] 0 <= j < t.len() implies proc_ok(t[j], m1) && proc_frames(t[j], m1)
        == proc_frames(t[j], m0) by {
        assert(proc_ok(t[j], m0));
        lemma_proc_frames_not_free(t[j], m0);
        if let Some(u) = t[j].pagetable {
            if j != i {
                assert(proc_frames(t[j], m0).disjoint(proc_frames(t[i], m0)));
                assert(proc_frames(t[i], m0).contains(f));
            }
            assert(changed.disjoint(u.footprint(m0)));
            assert(m1.free().disjoint(u.footprint(m0)));
            lemma_uvm_untouched(m0, m1, u, changed);
        }
    }
    assert forall|a: int, b: int|
        0 <= a < t.len() && 0 <= b < t.len() && a != b implies #[trigger] proc_frames(t[a], m1).disjoint(
        #[trigger] proc_frames(t[b], m1),
    ) by {
        assert(proc_frames(t[a], m1) == proc_frames(t[a], m0));
        assert(proc_frames(t[b], m1) == proc_frames(t[b], m0));
        assert(proc_frames(t[a], m0).disjoint(proc_frames(t[b], m0)));
    }
    if let Some(k) = kvm {
        crate::pagetable::lemma_free_disjoint_tree(m0, k.pagetree);
        assert(proc_frames(t[i], m0).contains(f));
        assert(tree_frames(m0, k.pagetree).disjoint(proc_frames(t[i], m0)));
        lemma_tree_untouched(m0, m1, k.pagetree, changed);
        crate::pagetable::lemma_no_megapages_kept(m0, m1, k.pagetree);
        assert forall|j: int| 0 <= j < t.len() implies tree_frames(m1, k.pagetree).disjoint(
            #[trigger] proc_frames(t[j], m1),
        ) by {
            assert(proc_frames(t[j], m1) == proc_frames(t[j], m0));
            assert(tree_frames(m0, k.pagetree).disjoint(proc_frames(t[j], m0)));
        }
    }
}

/// The `q`-th page of the kernel stack of slot `j` is page
/// `0xffffc - 3 * j + q`: stacks of different slots share no page.
proof fn lemma_kstack_page(j: u32, q: int)
    requires
        kstack_slot_ok(j),
        0 <= q < KERNEL_STACK_PAGES,
    ensures
        kstack_spec(j) + PAGESIZE * q <= u32::MAX,
        vpage(page_va(kstack_spec(j) as u32, q)) == 0xffffc - 3 * j + q,
{
    let x = kstack_spec(j) + PAGESIZE * q;
    assert(TRAMPOLINE == 0xffff_f000 && PAGESIZE == 4096 && KERNEL_STACK_PAGES == 2);
    assert(x == (0xffffc - 3 * j + q) * 4096) by (nonlinear_arith)
        requires
            x == 0xffff_f000 - (j + 1) * 4096 * 3 + 4096 * q,
    ;
    crate::pagetable::lemma_vpage(x as u32);
    vstd::arithmetic::div_mod::lemma_fundamental_div_mod_converse(x, 4096, 0xffffc - 3 * j + q, 0);
}

/// The kernel stacks of two different slots share no page, and a page that
/// belongs to no stack lies between them and between the highest stack and
/// the trampoline: the guard page above each stack.
pub proof fn law_kstacks_apart(i: u32, j: u32, q: int, r: int)
    requires
        kstack_slot_ok(i),
        kstack_slot_ok(j),
        i < j,
        0 <= q < KERNEL_STACK_PAGES,
        0 <= r < KERNEL_STACK_PAGES,
    ensures
        vpage(page_va(kstack_spec(j) as u32, r)) < vpage(kstack_spec(i) as u32) - 1,
        vpage(page_va(kstack_spec(j) as u32, r)) < vpage(page_va(kstack_spec(i) as u32, q)),
        vpage(page_va(kstack_spec(i) as u32, q)) < vpage(TRAMPOLINE) - 1,
{
    lemma_kstack_page(i, 0);
    lemma_kstack_page(i, q);
    lemma_kstack_page(j, r);
    assert(page_va(kstack_spec(i) as u32, 0) == kstack_spec(i) as u32);
    crate::pagetable::lemma_vpage(TRAMPOLINE);
}

/// Taking a frame for a trap-frame page leaves the kernel's translations
/// as they were.
proof fn lemma_free_disjoint_tree_kvm(k: Kvm, m0: &PhysMem, m1: &PhysMem)
    requires
        k.wf(m0),
        m1.wf(),
        m1.same_range(m0),
        m1.same_bytes(m0),
        m1.free().subset_of(m0.free()),
    ensures
        forall|va: u32| #[trigger] translate(m1, k.pagetree, va) == translate(m0, k.pagetree, va),
{
    let changed = Set::<int>::empty();
    assert(m1.agree_except_frames(m0, changed));
    crate::pagetable::lemma_free_disjoint_tree(m0, k.pagetree);
    lemma_tree_untouched(m0, m1, k.pagetree, changed);
}

/// Appending an unused process whose trap-frame page was just taken from the
/// free frames keeps the kernel state consistent.
proof fn lemma_push_unused_wf(kvm: Option<Kvm>, t: Seq<Process>, pid: u32, m0: &PhysMem, m1: &PhysMem, p: Process)
    requires
        state_wf(kvm, t, pid, m0),
        m1.wf(),
        m1.same_range(m0),
        m1.same_bytes(m0),
        m0.free().contains(frame_of(p.trapframe_page as int)),
        m1.free() == m0.free().remove(frame_of(p.trapframe_page as int)),
        m1.is_ram_page(p.trapframe_page as int),
        p.trapframe_page % PAGESIZE == 0,
        p.kstack + KERNEL_STACK_PAGES * PAGESIZE <= u32::MAX,
        p.pagetable is None,
        p.pid is None,
    ensures
        state_wf(kvm, t.push(p), pid, m1),
{
    let fa = frame_of(p.trapframe_page as int);
    let t1 = t.push(p);
    let changed = Set::<int>::empty();
    assert(m1.agree_except_frames(m0, changed));
    assert forall|i: int| 0 <= i < t.len() implies #[trigger] proc_ok(t1[i], m1) && proc_frames(t1[i], m1)
        == proc_frames(t[i], m0) && !proc_frames(t[i], m0).contains(fa) by {
        assert(t1[i] == t[i]);
        lemma_proc_untouched_step(t[i], m0, m1, changed);
        lemma_proc_frames_not_free(t[i], m0);
    }
    assert(proc_frames(p, m1) =~= set![fa]);
    assert(proc_ok(t1[t.len() as int], m1)) by {
        assert(t1[t.len() as int] == p);
        assert(m0.free().subset_of(m0.managed()));
    }
    assert forall|a: int, b: int|
        0 <= a < t1.len() && 0 <= b < t1.len() && a != b implies #[trigger] proc_frames(t1[a], m1).disjoint(
        #[trigger] proc_frames(t1[b], m1),
    ) by {
        if a < t.len() {
            assert(proc_ok(t1[a], m1));
        }
        if b < t.len() {
            assert(proc_ok(t1[b], m1));
        }
        if a < t.len() && b < t.len() {
            assert(proc_frames(t[a], m0).disjoint(proc_frames(t[b], m0)));
        }
    }
    if let Some(k) = kvm {
        crate::pagetable::lemma_free_disjoint_tree(m0, k.pagetree);
        lemma_tree_untouched(m0, m1, k.pagetree, changed);
        assert forall|j: int| 0 <= j < t1.len() implies tree_frames(m1, k.pagetree).disjoint(
            #[trigger] proc_frames(t1[j], m1),
        ) by {
            if j < t.len() {
                assert(proc_ok(t1[j], m1));
                assert(tree_frames(m0, k.pagetree).disjoint(proc_frames(t[j], m0)));
            } else {
                assert(!tree_frames(m0, k.pagetree).contains(fa));
            }
        }
    }
    assert forall|a: int| 0 <= a < t1.len() && (#[trigger] t1[a]).pid is Some implies t1[a].pid.unwrap()
        < pid by {
        assert(t[a].pid.unwrap() < pid);
    }
    assert forall|a: int, b: int|
        0 <= a < t1.len() && 0 <= b < t1.len() && a != b && (#[trigger] t1[a]).pid is Some implies (
        #[trigger] t1[b]).pid != t1[a].pid by {
        if b < t.len() {
            assert(t[b].pid != t[a].pid);
        }
    }
}

impl Kernel {
    /// Sets up `n` more process slots after the existing ones: each gets a
    /// trap-frame page and its kernel stack, backed by frames mapped in the
    /// kernel's address space. Fails when the kernel's address space is not
    /// built yet, leaving everything as it was, or when the allocator runs
    /// out of frames, keeping the slots set up so far.
    pub fn initproc(&mut self, mem: &mut PhysMem, n: u32) -> (res: Result<(), ()>)
        requires
            old(self).wf(old(mem)),
            old(self).process_table@.len() + n <= u32::MAX,
            n > 0 ==> kstack_slot_ok((old(self).process_table@.len() + n - 1) as u32),
        ensures
            final(self).wf(final(mem)),
            final(self).kvm == old(self).kvm,
            final(self).cpus == old(self).cpus,
            final(self).pid == old(self).pid,
            old(self).kvm is None ==> res is Err && final(self).process_table@ == old(self).process_table@
                && *final(mem) == *old(mem),
            res is Err && old(self).kvm is Some ==> final(mem).free().is_empty() && old(mem).free().len() < (2
                * KERNEL_STACK_PAGES + 1) * n,
            old(self).process_table@.len() <= final(self).process_table@.len(),
            final(self).process_table@.len() <= old(self).process_table@.len() + n,
            res is Ok ==> final(self).process_table@.len() == old(self).process_table@.len() + n,
            final(self).process_table@.subrange(0, old(self).process_table@.len() as int)
                == old(self).process_table@,
            old(self).kvm matches Some(k) ==> res is Err || forall|i: int, q: int|
                old(self).process_table@.len() <= i < final(self).process_table@.len() && 0 <= q
                    < KERNEL_STACK_PAGES ==> #[trigger] translate(
                    final(mem),
                    k.pagetree,
                    page_va(kstack_spec(i as u32) as u32, q),
                ) == Some(
                    leaf_pte(
                        (mapped_frame(final(mem), k.pagetree, page_va(kstack_spec(i as u32) as u32, q))
                            * 4096) as u32,
                        PTE_R | PTE_W,
                    ),
                ),
            forall|i: int|
                old(self).process_table@.len() <= i < final(self).process_table@.len() ==> {
                    &&& (#[trigger] final(self).process_table@[i]).pid is None
                    &&& final(self).process_table@[i].state == ProcState::UNUSED
                    &&& final(self).process_table@[i].kstack == kstack_spec(i as u32)
                    &&& final(self).process_table@[i].pagetable is None
                    &&& final(self).process_table@[i].trapframe == trapframe_zero()
                },
    {
        let nproc: usize = self.process_table.len();
        let ghost t0 = self.process_table@;
        let mut kvm = match self.kvm {
            Some(k) => k,
            None => return Err(()),
        };
        let mut i: u32 = nproc as u32;
        let end: u32 = nproc as u32 + n;
        while i < end
            invariant
                nproc == t0.len(),
                t0 == old(self).process_table@,
                end == t0.len() + n,
                end <= u32::MAX,
                n > 0 ==> kstack_slot_ok((end - 1) as u32),
                nproc <= i <= end,
                old(mem).free().len() <= mem.free().len() + (2 * KERNEL_STACK_PAGES + 1) * (i - nproc),
                self.process_table@.len() == i,
                self.kvm == Some(kvm),
                self.kvm == old(self).kvm,
                self.cpus == old(self).cpus,
                self.pid == old(self).pid,
                self.wf(mem),
                self.process_table@.subrange(0, nproc as int) == t0,
                forall|j: int|
                    nproc <= j < i ==> {
                        &&& (#[trigger] self.process_table@[j]).pid is None
                        &&& self.process_table@[j].state == ProcState::UNUSED
                        &&& self.process_table@[j].kstack == kstack_spec(j as u32)
                        &&& self.process_table@[j].pagetable is None
                        &&& self.process_table@[j].trapframe == trapframe_zero()
                    },
                forall|j: int, q: int|
                    nproc <= j < i && 0 <= q < KERNEL_STACK_PAGES ==> #[trigger] translate(
                        mem,
                        kvm.pagetree,
                        page_va(kstack_spec(j as u32) as u32, q),
                    ) == Some(
                        leaf_pte(
                            (mapped_frame(mem, kvm.pagetree, page_va(kstack_spec(j as u32) as u32, q))
                                * 4096) as u32,
                            PTE_R | PTE_W,
                        ),
                    ),
            decreases end - i,
        {
            let ghost m0 = *mem;
            let ghost t = self.process_table@;
            proof {
                assert(kstack_slot_ok(i)) by (nonlinear_arith)
                    requires
                        i < end,
                        kstack_slot_ok((end - 1) as u32),
                ;
            }
            let proc = match Process::new(i, mem) {
                Ok(p) => p,
                Err(()) => {
                    proof {
                        lemma_same_mem_wf(self.kvm, t, self.pid, &m0, mem);
                        assert(m0.free().len() == 0);
                        assert((2 * KERNEL_STACK_PAGES + 1) * (i - nproc) < (2 * KERNEL_STACK_PAGES + 1) * n)
                            by (nonlinear_arith)
                            requires
                                i < end,
                                end == nproc + n,
                                nproc <= i,
                        ;
                    }
                    return Err(());
                },
            };
            let ghost m1 = *mem;
            proof {
                vstd::set::axiom_set_remove_len(m0.free(), frame_of(proc.trapframe_page as int));
                assert((2 * KERNEL_STACK_PAGES + 1) * (i - nproc) + (2 * KERNEL_STACK_PAGES + 1) <= (2
                    * KERNEL_STACK_PAGES + 1) * n) by (nonlinear_arith)
                    requires
                        i < end,
                        end == nproc + n,
                        nproc <= i,
                ;
                assert(kstack_spec(i) + KERNEL_STACK_PAGES * PAGESIZE <= u32::MAX) by (nonlinear_arith)
                    requires
                        kstack_slot_ok(i),
                ;
                lemma_push_unused_wf(self.kvm, t, self.pid, &m0, &m1, proc);
            }
            let va = kstack(i);
            self.process_table.push(proc);
            let r = kvm.alloc_kstack(mem, va);
            proof {
                lemma_kvm_grow_wf(kvm, self.process_table@, self.pid, &m1, mem);
                assert(self.process_table@.subrange(0, nproc as int) =~= t0) by {
                    assert(t.subrange(0, nproc as int) == t0);
                }
                assert forall|j: int| nproc <= j < i + 1 implies {
                    &&& (#[trigger] self.process_table@[j]).pid is None
                    &&& self.process_table@[j].state == ProcState::UNUSED
                    &&& self.process_table@[j].kstack == kstack_spec(j as u32)
                    &&& self.process_table@[j].pagetable is None
                    &&& self.process_table@[j].trapframe == trapframe_zero()
                } by {
                    if j < i {
                        assert(self.process_table@[j] == t[j]);
                    }
                }
            }
            match r {
                Ok(()) => {},
                Err(()) => return Err(()),
            }
            proof {
                assert((2 * KERNEL_STACK_PAGES + 1) * (i - nproc) + (2 * KERNEL_STACK_PAGES + 1) == (2
                    * KERNEL_STACK_PAGES + 1) * (i + 1 - nproc)) by (nonlinear_arith);
                lemma_free_disjoint_tree_kvm(kvm, &m0, &m1);
                assert forall|j: int, q: int|
                    nproc <= j < i + 1 && 0 <= q < KERNEL_STACK_PAGES implies #[trigger] translate(
                    mem,
                    kvm.pagetree,
                    page_va(kstack_spec(j as u32) as u32, q),
                ) == Some(
                    leaf_pte(
                        (mapped_frame(mem, kvm.pagetree, page_va(kstack_spec(j as u32) as u32, q))
                            * 4096) as u32,
                        PTE_R | PTE_W,
                    ),
                ) by {
                    lemma_kstack_page(i, 0);
                    lemma_kstack_page(i, q);
                    if j < i {
                        lemma_kstack_page(j as u32, q);
                        let v = page_va(kstack_spec(j as u32) as u32, q);
                        assert(translate(mem, kvm.pagetree, v) == translate(&m1, kvm.pagetree, v));
                        assert(translate(&m1, kvm.pagetree, v) == translate(&m0, kvm.pagetree, v));
                    } else {
                        assert(page_va(kstack_spec(i) as u32, q) == page_va(va, q));
                    }
                }
            }
            i = i + 1;
        }
        Ok(())
    }
}

impl Kernel {
    /// Runs `Process::kexec` on the process in slot `i`: replaces its user
    /// program by `img`, keeping the kernel state consistent. Fails when the
    /// allocator runs out of frames, leaving the process as it was.
    pub fn kexec(&mut self, mem: &mut PhysMem, i: usize, img: &[u8]) -> (res: Result<(), ()>)
        requires
            old(self).wf(old(mem)),
            i < old(self).process_table@.len(),
            USER_START + img@.len() + 3 * PAGESIZE <= user_top(),
        ensures
            final(self).wf(final(mem)),
            final(self).kvm == old(self).kvm,
            final(self).cpus == old(self).cpus,
            final(self).pid == old(self).pid,
            only_free_changed(old(mem), final(mem)),
            final(self).process_table@.len() == old(self).process_table@.len(),
            forall|j: int|
                0 <= j < old(self).process_table@.len() && j != i ==> #[trigger] final(self).process_table@[j]
                    == old(self).process_table@[j],
            res is Err ==> final(self).process_table@ == old(self).process_table@ && final(mem).free().len()
                <= pages_for(img@.len() as int) + 1,
            res is Err ==> old(mem).free().len() < 2 * (pages_for(img@.len() as int) + 2) + 1,
            res is Ok ==> {
                let p0 = old(self).process_table@[i as int];
                let p = final(self).process_table@[i as int];
                &&& p.pagetable matches Some(u) && exec_image(old(mem), final(mem), u, img@)
                    && p.trapframe == (Trapframe {
                    a0: 0,
                    sp: (USER_START + u.size) as u32,
                    epc: USER_START,
                    ..p0.trapframe
                })
                &&& p.pid == p0.pid
                &&& p.state == p0.state
                &&& p.kstack == p0.kstack
                &&& p.context == p0.context
                &&& p.trapframe_page == p0.trapframe_page
            },
    {
        let ghost m0 = *mem;
        let ghost t0 = self.process_table@;
        let q = &self.process_table[i];
        let mut p = Process {
            pid: q.pid,
            state: q.state,
            kstack: q.kstack,
            pagetable: q.pagetable,
            context: q.context,
            trapframe: q.trapframe,
            trapframe_page: q.trapframe_page,
        };
        let r = p.kexec(mem, img);
        proof {
            lemma_exec_wf(self.kvm, t0, self.pid, &m0, mem, i as int, p);
        }
        self.process_table.set(i, p);
        r
    }
}

/// Putting in slot `i` a process that differs from the one there only in an
/// address space built from frames that were free keeps the kernel state
/// consistent.
proof fn lemma_exec_wf(kvm: Option<Kvm>, t0: Seq<Process>, pid: u32, m0: &PhysMem, m: &PhysMem, i: int, p: Process)
    requires
        state_wf(kvm, t0, pid, m0),
        0 <= i < t0.len(),
        only_free_changed(m0, m),
        p.pid == t0[i].pid,
        p.kstack == t0[i].kstack,
        p.trapframe_page == t0[i].trapframe_page,
        p.pagetable == t0[i].pagetable || (p.pagetable matches Some(u) && u.wf(m) && u.footprint(m).subset_of(m0.free())),
    ensures
        state_wf(kvm, t0.update(i, p), pid, m),
{
    let t1 = t0.update(i, p);
    let changed = m0.free();
    let fa = frame_of(p.trapframe_page as int);
    assert(proc_ok(t0[i], m0));
    lemma_proc_frames_not_free(t0[i], m0);
    assert forall|j: int| 0 <= j < t0.len() && j != i implies #[trigger] proc_ok(t1[j], m) && proc_frames(t1[j], m)
        == proc_frames(t0[j], m0) by {
        lemma_proc_untouched_step(t0[j], m0, m, changed);
    }
    if p.pagetable == t0[i].pagetable {
        lemma_proc_untouched_step(t0[i], m0, m, changed);
        assert(proc_frames(p, m) == proc_frames(t0[i], m0));
        assert(proc_ok(p, m));
    } else {
        let u = p.pagetable.unwrap();
        assert(proc_frames(p, m) == set![fa].union(u.footprint(m)));
        assert(!m0.free().contains(fa));
        assert(proc_ok(p, m)) by {
            assert(m0.managed().contains(fa));
        }
    }
    assert(proc_frames(p, m).subset_of(proc_frames(t0[i], m0).union(m0.free())));
    assert forall|a: int, b: int|
        0 <= a < t1.len() && 0 <= b < t1.len() && a != b implies #[trigger] proc_frames(t1[a], m).disjoint(
        #[trigger] proc_frames(t1[b], m),
    ) by {
        if a != i {
            assert(proc_ok(t1[a], m));
            assert(proc_ok(t0[a], m0));
            lemma_proc_frames_not_free(t0[a], m0);
        }
        if b != i {
            assert(proc_ok(t1[b], m));
            assert(proc_ok(t0[b], m0));
            lemma_proc_frames_not_free(t0[b], m0);
        }
        assert(proc_frames(t0[a], m0).disjoint(proc_frames(t0[b], m0)));
    }
    if let Some(k) = kvm {
        crate::pagetable::lemma_free_disjoint_tree(m0, k.pagetree);
        lemma_tree_untouched(m0, m, k.pagetree, changed);
        assert forall|j: int| 0 <= j < t1.len() implies tree_frames(m, k.pagetree).disjoint(
            #[trigger] proc_frames(t1[j], m),
        ) by {
            assert(tree_frames(m0, k.pagetree).disjoint(proc_frames(t0[j], m0)));
            if j != i {
                assert(proc_ok(t1[j], m));
            }
        }
    }
    assert forall|a: int| 0 <= a < t1.len() && (#[trigger] t1[a]).pid is Some implies t1[a].pid.unwrap()
        < pid by {
        assert(t0[a].pid.unwrap() < pid);
    }
    assert forall|a: int, b: int|
        0 <= a < t1.len() && 0 <= b < t1.len() && a != b && (#[trigger] t1[a]).pid is Some implies (
        #[trigger] t1[b]).pid != t1[a].pid by {
        assert(t0[b].pid != t0[a].pid);
    }
}

} // verus!
