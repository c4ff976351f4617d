//! Processes: their state, saved registers, trap frame and address space.

use vstd::prelude::*;
use crate::bits::satp_encode;
use crate::layout::{
    kstack, kstack_slot_ok, kstack_spec, KERNEL_STACK_PAGES, PAGESIZE, PTE_R, PTE_U, PTE_W, PTE_X,
    TRAMPOLINE, USER_START,
};
use crate::allocator::PageAllocator;
use crate::trap::SSTATUS_SIE;
use crate::physmem::{PhysMem, frame_of, lemma_word_outside};
use crate::vm::{Uvm, pages_for, user_top};
use crate::pagetable::vpage;
use crate::pagetable::{leaf_pte, mapped_frame, page_va, translate, tree_frames};

verus! {

/// Previous privilege mode bit of `sstatus`: set for supervisor, clear for
/// user.
pub const SSTATUS_SPP: u32 = 1u32 << 8u32;

/// Previous interrupt-enable bit of `sstatus`.
pub const SSTATUS_SPIE: u32 = 1u32 << 5u32;

#[derive(Debug, Copy, Clone, PartialEq, Eq, Structural)]
pub enum ProcState {
    UNUSED,
    USED,
    SLEEPING,
    RUNNABLE,
    RUNNING,
    ZOMBIE,
}

impl Default for ProcState {
    fn default() -> (res: ProcState)
        ensures
            res == ProcState::UNUSED,
    {
        ProcState::UNUSED
    }
}

/// Callee-saved registers kept across a context switch.
#[derive(Copy, Clone)]
pub struct Context {
    pub ra: u32,
    pub sp: u32,
    pub s0: u32,
    pub s1: u32,
    pub s2: u32,
    pub s3: u32,
    pub s4: u32,
    pub s5: u32,
    pub s6: u32,
    pub s7: u32,
    pub s8: u32,
    pub s9: u32,
    pub s10: u32,
    pub s11: u32,
}

impl Context {
    /// Every saved callee-saved register `s0`..`s11` is zero.
    pub open spec fn saved_zero(&self) -> bool {
        self.s0 == 0 && self.s1 == 0 && self.s2 == 0 && self.s3 == 0 && self.s4 == 0 && self.s5
            == 0 && self.s6 == 0 && self.s7 == 0 && self.s8 == 0 && self.s9 == 0 && self.s10 == 0
            && self.s11 == 0
    }

    /// A context with every register zero.
    pub fn zero() -> (res: Context)
        ensures
            res.ra == 0,
            res.sp == 0,
            res.saved_zero(),
    {
        Context {
            ra: 0,
            sp: 0,
            s0: 0,
            s1: 0,
            s2: 0,
            s3: 0,
            s4: 0,
            s5: 0,
            s6: 0,
            s7: 0,
            s8: 0,
            s9: 0,
            s10: 0,
            s11: 0,
        }
    }
}

impl Default for Context {
    fn default() -> (res: Context)
        ensures
            res.ra == 0,
            res.sp == 0,
            res.saved_zero(),
    {
        Context::zero()
    }
}

/// The registers saved on a trap from user mode, and what the trampoline
/// needs to enter the kernel. Each field has an eight-byte slot, in this
/// order, in the page mapped at `TRAPFRAME` (`trapframe_stored`). The library
/// keeps the frame as this value (`Process::trapframe`) and writes it into
/// that page before each return to user mode (`prepare_return`).
#[derive(Copy, Clone)]
pub struct Trapframe {
    pub kernel_satp: u32,
    pub kernel_sp: u32,
    pub trap_handler: u32,
    pub epc: u32,
    pub hartid: u32,
    pub ra: u32,
    pub sp: u32,
    pub gp: u32,
    pub tp: u32,
    pub t0: u32,
    pub t1: u32,
    pub t2: u32,
    pub s0: u32,
    pub s1: u32,
    pub a0: u32,
    pub a1: u32,
    pub a2: u32,
    pub a3: u32,
    pub a4: u32,
    pub a5: u32,
    pub a6: u32,
    pub a7: u32,
    pub s2: u32,
    pub s3: u32,
    pub s4: u32,
    pub s5: u32,
    pub s6: u32,
    pub s7: u32,
    pub s8: u32,
    pub s9: u32,
    pub s10: u32,
    pub s11: u32,
    pub t3: u32,
    pub t4: u32,
    pub t5: u32,
    pub t6: u32,
}

/// The fields of a trap frame in the order of their slots.
pub open spec fn trapframe_fields(tf: Trapframe) -> Seq<u32> {
    seq![
        tf.kernel_satp, tf.kernel_sp, tf.trap_handler, tf.epc, tf.hartid, tf.ra, tf.sp, tf.gp, tf.tp,
        tf.t0, tf.t1, tf.t2, tf.s0, tf.s1, tf.a0, tf.a1, tf.a2, tf.a3, tf.a4, tf.a5, tf.a6, tf.a7,
        tf.s2, tf.s3, tf.s4, tf.s5, tf.s6, tf.s7, tf.s8, tf.s9, tf.s10, tf.s11, tf.t3, tf.t4, tf.t5,
        tf.t6,
    ]
}

/// The page at `page` holds the trap frame `tf`: field `i` in the low word of
/// the eight-byte slot at `page + 8 * i`, the high word zero.
pub open spec fn trapframe_stored(mem: &PhysMem, page: int, tf: Trapframe) -> bool {
    forall|i: int|
        0 <= i < 36 ==> #[trigger] mem.word(page + 8 * i) == trapframe_fields(tf)[i] && mem.word(page + 8 * i + 4)
            == 0
}

/// Writes the trap frame `tf` into the page at `page`, where the trampoline
/// reads and writes it; no other byte changes.
pub fn store_trapframe(mem: &mut PhysMem, page: u32, tf: &Trapframe)
    requires
        old(mem).wf(),
        old(mem).is_ram_page(page as int),
    ensures
        final(mem).wf(),
        final(mem).same_range(old(mem)),
        final(mem).free() == old(mem).free(),
        final(mem).agree_outside(old(mem), page as int, page + TRAPFRAME_SIZE),
        trapframe_stored(final(mem), page as int, *tf),
{
    let mut vals: Vec<u32> = Vec::new();
    vals.push(tf.kernel_satp);
    vals.push(tf.kernel_sp);
    vals.push(tf.trap_handler);
    vals.push(tf.epc);
    vals.push(tf.hartid);
    vals.push(tf.ra);
    vals.push(tf.sp);
    vals.push(tf.gp);
    vals.push(tf.tp);
    vals.push(tf.t0);
    vals.push(tf.t1);
    vals.push(tf.t2);
    vals.push(tf.s0);
    vals.push(tf.s1);
    vals.push(tf.a0);
    vals.push(tf.a1);
    vals.push(tf.a2);
    vals.push(tf.a3);
    vals.push(tf.a4);
    vals.push(tf.a5);
    vals.push(tf.a6);
    vals.push(tf.a7);
    vals.push(tf.s2);
    vals.push(tf.s3);
    vals.push(tf.s4);
    vals.push(tf.s5);
    vals.push(tf.s6);
    vals.push(tf.s7);
    vals.push(tf.s8);
    vals.push(tf.s9);
    vals.push(tf.s10);
    vals.push(tf.s11);
    vals.push(tf.t3);
    vals.push(tf.t4);
    vals.push(tf.t5);
    vals.push(tf.t6);
    assert(vals@ =~= trapframe_fields(*tf));
    let ghost m0 = *old(mem);
    let mut i: usize = 0;
    while i < 36
        invariant
            m0 == *old(mem),
            vals@ == trapframe_fields(*tf),
            0 <= i <= 36,
            m0.is_ram_page(page as int),
            mem.wf(),
            mem.same_range(&m0),
            mem.free() == m0.free(),
            mem.agree_outside(&m0, page as int, page + 8 * i),
            forall|j: int|
                0 <= j < i ==> #[trigger] mem.word(page + 8 * j) == trapframe_fields(*tf)[j] && mem.word(
                    page + 8 * j + 4,
                ) == 0,
        decreases 36 - i,
    {
        let ghost m1 = *mem;
        let a: u32 = page + 8 * (i as u32);
        mem.write_u32(a, vals[i]);
        let ghost m2 = *mem;
        mem.write_u32(a + 4, 0);
        proof {
            assert forall|j: int| 0 <= j < i + 1 implies #[trigger] mem.word(page + 8 * j) == trapframe_fields(*tf)[j]
                && mem.word(page + 8 * j + 4) == 0 by {
                if j < i {
                    lemma_word_outside(&m1, &m2, page + 8 * j, a as int, a + 4);
                    lemma_word_outside(&m2, mem, page + 8 * j, a + 4, a + 8);
                    lemma_word_outside(&m1, &m2, page + 8 * j + 4, a as int, a + 4);
                    lemma_word_outside(&m2, mem, page + 8 * j + 4, a + 4, a + 8);
                } else {
                    lemma_word_outside(&m2, mem, a as int, a + 4, a + 8);
                }
            }
            assert forall|pa: int|
                #![trigger m0.byte(pa)]
                mem.in_ram(pa, 1) && !(page <= pa < page + 8 * (i + 1)) implies mem.byte(pa) == m0.byte(pa) by {
                assert(mem.byte(pa) == m2.byte(pa));
                assert(m2.byte(pa) == m1.byte(pa));
            }
        }
        i = i + 1;
    }
}

/// A stored trap frame has each field in the low word of its slot at the
/// offset where the trampoline's `uservec` saves it and `userret` loads it
/// (`kernel_satp` at 0, `sp` at 48, `a0` at 112, ..., `t6` at 280), and
/// every high word zero.
pub proof fn law_trapframe_slots(mem: &PhysMem, page: int, tf: Trapframe)
    requires
        trapframe_stored(mem, page, tf),
    ensures
        mem.word(page + 0) == tf.kernel_satp,
        mem.word(page + 8) == tf.kernel_sp,
        mem.word(page + 16) == tf.trap_handler,
        mem.word(page + 24) == tf.epc,
        mem.word(page + 32) == tf.hartid,
        mem.word(page + 40) == tf.ra,
        mem.word(page + 48) == tf.sp,
        mem.word(page + 56) == tf.gp,
        mem.word(page + 64) == tf.tp,
        mem.word(page + 72) == tf.t0,
        mem.word(page + 80) == tf.t1,
        mem.word(page + 88) == tf.t2,
        mem.word(page + 96) == tf.s0,
        mem.word(page + 104) == tf.s1,
        mem.word(page + 112) == tf.a0,
        mem.word(page + 120) == tf.a1,
        mem.word(page + 128) == tf.a2,
        mem.word(page + 136) == tf.a3,
        mem.word(page + 144) == tf.a4,
        mem.word(page + 152) == tf.a5,
        mem.word(page + 160) == tf.a6,
        mem.word(page + 168) == tf.a7,
        mem.word(page + 176) == tf.s2,
        mem.word(page + 184) == tf.s3,
        mem.word(page + 192) == tf.s4,
        mem.word(page + 200) == tf.s5,
        mem.word(page + 208) == tf.s6,
        mem.word(page + 216) == tf.s7,
        mem.word(page + 224) == tf.s8,
        mem.word(page + 232) == tf.s9,
        mem.word(page + 240) == tf.s10,
        mem.word(page + 248) == tf.s11,
        mem.word(page + 256) == tf.t3,
        mem.word(page + 264) == tf.t4,
        mem.word(page + 272) == tf.t5,
        mem.word(page + 280) == tf.t6,
        forall|i: int| 0 <= i < 36 ==> #[trigger] mem.word(page + 8 * i + 4) == 0,
{
    assert(mem.word(page + 8 * 0) == trapframe_fields(tf)[0]);
    assert(mem.word(page + 8 * 1) == trapframe_fields(tf)[1]);
    assert(mem.word(page + 8 * 2) == trapframe_fields(tf)[2]);
    assert(mem.word(page + 8 * 3) == trapframe_fields(tf)[3]);
    assert(mem.word(page + 8 * 4) == trapframe_fields(tf)[4]);
    assert(mem.word(page + 8 * 5) == trapframe_fields(tf)[5]);
    assert(mem.word(page + 8 * 6) == trapframe_fields(tf)[6]);
    assert(mem.word(page + 8 * 7) == trapframe_fields(tf)[7]);
    assert(mem.word(page + 8 * 8) == trapframe_fields(tf)[8]);
    assert(mem.word(page + 8 * 9) == trapframe_fields(tf)[9]);
    assert(mem.word(page + 8 * 10) == trapframe_fields(tf)[10]);
    assert(mem.word(page + 8 * 11) == trapframe_fields(tf)[11]);
    assert(mem.word(page + 8 * 12) == trapframe_fields(tf)[12]);
    assert(mem.word(page + 8 * 13) == trapframe_fields(tf)[13]);
    assert(mem.word(page + 8 * 14) == trapframe_fields(tf)[14]);
    assert(mem.word(page + 8 * 15) == trapframe_fields(tf)[15]);
    assert(mem.word(page + 8 * 16) == trapframe_fields(tf)[16]);
    assert(mem.word(page + 8 * 17) == trapframe_fields(tf)[17]);
    assert(mem.word(page + 8 * 18) == trapframe_fields(tf)[18]);
    assert(mem.word(page + 8 * 19) == trapframe_fields(tf)[19]);
    assert(mem.word(page + 8 * 20) == trapframe_fields(tf)[20]);
    assert(mem.word(page + 8 * 21) == trapframe_fields(tf)[21]);
    assert(mem.word(page + 8 * 22) == trapframe_fields(tf)[22]);
    assert(mem.word(page + 8 * 23) == trapframe_fields(tf)[23]);
    assert(mem.word(page + 8 * 24) == trapframe_fields(tf)[24]);
    assert(mem.word(page + 8 * 25) == trapframe_fields(tf)[25]);
    assert(mem.word(page + 8 * 26) == trapframe_fields(tf)[26]);
    assert(mem.word(page + 8 * 27) == trapframe_fields(tf)[27]);
    assert(mem.word(page + 8 * 28) == trapframe_fields(tf)[28]);
    assert(mem.word(page + 8 * 29) == trapframe_fields(tf)[29]);
    assert(mem.word(page + 8 * 30) == trapframe_fields(tf)[30]);
    assert(mem.word(page + 8 * 31) == trapframe_fields(tf)[31]);
    assert(mem.word(page + 8 * 32) == trapframe_fields(tf)[32]);
    assert(mem.word(page + 8 * 33) == trapframe_fields(tf)[33]);
    assert(mem.word(page + 8 * 34) == trapframe_fields(tf)[34]);
    assert(mem.word(page + 8 * 35) == trapframe_fields(tf)[35]);
    assert forall|i: int| 0 <= i < 36 implies #[trigger] mem.word(page + 8 * i + 4) == 0 by {
        assert(mem.word(page + 8 * i) == trapframe_fields(tf)[i]);
    }
}

/// The trap frame a new process starts with has every field zero.
pub proof fn law_trapframe_zero()
    ensures
        trapframe_zero().kernel_satp == 0,
        trapframe_zero().kernel_sp == 0,
        trapframe_zero().trap_handler == 0,
        trapframe_zero().epc == 0,
        trapframe_zero().hartid == 0,
        trapframe_zero().ra == 0,
        trapframe_zero().sp == 0,
        trapframe_zero().gp == 0,
        trapframe_zero().tp == 0,
        trapframe_zero().t0 == 0,
        trapframe_zero().t1 == 0,
        trapframe_zero().t2 == 0,
        trapframe_zero().s0 == 0,
        trapframe_zero().s1 == 0,
        trapframe_zero().a0 == 0,
        trapframe_zero().a1 == 0,
        trapframe_zero().a2 == 0,
        trapframe_zero().a3 == 0,
        trapframe_zero().a4 == 0,
        trapframe_zero().a5 == 0,
        trapframe_zero().a6 == 0,
        trapframe_zero().a7 == 0,
        trapframe_zero().s2 == 0,
        trapframe_zero().s3 == 0,
        trapframe_zero().s4 == 0,
        trapframe_zero().s5 == 0,
        trapframe_zero().s6 == 0,
        trapframe_zero().s7 == 0,
        trapframe_zero().s8 == 0,
        trapframe_zero().s9 == 0,
        trapframe_zero().s10 == 0,
        trapframe_zero().s11 == 0,
        trapframe_zero().t3 == 0,
        trapframe_zero().t4 == 0,
        trapframe_zero().t5 == 0,
        trapframe_zero().t6 == 0,
{
}

/// Bytes of a trap frame: an eight-byte slot for each of its 36 fields.
pub const TRAPFRAME_SIZE: usize = 288;

/// The trap frame with every slot zero.
pub open spec fn trapframe_zero() -> Trapframe {
    Trapframe {
        kernel_satp: 0,
        kernel_sp: 0,
        trap_handler: 0,
        epc: 0,
        hartid: 0,
        ra: 0,
        sp: 0,
        gp: 0,
        tp: 0,
        t0: 0,
        t1: 0,
        t2: 0,
        s0: 0,
        s1: 0,
        a0: 0,
        a1: 0,
        a2: 0,
        a3: 0,
        a4: 0,
        a5: 0,
        a6: 0,
        a7: 0,
        s2: 0,
        s3: 0,
        s4: 0,
        s5: 0,
        s6: 0,
        s7: 0,
        s8: 0,
        s9: 0,
        s10: 0,
        s11: 0,
        t3: 0,
        t4: 0,
        t5: 0,
        t6: 0,
    }
}

impl Default for Trapframe {
    fn default() -> (res: Trapframe)
        ensures
            res == trapframe_zero(),
    {
        Trapframe {
            kernel_satp: 0,
            kernel_sp: 0,
            trap_handler: 0,
            epc: 0,
            hartid: 0,
            ra: 0,
            sp: 0,
            gp: 0,
            tp: 0,
            t0: 0,
            t1: 0,
            t2: 0,
            s0: 0,
            s1: 0,
            a0: 0,
            a1: 0,
            a2: 0,
            a3: 0,
            a4: 0,
            a5: 0,
            a6: 0,
            a7: 0,
            s2: 0,
            s3: 0,
            s4: 0,
            s5: 0,
            s6: 0,
            s7: 0,
            s8: 0,
            s9: 0,
            s10: 0,
            s11: 0,
            t3: 0,
            t4: 0,
            t5: 0,
            t6: 0,
        }
    }
}

/// A process slot: created unused with its kernel stack and trap-frame
/// page; given a pid, state and address space when a process is allocated
/// in it.
pub struct Process {
    pub pid: Option<u32>,
    pub state: ProcState,
    /// Virtual address of the kernel stack.
    pub kstack: u32,
    /// The user address space.
    pub pagetable: Option<Uvm>,
    pub context: Context,
    pub trapframe: Trapframe,
    /// Physical address of the page mapped at `TRAPFRAME` for the trap
    /// frame, written by `prepare_return`.
    pub trapframe_page: u32,
}

impl Process {
    /// The unused process of slot `n`: its kernel stack address, a trap
    /// frame of zeros, and a page taken from the allocator for the trap frame
    /// (its bytes are left as they were). Fails when no frame is free.
    pub fn new(n: u32, mem: &mut PhysMem) -> (res: Result<Process, ()>)
        requires
            old(mem).wf(),
            kstack_slot_ok(n),
        ensures
            final(mem).wf(),
            final(mem).same_range(old(mem)),
            final(mem).same_bytes(old(mem)),
            res is Err ==> old(mem).free().is_empty() && final(mem).free() == old(mem).free(),
            res matches Ok(p) ==> {
                &&& p.pid is None
                &&& p.state == ProcState::UNUSED
                &&& p.kstack == kstack_spec(n)
                &&& p.pagetable is None
                &&& p.context.ra == 0 && p.context.sp == 0 && p.context.saved_zero()
                &&& p.trapframe == trapframe_zero()
                &&& final(mem).is_ram_page(p.trapframe_page as int)
                &&& old(mem).free().contains(frame_of(p.trapframe_page as int))
                &&& final(mem).free() == old(mem).free().remove(frame_of(p.trapframe_page as int))
            },
    {
        let trapframe_page = match (PageAllocator {}).allocate(mem, TRAPFRAME_SIZE) {
            Ok(p) => p,
            Err(()) => return Err(()),
        };
        Ok(
            Process {
                pid: None,
                state: ProcState::default(),
                kstack: kstack(n),
                pagetable: None,
                context: Context::default(),
                trapframe: Trapframe::default(),
                trapframe_page,
            },
        )
    }

    /// Gives up the processor: the process becomes runnable. The switch to
    /// the scheduler is the caller's.
    pub fn yeld(&mut self)
        ensures
            *final(self) == (Process { state: ProcState::RUNNABLE, ..*old(self) }),
    {
        self.state = ProcState::RUNNABLE;
    }
}

/// Memory changed only in frames that were free in `m0`, and no frame was
/// given back to the allocator.
pub open spec fn only_free_changed(m0: &PhysMem, m: &PhysMem) -> bool {
    &&& m.wf()
    &&& m.same_range(m0)
    &&& m.free().subset_of(m0.free())
    &&& m.agree_except_frames(m0, m0.free())
}

/// What `kexec` leaves in a process: the address space `u` holds the image
/// in its first pages (readable, writable and executable), then a guard page
/// with no permission, then a stack page (readable and writable), all user
/// pages and all tree pages taken from the frames free in `m0`.
pub open spec fn exec_image(m0: &PhysMem, m: &PhysMem, u: Uvm, img: Seq<u8>) -> bool {
    let np = pages_for(img.len() as int);
    let root = u.pagetree;
    &&& u.wf(m)
    &&& u.begin == USER_START
    &&& u.size == 4096 * (np + 2)
    &&& u.footprint(m).subset_of(m0.free())
    &&& forall|i: int|
        0 <= i < np ==> #[trigger] translate(m, root, page_va(USER_START, i)) == Some(
            leaf_pte((mapped_frame(m, root, page_va(USER_START, i)) * 4096) as u32, PTE_R | PTE_W | PTE_X | PTE_U),
        )
    &&& translate(m, root, page_va(USER_START, np)) == Some(
        leaf_pte((mapped_frame(m, root, page_va(USER_START, np)) * 4096) as u32, 0 | PTE_U),
    )
    &&& translate(m, root, page_va(USER_START, np + 1)) == Some(
        leaf_pte((mapped_frame(m, root, page_va(USER_START, np + 1)) * 4096) as u32, PTE_W | PTE_R | PTE_U),
    )
    &&& forall|i: int, j: int|
        0 <= i && 0 <= j < 4096 && 4096 * i + j < img.len() ==> #[trigger] m.byte(
            mapped_frame(m, root, page_va(USER_START, i)) * 4096 + j,
        ) == img[4096 * i + j]
}

impl Process {
    /// Replaces the process's user program by `img`: a new address space
    /// holding the image from `USER_START`, a guard page and a stack page
    /// above it; the stack pointer starts at its top, the program counter at
    /// `USER_START`, and `a0` is zero. The old address space is left as it
    /// is. Fails, leaving the process unchanged, when the allocator runs out
    /// of frames.
    #[verifier::spinoff_prover]
    #[verifier::rlimit(100)]
    pub fn kexec(&mut self, mem: &mut PhysMem, img: &[u8]) -> (res: Result<(), ()>)
        requires
            old(mem).wf(),
            USER_START + img@.len() + 3 * PAGESIZE <= user_top(),
        ensures
            only_free_changed(old(mem), final(mem)),
            res is Err ==> *final(self) == *old(self) && final(mem).free().len() <= pages_for(img@.len() as int) + 1,
            res is Err ==> old(mem).free().len() < 2 * (pages_for(img@.len() as int) + 2) + 1,
            res is Ok ==> {
                &&& final(self).pagetable matches Some(u) && exec_image(old(mem), final(mem), u, img@)
                    && final(self).trapframe == (Trapframe {
                    a0: 0,
                    sp: (USER_START + u.size) as u32,
                    epc: USER_START,
                    ..old(self).trapframe
                })
                &&& final(self).pid == old(self).pid
                &&& final(self).state == old(self).state
                &&& final(self).kstack == old(self).kstack
                &&& final(self).context == old(self).context
                &&& final(self).trapframe_page == old(self).trapframe_page
            },
    {
        let ghost m0 = *old(mem);
        let mut pagetree = match exec_text(mem, img) {
            Ok(u) => u,
            Err(()) => return Err(()),
        };
        let ghost m3 = *mem;
        let ghost u2 = pagetree;
        let ghost np = pages_for(img@.len() as int);
        let ghost root = u2.pagetree;
        proof {
            assert(0b100u32 | 0b10u32 < 0x400) by (bit_vector);
        }
        let _stack_base = pagetree.end();
        match pagetree.grow(mem, PAGESIZE, 0) {
            Ok(()) => {},
            Err(()) => {
                proof {
                    lemma_tree_growth_only_free(&m0, &m3, mem, root);
                    assert(pages_for(PAGESIZE as int) == 1);
                }
                return Err(());
            },
        }
        let ghost m4 = *mem;
        let ghost u4 = pagetree;
        proof {
            lemma_tree_growth_only_free(&m0, &m3, &m4, root);
            assert(u4.size == u2.size + 4096);
        }
        match pagetree.grow(mem, PAGESIZE, PTE_W | PTE_R) {
            Ok(()) => {},
            Err(()) => {
                proof {
                    lemma_tree_growth_only_free(&m0, &m4, mem, root);
                    assert(pages_for(PAGESIZE as int) == 1);
                }
                return Err(());
            },
        }
        let ghost m5 = *mem;
        proof {
            lemma_tree_growth_only_free(&m0, &m4, &m5, root);
            assert(pagetree.size == u2.size + 8192);
            lemma_exec_image(&m0, &m0, &m3, &m3, &m4, &m5, u2, u4, pagetree, img@);
            assert(pagetree.size == 4096 * (np + 2));
        }
        let sp = pagetree.end();
        self.trapframe.a0 = 0;
        self.pagetable = Some(pagetree);
        self.trapframe.sp = sp;
        self.trapframe.epc = USER_START;
        Ok(())
    }
}

/// The first part of `kexec`: a new address space holding `img` in pages
/// from `USER_START` on, readable, writable and executable, all taken from
/// the free frames.
fn exec_text(mem: &mut PhysMem, img: &[u8]) -> (res: Result<Uvm, ()>)
    requires
        old(mem).wf(),
        USER_START + img@.len() + 3 * PAGESIZE <= user_top(),
    ensures
        only_free_changed(old(mem), final(mem)),
        res is Err ==> final(mem).free().len() <= pages_for(img@.len() as int),
        res is Err ==> old(mem).free().len() < 2 * pages_for(img@.len() as int) + 1,
        res is Ok ==> old(mem).free().len() <= final(mem).free().len() + 2 * pages_for(img@.len() as int) + 1,
        res matches Ok(u) ==> {
            &&& u.wf(final(mem))
            &&& u.begin == USER_START
            &&& u.size == 4096 * pages_for(img@.len() as int)
            &&& tree_frames(final(mem), u.pagetree).subset_of(old(mem).free())
            &&& forall|k: int|
                0 <= k < u.npages() ==> {
                    &&& #[trigger] translate(final(mem), u.pagetree, page_va(u.begin, k)) == Some(
                        leaf_pte(
                            (mapped_frame(final(mem), u.pagetree, page_va(u.begin, k)) * 4096) as u32,
                            PTE_R | PTE_W | PTE_X | PTE_U,
                        ),
                    )
                    &&& old(mem).free().contains(mapped_frame(final(mem), u.pagetree, page_va(u.begin, k)))
                }
            &&& forall|i: int, j: int|
                0 <= i && 0 <= j < 4096 && 4096 * i + j < img@.len() ==> #[trigger] final(mem).byte(
                    mapped_frame(final(mem), u.pagetree, page_va(USER_START, i)) * 4096 + j,
                ) == img@[4096 * i + j]
        },
{
    let ghost m0 = *old(mem);
        let mut pagetree = match Uvm::new(mem) {
            Ok(u) => u,
            Err(()) => {
                proof {
                    assert(m0.free().len() == 0);
                }
                return Err(());
            },
        };
        let ghost m1 = *mem;
        let ghost u1 = pagetree;
        proof {
            vstd::set::axiom_set_remove_len(m0.free(), frame_of(u1.pagetree as int));
            assert(only_free_changed(&m0, &m1)) by {
                assert forall|pa: int|
                    #![trigger m0.byte(pa)]
                    m1.in_ram(pa, 1) && !m0.free().contains(frame_of(pa)) implies m1.byte(pa) == m0.byte(pa) by {
                    assert(!set![frame_of(u1.pagetree as int)].contains(frame_of(pa)));
                }
            }
        }
        let len = img.len() as u32;
        assert(0b10u32 | 0b100u32 | 0b1000u32 < 0x400) by (bit_vector);
        assert(0b100u32 | 0b10u32 < 0x400) by (bit_vector);
        match pagetree.alloc_pages(mem, len, PTE_R | PTE_W | PTE_X) {
            Ok(()) => {},
            Err(()) => {
                proof {
                    lemma_tree_growth_only_free(&m0, &m1, mem, u1.pagetree);
                }
                return Err(());
            },
        }
        let ghost m2 = *mem;
        let ghost u2 = pagetree;
        let ghost np = pages_for(img@.len() as int);
        let ghost root = u1.pagetree;
        proof {
            lemma_tree_growth_only_free(&m0, &m1, &m2, root);
            assert(len == img@.len());
            assert(u2.size == 4096 * np) by (nonlinear_arith)
                requires
                    u2.size % 4096 == 0,
                    u2.size >= len,
                    u2.size == 0 || u2.size < len + 4096,
                    np == (len + 4095) / 4096,
            {}
        }
        match pagetree.load(mem, USER_START, img) {
            Ok(()) => {},
            Err(()) => {
                return Err(());
            },
        }
        let ghost m3 = *mem;
        proof {
            lemma_load_only_free(&m0, &m2, &m3, u2, np);
        }
        proof {
            assert(m1.free().subset_of(m0.free()));
            assert(tree_frames(&m3, root).subset_of(m0.free()));
            assert forall|k: int| 0 <= k < u2.npages() implies {
                &&& #[trigger] translate(&m3, root, page_va(u2.begin, k)) == Some(
                    leaf_pte(
                        (mapped_frame(&m3, root, page_va(u2.begin, k)) * 4096) as u32,
                        PTE_R | PTE_W | PTE_X | PTE_U,
                    ),
                )
                &&& m0.free().contains(mapped_frame(&m3, root, page_va(u2.begin, k)))
            } by {
                assert(translate(&m3, root, page_va(u2.begin, k)) == translate(&m2, root, page_va(u2.begin, k)));
            }
            assert forall|i: int, j: int|
                0 <= i && 0 <= j < 4096 && 4096 * i + j < img@.len() implies #[trigger] m3.byte(
                    mapped_frame(&m3, root, page_va(USER_START, i)) * 4096 + j,
                ) == img@[4096 * i + j] by {
                assert(translate(&m3, root, page_va(USER_START, i)) == translate(&m2, root, page_va(USER_START, i)));
            }
        }
        Ok(pagetree)
}

/// Loading into user pages that came from `m0`'s free frames changes only
/// such frames.
proof fn lemma_load_only_free(m0: &PhysMem, m2: &PhysMem, m3: &PhysMem, u: Uvm, np: int)
    requires
        only_free_changed(m0, m2),
        u.npages() == np,
        forall|k: int|
            0 <= k < np ==> m0.free().contains(
                #[trigger] mapped_frame(m2, u.pagetree, page_va(u.begin, k)),
            ),
        m3.wf(),
        m3.same_range(m2),
        m3.free() == m2.free(),
        m3.agree_except_frames(m2, crate::pagetable::range_frames(m2, u.pagetree, u.begin, np)),
    ensures
        only_free_changed(m0, m3),
{
    assert forall|pa: int|
        #![trigger m0.byte(pa)]
        m3.in_ram(pa, 1) && !m0.free().contains(frame_of(pa)) implies m3.byte(pa) == m0.byte(pa) by {
        if crate::pagetable::range_frames(m2, u.pagetree, u.begin, np).contains(frame_of(pa)) {
            let k = choose|k: int|
                0 <= k < np && frame_of(pa) == #[trigger] mapped_frame(m2, u.pagetree, page_va(u.begin, k));
        }
        assert(m3.byte(pa) == m2.byte(pa));
    }
}

/// The address space that `kexec` builds, step by step, ends as
/// `exec_image` describes.
#[verifier::spinoff_prover]
#[verifier::rlimit(50)]
proof fn lemma_exec_image(
    m0: &PhysMem,
    m1: &PhysMem,
    m2: &PhysMem,
    m3: &PhysMem,
    m4: &PhysMem,
    m5: &PhysMem,
    u2: Uvm,
    u4: Uvm,
    u5: Uvm,
    img: Seq<u8>,
)
    requires
        USER_START + img.len() + 3 * PAGESIZE <= user_top(),
        u2.begin == USER_START,
        u4.begin == USER_START,
        u5.begin == USER_START,
        u4.pagetree == u2.pagetree,
        u5.pagetree == u2.pagetree,
        u2.size == 4096 * pages_for(img.len() as int),
        u4.size == u2.size + 4096,
        u5.size == u2.size + 8192,
        only_free_changed(m0, m1),
        m2.free().subset_of(m1.free()),
        forall|k: int|
            0 <= k < u2.npages() ==> {
                &&& #[trigger] translate(m2, u2.pagetree, page_va(u2.begin, k)) == Some(
                    leaf_pte(
                        (mapped_frame(m2, u2.pagetree, page_va(u2.begin, k)) * 4096) as u32,
                        PTE_R | PTE_W | PTE_X | PTE_U,
                    ),
                )
                &&& m1.free().contains(mapped_frame(m2, u2.pagetree, page_va(u2.begin, k)))
            },
        m3.free() == m2.free(),
        forall|v: u32| #[trigger] translate(m3, u2.pagetree, v) == translate(m2, u2.pagetree, v),
        forall|i: int, j: int|
            0 <= i && 0 <= j < 4096 && 4096 * i + j < img.len() ==> #[trigger] m3.byte(
                mapped_frame(m2, u2.pagetree, page_va(USER_START, i)) * 4096 + j,
            ) == img[4096 * i + j],
        forall|va: u32|
            !(vpage(u2.begin) + u2.npages() <= vpage(va)
                < vpage(u2.begin) + u4.npages()) ==> #[trigger] translate(m4, u2.pagetree, va)
                == translate(m3, u2.pagetree, va),
        forall|k: int|
            u2.npages() <= k < u4.npages() ==> {
                &&& #[trigger] translate(m4, u2.pagetree, page_va(u2.begin, k)) == Some(
                    leaf_pte((mapped_frame(m4, u2.pagetree, page_va(u2.begin, k)) * 4096) as u32, 0 | PTE_U),
                )
                &&& m3.free().contains(mapped_frame(m4, u2.pagetree, page_va(u2.begin, k)))
            },
        crate::vm::tree_grows(m3, m4, u2.pagetree),
        forall|va: u32|
            !(vpage(u4.begin) + u4.npages() <= vpage(va)
                < vpage(u4.begin) + u5.npages()) ==> #[trigger] translate(m5, u2.pagetree, va)
                == translate(m4, u2.pagetree, va),
        forall|k: int|
            u4.npages() <= k < u5.npages() ==> {
                &&& #[trigger] translate(m5, u2.pagetree, page_va(u4.begin, k)) == Some(
                    leaf_pte(
                        (mapped_frame(m5, u2.pagetree, page_va(u4.begin, k)) * 4096) as u32,
                        PTE_W | PTE_R | PTE_U,
                    ),
                )
                &&& m4.free().contains(mapped_frame(m5, u2.pagetree, page_va(u4.begin, k)))
            },
        crate::vm::tree_grows(m4, m5, u2.pagetree),
        u5.wf(m5),
        only_free_changed(m0, m5),
        tree_frames(m5, u2.pagetree).subset_of(m0.free()),
    ensures
        exec_image(m0, m5, u5, img),
{
    let root = u2.pagetree;
    let np = pages_for(img.len() as int);
    assert(u2.npages() == np);
    assert(u4.npages() == np + 1);
    assert(u5.npages() == np + 2);
    assert forall|k: int| 0 <= k < np + 2 implies vpage(#[trigger] page_va(USER_START, k)) == vpage(
        USER_START,
    ) + k by {
        assert(USER_START + 4096 * k <= u32::MAX);
        crate::pagetable::lemma_vpage_step(USER_START, k);
    }
    // image pages keep their translation to the end
    assert forall|k: int| 0 <= k < np implies #[trigger] translate(m5, root, page_va(USER_START, k))
        == translate(m2, root, page_va(USER_START, k)) by {
        assert(vpage(page_va(USER_START, k)) == vpage(USER_START) + k);
        assert(translate(m3, root, page_va(USER_START, k)) is Some);
        assert(translate(m4, root, page_va(USER_START, k)) == translate(m3, root, page_va(USER_START, k)));
    }
    assert(vpage(page_va(USER_START, np)) == vpage(USER_START) + np);
    assert(translate(m5, root, page_va(USER_START, np)) == translate(m4, root, page_va(USER_START, np)));
    // frames of the user pages came from m0's free frames
    assert forall|k: int| 0 <= k < np + 2 implies m0.free().contains(
        #[trigger] mapped_frame(m5, root, page_va(USER_START, k)),
    ) by {
        if k < np {
            assert(mapped_frame(m5, root, page_va(USER_START, k)) == mapped_frame(m2, root, page_va(USER_START, k)));
        } else if k == np {
            assert(mapped_frame(m5, root, page_va(USER_START, k)) == mapped_frame(m4, root, page_va(USER_START, k)));
        }
    }
    assert(u5.footprint(m5).subset_of(m0.free())) by {
        assert forall|f: int| u5.footprint(m5).contains(f) implies m0.free().contains(f) by {
            if crate::pagetable::range_frames(m5, root, USER_START, np + 2).contains(f) {
                let k = choose|k: int|
                    0 <= k < np + 2 && f == #[trigger] mapped_frame(m5, root, page_va(USER_START, k));
            }
        }
    }
    // image bytes survive the two grows, which write only tree pages
    assert forall|i: int, j: int|
        0 <= i && 0 <= j < 4096 && 4096 * i + j < img.len() implies #[trigger] m5.byte(
        mapped_frame(m5, root, page_va(USER_START, i)) * 4096 + j,
    ) == img[4096 * i + j] by {
        assert(i < np) by (nonlinear_arith)
            requires
                0 <= j,
                4096 * i + j < img.len(),
                np == (img.len() + 4095) / 4096,
        ;
        let f = mapped_frame(m2, root, page_va(USER_START, i));
        assert(mapped_frame(m5, root, page_va(USER_START, i)) == f);
        assert(!tree_frames(m5, root).contains(f));
        assert(m5.managed().contains(f));
        crate::physmem::lemma_managed_page(m5, f);
        crate::pagetable::lemma_frame_of(f * 4096, f * 4096 + j);
        assert(m5.in_ram(f * 4096 + j, 1));
        assert(!tree_frames(m4, root).contains(f));
        assert(m5.byte(f * 4096 + j) == m4.byte(f * 4096 + j));
        assert(m4.byte(f * 4096 + j) == m3.byte(f * 4096 + j));
    }
}

/// Growing a tree whose pages all came from `m0`'s free frames changes only
/// such frames.
proof fn lemma_tree_growth_only_free(m0: &PhysMem, m1: &PhysMem, m2: &PhysMem, root: u32)
    requires
        only_free_changed(m0, m1),
        tree_frames(m1, root).subset_of(m0.free()),
        m2.wf(),
        m2.same_range(m1),
        m2.free().subset_of(m1.free()),
        tree_frames(m2, root).subset_of(tree_frames(m1, root).union(m1.free())),
        m2.agree_except_frames(m1, tree_frames(m2, root)),
    ensures
        only_free_changed(m0, m2),
        tree_frames(m2, root).subset_of(m0.free()),
{
    assert forall|pa: int|
        #![trigger m0.byte(pa)]
        m2.in_ram(pa, 1) && !m0.free().contains(frame_of(pa)) implies m2.byte(pa) == m0.byte(pa) by {
        assert(!tree_frames(m2, root).contains(frame_of(pa)));
        assert(m2.byte(pa) == m1.byte(pa));
    }
}

/// The `sstatus` value for returning to user mode: interrupts off until
/// then, previous mode user, and interrupts enabled once there.
pub open spec fn user_return_sstatus(sstatus: u32) -> u32 {
    ((sstatus & !SSTATUS_SIE) & !SSTATUS_SPP) | SSTATUS_SPIE
}

/// The `sstatus` for the return to user mode has SPP (bit 8) clear, so
/// `sret` goes to user mode, SPIE (bit 5) set, so interrupts are on there,
/// SIE (bit 1) clear until then, and every other bit as it was.
pub proof fn law_user_return_sstatus(sstatus: u32)
    ensures
        user_return_sstatus(sstatus) & 0x100 == 0,
        user_return_sstatus(sstatus) & 0x20 == 0x20,
        user_return_sstatus(sstatus) & 0x2 == 0,
        user_return_sstatus(sstatus) & !0x122u32 == sstatus & !0x122u32,
{
    assert(1u32 << 8u32 == 0x100u32 && 1u32 << 5u32 == 0x20u32) by (bit_vector);
    assert(SSTATUS_SIE == 2u32);
    let r = ((sstatus & !2u32) & !0x100u32) | 0x20u32;
    assert(r & 0x100u32 == 0 && r & 0x20u32 == 0x20u32 && r & 0x2u32 == 0 && r & !0x122u32 == sstatus & !0x122u32)
        by (bit_vector)
        requires
            r == ((sstatus & !2u32) & !0x100u32) | 0x20u32,
    ;
}

/// Where a symbol of the trampoline code appears in every address space:
/// at its offset from the start of the code, from `TRAMPOLINE` on.
pub fn trampoline_addr(sym: u32, trampoline: u32) -> (res: u32)
    requires
        trampoline <= sym,
        TRAMPOLINE + (sym - trampoline) <= u32::MAX,
    ensures
        res == TRAMPOLINE + (sym - trampoline),
{
    TRAMPOLINE + (sym - trampoline)
}

/// The registers to install for a return to user mode.
pub struct UserReturn {
    /// Trap vector: the trampoline's `uservec`.
    pub stvec: u32,
    /// Status: previous mode user, interrupts on once there.
    pub sstatus: u32,
    /// The user program counter.
    pub sepc: u32,
}

/// Prepares the process's trap frame for a return to user mode: the kernel
/// page table and stack and the trap handler that the next trap into the
/// kernel uses, on hart 0; the frame is then written into its page, where
/// the trampoline reads it. Returns the registers to install: the trap vector
/// at the trampoline's `uservec` (`uservec` and `trampoline` are the
/// addresses of the symbol and of the code in the kernel's text), the
/// `sstatus` value made from the current one (interrupts off, previous mode
/// user, interrupts on after the return), and the user program counter saved
/// in the trap frame.
pub fn prepare_return(
    proc: &mut Process,
    mem: &mut PhysMem,
    kernel_satp: u32,
    trap_handler: u32,
    sstatus: u32,
    uservec: u32,
    trampoline: u32,
) -> (res: UserReturn)
    requires
        old(proc).kstack + KERNEL_STACK_PAGES * PAGESIZE <= u32::MAX,
        trampoline <= uservec,
        TRAMPOLINE + (uservec - trampoline) <= u32::MAX,
        old(mem).wf(),
        old(mem).is_ram_page(old(proc).trapframe_page as int),
    ensures
        final(mem).wf(),
        final(mem).same_range(old(mem)),
        final(mem).free() == old(mem).free(),
        final(mem).agree_outside(old(mem), old(proc).trapframe_page as int, old(proc).trapframe_page + TRAPFRAME_SIZE),
        final(mem).agree_except_frames(old(mem), set![frame_of(old(proc).trapframe_page as int)]),
        trapframe_stored(final(mem), old(proc).trapframe_page as int, final(proc).trapframe),
        res.stvec == TRAMPOLINE + (uservec - trampoline),
        res.sstatus == user_return_sstatus(sstatus),
        res.sstatus & 0x100 == 0 && res.sstatus & 0x20 == 0x20 && res.sstatus & 0x2 == 0,
        res.sstatus & !0x122u32 == sstatus & !0x122u32,
        res.sepc == old(proc).trapframe.epc,
        final(proc).trapframe == (Trapframe {
            kernel_satp: kernel_satp,
            kernel_sp: (old(proc).kstack + KERNEL_STACK_PAGES * PAGESIZE) as u32,
            trap_handler: trap_handler,
            hartid: 0,
            ..old(proc).trapframe
        }),
        final(proc).pid == old(proc).pid,
        final(proc).state == old(proc).state,
        final(proc).kstack == old(proc).kstack,
        final(proc).pagetable == old(proc).pagetable,
        final(proc).context == old(proc).context,
        final(proc).trapframe_page == old(proc).trapframe_page,
{
    proof {
        law_user_return_sstatus(sstatus);
    }
    let stvec = trampoline_addr(uservec, trampoline);
    proc.trapframe.kernel_satp = kernel_satp;
    proc.trapframe.kernel_sp = proc.kstack + KERNEL_STACK_PAGES * PAGESIZE;
    proc.trapframe.trap_handler = trap_handler;
    proc.trapframe.hartid = 0;
    let mut sstatus = sstatus & !SSTATUS_SIE;
    sstatus = sstatus & !SSTATUS_SPP;
    sstatus = sstatus | SSTATUS_SPIE;
    let ghost m0 = *mem;
    store_trapframe(mem, proc.trapframe_page, &proc.trapframe);
    proof {
        let page = proc.trapframe_page as int;
        assert forall|pa: int|
            #![trigger m0.byte(pa)]
            mem.in_ram(pa, 1) && !set![frame_of(page)].contains(pa / (PAGESIZE as int)) implies mem.byte(pa)
            == m0.byte(pa) by {
            if page <= pa < page + TRAPFRAME_SIZE {
                crate::pagetable::lemma_frame_of(page, pa);
            }
        }
    }
    UserReturn { stvec, sstatus, sepc: proc.trapframe.epc }
}

/// What a new process does on its first run: `prepare_return`, then the
/// `satp` value of its address space, handed to the trampoline's `userret`
/// (returned here as its address in every address space).
pub struct ForkReturn {
    pub regs: UserReturn,
    pub user_satp: u32,
    pub userret: u32,
}

/// The first return of a new process to user mode (see `prepare_return`);
/// `userret` is the address of that trampoline symbol in the kernel's text.
pub fn forkret(
    proc: &mut Process,
    mem: &mut PhysMem,
    kernel_satp: u32,
    trap_handler: u32,
    sstatus: u32,
    uservec: u32,
    userret: u32,
    trampoline: u32,
) -> (res: ForkReturn)
    requires
        old(proc).pagetable is Some,
        old(proc).kstack + KERNEL_STACK_PAGES * PAGESIZE <= u32::MAX,
        trampoline <= uservec,
        TRAMPOLINE + (uservec - trampoline) <= u32::MAX,
        trampoline <= userret,
        TRAMPOLINE + (userret - trampoline) <= u32::MAX,
        old(mem).wf(),
        old(mem).is_ram_page(old(proc).trapframe_page as int),
    ensures
        final(mem).wf(),
        final(mem).same_range(old(mem)),
        final(mem).free() == old(mem).free(),
        final(mem).agree_outside(old(mem), old(proc).trapframe_page as int, old(proc).trapframe_page + TRAPFRAME_SIZE),
        final(mem).agree_except_frames(old(mem), set![frame_of(old(proc).trapframe_page as int)]),
        trapframe_stored(final(mem), old(proc).trapframe_page as int, final(proc).trapframe),
        res.regs.stvec == TRAMPOLINE + (uservec - trampoline),
        res.regs.sstatus == user_return_sstatus(sstatus),
        res.regs.sstatus & 0x100 == 0 && res.regs.sstatus & 0x20 == 0x20 && res.regs.sstatus & 0x2 == 0,
        res.regs.sstatus & !0x122u32 == sstatus & !0x122u32,
        res.regs.sepc == old(proc).trapframe.epc,
        res.user_satp == satp_encode(1, 0, old(proc).pagetable.unwrap().pagetree >> 12u32),
        res.userret == TRAMPOLINE + (userret - trampoline),
        final(proc).trapframe == (Trapframe {
            kernel_satp: kernel_satp,
            kernel_sp: (old(proc).kstack + KERNEL_STACK_PAGES * PAGESIZE) as u32,
            trap_handler: trap_handler,
            hartid: 0,
            ..old(proc).trapframe
        }),
        final(proc).pid == old(proc).pid,
        final(proc).state == old(proc).state,
        final(proc).kstack == old(proc).kstack,
        final(proc).pagetable == old(proc).pagetable,
        final(proc).context == old(proc).context,
        final(proc).trapframe_page == old(proc).trapframe_page,
{
    let regs = prepare_return(proc, mem, kernel_satp, trap_handler, sstatus, uservec, trampoline);
    proof {
        law_user_return_sstatus(sstatus);
    }
    let user_satp = proc.pagetable.unwrap().get_satp().into();
    let userret = trampoline_addr(userret, trampoline);
    ForkReturn { regs, user_satp, userret }
}

} // verus!
