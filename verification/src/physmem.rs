//! Physical memory: the bytes of the RAM the kernel manages and the buddy
//! allocator that hands out its page frames.

use vstd::prelude::*;
use vstd::set_lib::set_int_range;
use buddy_system_allocator::FrameAllocator;
use crate::frames::{
    blocks_ok, covered, frame_blocks, frame_counts, frames_add, frames_alloc, frames_dealloc,
    frames_new,
};
use crate::layout::PAGESIZE;

verus! {

/// The frame that holds physical address `pa`.
pub open spec fn frame_of(pa: int) -> int {
    pa / (PAGESIZE as int)
}

/// The 32-bit little-endian word made of four bytes.
pub open spec fn le_word(b0: u8, b1: u8, b2: u8, b3: u8) -> u32 {
    (b0 as u32) | ((b1 as u32) << 8u32) | ((b2 as u32) << 16u32) | ((b3 as u32) << 24u32)
}

/// Splitting a word into its four little-endian bytes and joining them back
/// gives the word.
pub proof fn lemma_le_word_bytes(v: u32)
    ensures
        le_word((v & 0xff) as u8, ((v >> 8u32) & 0xff) as u8, ((v >> 16u32) & 0xff) as u8, ((v
            >> 24u32) & 0xff) as u8) == v,
{
    assert(((v & 0xff) as u8 as u32) | ((((v >> 8u32) & 0xff) as u8 as u32) << 8u32) | ((((v
        >> 16u32) & 0xff) as u8 as u32) << 16u32) | ((((v >> 24u32) & 0xff) as u8 as u32) << 24u32)
        == v) by (bit_vector);
}

/// RAM from `base` on, byte by byte, and the allocator of its page frames.
/// Frame `f` is the page at physical address `f * PAGESIZE`.
pub struct PhysMem {
    base: u32,
    ram: Vec<u8>,
    frames: FrameAllocator<32>,
}

impl PhysMem {
    /// Physical address of the first byte of RAM.
    pub closed spec fn base(&self) -> int {
        self.base as int
    }

    /// Size of RAM in bytes.
    pub closed spec fn size(&self) -> int {
        self.ram@.len() as int
    }

    /// The bytes of RAM, the first at `base()`.
    pub closed spec fn bytes(&self) -> Seq<u8> {
        self.ram@
    }

    /// The frames that the allocator holds free.
    pub closed spec fn free(&self) -> Set<int> {
        covered(frame_blocks(self.frames))
    }

    /// The allocator's own bookkeeping is consistent with its free frames.
    pub closed spec fn allocator_ok(&self) -> bool {
        &&& blocks_ok(frame_blocks(self.frames))
        &&& frame_counts(self.frames).1 == self.end_frame() - self.first_frame()
        &&& frame_counts(self.frames).0 + self.free().len() == frame_counts(self.frames).1
    }

    pub open spec fn byte(&self, pa: int) -> u8 {
        self.bytes()[pa - self.base()]
    }

    /// The little-endian word at physical address `pa`.
    pub open spec fn word(&self, pa: int) -> u32 {
        le_word(self.byte(pa), self.byte(pa + 1), self.byte(pa + 2), self.byte(pa + 3))
    }

    /// `[pa, pa + n)` lies in RAM.
    pub open spec fn in_ram(&self, pa: int, n: int) -> bool {
        self.base() <= pa && pa + n <= self.base() + self.size()
    }

    /// `pa` is the first address of a page of RAM.
    pub open spec fn is_ram_page(&self, pa: int) -> bool {
        pa % (PAGESIZE as int) == 0 && self.in_ram(pa, PAGESIZE as int)
    }

    pub open spec fn first_frame(&self) -> int {
        self.base() / (PAGESIZE as int)
    }

    pub open spec fn end_frame(&self) -> int {
        (self.base() + self.size()) / (PAGESIZE as int)
    }

    /// The frames of RAM, all of them managed by the allocator.
    pub open spec fn managed(&self) -> Set<int> {
        set_int_range(self.first_frame(), self.end_frame())
    }

    /// Well formed: RAM is made of whole pages inside the 32-bit address
    /// space, and every free frame is a frame of RAM.
    pub open spec fn wf(&self) -> bool {
        &&& self.base() % (PAGESIZE as int) == 0
        &&& self.size() % (PAGESIZE as int) == 0
        &&& self.base() + self.size() <= u32::MAX
        &&& self.free().finite()
        &&& self.free().subset_of(self.managed())
        &&& self.allocator_ok()
    }

    /// The two memories have the same RAM range.
    pub open spec fn same_range(&self, other: &PhysMem) -> bool {
        self.base() == other.base() && self.size() == other.size()
    }

    /// The bytes of the two memories agree outside `[lo, hi)`.
    pub open spec fn agree_outside(&self, other: &PhysMem, lo: int, hi: int) -> bool {
        forall|pa: int|
            #![trigger other.byte(pa)]
            self.in_ram(pa, 1) && !(lo <= pa < hi) ==> self.byte(pa) == other.byte(pa)
    }

    /// The bytes of the two memories agree everywhere.
    pub open spec fn same_bytes(&self, other: &PhysMem) -> bool {
        self.bytes() == other.bytes()
    }

    /// The bytes of the two memories agree everywhere except in the pages of
    /// the frames in `fs`.
    pub open spec fn agree_except_frames(&self, other: &PhysMem, fs: Set<int>) -> bool {
        forall|pa: int|
            #![trigger other.byte(pa)]
            self.in_ram(pa, 1) && !fs.contains(pa / (PAGESIZE as int)) ==> self.byte(pa)
                == other.byte(pa)
    }

    /// The bytes of the page of frame `f` agree in the two memories.
    pub open spec fn agree_on_frame(&self, other: &PhysMem, f: int) -> bool {
        forall|pa: int|
            #![trigger other.byte(pa)]
            f * (PAGESIZE as int) <= pa < f * (PAGESIZE as int) + PAGESIZE ==> self.byte(pa)
                == other.byte(pa)
    }

    /// RAM of `npages` zeroed pages from `base`, with every frame free:
    /// `base` and the size are what the kernel hands its allocator at boot.
    pub fn new(base: u32, npages: u32) -> (res: PhysMem)
        requires
            base % PAGESIZE == 0,
            base + npages * PAGESIZE <= u32::MAX,
        ensures
            res.wf(),
            res.base() == base,
            res.size() == npages * PAGESIZE,
            res.free() == res.managed(),
            forall|pa: int| res.in_ram(pa, 1) ==> #[trigger] res.byte(pa) == 0,
    {
        let size: usize = npages as usize * PAGESIZE as usize;
        let ram: Vec<u8> = vec![0u8; size];
        let mut frames = frames_new();
        let first: usize = (base / PAGESIZE) as usize;
        let end: usize = first + npages as usize;
        proof {
            assert(covered(Set::<(usize, usize)>::empty()) =~= Set::<int>::empty());
            assert forall|b1: (usize, usize), b2: (usize, usize), f: int|
                #![trigger Set::<(usize, usize)>::empty().contains(b1), Set::<(usize, usize)>::empty().contains(b2), crate::frames::block_covers(b1, f), crate::frames::block_covers(b2, f)]
                Set::<(usize, usize)>::empty().contains(b1) && Set::<(usize, usize)>::empty().contains(
                    b2,
                ) && crate::frames::block_covers(b1, f) && crate::frames::block_covers(b2, f)
                implies b1 == b2 by {}
            assert(blocks_ok(Set::<(usize, usize)>::empty()));
        }
        frames_add(&mut frames, first, end);
        let res = PhysMem { base, ram, frames };
        proof {
            assert(res.free() =~= set_int_range(first as int, end as int));
            vstd::set_lib::lemma_int_range(first as int, end as int);
            assert(res.first_frame() == first);
            assert(res.end_frame() == end);
            assert forall|pa: int| res.in_ram(pa, 1) implies #[trigger] res.byte(pa) == 0 by {
                let i = pa - res.base();
                assert(vstd::pervasive::cloned(0u8, ram@[i]));
            }
        }
        res
    }

    /// Reads the word at `pa`.
    pub fn read_u32(&self, pa: u32) -> (res: u32)
        requires
            self.wf(),
            self.in_ram(pa as int, 4),
        ensures
            res == self.word(pa as int),
    {
        let i: usize = (pa - self.base) as usize;
        let b0 = self.ram[i];
        let b1 = self.ram[i + 1];
        let b2 = self.ram[i + 2];
        let b3 = self.ram[i + 3];
        (b0 as u32) | ((b1 as u32) << 8u32) | ((b2 as u32) << 16u32) | ((b3 as u32) << 24u32)
    }

    /// Writes the word `v` at `pa`, little-endian.
    pub fn write_u32(&mut self, pa: u32, v: u32)
        requires
            old(self).wf(),
            old(self).in_ram(pa as int, 4),
        ensures
            final(self).wf(),
            final(self).same_range(old(self)),
            final(self).free() == old(self).free(),
            final(self).word(pa as int) == v,
            final(self).agree_outside(old(self), pa as int, pa + 4),
    {
        let i: usize = (pa - self.base) as usize;
        self.ram.set(i, (v & 0xff) as u8);
        self.ram.set(i + 1, ((v >> 8u32) & 0xff) as u8);
        self.ram.set(i + 2, ((v >> 16u32) & 0xff) as u8);
        self.ram.set(i + 3, ((v >> 24u32) & 0xff) as u8);
        proof {
            lemma_le_word_bytes(v);
        }
    }

    /// Copies `count` bytes of `data`, from index `from` on, into RAM from
    /// `pa` on.
    pub fn write_bytes(&mut self, pa: u32, data: &[u8], from: usize, count: usize)
        requires
            old(self).wf(),
            old(self).in_ram(pa as int, count as int),
            from + count <= data@.len(),
        ensures
            final(self).wf(),
            final(self).same_range(old(self)),
            final(self).free() == old(self).free(),
            forall|k: int| 0 <= k < count ==> #[trigger] final(self).byte(pa + k) == data@[from + k],
            final(self).agree_outside(old(self), pa as int, pa + count),
    {
        let start: usize = (pa - self.base) as usize;
        let len = data.len();
        let mut k: usize = 0;
        while k < count
            invariant
                0 <= k <= count,
                len == data@.len(),
                from + count <= data@.len(),
                self.wf(),
                self.same_range(old(self)),
                self.free() == old(self).free(),
                start == pa - self.base(),
                self.in_ram(pa as int, count as int),
                forall|j: int| 0 <= j < k ==> #[trigger] self.byte(pa + j) == data@[from + j],
                self.agree_outside(old(self), pa as int, pa + k),
            decreases count - k,
        {
            let ghost prev = *self;
            self.ram.set(start + k, data[from + k]);
            proof {
                assert forall|j: int| 0 <= j < k + 1 implies #[trigger] self.byte(pa + j)
                    == data@[from + j] by {
                    if j < k {
                        assert(prev.byte(pa + j) == data@[from + j]);
                        assert(self.bytes()[start + j] == prev.bytes()[start + j]);
                    } else {
                        assert(self.bytes()[start + k] == data@[from + k]);
                    }
                }
                assert forall|q: int|
                    #![trigger old(self).byte(q)]
                    self.in_ram(q, 1) && !(pa <= q < pa + k + 1) implies self.byte(q) == old(self).byte(q) by {
                    assert(prev.byte(q) == old(self).byte(q));
                }
            }
            k = k + 1;
        }
    }

    /// Fills the page at `pa` with zero bytes.
    pub fn zero_page(&mut self, pa: u32)
        requires
            old(self).wf(),
            old(self).is_ram_page(pa as int),
        ensures
            final(self).wf(),
            final(self).same_range(old(self)),
            final(self).free() == old(self).free(),
            forall|k: int| 0 <= k < PAGESIZE ==> #[trigger] final(self).byte(pa + k) == 0,
            final(self).agree_outside(old(self), pa as int, pa + PAGESIZE),
    {
        let start: usize = (pa - self.base) as usize;
        let mut k: usize = 0;
        while k < PAGESIZE as usize
            invariant
                0 <= k <= PAGESIZE,
                self.wf(),
                self.same_range(old(self)),
                self.free() == old(self).free(),
                start == pa - self.base(),
                self.in_ram(pa as int, PAGESIZE as int),
                forall|j: int| 0 <= j < k ==> #[trigger] self.byte(pa + j) == 0,
                self.agree_outside(old(self), pa as int, pa + k),
            decreases PAGESIZE - k,
        {
            let ghost prev = *self;
            self.ram.set(start + k, 0u8);
            proof {
                assert forall|j: int| 0 <= j < k + 1 implies #[trigger] self.byte(pa + j) == 0 by {
                    if j < k {
                        assert(prev.byte(pa + j) == 0);
                        assert(self.bytes()[start + j] == prev.bytes()[start + j]);
                    } else {
                        assert(self.bytes()[start + k] == 0);
                    }
                }
                assert forall|q: int|
                    #![trigger old(self).byte(q)]
                    self.in_ram(q, 1) && !(pa <= q < pa + k + 1) implies self.byte(q) == old(self).byte(q) by {
                    assert(prev.byte(q) == old(self).byte(q));
                }
            }
            k = k + 1;
        }
    }

    /// Whether the page at `pa` is a whole page of RAM.
    pub fn holds_page(&self, pa: u32) -> (res: bool)
        ensures
            res == self.is_ram_page(pa as int),
    {
        pa % PAGESIZE == 0 && pa >= self.base && ((pa - self.base) as usize) <= self.ram.len()
            && self.ram.len() - ((pa - self.base) as usize) >= PAGESIZE as usize
    }

    /// Takes a free frame from the allocator and returns the physical
    /// address of its page, or `None` when no frame is free. RAM is not
    /// touched: the page keeps whatever bytes it held.
    pub fn alloc_frame(&mut self) -> (res: Option<u32>)
        requires
            old(self).wf(),
        ensures
            final(self).wf(),
            final(self).same_range(old(self)),
            final(self).same_bytes(old(self)),
            res is None ==> old(self).free().is_empty() && final(self).free() == old(self).free(),
            res matches Some(pa) ==> {
                &&& pa % PAGESIZE == 0
                &&& final(self).is_ram_page(pa as int)
                &&& old(self).free().contains((pa / PAGESIZE) as int)
                &&& final(self).free() == old(self).free().remove((pa / PAGESIZE) as int)
            },
    {
        proof {
            vstd::set_lib::lemma_int_range(self.first_frame(), self.end_frame());
            vstd::set_lib::lemma_len_subset(self.free(), self.managed());
        }
        let r = frames_alloc(&mut self.frames);
        match r {
            None => {
                proof {
                    assert(self.free() =~= Set::<int>::empty());
                }
                None
            },
            Some(f) => {
                proof {
                    assert(self.managed().contains(f as int));
                }
                let pa = (f as u32) * PAGESIZE;
                proof {
                    assert(pa / PAGESIZE == f);
                }
                Some(pa)
            },
        }
    }

    /// Gives the frame of the page at `pa` back to the allocator.
    pub fn free_frame(&mut self, pa: u32)
        requires
            old(self).wf(),
            pa % PAGESIZE == 0,
            old(self).managed().contains((pa / PAGESIZE) as int),
            !old(self).free().contains((pa / PAGESIZE) as int),
        ensures
            final(self).wf(),
            final(self).same_range(old(self)),
            final(self).same_bytes(old(self)),
            final(self).free() == old(self).free().insert((pa / PAGESIZE) as int),
    {
        proof {
            let f = (pa / PAGESIZE) as int;
            vstd::set_lib::lemma_int_range(self.first_frame(), self.end_frame());
            vstd::set_lib::lemma_len_subset(self.free(), self.managed().remove(f));
        }
        frames_dealloc(&mut self.frames, (pa / PAGESIZE) as usize);
    }
}

/// The page of a managed frame lies in RAM.
pub proof fn lemma_managed_page(mem: &PhysMem, f: int)
    requires
        mem.wf(),
        mem.managed().contains(f),
    ensures
        mem.is_ram_page(f * PAGESIZE as int),
        frame_of(f * PAGESIZE as int) == f,
{
    let b = mem.base();
    let e = mem.base() + mem.size();
    assert(f * 4096 >= b) by (nonlinear_arith)
        requires
            f >= b / 4096,
            b % 4096 == 0,
            b >= 0,
    {}
    assert(f * 4096 + 4096 <= e) by (nonlinear_arith)
        requires
            f < e / 4096,
            e % 4096 == 0,
            e >= 0,
    {}
    assert((f * 4096) % 4096 == 0) by (nonlinear_arith);
    assert((f * 4096) / 4096 == f) by (nonlinear_arith);
}

/// A word outside the range where two memories differ reads the same in
/// both.
pub proof fn lemma_word_outside(m1: &PhysMem, m2: &PhysMem, pa: int, lo: int, hi: int)
    requires
        m2.same_range(m1),
        m2.agree_outside(m1, lo, hi),
        m1.in_ram(pa, 4),
        pa + 4 <= lo || hi <= pa,
    ensures
        m2.word(pa) == m1.word(pa),
{
    assert(m2.byte(pa) == m1.byte(pa));
    assert(m2.byte(pa + 1) == m1.byte(pa + 1));
    assert(m2.byte(pa + 2) == m1.byte(pa + 2));
    assert(m2.byte(pa + 3) == m1.byte(pa + 3));
}

/// A word inside a page on which two memories agree reads the same in both.
pub proof fn lemma_word_in_frame(m1: &PhysMem, m2: &PhysMem, pa: int, f: int)
    requires
        m2.agree_on_frame(m1, f),
        f * (PAGESIZE as int) <= pa,
        pa + 4 <= f * (PAGESIZE as int) + PAGESIZE,
    ensures
        m2.word(pa) == m1.word(pa),
{
    assert(m2.byte(pa) == m1.byte(pa));
    assert(m2.byte(pa + 1) == m1.byte(pa + 1));
    assert(m2.byte(pa + 2) == m1.byte(pa + 2));
    assert(m2.byte(pa + 3) == m1.byte(pa + 3));
}

/// A read gives back what the last write to that word wrote, and a write
/// leaves every word that does not overlap it as it was.
pub proof fn law_read_after_write(m0: &PhysMem, m1: &PhysMem, pa: int, v: u32, qa: int)
    requires
        m0.wf(),
        m0.in_ram(pa, 4),
        m0.in_ram(qa, 4),
        m1.same_range(m0),
        m1.word(pa) == v,
        m1.agree_outside(m0, pa, pa + 4),
    ensures
        m1.word(pa) == v,
        qa + 4 <= pa || pa + 4 <= qa ==> m1.word(qa) == m0.word(qa),
{
    if qa + 4 <= pa || pa + 4 <= qa {
        lemma_word_outside(m0, m1, qa, pa, pa + 4);
    }
}

/// Two frames taken one after the other from the allocator are different,
/// and neither is free afterwards.
pub proof fn law_frames_handed_out_once(m0: &PhysMem, m1: &PhysMem, m2: &PhysMem, f1: int, f2: int)
    requires
        m0.free().contains(f1),
        m1.free() == m0.free().remove(f1),
        m1.free().contains(f2),
        m2.free() == m1.free().remove(f2),
    ensures
        f1 != f2,
        !m2.free().contains(f1),
        !m2.free().contains(f2),
{
}

} // verus!
