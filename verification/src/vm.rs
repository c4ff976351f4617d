//! Kernel and user virtual address spaces built on the page tables.

use vstd::prelude::*;
use crate::bits::{SATP, satp_encode};
use crate::layout::{
    KERNEL_STACK_PAGES, KERNEL_START, PAGESIZE, PTE_R, PTE_U, PTE_W, PTE_X, RAMEND, TRAMPOLINE, TRAPFRAME, UART,
    USER_START,
};
use crate::pagetable::{
    lemma_free_disjoint_tree, lemma_frame_of, lemma_tree_step_trans, lemma_leaf_page, lemma_shrink_free,
    lemma_vpage_step, leaf_pte, mapped_frame, mapped_prefix, tree_step, npages, page_va, range_frames, range_mapped, range_releasable,
    root_entry, table_valid, translate, unmapped_word, tree_frames, tree_wf, unmap, vpage, walk, lemma_tree_frame, pte_page,
    leaf_addr, lemma_pte_page_aligned, lemma_range_frames_len, leaf_words_kept, lemma_leaf_words_compose, leaf_entry,
    valid_roots_kept, lemma_valid_roots_same_bytes,
};
use crate::physmem::{PhysMem, frame_of, lemma_managed_page};
use crate::bits::{PTE, va_vpn1};
use crate::pagetable::{lemma_no_megapage_over, lemma_no_megapages_kept, megapage, no_megapages, pte_valid};

verus! {

/// Highest address user memory may reach: `USER_TOP`, where the page
/// holding `TRAPFRAME` starts.
pub open spec fn user_top() -> int {
    0xffff_e000
}

/// A user address space: `size` bytes of pages from `begin` on, mapped by
/// the tree rooted at the page `pagetree`.
#[derive(Copy, Clone)]
pub struct Uvm {
    pub begin: u32,
    pub size: u32,
    pub pagetree: u32,
}

impl Uvm {
    /// Number of pages of user memory.
    pub open spec fn npages(&self) -> int {
        self.size as int / 4096
    }

    /// Well formed in `mem`: user memory starts at `USER_START`, is made of
    /// whole pages below the trap frame, and every one of its pages is mapped
    /// to its own page of RAM that is neither free nor a page of the tree.
    pub open spec fn wf(&self, mem: &PhysMem) -> bool {
        &&& self.begin == USER_START
        &&& self.size % PAGESIZE == 0
        &&& self.begin + self.size <= user_top()
        &&& mem.wf()
        &&& tree_wf(mem, self.pagetree)
        &&& no_megapages(mem, self.pagetree)
        &&& range_mapped(mem, self.pagetree, self.begin, self.npages())
        &&& range_releasable(mem, self.pagetree, self.begin, self.npages())
    }

    /// The frames the address space owns: its tree and its user pages.
    pub open spec fn footprint(&self, mem: &PhysMem) -> Set<int> {
        tree_frames(mem, self.pagetree).union(
            range_frames(mem, self.pagetree, self.begin, self.npages()),
        )
    }

    /// The `satp` value that selects this address space.
    pub fn get_satp(&self) -> (res: SATP)
        ensures
            res.mode() == 1,
            res.asid() == 0,
            res.ppn() == self.pagetree >> 12u32,
    {
        let ppn = self.pagetree >> 12u32;
        SATP::new(1, 0, ppn)
    }

    /// An empty address space with a new root table, all of whose entries
    /// are invalid. Fails when no frame is free.
    pub fn new(mem: &mut PhysMem) -> (res: Result<Uvm, ()>)
        requires
            old(mem).wf(),
        ensures
            final(mem).wf(),
            final(mem).same_range(old(mem)),
            res is Err ==> old(mem).free().is_empty() && final(mem).free() == old(mem).free()
                && final(mem).same_bytes(old(mem)),
            res matches Ok(u) ==> {
                &&& u.begin == USER_START
                &&& u.size == 0
                &&& u.wf(final(mem))
                &&& old(mem).free().contains(frame_of(u.pagetree as int))
                &&& final(mem).free() == old(mem).free().remove(frame_of(u.pagetree as int))
                &&& tree_frames(final(mem), u.pagetree) == set![frame_of(u.pagetree as int)]
                &&& u.footprint(final(mem)) == set![frame_of(u.pagetree as int)]
                &&& forall|va: u32| #[trigger] translate(final(mem), u.pagetree, va) is None
                &&& forall|i: int| 0 <= i < 1024 ==> #[trigger] root_entry(final(mem), u.pagetree, i) == 0
                &&& final(mem).agree_except_frames(old(mem), set![frame_of(u.pagetree as int)])
            },
    {
        let root_page = match mem.alloc_frame() {
            Some(p) => p,
            None => return Err(()),
        };
        let ghost m1 = *mem;
        mem.zero_page(root_page);
        let u = Uvm { begin: USER_START, size: 0, pagetree: root_page };
        proof {
            lemma_empty_tree(mem, root_page);
            assert(range_frames(mem, root_page, USER_START, 0) =~= Set::<int>::empty());
            assert(u.footprint(mem) =~= set![frame_of(root_page as int)]);
            assert forall|pa: int|
                #![trigger old(mem).byte(pa)]
                mem.in_ram(pa, 1) && !set![frame_of(root_page as int)].contains(frame_of(pa))
                implies mem.byte(pa) == old(mem).byte(pa) by {
                if root_page <= pa < root_page + PAGESIZE {
                    lemma_frame_of(root_page as int, pa);
                }
                assert(mem.byte(pa) == m1.byte(pa));
            }
        }
        Ok(u)
    }

    /// Releases the address space. It does nothing: the pages stay
    /// allocated.
    pub fn free() {
    }

    /// The first address past user memory.
    pub fn end(&self) -> (res: u32)
        requires
            self.begin + self.size <= u32::MAX,
        ensures
            res == self.begin + self.size,
    {
        self.begin + self.size
    }
}

impl Uvm {
    /// Shrinks user memory to `size` bytes: the pages above are unmapped (their
    /// leaf words become zero) and given back to the allocator. `size` must be
    /// a whole number of pages, else nothing changes and `Err` is returned.
    #[verifier::spinoff_prover]
    #[verifier::rlimit(40)]
    pub fn dealloc(&mut self, mem: &mut PhysMem, size: u32) -> (res: Result<(), ()>)
        requires
            size % PAGESIZE == 0 ==> old(self).wf(old(mem)) && size <= old(self).size,
        ensures
            res is Err <==> size % PAGESIZE != 0,
            res is Err ==> *final(self) == *old(self) && *final(mem) == *old(mem),
            res is Ok ==> {
                &&& final(self).begin == old(self).begin
                &&& final(self).pagetree == old(self).pagetree
                &&& final(self).wf(final(mem))
                &&& final(mem).same_range(old(mem))
                &&& tree_frames(final(mem), old(self).pagetree) == tree_frames(old(mem), old(self).pagetree)
                &&& final(mem).agree_except_frames(old(mem), tree_frames(old(mem), old(self).pagetree))
                &&& forall|va: u32|
                    table_valid(old(mem), old(self).pagetree, va_vpn1(va) as int) ==> #[trigger] final(mem).word(
                        leaf_addr(old(mem), old(self).pagetree, va),
                    ) == unmapped_word(
                        old(mem),
                        old(self).pagetree,
                        (old(self).begin + size) as u32,
                        (old(self).size - size) / 4096,
                        va,
                    )
                &&& final(self).size == size
                &&& forall|va: u32|
                    #[trigger] translate(final(mem), old(self).pagetree, va) == if vpage(
                        (old(self).begin + size) as u32,
                    ) <= vpage(va) < vpage(old(self).begin) + old(self).npages() {
                        None
                    } else {
                        translate(old(mem), old(self).pagetree, va)
                    }
                &&& final(mem).free() == old(mem).free().union(
                    range_frames(
                        old(mem),
                        old(self).pagetree,
                        (old(self).begin + size) as u32,
                        (old(self).size - size) / 4096,
                    ),
                )
            },
    {
        if size % PAGESIZE != 0 {
            return Err(());
        }
        let ghost m0 = *old(mem);
        let ghost u0 = *old(self);
        let newend = USER_START + size;
        let ghost s = size as int / 4096;
        let ghost m = (u0.size - size) as int / 4096;
        proof {
            assert(npages((u0.size - size) as u32) == m);
            assert forall|k: int| 0 <= k < m implies page_va(newend, k) == page_va(u0.begin, s + k) by {}
            assert(range_mapped(&m0, u0.pagetree, newend, m)) by {
                assert forall|k: int| 0 <= k < m implies (#[trigger] translate(
                    &m0,
                    u0.pagetree,
                    page_va(newend, k),
                )) is Some by {
                    assert(page_va(newend, k) == page_va(u0.begin, s + k));
                    assert(translate(&m0, u0.pagetree, page_va(u0.begin, s + k)) is Some);
                }
            }
            assert(range_releasable(&m0, u0.pagetree, newend, m)) by {
                assert forall|k: int| 0 <= k < m implies {
                    &&& m0.managed().contains(
                        #[trigger] mapped_frame(&m0, u0.pagetree, page_va(newend, k)),
                    )
                    &&& !m0.free().contains(mapped_frame(&m0, u0.pagetree, page_va(newend, k)))
                    &&& !tree_frames(&m0, u0.pagetree).contains(
                        mapped_frame(&m0, u0.pagetree, page_va(newend, k)),
                    )
                } by {
                    assert(page_va(newend, k) == page_va(u0.begin, s + k));
                    assert(m0.managed().contains(
                        mapped_frame(&m0, u0.pagetree, page_va(u0.begin, s + k)),
                    ));
                }
                assert forall|k1: int, k2: int|
                    0 <= k1 < m && 0 <= k2 < m && k1 != k2 implies #[trigger] mapped_frame(
                    &m0,
                    u0.pagetree,
                    page_va(newend, k1),
                ) != #[trigger] mapped_frame(&m0, u0.pagetree, page_va(newend, k2)) by {
                    assert(page_va(newend, k1) == page_va(u0.begin, s + k1));
                    assert(page_va(newend, k2) == page_va(u0.begin, s + k2));
                    assert(mapped_frame(&m0, u0.pagetree, page_va(u0.begin, s + k1))
                        != mapped_frame(&m0, u0.pagetree, page_va(u0.begin, s + k2)));
                }
            }
            lemma_no_megapage_over(&m0, u0.pagetree, newend, m);
        }
        let _ = unmap(mem, self.pagetree, newend, self.size - size, true);
        self.size = size;
        proof {
            let root = u0.pagetree;
            assert forall|i: int| 0 <= i < 1024 implies #[trigger] megapage(mem, root, i) == megapage(&m0, root, i) by {
                assert(root_entry(mem, root, i) == root_entry(&m0, root, i));
            }
            lemma_no_megapages_kept(&m0, mem, root);
            crate::pagetable::lemma_vpage_step(u0.begin, s);
            crate::pagetable::lemma_vpage_step(u0.begin, u0.npages());
            assert forall|k: int| 0 <= k < s implies #[trigger] translate(mem, root, page_va(u0.begin, k))
                == translate(&m0, root, page_va(u0.begin, k)) by {
                crate::pagetable::lemma_vpage_step(u0.begin, k);
            }
            assert(range_mapped(mem, root, self.begin, self.npages()));
            assert forall|k: int|
                0 <= k < s implies !range_frames(&m0, root, newend, m).contains(
                #[trigger] mapped_frame(&m0, root, page_va(u0.begin, k)),
            ) by {
                let f = mapped_frame(&m0, root, page_va(u0.begin, k));
                if range_frames(&m0, root, newend, m).contains(f) {
                    let j = choose|j: int|
                        0 <= j < m && f == #[trigger] mapped_frame(&m0, root, page_va(newend, j));
                    assert(page_va(newend, j) == page_va(u0.begin, s + j));
                }
            }
            assert forall|k: int|
                0 <= k < s implies #[trigger] mapped_frame(mem, root, page_va(u0.begin, k))
                == mapped_frame(&m0, root, page_va(u0.begin, k)) by {
                assert(translate(mem, root, page_va(u0.begin, k)) == translate(
                    &m0,
                    root,
                    page_va(u0.begin, k),
                ));
            }
            assert(range_releasable(mem, root, self.begin, self.npages()));
        }
        Ok(())
    }
}

/// Shrinking user memory back to the size it had before `alloc_pages` grew
/// it (with `dealloc`) unmaps exactly the pages that were added: every
/// address mapped before growing is mapped as it was, and the added pages
/// are unmapped.
pub proof fn law_shrink_undoes_grow(m0: &PhysMem, u0: Uvm, m1: &PhysMem, u1: Uvm, m2: &PhysMem)
    requires
        u0.wf(m0),
        u1.begin == u0.begin,
        u1.pagetree == u0.pagetree,
        u0.size <= u1.size,
        forall|va: u32|
            !(vpage(u0.begin) + u0.npages() <= vpage(va)
                < vpage(u0.begin) + u1.npages()) ==> #[trigger] translate(m1, u0.pagetree, va)
                == translate(m0, u0.pagetree, va),
        forall|va: u32|
            #[trigger] translate(m2, u0.pagetree, va) == if vpage((u1.begin + u0.size) as u32) <= vpage(
                va,
            ) < vpage(u1.begin) + u1.npages() {
                None
            } else {
                translate(m1, u0.pagetree, va)
            },
    ensures
        forall|va: u32|
            !(vpage(u0.begin) + u0.npages() <= vpage(va)
                < vpage(u0.begin) + u1.npages()) ==> #[trigger] translate(m2, u0.pagetree, va)
                == translate(m0, u0.pagetree, va),
        forall|va: u32|
            vpage(u0.begin) + u0.npages() <= vpage(va) < vpage(u0.begin) + u1.npages()
                ==> #[trigger] translate(m2, u0.pagetree, va) is None,
{
    lemma_vpage_step(u0.begin, u0.npages());
    assert((u0.begin + 4096 * u0.npages()) as u32 == (u1.begin + u0.size) as u32);
}

/// The frame accounting of growing a tree: memory stays well formed over the
/// same RAM, the tree stays well formed, keeps its pages and gains only pages
/// that were free, the free set only shrinks, and bytes change only in the
/// tree's pages.
pub open spec fn tree_grows(m1: &PhysMem, m2: &PhysMem, root: u32) -> bool {
    &&& m2.wf()
    &&& m2.same_range(m1)
    &&& tree_wf(m2, root)
    &&& tree_frames(m1, root).subset_of(tree_frames(m2, root))
    &&& tree_frames(m2, root).subset_of(tree_frames(m1, root).union(m1.free()))
    &&& m2.free().subset_of(m1.free())
    &&& m2.agree_except_frames(m1, tree_frames(m2, root))
    &&& forall|i: int| 0 <= i < 1024 && #[trigger] megapage(m2, root, i) ==> megapage(m1, root, i)
}

/// What growing a tree keeps: memory stays well formed over the same RAM, the
/// tree stays well formed, keeps its pages and gains only pages that were
/// free, the free set only shrinks, bytes change only in the tree's pages,
/// and every mapped address stays mapped the same way.
pub open spec fn keeps(m1: &PhysMem, m2: &PhysMem, root: u32) -> bool {
    &&& tree_grows(m1, m2, root)
    &&& forall|va: u32|
        #[trigger] translate(m2, root, va) == translate(
            m1,
            root,
            va,
        )
}

/// The relation that `Uvm::alloc_pages` keeps between its start (`m0`, `u0`)
/// and each later state: the pages it added are mapped to frames that were
/// free at the start, with permission bits `uperm`, and everything else it
/// only grows.
pub open spec fn grow_inv(m0: &PhysMem, u0: Uvm, mem: &PhysMem, u: Uvm, uperm: u32) -> bool {
    &&& mem.same_range(m0)
    &&& u.begin == u0.begin
    &&& u.pagetree == u0.pagetree
    &&& u.wf(mem)
    &&& u0.size <= u.size
    &&& forall|va: u32|
        !(vpage(u0.begin) + u0.npages() <= vpage(va)
            < vpage(u0.begin) + u.npages()) ==> #[trigger] translate(mem, u0.pagetree, va)
            == translate(m0, u0.pagetree, va)
    &&& forall|k: int|
        u0.npages() <= k < u.npages() ==> {
            &&& #[trigger] translate(mem, u0.pagetree, page_va(u0.begin, k)) == Some(
                leaf_pte((mapped_frame(mem, u0.pagetree, page_va(u0.begin, k)) * 4096) as u32, uperm),
            )
            &&& m0.free().contains(mapped_frame(mem, u0.pagetree, page_va(u0.begin, k)))
        }
    &&& mem.free().subset_of(m0.free())
    &&& tree_frames(m0, u0.pagetree).subset_of(tree_frames(mem, u0.pagetree))
    &&& tree_frames(mem, u0.pagetree).subset_of(tree_frames(m0, u0.pagetree).union(m0.free()))
    &&& mem.agree_except_frames(m0, tree_frames(mem, u0.pagetree))
}

proof fn lemma_grow_inv_keeps(m0: &PhysMem, u0: Uvm, m1: &PhysMem, m3: &PhysMem, u: Uvm, uperm: u32)
    requires
        grow_inv(m0, u0, m1, u, uperm),
        keeps(m1, m3, u.pagetree),
    ensures
        grow_inv(m0, u0, m3, u, uperm),
{
    let root = u.pagetree;
    lemma_uvm_keep(m1, m3, u);
    assert forall|k: int| u0.npages() <= k < u.npages() implies #[trigger] translate(
        m3,
        root,
        page_va(u0.begin, k),
    ) == translate(m1, root, page_va(u0.begin, k)) by {
        assert(translate(m1, root, page_va(u0.begin, k)) is Some);
    }
    assert forall|pa: int|
        #![trigger m0.byte(pa)]
        m3.in_ram(pa, 1) && !tree_frames(m3, root).contains(frame_of(pa)) implies m3.byte(pa)
        == m0.byte(pa) by {
        assert(m3.byte(pa) == m1.byte(pa));
    }
}

/// An operation on the tree that keeps every user page's translation keeps
/// the address space well formed and owning the same user pages.
proof fn lemma_uvm_keep(m1: &PhysMem, m2: &PhysMem, u: Uvm)
    requires
        u.wf(m1),
        tree_grows(m1, m2, u.pagetree),
        forall|k: int|
            0 <= k < u.npages() ==> #[trigger] translate(m2, u.pagetree, page_va(u.begin, k))
                == translate(m1, u.pagetree, page_va(u.begin, k)),
    ensures
        u.wf(m2),
        range_frames(m2, u.pagetree, u.begin, u.npages()) == range_frames(
            m1,
            u.pagetree,
            u.begin,
            u.npages(),
        ),
{
    let root = u.pagetree;
    let n = u.npages();
    lemma_no_megapages_kept(m1, m2, root);
    lemma_free_disjoint_tree(m1, root);
    assert forall|k: int|
        0 <= k < n implies #[trigger] mapped_frame(m2, root, page_va(u.begin, k)) == mapped_frame(
        m1,
        root,
        page_va(u.begin, k),
    ) by {
        assert(translate(m2, root, page_va(u.begin, k)) == translate(m1, root, page_va(u.begin, k)));
    }
    assert(range_mapped(m2, root, u.begin, n)) by {
        assert forall|k: int| 0 <= k < n implies (#[trigger] translate(
            m2,
            root,
            page_va(u.begin, k),
        )) is Some by {
            assert(translate(m2, root, page_va(u.begin, k)) == translate(m1, root, page_va(u.begin, k)));
        }
    }
    assert(range_releasable(m2, root, u.begin, n)) by {
        assert forall|k: int| 0 <= k < n implies {
            &&& m2.managed().contains(#[trigger] mapped_frame(m2, root, page_va(u.begin, k)))
            &&& !m2.free().contains(mapped_frame(m2, root, page_va(u.begin, k)))
            &&& !tree_frames(m2, root).contains(mapped_frame(m2, root, page_va(u.begin, k)))
        } by {
            assert(mapped_frame(m2, root, page_va(u.begin, k)) == mapped_frame(m1, root, page_va(u.begin, k)));
        }
        assert forall|k1: int, k2: int|
            0 <= k1 < n && 0 <= k2 < n && k1 != k2 implies #[trigger] mapped_frame(
            m2,
            root,
            page_va(u.begin, k1),
        ) != #[trigger] mapped_frame(m2, root, page_va(u.begin, k2)) by {
            assert(mapped_frame(m2, root, page_va(u.begin, k1)) == mapped_frame(m1, root, page_va(u.begin, k1)));
            assert(mapped_frame(m2, root, page_va(u.begin, k2)) == mapped_frame(m1, root, page_va(u.begin, k2)));
        }
    }
    assert(range_frames(m2, root, u.begin, n) =~= range_frames(m1, root, u.begin, n)) by {
        assert forall|f: int| range_frames(m2, root, u.begin, n).contains(f) <==> range_frames(m1, root, u.begin, n).contains(f) by {
            if range_frames(m2, root, u.begin, n).contains(f) {
                let k = choose|k: int| 0 <= k < n && f == #[trigger] mapped_frame(m2, root, page_va(u.begin, k));
                assert(mapped_frame(m1, root, page_va(u.begin, k)) == f);
            }
            if range_frames(m1, root, u.begin, n).contains(f) {
                let k = choose|k: int| 0 <= k < n && f == #[trigger] mapped_frame(m1, root, page_va(u.begin, k));
                assert(mapped_frame(m2, root, page_va(u.begin, k)) == f);
            }
        }
    }
}

/// One page of `Uvm::alloc_pages`: the user page `u` ends with, mapped to the page
/// just taken from the allocator, extends the well-formed address space.
#[verifier::spinoff_prover]
proof fn lemma_grow_step(
    m1: &PhysMem,
    m2: &PhysMem,
    m3: &PhysMem,
    u: Uvm,
    page: u32,
    perm: u32,
)
    requires
        u.wf(m1),
        u.begin + u.size + PAGESIZE <= user_top(),
        perm < 0x400,
        m2.wf(),
        m2.same_range(m1),
        m2.same_bytes(m1),
        m2.is_ram_page(page as int),
        m1.free().contains(frame_of(page as int)),
        m2.free() == m1.free().remove(frame_of(page as int)),
        tree_wf(m2, u.pagetree),
        tree_frames(m2, u.pagetree) == tree_frames(m1, u.pagetree),
        forall|va: u32| #[trigger] translate(m2, u.pagetree, va) == translate(m1, u.pagetree, va),
        forall|i: int| 0 <= i < 1024 ==> #[trigger] megapage(m2, u.pagetree, i) == megapage(m1, u.pagetree, i),
        tree_step(m2, m3, u.pagetree),
        mapped_prefix(m2, m3, u.pagetree, (u.begin + u.size) as u32, page, perm, 1),
    ensures
        (Uvm { size: (u.size + PAGESIZE) as u32, ..u }).wf(m3),
        forall|va: u32|
            vpage(va) != vpage(u.begin) + u.npages()
                ==> #[trigger] translate(m3, u.pagetree, va) == translate(m1, u.pagetree, va),
        translate(m3, u.pagetree, page_va(u.begin, u.npages())) == Some(leaf_pte(page, perm)),
        mapped_frame(m3, u.pagetree, page_va(u.begin, u.npages())) == frame_of(page as int),
        m3.free().subset_of(m1.free().remove(frame_of(page as int))),
        tree_frames(m1, u.pagetree).subset_of(tree_frames(m3, u.pagetree)),
        tree_frames(m3, u.pagetree).subset_of(tree_frames(m1, u.pagetree).union(m1.free())),
        m3.agree_except_frames(m1, tree_frames(m3, u.pagetree)),
{
    let root = u.pagetree;
    let n = u.npages();
    let end = (u.begin + u.size) as u32;
    let u2 = Uvm { size: (u.size + PAGESIZE) as u32, ..u };
    assert forall|i: int| 0 <= i < 1024 implies !#[trigger] megapage(m3, root, i) by {
        if megapage(m3, root, i) {
            assert(megapage(m2, root, i));
            assert(megapage(m1, root, i));
        }
    }
    assert(page_va(u.begin, n) == end);
    lemma_vpage_step(u.begin, n);
    assert(vpage(end) <= vpage(end) < vpage(end) + 1);
    assert(translate(m3, root, end) == Some(leaf_pte(page, perm)));
    lemma_leaf_page(page, perm);
    let f = frame_of(page as int);
    lemma_free_disjoint_tree(m1, root);
    assert(!tree_frames(m1, root).contains(f));
    assert forall|va: u32|
        vpage(va) != vpage(u.begin) + n implies #[trigger] translate(
        m3,
        root,
        va,
    ) == translate(m1, root, va) by {
        assert(translate(m2, root, va) == translate(m1, root, va));
    }
    assert forall|k: int| 0 <= k < n implies #[trigger] translate(m3, root, page_va(u.begin, k))
        == translate(m1, root, page_va(u.begin, k)) by {
        assert(translate(m1, root, page_va(u.begin, k)) is Some);
        lemma_vpage_step(u.begin, k);
    }
    assert(u2.npages() == n + 1);
    assert forall|pa: int|
        #![trigger m1.byte(pa)]
        m3.in_ram(pa, 1) && !tree_frames(m3, root).contains(frame_of(pa)) implies m3.byte(pa)
        == m1.byte(pa) by {
        assert(m3.byte(pa) == m2.byte(pa));
    }
    assert(range_mapped(m3, root, u2.begin, u2.npages()));
    assert(range_releasable(m3, root, u2.begin, u2.npages())) by {
        assert forall|k: int|
            0 <= k < n + 1 implies #[trigger] mapped_frame(m3, root, page_va(u.begin, k))
            == if k < n {
            mapped_frame(m1, root, page_va(u.begin, k))
        } else {
            f
        } by {}
        assert forall|k: int| 0 <= k < n implies mapped_frame(m1, root, page_va(u.begin, k)) != f by {
            assert(!m1.free().contains(mapped_frame(m1, root, page_va(u.begin, k))));
        }
    }
}

impl Uvm {
    /// Grows user memory to at least `size` bytes: each new page is a frame
    /// taken from the allocator, mapped user-accessible with permission bits
    /// `perm`; no other leaf word changes. When the allocator runs out of
    /// frames (which needs fewer than two free frames per page to add at the
    /// call), the pages added by the call are unmapped again, their frames go
    /// back to the allocator, the size is as it was, and `Err` is returned;
    /// leaf tables made on the way stay in the tree.
    #[verifier::spinoff_prover]
    #[verifier::rlimit(40)]
    pub fn alloc_pages(&mut self, mem: &mut PhysMem, size: u32, perm: u32) -> (res: Result<(), ()>)
        requires
            old(self).wf(old(mem)),
            old(self).begin + size <= user_top(),
            perm < 0x400,
        ensures
            final(self).begin == old(self).begin,
            final(self).pagetree == old(self).pagetree,
            final(self).wf(final(mem)),
            old(self).size <= final(self).size,
            final(self).size == old(self).size || final(self).size < size + PAGESIZE,
            res is Ok ==> final(self).size >= size,
            res is Ok ==> leaf_words_kept(
                old(mem),
                final(mem),
                old(self).pagetree,
                (old(self).begin + old(self).size) as u32,
                final(self).npages() - old(self).npages(),
            ),
            res is Ok ==> old(mem).free().len() <= final(mem).free().len() + 2 * (final(self).npages()
                - old(self).npages()),
            res is Err ==> {
                &&& old(self).size < size
                &&& old(mem).free().len() < 2 * pages_for(size - old(self).size)
                &&& final(self).size == old(self).size
                &&& final(mem).free() == old(mem).free().difference(tree_frames(final(mem), old(self).pagetree))
                &&& old(mem).free().difference(tree_frames(final(mem), old(self).pagetree)).len() <= pages_for(
                    size - old(self).size,
                )
                &&& forall|va: u32|
                    #[trigger] translate(final(mem), old(self).pagetree, va) == translate(
                        old(mem),
                        old(self).pagetree,
                        va,
                    ) || (vpage(old(self).begin) + old(self).npages() <= vpage(va) < vpage(old(self).begin)
                        + pages_for(size as int) && translate(final(mem), old(self).pagetree, va) is None)
            },
            res is Ok ==> forall|va: u32|
                !(vpage(old(self).begin)
                    + old(self).npages() <= vpage(va) < vpage(old(self).begin) + final(self).npages())
                    ==> #[trigger] translate(final(mem), old(self).pagetree, va) == translate(
                    old(mem),
                    old(self).pagetree,
                    va,
                ),
            forall|k: int|
                old(self).npages() <= k < final(self).npages() ==> {
                    &&& #[trigger] translate(final(mem), old(self).pagetree, page_va(old(self).begin, k))
                        == Some(
                        leaf_pte(
                            (mapped_frame(final(mem), old(self).pagetree, page_va(old(self).begin, k))
                                * 4096) as u32,
                            perm | PTE_U,
                        ),
                    )
                    &&& old(mem).free().contains(
                        mapped_frame(final(mem), old(self).pagetree, page_va(old(self).begin, k)),
                    )
                },
            final(mem).same_range(old(mem)),
            final(mem).free().subset_of(old(mem).free()),
            tree_frames(old(mem), old(self).pagetree).subset_of(tree_frames(final(mem), old(self).pagetree)),
            tree_frames(final(mem), old(self).pagetree).subset_of(
                tree_frames(old(mem), old(self).pagetree).union(old(mem).free()),
            ),
            final(mem).agree_except_frames(old(mem), tree_frames(final(mem), old(self).pagetree)),
    {
        let ghost m0 = *old(mem);
        let ghost u0 = *old(self);
        let size0 = self.size;
        let uperm = perm | PTE_U;
        assert(perm < 0x400 ==> perm | 0b10000u32 < 0x400) by (bit_vector);
        match self.grow_pages(mem, size, uperm) {
            Ok(()) => Ok(()),
            Err(()) => {
                let ghost m1 = *mem;
                let ghost u1 = *self;
                let _ = self.dealloc(mem, size0);
                proof {
                    lemma_rollback(&m0, u0, &m1, u1, mem, size, uperm);
                    let d = u1.npages() - u0.npages();
                    assert(d + 1 <= pages_for(size - u0.size)) by (nonlinear_arith)
                        requires
                            d == (u1.size - u0.size) / 4096,
                            (u1.size - u0.size) % 4096 == 0,
                            u1.size < size,
                            u0.size <= u1.size,
                    {}
                }
                Err(())
            },
        }
    }

    /// The loop of `alloc_pages`: adds pages until user memory holds `size`
    /// bytes. On failure the pages added so far stay mapped and at most one
    /// frame is free.
    #[verifier::spinoff_prover]
    #[verifier::rlimit(40)]
    fn grow_pages(&mut self, mem: &mut PhysMem, size: u32, uperm: u32) -> (res: Result<(), ()>)
        requires
            old(self).wf(old(mem)),
            old(self).begin + size <= user_top(),
            uperm < 0x400,
        ensures
            grow_inv(old(mem), *old(self), final(mem), *final(self), uperm),
            frames_accounted(old(mem), *old(self), final(mem), *final(self)),
            final(self).size == old(self).size || final(self).size < size + PAGESIZE,
            res is Ok ==> final(self).size >= size,
            res is Err ==> final(self).size < size && final(mem).free().len() <= 1,
            res is Ok ==> old(mem).free().len() <= final(mem).free().len() + 2 * (final(self).npages()
                - old(self).npages()),
            res is Err ==> old(mem).free().len() <= 2 * (final(self).npages() - old(self).npages()) + 1,
            res is Ok ==> leaf_words_kept(
                old(mem),
                final(mem),
                old(self).pagetree,
                (old(self).begin + old(self).size) as u32,
                final(self).npages() - old(self).npages(),
            ),
    {
        let ghost m0 = *old(mem);
        let ghost u0 = *old(self);
        proof {
            lemma_free_disjoint_tree(&m0, u0.pagetree);
            reveal(leaf_kept_since);
            crate::pagetable::lemma_valid_roots_refl(&m0, u0.pagetree);
        }
        while self.size < size
            invariant
                m0 == *old(mem),
                u0 == *old(self),
                uperm < 0x400,
                u0.begin + size <= user_top(),
                self.size == u0.size || self.size < size + PAGESIZE,
                grow_inv(&m0, u0, mem, *self, uperm),
                frames_accounted(&m0, u0, mem, *self),
                m0.free().len() <= mem.free().len() + 2 * (self.npages() - u0.npages()),
                leaf_kept_since(&m0, mem, u0.pagetree, (u0.begin + u0.size) as u32, self.npages() - u0.npages()),
                u0.size % PAGESIZE == 0,
            decreases size + PAGESIZE - self.size,
        {
            let ghost m1 = *mem;
            let ghost u1 = *self;
            proof {
                let x = self.begin + self.size;
                assert(USER_START % 4096 == 0);
                assert(x + 4096 <= user_top()) by (nonlinear_arith)
                    requires
                        x % 4096 == 0,
                        x < u0.begin + size,
                        u0.begin + size <= user_top(),
                        user_top() == 0xffff_e000,
                {}
            }
            let page = match mem.alloc_frame() {
                Some(p) => p,
                None => {
                    proof {
                        crate::pagetable::lemma_same_state(&m1, mem, u0.pagetree);
                        lemma_grow_inv_keeps(&m0, u0, &m1, mem, u1, uperm);
                        lemma_accounted_keep(&m0, u0, &m1, mem, u1);
                        assert(mem.free() =~= Set::<int>::empty());
                        assert(m1.free().len() == 0);
                    }
                    return Err(());
                },
            };
            let ghost m2 = *mem;
            proof {
                vstd::set::axiom_set_remove_len(m1.free(), (page / PAGESIZE) as int);
                lemma_shrink_free(&m1, &m2, self.pagetree);
                assert forall|i: int| 0 <= i < 1024 implies !#[trigger] megapage(&m2, self.pagetree, i) by {
                    assert(megapage(&m2, self.pagetree, i) == megapage(&m1, self.pagetree, i));
                }
                lemma_no_megapage_over(&m2, self.pagetree, (self.begin + self.size) as u32, 1);
                assert(npages(PAGESIZE) == 1);
            }
            let end = self.end();
            match crate::pagetable::map(mem, self.pagetree, end, page, PAGESIZE, uperm) {
                Ok(()) => {},
                Err(()) => {
                    let ghost m3 = *mem;
                    proof {
                        lemma_map_failed_keeps(&m1, &m2, mem, u0.pagetree, end, page, uperm);
                        lemma_grow_inv_keeps(&m0, u0, &m1, mem, u1, uperm);
                        lemma_free_disjoint_tree(&m1, u0.pagetree);
                        assert(!tree_frames(&m3, u0.pagetree).contains(frame_of(page as int)));
                        assert(mem.managed() == m1.managed());
                    }
                    mem.free_frame(page);
                    proof {
                        lemma_grow_inv_release(&m0, u0, &m1, &m3, mem, u1, uperm, frame_of(page as int));
                        assert(mem.free() =~= Set::<int>::empty().insert(frame_of(page as int)));
                        assert forall|f: int| #[trigger] m1.free().contains(f) implies mem.free().contains(f)
                            || tree_frames(mem, u0.pagetree).contains(f) by {
                            if f != frame_of(page as int) {
                                assert(m2.free().contains(f));
                            }
                        }
                        lemma_accounted_keep(&m0, u0, &m1, mem, u1);
                        assert(m1.free().len() == 1);
                    }
                    return Err(());
                },
            }
            proof {
                assert(npages(PAGESIZE) == 1);
                lemma_grow_step(&m1, &m2, mem, u1, page, uperm);
                lemma_grow_inv_step(&m0, u0, &m1, mem, u1, page, uperm);
                assert forall|f: int| #[trigger] m1.free().contains(f) implies f == frame_of(page as int)
                    || mem.free().contains(f) || tree_frames(mem, u0.pagetree).contains(f) by {
                    if f != frame_of(page as int) {
                        assert(m2.free().contains(f));
                    }
                }
                lemma_accounted_step(&m0, u0, &m1, mem, u1, page);
                let end0 = (u0.begin + u0.size) as u32;
                let d = u1.npages() - u0.npages();
                assert(end0 + 4096 * d + 4096 <= u32::MAX && end == end0 + 4096 * d) by (nonlinear_arith)
                    requires
                        end0 == u0.begin + u0.size,
                        end == u1.begin + u1.size,
                        u1.begin == u0.begin,
                        d == u1.size / 4096 - u0.size / 4096,
                        u1.size % 4096 == 0,
                        u0.size % 4096 == 0,
                        u1.begin + u1.size + 4096 <= u32::MAX,
                        u0.size <= u1.size,
                {}
                lemma_grow_leaf_step(&m0, &m1, &m2, mem, u0.pagetree, end0, d, end);
                assert((Uvm { size: (u1.size + PAGESIZE) as u32, ..u1 }).npages() == u1.npages() + 1);
            }
            self.size = self.size + PAGESIZE;
        }
        proof {
            reveal(leaf_kept_since);
        }
        Ok(())
    }
}

/// `leaf_words_kept` from `m0` to `mem` outside the first `n` pages from
/// `virt`, with every valid root entry of `m0` kept.
#[verifier::opaque]
spec fn leaf_kept_since(m0: &PhysMem, mem: &PhysMem, root: u32, virt: u32, n: int) -> bool {
    &&& leaf_words_kept(m0, mem, root, virt, n)
    &&& valid_roots_kept(m0, mem, root)
}

/// A page of `grow_pages`: taking a frame (`m1` to `m2`) and mapping the page
/// at `end` (`m2` to `m3`) keeps the leaf words outside one more page.
proof fn lemma_grow_leaf_step(
    m0: &PhysMem,
    m1: &PhysMem,
    m2: &PhysMem,
    m3: &PhysMem,
    root: u32,
    end0: u32,
    d: int,
    end: u32,
)
    requires
        leaf_kept_since(m0, m1, root, end0, d),
        m2.same_bytes(m1),
        leaf_words_kept(m2, m3, root, end, npages(PAGESIZE)),
        valid_roots_kept(m2, m3, root),
        m2.same_range(m1),
        0 <= d,
        end0 + 4096 * d + 4096 <= u32::MAX,
        end == end0 + 4096 * d,
    ensures
        leaf_kept_since(m0, m3, root, end0, d + 1),
{
    reveal(leaf_kept_since);
    assert(npages(PAGESIZE) == 1);
    lemma_vpage_step(end0, d);
    assert(forall|pa: int| #![trigger m1.byte(pa)] m2.byte(pa) == m1.byte(pa));
    assert(forall|va: u32| #![trigger leaf_entry(m2, root, va)] leaf_entry(m2, root, va) == leaf_entry(m1, root, va));
    lemma_valid_roots_same_bytes(m0, m1, m2, root);
    lemma_leaf_words_compose(m0, m2, m3, root, end0, d, end);
}

/// Every frame free at the start (`m0`) is still free, a page of the tree,
/// or the frame of a user page added since `u0`.
pub open spec fn frames_accounted(m0: &PhysMem, u0: Uvm, mem: &PhysMem, u: Uvm) -> bool {
    forall|f: int|
        #[trigger] m0.free().contains(f) ==> mem.free().contains(f) || tree_frames(mem, u0.pagetree).contains(f)
            || exists|k: int|
            u0.npages() <= k < u.npages() && f == #[trigger] mapped_frame(mem, u0.pagetree, page_va(u0.begin, k))
}

/// A step that loses no free frame except to the tree, keeps the tree's
/// pages and every translation keeps the frames accounted for.
proof fn lemma_accounted_keep(m0: &PhysMem, u0: Uvm, m1: &PhysMem, m2: &PhysMem, u: Uvm)
    requires
        frames_accounted(m0, u0, m1, u),
        forall|f: int| #[trigger] m1.free().contains(f) ==> m2.free().contains(f) || tree_frames(m2, u0.pagetree).contains(f),
        tree_frames(m1, u0.pagetree).subset_of(tree_frames(m2, u0.pagetree)),
        forall|va: u32| #[trigger] translate(m2, u0.pagetree, va) == translate(m1, u0.pagetree, va),
    ensures
        frames_accounted(m0, u0, m2, u),
{
    let root = u0.pagetree;
    assert forall|f: int| #[trigger] m0.free().contains(f) implies m2.free().contains(f) || tree_frames(m2, root).contains(f)
        || exists|k: int|
        u0.npages() <= k < u.npages() && f == #[trigger] mapped_frame(m2, root, page_va(u0.begin, k)) by {
        if !m1.free().contains(f) && !tree_frames(m1, root).contains(f) {
            let k = choose|k: int|
                u0.npages() <= k < u.npages() && f == #[trigger] mapped_frame(m1, root, page_va(u0.begin, k));
            assert(translate(m2, root, page_va(u0.begin, k)) == translate(m1, root, page_va(u0.begin, k)));
            assert(f == mapped_frame(m2, root, page_va(u0.begin, k)));
        }
    }
}

/// A page of `grow_pages` that mapped `page`, taken from the allocator, as
/// user page `u1.npages()` keeps the frames accounted for.
proof fn lemma_accounted_step(m0: &PhysMem, u0: Uvm, m1: &PhysMem, m3: &PhysMem, u1: Uvm, page: u32)
    requires
        frames_accounted(m0, u0, m1, u1),
        u1.begin == u0.begin,
        u1.pagetree == u0.pagetree,
        forall|f: int|
            #[trigger] m1.free().contains(f) ==> f == frame_of(page as int) || m3.free().contains(f) || tree_frames(
                m3,
                u0.pagetree,
            ).contains(f),
        tree_frames(m1, u0.pagetree).subset_of(tree_frames(m3, u0.pagetree)),
        forall|va: u32|
            vpage(va) != vpage(u1.begin) + u1.npages()
                ==> #[trigger] translate(m3, u1.pagetree, va) == translate(m1, u1.pagetree, va),
        mapped_frame(m3, u1.pagetree, page_va(u1.begin, u1.npages())) == frame_of(page as int),
        u1.begin + u1.size + PAGESIZE <= user_top(),
        u1.size % PAGESIZE == 0,
        u0.size <= u1.size,
    ensures
        frames_accounted(m0, u0, m3, Uvm { size: (u1.size + PAGESIZE) as u32, ..u1 }),
{
    let root = u0.pagetree;
    let u2 = Uvm { size: (u1.size + PAGESIZE) as u32, ..u1 };
    assert(u2.npages() == u1.npages() + 1);
    assert forall|f: int| #[trigger] m0.free().contains(f) implies m3.free().contains(f) || tree_frames(m3, root).contains(f)
        || exists|k: int|
        u0.npages() <= k < u2.npages() && f == #[trigger] mapped_frame(m3, root, page_va(u0.begin, k)) by {
        if m1.free().contains(f) {
            if f == frame_of(page as int) {
                assert(u0.npages() <= u1.npages());
                assert(f == mapped_frame(m3, root, page_va(u0.begin, u1.npages())));
            }
        } else if !tree_frames(m1, root).contains(f) {
            let k = choose|k: int|
                u0.npages() <= k < u1.npages() && f == #[trigger] mapped_frame(m1, root, page_va(u0.begin, k));
            lemma_vpage_step(u0.begin, k);
            lemma_vpage_step(u0.begin, u1.npages());
            assert(translate(m3, root, page_va(u0.begin, k)) == translate(m1, root, page_va(u0.begin, k)));
            assert(f == mapped_frame(m3, root, page_va(u0.begin, k)));
        }
    }
}

/// Giving back the frame `f` of a page that `grow_pages` took but could not
/// map keeps the relation to the start.
proof fn lemma_grow_inv_release(
    m0: &PhysMem,
    u0: Uvm,
    m1: &PhysMem,
    m3: &PhysMem,
    m4: &PhysMem,
    u: Uvm,
    uperm: u32,
    f: int,
)
    requires
        grow_inv(m0, u0, m3, u, uperm),
        grow_inv(m0, u0, m1, u, uperm),
        forall|va: u32| #[trigger] translate(m3, u.pagetree, va) == translate(m1, u.pagetree, va),
        m1.free().contains(f),
        !tree_frames(m3, u.pagetree).contains(f),
        m4.wf(),
        m4.same_range(m3),
        m4.same_bytes(m3),
        m4.free() == m3.free().insert(f),
    ensures
        grow_inv(m0, u0, m4, u, uperm),
        tree_frames(m4, u.pagetree) == tree_frames(m3, u.pagetree),
        forall|va: u32| #[trigger] translate(m4, u.pagetree, va) == translate(m3, u.pagetree, va),
{
    let root = u.pagetree;
    assert forall|k: int| 0 <= k < u.npages() implies #[trigger] mapped_frame(m3, root, page_va(u.begin, k)) != f by {
        assert(translate(m3, root, page_va(u.begin, k)) == translate(m1, root, page_va(u.begin, k)));
        assert(!m1.free().contains(mapped_frame(m1, root, page_va(u.begin, k))));
    }
    lemma_uvm_release(m3, m4, u, f);
    assert forall|pa: int|
        #![trigger m0.byte(pa)]
        m4.in_ram(pa, 1) && !tree_frames(m4, root).contains(frame_of(pa)) implies m4.byte(pa)
        == m0.byte(pa) by {
        assert(m4.byte(pa) == m3.byte(pa));
    }
    assert forall|k: int| u0.npages() <= k < u.npages() implies #[trigger] mapped_frame(m4, root, page_va(u0.begin, k))
        == mapped_frame(m3, root, page_va(u0.begin, k)) by {
        assert(translate(m4, root, page_va(u0.begin, k)) == translate(m3, root, page_va(u0.begin, k)));
    }
}

/// Giving back to the allocator a frame that is neither a page of the tree
/// nor the frame of a user page keeps the address space as it was.
proof fn lemma_uvm_release(m1: &PhysMem, m2: &PhysMem, u: Uvm, f: int)
    requires
        u.wf(m1),
        m2.wf(),
        m2.same_range(m1),
        m2.same_bytes(m1),
        m2.free() == m1.free().insert(f),
        !tree_frames(m1, u.pagetree).contains(f),
        forall|k: int| 0 <= k < u.npages() ==> #[trigger] mapped_frame(m1, u.pagetree, page_va(u.begin, k)) != f,
    ensures
        u.wf(m2),
        tree_frames(m2, u.pagetree) == tree_frames(m1, u.pagetree),
        forall|va: u32| #[trigger] translate(m2, u.pagetree, va) == translate(m1, u.pagetree, va),
        forall|i: int| 0 <= i < 1024 ==> #[trigger] megapage(m2, u.pagetree, i) == megapage(m1, u.pagetree, i),
{
    let root = u.pagetree;
    let n = u.npages();
    lemma_free_disjoint_tree(m1, root);
    assert forall|g: int| tree_frames(m1, root).contains(g) implies #[trigger] m2.agree_on_frame(m1, g) by {
        assert forall|pa: int| #![trigger m1.byte(pa)] m2.byte(pa) == m1.byte(pa) by {}
    }
    lemma_tree_frame(m1, m2, root);
    lemma_no_megapages_kept(m1, m2, root);
    assert forall|k: int|
        0 <= k < n implies #[trigger] mapped_frame(m2, root, page_va(u.begin, k)) == mapped_frame(
        m1,
        root,
        page_va(u.begin, k),
    ) by {
        assert(translate(m2, root, page_va(u.begin, k)) == translate(m1, root, page_va(u.begin, k)));
    }
    assert(range_mapped(m2, root, u.begin, n)) by {
        assert forall|k: int| 0 <= k < n implies (#[trigger] translate(
            m2,
            root,
            page_va(u.begin, k),
        )) is Some by {
            assert(translate(m2, root, page_va(u.begin, k)) == translate(m1, root, page_va(u.begin, k)));
        }
    }
    assert(range_releasable(m2, root, u.begin, n)) by {
        assert forall|k: int| 0 <= k < n && translate(m2, root, page_va(u.begin, k)) is Some implies {
            &&& m2.managed().contains(#[trigger] mapped_frame(m2, root, page_va(u.begin, k)))
            &&& !m2.free().contains(mapped_frame(m2, root, page_va(u.begin, k)))
            &&& !tree_frames(m2, root).contains(mapped_frame(m2, root, page_va(u.begin, k)))
        } by {
            assert(translate(m1, root, page_va(u.begin, k)) is Some);
        }
        assert forall|k1: int, k2: int|
            0 <= k1 < n && 0 <= k2 < n && k1 != k2 && translate(m2, root, page_va(u.begin, k1)) is Some
                && translate(m2, root, page_va(u.begin, k2)) is Some implies #[trigger] mapped_frame(
            m2,
            root,
            page_va(u.begin, k1),
        ) != #[trigger] mapped_frame(m2, root, page_va(u.begin, k2)) by {
            assert(mapped_frame(m2, root, page_va(u.begin, k1)) == mapped_frame(m1, root, page_va(u.begin, k1)));
            assert(mapped_frame(m2, root, page_va(u.begin, k2)) == mapped_frame(m1, root, page_va(u.begin, k2)));
        }
    }
}

/// What `alloc_pages` has once `grow_pages` failed (from `m0`, `u0` to `m1`,
/// `u1`) and `dealloc` shrank user memory back to its old size (giving `m2`):
/// the contract of its `Err` case.
#[verifier::spinoff_prover]
#[verifier::rlimit(40)]
proof fn lemma_rollback(m0: &PhysMem, u0: Uvm, m1: &PhysMem, u1: Uvm, m2: &PhysMem, size: u32, uperm: u32)
    requires
        u0.wf(m0),
        grow_inv(m0, u0, m1, u1, uperm),
        frames_accounted(m0, u0, m1, u1),
        u1.size < size,
        m1.free().len() <= 1,
        ({
            let root = u0.pagetree;
            let end0 = (u1.begin + u0.size) as u32;
            let m = (u1.size - u0.size) / 4096;
            &&& (Uvm { size: u0.size, ..u1 }).wf(m2)
            &&& m2.same_range(m1)
            &&& tree_frames(m2, root) == tree_frames(m1, root)
            &&& m2.agree_except_frames(m1, tree_frames(m1, root))
            &&& forall|va: u32|
                #[trigger] translate(m2, root, va) == if vpage(end0) <= vpage(va) < vpage(u1.begin) + u1.npages() {
                    None
                } else {
                    translate(m1, root, va)
                }
            &&& m2.free() == m1.free().union(range_frames(m1, root, end0, m))
        }),
    ensures
        m2.free().len() <= pages_for(size - u0.size),
        m2.free().subset_of(m0.free()),
        m2.free() == m0.free().difference(tree_frames(m2, u0.pagetree)),
        m2.agree_except_frames(m0, tree_frames(m2, u0.pagetree)),
        forall|va: u32|
            #[trigger] translate(m2, u0.pagetree, va) == translate(m0, u0.pagetree, va) || (vpage(u0.begin)
                + u0.npages() <= vpage(va) < vpage(u0.begin) + pages_for(size as int) && translate(
                m2,
                u0.pagetree,
                va,
            ) is None),
{
    let root = u0.pagetree;
    let end0 = (u1.begin + u0.size) as u32;
    let m = (u1.size - u0.size) / 4096;
    assert(m == u1.npages() - u0.npages());
    lemma_vpage_step(u0.begin, u0.npages());
    assert(end0 == page_va(u0.begin, u0.npages()));
    lemma_range_frames_len(m1, root, end0, m);
    vstd::set_lib::lemma_len_union(m1.free(), range_frames(m1, root, end0, m));
    assert(m + 1 <= pages_for(size - u0.size));
    assert(u1.npages() <= pages_for(size as int));
    assert forall|f: int| range_frames(m1, root, end0, m).contains(f) implies m0.free().contains(f) by {
        let j = choose|j: int|
            0 <= j < m && translate(m1, root, page_va(end0, j)) is Some && f
                == #[trigger] mapped_frame(m1, root, page_va(end0, j));
        assert(page_va(end0, j) == page_va(u0.begin, u0.npages() + j));
        assert(m0.free().contains(mapped_frame(m1, root, page_va(u0.begin, u0.npages() + j))));
    }
    assert forall|pa: int|
        #![trigger m0.byte(pa)]
        m2.in_ram(pa, 1) && !tree_frames(m2, root).contains(pa / 4096) implies m2.byte(pa) == m0.byte(pa) by {
        assert(m2.byte(pa) == m1.byte(pa));
    }
    lemma_free_disjoint_tree(m2, root);
    assert forall|f: int| m0.free().contains(f) && !tree_frames(m2, root).contains(f) implies #[trigger] m2.free().contains(f) by {
        if !m1.free().contains(f) {
            let k = choose|k: int|
                u0.npages() <= k < u1.npages() && f == #[trigger] mapped_frame(m1, root, page_va(u0.begin, k));
            let j = k - u0.npages();
            assert(page_va(end0, j) == page_va(u0.begin, k));
            assert(translate(m1, root, page_va(u0.begin, k)) is Some);
            assert(range_frames(m1, root, end0, m).contains(f));
        }
    }
    assert(m2.free() =~= m0.free().difference(tree_frames(m2, root)));
}

/// A failed one-page `map` right after taking `page` from the allocator
/// keeps the tree.
proof fn lemma_map_failed_keeps(
    m1: &PhysMem,
    m2: &PhysMem,
    m3: &PhysMem,
    root: u32,
    end: u32,
    page: u32,
    uperm: u32,
)
    requires
        m1.wf(),
        tree_wf(m1, root),
        m2.same_range(m1),
        m2.same_bytes(m1),
        m2.free().subset_of(m1.free()),
        tree_wf(m2, root),
        tree_frames(m2, root) == tree_frames(m1, root),
        forall|va: u32| #[trigger] translate(m2, root, va) == translate(m1, root, va),
        tree_step(m2, m3, root),
        exists|j: int| 0 <= j < npages(PAGESIZE) && mapped_prefix(m2, m3, root, end, page, uperm, j),
    ensures
        keeps(m1, m3, root),
{
    let j = choose|j: int| 0 <= j < npages(PAGESIZE) && mapped_prefix(m2, m3, root, end, page, uperm, j);
    assert(j == 0);
    assert forall|pa: int|
        #![trigger m1.byte(pa)]
        m3.in_ram(pa, 1) && !tree_frames(m3, root).contains(frame_of(pa)) implies m3.byte(pa)
        == m1.byte(pa) by {
        assert(m3.byte(pa) == m2.byte(pa));
    }
}

/// A successful page of `Uvm::alloc_pages` extends the relation to the start.
proof fn lemma_grow_inv_step(
    m0: &PhysMem,
    u0: Uvm,
    m1: &PhysMem,
    m3: &PhysMem,
    u1: Uvm,
    page: u32,
    uperm: u32,
)
    requires
        grow_inv(m0, u0, m1, u1, uperm),
        m3.same_range(m1),
        (Uvm { size: (u1.size + PAGESIZE) as u32, ..u1 }).wf(m3),
        forall|va: u32|
            vpage(va) != vpage(u1.begin) + u1.npages()
                ==> #[trigger] translate(m3, u1.pagetree, va) == translate(m1, u1.pagetree, va),
        translate(m3, u1.pagetree, page_va(u1.begin, u1.npages())) == Some(leaf_pte(page, uperm)),
        mapped_frame(m3, u1.pagetree, page_va(u1.begin, u1.npages())) == frame_of(page as int),
        page % 4096 == 0,
        m1.free().contains(frame_of(page as int)),
        m3.free().subset_of(m1.free().remove(frame_of(page as int))),
        tree_frames(m1, u1.pagetree).subset_of(tree_frames(m3, u1.pagetree)),
        tree_frames(m3, u1.pagetree).subset_of(tree_frames(m1, u1.pagetree).union(m1.free())),
        m3.agree_except_frames(m1, tree_frames(m3, u1.pagetree)),
    ensures
        grow_inv(m0, u0, m3, Uvm { size: (u1.size + PAGESIZE) as u32, ..u1 }, uperm),
{
    let root = u0.pagetree;
    let u2 = Uvm { size: (u1.size + PAGESIZE) as u32, ..u1 };
    assert(u2.npages() == u1.npages() + 1);
    assert(frame_of(page as int) * 4096 == page);
    assert forall|k: int| u0.npages() <= k < u1.npages() implies #[trigger] translate(
        m3,
        root,
        page_va(u0.begin, k),
    ) == translate(m1, root, page_va(u0.begin, k)) by {
        lemma_vpage_step(u0.begin, k);
        lemma_vpage_step(u0.begin, u1.npages());
        assert(translate(m1, root, page_va(u0.begin, k)) is Some);
    }
    assert forall|va: u32|
        !(vpage(u0.begin) + u0.npages() <= vpage(va) < vpage(
            u0.begin,
        ) + u2.npages()) implies #[trigger] translate(m3, root, va) == translate(m0, root, va) by {
        assert(translate(m1, root, va) == translate(m0, root, va));
    }
    assert forall|pa: int|
        #![trigger m0.byte(pa)]
        m3.in_ram(pa, 1) && !tree_frames(m3, root).contains(frame_of(pa)) implies m3.byte(pa)
        == m0.byte(pa) by {
        assert(m3.byte(pa) == m1.byte(pa));
        assert(!tree_frames(m1, root).contains(frame_of(pa)));
        assert(m1.byte(pa) == m0.byte(pa));
    }
}

/// Memory that holds the same tree with the same translations and the same
/// free set holds the same well-formed address space.
proof fn lemma_uvm_same_view(m0: &PhysMem, m1: &PhysMem, u: Uvm)
    requires
        u.wf(m0),
        m1.wf(),
        m1.same_range(m0),
        m1.free() == m0.free(),
        tree_wf(m1, u.pagetree),
        tree_frames(m1, u.pagetree) == tree_frames(m0, u.pagetree),
        forall|va: u32| #[trigger] translate(m1, u.pagetree, va) == translate(m0, u.pagetree, va),
        forall|i: int| 0 <= i < 1024 ==> #[trigger] megapage(m1, u.pagetree, i) == megapage(m0, u.pagetree, i),
    ensures
        u.wf(m1),
{
    let root = u.pagetree;
    let n = u.npages();
    lemma_no_megapages_kept(m0, m1, root);
    assert forall|k: int|
        0 <= k < n implies #[trigger] mapped_frame(m1, root, page_va(u.begin, k)) == mapped_frame(
        m0,
        root,
        page_va(u.begin, k),
    ) by {
        assert(translate(m1, root, page_va(u.begin, k)) == translate(m0, root, page_va(u.begin, k)));
    }
    assert(range_mapped(m1, root, u.begin, n)) by {
        assert forall|k: int| 0 <= k < n implies (#[trigger] translate(
            m1,
            root,
            page_va(u.begin, k),
        )) is Some by {
            assert(translate(m1, root, page_va(u.begin, k)) == translate(m0, root, page_va(u.begin, k)));
        }
    }
    assert(range_releasable(m1, root, u.begin, n)) by {
        assert forall|k1: int, k2: int|
            0 <= k1 < n && 0 <= k2 < n && k1 != k2 implies #[trigger] mapped_frame(
            m1,
            root,
            page_va(u.begin, k1),
        ) != #[trigger] mapped_frame(m1, root, page_va(u.begin, k2)) by {
            assert(mapped_frame(m1, root, page_va(u.begin, k1)) == mapped_frame(m0, root, page_va(u.begin, k1)));
            assert(mapped_frame(m1, root, page_va(u.begin, k2)) == mapped_frame(m0, root, page_va(u.begin, k2)));
        }
    }
}

/// Pages needed to hold `len` bytes.
pub open spec fn pages_for(len: int) -> int {
    (len + 4095) / 4096
}

/// The user page `k` pages above `va` is user page `s + k` when `va` is `s`
/// pages above the start.
proof fn lemma_user_page_index(u: Uvm, va: u32, s: int, k: int)
    requires
        va == u.begin + 4096 * s,
        0 <= s,
        0 <= k,
        va + 4096 * k <= u32::MAX,
    ensures
        page_va(va, k) == page_va(u.begin, s + k),
{
}

/// One page of `Uvm::load`: writing chunk `k` into the page that user page
/// `s + k` maps to keeps the tree and the chunks written before.
proof fn lemma_load_step(
    m0: &PhysMem,
    m1: &PhysMem,
    m2: &PhysMem,
    u: Uvm,
    va0: u32,
    s: int,
    k: int,
    img: Seq<u8>,
    count: int,
)
    requires
        u.wf(m0),
        va0 == u.begin + 4096 * s,
        0 <= s,
        0 <= k,
        s + k < u.npages(),
        va0 + 4096 * (k + 1) <= u32::MAX,
        count == if img.len() - 4096 * k < 4096 { img.len() - 4096 * k } else { 4096 },
        0 < count,
        m1.wf(),
        m1.same_range(m0),
        m1.free() == m0.free(),
        tree_wf(m1, u.pagetree),
        tree_frames(m1, u.pagetree) == tree_frames(m0, u.pagetree),
        forall|va: u32| #[trigger] translate(m1, u.pagetree, va) == translate(m0, u.pagetree, va),
        m1.agree_except_frames(m0, range_frames(m0, u.pagetree, va0, k)),
        forall|i: int, j: int|
            0 <= i < k && 0 <= j < 4096 && 4096 * i + j < img.len() ==> #[trigger] m1.byte(
                mapped_frame(m0, u.pagetree, page_va(va0, i)) * 4096 + j,
            ) == img[4096 * i + j],
        m2.wf(),
        m2.same_range(m1),
        m2.free() == m1.free(),
        forall|j: int|
            0 <= j < count ==> #[trigger] m2.byte(
                mapped_frame(m0, u.pagetree, page_va(va0, k)) * 4096 + j,
            ) == img[4096 * k + j],
        m2.agree_outside(
            m1,
            mapped_frame(m0, u.pagetree, page_va(va0, k)) * 4096,
            mapped_frame(m0, u.pagetree, page_va(va0, k)) * 4096 + count,
        ),
        forall|i: int, j: int|
            0 <= i < k && 0 <= j < 4096 && img.len() <= 4096 * i + j ==> #[trigger] m1.byte(
                mapped_frame(m0, u.pagetree, page_va(va0, i)) * 4096 + j,
            ) == m0.byte(mapped_frame(m0, u.pagetree, page_va(va0, i)) * 4096 + j),
    ensures
        forall|i: int| 0 <= i < 1024 ==> #[trigger] megapage(m2, u.pagetree, i) == megapage(m1, u.pagetree, i),
        forall|i: int, j: int|
            0 <= i < k + 1 && 0 <= j < 4096 && img.len() <= 4096 * i + j ==> #[trigger] m2.byte(
                mapped_frame(m0, u.pagetree, page_va(va0, i)) * 4096 + j,
            ) == m0.byte(mapped_frame(m0, u.pagetree, page_va(va0, i)) * 4096 + j),
        tree_wf(m2, u.pagetree),
        tree_frames(m2, u.pagetree) == tree_frames(m0, u.pagetree),
        forall|va: u32| #[trigger] translate(m2, u.pagetree, va) == translate(m0, u.pagetree, va),
        m2.agree_except_frames(m0, range_frames(m0, u.pagetree, va0, k + 1)),
        forall|i: int, j: int|
            0 <= i < k + 1 && 0 <= j < 4096 && 4096 * i + j < img.len() ==> #[trigger] m2.byte(
                mapped_frame(m0, u.pagetree, page_va(va0, i)) * 4096 + j,
            ) == img[4096 * i + j],
{
    let root = u.pagetree;
    lemma_user_page_index(u, va0, s, k);
    let f = mapped_frame(m0, root, page_va(va0, k));
    assert(f == mapped_frame(m0, root, page_va(u.begin, s + k)));
    assert(!tree_frames(m0, root).contains(f));
    lemma_managed_page(m0, f);
    assert forall|g: int| tree_frames(m1, root).contains(g) implies #[trigger] m2.agree_on_frame(m1, g) by {
        assert forall|pa: int| g * 4096 <= pa < g * 4096 + 4096 implies #[trigger] m2.byte(pa) == m1.byte(pa) by {
            if f * 4096 <= pa < f * 4096 + count {
                crate::pagetable::lemma_frame_of(f * 4096, pa);
                crate::pagetable::lemma_frame_of(g * 4096, pa);
            }
        }
    }
    crate::pagetable::lemma_free_disjoint_tree(m1, root);
    lemma_tree_frame(m1, m2, root);
    assert forall|pa: int|
        #![trigger m0.byte(pa)]
        m2.in_ram(pa, 1) && !range_frames(m0, root, va0, k + 1).contains(frame_of(pa)) implies m2.byte(pa)
        == m0.byte(pa) by {
        if f * 4096 <= pa < f * 4096 + count {
            crate::pagetable::lemma_frame_of(f * 4096, pa);
            assert(range_frames(m0, root, va0, k + 1).contains(f));
        }
        if range_frames(m0, root, va0, k).contains(frame_of(pa)) {
            let i = choose|i: int| 0 <= i < k && frame_of(pa) == #[trigger] mapped_frame(m0, root, page_va(va0, i));
            assert(range_frames(m0, root, va0, k + 1).contains(frame_of(pa)));
        }
        assert(m1.byte(pa) == m0.byte(pa));
    }
    assert forall|i: int, j: int|
        0 <= i < k + 1 && 0 <= j < 4096 && 4096 * i + j < img.len() implies #[trigger] m2.byte(
            mapped_frame(m0, root, page_va(va0, i)) * 4096 + j,
        ) == img[4096 * i + j] by {
        if i < k {
            lemma_user_page_index(u, va0, s, i);
            let fi = mapped_frame(m0, root, page_va(va0, i));
            assert(fi == mapped_frame(m0, root, page_va(u.begin, s + i)));
            assert(fi != f);
            assert(m2.byte(fi * 4096 + j) == m1.byte(fi * 4096 + j)) by {
                crate::pagetable::lemma_pages_apart(fi * 4096, f * 4096);
            }
        }
    }
    assert forall|i: int, j: int|
        0 <= i < k + 1 && 0 <= j < 4096 && img.len() <= 4096 * i + j implies #[trigger] m2.byte(
            mapped_frame(m0, root, page_va(va0, i)) * 4096 + j,
        ) == m0.byte(mapped_frame(m0, root, page_va(va0, i)) * 4096 + j) by {
        lemma_user_page_index(u, va0, s, i);
        let fi = mapped_frame(m0, root, page_va(va0, i));
        assert(fi == mapped_frame(m0, root, page_va(u.begin, s + i)));
        lemma_managed_page(m0, fi);
        if i < k {
            assert(fi != f);
            assert(m2.byte(fi * 4096 + j) == m1.byte(fi * 4096 + j)) by {
                crate::pagetable::lemma_pages_apart(fi * 4096, f * 4096);
            }
        } else {
            let pa = f * 4096 + j;
            assert(m2.byte(pa) == m1.byte(pa));
            crate::pagetable::lemma_frame_of(f * 4096, pa);
            assert(!range_frames(m0, root, va0, k).contains(f)) by {
                if range_frames(m0, root, va0, k).contains(f) {
                    let i2 = choose|i2: int|
                        0 <= i2 < k && translate(m0, root, page_va(va0, i2)) is Some && f
                            == #[trigger] mapped_frame(m0, root, page_va(va0, i2));
                    lemma_user_page_index(u, va0, s, i2);
                    assert(mapped_frame(m0, root, page_va(va0, i2)) == mapped_frame(m0, root, page_va(u.begin, s + i2)));
                }
            }
            assert(m1.byte(pa) == m0.byte(pa));
        }
    }
}

impl Uvm {
    /// Copies `img` into user memory from `va` on, a page at a time, through
    /// the address space's mappings. Fails, changing nothing, when `va` is not
    /// page aligned or when a page the image needs is not one of the mapped
    /// user pages.
    pub fn load(&mut self, mem: &mut PhysMem, va: u32, img: &[u8]) -> (res: Result<(), ()>)
        requires
            old(self).wf(old(mem)),
        ensures
            res is Err <==> va % PAGESIZE != 0 || !(old(self).begin <= va && va + PAGESIZE * pages_for(
                img@.len() as int,
            ) <= old(self).begin + old(self).size),
            forall|k: int|
                0 <= k < pages_for(img@.len() as int) && va + PAGESIZE * k <= u32::MAX && (#[trigger] translate(
                    old(mem),
                    old(self).pagetree,
                    page_va(va, k),
                )) is None ==> res is Err,
            *final(self) == *old(self),
            final(self).wf(final(mem)),
            final(mem).same_range(old(mem)),
            final(mem).free() == old(mem).free(),
            tree_frames(final(mem), old(self).pagetree) == tree_frames(old(mem), old(self).pagetree),
            forall|v: u32| #[trigger] translate(final(mem), old(self).pagetree, v) == translate(old(mem), old(self).pagetree, v),
            final(mem).agree_except_frames(
                old(mem),
                range_frames(old(mem), old(self).pagetree, va, pages_for(img@.len() as int)),
            ),
            res is Err ==> *final(mem) == *old(mem),
            res is Ok ==> forall|i: int, j: int|
                0 <= i && 0 <= j < 4096 && 4096 * i + j < img@.len() ==> #[trigger] final(mem).byte(
                    mapped_frame(old(mem), old(self).pagetree, page_va(va, i)) * 4096 + j,
                ) == img@[4096 * i + j],
            res is Ok ==> forall|i: int, j: int|
                0 <= i < pages_for(img@.len() as int) && 0 <= j < 4096 && img@.len() <= 4096 * i + j
                    ==> #[trigger] final(mem).byte(
                    mapped_frame(old(mem), old(self).pagetree, page_va(va, i)) * 4096 + j,
                ) == old(mem).byte(mapped_frame(old(mem), old(self).pagetree, page_va(va, i)) * 4096 + j),
    {
        let ghost m0 = *old(mem);
        let ghost u = *old(self);
        let ghost root = u.pagetree;
        if va % PAGESIZE != 0 {
            proof {
                assert(range_frames(&m0, root, va, pages_for(img@.len() as int)).len() >= 0);
            }
            return Err(());
        }
        let end = self.end();
        if va < self.begin || va > end || (img.len() as u64) > ((end - va) as u64) {
            proof {
                assert(USER_START % 4096 == 0);
                if va >= u.begin && va <= end {
                    let d = end - va;
                    assert(d % 4096 == 0);
                    assert(img@.len() > d);
                    assert(4096 * pages_for(img@.len() as int) > d) by (nonlinear_arith)
                        requires
                            img@.len() > d,
                            d >= 0,
                    {}
                }
            }
            return Err(());
        }
        proof {
            let d = end - va;
            assert(USER_START % 4096 == 0);
            assert(d % 4096 == 0);
            assert(4096 * pages_for(img@.len() as int) <= d) by (nonlinear_arith)
                requires
                    img@.len() <= d,
                    d % 4096 == 0,
                    d >= 0,
            {}
        }
        let ghost va0 = va;
        let ghost s: int = (va - u.begin) / 4096;
        let ghost n = pages_for(img@.len() as int);
        let len = img.len();
        let mut va = va;
        let mut off: usize = 0;
        let ghost mut k: int = 0;
        proof {
            assert(USER_START % 4096 == 0);
            assert(va0 == u.begin + 4096 * s);
            crate::pagetable::lemma_shrink_free(&m0, &m0, root);
            assert(range_frames(&m0, root, va0, 0) =~= Set::<int>::empty());
        }
        while off < len
            invariant
                m0 == *old(mem),
                u == *old(self),
                root == u.pagetree,
                *self == u,
                len == img@.len(),
                n == pages_for(len as int),
                va0 == u.begin + 4096 * s,
                0 <= s,
                va0 + 4096 * n <= u.begin + u.size,
                u.wf(&m0),
                0 <= k <= n,
                off == 4096 * k,
                va == va0 + 4096 * k,
                mem.wf(),
                mem.same_range(&m0),
                mem.free() == m0.free(),
                tree_wf(mem, root),
                tree_frames(mem, root) == tree_frames(&m0, root),
                forall|v: u32| #[trigger] translate(mem, root, v) == translate(&m0, root, v),
                forall|i: int| 0 <= i < 1024 ==> #[trigger] megapage(mem, root, i) == megapage(&m0, root, i),
                mem.agree_except_frames(&m0, range_frames(&m0, root, va0, k)),
                forall|i: int, j: int|
                    0 <= i < k && 0 <= j < 4096 && 4096 * i + j < img@.len() ==> #[trigger] mem.byte(
                        mapped_frame(&m0, root, page_va(va0, i)) * 4096 + j,
                    ) == img@[4096 * i + j],
                forall|i: int, j: int|
                    0 <= i < k && 0 <= j < 4096 && img@.len() <= 4096 * i + j ==> #[trigger] mem.byte(
                        mapped_frame(&m0, root, page_va(va0, i)) * 4096 + j,
                    ) == m0.byte(mapped_frame(&m0, root, page_va(va0, i)) * 4096 + j),
            decreases n - k,
        {
            assert(k < n) by (nonlinear_arith)
                requires
                    off == 4096 * k,
                    off < len,
                    n == (len + 4095) / 4096,
            {}
            assert(va0 + 4096 * (k + 1) <= u.begin + u.size) by (nonlinear_arith)
                requires
                    k < n,
                    va0 + 4096 * n <= u.begin + u.size,
            {}
            let ghost m1 = *mem;
            proof {
                lemma_user_page_index(u, va0, s, k);
                assert(s + k < u.npages()) by (nonlinear_arith)
                    requires
                        va0 == u.begin + 4096 * s,
                        va0 + 4096 * (k + 1) <= u.begin + u.size,
                        u.size % 4096 == 0,
                        u.npages() == u.size / 4096,
                {}
                assert(translate(&m0, root, page_va(u.begin, s + k)) is Some);
                assert(page_va(va0, k) == va);
                assert(translate(mem, root, va) is Some);
                crate::bits::lemma_va_fields_bounded(va);
                assert(!megapage(&m0, root, va_vpn1(va) as int));
                assert(!megapage(mem, root, va_vpn1(va) as int));
            }
            let pte_addr = match walk(mem, self.pagetree, va, false) {
                Some(a) => a,
                None => return Err(()),
            };
            let pte = PTE::from(mem.read_u32(pte_addr));
            let dst = pte.ppn << 12u32;
            let ghost f = mapped_frame(&m0, root, page_va(va0, k));
            proof {
                assert(dst == pte_page(translate(&m0, root, va).unwrap()));
                lemma_pte_page_aligned(translate(&m0, root, va).unwrap());
                assert(f == mapped_frame(&m0, root, page_va(u.begin, s + k)));
                lemma_managed_page(&m0, f);
                assert(dst == f * 4096);
            }
            let count: usize = if len - off < PAGESIZE as usize {
                len - off
            } else {
                PAGESIZE as usize
            };
            let ghost m1b = *mem;
            proof {
                crate::pagetable::lemma_same_state(&m1, &m1b, root);
                assert forall|i: int, j: int|
                    0 <= i < k && 0 <= j < 4096 && 4096 * i + j < img@.len() implies #[trigger] m1b.byte(
                        mapped_frame(&m0, root, page_va(va0, i)) * 4096 + j,
                    ) == img@[4096 * i + j] by {
                    assert(m1.byte(mapped_frame(&m0, root, page_va(va0, i)) * 4096 + j) == img@[4096 * i + j]);
                }
                assert forall|i: int, j: int|
                    0 <= i < k && 0 <= j < 4096 && img@.len() <= 4096 * i + j implies #[trigger] m1b.byte(
                        mapped_frame(&m0, root, page_va(va0, i)) * 4096 + j,
                    ) == m0.byte(mapped_frame(&m0, root, page_va(va0, i)) * 4096 + j) by {
                    assert(m1.byte(mapped_frame(&m0, root, page_va(va0, i)) * 4096 + j)
                        == m0.byte(mapped_frame(&m0, root, page_va(va0, i)) * 4096 + j));
                }
                assert forall|pa: int|
                    #![trigger m0.byte(pa)]
                    m1b.in_ram(pa, 1) && !range_frames(&m0, root, va0, k).contains(frame_of(pa))
                    implies m1b.byte(pa) == m0.byte(pa) by {
                    assert(m1.byte(pa) == m0.byte(pa));
                }
            }
            mem.write_bytes(dst, img, off, count);
            proof {
                lemma_load_step(&m0, &m1b, mem, u, va0, s, k, img@, count as int);
            }
            va = va + PAGESIZE;
            off = off + PAGESIZE as usize;
            proof {
                k = k + 1;
            }
        }
        proof {
            lemma_uvm_same_view(&m0, mem, u);
            assert forall|i: int, j: int|
                0 <= i && 0 <= j < 4096 && 4096 * i + j < img@.len() implies #[trigger] mem.byte(
                mapped_frame(&m0, root, page_va(va0, i)) * 4096 + j,
            ) == img@[4096 * i + j] by {
                assert(i < k) by (nonlinear_arith)
                    requires
                        4096 * i + j < len,
                        0 <= j,
                        off == 4096 * k,
                        off >= len,
                {}
            }
            assert(k == n) by (nonlinear_arith)
                requires
                    off == 4096 * k,
                    off >= len,
                    k <= n,
                    n == (len + 4095) / 4096,
            {}
            assert forall|i: int| 0 <= i < n implies (#[trigger] translate(&m0, root, page_va(va0, i))) is Some by {
                assert(va0 + 4096 * i <= u.begin + u.size);
                lemma_user_page_index(u, va0, s, i);
                assert(s + i < u.npages());
            }
        }
        Ok(())
    }
}

impl Uvm {
    /// Grows user memory by `n` bytes, rounded up to whole pages, mapped
    /// user-accessible with permission bits `perm`. When the allocator runs
    /// out of frames, the pages added are taken away again (see
    /// `alloc_pages`) and `Err` is returned.
    pub fn grow(&mut self, mem: &mut PhysMem, n: u32, perm: u32) -> (res: Result<(), ()>)
        requires
            old(self).wf(old(mem)),
            old(self).begin + old(self).size + n <= user_top(),
            perm < 0x400,
        ensures
            final(self).begin == old(self).begin,
            final(self).pagetree == old(self).pagetree,
            final(self).wf(final(mem)),
            old(self).size <= final(self).size,
            final(self).size == old(self).size || final(self).size < old(self).size + n + PAGESIZE,
            res is Ok ==> final(self).size >= old(self).size + n,
            res is Ok ==> leaf_words_kept(
                old(mem),
                final(mem),
                old(self).pagetree,
                (old(self).begin + old(self).size) as u32,
                final(self).npages() - old(self).npages(),
            ),
            res is Ok ==> old(mem).free().len() <= final(mem).free().len() + 2 * (final(self).npages()
                - old(self).npages()),
            res is Err ==> {
                &&& old(mem).free().len() < 2 * pages_for(n as int)
                &&& final(self).size == old(self).size
                &&& final(mem).free() == old(mem).free().difference(tree_frames(final(mem), old(self).pagetree))
                &&& old(mem).free().difference(tree_frames(final(mem), old(self).pagetree)).len() <= pages_for(n as int)
                &&& forall|va: u32|
                    #[trigger] translate(final(mem), old(self).pagetree, va) == translate(
                        old(mem),
                        old(self).pagetree,
                        va,
                    ) || (vpage(old(self).begin) + old(self).npages() <= vpage(va) < vpage(old(self).begin)
                        + old(self).npages() + pages_for(n as int) && translate(final(mem), old(self).pagetree, va)
                        is None)
            },
            res is Ok ==> forall|va: u32|
                !(vpage(old(self).begin)
                    + old(self).npages() <= vpage(va) < vpage(old(self).begin) + final(self).npages())
                    ==> #[trigger] translate(final(mem), old(self).pagetree, va) == translate(
                    old(mem),
                    old(self).pagetree,
                    va,
                ),
            forall|k: int|
                old(self).npages() <= k < final(self).npages() ==> {
                    &&& #[trigger] translate(final(mem), old(self).pagetree, page_va(old(self).begin, k))
                        == Some(
                        leaf_pte(
                            (mapped_frame(final(mem), old(self).pagetree, page_va(old(self).begin, k))
                                * 4096) as u32,
                            perm | PTE_U,
                        ),
                    )
                    &&& old(mem).free().contains(
                        mapped_frame(final(mem), old(self).pagetree, page_va(old(self).begin, k)),
                    )
                },
            tree_grows(old(mem), final(mem), old(self).pagetree),
    {
        let target = self.size + n;
        proof {
            assert(pages_for(target as int) == old(self).npages() + pages_for(n as int));
        }
        self.alloc_pages(mem, target, perm)
    }
}

/// The kernel's address space: the tree rooted at the page `pagetree`.
#[derive(Copy, Clone)]
pub struct Kvm {
    pub pagetree: u32,
}

/// The first `n` pages from `virt` translate to themselves with permission
/// bits `perm`.
pub open spec fn identity_mapped(mem: &PhysMem, root: u32, virt: u32, n: int, perm: u32) -> bool {
    forall|va: u32|
        vpage(virt) <= vpage(va) < vpage(virt) + n ==> #[trigger] translate(mem, root, va) == Some(
            leaf_pte(va, perm),
        )
}

/// A range mapped to the physical range at the same address maps each page to
/// itself.
proof fn lemma_identity(m0: &PhysMem, m1: &PhysMem, root: u32, virt: u32, perm: u32, n: int)
    requires
        mapped_prefix(m0, m1, root, virt, virt, perm, n),
        0 <= n,
        virt + PAGESIZE * n <= u32::MAX,
    ensures
        identity_mapped(m1, root, virt, n, perm),
{
    assert forall|va: u32| vpage(virt) <= vpage(va) < vpage(virt) + n implies #[trigger] translate(
        m1,
        root,
        va,
    ) == Some(leaf_pte(va, perm)) by {
        let d = vpage(va) - vpage(virt);
        assert(virt + 4096 * d <= u32::MAX) by (nonlinear_arith)
            requires
                0 <= d < n,
                virt + 4096 * n <= u32::MAX,
        ;
        lemma_vpage_step(virt, d);
        let x = (virt + PAGESIZE * d) as u32;
        assert(x >> 12u32 == va >> 12u32);
    }
}

/// A map keeps every address it does not cover as the tree had it.
proof fn lemma_step_grows(m0: &PhysMem, m1: &PhysMem, root: u32)
    requires
        tree_step(m0, m1, root),
    ensures
        tree_grows(m0, m1, root),
{
}

/// The tree `Kvm::init` builds, from the root page on, changes only frames
/// that were free before.
proof fn lemma_kvm_init_changes(m0: &PhysMem, m2: &PhysMem, m: &PhysMem, root: u32)
    requires
        m0.wf(),
        m2.wf(),
        m2.same_range(m0),
        m0.free().contains(frame_of(root as int)),
        m2.free() == m0.free().remove(frame_of(root as int)),
        tree_frames(m2, root) == set![frame_of(root as int)],
        m2.agree_except_frames(m0, set![frame_of(root as int)]),
        tree_step(m2, m, root),
    ensures
        m.free().subset_of(m0.free()),
        tree_frames(m, root).subset_of(m0.free()),
        m.agree_except_frames(m0, m0.free()),
{
    assert forall|pa: int|
        #![trigger m0.byte(pa)]
        m.in_ram(pa, 1) && !m0.free().contains(frame_of(pa)) implies m.byte(pa) == m0.byte(pa) by {
        assert(!tree_frames(m, root).contains(frame_of(pa)));
        assert(m.byte(pa) == m2.byte(pa));
    }
}

impl Kvm {
    /// Well formed: memory is, and the tree is, without megapages.
    pub open spec fn wf(&self, mem: &PhysMem) -> bool {
        mem.wf() && tree_wf(mem, self.pagetree) && no_megapages(mem, self.pagetree)
    }

    /// Builds the kernel's address space: the UART page, the kernel text
    /// (read and execute) from `KERNEL_START` to `end_text`, and the kernel
    /// data and the rest of RAM (read and write) from `end_text` to
    /// `RAMEND`, each mapped to itself. Fails when the allocator runs out of
    /// frames.
    #[verifier::spinoff_prover]
    #[verifier::rlimit(60)]
    pub fn init(mem: &mut PhysMem, end_text: u32) -> (res: Result<Kvm, ()>)
        requires
            old(mem).wf(),
            KERNEL_START <= end_text <= RAMEND,
        ensures
            final(mem).wf(),
            final(mem).same_range(old(mem)),
            final(mem).free().subset_of(old(mem).free()),
            final(mem).agree_except_frames(old(mem), old(mem).free()),
            res is Err ==> final(mem).free().is_empty(),
            res matches Ok(k) ==> {
                &&& k.wf(final(mem))
                &&& old(mem).free().contains(frame_of(k.pagetree as int))
                &&& tree_frames(final(mem), k.pagetree).subset_of(old(mem).free())
                &&& final(mem).free() == old(mem).free().difference(tree_frames(final(mem), k.pagetree))
                &&& final(mem).agree_except_frames(old(mem), tree_frames(final(mem), k.pagetree))
                &&& identity_mapped(final(mem), k.pagetree, UART, 1, PTE_R | PTE_W)
                &&& forall|va: u32|
                    vpage(KERNEL_START) <= vpage(va) < vpage(end_text) ==> #[trigger] translate(
                        final(mem),
                        k.pagetree,
                        va,
                    ) == Some(leaf_pte(va, PTE_X | PTE_R))
                &&& identity_mapped(
                    final(mem),
                    k.pagetree,
                    end_text,
                    npages((RAMEND - end_text) as u32),
                    PTE_R | PTE_W,
                )
                &&& forall|va: u32|
                    vpage(va) != vpage(UART) && !(vpage(KERNEL_START) <= vpage(va) < vpage(KERNEL_START)
                        + npages((end_text - KERNEL_START) as u32)) && !(vpage(end_text) <= vpage(va)
                        < vpage(end_text) + npages((RAMEND - end_text) as u32)) ==> #[trigger] translate(
                        final(mem),
                        k.pagetree,
                        va,
                    ) is None
            },
    {
        let ghost m0 = *old(mem);
        let root_page = match mem.alloc_frame() {
            Some(p) => p,
            None => return Err(()),
        };
        let ghost m1 = *mem;
        mem.zero_page(root_page);
        let kvm = Kvm { pagetree: root_page };
        let ghost m2 = *mem;
        proof {
            lemma_empty_tree(mem, root_page);
            crate::pagetable::lemma_tree_step_refl(mem, root_page);
            assert forall|pa: int|
                #![trigger m0.byte(pa)]
                mem.in_ram(pa, 1) && !set![frame_of(root_page as int)].contains(frame_of(pa))
                implies mem.byte(pa) == m0.byte(pa) by {
                if root_page <= pa < root_page + PAGESIZE {
                    lemma_frame_of(root_page as int, pa);
                }
                assert(mem.byte(pa) == m1.byte(pa));
            }
            assert(mem.free() =~= m0.free().difference(tree_frames(mem, root_page)));
        }
        proof {
            assert(npages(PAGESIZE) == 1);
            lemma_no_megapage_over(mem, root_page, UART, 1);
        }
        match crate::pagetable::map(mem, kvm.pagetree, UART, UART, PAGESIZE, PTE_R | PTE_W) {
            Ok(()) => {},
            Err(()) => {
                proof {
                    lemma_kvm_init_changes(&m0, &m2, mem, root_page);
                }
                return Err(());
            },
        }
        let ghost m3 = *mem;
        proof {
            assert(npages(PAGESIZE) == 1);
            lemma_no_megapages_kept(&m2, &m3, root_page);
            lemma_identity(&m2, &m3, root_page, UART, PTE_R | PTE_W, 1);
            crate::pagetable::lemma_tree_step_trans(&m2, &m2, &m3, root_page);
        }
        let text_size = end_text - KERNEL_START;
        proof {
            assert(KERNEL_START + PAGESIZE * npages(text_size) <= u32::MAX) by (nonlinear_arith)
                requires
                    text_size <= RAMEND - KERNEL_START,
                    npages(text_size) == (text_size + 4095) / 4096,
            {}
        }
        proof {
            lemma_no_megapage_over(mem, root_page, KERNEL_START, npages(text_size));
        }
        match crate::pagetable::map(mem, kvm.pagetree, KERNEL_START, KERNEL_START, text_size, PTE_X | PTE_R) {
            Ok(()) => {},
            Err(()) => {
                proof {
                    crate::pagetable::lemma_tree_step_trans(&m2, &m3, mem, root_page);
                    lemma_kvm_init_changes(&m0, &m2, mem, root_page);
                }
                return Err(());
            },
        }
        let ghost m4 = *mem;
        proof {
            lemma_no_megapages_kept(&m3, &m4, root_page);
            lemma_identity(&m3, &m4, root_page, KERNEL_START, PTE_X | PTE_R, npages(text_size));
            crate::pagetable::lemma_tree_step_trans(&m2, &m3, &m4, root_page);
            crate::pagetable::lemma_vpage(UART);
            crate::pagetable::lemma_vpage(KERNEL_START);
            assert(vpage(UART) < vpage(KERNEL_START));
        }
        let data_size = RAMEND - end_text;
        proof {
            assert(end_text + PAGESIZE * npages(data_size) <= u32::MAX) by (nonlinear_arith)
                requires
                    data_size == RAMEND - end_text,
                    npages(data_size) == (data_size + 4095) / 4096,
                    end_text <= RAMEND,
            {}
        }
        proof {
            lemma_no_megapage_over(mem, root_page, end_text, npages(data_size));
        }
        match crate::pagetable::map(mem, kvm.pagetree, end_text, end_text, data_size, PTE_R | PTE_W) {
            Ok(()) => {},
            Err(()) => {
                proof {
                    crate::pagetable::lemma_tree_step_trans(&m2, &m4, mem, root_page);
                    lemma_kvm_init_changes(&m0, &m2, mem, root_page);
                }
                return Err(());
            },
        }
        proof {
            lemma_no_megapages_kept(&m4, mem, root_page);
            lemma_identity(&m4, mem, root_page, end_text, PTE_R | PTE_W, npages(data_size));
            crate::pagetable::lemma_tree_step_trans(&m2, &m4, mem, root_page);
            crate::pagetable::lemma_vpage(UART);
            crate::pagetable::lemma_vpage(end_text);
            assert(vpage(end_text) > vpage(UART));
            assert forall|va: u32|
                vpage(KERNEL_START) <= vpage(va) < vpage(end_text) implies #[trigger] translate(
                mem,
                root_page,
                va,
            ) == Some(leaf_pte(va, PTE_X | PTE_R)) by {
                assert(vpage(va) < vpage(KERNEL_START) + npages(text_size)) by {
                    crate::pagetable::lemma_vpage(va);
                    crate::pagetable::lemma_vpage(end_text);
                    crate::pagetable::lemma_vpage(KERNEL_START);
                }
            }
            assert(m2.free() =~= m0.free().difference(tree_frames(&m2, root_page)));
            assert(mem.free() =~= m0.free().difference(tree_frames(mem, root_page)));
            assert forall|pa: int|
                #![trigger m0.byte(pa)]
                mem.in_ram(pa, 1) && !tree_frames(mem, root_page).contains(frame_of(pa))
                implies mem.byte(pa) == m0.byte(pa) by {
                assert(mem.byte(pa) == m2.byte(pa));
                assert(tree_frames(&m2, root_page).subset_of(tree_frames(mem, root_page)));
            }
            lemma_kvm_init_changes(&m0, &m2, mem, root_page);
            assert forall|va: u32|
                vpage(va) != vpage(UART) && !(vpage(KERNEL_START) <= vpage(va) < vpage(KERNEL_START)
                    + npages(text_size)) && !(vpage(end_text) <= vpage(va) < vpage(end_text)
                    + npages(data_size)) implies #[trigger] translate(mem, root_page, va) is None by {
                assert(translate(mem, root_page, va) == translate(&m4, root_page, va));
                assert(translate(&m4, root_page, va) == translate(&m3, root_page, va));
                assert(translate(&m3, root_page, va) == translate(&m2, root_page, va));
            }
        }
        Ok(kvm)
    }
}

impl Kvm {
    /// Maps the kernel-stack page at `va` to the physical page of `pa`,
    /// readable and writable. Only when no frame is free at the call and a
    /// leaf table is needed does the page stay unmapped, and then nothing
    /// else changes.
    pub fn map_kstack(&mut self, mem: &mut PhysMem, pa: u32, va: u32)
        requires
            old(self).wf(old(mem)),
            va + PAGESIZE <= u32::MAX,
            pa + PAGESIZE <= u32::MAX,
        ensures
            *final(self) == *old(self),
            final(self).wf(final(mem)),
            tree_step(old(mem), final(mem), old(self).pagetree),
            translate(final(mem), old(self).pagetree, va) == Some(leaf_pte(pa, PTE_R | PTE_W))
                || (old(mem).free().is_empty() && final(mem).free().is_empty()),
            forall|v: u32|
                vpage(v) != vpage(va)
                    ==> #[trigger] translate(final(mem), old(self).pagetree, v) == translate(
                    old(mem),
                    old(self).pagetree,
                    v,
                ),
    {
        proof {
            assert(npages(PAGESIZE) == 1);
            lemma_no_megapage_over(mem, self.pagetree, va, 1);
        }
        let res = crate::pagetable::map(mem, self.pagetree, va, pa, PAGESIZE, PTE_R | PTE_W);
        proof {
            lemma_no_megapages_kept(old(mem), mem, self.pagetree);
            if res is Ok {
                assert(vpage(va) <= vpage(va) < vpage(va) + 1);
            } else {
                assert(old(mem).free().len() == 0);
                vstd::set_lib::lemma_set_empty_equivalency_len(old(mem).free());
            }
        }
    }

    /// The `satp` value that turns on translation through this address
    /// space; the caller writes it to the register between two fences.
    pub fn start_kvm(&self) -> (res: u32)
        ensures
            res == satp_encode(1, 0, self.pagetree >> 12u32),
    {
        let ppn = self.pagetree >> 12u32;
        let satp = SATP::new(1, 0, ppn);
        satp.into()
    }

    /// Backs the kernel stack at `va` with `KERNEL_STACK_PAGES` pages taken
    /// from the allocator, each mapped readable and writable. Fails when no
    /// frame is left for a page or for a leaf table, which can only happen
    /// when fewer than two frames per stack page were free at the call; the
    /// pages mapped until then stay.
    pub fn alloc_kstack(&mut self, mem: &mut PhysMem, va: u32) -> (res: Result<(), ()>)
        requires
            old(self).wf(old(mem)),
            va + PAGESIZE * KERNEL_STACK_PAGES <= u32::MAX,
        ensures
            *final(self) == *old(self),
            final(self).wf(final(mem)),
            tree_grows(old(mem), final(mem), old(self).pagetree),
            res is Err ==> final(mem).free().is_empty() && old(mem).free().len() < 2 * KERNEL_STACK_PAGES,
            res is Ok ==> old(mem).free().len() <= final(mem).free().len() + 2 * KERNEL_STACK_PAGES,
            forall|v: u32|
                !(vpage(va) <= vpage(v) < vpage(va) + KERNEL_STACK_PAGES) ==> #[trigger] translate(
                    final(mem),
                    old(self).pagetree,
                    v,
                ) == translate(old(mem), old(self).pagetree, v),
            res is Ok ==> forall|j: int|
                0 <= j < KERNEL_STACK_PAGES ==> {
                    &&& #[trigger] translate(final(mem), old(self).pagetree, page_va(va, j)) == Some(
                        leaf_pte(
                            (mapped_frame(final(mem), old(self).pagetree, page_va(va, j)) * 4096) as u32,
                            PTE_R | PTE_W,
                        ),
                    )
                    &&& old(mem).free().contains(
                        mapped_frame(final(mem), old(self).pagetree, page_va(va, j)),
                    )
                },
    {
        let ghost m0 = *old(mem);
        let ghost root = self.pagetree;
        let mut j: u32 = 0;
        proof {
            crate::pagetable::lemma_tree_step_refl(&m0, root);
        }
        while j < KERNEL_STACK_PAGES
            invariant
                m0 == *old(mem),
                *self == *old(self),
                root == self.pagetree,
                0 <= j <= KERNEL_STACK_PAGES,
                va + PAGESIZE * KERNEL_STACK_PAGES <= u32::MAX,
                self.wf(mem),
                tree_grows(&m0, mem, root),
                m0.free().len() <= mem.free().len() + 2 * j,
                forall|v: u32|
                    !(vpage(va) <= vpage(v) < vpage(va) + j)
                        ==> #[trigger] translate(mem, root, v) == translate(&m0, root, v),
                forall|i: int|
                    0 <= i < j ==> {
                        &&& #[trigger] translate(mem, root, page_va(va, i)) == Some(
                            leaf_pte((mapped_frame(mem, root, page_va(va, i)) * 4096) as u32, PTE_R | PTE_W),
                        )
                        &&& m0.free().contains(mapped_frame(mem, root, page_va(va, i)))
                    },
            decreases KERNEL_STACK_PAGES - j,
        {
            let ghost m1 = *mem;
            let pa = match mem.alloc_frame() {
                Some(p) => p,
                None => {
                    proof {
                        crate::pagetable::lemma_same_state(&m1, mem, root);
                        assert(mem.free().len() == 0);
                    }
                    return Err(());
                },
            };
            let ghost m2 = *mem;
            proof {
                vstd::set::axiom_set_remove_len(m1.free(), (pa / PAGESIZE) as int);
                lemma_shrink_free(&m1, &m2, root);
                lemma_vpage_step(va, j as int);
                crate::pagetable::lemma_free_disjoint_tree(&m1, root);
                assert(npages(PAGESIZE) == 1);
                lemma_no_megapages_kept(&m1, &m2, root);
                lemma_no_megapage_over(&m2, root, (va + j * PAGESIZE) as u32, 1);
            }
            let r = crate::pagetable::map(mem, self.pagetree, va + j * PAGESIZE, pa, PAGESIZE, PTE_R | PTE_W);
            proof {
                let vj = page_va(va, j as int);
                assert(vj == (va + j * PAGESIZE) as u32);
                lemma_no_megapages_kept(&m2, mem, root);
                assert forall|pa2: int|
                    #![trigger m0.byte(pa2)]
                    mem.in_ram(pa2, 1) && !tree_frames(mem, root).contains(frame_of(pa2))
                    implies mem.byte(pa2) == m0.byte(pa2) by {
                    assert(mem.byte(pa2) == m2.byte(pa2));
                    assert(m1.byte(pa2) == m0.byte(pa2));
                }
            }
            match r {
                Ok(()) => {},
                Err(()) => {
                    proof {
                        assert(npages(PAGESIZE) == 1);
                    }
                    return Err(());
                },
            }
            proof {
                assert(npages(PAGESIZE) == 1);
                let vj = page_va(va, j as int);
                assert(0b10u32 | 0b100u32 < 0x400) by (bit_vector);
                lemma_leaf_page(pa, PTE_R | PTE_W);
                assert(vpage(vj) <= vpage(vj) < vpage(vj) + 1);
                assert(translate(mem, root, vj) == Some(leaf_pte(pa, PTE_R | PTE_W)));
                assert forall|i: int| 0 <= i < j + 1 implies {
                    &&& #[trigger] translate(mem, root, page_va(va, i)) == Some(
                        leaf_pte((mapped_frame(mem, root, page_va(va, i)) * 4096) as u32, PTE_R | PTE_W),
                    )
                    &&& m0.free().contains(mapped_frame(mem, root, page_va(va, i)))
                } by {
                    lemma_vpage_step(va, i);
                    if i < j {
                        assert(translate(mem, root, page_va(va, i)) == translate(&m1, root, page_va(va, i)));
                    }
                }
            }
            j = j + 1;
        }
        Ok(())
    }
}

impl Uvm {
    /// Maps the trampoline page at `TRAMPOLINE` (read and execute) and the
    /// process's trap-frame page at `TRAPFRAME` (read and write), both above
    /// user memory. `trampoline` is the physical address of the trampoline
    /// code. Fails when the allocator runs out of frames for a leaf table.
    pub fn init_proc(
        &mut self,
        mem: &mut PhysMem,
        proc: &crate::process::Process,
        trampoline: u32,
    ) -> (res: Result<(), ()>)
        requires
            old(self).wf(old(mem)),
            trampoline + PAGESIZE <= u32::MAX,
            proc.trapframe_page + PAGESIZE <= u32::MAX,
        ensures
            *final(self) == *old(self),
            final(self).wf(final(mem)),
            tree_grows(old(mem), final(mem), old(self).pagetree),
            res is Err ==> final(mem).free().is_empty(),
            res is Ok ==> translate(final(mem), old(self).pagetree, TRAMPOLINE) == Some(
                leaf_pte(trampoline, PTE_R | PTE_X),
            ) && translate(final(mem), old(self).pagetree, TRAPFRAME) == Some(
                leaf_pte(proc.trapframe_page, PTE_R | PTE_W),
            ),
            forall|va: u32|
                vpage(va) != vpage(TRAMPOLINE) && vpage(va) != vpage(TRAPFRAME) ==> #[trigger] translate(final(mem), old(self).pagetree, va) == translate(
                    old(mem),
                    old(self).pagetree,
                    va,
                ),
    {
        let ghost m0 = *old(mem);
        let ghost u = *old(self);
        let ghost root = u.pagetree;
        proof {
            assert(npages(PAGESIZE) == 1);
            crate::pagetable::lemma_vpage(TRAMPOLINE);
            crate::pagetable::lemma_vpage(TRAPFRAME);
            assert forall|k: int| 0 <= k < u.npages() implies vpage(#[trigger] page_va(u.begin, k)) < vpage(TRAPFRAME) by {
                assert(u.begin + 4096 * k <= u32::MAX);
                lemma_vpage_step(u.begin, k);
                crate::pagetable::lemma_vpage(u.begin);
                assert(vpage(u.begin) + k < vpage(TRAPFRAME)) by (nonlinear_arith)
                    requires
                        k < u.npages(),
                        u.npages() == u.size / 4096,
                        vpage(u.begin) == u.begin / 4096,
                        u.begin % 4096 == 0,
                        u.begin + u.size <= 0xffff_e000,
                        vpage(TRAPFRAME) == 0xffff_e,
                ;
            }
        }
        proof {
            lemma_no_megapage_over(mem, root, TRAMPOLINE, 1);
        }
        match crate::pagetable::map(mem, self.pagetree, TRAMPOLINE, trampoline, PAGESIZE, PTE_R | PTE_X) {
            Ok(()) => {},
            Err(()) => {
                proof {
                    lemma_step_grows(&m0, mem, root);
                    lemma_uvm_keep(&m0, mem, u);
                }
                return Err(());
            },
        }
        let ghost m1 = *mem;
        proof {
            lemma_step_grows(&m0, &m1, root);
            assert(vpage(TRAMPOLINE) <= vpage(TRAMPOLINE) < vpage(TRAMPOLINE) + 1);
            lemma_uvm_keep(&m0, &m1, u);
        }
        proof {
            lemma_no_megapage_over(mem, root, TRAPFRAME, 1);
        }
        match crate::pagetable::map(mem, self.pagetree, TRAPFRAME, proc.trapframe_page, PAGESIZE, PTE_R | PTE_W) {
            Ok(()) => {},
            Err(()) => {
                proof {
                    crate::pagetable::lemma_tree_step_trans(&m0, &m1, mem, root);
                    lemma_step_grows(&m0, mem, root);
                    assert forall|k: int|
                        0 <= k < u.npages() implies #[trigger] translate(mem, root, page_va(u.begin, k))
                        == translate(&m0, root, page_va(u.begin, k)) by {
                        assert(translate(&m0, root, page_va(u.begin, k)) is Some);
                    }
                    lemma_uvm_keep(&m0, mem, u);
                }
                return Err(());
            },
        }
        proof {
            crate::pagetable::lemma_tree_step_trans(&m0, &m1, mem, root);
            lemma_step_grows(&m0, mem, root);
            assert(vpage(TRAPFRAME) <= vpage(TRAPFRAME) < vpage(TRAPFRAME) + 1);
            assert forall|k: int|
                0 <= k < u.npages() implies #[trigger] translate(mem, root, page_va(u.begin, k))
                == translate(&m0, root, page_va(u.begin, k)) by {
                assert(translate(&m0, root, page_va(u.begin, k)) is Some);
            }
            lemma_uvm_keep(&m0, mem, u);
        }
        Ok(())
    }
}

/// An address space is unaffected by a change of memory that leaves the
/// bytes of its pages alone and does not free any of them.
pub proof fn lemma_uvm_untouched(m0: &PhysMem, m1: &PhysMem, u: Uvm, changed: Set<int>)
    requires
        u.wf(m0),
        m1.wf(),
        m1.same_range(m0),
        m1.agree_except_frames(m0, changed),
        changed.disjoint(u.footprint(m0)),
        m1.free().disjoint(u.footprint(m0)),
    ensures
        u.wf(m1),
        u.footprint(m1) == u.footprint(m0),
        forall|va: u32| #[trigger] translate(m1, u.pagetree, va) == translate(m0, u.pagetree, va),
{
    let root = u.pagetree;
    lemma_tree_untouched(m0, m1, root, changed);
    lemma_uvm_same_frames(m0, m1, u);
}

/// A tree is unaffected by a change of memory that leaves the bytes of its
/// pages alone and does not free any of them.
pub proof fn lemma_tree_untouched(m0: &PhysMem, m1: &PhysMem, root: u32, changed: Set<int>)
    requires
        m0.wf(),
        tree_wf(m0, root),
        m1.same_range(m0),
        m1.agree_except_frames(m0, changed),
        changed.disjoint(tree_frames(m0, root)),
        m1.free().disjoint(tree_frames(m0, root)),
    ensures
        tree_wf(m1, root),
        tree_frames(m1, root) == tree_frames(m0, root),
        forall|va: u32| #[trigger] translate(m1, root, va) == translate(m0, root, va),
        forall|i: int| 0 <= i < 1024 ==> #[trigger] megapage(m1, root, i) == megapage(m0, root, i),
{
    assert forall|f: int| tree_frames(m0, root).contains(f) implies #[trigger] m1.agree_on_frame(m0, f) by {
        assert(m0.is_ram_page(f * 4096)) by {
            if f != frame_of(root as int) {
                let i = choose|i: int|
                    0 <= i < 1024 && crate::pagetable::table_valid(m0, root, i) && f == frame_of(
                        #[trigger] crate::pagetable::table_at(m0, root, i),
                    );
                assert(m0.is_ram_page(crate::pagetable::table_at(m0, root, i)));
            }
        }
        assert forall|pa: int| f * 4096 <= pa < f * 4096 + 4096 implies #[trigger] m1.byte(pa) == m0.byte(pa) by {
            lemma_frame_of(f * 4096, pa);
        }
    }
    lemma_tree_frame(m0, m1, root);
}

/// An address space whose tree kept its translations, in memory where none
/// of its pages is free, keeps its user pages.
proof fn lemma_uvm_same_frames(m0: &PhysMem, m1: &PhysMem, u: Uvm)
    requires
        u.wf(m0),
        m1.wf(),
        m1.same_range(m0),
        tree_wf(m1, u.pagetree),
        tree_frames(m1, u.pagetree) == tree_frames(m0, u.pagetree),
        forall|va: u32| #[trigger] translate(m1, u.pagetree, va) == translate(m0, u.pagetree, va),
        forall|i: int| 0 <= i < 1024 ==> #[trigger] megapage(m1, u.pagetree, i) == megapage(m0, u.pagetree, i),
        m1.free().disjoint(u.footprint(m0)),
    ensures
        u.wf(m1),
        u.footprint(m1) == u.footprint(m0),
{
    let root = u.pagetree;
    let n = u.npages();
    lemma_no_megapages_kept(m0, m1, root);
    assert forall|k: int|
        0 <= k < n implies #[trigger] mapped_frame(m1, root, page_va(u.begin, k)) == mapped_frame(
        m0,
        root,
        page_va(u.begin, k),
    ) by {
        assert(translate(m1, root, page_va(u.begin, k)) == translate(m0, root, page_va(u.begin, k)));
    }
    assert(range_frames(m1, root, u.begin, n) =~= range_frames(m0, root, u.begin, n)) by {
        assert forall|f: int| range_frames(m1, root, u.begin, n).contains(f) <==> range_frames(m0, root, u.begin, n).contains(f) by {
            if range_frames(m1, root, u.begin, n).contains(f) {
                let k = choose|k: int| 0 <= k < n && f == #[trigger] mapped_frame(m1, root, page_va(u.begin, k));
                assert(mapped_frame(m0, root, page_va(u.begin, k)) == f);
            }
            if range_frames(m0, root, u.begin, n).contains(f) {
                let k = choose|k: int| 0 <= k < n && f == #[trigger] mapped_frame(m0, root, page_va(u.begin, k));
                assert(mapped_frame(m1, root, page_va(u.begin, k)) == f);
            }
        }
    }
    assert(u.footprint(m1) =~= u.footprint(m0));
    assert(range_mapped(m1, root, u.begin, n)) by {
        assert forall|k: int| 0 <= k < n implies (#[trigger] translate(
            m1,
            root,
            page_va(u.begin, k),
        )) is Some by {
            assert(translate(m1, root, page_va(u.begin, k)) == translate(m0, root, page_va(u.begin, k)));
        }
    }
    assert(range_releasable(m1, root, u.begin, n)) by {
        assert forall|k: int| 0 <= k < n implies {
            &&& m1.managed().contains(#[trigger] mapped_frame(m1, root, page_va(u.begin, k)))
            &&& !m1.free().contains(mapped_frame(m1, root, page_va(u.begin, k)))
            &&& !tree_frames(m1, root).contains(mapped_frame(m1, root, page_va(u.begin, k)))
        } by {
            let f = mapped_frame(m0, root, page_va(u.begin, k));
            assert(range_frames(m0, root, u.begin, n).contains(f));
            assert(u.footprint(m0).contains(f));
        }
        assert forall|k1: int, k2: int|
            0 <= k1 < n && 0 <= k2 < n && k1 != k2 implies #[trigger] mapped_frame(
            m1,
            root,
            page_va(u.begin, k1),
        ) != #[trigger] mapped_frame(m1, root, page_va(u.begin, k2)) by {
            assert(mapped_frame(m1, root, page_va(u.begin, k1)) == mapped_frame(m0, root, page_va(u.begin, k1)));
            assert(mapped_frame(m1, root, page_va(u.begin, k2)) == mapped_frame(m0, root, page_va(u.begin, k2)));
        }
    }
}

/// A root page of zero bytes holds an empty, well-formed tree.
pub proof fn lemma_empty_tree(mem: &PhysMem, root: u32)
    requires
        mem.wf(),
        mem.is_ram_page(root as int),
        !mem.free().contains(frame_of(root as int)),
        forall|k: int| 0 <= k < PAGESIZE ==> #[trigger] mem.byte(root + k) == 0,
    ensures
        tree_wf(mem, root),
        tree_frames(mem, root) == set![frame_of(root as int)],
        forall|i: int| 0 <= i < 1024 ==> #[trigger] root_entry(mem, root, i) == 0,
        forall|i: int| 0 <= i < 1024 ==> !#[trigger] table_valid(mem, root, i),
        no_megapages(mem, root),
        forall|va: u32| #[trigger] translate(mem, root, va) is None,
{
    assert forall|i: int| 0 <= i < 1024 implies #[trigger] root_entry(mem, root, i) == 0
        && !table_valid(mem, root, i) by {
        let k = 4 * i;
        assert(mem.byte(root + k) == 0);
        assert(mem.byte(root + (k + 1)) == 0);
        assert(mem.byte(root + (k + 2)) == 0);
        assert(mem.byte(root + (k + 3)) == 0);
        crate::pagetable::lemma_zero_word(mem, root + k);
    }
    assert forall|i: int| 0 <= i < 1024 implies !#[trigger] megapage(mem, root, i) by {
        assert(root_entry(mem, root, i) == 0);
        assert(!pte_valid(0u32)) by (bit_vector);
    }
    assert(tree_frames(mem, root) =~= set![frame_of(root as int)]);
    assert forall|va: u32| #[trigger] translate(mem, root, va) is None by {
        crate::bits::lemma_va_fields_bounded(va);
        assert(root_entry(mem, root, crate::bits::va_vpn1(va) as int) == 0);
        assert(!pte_valid(0u32)) by (bit_vector);
    }
}

} // verus!
