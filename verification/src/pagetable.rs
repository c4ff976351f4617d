//! Two-level Sv32 page tables kept in physical memory: the walk to a leaf
//! entry, and mapping and unmapping ranges of pages.

use vstd::prelude::*;
use crate::bits::{
    PTE, lemma_va_fields_bounded, pte_decode, pte_encode, va_vpn0, va_vpn1, VA,
};
use crate::layout::PAGESIZE;
use crate::physmem::{PhysMem, frame_of, le_word, lemma_word_in_frame, lemma_word_outside};

verus! {

/// The entry's valid bit is set.
pub open spec fn pte_valid(e: u32) -> bool {
    e & 1u32 != 0
}

/// Physical address of the page an entry points at.
pub open spec fn pte_page(e: u32) -> u32 {
    ((e & 0xffff_fc00u32) >> 10u32) << 12u32
}

/// The leaf entry that maps the page of `pa` with permission bits `perm`.
pub open spec fn leaf_pte(pa: u32, perm: u32) -> u32 {
    (((pa >> 12u32) << 10u32) | 1u32) | perm
}

/// The root-table entry for index `i`.
pub open spec fn root_entry(mem: &PhysMem, root: u32, i: int) -> u32 {
    mem.word(root + 4 * i)
}

/// The entry is a leaf: one of its read, write and execute bits is set.
pub open spec fn pte_leaf(e: u32) -> bool {
    e & 0xeu32 != 0
}

/// Root entry `i` is a megapage: a valid leaf that maps 4 MiB by itself.
pub open spec fn megapage(mem: &PhysMem, root: u32, i: int) -> bool {
    pte_valid(root_entry(mem, root, i)) && pte_leaf(root_entry(mem, root, i))
}

/// Root entry `i` points at a leaf table: it is valid and not a leaf.
pub open spec fn table_valid(mem: &PhysMem, root: u32, i: int) -> bool {
    pte_valid(root_entry(mem, root, i)) && !pte_leaf(root_entry(mem, root, i))
}

/// No root entry over the pages from `virt` to `virt + n` pages is a
/// megapage.
pub open spec fn no_megapage_over(mem: &PhysMem, root: u32, virt: u32, n: int) -> bool {
    forall|va: u32|
        vpage(virt) <= vpage(va) < vpage(virt) + n ==> !#[trigger] megapage(mem, root, va_vpn1(va) as int)
}

/// No root entry is a megapage.
pub open spec fn no_megapages(mem: &PhysMem, root: u32) -> bool {
    forall|i: int| 0 <= i < 1024 ==> !#[trigger] megapage(mem, root, i)
}

/// Physical address of the leaf table that root entry `i` points at.
pub open spec fn table_at(mem: &PhysMem, root: u32, i: int) -> int {
    pte_page(root_entry(mem, root, i)) as int
}

/// Physical address of the leaf entry for `va`, once its root entry is valid.
pub open spec fn leaf_addr(mem: &PhysMem, root: u32, va: u32) -> int {
    table_at(mem, root, va_vpn1(va) as int) + 4 * va_vpn0(va)
}

pub open spec fn leaf_entry(mem: &PhysMem, root: u32, va: u32) -> u32 {
    mem.word(leaf_addr(mem, root, va))
}

/// What the tree rooted at `root` maps `va` to: the root entry itself when
/// it is a megapage, else the valid leaf entry reached through a root entry
/// that points at a leaf table, if there is one.
pub open spec fn translate(mem: &PhysMem, root: u32, va: u32) -> Option<u32> {
    if megapage(mem, root, va_vpn1(va) as int) {
        Some(root_entry(mem, root, va_vpn1(va) as int))
    } else if table_valid(mem, root, va_vpn1(va) as int) && pte_valid(leaf_entry(mem, root, va)) {
        Some(leaf_entry(mem, root, va))
    } else {
        None
    }
}

/// A well-formed tree: the root and every leaf table are pages of RAM that the
/// allocator does not hold free, no leaf table is the root, and no two root
/// entries share a leaf table.
pub open spec fn tree_wf(mem: &PhysMem, root: u32) -> bool {
    &&& mem.is_ram_page(root as int)
    &&& !mem.free().contains(frame_of(root as int))
    &&& forall|i: int|
        #![trigger table_at(mem, root, i)]
        0 <= i < 1024 && table_valid(mem, root, i) ==> {
            &&& mem.is_ram_page(table_at(mem, root, i))
            &&& table_at(mem, root, i) != root
            &&& !mem.free().contains(frame_of(table_at(mem, root, i)))
        }
    &&& forall|i: int, j: int|
        #![trigger table_at(mem, root, i), table_at(mem, root, j)]
        0 <= i < 1024 && 0 <= j < 1024 && i != j && table_valid(mem, root, i) && table_valid(
            mem,
            root,
            j,
        ) ==> table_at(mem, root, i) != table_at(mem, root, j)
}

/// The frames of the tree's pages: the root and every leaf table.
pub open spec fn tree_frames(mem: &PhysMem, root: u32) -> Set<int> {
    Set::new(
        |f: int|
            f == frame_of(root as int) || exists|i: int|
                0 <= i < 1024 && table_valid(mem, root, i) && f == frame_of(#[trigger] table_at(mem, root, i)),
    )
}

/// Two distinct page-aligned addresses are a page apart.
pub proof fn lemma_pages_apart(x: int, y: int)
    requires
        x % 4096 == 0,
        y % 4096 == 0,
        x != y,
    ensures
        x + 4096 <= y || y + 4096 <= x,
{
}

/// The frame of an address inside a page is the page's frame.
pub proof fn lemma_frame_of(page: int, pa: int)
    requires
        page % 4096 == 0,
        page <= pa < page + 4096,
    ensures
        pa / 4096 == page / 4096,
{
}

/// The number of the virtual page holding `va`.
pub open spec fn vpage(va: u32) -> int {
    (va >> 12u32) as int
}

/// Pages of a range of `size` bytes: the number of steps of one page that
/// stay below the range's end.
pub open spec fn npages(size: u32) -> int {
    (size as int + 4095) / 4096
}

pub proof fn lemma_vpage(va: u32)
    ensures
        vpage(va) == va as int / 4096,
{
    assert(va >> 12u32 == va / 4096) by (bit_vector);
}

/// Stepping `k` pages from `va` moves `k` page numbers.
pub proof fn lemma_vpage_step(va: u32, k: int)
    requires
        0 <= k,
        va + 4096 * k <= u32::MAX,
    ensures
        vpage((va + 4096 * k) as u32) == vpage(va) + k,
{
    lemma_vpage(va);
    lemma_vpage((va + 4096 * k) as u32);
    let x = va as int;
    vstd::arithmetic::div_mod::lemma_fundamental_div_mod(x, 4096);
    let q = x / 4096;
    let r = x % 4096;
    assert(x + 4096 * k == (q + k) * 4096 + r) by (nonlinear_arith)
        requires
            x == 4096 * q + r,
    ;
    vstd::arithmetic::div_mod::lemma_fundamental_div_mod_converse(x + 4096 * k, 4096, q + k, r);
}

/// Two addresses lie in the same page exactly when both page numbers of their
/// split agree.
pub proof fn lemma_same_page(va: u32, wa: u32)
    ensures
        (vpage(va) == vpage(wa)) == (va_vpn1(va) == va_vpn1(wa) && va_vpn0(va) == va_vpn0(wa)),
{
    assert((va >> 12u32 == wa >> 12u32) == ((va & 0xffc0_0000u32) >> 22u32 == (wa & 0xffc0_0000u32)
        >> 22u32 && (va & 0x003f_f000u32) >> 12u32 == (wa & 0x003f_f000u32) >> 12u32))
        by (bit_vector);
}

/// The entry written for a new leaf table is valid and points at the table.
pub proof fn lemma_table_entry(pa: u32)
    requires
        pa % 4096 == 0,
    ensures
        pte_valid(((pa >> 12u32) << 10u32) | 1u32),
        !pte_leaf(((pa >> 12u32) << 10u32) | 1u32),
        pte_page(((pa >> 12u32) << 10u32) | 1u32) == pa,
{
    assert(pa % 4096 == 0 ==> (((pa >> 12u32) << 10u32) | 1u32) & 1u32 != 0 && (((pa >> 12u32)
        << 10u32) | 1u32) & 0xeu32 == 0 && ((((((pa >> 12u32) << 10u32) | 1u32) & 0xffff_fc00u32)
        >> 10u32) << 12u32) == pa) by (bit_vector);
}

/// Entries point at page-aligned addresses.
pub proof fn lemma_pte_page_aligned(e: u32)
    ensures
        pte_page(e) % 4096 == 0,
{
    assert((((e & 0xffff_fc00u32) >> 10u32) << 12u32) % 4096 == 0) by (bit_vector);
}

/// A leaf entry whose permission bits stay below the page number points at
/// the page it was made for.
pub proof fn lemma_leaf_page(pa: u32, perm: u32)
    requires
        pa % 4096 == 0,
        perm < 0x400,
    ensures
        pte_page(leaf_pte(pa, perm)) == pa,
{
    assert(pa % 4096 == 0 && perm < 0x400 ==> ((((((pa >> 12u32) << 10u32) | 1u32) | perm)
        & 0xffff_fc00u32) >> 10u32) << 12u32 == pa) by (bit_vector);
}

/// Taking frames out of the free set keeps every tree as it was.
pub proof fn lemma_shrink_free(m1: &PhysMem, m2: &PhysMem, root: u32)
    requires
        tree_wf(m1, root),
        m2.same_range(m1),
        m2.same_bytes(m1),
        m2.free().subset_of(m1.free()),
    ensures
        tree_wf(m2, root),
        tree_frames(m2, root) == tree_frames(m1, root),
        forall|va: u32| #[trigger] translate(m2, root, va) == translate(m1, root, va),
        forall|i: int| 0 <= i < 1024 ==> #[trigger] megapage(m2, root, i) == megapage(m1, root, i),
{
    assert forall|pa: int| #![trigger m1.byte(pa)] m2.byte(pa) == m1.byte(pa) by {}
    assert(forall|i: int| #![trigger root_entry(m2, root, i)] root_entry(m2, root, i) == root_entry(m1, root, i));
    lemma_free_disjoint_tree(m1, root);
    lemma_same_roots(m1, m2, root);
    assert(forall|va: u32| #[trigger] leaf_entry(m2, root, va) == leaf_entry(m1, root, va));
}

/// The leaf entry for `pa` is valid.
pub proof fn lemma_leaf_valid(pa: u32, perm: u32)
    ensures
        pte_valid(leaf_pte(pa, perm)),
{
    assert(((((pa >> 12u32) << 10u32) | 1u32) | perm) & 1u32 != 0) by (bit_vector);
}

/// A tree is unchanged by anything that keeps the bytes of its pages and
/// does not put them in the allocator's free set.
pub proof fn lemma_tree_frame(m1: &PhysMem, m2: &PhysMem, root: u32)
    requires
        tree_wf(m1, root),
        m2.same_range(m1),
        forall|f: int| tree_frames(m1, root).contains(f) ==> #[trigger] m2.agree_on_frame(m1, f),
        m2.free().disjoint(tree_frames(m1, root)),
    ensures
        tree_wf(m2, root),
        tree_frames(m2, root) == tree_frames(m1, root),
        forall|va: u32| #[trigger] translate(m2, root, va) == translate(m1, root, va),
        forall|i: int| 0 <= i < 1024 ==> #[trigger] root_entry(m2, root, i) == root_entry(m1, root, i),
        forall|i: int| 0 <= i < 1024 ==> #[trigger] megapage(m2, root, i) == megapage(m1, root, i),
{
    let rf = frame_of(root as int);
    assert(tree_frames(m1, root).contains(rf));
    assert(m2.agree_on_frame(m1, rf));
    assert forall|i: int| 0 <= i < 1024 implies #[trigger] root_entry(m2, root, i) == root_entry(
        m1,
        root,
        i,
    ) by {
        lemma_word_in_frame(m1, m2, root + 4 * i, rf);
    }
    lemma_same_roots(m1, m2, root);
    assert forall|va: u32| #[trigger] translate(m2, root, va) == translate(m1, root, va) by {
        lemma_va_fields_bounded(va);
        let i = va_vpn1(va) as int;
        assert(root_entry(m2, root, i) == root_entry(m1, root, i));
        if table_valid(m1, root, i) {
            let t = table_at(m1, root, i);
            assert(tree_frames(m1, root).contains(frame_of(t)));
            assert(m2.agree_on_frame(m1, frame_of(t)));
            assert(t / 4096 * 4096 == t);
            lemma_word_in_frame(m1, m2, leaf_addr(m1, root, va), frame_of(t));
        }
    }
}


/// Well-formedness and the frames of a tree depend only on its root entries
/// and on the free set.
pub proof fn lemma_same_roots(m1: &PhysMem, m2: &PhysMem, root: u32)
    requires
        tree_wf(m1, root),
        m2.same_range(m1),
        m2.free().disjoint(tree_frames(m1, root)),
        forall|i: int| 0 <= i < 1024 ==> #[trigger] root_entry(m2, root, i) == root_entry(m1, root, i),
    ensures
        tree_wf(m2, root),
        tree_frames(m2, root) == tree_frames(m1, root),
        forall|i: int| 0 <= i < 1024 ==> #[trigger] megapage(m2, root, i) == megapage(m1, root, i),
{
    let rf = frame_of(root as int);
    assert(tree_frames(m1, root).contains(rf));
    assert forall|i: int| 0 <= i < 1024 implies #[trigger] megapage(m2, root, i) == megapage(m1, root, i) by {
        assert(root_entry(m2, root, i) == root_entry(m1, root, i));
    }
    assert forall|i: int|
        #![trigger table_at(m2, root, i)]
        0 <= i < 1024 && table_valid(m2, root, i) implies {
        &&& m2.is_ram_page(table_at(m2, root, i))
        &&& table_at(m2, root, i) != root
        &&& !m2.free().contains(frame_of(table_at(m2, root, i)))
    } by {
        assert(root_entry(m2, root, i) == root_entry(m1, root, i));
        assert(table_at(m1, root, i) == table_at(m2, root, i));
        assert(tree_frames(m1, root).contains(frame_of(table_at(m1, root, i))));
    }
    assert forall|i: int, j: int|
        #![trigger table_at(m2, root, i), table_at(m2, root, j)]
        0 <= i < 1024 && 0 <= j < 1024 && i != j && table_valid(m2, root, i) && table_valid(
            m2,
            root,
            j,
        ) implies table_at(m2, root, i) != table_at(m2, root, j) by {
        assert(root_entry(m2, root, i) == root_entry(m1, root, i));
        assert(root_entry(m2, root, j) == root_entry(m1, root, j));
        assert(table_at(m1, root, i) != table_at(m1, root, j));
    }
    assert forall|f: int| tree_frames(m2, root).contains(f) <==> tree_frames(m1, root).contains(
        f,
    ) by {
        if tree_frames(m1, root).contains(f) && f != rf {
            let i = choose|i: int|
                0 <= i < 1024 && table_valid(m1, root, i) && f == frame_of(
                    #[trigger] table_at(m1, root, i),
                );
            assert(root_entry(m2, root, i) == root_entry(m1, root, i));
            assert(table_at(m2, root, i) == table_at(m1, root, i));
        }
        if tree_frames(m2, root).contains(f) && f != rf {
            let i = choose|i: int|
                0 <= i < 1024 && table_valid(m2, root, i) && f == frame_of(
                    #[trigger] table_at(m2, root, i),
                );
            assert(root_entry(m2, root, i) == root_entry(m1, root, i));
            assert(table_at(m1, root, i) == table_at(m2, root, i));
        }
    }
    assert(tree_frames(m2, root) =~= tree_frames(m1, root));
}

/// Writing the leaf entry of `va0` changes what `va0`'s page translates to and
/// nothing else.
pub proof fn lemma_write_leaf(m1: &PhysMem, m2: &PhysMem, root: u32, va0: u32, v: u32)
    requires
        tree_wf(m1, root),
        table_valid(m1, root, va_vpn1(va0) as int),
        m2.same_range(m1),
        m2.free() == m1.free(),
        m2.agree_outside(m1, leaf_addr(m1, root, va0), leaf_addr(m1, root, va0) + 4),
        m2.word(leaf_addr(m1, root, va0)) == v,
    ensures
        tree_wf(m2, root),
        tree_frames(m2, root) == tree_frames(m1, root),
        forall|i: int| 0 <= i < 1024 ==> #[trigger] root_entry(m2, root, i) == root_entry(m1, root, i),
        forall|va: u32|
            vpage(va) != vpage(va0) ==> #[trigger] translate(m2, root, va) == translate(
                m1,
                root,
                va,
            ),
        forall|va: u32|
            vpage(va) == vpage(va0) ==> #[trigger] translate(m2, root, va) == if pte_valid(v) {
                Some(v)
            } else {
                None
            },
        m2.agree_except_frames(m1, tree_frames(m1, root)),
        forall|va: u32|
            vpage(va) != vpage(va0) && table_valid(m1, root, va_vpn1(va) as int) ==> #[trigger] leaf_entry(
                m2,
                root,
                va,
            ) == leaf_entry(m1, root, va),
{
    lemma_va_fields_bounded(va0);
    let i0 = va_vpn1(va0) as int;
    let t0 = table_at(m1, root, i0);
    let a0 = leaf_addr(m1, root, va0);
    assert(m1.is_ram_page(t0));
    assert forall|i: int| 0 <= i < 1024 implies #[trigger] root_entry(m2, root, i) == root_entry(
        m1,
        root,
        i,
    ) by {
        lemma_pages_apart(root as int, t0);
        lemma_word_outside(m1, m2, root + 4 * i, a0, a0 + 4);
    }
    lemma_same_roots(m1, m2, root);
    assert forall|va: u32| vpage(va) != vpage(va0) && table_valid(m1, root, va_vpn1(va) as int) implies #[trigger] leaf_entry(
        m2,
        root,
        va,
    ) == leaf_entry(m1, root, va) by {
        lemma_va_fields_bounded(va);
        lemma_same_page(va, va0);
        let i = va_vpn1(va) as int;
        assert(root_entry(m2, root, i) == root_entry(m1, root, i));
        let t = table_at(m1, root, i);
        if i != i0 {
            lemma_pages_apart(t, t0);
        }
        lemma_word_outside(m1, m2, leaf_addr(m1, root, va), a0, a0 + 4);
    }
    assert forall|va: u32| vpage(va) != vpage(va0) implies #[trigger] translate(m2, root, va)
        == translate(m1, root, va) by {
        lemma_va_fields_bounded(va);
        lemma_same_page(va, va0);
        let i = va_vpn1(va) as int;
        assert(root_entry(m2, root, i) == root_entry(m1, root, i));
        if table_valid(m1, root, i) {
            let t = table_at(m1, root, i);
            if i != i0 {
                lemma_pages_apart(t, t0);
            }
            lemma_word_outside(m1, m2, leaf_addr(m1, root, va), a0, a0 + 4);
        }
    }
    assert forall|va: u32| vpage(va) == vpage(va0) implies #[trigger] translate(m2, root, va)
        == if pte_valid(v) {
        Some(v)
    } else {
        None
    } by {
        lemma_same_page(va, va0);
        assert(root_entry(m2, root, i0) == root_entry(m1, root, i0));
    }
    assert(tree_frames(m1, root).contains(frame_of(t0)));
    assert forall|pa: int|
        #![trigger m1.byte(pa)]
        m2.in_ram(pa, 1) && !tree_frames(m1, root).contains(frame_of(pa)) implies m2.byte(pa)
        == m1.byte(pa) by {
        if a0 <= pa < a0 + 4 {
            lemma_frame_of(t0, pa);
        }
    }
}

/// Pointing the invalid root entry `i` at a page just taken from the free
/// set adds that page to the tree and changes no existing translation, nor
/// any translation outside the root entry's range.
pub proof fn lemma_write_root(m1: &PhysMem, m2: &PhysMem, root: u32, i0: int, e: u32)
    requires
        tree_wf(m1, root),
        0 <= i0 < 1024,
        !pte_valid(root_entry(m1, root, i0)),
        pte_valid(e),
        !pte_leaf(e),
        m2.is_ram_page(pte_page(e) as int),
        m1.free().contains(frame_of(pte_page(e) as int)),
        m2.same_range(m1),
        m2.free() == m1.free().remove(frame_of(pte_page(e) as int)),
        m2.agree_outside(m1, root + 4 * i0, root + 4 * i0 + 4),
        m2.word(root + 4 * i0) == e,
    ensures
        tree_wf(m2, root),
        tree_frames(m2, root) == tree_frames(m1, root).insert(frame_of(pte_page(e) as int)),
        root_entry(m2, root, i0) == e,
        forall|i: int|
            0 <= i < 1024 && i != i0 ==> #[trigger] root_entry(m2, root, i) == root_entry(m1, root, i),
        forall|va: u32|
            va_vpn1(va) != i0 ==> #[trigger] translate(m2, root, va) == translate(m1, root, va),
        m2.agree_except_frames(m1, tree_frames(m1, root)),
{
    let p = pte_page(e) as int;
    let rf = frame_of(root as int);
    assert(tree_frames(m1, root).contains(rf));
    assert forall|i: int| 0 <= i < 1024 && i != i0 implies #[trigger] root_entry(m2, root, i)
        == root_entry(m1, root, i) by {
        lemma_word_outside(m1, m2, root + 4 * i, root + 4 * i0, root + 4 * i0 + 4);
    }
    assert(root_entry(m2, root, i0) == e);
    assert(table_at(m2, root, i0) == p);
    assert forall|i: int|
        #![trigger table_at(m2, root, i)]
        0 <= i < 1024 && table_valid(m2, root, i) implies {
        &&& m2.is_ram_page(table_at(m2, root, i))
        &&& table_at(m2, root, i) != root
        &&& !m2.free().contains(frame_of(table_at(m2, root, i)))
    } by {
        if i != i0 {
            assert(table_at(m1, root, i) == table_at(m2, root, i));
        }
    }
    assert forall|i: int, j: int|
        #![trigger table_at(m2, root, i), table_at(m2, root, j)]
        0 <= i < 1024 && 0 <= j < 1024 && i != j && table_valid(m2, root, i) && table_valid(
            m2,
            root,
            j,
        ) implies table_at(m2, root, i) != table_at(m2, root, j) by {
        if i != i0 && j != i0 {
            assert(table_at(m1, root, i) != table_at(m1, root, j));
        } else if i == i0 {
            assert(table_at(m1, root, j) == table_at(m2, root, j));
            assert(!m1.free().contains(frame_of(table_at(m1, root, j))));
        } else {
            assert(table_at(m1, root, i) == table_at(m2, root, i));
            assert(!m1.free().contains(frame_of(table_at(m1, root, i))));
        }
    }
    assert forall|f: int|
        tree_frames(m2, root).contains(f) <==> tree_frames(m1, root).insert(frame_of(p)).contains(
            f,
        ) by {
        if tree_frames(m1, root).contains(f) && f != rf {
            let i = choose|i: int|
                0 <= i < 1024 && table_valid(m1, root, i) && f == frame_of(
                    #[trigger] table_at(m1, root, i),
                );
            assert(root_entry(m2, root, i) == root_entry(m1, root, i));
            assert(table_at(m2, root, i) == table_at(m1, root, i));
        }
        if f == frame_of(p) {
            assert(table_valid(m2, root, i0) && f == frame_of(table_at(m2, root, i0)));
        }
        if tree_frames(m2, root).contains(f) && f != rf && f != frame_of(p) {
            let i = choose|i: int|
                0 <= i < 1024 && table_valid(m2, root, i) && f == frame_of(
                    #[trigger] table_at(m2, root, i),
                );
            assert(i != i0);
            assert(root_entry(m2, root, i) == root_entry(m1, root, i));
            assert(table_at(m1, root, i) == table_at(m2, root, i));
        }
    }
    assert(tree_frames(m2, root) =~= tree_frames(m1, root).insert(frame_of(p)));
    assert forall|va: u32| va_vpn1(va) != i0 implies #[trigger] translate(m2, root, va) == translate(
        m1,
        root,
        va,
    ) by {
        lemma_va_fields_bounded(va);
        let i = va_vpn1(va) as int;
        assert(root_entry(m2, root, i) == root_entry(m1, root, i));
        if table_valid(m1, root, i) {
            let t = table_at(m1, root, i);
            lemma_pages_apart(t, root as int);
            lemma_word_outside(m1, m2, leaf_addr(m1, root, va), root + 4 * i0, root + 4 * i0 + 4);
        }
    }
    assert forall|pa: int|
        #![trigger m1.byte(pa)]
        m2.in_ram(pa, 1) && !tree_frames(m1, root).contains(frame_of(pa)) implies m2.byte(pa)
        == m1.byte(pa) by {
        if root + 4 * i0 <= pa < root + 4 * i0 + 4 {
            lemma_frame_of(root as int, pa);
        }
    }
}


/// Four zero bytes read as the word zero, an invalid entry.
pub proof fn lemma_zero_word(mem: &PhysMem, pa: int)
    requires
        mem.byte(pa) == 0 && mem.byte(pa + 1) == 0 && mem.byte(pa + 2) == 0 && mem.byte(pa + 3) == 0,
    ensures
        mem.word(pa) == 0,
        !pte_valid(mem.word(pa)),
{
    assert(le_word(0u8, 0u8, 0u8, 0u8) == 0u32) by (bit_vector);
    assert(!pte_valid(0u32)) by (bit_vector);
}

/// Filling the leaf table of root entry `i0` with zeros unmaps every address
/// of that entry's range and changes no other translation nor the tree.
pub proof fn lemma_zero_table(m2: &PhysMem, m3: &PhysMem, root: u32, i0: int)
    requires
        m2.wf(),
        tree_wf(m2, root),
        0 <= i0 < 1024,
        table_valid(m2, root, i0),
        m3.same_range(m2),
        m3.free() == m2.free(),
        forall|k: int| 0 <= k < 4096 ==> #[trigger] m3.byte(table_at(m2, root, i0) + k) == 0,
        m3.agree_outside(m2, table_at(m2, root, i0), table_at(m2, root, i0) + 4096),
    ensures
        tree_wf(m3, root),
        tree_frames(m3, root) == tree_frames(m2, root),
        forall|i: int| 0 <= i < 1024 ==> #[trigger] root_entry(m3, root, i) == root_entry(m2, root, i),
        forall|va: u32|
            #[trigger] translate(m3, root, va) == if va_vpn1(va) == i0 {
                None
            } else {
                translate(m2, root, va)
            },
        forall|k: int| 0 <= k < 1024 ==> #[trigger] m3.word(table_at(m2, root, i0) + 4 * k) == 0,
        m3.agree_except_frames(m2, set![frame_of(table_at(m2, root, i0))]),
{
    let t = table_at(m2, root, i0);
    assert(m2.is_ram_page(t));
    assert forall|i: int| 0 <= i < 1024 implies #[trigger] root_entry(m3, root, i) == root_entry(
        m2,
        root,
        i,
    ) by {
        lemma_pages_apart(root as int, t);
        lemma_word_outside(m2, m3, root + 4 * i, t, t + 4096);
    }
    lemma_free_disjoint_tree(m2, root);
    lemma_same_roots(m2, m3, root);
    assert forall|k: int| 0 <= k < 1024 implies #[trigger] m3.word(t + 4 * k) == 0 by {
        assert(m3.byte(t + (4 * k)) == 0);
        assert(m3.byte(t + (4 * k + 1)) == 0);
        assert(m3.byte(t + (4 * k + 2)) == 0);
        assert(m3.byte(t + (4 * k + 3)) == 0);
        lemma_zero_word(m3, t + 4 * k);
    }
    assert forall|va: u32| #[trigger] translate(m3, root, va) == if va_vpn1(va) == i0 {
        None
    } else {
        translate(m2, root, va)
    } by {
        lemma_va_fields_bounded(va);
        let i = va_vpn1(va) as int;
        assert(root_entry(m3, root, i) == root_entry(m2, root, i));
        if i == i0 {
            assert(m3.word(t + 4 * (va_vpn0(va) as int)) == 0);
            assert(!pte_valid(0u32)) by (bit_vector);
        } else if table_valid(m2, root, i) {
            let t2 = table_at(m2, root, i);
            assert(t2 != t);
            lemma_pages_apart(t2, t);
            lemma_word_outside(m2, m3, leaf_addr(m2, root, va), t, t + 4096);
        }
    }
    assert forall|pa: int|
        #![trigger m2.byte(pa)]
        m3.in_ram(pa, 1) && !set![frame_of(t)].contains(frame_of(pa)) implies m3.byte(pa)
        == m2.byte(pa) by {
        if t <= pa < t + 4096 {
            lemma_frame_of(t, pa);
        }
    }
}

/// What an operation on one tree keeps: memory stays well formed over the
/// same RAM, the tree stays well formed and keeps all its pages, the pages it
/// gains come out of the free set, and no byte changes outside the tree's
/// pages.
pub open spec fn tree_step(old: &PhysMem, new: &PhysMem, root: u32) -> bool {
    &&& new.wf()
    &&& new.same_range(old)
    &&& tree_wf(new, root)
    &&& tree_frames(old, root).subset_of(tree_frames(new, root))
    &&& tree_frames(new, root).subset_of(tree_frames(old, root).union(old.free()))
    &&& new.free() == old.free().difference(tree_frames(new, root))
    &&& new.agree_except_frames(old, tree_frames(new, root))
    &&& forall|i: int| 0 <= i < 1024 && #[trigger] megapage(new, root, i) ==> megapage(old, root, i)
}

/// Memory whose root entries are megapages exactly where they were keeps a
/// tree without megapages without them.
pub proof fn lemma_no_megapages_kept(m1: &PhysMem, m2: &PhysMem, root: u32)
    requires
        no_megapages(m1, root),
        forall|i: int| 0 <= i < 1024 && #[trigger] megapage(m2, root, i) ==> megapage(m1, root, i),
    ensures
        no_megapages(m2, root),
{
    assert forall|i: int| 0 <= i < 1024 implies !#[trigger] megapage(m2, root, i) by {
        if megapage(m2, root, i) {
            assert(megapage(m1, root, i));
        }
    }
}

/// A tree without megapages has none over any range.
pub proof fn lemma_no_megapage_over(m: &PhysMem, root: u32, virt: u32, n: int)
    requires
        no_megapages(m, root),
    ensures
        no_megapage_over(m, root, virt, n),
{
    assert forall|va: u32| vpage(virt) <= vpage(va) < vpage(virt) + n implies !#[trigger] megapage(
        m,
        root,
        va_vpn1(va) as int,
    ) by {
        lemma_va_fields_bounded(va);
    }
}

/// The free set holds no page of a well-formed tree.
pub proof fn lemma_free_disjoint_tree(m: &PhysMem, root: u32)
    requires
        tree_wf(m, root),
    ensures
        m.free().disjoint(tree_frames(m, root)),
{
    assert forall|f: int| m.free().contains(f) implies !tree_frames(m, root).contains(f) by {
        if f != frame_of(root as int) && tree_frames(m, root).contains(f) {
            let i = choose|i: int|
                0 <= i < 1024 && table_valid(m, root, i) && f == frame_of(
                    #[trigger] table_at(m, root, i),
                );
        }
    }
}

pub proof fn lemma_tree_step_refl(m: &PhysMem, root: u32)
    requires
        m.wf(),
        tree_wf(m, root),
    ensures
        tree_step(m, m, root),
{
    lemma_free_disjoint_tree(m, root);
    assert(m.free().difference(tree_frames(m, root)) =~= m.free());
}

pub proof fn lemma_tree_step_trans(m0: &PhysMem, m1: &PhysMem, m2: &PhysMem, root: u32)
    requires
        tree_step(m0, m1, root),
        tree_step(m1, m2, root),
    ensures
        tree_step(m0, m2, root),
{
    assert(m2.free() =~= m0.free().difference(tree_frames(m2, root)));
    assert forall|pa: int|
        #![trigger m0.byte(pa)]
        m2.in_ram(pa, 1) && !tree_frames(m2, root).contains(frame_of(pa)) implies m2.byte(pa)
        == m0.byte(pa) by {
        assert(m1.byte(pa) == m0.byte(pa));
    }
}

/// Memory with the same bytes and free set holds the same trees.
pub proof fn lemma_same_state(m1: &PhysMem, m2: &PhysMem, root: u32)
    requires
        m1.wf(),
        tree_wf(m1, root),
        m2.wf(),
        m2.same_range(m1),
        m2.same_bytes(m1),
        m2.free() == m1.free(),
    ensures
        tree_step(m1, m2, root),
        tree_frames(m2, root) == tree_frames(m1, root),
        forall|va: u32| #[trigger] translate(m2, root, va) == translate(m1, root, va),
{
    assert forall|pa: int| #![trigger m1.byte(pa)] m2.byte(pa) == m1.byte(pa) by {}
    assert(forall|i: int| #![trigger root_entry(m2, root, i)] root_entry(m2, root, i) == root_entry(m1, root, i));
    lemma_free_disjoint_tree(m1, root);
    lemma_same_roots(m1, m2, root);
    assert(forall|va: u32| #[trigger] leaf_entry(m2, root, va) == leaf_entry(m1, root, va));
    lemma_tree_step_refl(m1, root);
}

/// The entry that `map` writes for a page, and the one `walk` writes for a
/// new leaf table.
proof fn lemma_encode_valid(p: PTE, pa: u32, perm: u32)
    requires
        p.ppn == pa >> 12u32,
        p.rsw == 0,
        !p.d && !p.a && !p.g && !p.u && !p.x && !p.w && !p.r,
    ensures
        pte_encode(PTE { v: true, ..p }) == ((pa >> 12u32) << 10u32) | 1u32,
        pte_encode(PTE { v: true, ..p }) | perm == leaf_pte(pa, perm),
{
    assert(((0u8 as u32) << 8u32) == 0u32) by (bit_vector);
    assert(1u32 << 0u32 == 1u32) by (bit_vector);
    let x = (pa >> 12u32) << 10u32;
    assert(x | 0u32 | 0u32 | 0u32 | 0u32 | 0u32 | 0u32 | 0u32 | 0u32 | 1u32 == x | 1u32)
        by (bit_vector);
}

/// Every valid root entry of `old` is the same in `new`.
pub closed spec fn valid_roots_kept(old: &PhysMem, new: &PhysMem, root: u32) -> bool {
    forall|i: int|
        0 <= i < 1024 && pte_valid(root_entry(old, root, i)) ==> #[trigger] root_entry(new, root, i)
            == root_entry(old, root, i)
}

/// Every memory keeps its own root entries.
pub proof fn lemma_valid_roots_refl(m: &PhysMem, root: u32)
    ensures
        valid_roots_kept(m, m, root),
{
}

/// Memory with the same bytes keeps every root entry.
pub proof fn lemma_valid_roots_same_bytes(m0: &PhysMem, m1: &PhysMem, m2: &PhysMem, root: u32)
    requires
        valid_roots_kept(m0, m1, root),
        m2.same_range(m1),
        m2.same_bytes(m1),
    ensures
        valid_roots_kept(m0, m2, root),
{
    assert forall|i: int|
        0 <= i < 1024 && pte_valid(root_entry(m0, root, i)) implies #[trigger] root_entry(m2, root, i)
        == root_entry(m0, root, i) by {
        assert(root_entry(m1, root, i) == root_entry(m0, root, i));
    }
}

/// Every leaf word of `new`'s tree outside the first `n` pages from `virt`
/// is the word `old` had there, or zero in a leaf table that `old` did not
/// have.
pub open spec fn leaf_words_kept(old: &PhysMem, new: &PhysMem, root: u32, virt: u32, n: int) -> bool {
    forall|va: u32|
        !(vpage(virt) <= vpage(va) < vpage(virt) + n) && table_valid(new, root, va_vpn1(va) as int)
            ==> #[trigger] leaf_entry(new, root, va) == if table_valid(old, root, va_vpn1(va) as int) {
            leaf_entry(old, root, va)
        } else {
            0
        }
}

/// Writing a new leaf table's root entry (`m1` to `m2`) and zeroing the
/// table (`m2` to `m3`) keeps every other leaf word.
proof fn lemma_new_table_leaves(m1: &PhysMem, m2: &PhysMem, m3: &PhysMem, root: u32, i0: int)
    requires
        tree_wf(m1, root),
        0 <= i0 < 1024,
        !pte_valid(root_entry(m1, root, i0)),
        m2.same_range(m1),
        m2.agree_outside(m1, root + 4 * i0, root + 4 * i0 + 4),
        table_valid(m2, root, i0),
        m1.is_ram_page(table_at(m2, root, i0)),
        m1.free().contains(frame_of(table_at(m2, root, i0))),
        m3.same_range(m2),
        m3.agree_outside(m2, table_at(m2, root, i0), table_at(m2, root, i0) + 4096),
        forall|k: int| 0 <= k < 1024 ==> #[trigger] m3.word(table_at(m2, root, i0) + 4 * k) == 0,
        forall|i: int| 0 <= i < 1024 && i != i0 ==> #[trigger] root_entry(m2, root, i) == root_entry(m1, root, i),
        forall|i: int| 0 <= i < 1024 ==> #[trigger] root_entry(m3, root, i) == root_entry(m2, root, i),
    ensures
        leaf_words_kept(m1, m3, root, 0, 0),
{
    let q = table_at(m2, root, i0);
    assert forall|va: u32| table_valid(m3, root, va_vpn1(va) as int) implies #[trigger] leaf_entry(m3, root, va)
        == if table_valid(m1, root, va_vpn1(va) as int) {
        leaf_entry(m1, root, va)
    } else {
        0
    } by {
        lemma_va_fields_bounded(va);
        let i = va_vpn1(va) as int;
        assert(root_entry(m3, root, i) == root_entry(m2, root, i));
        if i == i0 {
            assert(leaf_addr(m3, root, va) == q + 4 * va_vpn0(va));
        } else if table_valid(m1, root, i) {
            let t = table_at(m1, root, i);
            assert(m1.is_ram_page(t));
            assert(!m1.free().contains(frame_of(t)));
            lemma_pages_apart(t, root as int);
            lemma_pages_apart(t, q);
            let a = leaf_addr(m1, root, va);
            lemma_word_outside(m1, m2, a, root + 4 * i0, root + 4 * i0 + 4);
            lemma_word_outside(m2, m3, a, q, q + 4096);
        }
    }
}


/// Finds the address of the leaf entry for `virt_a`: the root entry itself
/// when it is a megapage, else the entry in the leaf table it points at.
/// When the root entry is not valid, a new leaf table of zeros is taken from
/// the allocator if `alloc` is set, and `None` is returned otherwise or when
/// no frame is free. No address changes what it translates to.
pub fn walk(mem: &mut PhysMem, pagetree: u32, virt_a: u32, alloc: bool) -> (res: Option<u32>)
    requires
        old(mem).wf(),
        tree_wf(old(mem), pagetree),
    ensures
        tree_step(old(mem), final(mem), pagetree),
        forall|va: u32| #[trigger] translate(final(mem), pagetree, va) == translate(old(mem), pagetree, va),
        leaf_words_kept(old(mem), final(mem), pagetree, 0, 0),
        forall|i: int|
            0 <= i < 1024 && pte_valid(root_entry(old(mem), pagetree, i)) ==> #[trigger] root_entry(final(mem), pagetree, i)
                == root_entry(old(mem), pagetree, i),
        forall|i: int|
            0 <= i < 1024 && i != va_vpn1(virt_a) ==> #[trigger] root_entry(final(mem), pagetree, i)
                == root_entry(old(mem), pagetree, i),
        pte_valid(root_entry(old(mem), pagetree, va_vpn1(virt_a) as int)) || res is None ==> final(mem).same_bytes(old(mem)) && final(mem).free() == old(mem).free(),
        forall|i: int| 0 <= i < 1024 ==> #[trigger] megapage(final(mem), pagetree, i) == megapage(old(mem), pagetree, i),
        megapage(old(mem), pagetree, va_vpn1(virt_a) as int) ==> res == Some((pagetree + 4 * va_vpn1(virt_a)) as u32),
        res is Some && !megapage(old(mem), pagetree, va_vpn1(virt_a) as int) ==> {
            let a = res.unwrap();
            &&& table_valid(final(mem), pagetree, va_vpn1(virt_a) as int)
            &&& a == leaf_addr(final(mem), pagetree, virt_a)
            &&& final(mem).in_ram(a as int, 4)
        },
        res is Some && !pte_valid(root_entry(old(mem), pagetree, va_vpn1(virt_a) as int)) ==> {
            let q = table_at(final(mem), pagetree, va_vpn1(virt_a) as int);
            &&& q % 4096 == 0
            &&& old(mem).free().contains(frame_of(q))
            &&& final(mem).free() == old(mem).free().remove(frame_of(q))
            &&& root_entry(final(mem), pagetree, va_vpn1(virt_a) as int) == ((q as u32 >> 12u32)
                << 10u32) | 1u32
            &&& forall|k: int| 0 <= k < 1024 ==> #[trigger] final(mem).word(q + 4 * k) == 0
        },
        res is None <==> !pte_valid(root_entry(old(mem), pagetree, va_vpn1(virt_a) as int)) && (!alloc
            || old(mem).free().is_empty()),
{
    let ghost m0 = *old(mem);
    proof {
        lemma_tree_step_refl(&m0, pagetree);
    }
    let va = VA::from(virt_a);
    let mut a = pagetree;
    let index = match va.vpn(1) {
        Some(i) => i,
        None => return None,
    };
    let pte_addr = a + 4 * index;
    let pte_u32 = mem.read_u32(pte_addr);
    let pte = PTE::from(pte_u32);
    proof {
        assert((pte_u32 & 0xeu32 != 0) == (pte_u32 & 0x8u32 != 0 || pte_u32 & 0x4u32 != 0 || pte_u32
            & 0x2u32 != 0)) by (bit_vector);
    }
    if pte.v && (pte.r || pte.w || pte.x) {
        return Some(pte_addr);
    }
    if pte.v {
        a = pte.ppn << 12u32;
        proof {
            assert(a == table_at(&m0, pagetree, index as int));
            assert(m0.is_ram_page(a as int));
        }
    } else {
        if !alloc {
            return None;
        }
        let new_page = match mem.alloc_frame() {
            Some(p) => p,
            None => {
                proof {
                    lemma_same_state(&m0, mem, pagetree);
                }
                return None;
            },
        };
        let mut new_pte = PTE::from_pa(new_page);
        let ghost p0 = new_pte;
        new_pte.v = true;
        let e = new_pte.into();
        proof {
            lemma_encode_valid(p0, new_page, 0);
            lemma_table_entry(new_page);
        }
        let ghost m1 = *mem;
        mem.write_u32(pte_addr, e);
        proof {
            assert forall|q: int|
                #![trigger m0.byte(q)]
                mem.in_ram(q, 1) && !(pte_addr <= q < pte_addr + 4) implies mem.byte(q) == m0.byte(q) by {
                assert(mem.byte(q) == m1.byte(q));
            }
            lemma_write_root(&m0, mem, pagetree, index as int, e);
        }
        let ghost m2 = *mem;
        mem.zero_page(new_page);
        proof {
            assert(table_at(&m2, pagetree, index as int) == new_page);
            lemma_zero_table(&m2, mem, pagetree, index as int);
            lemma_new_table_leaves(&m0, &m2, mem, pagetree, index as int);
            assert forall|pa: int|
                #![trigger m0.byte(pa)]
                mem.in_ram(pa, 1) && !tree_frames(mem, pagetree).contains(frame_of(pa)) implies mem.byte(pa)
                == m0.byte(pa) by {
                assert(tree_frames(mem, pagetree).contains(frame_of(new_page as int)));
                assert(tree_frames(mem, pagetree).contains(frame_of(pagetree as int)));
                assert(mem.byte(pa) == m2.byte(pa));
            }
            assert forall|v: u32| #[trigger] translate(mem, pagetree, v) == translate(&m0, pagetree, v) by {
                lemma_va_fields_bounded(v);
            }
            assert(mem.free() =~= m0.free().difference(tree_frames(mem, pagetree))) by {
                assert forall|f: int| m0.free().contains(f) implies !tree_frames(&m0, pagetree).contains(f) by {
                    if f != frame_of(pagetree as int) && tree_frames(&m0, pagetree).contains(f) {
                        let i = choose|i: int|
                            0 <= i < 1024 && table_valid(&m0, pagetree, i) && f == frame_of(
                                #[trigger] table_at(&m0, pagetree, i),
                            );
                    }
                }
            }
        }
        a = new_page;
    }
    let index = match va.vpn(0) {
        Some(i) => i,
        None => return None,
    };
    let pte_addr = a + 4 * index;
    Some(pte_addr)
}


/// Keeping the leaf words outside the first `k` pages from `virt` and then
/// outside the page after them keeps them outside the first `k + 1`.
pub proof fn lemma_leaf_words_compose(m0: &PhysMem, m1: &PhysMem, m2: &PhysMem, root: u32, virt: u32, k: int, va1: u32)
    requires
        0 <= k,
        vpage(va1) == vpage(virt) + k,
        leaf_words_kept(m0, m1, root, virt, k),
        valid_roots_kept(m0, m1, root),
        leaf_words_kept(m1, m2, root, va1, 1),
        valid_roots_kept(m1, m2, root),
    ensures
        leaf_words_kept(m0, m2, root, virt, k + 1),
        valid_roots_kept(m0, m2, root),
{
    assert forall|i: int|
        0 <= i < 1024 && pte_valid(root_entry(m0, root, i)) implies #[trigger] root_entry(m2, root, i)
        == root_entry(m0, root, i) by {
        assert(root_entry(m1, root, i) == root_entry(m0, root, i));
    }
    assert forall|va: u32|
        !(vpage(virt) <= vpage(va) < vpage(virt) + k + 1) && table_valid(m2, root, va_vpn1(va) as int)
        implies #[trigger] leaf_entry(m2, root, va) == if table_valid(m0, root, va_vpn1(va) as int) {
        leaf_entry(m0, root, va)
    } else {
        0
    } by {
        lemma_va_fields_bounded(va);
        let i = va_vpn1(va) as int;
        assert(!(vpage(va1) <= vpage(va) < vpage(va1) + 1));
        if table_valid(m0, root, i) {
            assert(root_entry(m1, root, i) == root_entry(m0, root, i));
        }
    }
}

/// One page of `map` keeps the leaf words outside the pages mapped so far.
proof fn lemma_leaf_words_step(
    m0: &PhysMem,
    m1: &PhysMem,
    m2: &PhysMem,
    m3: &PhysMem,
    root: u32,
    virt: u32,
    k: int,
    va0: u32,
)
    requires
        leaf_words_kept(m0, m1, root, virt, k),
        forall|i: int|
            0 <= i < 1024 && pte_valid(root_entry(m0, root, i)) ==> #[trigger] root_entry(m1, root, i)
                == root_entry(m0, root, i),
        leaf_words_kept(m1, m2, root, 0, 0),
        forall|i: int|
            0 <= i < 1024 && pte_valid(root_entry(m1, root, i)) ==> #[trigger] root_entry(m2, root, i)
                == root_entry(m1, root, i),
        forall|i: int| 0 <= i < 1024 ==> #[trigger] root_entry(m3, root, i) == root_entry(m2, root, i),
        forall|va: u32|
            vpage(va) != vpage(va0) && table_valid(m2, root, va_vpn1(va) as int) ==> #[trigger] leaf_entry(
                m3,
                root,
                va,
            ) == leaf_entry(m2, root, va),
        vpage(va0) == vpage(virt) + k,
        0 <= k,
    ensures
        leaf_words_kept(m0, m3, root, virt, k + 1),
        forall|i: int|
            0 <= i < 1024 && pte_valid(root_entry(m0, root, i)) ==> #[trigger] root_entry(m3, root, i)
                == root_entry(m0, root, i),
{
    assert forall|i: int|
        0 <= i < 1024 && pte_valid(root_entry(m0, root, i)) implies #[trigger] root_entry(m3, root, i)
        == root_entry(m0, root, i) by {
        assert(root_entry(m1, root, i) == root_entry(m0, root, i));
        assert(root_entry(m2, root, i) == root_entry(m1, root, i));
    }
    assert forall|va: u32|
        !(vpage(virt) <= vpage(va) < vpage(virt) + k + 1) && table_valid(m3, root, va_vpn1(va) as int)
        implies #[trigger] leaf_entry(m3, root, va) == if table_valid(m0, root, va_vpn1(va) as int) {
        leaf_entry(m0, root, va)
    } else {
        0
    } by {
        lemma_va_fields_bounded(va);
        let i = va_vpn1(va) as int;
        assert(root_entry(m3, root, i) == root_entry(m2, root, i));
        assert(vpage(va) != vpage(va0));
        assert(table_valid(m2, root, i));
        assert(leaf_entry(m3, root, va) == leaf_entry(m2, root, va));
        if table_valid(m0, root, i) {
            assert(root_entry(m1, root, i) == root_entry(m0, root, i));
        }
        if table_valid(m1, root, i) {
            assert(root_entry(m2, root, i) == root_entry(m1, root, i));
        }
    }
}

/// The first `j` pages of the range from `virt` translate to the pages from
/// `phys` with permission bits `perm`, and every other address translates in
/// `new` as it did in `old`.
pub open spec fn mapped_prefix(
    old: &PhysMem,
    new: &PhysMem,
    root: u32,
    virt: u32,
    phys: u32,
    perm: u32,
    j: int,
) -> bool {
    &&& forall|va: u32|
        vpage(virt) <= vpage(va) < vpage(virt) + j ==> #[trigger] translate(new, root, va) == Some(
            leaf_pte((phys + PAGESIZE * (vpage(va) - vpage(virt))) as u32, perm),
        )
    &&& forall|va: u32|
        !(vpage(virt) <= vpage(va) < vpage(virt) + j) ==> #[trigger] translate(new, root, va)
            == translate(old, root, va)
}

/// One page of `map`: after the walk from `m1` to `m2` found the leaf entry
/// of `vaddr`, and the entry was written to give `m3`, the prefix grows by
/// one page.
proof fn lemma_map_step(
    m0: &PhysMem,
    m1: &PhysMem,
    m2: &PhysMem,
    m3: &PhysMem,
    root: u32,
    virt: u32,
    phys: u32,
    perm: u32,
    k: int,
    vaddr: u32,
    paddr: u32,
)
    requires
        0 <= k,
        vaddr == virt + PAGESIZE * k,
        paddr == phys + PAGESIZE * k,
        tree_step(m0, m1, root),
        mapped_prefix(m0, m1, root, virt, phys, perm, k),
        tree_step(m1, m2, root),
        forall|va: u32| #[trigger] translate(m2, root, va) == translate(m1, root, va),
        table_valid(m2, root, va_vpn1(vaddr) as int),
        m2.in_ram(leaf_addr(m2, root, vaddr), 4),
        m3.wf(),
        m3.same_range(m2),
        m3.free() == m2.free(),
        m3.word(leaf_addr(m2, root, vaddr)) == leaf_pte(paddr, perm),
        m3.agree_outside(m2, leaf_addr(m2, root, vaddr), leaf_addr(m2, root, vaddr) + 4),
    ensures
        tree_step(m0, m3, root),
        mapped_prefix(m0, m3, root, virt, phys, perm, k + 1),
{
    lemma_leaf_valid(paddr, perm);
    lemma_write_leaf(m2, m3, root, vaddr, leaf_pte(paddr, perm));
    lemma_free_disjoint_tree(m2, root);
    lemma_tree_step_trans(m0, m1, m2, root);
    assert(m3.free() =~= m2.free().difference(tree_frames(m3, root)));
    assert(tree_step(m2, m3, root));
    lemma_tree_step_trans(m0, m2, m3, root);
    lemma_vpage_step(virt, k);
    assert forall|va: u32|
        vpage(virt) <= vpage(va) < vpage(virt) + k + 1 implies #[trigger] translate(m3, root, va)
        == Some(leaf_pte((phys + PAGESIZE * (vpage(va) - vpage(virt))) as u32, perm)) by {
        if vpage(va) < vpage(virt) + k {
            assert(translate(m1, root, va) is Some);
        } else {
            assert(vpage(va) == vpage(vaddr));
        }
    }
    assert forall|va: u32|
        !(vpage(virt) <= vpage(va) < vpage(virt) + k + 1)
        implies #[trigger] translate(m3, root, va) == translate(m0, root, va) by {
        assert(translate(m1, root, va) == translate(m0, root, va));
    }
}

/// Maps the virtual range `[virt, virt + size)`, page by page, to the
/// physical pages from `phys` with permission bits `perm`, allocating leaf
/// tables as needed; a page that was mapped is mapped anew. Every address
/// outside the range translates as before, and every leaf word outside it
/// keeps its value (new leaf tables hold zeros). It fails when a leaf table is
/// needed and no frame is free; the pages before the failing one stay
/// mapped.
#[verifier::spinoff_prover]
#[verifier::rlimit(40)]
pub fn map(mem: &mut PhysMem, pagetree: u32, virt: u32, phys: u32, size: u32, perm: u32) -> (res:
    Result<(), ()>)
    requires
        old(mem).wf(),
        tree_wf(old(mem), pagetree),
        virt + size <= u32::MAX + 1,
        npages(size) > 0 ==> phys + PAGESIZE * (npages(size) - 1) <= u32::MAX,
        no_megapage_over(old(mem), pagetree, virt, npages(size)),
    ensures
        tree_step(old(mem), final(mem), pagetree),
        forall|i: int| 0 <= i < 1024 ==> #[trigger] megapage(final(mem), pagetree, i) == megapage(old(mem), pagetree, i),
        res is Ok ==> mapped_prefix(old(mem), final(mem), pagetree, virt, phys, perm, npages(size)),
        res is Err ==> final(mem).free().is_empty() && exists|j: int|
            0 <= j < npages(size) && mapped_prefix(old(mem), final(mem), pagetree, virt, phys, perm, j),
        res is Err ==> old(mem).free().len() < npages(size),
        res is Ok ==> old(mem).free().len() <= final(mem).free().len() + npages(size),
        leaf_words_kept(old(mem), final(mem), pagetree, virt, npages(size)),
        valid_roots_kept(old(mem), final(mem), pagetree),
{
    let ghost m0 = *old(mem);
    let ghost n = npages(size);
    proof {
        lemma_tree_step_refl(&m0, pagetree);
    }
    let mut vaddr: u64 = virt as u64;
    let mut paddr: u64 = phys as u64;
    let vaddr_end: u64 = virt as u64 + size as u64;
    let ghost mut k: int = 0;
    while vaddr < vaddr_end
        invariant
            m0 == *old(mem),
            0 <= k <= n,
            n == npages(size),
            vaddr == virt + PAGESIZE * k,
            paddr == phys + PAGESIZE * k,
            vaddr_end == virt + size,
            virt + size <= u32::MAX + 1,
            n > 0 ==> phys + PAGESIZE * (n - 1) <= u32::MAX,
            vaddr < vaddr_end ==> k < n,
            tree_step(&m0, mem, pagetree),
            mapped_prefix(&m0, mem, pagetree, virt, phys, perm, k),
            m0.free().len() <= mem.free().len() + k,
            leaf_words_kept(&m0, mem, pagetree, virt, k),
            forall|i: int|
                0 <= i < 1024 && pte_valid(root_entry(&m0, pagetree, i)) ==> #[trigger] root_entry(mem, pagetree, i)
                    == root_entry(&m0, pagetree, i),
            no_megapage_over(&m0, pagetree, virt, n),
            forall|i: int| 0 <= i < 1024 ==> #[trigger] megapage(mem, pagetree, i) == megapage(&m0, pagetree, i),
        decreases n - k,
    {
        assert(PAGESIZE == 4096);
        proof {
            assert(virt + 4096 * k <= u32::MAX && phys + 4096 * k <= u32::MAX) by (nonlinear_arith)
                requires
                    0 <= k < n,
                    virt + 4096 * k < virt + size,
                    virt + size <= u32::MAX + 1,
                    phys + 4096 * (n - 1) <= u32::MAX,
            {}
        }
        let va32: u32 = vaddr as u32;
        let pa32: u32 = paddr as u32;
        let ghost m1 = *mem;
        proof {
            lemma_vpage_step(virt, k);
            lemma_va_fields_bounded(va32);
            assert(vpage(virt) <= vpage(va32) < vpage(virt) + n);
            assert(!megapage(&m0, pagetree, va_vpn1(va32) as int));
        }
        let pte_addr = match walk(mem, pagetree, va32, true) {
            Some(a) => a,
            None => {
                proof {
                    lemma_same_state(&m1, mem, pagetree);
                    lemma_tree_step_trans(&m0, &m1, mem, pagetree);
                    assert(mapped_prefix(&m0, mem, pagetree, virt, phys, perm, k));
                    assert(0 <= k < npages(size));
                    assert(mem.free().is_empty());
                    assert(tree_step(&m0, mem, pagetree));
                    assert(m1.free().len() == 0);
                }
                return Err(());
            },
        };
        let ghost m2 = *mem;
        proof {
            lemma_tree_step_trans(&m0, &m1, &m2, pagetree);
            if !pte_valid(root_entry(&m1, pagetree, va_vpn1(va32) as int)) {
                let q = table_at(&m2, pagetree, va_vpn1(va32) as int);
                vstd::set::axiom_set_remove_len(m1.free(), frame_of(q));
            }
            assert(m1.free().len() <= m2.free().len() + 1);
        }
        let mut pte = PTE::from_pa(pa32);
        let ghost p0 = pte;
        pte.v = true;
        let mut pte: u32 = pte.into();
        pte = pte | perm;
        proof {
            lemma_encode_valid(p0, pa32, perm);
        }
        mem.write_u32(pte_addr, pte);
        proof {
            lemma_map_step(&m0, &m1, &m2, mem, pagetree, virt, phys, perm, k, va32, pa32);
            lemma_write_leaf(&m2, mem, pagetree, va32, pte);
            lemma_leaf_words_step(&m0, &m1, &m2, mem, pagetree, virt, k, va32);
            assert forall|i: int| 0 <= i < 1024 implies #[trigger] megapage(mem, pagetree, i) == megapage(
                &m0,
                pagetree,
                i,
            ) by {
                assert(root_entry(mem, pagetree, i) == root_entry(&m2, pagetree, i));
                assert(megapage(&m2, pagetree, i) == megapage(&m1, pagetree, i));
            }
        }
        vaddr = vaddr + 4096;
        paddr = paddr + 4096;
        proof {
            k = k + 1;
            assert(vaddr < vaddr_end ==> k < n) by (nonlinear_arith)
                requires
                    vaddr == virt + 4096 * k,
                    vaddr_end == virt + size,
                    n == (size + 4095) / 4096,
            {}
        }
    }
    proof {
        assert(k == n) by (nonlinear_arith)
            requires
                vaddr == virt + 4096 * k,
                vaddr >= vaddr_end,
                vaddr_end == virt + size,
                n == (size + 4095) / 4096,
                k <= n,
        {}
    }
    Ok(())
}


/// The `k`-th page of the range from `virt`.
pub open spec fn page_va(virt: u32, k: int) -> u32 {
    (virt + PAGESIZE * k) as u32
}

/// The frame of the page that `va` is mapped to.
pub open spec fn mapped_frame(mem: &PhysMem, root: u32, va: u32) -> int {
    frame_of(pte_page(translate(mem, root, va).unwrap()) as int)
}

/// Every one of the first `n` pages from `virt` is mapped.
pub open spec fn range_mapped(mem: &PhysMem, root: u32, virt: u32, n: int) -> bool {
    forall|k: int| 0 <= k < n ==> (#[trigger] translate(mem, root, page_va(virt, k))) is Some
}

/// The frames that the mapped ones of the first `n` pages from `virt` are
/// mapped to.
pub open spec fn range_frames(mem: &PhysMem, root: u32, virt: u32, n: int) -> Set<int> {
    Set::new(
        |f: int|
            exists|k: int|
                0 <= k < n && translate(mem, root, page_va(virt, k)) is Some && f
                    == #[trigger] mapped_frame(mem, root, page_va(virt, k)),
    )
}

/// At most `n` frames are mapped to by the first `n` pages from `virt`.
pub proof fn lemma_range_frames_len(mem: &PhysMem, root: u32, virt: u32, n: int)
    requires
        0 <= n,
    ensures
        range_frames(mem, root, virt, n).finite(),
        range_frames(mem, root, virt, n).len() <= n,
    decreases n,
{
    if n == 0 {
        assert(range_frames(mem, root, virt, 0) =~= Set::<int>::empty());
    } else {
        lemma_range_frames_len(mem, root, virt, n - 1);
        let prev = range_frames(mem, root, virt, n - 1);
        let s = prev.insert(mapped_frame(mem, root, page_va(virt, n - 1)));
        assert(range_frames(mem, root, virt, n).subset_of(s)) by {
            assert forall|f: int| range_frames(mem, root, virt, n).contains(f) implies s.contains(f) by {
                let k = choose|k: int|
                    0 <= k < n && translate(mem, root, page_va(virt, k)) is Some && f
                        == #[trigger] mapped_frame(mem, root, page_va(virt, k));
                if k < n - 1 {
                    assert(prev.contains(f));
                }
            }
        }
        vstd::set_lib::lemma_len_subset(range_frames(mem, root, virt, n), s);
    }
}

/// The frames that the mapped ones of the first `n` pages from `virt` are
/// mapped to can go back to the allocator: they are frames of RAM that are
/// neither free nor pages of the tree, and no two pages share one.
pub open spec fn range_releasable(mem: &PhysMem, root: u32, virt: u32, n: int) -> bool {
    &&& forall|k: int|
        0 <= k < n && translate(mem, root, page_va(virt, k)) is Some ==> {
            &&& mem.managed().contains(#[trigger] mapped_frame(mem, root, page_va(virt, k)))
            &&& !mem.free().contains(mapped_frame(mem, root, page_va(virt, k)))
            &&& !tree_frames(mem, root).contains(mapped_frame(mem, root, page_va(virt, k)))
        }
    &&& forall|k1: int, k2: int|
        0 <= k1 < n && 0 <= k2 < n && k1 != k2 && translate(mem, root, page_va(virt, k1)) is Some
            && translate(mem, root, page_va(virt, k2)) is Some ==> #[trigger] mapped_frame(
            mem,
            root,
            page_va(virt, k1),
        ) != #[trigger] mapped_frame(mem, root, page_va(virt, k2))
}

/// The first `j` pages from `virt` are unmapped and every other translation
/// is as in `old`.
pub open spec fn unmapped_prefix(old: &PhysMem, new: &PhysMem, root: u32, virt: u32, j: int) -> bool {
    forall|va: u32|
        #[trigger] translate(new, root, va) == if vpage(virt) <= vpage(va) < vpage(virt) + j {
            None
        } else {
            translate(old, root, va)
        }
}

/// The leaf words of two different pages whose leaf tables exist do not
/// overlap.
pub proof fn lemma_leaf_words_apart(m: &PhysMem, root: u32, va: u32, vb: u32)
    requires
        tree_wf(m, root),
        table_valid(m, root, va_vpn1(va) as int),
        table_valid(m, root, va_vpn1(vb) as int),
        vpage(va) != vpage(vb),
    ensures
        leaf_addr(m, root, va) + 4 <= leaf_addr(m, root, vb) || leaf_addr(m, root, vb) + 4 <= leaf_addr(
            m,
            root,
            va,
        ),
{
    lemma_va_fields_bounded(va);
    lemma_va_fields_bounded(vb);
    lemma_same_page(va, vb);
    let ta = table_at(m, root, va_vpn1(va) as int);
    let tb = table_at(m, root, va_vpn1(vb) as int);
    if va_vpn1(va) != va_vpn1(vb) {
        lemma_pages_apart(ta, tb);
    }
}

/// What `unmap` leaves in the leaf word of `va` once it has gone through the
/// first `k` pages from `virt`: zero where the entry was valid, the old word
/// elsewhere.
pub open spec fn unmapped_word(old: &PhysMem, root: u32, virt: u32, k: int, va: u32) -> u32 {
    if vpage(virt) <= vpage(va) < vpage(virt) + k && pte_valid(leaf_entry(old, root, va)) {
        0
    } else {
        leaf_entry(old, root, va)
    }
}

/// The state `unmap` keeps after the first `k` pages from `virt`: the tree
/// and its root entries are as they were, the leaf words are
/// `unmapped_word`, bytes changed only in the tree's pages, the first `k`
/// pages are unmapped and every other translation is as it was, and the
/// frames of the pages unmapped so far went back to the allocator if `free`.
pub open spec fn unmap_state(old: &PhysMem, new: &PhysMem, root: u32, virt: u32, k: int, free: bool) -> bool {
    &&& new.wf()
    &&& new.same_range(old)
    &&& tree_wf(new, root)
    &&& tree_frames(new, root) == tree_frames(old, root)
    &&& forall|i: int| 0 <= i < 1024 ==> #[trigger] root_entry(new, root, i) == root_entry(old, root, i)
    &&& new.agree_except_frames(old, tree_frames(old, root))
    &&& forall|va: u32|
        table_valid(old, root, va_vpn1(va) as int) ==> #[trigger] new.word(leaf_addr(old, root, va))
            == unmapped_word(old, root, virt, k, va)
    &&& unmapped_prefix(old, new, root, virt, k)
    &&& new.free() == if free {
        old.free().union(range_frames(old, root, virt, k))
    } else {
        old.free()
    }
}

/// The unmap state carries over to memory with the same bytes and free set.
proof fn lemma_unmap_state_same(m0: &PhysMem, m1: &PhysMem, m2: &PhysMem, root: u32, virt: u32, k: int, free: bool)
    requires
        unmap_state(m0, m1, root, virt, k, free),
        m2.wf(),
        m2.same_range(m1),
        m2.same_bytes(m1),
        m2.free() == m1.free(),
    ensures
        unmap_state(m0, m2, root, virt, k, free),
{
    lemma_same_state(m1, m2, root);
    assert(forall|pa: int| #![trigger m1.byte(pa)] m2.byte(pa) == m1.byte(pa));
    assert forall|i: int| 0 <= i < 1024 implies #[trigger] root_entry(m2, root, i) == root_entry(m0, root, i) by {
        assert(root_entry(m2, root, i) == root_entry(m1, root, i));
    }
    assert forall|va: u32| table_valid(m0, root, va_vpn1(va) as int) implies #[trigger] m2.word(
        leaf_addr(m0, root, va),
    ) == unmapped_word(m0, root, virt, k, va) by {
        assert(m2.word(leaf_addr(m0, root, va)) == m1.word(leaf_addr(m0, root, va)));
    }
    assert forall|pa: int|
        #![trigger m0.byte(pa)]
        m2.in_ram(pa, 1) && !tree_frames(m0, root).contains(frame_of(pa)) implies m2.byte(pa)
        == m0.byte(pa) by {
        assert(m2.byte(pa) == m1.byte(pa));
    }
}

/// `unmap` passes over page `k` when it is not mapped.
proof fn lemma_unmap_skip(m0: &PhysMem, m1: &PhysMem, root: u32, virt: u32, n: int, k: int, free: bool)
    requires
        0 <= k < n,
        virt + PAGESIZE * n <= u32::MAX,
        tree_wf(m0, root),
        unmap_state(m0, m1, root, virt, k, free),
        translate(m0, root, page_va(virt, k)) is None,
    ensures
        unmap_state(m0, m1, root, virt, k + 1, free),
{
    let vk = page_va(virt, k);
    assert(virt + 4096 * k <= u32::MAX) by (nonlinear_arith)
        requires
            virt + 4096 * n <= u32::MAX,
            0 <= k < n,
    ;
    lemma_vpage_step(virt, k);
    assert forall|va: u32| table_valid(m0, root, va_vpn1(va) as int) implies #[trigger] m1.word(
        leaf_addr(m0, root, va),
    ) == unmapped_word(m0, root, virt, k + 1, va) by {
        if vpage(va) == vpage(vk) {
            lemma_same_page(va, vk);
        }
    }
    assert forall|va: u32| #[trigger] translate(m1, root, va) == if vpage(virt) <= vpage(va) < vpage(virt)
        + k + 1 {
        None
    } else {
        translate(m0, root, va)
    } by {
        if vpage(va) == vpage(vk) {
            lemma_same_page(va, vk);
            assert(translate(m1, root, va) == translate(m0, root, va));
        }
    }
    assert(range_frames(m0, root, virt, k + 1) =~= range_frames(m0, root, virt, k)) by {
        assert forall|f: int| range_frames(m0, root, virt, k + 1).contains(f) implies range_frames(
            m0,
            root,
            virt,
            k,
        ).contains(f) by {
            let j = choose|j: int|
                0 <= j < k + 1 && translate(m0, root, page_va(virt, j)) is Some && f
                    == #[trigger] mapped_frame(m0, root, page_va(virt, j));
            assert(j != k);
        }
    }
}

/// `unmap` clears the valid entry of page `k` and, if `free`, gives its frame
/// back: from `m1` the frame was given back (`m2`), then the word written
/// (`m3`).
#[verifier::spinoff_prover]
proof fn lemma_unmap_clear(
    m0: &PhysMem,
    m1: &PhysMem,
    m2: &PhysMem,
    m3: &PhysMem,
    root: u32,
    virt: u32,
    n: int,
    k: int,
    free: bool,
)
    requires
        0 <= k < n,
        virt + PAGESIZE * n <= u32::MAX,
        m0.wf(),
        tree_wf(m0, root),
        free ==> range_releasable(m0, root, virt, n),
        unmap_state(m0, m1, root, virt, k, free),
        translate(m0, root, page_va(virt, k)) is Some,
        !megapage(m0, root, va_vpn1(page_va(virt, k)) as int),
        m2.wf(),
        m2.same_range(m1),
        m2.same_bytes(m1),
        m2.free() == if free {
            m1.free().insert(mapped_frame(m0, root, page_va(virt, k)))
        } else {
            m1.free()
        },
        m3.wf(),
        m3.same_range(m2),
        m3.free() == m2.free(),
        m3.word(leaf_addr(m0, root, page_va(virt, k))) == 0,
        m3.agree_outside(
            m2,
            leaf_addr(m0, root, page_va(virt, k)),
            leaf_addr(m0, root, page_va(virt, k)) + 4,
        ),
    ensures
        unmap_state(m0, m3, root, virt, k + 1, free),
{
    let va = page_va(virt, k);
    assert(virt + 4096 * k <= u32::MAX) by (nonlinear_arith)
        requires
            virt + 4096 * n <= u32::MAX,
            0 <= k < n,
    ;
    lemma_vpage_step(virt, k);
    lemma_va_fields_bounded(va);
    assert(translate(m1, root, va) == translate(m0, root, va));
    let f = mapped_frame(m0, root, va);
    lemma_free_disjoint_tree(m1, root);
    if free {
        assert(!m1.free().contains(f)) by {
            if range_frames(m0, root, virt, k).contains(f) {
                let j = choose|j: int|
                    0 <= j < k && translate(m0, root, page_va(virt, j)) is Some && f
                        == #[trigger] mapped_frame(m0, root, page_va(virt, j));
            }
        }
        assert(!tree_frames(m0, root).contains(f));
    }
    assert(forall|pa: int| #![trigger m1.byte(pa)] m2.byte(pa) == m1.byte(pa));
    assert(forall|i: int| #![trigger root_entry(m2, root, i)] 0 <= i < 1024 ==> root_entry(m2, root, i) == root_entry(m1, root, i));
    lemma_same_roots(m1, m2, root);
    lemma_free_disjoint_tree(m2, root);
    assert forall|va2: u32| #[trigger] translate(m2, root, va2) == translate(m1, root, va2) by {
        lemma_va_fields_bounded(va2);
        assert(root_entry(m2, root, va_vpn1(va2) as int) == root_entry(m1, root, va_vpn1(va2) as int));
    }
    assert(root_entry(m1, root, va_vpn1(va) as int) == root_entry(m0, root, va_vpn1(va) as int));
    assert(leaf_addr(m2, root, va) == leaf_addr(m0, root, va));
    assert(pte_valid(0u32) == false) by (bit_vector);
    lemma_write_leaf(m2, m3, root, va, 0);
    assert forall|i: int| 0 <= i < 1024 implies #[trigger] root_entry(m3, root, i) == root_entry(m0, root, i) by {
        assert(root_entry(m3, root, i) == root_entry(m2, root, i));
        assert(root_entry(m2, root, i) == root_entry(m1, root, i));
    }
    assert forall|va2: u32| #[trigger] translate(m3, root, va2) == if vpage(virt) <= vpage(va2)
        < vpage(virt) + k + 1 {
        None
    } else {
        translate(m0, root, va2)
    } by {
        if vpage(va2) != vpage(va) {
            assert(translate(m3, root, va2) == translate(m2, root, va2));
        }
    }
    assert forall|va2: u32| table_valid(m0, root, va_vpn1(va2) as int) implies #[trigger] m3.word(
        leaf_addr(m0, root, va2),
    ) == unmapped_word(m0, root, virt, k + 1, va2) by {
        lemma_va_fields_bounded(va2);
        if vpage(va2) == vpage(va) {
            lemma_same_page(va2, va);
        } else {
            lemma_leaf_words_apart(m0, root, va2, va);
            lemma_word_outside(m2, m3, leaf_addr(m0, root, va2), leaf_addr(m0, root, va), leaf_addr(m0, root, va) + 4);
            assert(m2.word(leaf_addr(m0, root, va2)) == m1.word(leaf_addr(m0, root, va2)));
        }
    }
    assert forall|pa: int|
        #![trigger m0.byte(pa)]
        m3.in_ram(pa, 1) && !tree_frames(m0, root).contains(frame_of(pa)) implies m3.byte(pa)
        == m0.byte(pa) by {
        assert(m3.byte(pa) == m2.byte(pa));
        assert(m2.byte(pa) == m1.byte(pa));
    }
    lemma_unmap_free_set(m0, m1, m3, root, virt, k, free);
}

/// The free set after `unmap` cleared page `k`.
proof fn lemma_unmap_free_set(m0: &PhysMem, m1: &PhysMem, m3: &PhysMem, root: u32, virt: u32, k: int, free: bool)
    requires
        0 <= k,
        translate(m0, root, page_va(virt, k)) is Some,
        m1.free() == if free {
            m0.free().union(range_frames(m0, root, virt, k))
        } else {
            m0.free()
        },
        m3.free() == if free {
            m1.free().insert(mapped_frame(m0, root, page_va(virt, k)))
        } else {
            m1.free()
        },
    ensures
        m3.free() == if free {
            m0.free().union(range_frames(m0, root, virt, k + 1))
        } else {
            m0.free()
        },
{
    let f = mapped_frame(m0, root, page_va(virt, k));
    if free {
        assert(m3.free() =~= m0.free().union(range_frames(m0, root, virt, k + 1))) by {
            assert forall|g: int|
                range_frames(m0, root, virt, k + 1).contains(g) <==> range_frames(
                    m0,
                    root,
                    virt,
                    k,
                ).insert(f).contains(g) by {
                if range_frames(m0, root, virt, k + 1).contains(g) && g != f {
                    let j = choose|j: int|
                        0 <= j < k + 1 && translate(m0, root, page_va(virt, j)) is Some && g
                            == #[trigger] mapped_frame(m0, root, page_va(virt, j));
                    assert(j != k);
                }
                if range_frames(m0, root, virt, k).contains(g) {
                    let j = choose|j: int|
                        0 <= j < k && translate(m0, root, page_va(virt, j)) is Some && g
                            == #[trigger] mapped_frame(m0, root, page_va(virt, j));
                    assert(0 <= j < k + 1);
                }
                if g == f {
                    assert(0 <= k < k + 1 && translate(m0, root, page_va(virt, k)) is Some && g
                        == mapped_frame(m0, root, page_va(virt, k)));
                }
            }
        }
    }
}


/// Removes the mappings of the pages of `[virt, virt + size)` and, if `free`
/// is set, gives the pages they mapped back to the allocator; pages of the
/// range that are not mapped are passed over. The size must be a whole
/// number of pages; otherwise nothing changes and `Err` is returned. The
/// leaf words of the mapped pages become zero and no other word of the tree
/// changes.
pub fn unmap(mem: &mut PhysMem, pagetree: u32, virt: u32, size: u32, free: bool) -> (res: Result<
    (),
    (),
>)
    requires
        old(mem).wf(),
        tree_wf(old(mem), pagetree),
        size % PAGESIZE == 0 ==> virt + size <= u32::MAX,
        size % PAGESIZE == 0 ==> no_megapage_over(old(mem), pagetree, virt, npages(size)),
        size % PAGESIZE == 0 && free ==> range_releasable(
            old(mem),
            pagetree,
            virt,
            npages(size),
        ),
    ensures
        res is Err <==> size % PAGESIZE != 0,
        final(mem).wf(),
        final(mem).same_range(old(mem)),
        tree_wf(final(mem), pagetree),
        tree_frames(final(mem), pagetree) == tree_frames(old(mem), pagetree),
        forall|i: int| 0 <= i < 1024 ==> #[trigger] root_entry(final(mem), pagetree, i) == root_entry(old(mem), pagetree, i),
        final(mem).agree_except_frames(old(mem), tree_frames(old(mem), pagetree)),
        res is Err ==> final(mem).same_bytes(old(mem)) && final(mem).free() == old(mem).free(),
        res is Ok ==> unmapped_prefix(old(mem), final(mem), pagetree, virt, npages(size)),
        res is Ok ==> forall|va: u32|
            table_valid(old(mem), pagetree, va_vpn1(va) as int) ==> #[trigger] final(mem).word(
                leaf_addr(old(mem), pagetree, va),
            ) == unmapped_word(old(mem), pagetree, virt, npages(size), va),
        res is Ok ==> final(mem).free() == if free {
            old(mem).free().union(range_frames(old(mem), pagetree, virt, npages(size)))
        } else {
            old(mem).free()
        },
{
    if size % PAGESIZE != 0 {
        proof {
            lemma_same_roots(old(mem), mem, pagetree);
        }
        return Err(());
    }
    let ghost m0 = *old(mem);
    let ghost n: int = size as int / 4096;
    proof {
        assert(npages(size) == n);
        lemma_free_disjoint_tree(&m0, pagetree);
        lemma_same_roots(&m0, mem, pagetree);
        assert(m0.free().union(range_frames(&m0, pagetree, virt, 0)) =~= m0.free());
        assert(unmap_state(&m0, mem, pagetree, virt, 0, free));
    }
    let mut va = virt;
    let ghost mut k: int = 0;
    while va < virt + size
        invariant
            m0 == *old(mem),
            n == size / 4096,
            size % 4096 == 0,
            virt + size <= u32::MAX,
            0 <= k <= n,
            va == virt + PAGESIZE * k,
            m0.wf(),
            tree_wf(&m0, pagetree),
            free ==> range_releasable(&m0, pagetree, virt, n),
            no_megapage_over(&m0, pagetree, virt, n),
            unmap_state(&m0, mem, pagetree, virt, k, free),
        decreases n - k,
    {
        assert(PAGESIZE == 4096);
        assert(k < n) by (nonlinear_arith)
            requires
                va == virt + 4096 * k,
                va < virt + size,
                n == size / 4096,
                size % 4096 == 0,
        {}
        let ghost m1 = *mem;
        proof {
            lemma_vpage_step(virt, k);
            assert(page_va(virt, k) == va);
            lemma_va_fields_bounded(va);
            assert(root_entry(&m1, pagetree, va_vpn1(va) as int) == root_entry(&m0, pagetree, va_vpn1(va) as int));
            assert(vpage(virt) <= vpage(va) < vpage(virt) + n);
            assert(!megapage(&m0, pagetree, va_vpn1(va) as int));
        }
        match walk(mem, pagetree, va, false) {
            Some(pte_addr) => {
                proof {
                    lemma_unmap_state_same(&m0, &m1, mem, pagetree, virt, k, free);
                    assert(pte_addr == leaf_addr(&m0, pagetree, va));
                    assert(!(vpage(virt) <= vpage(va) < vpage(virt) + k));
                }
                let ghost m1b = *mem;
                let pte = PTE::from(mem.read_u32(pte_addr));
                if pte.v {
                    proof {
                        assert(translate(&m0, pagetree, va) is Some);
                    }
                    if free {
                        let page = pte.ppn << 12u32;
                        proof {
                            assert(page == pte_page(translate(&m0, pagetree, va).unwrap()));
                            assert(range_releasable(&m0, pagetree, virt, n));
                            assert(m0.managed().contains(mapped_frame(&m0, pagetree, page_va(virt, k))));
                            lemma_pte_page_aligned(translate(&m0, pagetree, va).unwrap());
                            assert(!m1b.free().contains(frame_of(page as int))) by {
                                let f = frame_of(page as int);
                                if range_frames(&m0, pagetree, virt, k).contains(f) {
                                    let j = choose|j: int|
                                        0 <= j < k && translate(&m0, pagetree, page_va(virt, j)) is Some && f
                                            == #[trigger] mapped_frame(&m0, pagetree, page_va(virt, j));
                                }
                            }
                        }
                        mem.free_frame(page);
                    }
                    let ghost m2 = *mem;
                    mem.write_u32(pte_addr, 0);
                    proof {
                        lemma_unmap_clear(&m0, &m1b, &m2, mem, pagetree, virt, n, k, free);
                    }
                } else {
                    proof {
                        lemma_unmap_skip(&m0, mem, pagetree, virt, n, k, free);
                    }
                }
            },
            None => {
                proof {
                    lemma_unmap_state_same(&m0, &m1, mem, pagetree, virt, k, free);
                    lemma_unmap_skip(&m0, mem, pagetree, virt, n, k, free);
                }
            },
        }
        va = va + PAGESIZE;
        proof {
            k = k + 1;
        }
    }
    proof {
        assert(k == n) by (nonlinear_arith)
            requires
                va == virt + 4096 * k,
                va >= virt + size,
                n == size / 4096,
                size % 4096 == 0,
                k <= n,
        {}
    }
    Ok(())
}

/// Unmapping a range that `map` mapped removes exactly the mappings of its
/// pages: every other address translates as it did before the map.
pub proof fn law_unmap_undoes_map(
    m0: &PhysMem,
    m1: &PhysMem,
    m2: &PhysMem,
    root: u32,
    virt: u32,
    phys: u32,
    perm: u32,
    n: int,
)
    requires
        mapped_prefix(m0, m1, root, virt, phys, perm, n),
        unmapped_prefix(m1, m2, root, virt, n),
    ensures
        forall|va: u32|
            vpage(virt) <= vpage(va) < vpage(virt) + n ==> #[trigger] translate(m2, root, va) is None,
        forall|va: u32|
            !(vpage(virt) <= vpage(va) < vpage(virt) + n) ==> #[trigger] translate(m2, root, va)
                == translate(m0, root, va),
{
    assert forall|va: u32|
        !(vpage(virt) <= vpage(va) < vpage(virt) + n) implies #[trigger] translate(
        m2,
        root,
        va,
    ) == translate(m0, root, va) by {
        assert(translate(m1, root, va) == translate(m0, root, va));
    }
}

/// Mapping a range and then reading back the translation of an address in
/// it gives the page at the same offset from `phys`, with `perm`.
pub proof fn law_map_translates(
    m0: &PhysMem,
    m1: &PhysMem,
    root: u32,
    virt: u32,
    phys: u32,
    perm: u32,
    n: int,
    k: int,
)
    requires
        mapped_prefix(m0, m1, root, virt, phys, perm, n),
        0 <= k < n,
        virt + PAGESIZE * k <= u32::MAX,
    ensures
        translate(m1, root, page_va(virt, k)) == Some(
            leaf_pte((phys + PAGESIZE * k) as u32, perm),
        ),
{
    lemma_vpage_step(virt, k);
}

} // verus!
