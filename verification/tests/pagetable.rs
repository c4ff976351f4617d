use rvkernel::layout::{PAGESIZE, PTE_R, PTE_V, PTE_W, PTE_X};
use rvkernel::pagetable::{unmap, walk};
use rvkernel::physmem::PhysMem;

const BASE: u32 = 0x8020_0000;

fn fresh_tree(pages: u32) -> (PhysMem, u32) {
    let mut mem = PhysMem::new(BASE, pages);
    let root = mem.alloc_frame().unwrap();
    mem.zero_page(root);
    (mem, root)
}

fn leaf(mem: &mut PhysMem, root: u32, va: u32) -> Option<u32> {
    let a = walk(mem, root, va, false)?;
    Some(mem.read_u32(a))
}

#[test]
fn walk_without_table_finds_nothing() {
    let (mut mem, root) = fresh_tree(4);
    assert_eq!(walk(&mut mem, root, 0x1_0000, false), None);
    assert_eq!(mem.read_u32(root), 0);
}

#[test]
fn walk_with_alloc_adds_a_leaf_table() {
    let (mut mem, root) = fresh_tree(4);
    let a = walk(&mut mem, root, 0x0040_3000, true).unwrap();
    let entry = mem.read_u32(root + 4);
    assert_eq!(entry & 0x3ff, PTE_V);
    let table = (entry >> 10) << 12;
    assert_eq!(a, table + 4 * 3);
    assert_eq!(walk(&mut mem, root, 0x0040_3000, false), Some(a));
    assert_eq!(walk(&mut mem, root, 0x0040_4000, false), Some(table + 16));
}

#[test]
fn walk_fails_when_no_frame_is_left() {
    let (mut mem, root) = fresh_tree(1);
    assert_eq!(walk(&mut mem, root, 0x1_0000, true), None);
}

#[test]
fn map_sets_leaf_entries() {
    let (mut mem, root) = fresh_tree(4);
    rvkernel::pagetable::map(&mut mem, root, 0x1_0000, 0x9000_0000, 0x2000, PTE_R | PTE_W).unwrap();
    assert_eq!(leaf(&mut mem, root, 0x1_0000), Some(0x2400_0007));
    assert_eq!(leaf(&mut mem, root, 0x1_0fff), Some(0x2400_0007));
    assert_eq!(leaf(&mut mem, root, 0x1_1000), Some(0x2400_0407));
    assert_eq!(leaf(&mut mem, root, 0x1_2000), Some(0));
}

#[test]
fn map_steps_whole_pages_from_virt() {
    let (mut mem, root) = fresh_tree(4);
    rvkernel::pagetable::map(&mut mem, root, 0x1_0800, 0x9000_0800, 0x1000, PTE_X | PTE_R).unwrap();
    assert_eq!(leaf(&mut mem, root, 0x1_0000), Some(0x2400_000b));
    assert_eq!(leaf(&mut mem, root, 0x1_1000), Some(0));
    rvkernel::pagetable::map(&mut mem, root, 0x1_2800, 0x9000_0800, 0x1001, PTE_X | PTE_R).unwrap();
    assert_eq!(leaf(&mut mem, root, 0x1_2000), Some(0x2400_000b));
    assert_eq!(leaf(&mut mem, root, 0x1_3000), Some(0x2400_040b));
}

#[test]
fn map_keeps_other_mappings() {
    let (mut mem, root) = fresh_tree(4);
    rvkernel::pagetable::map(&mut mem, root, 0x1_0000, 0x9000_0000, PAGESIZE, PTE_R).unwrap();
    rvkernel::pagetable::map(&mut mem, root, 0x1_1000, 0x9100_0000, PAGESIZE, PTE_W).unwrap();
    assert_eq!(leaf(&mut mem, root, 0x1_0000), Some(0x2400_0003));
    assert_eq!(leaf(&mut mem, root, 0x1_1000), Some(0x2440_0005));
}

#[test]
fn map_fails_without_frames() {
    let (mut mem, root) = fresh_tree(1);
    assert_eq!(rvkernel::pagetable::map(&mut mem, root, 0x1_0000, 0x9000_0000, PAGESIZE, PTE_R), Err(()));
}

#[test]
fn unmap_clears_entries() {
    let (mut mem, root) = fresh_tree(4);
    rvkernel::pagetable::map(&mut mem, root, 0x1_0000, 0x9000_0000, 0x3000, PTE_R | PTE_W).unwrap();
    unmap(&mut mem, root, 0x1_1000, 0x2000, false).unwrap();
    assert_eq!(leaf(&mut mem, root, 0x1_0000), Some(0x2400_0007));
    assert_eq!(leaf(&mut mem, root, 0x1_1000), Some(0));
    assert_eq!(leaf(&mut mem, root, 0x1_2000), Some(0));
}

#[test]
fn unmap_refuses_unaligned_size() {
    let (mut mem, root) = fresh_tree(4);
    rvkernel::pagetable::map(&mut mem, root, 0x1_0000, 0x9000_0000, 0x1000, PTE_R).unwrap();
    assert_eq!(unmap(&mut mem, root, 0x1_0000, 0x800, false), Err(()));
    assert_eq!(leaf(&mut mem, root, 0x1_0000), Some(0x2400_0003));
}

#[test]
fn unmap_with_free_returns_frames() {
    let (mut mem, root) = fresh_tree(3);
    let page = mem.alloc_frame().unwrap();
    rvkernel::pagetable::map(&mut mem, root, 0x1_0000, page, PAGESIZE, PTE_R).unwrap();
    assert_eq!(mem.alloc_frame(), None);
    unmap(&mut mem, root, 0x1_0000, PAGESIZE, true).unwrap();
    assert_eq!(mem.alloc_frame(), Some(page));
}

#[test]
fn unmap_undoes_map_and_keeps_the_rest() {
    let (mut mem, root) = fresh_tree(4);
    rvkernel::pagetable::map(&mut mem, root, 0x1_0000, 0x9000_0000, PAGESIZE, PTE_R).unwrap();
    rvkernel::pagetable::map(&mut mem, root, 0x1_4000, 0x9800_0000, 0x2000, PTE_W | PTE_R).unwrap();
    unmap(&mut mem, root, 0x1_4000, 0x2000, false).unwrap();
    assert_eq!(leaf(&mut mem, root, 0x1_4000), Some(0));
    assert_eq!(leaf(&mut mem, root, 0x1_5000), Some(0));
    assert_eq!(leaf(&mut mem, root, 0x1_0000), Some(0x2400_0003));
}

#[test]
fn walk_gives_a_new_leaf_table_of_zeros() {
    let (mut mem, root) = fresh_tree(2);
    for k in 0..(2 * PAGESIZE / 4) {
        let a = BASE + 4 * k;
        if a < root || a >= root + PAGESIZE {
            mem.write_u32(a, 0xffff_ffff);
        }
    }
    let a = walk(&mut mem, root, 0x1_0000, true).unwrap();
    let table = a - 4 * 0x10;
    for k in 0..1024 {
        assert_eq!(mem.read_u32(table + 4 * k), 0);
    }
    assert_eq!(leaf(&mut mem, root, 0x3f_f000), Some(0));
}

#[test]
fn unmap_passes_over_unmapped_pages() {
    let (mut mem, root) = fresh_tree(4);
    let p0 = mem.alloc_frame().unwrap();
    let p2 = mem.alloc_frame().unwrap();
    rvkernel::pagetable::map(&mut mem, root, 0x1_0000, p0, PAGESIZE, PTE_R).unwrap();
    rvkernel::pagetable::map(&mut mem, root, 0x1_2000, p2, PAGESIZE, PTE_R).unwrap();
    rvkernel::pagetable::map(&mut mem, root, 0x1_4000, 0x9000_0000, PAGESIZE, PTE_R).unwrap();
    unmap(&mut mem, root, 0x1_0000, 0x4000, true).unwrap();
    for va in [0x1_0000u32, 0x1_1000, 0x1_2000, 0x1_3000] {
        assert_eq!(leaf(&mut mem, root, va), Some(0));
    }
    assert_eq!(leaf(&mut mem, root, 0x1_4000), Some(0x2400_0003));
    let a = mem.alloc_frame().unwrap();
    let b = mem.alloc_frame().unwrap();
    assert!((a == p0 && b == p2) || (a == p2 && b == p0));
    assert_eq!(mem.alloc_frame(), None);
}

#[test]
fn unmap_of_a_range_without_tables_does_nothing() {
    let (mut mem, root) = fresh_tree(2);
    unmap(&mut mem, root, 0x4000_0000, 0x3000, false).unwrap();
    assert_eq!(mem.read_u32(root + 4 * 0x100), 0);
    assert!(mem.alloc_frame().is_some());
}

#[test]
fn walk_returns_a_megapage_entry_itself() {
    let (mut mem, root) = fresh_tree(2);
    let mega = ((0x8040_0000u32 >> 12) << 10) | PTE_R | PTE_W | PTE_V;
    mem.write_u32(root + 4 * 0x201, mega);
    assert_eq!(walk(&mut mem, root, 0x8040_5000, true), Some(root + 4 * 0x201));
    assert_eq!(walk(&mut mem, root, 0x807f_f000, false), Some(root + 4 * 0x201));
    assert_eq!(mem.read_u32(root + 4 * 0x201), mega);
    assert!(mem.alloc_frame().is_some());
}
