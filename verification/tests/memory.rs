use rvkernel::allocator::PageAllocator;
use rvkernel::layout::PAGESIZE;
use rvkernel::physmem::PhysMem;

const BASE: u32 = 0x8020_0000;

#[test]
fn new_memory_reads_zero() {
    let mem = PhysMem::new(BASE, 4);
    for k in 0..4 * PAGESIZE / 4 {
        assert_eq!(mem.read_u32(BASE + 4 * k), 0);
    }
}

#[test]
fn read_gives_back_write() {
    let mut mem = PhysMem::new(BASE, 4);
    mem.write_u32(BASE + 4, 0xdead_beef);
    assert_eq!(mem.read_u32(BASE + 4), 0xdead_beef);
    assert_eq!(mem.read_u32(BASE), 0);
    assert_eq!(mem.read_u32(BASE + 8), 0);
    mem.write_u32(BASE + 4, 7);
    assert_eq!(mem.read_u32(BASE + 4), 7);
}

#[test]
fn words_are_little_endian() {
    let mut mem = PhysMem::new(BASE, 1);
    mem.write_u32(BASE + 8, 0x1122_3344);
    assert_eq!(mem.read_u32(BASE + 9), 0x0011_2233);
    assert_eq!(mem.read_u32(BASE + 6), 0x3344_0000);
}

#[test]
fn write_bytes_copies_a_chunk() {
    let mut mem = PhysMem::new(BASE, 1);
    let data = [1u8, 2, 3, 4, 5, 6, 7, 8];
    mem.write_bytes(BASE + 16, &data, 2, 4);
    assert_eq!(mem.read_u32(BASE + 16), 0x0605_0403);
    assert_eq!(mem.read_u32(BASE + 20), 0);
    assert_eq!(mem.read_u32(BASE + 12), 0);
}

#[test]
fn zero_page_clears_only_that_page() {
    let mut mem = PhysMem::new(BASE, 2);
    mem.write_u32(BASE + 100, 9);
    mem.write_u32(BASE + PAGESIZE + 100, 9);
    mem.zero_page(BASE);
    assert_eq!(mem.read_u32(BASE + 100), 0);
    assert_eq!(mem.read_u32(BASE + PAGESIZE + 100), 9);
}

#[test]
fn frames_are_handed_out_once() {
    let mut mem = PhysMem::new(BASE, 8);
    let mut got: Vec<u32> = Vec::new();
    for _ in 0..8 {
        let pa = mem.alloc_frame().unwrap();
        assert_eq!(pa % PAGESIZE, 0);
        assert!(BASE <= pa && pa < BASE + 8 * PAGESIZE);
        assert!(!got.contains(&pa));
        got.push(pa);
    }
    assert_eq!(mem.alloc_frame(), None);
    mem.free_frame(got[3]);
    assert_eq!(mem.alloc_frame(), Some(got[3]));
    assert_eq!(mem.alloc_frame(), None);
}

#[test]
fn allocation_keeps_contents() {
    let mut mem = PhysMem::new(BASE, 1);
    mem.write_u32(BASE, 42);
    let pa = mem.alloc_frame().unwrap();
    assert_eq!(pa, BASE);
    assert_eq!(mem.read_u32(BASE), 42);
}

#[test]
fn page_allocator_refuses_large_objects() {
    let mut mem = PhysMem::new(BASE, 2);
    let a = PageAllocator {};
    assert_eq!(a.allocate(&mut mem, 5000), Err(()));
    let p = a.allocate(&mut mem, 288).unwrap();
    let q = a.allocate(&mut mem, PAGESIZE as usize).unwrap();
    assert_ne!(p, q);
    assert_eq!(a.allocate(&mut mem, 1), Err(()));
    a.deallocate(&mut mem, p);
    assert_eq!(a.allocate(&mut mem, 16), Ok(p));
}

#[test]
fn allocate_then_deallocate_restores_free_frames() {
    let mut mem = PhysMem::new(BASE, 1);
    let a = PageAllocator {};
    let p = a.allocate(&mut mem, 64).unwrap();
    a.deallocate(&mut mem, p);
    assert_eq!(mem.alloc_frame(), Some(p));
}
