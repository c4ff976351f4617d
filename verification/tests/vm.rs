use rvkernel::layout::{
    kstack, KERNEL_START, PAGESIZE, PTE_R, PTE_U, PTE_V, PTE_W, PTE_X, RAMEND, TRAMPOLINE,
    TRAPFRAME, UART, USER_START,
};
use rvkernel::pagetable::walk;
use rvkernel::physmem::PhysMem;
use rvkernel::process::Process;
use rvkernel::vm::{Kvm, Uvm};

const BASE: u32 = 0x8020_0000;

fn leaf(mem: &mut PhysMem, root: u32, va: u32) -> Option<u32> {
    let a = walk(mem, root, va, false)?;
    Some(mem.read_u32(a))
}

fn page_of(entry: u32) -> u32 {
    (entry >> 10) << 12
}

#[test]
fn new_address_space_is_empty() {
    let mut mem = PhysMem::new(BASE, 4);
    let u = Uvm::new(&mut mem).unwrap();
    assert_eq!(u.begin, USER_START);
    assert_eq!(u.size, 0);
    assert_eq!(u.end(), USER_START);
    assert_eq!(leaf(&mut mem, u.pagetree, USER_START), None);
    for i in 0..1024 {
        assert_eq!(mem.read_u32(u.pagetree + 4 * i), 0);
    }
}

#[test]
fn new_address_space_needs_a_frame() {
    let mut mem = PhysMem::new(BASE, 1);
    mem.alloc_frame().unwrap();
    assert!(Uvm::new(&mut mem).is_err());
}

#[test]
fn satp_selects_the_tree() {
    let mut mem = PhysMem::new(BASE, 4);
    let u = Uvm::new(&mut mem).unwrap();
    assert_eq!(u.get_satp().into(), 0x8000_0000 | (u.pagetree >> 12));
}

#[test]
fn alloc_pages_maps_user_pages() {
    let mut mem = PhysMem::new(BASE, 8);
    let mut u = Uvm::new(&mut mem).unwrap();
    u.alloc_pages(&mut mem, 0x2800, PTE_R | PTE_W).unwrap();
    assert_eq!(u.size, 0x3000);
    assert_eq!(u.end(), USER_START + 0x3000);
    let mut pages: Vec<u32> = Vec::new();
    for k in 0..3 {
        let e = leaf(&mut mem, u.pagetree, USER_START + k * PAGESIZE).unwrap();
        assert_eq!(e & 0x3ff, PTE_R | PTE_W | PTE_U | PTE_V);
        assert!(!pages.contains(&page_of(e)));
        pages.push(page_of(e));
    }
    assert_eq!(leaf(&mut mem, u.pagetree, USER_START + 0x3000), Some(0));
}

#[test]
fn alloc_pages_to_smaller_size_does_nothing() {
    let mut mem = PhysMem::new(BASE, 8);
    let mut u = Uvm::new(&mut mem).unwrap();
    u.alloc_pages(&mut mem, 0x2000, PTE_R).unwrap();
    u.alloc_pages(&mut mem, 0x1000, PTE_R).unwrap();
    assert_eq!(u.size, 0x2000);
}

#[test]
fn alloc_pages_runs_out_of_frames() {
    let mut mem = PhysMem::new(BASE, 4);
    let mut u = Uvm::new(&mut mem).unwrap();
    assert!(u.alloc_pages(&mut mem, 0x4000, PTE_R).is_err());
    assert_eq!(u.size, 0);
    assert_eq!(leaf(&mut mem, u.pagetree, USER_START), Some(0));
    assert_eq!(leaf(&mut mem, u.pagetree, USER_START + PAGESIZE), Some(0));
    assert!(mem.alloc_frame().is_some());
    assert!(mem.alloc_frame().is_some());
    assert_eq!(mem.alloc_frame(), None);
}

#[test]
fn alloc_pages_gives_back_the_page_it_could_not_map() {
    let mut mem = PhysMem::new(BASE, 2);
    let mut u = Uvm::new(&mut mem).unwrap();
    assert!(u.alloc_pages(&mut mem, 0x1000, PTE_R).is_err());
    assert_eq!(u.size, 0);
    assert_eq!(leaf(&mut mem, u.pagetree, USER_START), None);
    assert!(mem.alloc_frame().is_some());
    assert_eq!(mem.alloc_frame(), None);
}

#[test]
fn grow_that_fails_keeps_the_size() {
    let mut mem = PhysMem::new(BASE, 4);
    let mut u = Uvm::new(&mut mem).unwrap();
    u.alloc_pages(&mut mem, 0x1000, PTE_R).unwrap();
    assert!(u.grow(&mut mem, 0x2000, PTE_R).is_err());
    assert_eq!(u.size, 0x1000);
    assert_ne!(leaf(&mut mem, u.pagetree, USER_START), Some(0));
    assert_eq!(leaf(&mut mem, u.pagetree, USER_START + PAGESIZE), Some(0));
    assert!(mem.alloc_frame().is_some());
    assert_eq!(mem.alloc_frame(), None);
}

#[test]
fn grow_adds_whole_pages() {
    let mut mem = PhysMem::new(BASE, 8);
    let mut u = Uvm::new(&mut mem).unwrap();
    u.grow(&mut mem, PAGESIZE, 0).unwrap();
    u.grow(&mut mem, 10, PTE_W | PTE_R).unwrap();
    assert_eq!(u.size, 0x2000);
    assert_eq!(leaf(&mut mem, u.pagetree, USER_START).unwrap() & 0x3ff, PTE_U | PTE_V);
    assert_eq!(
        leaf(&mut mem, u.pagetree, USER_START + PAGESIZE).unwrap() & 0x3ff,
        PTE_R | PTE_W | PTE_U | PTE_V
    );
}

#[test]
fn load_copies_image_through_mappings() {
    let mut mem = PhysMem::new(BASE, 8);
    let mut u = Uvm::new(&mut mem).unwrap();
    u.alloc_pages(&mut mem, 0x2000, PTE_R | PTE_W).unwrap();
    let mut img: Vec<u8> = Vec::new();
    for i in 0..(PAGESIZE + 8) {
        img.push((i % 251) as u8);
    }
    u.load(&mut mem, USER_START, &img).unwrap();
    let p0 = page_of(leaf(&mut mem, u.pagetree, USER_START).unwrap());
    let p1 = page_of(leaf(&mut mem, u.pagetree, USER_START + PAGESIZE).unwrap());
    assert_eq!(mem.read_u32(p0), 0x0302_0100);
    assert_eq!(mem.read_u32(p0 + 4092), u32::from_le_bytes([(4092 % 251) as u8, (4093 % 251) as u8, (4094 % 251) as u8, (4095 % 251) as u8]));
    assert_eq!(mem.read_u32(p1), u32::from_le_bytes([(4096 % 251) as u8, (4097 % 251) as u8, (4098 % 251) as u8, (4099 % 251) as u8]));
    assert_eq!(mem.read_u32(p1 + 8), 0);
}

#[test]
fn load_refuses_unaligned_address() {
    let mut mem = PhysMem::new(BASE, 8);
    let mut u = Uvm::new(&mut mem).unwrap();
    u.alloc_pages(&mut mem, 0x1000, PTE_R | PTE_W).unwrap();
    assert!(u.load(&mut mem, USER_START + 4, &[1, 2, 3]).is_err());
    let p0 = page_of(leaf(&mut mem, u.pagetree, USER_START).unwrap());
    assert_eq!(mem.read_u32(p0 + 4), 0);
}

#[test]
fn dealloc_shrinks_and_frees() {
    let mut mem = PhysMem::new(BASE, 5);
    let mut u = Uvm::new(&mut mem).unwrap();
    u.alloc_pages(&mut mem, 0x3000, PTE_R | PTE_W).unwrap();
    assert_eq!(mem.alloc_frame(), None);
    let top = page_of(leaf(&mut mem, u.pagetree, USER_START + 0x2000).unwrap());
    u.dealloc(&mut mem, 0x2000).unwrap();
    assert_eq!(u.size, 0x2000);
    assert_eq!(leaf(&mut mem, u.pagetree, USER_START + 0x2000), Some(0));
    assert!(leaf(&mut mem, u.pagetree, USER_START + 0x1000).unwrap() & PTE_V != 0);
    assert_eq!(mem.alloc_frame(), Some(top));
}

#[test]
fn dealloc_refuses_partial_pages() {
    let mut mem = PhysMem::new(BASE, 8);
    let mut u = Uvm::new(&mut mem).unwrap();
    u.alloc_pages(&mut mem, 0x2000, PTE_R).unwrap();
    assert!(u.dealloc(&mut mem, 0x800).is_err());
    assert_eq!(u.size, 0x2000);
}

#[test]
fn alloc_then_dealloc_gives_frames_back() {
    let mut mem = PhysMem::new(BASE, 3);
    let mut u = Uvm::new(&mut mem).unwrap();
    u.alloc_pages(&mut mem, 0x1000, PTE_R).unwrap();
    assert_eq!(mem.alloc_frame(), None);
    u.dealloc(&mut mem, 0).unwrap();
    assert_eq!(u.size, 0);
    assert!(mem.alloc_frame().is_some());
    assert_eq!(mem.alloc_frame(), None);
}

#[test]
fn init_proc_maps_trampoline_and_trapframe() {
    let mut mem = PhysMem::new(BASE, 8);
    let p = Process::new(0, &mut mem).unwrap();
    let mut u = Uvm::new(&mut mem).unwrap();
    u.init_proc(&mut mem, &p, 0x8020_5000).unwrap();
    assert_eq!(leaf(&mut mem, u.pagetree, TRAMPOLINE), Some(((0x8020_5000u32 >> 12) << 10) | PTE_R | PTE_X | PTE_V));
    assert_eq!(leaf(&mut mem, u.pagetree, TRAPFRAME), Some(((p.trapframe_page >> 12) << 10) | PTE_R | PTE_W | PTE_V));
    assert_eq!(u.size, 0);
}

#[test]
fn kernel_space_maps_itself() {
    let mut mem = PhysMem::new(BASE, 32);
    let end_text: u32 = 0x8021_0000;
    let kvm = Kvm::init(&mut mem, end_text).unwrap();
    assert_eq!(leaf(&mut mem, kvm.pagetree, UART), Some(0x0400_0007));
    assert_eq!(leaf(&mut mem, kvm.pagetree, KERNEL_START), Some(0x2008_000b));
    assert_eq!(leaf(&mut mem, kvm.pagetree, end_text - PAGESIZE), Some(0x2008_3c0b));
    assert_eq!(leaf(&mut mem, kvm.pagetree, end_text), Some(0x2008_4007));
    assert_eq!(leaf(&mut mem, kvm.pagetree, RAMEND - PAGESIZE), Some(((RAMEND - PAGESIZE) >> 2) | 0x7));
    assert_eq!(kvm.start_kvm(), 0x8000_0000 | (kvm.pagetree >> 12));
    assert_eq!(leaf(&mut mem, kvm.pagetree, UART + PAGESIZE), Some(0));
    assert_eq!(leaf(&mut mem, kvm.pagetree, 0x4000_0000), None);
    assert_eq!(leaf(&mut mem, kvm.pagetree, RAMEND), None);
    assert_eq!(leaf(&mut mem, kvm.pagetree, UART + 2 * PAGESIZE), Some(0));
}

#[test]
fn kernel_space_needs_frames() {
    let mut mem = PhysMem::new(BASE, 4);
    assert!(Kvm::init(&mut mem, 0x8021_0000).is_err());
}

#[test]
fn kernel_stack_is_backed() {
    let mut mem = PhysMem::new(BASE, 32);
    let mut kvm = Kvm::init(&mut mem, 0x8021_0000).unwrap();
    let va = kstack(0);
    kvm.alloc_kstack(&mut mem, va).unwrap();
    let e0 = leaf(&mut mem, kvm.pagetree, va).unwrap();
    let e1 = leaf(&mut mem, kvm.pagetree, va + PAGESIZE).unwrap();
    assert_eq!(e0 & 0x3ff, PTE_R | PTE_W | PTE_V);
    assert_eq!(e1 & 0x3ff, PTE_R | PTE_W | PTE_V);
    assert_ne!(page_of(e0), page_of(e1));
    assert_eq!(leaf(&mut mem, kvm.pagetree, va + 2 * PAGESIZE), Some(0));
}

#[test]
fn map_kstack_maps_one_page() {
    let mut mem = PhysMem::new(BASE, 32);
    let mut kvm = Kvm::init(&mut mem, 0x8021_0000).unwrap();
    kvm.map_kstack(&mut mem, 0x8030_0000, kstack(1));
    assert_eq!(leaf(&mut mem, kvm.pagetree, kstack(1)), Some(0x200c_0007));
}

#[test]
fn free_does_nothing() {
    Uvm::free();
}

#[test]
fn shrinking_back_keeps_earlier_pages() {
    let mut mem = PhysMem::new(BASE, 8);
    let mut u = Uvm::new(&mut mem).unwrap();
    u.alloc_pages(&mut mem, 0x1000, PTE_R).unwrap();
    let first = leaf(&mut mem, u.pagetree, USER_START).unwrap();
    u.alloc_pages(&mut mem, 0x3000, PTE_R | PTE_W).unwrap();
    u.dealloc(&mut mem, 0x1000).unwrap();
    assert_eq!(leaf(&mut mem, u.pagetree, USER_START), Some(first));
    assert_eq!(leaf(&mut mem, u.pagetree, USER_START + 0x1000), Some(0));
    assert_eq!(leaf(&mut mem, u.pagetree, USER_START + 0x2000), Some(0));
}

#[test]
fn load_outside_user_memory_fails() {
    let mut mem = PhysMem::new(BASE, 8);
    let mut u = Uvm::new(&mut mem).unwrap();
    u.alloc_pages(&mut mem, 0x1000, PTE_R | PTE_W).unwrap();
    let img = vec![7u8; 0x1001];
    assert!(u.load(&mut mem, USER_START, &img).is_err());
    assert!(u.load(&mut mem, USER_START + PAGESIZE, &[1]).is_err());
    assert!(u.load(&mut mem, 0, &[1]).is_err());
    assert!(u.load(&mut mem, USER_START, &img[..0x1000]).is_ok());
}
