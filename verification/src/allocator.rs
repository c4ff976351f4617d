//! Page-sized allocations for kernel objects such as trap frames.

use vstd::prelude::*;
use crate::layout::PAGESIZE;
use crate::physmem::PhysMem;

verus! {

/// Hands out a whole page of RAM for each object that fits in one.
pub struct PageAllocator {}

impl PageAllocator {
    /// A page for an object of `size` bytes: the physical address of a frame
    /// taken from the free ones. Fails when the object is larger than a page
    /// or no frame is free; memory is then left as it was.
    pub fn allocate(&self, mem: &mut PhysMem, size: usize) -> (res: Result<u32, ()>)
        requires
            old(mem).wf(),
        ensures
            final(mem).wf(),
            final(mem).same_range(old(mem)),
            final(mem).same_bytes(old(mem)),
            res is Err <==> size > PAGESIZE || old(mem).free().is_empty(),
            res is Err ==> final(mem).free() == old(mem).free(),
            res matches Ok(pa) ==> {
                &&& pa % PAGESIZE == 0
                &&& final(mem).is_ram_page(pa as int)
                &&& old(mem).free().contains((pa / PAGESIZE) as int)
                &&& final(mem).free() == old(mem).free().remove((pa / PAGESIZE) as int)
            },
    {
        if size > PAGESIZE as usize {
            return Err(());
        }
        match mem.alloc_frame() {
            Some(pa) => Ok(pa),
            None => Err(()),
        }
    }

    /// Gives the page at `pa`, handed out by `allocate`, back.
    pub fn deallocate(&self, mem: &mut PhysMem, pa: u32)
        requires
            old(mem).wf(),
            pa % PAGESIZE == 0,
            old(mem).managed().contains((pa / PAGESIZE) as int),
            !old(mem).free().contains((pa / PAGESIZE) as int),
        ensures
            final(mem).wf(),
            final(mem).same_range(old(mem)),
            final(mem).same_bytes(old(mem)),
            final(mem).free() == old(mem).free().insert((pa / PAGESIZE) as int),
    {
        mem.free_frame(pa);
    }
}

/// A page handed out and given back leaves the free frames as they were.
pub proof fn law_allocate_deallocate(m0: &PhysMem, m1: &PhysMem, m2: &PhysMem, pa: u32)
    requires
        m0.free().contains((pa / PAGESIZE) as int),
        m1.free() == m0.free().remove((pa / PAGESIZE) as int),
        m2.free() == m1.free().insert((pa / PAGESIZE) as int),
    ensures
        m2.free() == m0.free(),
{
    assert(m2.free() =~= m0.free());
}

} // verus!
