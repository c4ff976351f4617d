//! The buddy frame allocator of `buddy_system_allocator`, declared to the
//! verifier, with the contracts of the calls the kernel makes into it.

use vstd::prelude::*;
use vstd::arithmetic::power2::pow2;
use buddy_system_allocator::FrameAllocator;

verus! {

/// Order of the buddy allocator: blocks hold at most 2^31 frames.
pub const FRAME_ORDER: usize = 32;

#[verifier::external_type_specification]
#[verifier::external_body]
pub struct ExFrameAllocator<const ORDER: usize>(FrameAllocator<ORDER>);

/// The free blocks that the allocator holds, as pairs (first frame, class):
/// a block of class `c` spans `2^c` consecutive frames.
pub uninterp spec fn frame_blocks(a: FrameAllocator<32>) -> Set<(usize, usize)>;

/// The allocator's statistics: frames handed out, frames added.
pub uninterp spec fn frame_counts(a: FrameAllocator<32>) -> (usize, usize);

/// Frame `f` lies in block `b`.
pub open spec fn block_covers(b: (usize, usize), f: int) -> bool {
    b.0 <= f < b.0 + pow2(b.1 as nat)
}

/// The free frames: every frame that some free block spans.
pub open spec fn covered(blocks: Set<(usize, usize)>) -> Set<int> {
    Set::new(|f: int| exists|b: (usize, usize)| blocks.contains(b) && block_covers(b, f))
}

/// The blocks are aligned to their size, of a class below the order, inside
/// the range of `usize`, and no two of them share a frame.
pub open spec fn blocks_ok(blocks: Set<(usize, usize)>) -> bool {
    &&& forall|b: (usize, usize)|
        #![trigger blocks.contains(b)]
        blocks.contains(b) ==> b.1 < FRAME_ORDER && (b.0 as int) % (pow2(b.1 as nat) as int) == 0 && b.0
            + pow2(b.1 as nat) <= usize::MAX + 1
    &&& forall|b1: (usize, usize), b2: (usize, usize), f: int|
        #![trigger blocks.contains(b1), blocks.contains(b2), block_covers(b1, f), block_covers(b2, f)]
        blocks.contains(b1) && blocks.contains(b2) && block_covers(b1, f) && block_covers(b2, f)
            ==> b1 == b2
}

/// Calls `FrameAllocator::new`: an allocator with no blocks and zeroed
/// statistics.
#[verifier::external_body]
pub(crate) fn frames_new() -> (res: FrameAllocator<32>)
    ensures
        frame_blocks(res) == Set::<(usize, usize)>::empty(),
        frame_counts(res) == (0usize, 0usize),
{
    FrameAllocator::<32>::new()
}

/// Calls `FrameAllocator::add_frame(start, end)`: the range `[start, end)` is
/// cut into aligned blocks that are added to the free blocks, and the total
/// grows by the size of the range. The call asserts `start <= end`, and adds
/// to the total without checking for overflow.
#[verifier::external_body]
pub(crate) fn frames_add(a: &mut FrameAllocator<32>, start: usize, end: usize)
    requires
        start <= end,
        frame_counts(*old(a)).1 + (end - start) <= usize::MAX,
    ensures
        frame_counts(*final(a)) == (frame_counts(*old(a)).0, (frame_counts(*old(a)).1 + (end
            - start)) as usize),
        frame_blocks(*old(a)).subset_of(frame_blocks(*final(a))),
        covered(frame_blocks(*final(a))) == covered(frame_blocks(*old(a))).union(
            vstd::set_lib::set_int_range(start as int, end as int),
        ),
        blocks_ok(frame_blocks(*old(a))) && covered(frame_blocks(*old(a))).disjoint(
            vstd::set_lib::set_int_range(start as int, end as int),
        ) ==> blocks_ok(frame_blocks(*final(a))),
{
    a.add_frame(start, end)
}

/// Calls `FrameAllocator::alloc(1)`: one frame taken from the smallest
/// non-empty class, after splitting a larger block if needed. It returns
/// `None` exactly when there is no free block, and then changes nothing. The
/// count of frames handed out grows by one without an overflow check.
#[verifier::external_body]
pub(crate) fn frames_alloc(a: &mut FrameAllocator<32>) -> (res: Option<usize>)
    requires
        frame_counts(*old(a)).0 < usize::MAX,
    ensures
        res is None ==> frame_blocks(*old(a)) == Set::<(usize, usize)>::empty() && frame_blocks(
            *final(a),
        ) == frame_blocks(*old(a)) && frame_counts(*final(a)) == frame_counts(*old(a)),
        res matches Some(f) ==> {
            &&& covered(frame_blocks(*old(a))).contains(f as int)
            &&& frame_counts(*final(a)) == ((frame_counts(*old(a)).0 + 1) as usize, frame_counts(
                *old(a),
            ).1)
            &&& blocks_ok(frame_blocks(*old(a))) ==> blocks_ok(frame_blocks(*final(a))) && covered(
                frame_blocks(*final(a)),
            ) == covered(frame_blocks(*old(a))).remove(f as int)
        },
{
    a.alloc(1)
}

/// Calls `FrameAllocator::dealloc(frame, 1)`: the frame is added back as a
/// block of class 0 and merged with free buddies. The count of frames handed
/// out drops by one without an underflow check.
#[verifier::external_body]
pub(crate) fn frames_dealloc(a: &mut FrameAllocator<32>, frame: usize)
    requires
        frame_counts(*old(a)).0 >= 1,
    ensures
        frame_counts(*final(a)) == ((frame_counts(*old(a)).0 - 1) as usize, frame_counts(
            *old(a),
        ).1),
        blocks_ok(frame_blocks(*old(a))) && !covered(frame_blocks(*old(a))).contains(frame as int)
            ==> blocks_ok(frame_blocks(*final(a))) && covered(frame_blocks(*final(a))) == covered(
            frame_blocks(*old(a)),
        ).insert(frame as int),
{
    a.dealloc(frame, 1)
}

} // verus!
