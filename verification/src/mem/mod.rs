//! Physical memory: frames and the capability to allocate them.

use vstd::prelude::*;
pub use crate::mem::area_frame_allocator::AreaFrameAllocator;
pub use crate::mem::setup::{init, kernel_bounds, try_init};

pub mod area_frame_allocator;
pub mod paging;
pub mod setup;

verus! {

/// Bytes in a frame and in a page.
pub const PAGE_SIZE: u64 = 4096;

/// The largest frame number whose start address fits in 64 bits.
pub const MAX_FRAME_NUMBER: u64 = 0xf_ffff_ffff_ffff;

/// An address in physical memory.
pub type PhysicalAddress = u64;

/// A page-sized unit of physical memory, identified by its index.
#[derive(Debug, PartialEq, Eq, PartialOrd, Ord, Structural)]
pub struct Frame {
    pub number: u64,
}

impl Frame {
    /// The physical address of the frame's first byte.
    pub open spec fn spec_start(self) -> int {
        self.number * PAGE_SIZE
    }

    /// The physical address of the frame's first byte.
    pub fn start(&self) -> (address: PhysicalAddress)
        requires
            self.number <= MAX_FRAME_NUMBER,
        ensures
            address == self.spec_start(),
    {
        self.number * PAGE_SIZE
    }

    /// The frame that holds the byte at `address`.
    pub fn containing(address: PhysicalAddress) -> (frame: Frame)
        ensures
            frame.number == address / PAGE_SIZE,
            frame.number <= MAX_FRAME_NUMBER,
            frame.spec_start() <= address < frame.spec_start() + PAGE_SIZE,
    {
        Frame { number: address / PAGE_SIZE }
    }

    /// A second handle on the same frame.
    pub fn clone(&self) -> (frame: Frame)
        ensures
            frame == *self,
    {
        Frame { number: self.number }
    }

    /// The frames from `start` through `end`, both included.
    pub fn range_inclusive(start: Frame, end: Frame) -> (iter: FrameIter)
        requires
            end.number < u64::MAX,
        ensures
            iter.start == start,
            iter.end == end,
            iter.wf(),
    {
        FrameIter { start: start, end: end }
    }
}

/// Walks a range of frames in rising order.
pub struct FrameIter {
    pub start: Frame,
    pub end: Frame,
}

impl FrameIter {
    /// The last frame has a number that can be counted past.
    pub open spec fn wf(self) -> bool {
        self.end.number < u64::MAX
    }

    /// How many frames are still to come.
    pub open spec fn remaining(self) -> nat {
        if self.start.number <= self.end.number {
            (self.end.number - self.start.number + 1) as nat
        } else {
            0
        }
    }

    /// The numbers of the frames still to come, in the order in which
    /// `next` hands them out.
    pub open spec fn view(self) -> Seq<u64> {
        Seq::new(self.remaining(), |i: int| (self.start.number + i) as u64)
    }

    /// The next frame of the range, or `None` once the range is used up.
    pub fn next(&mut self) -> (item: Option<Frame>)
        requires
            old(self).wf(),
        ensures
            final(self).wf(),
            final(self).end == old(self).end,
            match item {
                Some(frame) => {
                    &&& old(self)@.len() > 0
                    &&& frame.number == old(self)@[0]
                    &&& frame == old(self).start
                    &&& frame.number <= old(self).end.number
                    &&& final(self).start.number == frame.number + 1
                    &&& final(self)@ == old(self)@.drop_first()
                },
                None => old(self)@.len() == 0 && *final(self) == *old(self)
                    && old(self).start.number > old(self).end.number,
            },
    {
        if self.start.number <= self.end.number {
            let frame = self.start.clone();
            self.start.number += 1;
            assert(self@ =~= old(self)@.drop_first());
            Some(frame)
        } else {
            None
        }
    }
}

/// What one call of `allocate_frame` does to an allocator's pool: a
/// frame leaves it, or the pool was empty and stays so.
pub open spec fn allocated(before: Set<u64>, result: Option<Frame>, after: Set<u64>) -> bool {
    match result {
        Some(frame) => before.contains(frame.number) && after == before.remove(frame.number),
        None => before.is_empty() && after == before,
    }
}

/// The capability to check physical frames out and to hand them back.
pub trait FrameAllocator {
    /// The numbers of the frames that this allocator may still hand out.
    spec fn pool(&self) -> Set<u64>;

    /// The allocator's own consistency.
    spec fn inv(&self) -> bool;

    /// Whether the allocator has room to take `frame` back.
    spec fn accepts(&self, frame: Frame) -> bool;

    /// What the allocation after `k` others hands out, as long as no frame
    /// is handed back before it: the order in which the pool leaves.
    spec fn upcoming(&self, k: nat) -> Option<Frame>;

    /// Hands out a frame of the pool, or `None` exactly when the pool is
    /// empty. A frame that was handed out is no longer in the pool. Which
    /// frame comes is decided by the allocator's state alone, and so is
    /// every frame after it.
    fn allocate_frame(&mut self) -> (result: Option<Frame>)
        requires
            old(self).inv(),
        ensures
            final(self).inv(),
            allocated(old(self).pool(), result, final(self).pool()),
            result == old(self).upcoming(0),
            forall|k: nat| #[trigger] final(self).upcoming(k) == old(self).upcoming(k + 1),
    ;

    /// Takes a frame back. The allocator may keep it for reuse or forget
    /// it: a caller cannot count on seeing it again.
    fn free(&mut self, frame: Frame)
        requires
            old(self).inv(),
            old(self).accepts(frame),
        ensures
            final(self).inv(),
            final(self).pool() == old(self).pool() || final(self).pool() == old(self).pool().insert(
                frame.number,
            ),
    ;
}

/// The frames below a bound are finitely many.
pub proof fn lemma_frames_below_finite(bound: u64, frames: Set<u64>)
    requires
        forall|n: u64| frames.contains(n) ==> n < bound,
    ensures
        frames.finite(),
{
    let range = vstd::set_lib::set_int_range(0, bound as int);
    vstd::set_lib::lemma_int_range(0, bound as int);
    let image = range.map(|i: int| i as u64);
    range.lemma_map_finite(|i: int| i as u64);
    assert forall|n: u64| frames.contains(n) implies image.contains(n) by {
        assert(range.contains(n as int));
    }
    vstd::set_lib::lemma_len_subset(frames, image);
}

/// The frames from `low` through `high` are no more than `high - low + 1`.
pub proof fn lemma_frames_between(low: u64, high: u64, frames: Set<u64>)
    requires
        low <= high,
        forall|n: u64| frames.contains(n) ==> low <= n <= high,
    ensures
        frames.finite(),
        frames.len() <= high - low + 1,
{
    let range = vstd::set_lib::set_int_range(low as int, high + 1);
    vstd::set_lib::lemma_int_range(low as int, high + 1);
    let image = range.map(|i: int| i as u64);
    vstd::set_lib::lemma_map_size_bound(range, image, |i: int| i as u64);
    assert forall|n: u64| frames.contains(n) implies image.contains(n) by {
        assert(range.contains(n as int));
    }
    vstd::set_lib::lemma_len_subset(frames, image);
}

/// Once an allocation found the pool empty, so does the next one.
pub proof fn lemma_exhausted_stays(
    before: Set<u64>,
    between: Set<u64>,
    result: Option<Frame>,
    after: Set<u64>,
)
    requires
        allocated(before, None, between),
        allocated(between, result, after),
    ensures
        result is None,
        after == before,
{
}

/// A run of allocations that all hand out a frame is no longer than the
/// pool held frames at its start: one allocation more finds the pool
/// empty.
pub proof fn lemma_run_bounded(pools: Seq<Set<u64>>, frames: Seq<Frame>)
    requires
        pools.len() == frames.len() + 1,
        pools[0].finite(),
        forall|i: int|
            0 <= i < frames.len() ==> allocated(pools[i], Some(#[trigger] frames[i]), pools[i + 1]),
    ensures
        frames.len() <= pools[0].len(),
        pools.last().finite(),
        pools.last().len() == pools[0].len() - frames.len(),
    decreases frames.len(),
{
    broadcast use vstd::set::group_set_axioms;

    if frames.len() > 0 {
        let rest_pools = pools.drop_first();
        let rest_frames = frames.drop_first();
        assert(allocated(pools[0], Some(frames[0]), pools[1]));
        assert(rest_pools[0] == pools[1]);
        assert(rest_pools.last() == pools.last());
        assert forall|i: int| 0 <= i < rest_frames.len() implies allocated(
            rest_pools[i],
            Some(#[trigger] rest_frames[i]),
            rest_pools[i + 1],
        ) by {
            assert(allocated(pools[i + 1], Some(frames[i + 1]), pools[i + 2]));
            assert(rest_pools[i] == pools[i + 1]);
            assert(rest_pools[i + 1] == pools[i + 2]);
        }
        lemma_run_bounded(rest_pools, rest_frames);
    }
}

} // verus!
