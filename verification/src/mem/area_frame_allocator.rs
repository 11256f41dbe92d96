//! A frame allocator that walks the memory regions which the boot loader
//! reported, in rising order of frames, and leaves out every region that
//! touches the kernel image or the boot loader's report.

use vstd::prelude::*;
use crate::boot::MemoryArea;
use crate::mem::{
    allocated, lemma_frames_below_finite, lemma_frames_between, lemma_run_bounded, Frame,
    FrameAllocator,
};

verus! {

/// Hands out the frames of the usable regions, lowest first, each once.
pub struct AreaFrameAllocator {
    area: Option<MemoryArea>,
    areas: Vec<MemoryArea>,
    next: Frame,
    kernel_start: Frame,
    kernel_end: Frame,
    multiboot_start: Frame,
    multiboot_end: Frame,
}

/// First and last of the frames that hold a byte from the address `start`
/// up to, but without, the address `end`. Where no byte lies between the
/// two, the first frame is above the last.
pub open spec fn frames_of(start: u64, end: u64) -> (u64, u64) {
    if start < end {
        (start / 4096, ((end - 1) / 4096) as u64)
    } else {
        (1, 0)
    }
}

/// Whether the region `area` holds a frame from `low` through `high`.
pub open spec fn touches(area: MemoryArea, low: u64, high: u64) -> bool {
    low <= high && area.first_frame() <= high && low <= area.last_frame()
}

/// Whether frame `n` lies in a region of `areas` that holds no frame from
/// `kernel.0` through `kernel.1` and none from `multiboot.0` through
/// `multiboot.1`.
pub open spec fn free_frame(
    areas: Seq<MemoryArea>,
    kernel: (u64, u64),
    multiboot: (u64, u64),
    n: u64,
) -> bool {
    exists|i: int|
        0 <= i < areas.len() && !touches(#[trigger] areas[i], kernel.0, kernel.1) && !touches(
            areas[i],
            multiboot.0,
            multiboot.1,
        ) && areas[i].first_frame() <= n <= areas[i].last_frame()
}

/// The frames that an allocator over `areas` hands out in all.
pub open spec fn free_frames(areas: Seq<MemoryArea>, kernel: (u64, u64), multiboot: (u64, u64)) -> Set<
    u64,
> {
    Set::new(|n: u64| free_frame(areas, kernel, multiboot, n))
}

impl AreaFrameAllocator {
    /// The regions that the boot loader reported, in its order.
    pub closed spec fn areas(&self) -> Seq<MemoryArea> {
        self.areas@
    }

    /// Number of the lowest frame that may still be handed out.
    pub closed spec fn next(&self) -> u64 {
        self.next.number
    }

    /// The region that the allocator is handing out of.
    pub closed spec fn area(&self) -> Option<MemoryArea> {
        self.area
    }

    /// First and last frame of the kernel image.
    pub closed spec fn kernel(&self) -> (u64, u64) {
        (self.kernel_start.number, self.kernel_end.number)
    }

    /// First and last frame of the boot loader's report.
    pub closed spec fn multiboot(&self) -> (u64, u64) {
        (self.multiboot_start.number, self.multiboot_end.number)
    }

    /// Whether frame `n` belongs to the kernel image or to the boot
    /// loader's report.
    pub open spec fn reserved(&self, n: u64) -> bool {
        self.kernel().0 <= n <= self.kernel().1 || self.multiboot().0 <= n <= self.multiboot().1
    }

    /// Whether the allocator hands out of the region `area`: it holds no
    /// reserved frame.
    pub open spec fn eligible(&self, area: MemoryArea) -> bool {
        !touches(area, self.kernel().0, self.kernel().1) && !touches(
            area,
            self.multiboot().0,
            self.multiboot().1,
        )
    }

    /// Whether frame `n` lies in an eligible region.
    pub open spec fn usable(&self, n: u64) -> bool {
        exists|i: int|
            0 <= i < self.areas().len() && self.eligible(#[trigger] self.areas()[i])
                && self.areas()[i].first_frame() <= n <= self.areas()[i].last_frame()
    }

    /// The frames in eligible regions are the free frames of the regions.
    pub proof fn lemma_usable(&self, n: u64)
        ensures
            self.usable(n) == free_frame(self.areas(), self.kernel(), self.multiboot(), n),
    {
        if self.usable(n) {
            let i = choose|i: int|
                0 <= i < self.areas().len() && self.eligible(#[trigger] self.areas()[i])
                    && self.areas()[i].first_frame() <= n <= self.areas()[i].last_frame();
            assert(!touches(self.areas()[i], self.kernel().0, self.kernel().1));
        }
        if free_frame(self.areas(), self.kernel(), self.multiboot(), n) {
            let i = choose|i: int|
                0 <= i < self.areas().len() && !touches(
                    #[trigger] self.areas()[i],
                    self.kernel().0,
                    self.kernel().1,
                ) && !touches(self.areas()[i], self.multiboot().0, self.multiboot().1)
                    && self.areas()[i].first_frame() <= n <= self.areas()[i].last_frame();
            assert(self.eligible(self.areas()[i]));
        }
    }

    /// Whether `frame` is handed out before any other frame of the pool.
    pub open spec fn lowest(&self, frame: Frame) -> bool {
        forall|m: u64| self.pool().contains(m) ==> frame.number <= m
    }

    /// The pool is finite, and each of its frames has a number that fits a
    /// page-table entry and is not reserved.
    pub proof fn lemma_pool(&self)
        requires
            self.inv(),
        ensures
            self.pool().finite(),
            forall|n: u64| self.pool().contains(n) ==> n < 0x100_0000_0000 && !self.reserved(n),
    {
        assert forall|n: u64| self.pool().contains(n) implies n < 0x100_0000_0000
            && !self.reserved(n) by {
            let i = choose|i: int|
                0 <= i < self.areas().len() && self.eligible(#[trigger] self.areas()[i])
                    && self.areas()[i].first_frame() <= n <= self.areas()[i].last_frame();
            assert(self.areas()[i].wf());
        }
        lemma_frames_below_finite(0x100_0000_0000, self.pool());
    }

    /// The pool holds no more frames than the regions span.
    pub proof fn lemma_pool_bounded(&self)
        requires
            self.inv(),
        ensures
            self.pool().len() <= spans(self.areas()),
    {
        lemma_within_bounded(self.areas());
        assert forall|n: u64| self.pool().contains(n) implies within(self.areas()).contains(n) by {
            let i = choose|i: int|
                0 <= i < self.areas().len() && self.eligible(#[trigger] self.areas()[i])
                    && self.areas()[i].first_frame() <= n <= self.areas()[i].last_frame();
            assert(self.areas()[i].first_frame() <= n <= self.areas()[i].last_frame());
        }
        vstd::set_lib::lemma_len_subset(self.pool(), within(self.areas()));
    }

    /// An allocator over the regions `memory_areas`. A frame is reserved
    /// where it holds a byte of the kernel image, from `kernel_start` up
    /// to but without `kernel_end`, or a byte of the boot loader's report,
    /// from `multiboot_start` up to but without `multiboot_end`.
    pub fn new(
        kernel_start: u64,
        kernel_end: u64,
        multiboot_start: u64,
        multiboot_end: u64,
        memory_areas: Vec<MemoryArea>,
    ) -> (allocator: AreaFrameAllocator)
        requires
            forall|i: int| 0 <= i < memory_areas@.len() ==> (#[trigger] memory_areas@[i]).wf(),
        ensures
            allocator.inv(),
            allocator.areas() == memory_areas@,
            allocator.kernel() == frames_of(kernel_start, kernel_end),
            allocator.multiboot() == frames_of(multiboot_start, multiboot_end),
            allocator.next() == match allocator.area() {
                Some(area) => area.first_frame() as u64,
                None => 0,
            },
            forall|n: u64| allocator.pool().contains(n) <==> allocator.usable(n),
            allocator.pool() == free_frames(
                memory_areas@,
                frames_of(kernel_start, kernel_end),
                frames_of(multiboot_start, multiboot_end),
            ),
            allocator.pool().finite(),
            forall|n: u64|
                allocator.pool().contains(n) ==> n < 0x100_0000_0000 && !allocator.reserved(n),
    {
        let (kernel_first, kernel_last) = Self::range_frames(kernel_start, kernel_end);
        let (multiboot_first, multiboot_last) = Self::range_frames(multiboot_start, multiboot_end);
        let mut allocator = AreaFrameAllocator {
            area: None,
            areas: memory_areas,
            next: Frame::containing(0),
            kernel_start: kernel_first,
            kernel_end: kernel_last,
            multiboot_start: multiboot_first,
            multiboot_end: multiboot_last,
        };
        allocator.select_next_area();
        proof {
            assert forall|n: u64| allocator.pool().contains(n) == free_frame(
                allocator.areas(),
                allocator.kernel(),
                allocator.multiboot(),
                n,
            ) by {
                allocator.lemma_usable(n);
            }
            assert(allocator.pool() =~= free_frames(
                allocator.areas(),
                allocator.kernel(),
                allocator.multiboot(),
            ));
            allocator.lemma_pool();
        }
        allocator
    }

    /// First and last of the frames that hold a byte from `start` up to
    /// but without `end`.
    fn range_frames(start: u64, end: u64) -> (frames: (Frame, Frame))
        ensures
            (frames.0.number, frames.1.number) == frames_of(start, end),
    {
        if start < end {
            (Frame::containing(start), Frame::containing(end - 1))
        } else {
            (Frame { number: 1 }, Frame { number: 0 })
        }
    }

    /// Whether the region `area` holds a frame from `low` through `high`.
    fn area_touches(area: &MemoryArea, low: &Frame, high: &Frame) -> (yes: bool)
        requires
            area.wf(),
        ensures
            yes == touches(*area, low.number, high.number),
    {
        let first = area.base_addr / 4096;
        let last = (area.base_addr + area.length - 1) / 4096;
        low.number <= high.number && first <= high.number && low.number <= last
    }

    /// The state apart from the region in use and the cursor.
    spec fn setup(&self) -> bool {
        forall|i: int| 0 <= i < self.areas@.len() ==> (#[trigger] self.areas@[i]).wf()
    }

    /// Whether the region `area` may be picked: it is eligible and its
    /// last frame is not below the cursor.
    pub open spec fn candidate(&self, area: MemoryArea) -> bool {
        self.eligible(area) && area.last_frame() >= self.next()
    }

    /// Whether region `i` is the one to pick: a candidate, with no
    /// candidate at a lower base address, and none at the same base
    /// address before it.
    pub open spec fn pick(&self, i: int) -> bool {
        &&& 0 <= i < self.areas().len()
        &&& self.candidate(self.areas()[i])
        &&& forall|j: int|
            0 <= j < self.areas().len() && self.candidate(#[trigger] self.areas()[j])
                ==> self.areas()[i].base_addr <= self.areas()[j].base_addr
        &&& forall|j: int|
            0 <= j < i && self.candidate(#[trigger] self.areas()[j]) ==> self.areas()[i].base_addr
                < self.areas()[j].base_addr
    }

    /// Picks the region to hand out of next: among the eligible regions
    /// whose last frame is not below the cursor, the one with the lowest
    /// base address, and of several with that address the first. The
    /// cursor moves up to the region's first frame.
    fn select_next_area(&mut self)
        requires
            old(self).setup(),
        ensures
            final(self).inv(),
            final(self).pool() == old(self).pool(),
            final(self).areas() == old(self).areas(),
            final(self).kernel() == old(self).kernel(),
            final(self).multiboot() == old(self).multiboot(),
            match final(self).area() {
                Some(area) => {
                    &&& exists|i: int| old(self).pick(i) && old(self).areas()[i] == area
                    &&& final(self).next() == if old(self).next() < area.first_frame() {
                        area.first_frame() as u64
                    } else {
                        old(self).next()
                    }
                    &&& final(self).next() <= area.last_frame()
                },
                None => {
                    &&& forall|j: int|
                        0 <= j < old(self).areas().len() ==> !old(self).candidate(
                            #[trigger] old(self).areas()[j],
                        )
                    &&& final(self).next() == old(self).next()
                },
            },
    {
        let mut best: Option<MemoryArea> = None;
        let ghost mut at: int = 0;
        let mut i: usize = 0;
        while i < self.areas.len()
            invariant
                i <= self.areas.len(),
                *self == *old(self),
                self.setup(),
                match best {
                    Some(b) => {
                        &&& 0 <= at < i
                        &&& self.areas@[at] == b
                        &&& self.candidate(self.areas@[at])
                        &&& forall|j: int|
                            0 <= j < at && self.candidate(#[trigger] self.areas@[j]) ==> b.base_addr
                                < self.areas@[j].base_addr
                    },
                    None => true,
                },
                forall|j: int|
                    0 <= j < i && self.candidate(#[trigger] self.areas@[j]) ==> best is Some
                        && best.unwrap().base_addr <= self.areas@[j].base_addr,
            decreases self.areas.len() - i,
        {
            let area = self.areas[i];
            let last = (area.base_addr + area.length - 1) / 4096;
            if last >= self.next.number && !Self::area_touches(
                &area,
                &self.kernel_start,
                &self.kernel_end,
            ) && !Self::area_touches(&area, &self.multiboot_start, &self.multiboot_end) {
                let better = match best {
                    Some(b) => area.base_addr < b.base_addr,
                    None => true,
                };
                if better {
                    best = Some(area);
                    proof {
                        at = i as int;
                    }
                }
            }
            i += 1;
        }
        self.area = best;
        if let Some(area) = best {
            let first = Frame::containing(area.base_addr);
            if self.next.number < first.number {
                self.next = first;
            }
        }
        proof {
            if best is Some {
                assert(old(self).pick(at));
            }
            assert forall|n: u64| self.pool().contains(n) == old(self).pool().contains(n) by {
                if old(self).pool().contains(n) {
                    let k = choose|k: int|
                        0 <= k < old(self).areas().len() && old(self).eligible(
                            #[trigger] old(self).areas()[k],
                        ) && old(self).areas()[k].first_frame() <= n
                            <= old(self).areas()[k].last_frame();
                    assert(old(self).candidate(old(self).areas@[k]));
                    assert(best is Some);
                    assert(best.unwrap().base_addr <= old(self).areas@[k].base_addr);
                    assert(best.unwrap().first_frame() <= old(self).areas@[k].first_frame());
                    assert(self.next.number <= n);
                    assert(self.eligible(self.areas()[k]));
                    assert(self.usable(n));
                }
                if self.pool().contains(n) {
                    let k = choose|k: int|
                        0 <= k < self.areas().len() && self.eligible(#[trigger] self.areas()[k])
                            && self.areas()[k].first_frame() <= n <= self.areas()[k].last_frame();
                    assert(old(self).eligible(old(self).areas()[k]));
                    assert(old(self).usable(n));
                }
            }
            assert(self.pool() =~= old(self).pool());
            if best is None {
                assert forall|n: u64| !self.pool().contains(n) by {
                    if self.pool().contains(n) {
                        let k = choose|k: int|
                            0 <= k < self.areas().len() && self.eligible(
                                #[trigger] self.areas()[k],
                            ) && self.areas()[k].first_frame() <= n
                                <= self.areas()[k].last_frame();
                        assert(old(self).candidate(old(self).areas@[k]));
                    }
                }
                assert(self.pool() =~= Set::<u64>::empty());
            }
        }
    }

}

impl FrameAllocator for AreaFrameAllocator {
    /// The frames from the cursor upwards that lie in an eligible region.
    open spec fn pool(&self) -> Set<u64> {
        Set::new(|n: u64| n >= self.next() && self.usable(n))
    }

    /// Every region is well-formed; the region in use is an eligible one
    /// that starts at or below the cursor; and where no region is in use,
    /// the pool is empty.
    closed spec fn inv(&self) -> bool {
        &&& self.setup()
        &&& match self.area {
            Some(area) => {
                &&& exists|i: int| 0 <= i < self.areas@.len() && #[trigger] self.areas@[i] == area
                &&& self.eligible(area)
                &&& area.first_frame() <= self.next.number
            },
            None => self.pool() == Set::<u64>::empty(),
        }
    }

    /// Any frame may be handed back.
    open spec fn accepts(&self, frame: Frame) -> bool {
        true
    }

    /// The frames of the pool leave it from the lowest number upwards.
    open spec fn upcoming(&self, k: nat) -> Option<Frame> {
        nth_lowest(self.pool(), k)
    }

    /// Hands out the lowest frame of the pool: the frame at the cursor
    /// while it lies in the region in use, else the first frame at or
    /// above the cursor of the region that is picked next. No reserved
    /// frame is ever handed out.
    fn allocate_frame(&mut self) -> (result: Option<Frame>)
        ensures
            final(self).areas() == old(self).areas(),
            final(self).kernel() == old(self).kernel(),
            final(self).multiboot() == old(self).multiboot(),
            result matches Some(frame) ==> !old(self).reserved(frame.number) && old(self).lowest(
                frame,
            ) && final(self).next() == frame.number + 1,
            match old(self).area() {
                Some(area) => if old(self).next() <= area.last_frame() {
                    result == Some(Frame { number: old(self).next() }) && final(self).area() == Some(
                        area,
                    )
                } else {
                    match final(self).area() {
                        Some(picked) => {
                            &&& exists|i: int| old(self).pick(i) && old(self).areas()[i] == picked
                            &&& result == Some(
                                Frame {
                                    number: if old(self).next() < picked.first_frame() {
                                        picked.first_frame() as u64
                                    } else {
                                        old(self).next()
                                    },
                                },
                            )
                        },
                        None => {
                            &&& result is None
                            &&& final(self).next() == old(self).next()
                            &&& forall|j: int|
                                0 <= j < old(self).areas().len() ==> !old(self).candidate(
                                    #[trigger] old(self).areas()[j],
                                )
                        },
                    }
                },
                None => result is None && *final(self) == *old(self),
            },
    {
        let area = match self.area {
            Some(area) => area,
            None => {
                proof {
                    lemma_none_upcoming(self.pool());
                }
                return None;
            },
        };
        let last = (area.base_addr + area.length - 1) / 4096;
        if self.next.number <= last {
            let frame = self.take();
            proof {
                lemma_lowest_upcoming(old(self).pool(), frame.number);
            }
            return Some(frame);
        }
        self.select_next_area();
        match self.area {
            Some(area) => {
                let frame = self.take();
                proof {
                    lemma_lowest_upcoming(old(self).pool(), frame.number);
                }
                Some(frame)
            },
            None => {
                proof {
                    lemma_none_upcoming(self.pool());
                }
                None
            },
        }
    }

    /// Forgets the frame: this allocator reclaims nothing.
    fn free(&mut self, frame: Frame)
        ensures
            *final(self) == *old(self),
    {
    }
}

impl AreaFrameAllocator {
    /// Hands out the frame at the cursor and moves the cursor up by one.
    fn take(&mut self) -> (frame: Frame)
        requires
            old(self).inv(),
            old(self).area is Some,
            old(self).next.number <= old(self).area.unwrap().last_frame(),
        ensures
            final(self).inv(),
            final(self).areas() == old(self).areas(),
            final(self).kernel() == old(self).kernel(),
            final(self).multiboot() == old(self).multiboot(),
            final(self).area() == old(self).area(),
            frame.number == old(self).next(),
            final(self).next() == frame.number + 1,
            old(self).pool().contains(frame.number),
            final(self).pool() == old(self).pool().remove(frame.number),
            !old(self).reserved(frame.number),
            old(self).lowest(frame),
    {
        let frame = Frame { number: self.next.number };
        proof {
            let area = self.area.unwrap();
            let i = choose|i: int| 0 <= i < self.areas@.len() && #[trigger] self.areas@[i] == area;
            assert(self.areas()[i].wf());
            assert(self.usable(frame.number));
        }
        self.next.number += 1;
        proof {
            assert(self.pool() =~= old(self).pool().remove(frame.number));
        }
        frame
    }
}

/// Whether `n` is the lowest number in `pool`.
pub open spec fn is_lowest(pool: Set<u64>, n: u64) -> bool {
    pool.contains(n) && forall|m: u64| pool.contains(m) ==> n <= m
}

/// The lowest number in a pool that is not empty.
pub open spec fn lowest_in(pool: Set<u64>) -> u64 {
    choose|n: u64| is_lowest(pool, n)
}

/// The frame with the lowest number in `pool` but `k`: `None` where the
/// pool holds `k` frames or fewer.
pub open spec fn nth_lowest(pool: Set<u64>, k: nat) -> Option<Frame>
    decreases k,
{
    if forall|n: u64| !pool.contains(n) {
        None
    } else if k == 0 {
        Some(Frame { number: lowest_in(pool) })
    } else {
        nth_lowest(pool.remove(lowest_in(pool)), (k - 1) as nat)
    }
}

/// Nothing comes out of an empty pool.
pub proof fn lemma_none_upcoming(pool: Set<u64>)
    requires
        pool == Set::<u64>::empty(),
    ensures
        forall|k: nat| nth_lowest(pool, k) is None,
{
}

/// The lowest frame of a pool comes out of it first, and the others
/// follow as they come out of the pool without it.
pub proof fn lemma_lowest_upcoming(pool: Set<u64>, n: u64)
    requires
        is_lowest(pool, n),
    ensures
        lowest_in(pool) == n,
        nth_lowest(pool, 0) == Some(Frame { number: n }),
        forall|k: nat| #[trigger] nth_lowest(pool.remove(n), k) == nth_lowest(pool, k + 1),
{
    let chosen = lowest_in(pool);
    assert(is_lowest(pool, chosen));
    assert(chosen == n);
    assert forall|k: nat| #[trigger] nth_lowest(pool.remove(n), k) == nth_lowest(pool, k + 1) by {
        assert((k + 1 - 1) as nat == k);
    }
}

/// Of two frames that an allocator hands out one after the other, the
/// second has the higher number.
pub proof fn lemma_allocations_rise(
    before: AreaFrameAllocator,
    first: Frame,
    between: AreaFrameAllocator,
    second: Frame,
)
    requires
        before.lowest(first),
        allocated(before.pool(), Some(first), between.pool()),
        between.pool().contains(second.number),
    ensures
        first.number < second.number,
{
}

/// A run of allocations up to the first that fails hands out every frame
/// of the pool once: as many frames as the pool held, each of them from
/// the pool, in rising order.
pub proof fn lemma_allocations_exhaust(states: Seq<AreaFrameAllocator>, frames: Seq<Frame>)
    requires
        states.len() == frames.len() + 1,
        states[0].pool().finite(),
        forall|i: int|
            0 <= i < frames.len() ==> states[i].lowest(#[trigger] frames[i]) && allocated(
                states[i].pool(),
                Some(frames[i]),
                states[i + 1].pool(),
            ),
        states.last().pool() == Set::<u64>::empty(),
    ensures
        frames.len() == states[0].pool().len(),
        forall|i: int| 0 <= i < frames.len()
            ==> states[0].pool().contains((#[trigger] frames[i]).number),
        forall|i: int, j: int|
            0 <= i < j < frames.len()
                ==> (#[trigger] frames[i]).number < (#[trigger] frames[j]).number,
    decreases frames.len(),
{
    broadcast use vstd::set::group_set_axioms;

    if frames.len() == 0 {
        assert(states[0] == states.last());
    } else {
        let rest_states = states.drop_first();
        let rest_frames = frames.drop_first();
        assert(states[0].lowest(frames[0]));
        assert(rest_states.last() == states.last());
        assert forall|i: int| 0 <= i < rest_frames.len() implies rest_states[i].lowest(
            #[trigger] rest_frames[i],
        ) && allocated(rest_states[i].pool(), Some(rest_frames[i]), rest_states[i + 1].pool()) by {
            assert(states[i + 1].lowest(frames[i + 1]));
            assert(rest_states[i] == states[i + 1]);
            assert(rest_states[i + 1] == states[i + 2]);
        }
        assert(rest_states[0] == states[1]);
        lemma_allocations_exhaust(rest_states, rest_frames);
        assert forall|i: int| 0 <= i < frames.len() implies states[0].pool().contains(
            (#[trigger] frames[i]).number,
        ) by {
            if i > 0 {
                assert(rest_frames[i - 1] == frames[i]);
            }
        }
        assert forall|i: int, j: int| 0 <= i < j < frames.len()
            implies (#[trigger] frames[i]).number
            < (#[trigger] frames[j]).number by {
            assert(rest_frames[j - 1] == frames[j]);
            if i > 0 {
                assert(rest_frames[i - 1] == frames[i]);
            } else {
                assert(states[1].pool().contains(frames[j].number));
            }
        }
    }
}

/// The frames that the regions `areas` span, each region counted by
/// itself.
pub open spec fn spans(areas: Seq<MemoryArea>) -> nat
    decreases areas.len(),
{
    if areas.len() == 0 {
        0
    } else {
        spans(areas.drop_last()) + areas.last().span()
    }
}

/// The frames that hold a byte of one of the regions `areas`.
pub open spec fn within(areas: Seq<MemoryArea>) -> Set<u64> {
    Set::new(
        |n: u64|
            exists|i: int|
                0 <= i < areas.len() && (#[trigger] areas[i]).first_frame() <= n
                    <= areas[i].last_frame(),
    )
}

/// The frames of some regions are no more than the regions span.
pub proof fn lemma_within_bounded(areas: Seq<MemoryArea>)
    requires
        forall|i: int| 0 <= i < areas.len() ==> (#[trigger] areas[i]).wf(),
    ensures
        within(areas).finite(),
        within(areas).len() <= spans(areas),
    decreases areas.len(),
{
    broadcast use vstd::set::group_set_axioms;

    if areas.len() == 0 {
        assert(within(areas) =~= Set::<u64>::empty());
    } else {
        let fewer = areas.drop_last();
        let last = areas.last();
        assert forall|i: int| 0 <= i < fewer.len() implies (#[trigger] fewer[i]).wf() by {
            assert(fewer[i] == areas[i]);
        }
        lemma_within_bounded(fewer);
        assert(last.wf());
        let range = Set::new(|n: u64| last.first_frame() <= n <= last.last_frame());
        lemma_frames_between(last.first_frame() as u64, last.last_frame() as u64, range);
        assert forall|n: u64| within(areas).contains(n) implies within(fewer).union(range).contains(
            n,
        ) by {
            let i = choose|i: int|
                0 <= i < areas.len() && (#[trigger] areas[i]).first_frame() <= n
                    <= areas[i].last_frame();
            if i < fewer.len() {
                assert(fewer[i] == areas[i]);
                assert(within(fewer).contains(n));
            }
        }
        vstd::set_lib::lemma_len_union(within(fewer), range);
        vstd::set_lib::lemma_len_subset(within(areas), within(fewer).union(range));
    }
}

/// The free frames of some regions are no more than the regions span.
pub proof fn lemma_free_frames_bounded(
    areas: Seq<MemoryArea>,
    kernel: (u64, u64),
    multiboot: (u64, u64),
)
    requires
        forall|i: int| 0 <= i < areas.len() ==> (#[trigger] areas[i]).wf(),
    ensures
        free_frames(areas, kernel, multiboot).finite(),
        free_frames(areas, kernel, multiboot).len() <= spans(areas),
{
    lemma_within_bounded(areas);
    assert forall|n: u64| free_frames(areas, kernel, multiboot).contains(n) implies within(
        areas,
    ).contains(n) by {
        let i = choose|i: int|
            0 <= i < areas.len() && !touches(#[trigger] areas[i], kernel.0, kernel.1) && !touches(
                areas[i],
                multiboot.0,
                multiboot.1,
            ) && areas[i].first_frame() <= n <= areas[i].last_frame();
        assert(areas[i].first_frame() <= n <= areas[i].last_frame());
    }
    vstd::set_lib::lemma_len_subset(free_frames(areas, kernel, multiboot), within(areas));
}

/// A run of allocations that all hand out a frame is no longer than the
/// regions span: among one call more than that, one finds the pool
/// empty.
pub proof fn lemma_allocations_bounded(states: Seq<AreaFrameAllocator>, frames: Seq<Frame>)
    requires
        states.len() == frames.len() + 1,
        states[0].inv(),
        forall|i: int|
            0 <= i < frames.len() ==> allocated(
                states[i].pool(),
                Some(#[trigger] frames[i]),
                states[i + 1].pool(),
            ),
    ensures
        frames.len() <= states[0].pool().len() <= spans(states[0].areas()),
{
    states[0].lemma_pool();
    states[0].lemma_pool_bounded();
    let pools = Seq::new(states.len(), |i: int| states[i].pool());
    assert forall|i: int| 0 <= i < frames.len() implies allocated(
        pools[i],
        Some(#[trigger] frames[i]),
        pools[i + 1],
    ) by {
        assert(allocated(states[i].pool(), Some(frames[i]), states[i + 1].pool()));
    }
    lemma_run_bounded(pools, frames);
}

} // verus!
