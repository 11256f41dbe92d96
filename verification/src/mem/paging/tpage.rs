//! A scratch page through which any frame can be reached for a while, with
//! a private stock of frames for the tables that the page itself needs.

use vstd::prelude::*;
use crate::mem::{Frame, FrameAllocator};
use crate::mem::paging::{ActivePageTable, Page, VirtualAddress};
use crate::mem::paging::entry::{
    lemma_flag_constants, Entry, EntryFlags, FRAME_LIMIT, PRESENT, WRITABLE,
};
use crate::mem::paging::mapper::Walk;

verus! {

/// One fixed virtual page that can be mapped to any frame for a while.
pub struct TemporaryPage {
    page: Page,
    allocator: TinyAllocator,
}

impl TemporaryPage {
    /// The scratch page.
    pub closed spec fn page(&self) -> Page {
        self.page
    }

    /// The frames of the private stock.
    pub closed spec fn pool(&self) -> Set<u64> {
        self.allocator.pool()
    }

    /// The scratch page can be mapped and the private stock is in order.
    pub closed spec fn wf(&self) -> bool {
        self.page.regular() && self.allocator.inv()
    }

    /// The scratch page lies outside the recursive window.
    pub proof fn lemma_page_regular(&self)
        requires
            self.wf(),
        ensures
            self.page().regular(),
    {
    }

    /// The scratch page, as the window on the frame that it is mapped to.
    pub fn window(&self) -> (page: Page)
        ensures
            page == self.page(),
    {
        self.page
    }

    /// The slots of the private stock, in the order in which they are
    /// used.
    pub closed spec fn slots(&self) -> Seq<Option<Frame>> {
        self.allocator.0@
    }

    /// The private stock is the frames of its three slots: finitely many.
    pub proof fn lemma_pool_finite(&self)
        ensures
            self.pool().finite(),
            self.pool().len() <= 3,
            self.slots().len() == 3,
            forall|n: u64|
                self.pool().contains(n) <==> exists|i: int|
                    0 <= i < 3 && #[trigger] self.slots()[i] == Some(Frame { number: n }),
    {
        self.allocator.lemma_pool();
        assert forall|n: u64| self.pool().contains(n) implies exists|i: int|
            0 <= i < 3 && #[trigger] self.slots()[i] == Some(Frame { number: n }) by {
            let i = choose|i: int| self.allocator.holds(i, n);
            assert(self.slots()[i] == Some(Frame { number: n }));
        }
        assert forall|n: u64|
            (exists|i: int|
                0 <= i < 3 && #[trigger] self.slots()[i] == Some(
                    Frame { number: n },
                )) implies self.pool().contains(n) by {
            let i = choose|i: int|
                0 <= i < 3 && #[trigger] self.slots()[i] == Some(Frame { number: n });
            assert(self.allocator.holds(i, n));
        }
    }

    /// How many frames the private stock holds.
    pub fn stock(&self) -> (count: usize)
        requires
            self.wf(),
        ensures
            count == self.pool().len(),
    {
        self.allocator.count()
    }

    /// A temporary page on `page`. Its private stock is up to three frames
    /// taken from `allocator`, as many as the tables on the way to one
    /// page: slot 0 holds what the first of three allocations gave, slot 1
    /// what the second gave, slot 2 what the third gave.
    pub fn new<A: FrameAllocator>(page: Page, allocator: &mut A) -> (temporary: TemporaryPage)
        requires
            page.regular(),
            old(allocator).inv(),
        ensures
            final(allocator).inv(),
            temporary.wf(),
            temporary.page() == page,
            temporary.slots() == seq![
                old(allocator).upcoming(0),
                old(allocator).upcoming(1),
                old(allocator).upcoming(2),
            ],
            forall|k: nat| #[trigger] final(allocator).upcoming(k) == old(allocator).upcoming(k + 3),
            temporary.pool().subset_of(old(allocator).pool()),
            final(allocator).pool() == old(allocator).pool().difference(temporary.pool()),
            old(allocator).pool().finite() ==> {
                &&& final(allocator).pool().finite()
                &&& final(allocator).pool().len() + temporary.pool().len()
                    == old(allocator).pool().len()
                &&& temporary.pool().len() == if old(allocator).pool().len() >= 3 {
                    3
                } else {
                    old(allocator).pool().len()
                }
            },
    {
        TemporaryPage { page: page, allocator: TinyAllocator::new(allocator) }
    }

    /// Maps the scratch page to `frame`, writable, and returns the page's
    /// address. The tables that are missing on the way come from the
    /// private stock alone, which must hold as many frames.
    pub fn map(&mut self, frame: Frame, active_table: &mut ActivePageTable) -> (address:
        VirtualAddress)
        requires
            old(self).wf(),
            old(active_table)@.wf(),
            old(active_table)@.walk(old(self).page()) == (Walk::Vacant { clear: true }),
            frame.number < FRAME_LIMIT,
            old(active_table)@.apart_from(old(self).pool()),
            old(self).pool().len() >= old(active_table)@.missing_tables(old(self).page()),
        ensures
            final(self).wf(),
            final(self).page() == old(self).page(),
            final(self).pool().len() == old(self).pool().len() - old(active_table)@.missing_tables(
                old(self).page(),
            ),
            final(active_table)@.wf(),
            final(active_table)@.extends(old(active_table)@, old(self).pool(), final(self).pool()),
            address == old(self).page().spec_start(),
            final(active_table)@.walk(old(self).page()) == Walk::Leaf(
                Entry::of(frame.number, WRITABLE | PRESENT),
            ),
            final(active_table)@.missing_tables(old(self).page()) == 0,
            final(active_table)@.same_walks_but(
                old(active_table)@,
                old(active_table)@.root(),
                old(self).page(),
            ),
            final(active_table)@.same_ways_elsewhere(old(active_table)@),
    {
        proof {
            lemma_flag_constants();
            self.allocator.lemma_pool();
            old(active_table)@.lemma_root();
        }
        let writable = EntryFlags::from_bits_truncate(WRITABLE);
        let ghost before = active_table@;
        active_table.deref_mut().map_to(self.page, frame, writable, &mut self.allocator);
        proof {
            assert(active_table@.missing_from(before.root(), self.page) == 0);
        }
        self.page.start()
    }

    /// Maps the scratch page to `frame` and returns the page as a window
    /// on the frame, through which the frame can be written as a table.
    pub fn map_table_frame(&mut self, frame: Frame, active_table: &mut ActivePageTable) -> (window:
        Page)
        requires
            old(self).wf(),
            old(active_table)@.wf(),
            old(active_table)@.walk(old(self).page()) == (Walk::Vacant { clear: true }),
            frame.number < FRAME_LIMIT,
            old(active_table)@.apart_from(old(self).pool()),
            old(self).pool().len() >= old(active_table)@.missing_tables(old(self).page()),
        ensures
            final(self).wf(),
            final(self).page() == old(self).page(),
            final(self).pool().len() == old(self).pool().len() - old(active_table)@.missing_tables(
                old(self).page(),
            ),
            final(active_table)@.wf(),
            final(active_table)@.extends(old(active_table)@, old(self).pool(), final(self).pool()),
            window == old(self).page(),
            final(active_table)@.walk(window) == Walk::Leaf(
                Entry::of(frame.number, WRITABLE | PRESENT),
            ),
            final(active_table)@.missing_tables(old(self).page()) == 0,
            final(active_table)@.same_walks_but(
                old(active_table)@,
                old(active_table)@.root(),
                old(self).page(),
            ),
            final(active_table)@.same_ways_elsewhere(old(active_table)@),
    {
        self.map(frame, active_table);
        self.page
    }

    /// Takes the scratch page's mapping away: its leaf entry becomes
    /// unused, and no other entry changes.
    pub fn unmap(&mut self, active_table: &mut ActivePageTable)
        requires
            old(self).wf(),
            old(active_table)@.wf(),
            old(active_table)@.walk(old(self).page()) is Leaf,
        ensures
            *final(self) == *old(self),
            final(active_table)@.wf(),
            final(active_table)@.same_frames(old(active_table)@),
            old(active_table)@.p1_of(old(active_table)@.root(), old(self).page()) is Some,
            final(active_table)@.rewritten(
                old(active_table)@,
                old(active_table)@.p1_of(old(active_table)@.root(), old(self).page()).unwrap(),
                old(self).page().p1(),
                Entry(0),
            ),
            final(active_table)@.walk(old(self).page()) == (Walk::Vacant { clear: true }),
            final(active_table)@.missing_tables(old(self).page()) == 0,
            final(active_table)@.same_walks_throughout_but(
                old(active_table)@,
                old(active_table)@.root(),
                old(self).page(),
            ),
            final(active_table)@.same_walks_but(
                old(active_table)@,
                old(active_table)@.root(),
                old(self).page(),
            ),
            final(active_table)@.same_ways(old(active_table)@),
    {
        active_table.deref_mut().unmap(self.page, &mut self.allocator);
    }
}

/// The frame of the slot that holds one after `k` others that do, in the
/// order of the slots.
pub open spec fn nth_held(slots: Seq<Option<Frame>>, k: nat) -> Option<Frame>
    decreases slots.len(),
{
    if slots.len() == 0 {
        None
    } else if slots[0] is None {
        nth_held(slots.drop_first(), k)
    } else if k == 0 {
        slots[0]
    } else {
        nth_held(slots.drop_first(), (k - 1) as nat)
    }
}

/// The first slot that holds a frame gives the first of the frames held;
/// with that slot empty, each of the others comes one place earlier.
pub proof fn lemma_first_held(slots: Seq<Option<Frame>>, i: int)
    requires
        0 <= i < slots.len(),
        slots[i] is Some,
        forall|j: int| 0 <= j < i ==> slots[j] is None,
    ensures
        nth_held(slots, 0) == slots[i],
        forall|k: nat| #[trigger] nth_held(slots.update(i, None), k) == nth_held(slots, k + 1),
    decreases slots.len(),
{
    let rest = slots.drop_first();
    let cleared = slots.update(i, None);
    if i == 0 {
        assert(cleared.drop_first() =~= rest);
        assert forall|k: nat| #[trigger] nth_held(cleared, k) == nth_held(slots, k + 1) by {
            assert((k + 1 - 1) as nat == k);
        }
    } else {
        lemma_first_held(rest, i - 1);
        assert(cleared.drop_first() =~= rest.update(i - 1, None));
        assert(slots[0] is None && cleared[0] is None);
        assert(nth_held(slots, 0) == nth_held(rest, 0));
        assert forall|k: nat| #[trigger] nth_held(cleared, k) == nth_held(slots, k + 1) by {
            assert(nth_held(cleared, k) == nth_held(rest.update(i - 1, None), k));
            assert(nth_held(slots, k + 1) == nth_held(rest, k + 1));
        }
    }
}

/// Empty slots give no frame.
pub proof fn lemma_none_held(slots: Seq<Option<Frame>>)
    requires
        forall|j: int| 0 <= j < slots.len() ==> slots[j] is None,
    ensures
        forall|k: nat| nth_held(slots, k) is None,
    decreases slots.len(),
{
    if slots.len() > 0 {
        lemma_none_held(slots.drop_first());
    }
    assert forall|k: nat| nth_held(slots, k) is None by {
        if slots.len() > 0 {
            assert(nth_held(slots, k) == nth_held(slots.drop_first(), k));
        }
    }
}

/// A stock of at most three frames.
pub struct TinyAllocator(pub [Option<Frame>; 3]);

impl TinyAllocator {
    /// Whether slot `i` holds the frame with number `n`.
    pub open spec fn holds(&self, i: int, n: u64) -> bool {
        0 <= i < 3 && self.0[i] == Some(Frame { number: n })
    }

    /// The frames of the slots up to, but without, slot `upto`.
    pub open spec fn held(&self, upto: int) -> Set<u64>
        decreases upto,
    {
        if upto <= 0 {
            Set::empty()
        } else {
            match self.0[upto - 1] {
                Some(frame) => self.held(upto - 1).insert(frame.number),
                None => self.held(upto - 1),
            }
        }
    }

    /// The stock is the frames of its three slots: finitely many, and
    /// with no frame in two slots as many as slots that hold one.
    pub proof fn lemma_pool(&self)
        ensures
            self.pool() == self.held(3),
            self.pool().finite(),
            self.pool().len() <= 3,
            self.inv() ==> self.pool().len() == (if self.0[0] is Some { 1nat } else { 0 }) + (
            if self.0[1] is Some { 1nat } else { 0 }) + (if self.0[2] is Some { 1nat } else { 0 }),
    {
        broadcast use vstd::set::group_set_axioms;

        reveal_with_fuel(TinyAllocator::held, 4);
        assert forall|n: u64| self.pool().contains(n) implies self.held(3).contains(n) by {
            let i = choose|i: int| self.holds(i, n);
            assert(self.holds(i, n));
        }
        assert forall|n: u64| self.held(3).contains(n) implies self.pool().contains(n) by {
            if self.0[0] == Some(Frame { number: n }) {
                assert(self.holds(0, n));
            } else if self.0[1] == Some(Frame { number: n }) {
                assert(self.holds(1, n));
            } else {
                assert(self.holds(2, n));
            }
        }
        assert(self.pool() =~= self.held(3));
    }

    /// How many frames the stock holds.
    pub fn count(&self) -> (count: usize)
        requires
            self.inv(),
        ensures
            count == self.pool().len(),
    {
        proof {
            self.lemma_pool();
        }
        let mut count: usize = 0;
        if self.0[0].is_some() {
            count += 1;
        }
        if self.0[1].is_some() {
            count += 1;
        }
        if self.0[2].is_some() {
            count += 1;
        }
        count
    }

    /// A stock of up to three frames taken from `allocator`: slot 0 holds
    /// what the first of three allocations gave, slot 1 what the second
    /// gave, slot 2 what the third gave.
    pub fn new<A: FrameAllocator>(allocator: &mut A) -> (tiny: TinyAllocator)
        requires
            old(allocator).inv(),
        ensures
            final(allocator).inv(),
            tiny.inv(),
            tiny.0@ == seq![
                old(allocator).upcoming(0),
                old(allocator).upcoming(1),
                old(allocator).upcoming(2),
            ],
            forall|k: nat| #[trigger] final(allocator).upcoming(k) == old(allocator).upcoming(k + 3),
            tiny.pool().subset_of(old(allocator).pool()),
            final(allocator).pool() == old(allocator).pool().difference(tiny.pool()),
            old(allocator).pool().finite() ==> {
                &&& final(allocator).pool().finite()
                &&& final(allocator).pool().len() + tiny.pool().len() == old(allocator).pool().len()
                &&& tiny.pool().len() == if old(allocator).pool().len() >= 3 {
                    3
                } else {
                    old(allocator).pool().len()
                }
            },
    {
        broadcast use vstd::set::group_set_axioms;

        let ghost p0 = allocator.pool();
        let first = allocator.allocate_frame();
        let ghost p1 = allocator.pool();
        let ghost a1 = *allocator;
        let second = allocator.allocate_frame();
        let ghost p2 = allocator.pool();
        let ghost a2 = *allocator;
        let third = allocator.allocate_frame();
        let tiny = TinyAllocator([first, second, third]);
        proof {
            reveal_with_fuel(TinyAllocator::held, 4);
            tiny.lemma_pool();
            assert(second == a1.upcoming(0));
            assert(third == a2.upcoming(0));
            assert(a2.upcoming(0) == a1.upcoming(1));
            assert(tiny.0@ =~= seq![
                old(allocator).upcoming(0),
                old(allocator).upcoming(1),
                old(allocator).upcoming(2),
            ]);
            assert forall|k: nat| #[trigger]
                allocator.upcoming(k) == old(allocator).upcoming(k + 3) by {
                assert(allocator.upcoming(k) == a2.upcoming(k + 1));
                assert(a2.upcoming(k + 1) == a1.upcoming(k + 1 + 1));
                assert(a1.upcoming(k + 1 + 1) == old(allocator).upcoming(k + 1 + 1 + 1));
            }
            assert(allocator.pool() =~= p0.difference(tiny.pool()));
            if p0.finite() {
                vstd::set_lib::lemma_set_empty_equivalency_len(p0);
                vstd::set_lib::lemma_set_empty_equivalency_len(p1);
                vstd::set_lib::lemma_set_empty_equivalency_len(p2);
            }
        }
        tiny
    }
}

impl FrameAllocator for TinyAllocator {
    /// The frames in the slots.
    open spec fn pool(&self) -> Set<u64> {
        Set::new(|n: u64| exists|i: int| self.holds(i, n))
    }

    /// No frame stands in two slots.
    open spec fn inv(&self) -> bool {
        forall|i: int, j: int| 0 <= i < j < 3 && self.0[i] is Some ==> self.0[i] != self.0[j]
    }

    /// A slot is empty and the frame is not in the stock yet.
    open spec fn accepts(&self, frame: Frame) -> bool {
        (exists|i: int| 0 <= i < 3 && self.0[i] is None) && !self.pool().contains(frame.number)
    }

    /// The frames leave in the order of their slots.
    open spec fn upcoming(&self, k: nat) -> Option<Frame> {
        nth_held(self.0@, k)
    }

    /// Hands out the frame of the first slot that holds one, and leaves
    /// the slot empty.
    fn allocate_frame(&mut self) -> (result: Option<Frame>)
        ensures
            match result {
                Some(frame) => exists|i: int|
                    {
                        &&& 0 <= i < 3
                        &&& #[trigger] old(self).0[i] == Some(frame)
                        &&& forall|j: int| 0 <= j < i ==> old(self).0[j] is None
                        &&& final(self).0@ == old(self).0@.update(i, None)
                    },
                None => *final(self) == *old(self),
            },
    {
        let mut i: usize = 0;
        while i < 3
            invariant
                i <= 3,
                *self == *old(self),
                old(self).inv(),
                forall|j: int| 0 <= j < i ==> self.0[j] is None,
            decreases 3 - i,
        {
            if self.0[i].is_some() {
                let taken = self.0[i].take();
                proof {
                    let n = taken.unwrap().number;

                    assert(old(self).holds(i as int, n));
                    assert forall|m: u64| self.pool().contains(m) == (old(self).pool().contains(m)
                        && m != n) by {
                        if self.pool().contains(m) {
                            let k = choose|k: int| self.holds(k, m);
                            assert(old(self).holds(k, m));
                        }
                        if old(self).pool().contains(m) && m != n {
                            let k = choose|k: int| old(self).holds(k, m);
                            assert(self.holds(k, m));
                        }
                    }
                    assert(self.pool() =~= old(self).pool().remove(n));
                    assert(self.0@ =~= old(self).0@.update(i as int, None));
                    lemma_first_held(old(self).0@, i as int);
                }
                return taken;
            }
            i += 1;
        }
        proof {
            assert forall|m: u64| !self.pool().contains(m) by {
                if self.pool().contains(m) {
                    let k = choose|k: int| self.holds(k, m);
                    assert(self.holds(k, m));
                }
            }
            assert(self.pool() =~= Set::<u64>::empty());
            lemma_none_held(self.0@);
        }
        None
    }

    /// Puts `frame` into the first empty slot.
    fn free(&mut self, frame: Frame)
        ensures
            final(self).pool() == old(self).pool().insert(frame.number),
            exists|i: int|
                {
                    &&& 0 <= i < 3
                    &&& #[trigger] old(self).0[i] is None
                    &&& forall|j: int| 0 <= j < i ==> old(self).0[j] is Some
                    &&& final(self).0@ == old(self).0@.update(i, Some(frame))
                },
    {
        let ghost n = frame.number;
        let mut i: usize = 0;
        while i < 3
            invariant
                i <= 3,
                *self == *old(self),
                old(self).inv(),
                old(self).accepts(frame),
                n == frame.number,
                forall|j: int| 0 <= j < i ==> self.0[j] is Some,
            decreases 3 - i,
        {
            if self.0[i].is_none() {
                self.0[i] = Some(frame);
                proof {

                    assert(self.holds(i as int, n));
                    assert forall|m: u64| self.pool().contains(m) == (old(self).pool().contains(m)
                        || m == n) by {
                        if self.pool().contains(m) && m != n {
                            let k = choose|k: int| self.holds(k, m);
                            assert(old(self).holds(k, m));
                        }
                        if old(self).pool().contains(m) {
                            let k = choose|k: int| old(self).holds(k, m);
                            assert(self.holds(k, m));
                        }
                    }
                    assert(self.pool() =~= old(self).pool().insert(n));
                    assert forall|a: int, b: int| 0 <= a < b < 3 && self.0[a] is Some
                        implies self.0[a]
                        != self.0[b] by {
                        if self.0[a] == self.0[b] {
                            if a == i as int {
                                assert(old(self).holds(b, n));
                            } else if b == i as int {
                                assert(old(self).holds(a, n));
                            }
                        }
                    }
                }
                return ;
            }
            i += 1;
        }
        proof {
            assert(false);
        }
    }
}

} // verus!
