//! Virtual memory: pages and the page-table hierarchy.

use vstd::prelude::*;
use crate::mem::{Frame, PAGE_SIZE};
use crate::mem::paging::entry::{lemma_entry_of, lemma_flag_constants, FRAME_LIMIT};
pub use crate::mem::paging::entry::{
    Entry, EntryFlags, ACCESSED, DIRTY, GLOBAL, HUGE_PAGE, NO_CACHE, NO_EXECUTE, PRESENT,
    USER_ACCESSIBLE, WRITABLE, WRITE_THROUGH,
};
use crate::mem::paging::mapper::{Walk, BOOT_PAGES, LINK_FLAGS, RECURSIVE_SLOT};
use crate::mem::paging::table::blank;
pub use crate::mem::paging::mapper::{MapError, Mapper};
pub use crate::mem::paging::remap::{
    is_mappable, is_planned, kernel_mapped, mappable, plan, planned, remap_kernel,
    try_remap_kernel, CONSOLE_FRAME, SCRATCH_PAGE,
};
pub use crate::mem::paging::tpage::TemporaryPage;

pub mod entry;
pub mod hierarchy;
pub mod table;
pub mod mapper;
pub mod remap;
pub mod tpage;
pub mod ways;

verus! {

/// Entries in one table of the hierarchy.
pub const ENTRY_COUNT: usize = 512;

/// An address as the processor translates it.
pub type VirtualAddress = u64;

/// Whether `address` lies in one of the two canonical halves of the
/// 48-bit virtual address space.
pub open spec fn canonical(address: VirtualAddress) -> bool {
    address < 0x0000_8000_0000_0000 || address >= 0xffff_8000_0000_0000
}

/// Whether `address` may be turned into a page.
pub fn is_canonical(address: VirtualAddress) -> (ok: bool)
    ensures
        ok == canonical(address),
{
    address < 0x0000_8000_0000_0000 || address >= 0xffff_8000_0000_0000
}

/// A page-sized unit of virtual memory, identified by its index.
#[derive(Debug, Clone, Copy, PartialEq, Eq, PartialOrd, Ord, Structural)]
pub struct Page {
    pub number: u64,
}

impl Page {
    /// A page whose addresses are canonical.
    pub open spec fn valid(self) -> bool {
        self.number < 0x8_0000_0000 || 0xf_fff8_0000_0000 <= self.number <= 0xf_ffff_ffff_ffff
    }

    /// The virtual address of the page's first byte.
    pub open spec fn spec_start(self) -> int {
        self.number * PAGE_SIZE
    }

    /// A canonical page outside the window that slot 511 of the top-level
    /// table reserves for the tables themselves.
    pub open spec fn regular(self) -> bool {
        self.valid() && self.p4() != 511
    }

    /// How many of the tables on the way to `self` are on the way to
    /// `other` as well, given the top-level table: 3 where the upper
    /// three indices agree, 2 where the upper two do, 1 where the first
    /// does, else 0.
    pub open spec fn shared(self, other: Page) -> nat {
        if self.p4() != other.p4() {
            0
        } else if self.p3() != other.p3() {
            1
        } else if self.p2() != other.p2() {
            2
        } else {
            3
        }
    }

    /// Index of the page's entry in the top-level table.
    pub open spec fn p4(self) -> int {
        ((self.number >> 27) & 0x1ff) as int
    }

    /// Index of the page's entry in the table of the third level.
    pub open spec fn p3(self) -> int {
        ((self.number >> 18) & 0x1ff) as int
    }

    /// Index of the page's entry in the table of the second level.
    pub open spec fn p2(self) -> int {
        ((self.number >> 9) & 0x1ff) as int
    }

    /// Index of the page's entry in the leaf table.
    pub open spec fn p1(self) -> int {
        (self.number & 0x1ff) as int
    }

    /// The page that holds the byte at `address`.
    pub fn containing(address: VirtualAddress) -> (page: Page)
        requires
            canonical(address),
        ensures
            page.number == address / PAGE_SIZE,
            page.valid(),
            page.spec_start() <= address < page.spec_start() + PAGE_SIZE,
    {
        Page { number: address / PAGE_SIZE }
    }

    /// The pages from `start` through `end`, both included.
    pub fn range_inclusive(start: Page, end: Page) -> (iter: PageIter)
        requires
            end.number < u64::MAX,
        ensures
            iter.start == start,
            iter.end == end,
            iter.wf(),
    {
        PageIter { start: start, end: end }
    }

    /// The virtual address of the page's first byte.
    pub fn start(&self) -> (address: VirtualAddress)
        requires
            self.number <= 0xf_ffff_ffff_ffff,
        ensures
            address == self.spec_start(),
            self.valid() ==> canonical(address),
    {
        self.number * PAGE_SIZE
    }

    /// Index of the page's entry in the top-level table.
    pub fn p4_index(&self) -> (index: usize)
        ensures
            index == self.p4(),
            index < 512,
    {
        proof {
            lemma_indices_in_range(*self);
        }
        ((self.number >> 27) & 0x1ff) as usize
    }

    /// Index of the page's entry in the table of the third level.
    pub fn p3_index(&self) -> (index: usize)
        ensures
            index == self.p3(),
            index < 512,
    {
        proof {
            lemma_indices_in_range(*self);
        }
        ((self.number >> 18) & 0x1ff) as usize
    }

    /// Index of the page's entry in the table of the second level.
    pub fn p2_index(&self) -> (index: usize)
        ensures
            index == self.p2(),
            index < 512,
    {
        proof {
            lemma_indices_in_range(*self);
        }
        ((self.number >> 9) & 0x1ff) as usize
    }

    /// Index of the page's entry in the leaf table.
    pub fn p1_index(&self) -> (index: usize)
        ensures
            index == self.p1(),
            index < 512,
    {
        proof {
            lemma_indices_in_range(*self);
        }
        (self.number & 0x1ff) as usize
    }
}

/// Every table index of a page is below the number of entries.
pub proof fn lemma_indices_in_range(page: Page)
    ensures
        0 <= page.p4() < 512,
        0 <= page.p3() < 512,
        0 <= page.p2() < 512,
        0 <= page.p1() < 512,
{
    let n = page.number;
    assert((n >> 27) & 0x1ff < 512) by (bit_vector);
    assert((n >> 18) & 0x1ff < 512) by (bit_vector);
    assert((n >> 9) & 0x1ff < 512) by (bit_vector);
    assert(n & 0x1ff < 512) by (bit_vector);
}

/// Two canonical pages with the same four table indices are the same page.
pub proof fn lemma_indices_determine_page(a: Page, b: Page)
    requires
        a.valid(),
        b.valid(),
        a.p4() == b.p4(),
        a.p3() == b.p3(),
        a.p2() == b.p2(),
        a.p1() == b.p1(),
    ensures
        a == b,
{
    let x = a.number;
    let y = b.number;
    lemma_indices_in_range(a);
    lemma_indices_in_range(b);
    assert(x == y) by (bit_vector)
        requires
            x < 0x8_0000_0000u64 || (0xf_fff8_0000_0000u64 <= x && x <= 0xf_ffff_ffff_ffffu64),
            y < 0x8_0000_0000u64 || (0xf_fff8_0000_0000u64 <= y && y <= 0xf_ffff_ffff_ffffu64),
            (x >> 27) & 0x1ff == (y >> 27) & 0x1ff,
            (x >> 18) & 0x1ff == (y >> 18) & 0x1ff,
            (x >> 9) & 0x1ff == (y >> 9) & 0x1ff,
            x & 0x1ff == y & 0x1ff,
    ;
}

/// Walks a range of pages in rising order.
pub struct PageIter {
    pub start: Page,
    pub end: Page,
}

impl PageIter {
    /// The last page has a number that can be counted past.
    pub open spec fn wf(self) -> bool {
        self.end.number < u64::MAX
    }

    /// How many pages are still to come.
    pub open spec fn remaining(self) -> nat {
        if self.start.number <= self.end.number {
            (self.end.number - self.start.number + 1) as nat
        } else {
            0
        }
    }

    /// The numbers of the pages still to come, in the order in which `next`
    /// hands them out.
    pub open spec fn view(self) -> Seq<u64> {
        Seq::new(self.remaining(), |i: int| (self.start.number + i) as u64)
    }

    /// The next page of the range, or `None` once the range is used up.
    pub fn next(&mut self) -> (item: Option<Page>)
        requires
            old(self).wf(),
        ensures
            final(self).wf(),
            final(self).end == old(self).end,
            match item {
                Some(page) => {
                    &&& old(self)@.len() > 0
                    &&& page.number == old(self)@[0]
                    &&& page == old(self).start
                    &&& page.number <= old(self).end.number
                    &&& final(self).start.number == page.number + 1
                    &&& final(self)@ == old(self)@.drop_first()
                },
                None => old(self)@.len() == 0 && *final(self) == *old(self)
                    && old(self).start.number > old(self).end.number,
            },
    {
        if self.start.number <= self.end.number {
            let page = self.start;
            self.start.number += 1;
            assert(self@ =~= old(self)@.drop_first());
            Some(page)
        } else {
            None
        }
    }
}

/// The hierarchy that the processor translates with.
pub struct ActivePageTable {
    mapper: Mapper,
}

impl View for ActivePageTable {
    type V = Mapper;

    /// The mapper on the machine's paging state.
    closed spec fn view(&self) -> Mapper {
        self.mapper
    }
}

impl ActivePageTable {
    /// The mapper on the machine's paging state.
    pub fn deref(&self) -> (mapper: &Mapper)
        ensures
            *mapper == self@,
    {
        &self.mapper
    }

    /// The mapper on the machine's paging state, to work with.
    pub fn deref_mut(&mut self) -> (mapper: &mut Mapper)
        ensures
            *mapper == old(self)@,
            final(self)@ == *final(mapper),
    {
        &mut self.mapper
    }

    /// The address space that stands at boot: the first gigabyte mapped
    /// to itself through the tables in `p4`, `p3` and `p2`, and the
    /// register on `p4`.
    pub fn new(p4: Frame, p3: Frame, p2: Frame) -> (table: ActivePageTable)
        requires
            p4.number < FRAME_LIMIT,
            p3.number < FRAME_LIMIT,
            p2.number < FRAME_LIMIT,
            p4.number != p3.number,
            p4.number != p2.number,
            p3.number != p2.number,
        ensures
            table@.wf(),
            table@.coherent(),
            table@.register() == p4.number,
            forall|f: u64|
                table@.has_table(f) <==> f == p4.number || f == p3.number || f == p2.number,
            forall|q: Page|
                q.regular() ==> #[trigger] table@.walk(q) == if q.number < BOOT_PAGES {
                    Walk::Huge(Frame { number: q.number })
                } else {
                    Walk::Vacant { clear: true }
                },
    {
        ActivePageTable { mapper: Mapper::new(p4, p3, p2) }
    }

    /// Makes the mapper work on the hierarchy of `table`: the temporary
    /// page is mapped to the register's table, as the way back, then the
    /// recursive slot of that table is made to lead to `table`, and the
    /// translation cache is flushed.
    pub(crate) fn enter(&mut self, table: &InactivePageTable, temporary_page: &mut TemporaryPage)
        requires
            old(self)@.wf(),
            old(self)@.coherent(),
            old(temporary_page).wf(),
            old(self)@.walk(old(temporary_page).page()) == (Walk::Vacant { clear: true }),
            old(self)@.apart_from(old(temporary_page).pool()),
            old(temporary_page).pool().len() >= old(self)@.missing_tables(
                old(temporary_page).page(),
            ),
            old(self)@.is_top(table.frame().number),
            table.frame().number != old(self)@.register(),
        ensures
            final(temporary_page).wf(),
            final(temporary_page).page() == old(temporary_page).page(),
            final(temporary_page).pool().len() == old(temporary_page).pool().len()
                - old(self)@.missing_tables(old(temporary_page).page()),
            final(self)@.wf(),
            final(self)@.keeps(old(self)@, old(temporary_page).pool(), final(temporary_page).pool()),
            final(self)@.root() == table.frame().number,
            final(self)@.walk_from(old(self)@.register(), old(temporary_page).page()) == Walk::Leaf(
                Entry::of(old(self)@.register(), WRITABLE | PRESENT),
            ),
            final(temporary_page).pool().subset_of(old(temporary_page).pool()),
            final(self)@.same_walks_but(
                old(self)@,
                old(self)@.register(),
                old(temporary_page).page(),
            ),
            forall|q: Page| q.regular()
                ==> #[trigger] final(self)@.missing_from(table.frame().number, q)
                    == old(self)@.missing_from(table.frame().number, q),
    {
        let backup = self.mapper.table_base();
        proof {
            self@.lemma_root();
            temporary_page.lemma_page_regular();
        }
        temporary_page.map_table_frame(backup, self);
        let ghost s1 = self@;
        self.mapper.redirect(&table.p4_frame);
        let ghost s2 = self@;
        self.mapper.flush_all();
        proof {
            self@.lemma_same_paging(s2);
            assert(s1.is_top(s1.register()));
            assert forall|r: u64, q: Page|
                old(self)@.is_top(r) && q.regular() && !(r == old(self)@.register() && q
                    == old(temporary_page).page()) implies #[trigger] self@.walk_from(r, q)
                        == old(self)@.walk_from(r, q) by {
                assert(s1.walk_from(r, q) == old(self)@.walk_from(r, q));
                assert(s1.is_top(r));
                assert(s2.walk_from(r, q) == s1.walk_from(r, q));
            }
            assert forall|f: u64| #[trigger] self@.has_table(f) == s1.has_table(f) by {}
            assert(self@.keeps(
                old(self)@,
                old(temporary_page).pool(),
                temporary_page.pool(),
            ));
            assert(s2.walk_from(s1.register(), temporary_page.page()) == s1.walk_from(
                s1.register(),
                temporary_page.page(),
            ));
        }
    }

    /// Makes the mapper work on the live address space again: the
    /// recursive slot of the register's table is made to lead back to
    /// that table, through the temporary page; the translation cache is
    /// flushed and the temporary page unmapped.
    pub(crate) fn leave(&mut self, temporary_page: &mut TemporaryPage)
        requires
            old(self)@.wf(),
            old(temporary_page).wf(),
            old(self)@.walk_from(old(self)@.register(), old(temporary_page).page()) == Walk::Leaf(
                Entry::of(old(self)@.register(), WRITABLE | PRESENT),
            ),
        ensures
            *final(temporary_page) == *old(temporary_page),
            final(self)@.wf(),
            final(self)@.coherent(),
            final(self)@.same_roles(old(self)@),
            final(self)@.same_tops(old(self)@),
            final(self)@.entry(old(self)@.register(), RECURSIVE_SLOT as int) == Entry::of(
                old(self)@.register(),
                LINK_FLAGS,
            ),
            final(self)@.walk(old(temporary_page).page()) == (Walk::Vacant { clear: true }),
            final(self)@.same_walks_but(
                old(self)@,
                old(self)@.register(),
                old(temporary_page).page(),
            ),
            final(self)@.same_ways(old(self)@),
    {
        proof {
            lemma_flag_constants();
            assert(old(self)@.frame_ok(old(self)@.register()));
            lemma_entry_of(old(self)@.register(), WRITABLE | PRESENT);
            temporary_page.lemma_page_regular();
        }
        let ghost s0 = self@;
        self.mapper.restore_through(temporary_page.window());
        let ghost s1 = self@;
        self.mapper.flush_all();
        let ghost s2 = self@;
        proof {
            s2.lemma_same_paging(s1);
            assert(s1.walk_from(s0.register(), temporary_page.page()) == s0.walk_from(
                s0.register(),
                temporary_page.page(),
            ));
        }
        temporary_page.unmap(self);
        proof {
            s2.lemma_root();
            s2.lemma_walk_places(s2.root(), temporary_page.page());
            assert(self@.entry(s0.register(), 511) == s2.entry(s0.register(), 511));
            assert forall|r: u64, q: Page|
                s0.is_top(r) && q.regular() && !(r == s0.register() && q
                    == temporary_page.page()) implies #[trigger]
                self@.walk_from(r, q) == s0.walk_from(r, q) by {
                assert(s1.walk_from(r, q) == s0.walk_from(r, q));
                assert(s2.walk_from(r, q) == s1.walk_from(r, q));
                assert(s2.is_top(r));
            }
        }
    }

    /// Makes `new_table` the address space of the processor: the frame of
    /// the table in use is kept in the handle that is returned, then the
    /// register is loaded with the frame of `new_table`.
    pub fn switch(&mut self, new_table: InactivePageTable) -> (old_table: InactivePageTable)
        requires
            old(self)@.wf(),
            old(self)@.coherent(),
            old(self)@.is_top(new_table.frame().number),
        ensures
            final(self)@.wf(),
            final(self)@.coherent(),
            final(self)@.register() == new_table.frame().number,
            final(self)@.tables() == old(self)@.tables(),
            final(self)@.places() == old(self)@.places(),
            old_table.frame().number == old(self)@.register(),
            final(self)@.is_top(old_table.frame().number),
            final(self)@.same_walks(old(self)@),
            final(self)@.same_ways(old(self)@),
    {
        let old_table = InactivePageTable { p4_frame: self.mapper.table_base() };
        self.mapper.load_register(&new_table.p4_frame);
        old_table
    }

    /// The state in which the work within the window of `with` starts,
    /// seen from the state `before` the call: the mapper works on the
    /// hierarchy below `top`, the register is the same, and but for the
    /// temporary page `scratch`, which leads to the register's table, no
    /// page outside the recursive window has another walk.
    pub open spec fn window_opened(before: Mapper, inside: Mapper, top: u64, scratch: Page) -> bool {
        &&& inside.wf()
        &&& inside.register() == before.register()
        &&& inside.root() == top
        &&& inside.same_tops(before)
        &&& inside.walk_from(before.register(), scratch) == Walk::Leaf(
            Entry::of(before.register(), WRITABLE | PRESENT),
        )
        &&& inside.same_walks_but(before, before.register(), scratch)
    }

    /// What work within the window of `with` must keep: the state is in
    /// order, the register and the hierarchy that the mapper works on are
    /// the same, top-level tables stay top-level tables, and in the other
    /// hierarchies no page outside the recursive window has another walk.
    pub open spec fn window_kept(pre: Mapper, post: Mapper) -> bool {
        &&& post.wf()
        &&& post.register() == pre.register()
        &&& post.root() == pre.root()
        &&& post.same_tops(pre)
        &&& post.same_walks_elsewhere(pre)
    }

    /// The state `after` the call of `with`, seen from the state `inside`
    /// in which the work within the window ended: the mapper works on the
    /// live address space, the register is the same, the temporary page
    /// `scratch` is unmapped, and no other page outside the recursive
    /// window has another walk.
    pub open spec fn window_closed(inside: Mapper, after: Mapper, scratch: Page) -> bool {
        &&& after.wf()
        &&& after.coherent()
        &&& after.register() == inside.register()
        &&& after.walk(scratch) == (Walk::Vacant { clear: true })
        &&& after.same_tops(inside)
        &&& after.same_walks_but(inside, inside.register(), scratch)
    }

    /// Runs `f` on the hierarchy of `table` instead of the live one, and
    /// returns to the live one: the temporary page is mapped to the
    /// register's table, the recursive slot of that table is made to lead
    /// to `table`, and the translation cache is flushed; then `f` runs;
    /// then the slot is made to lead back, through the temporary page, the
    /// cache is flushed again and the temporary page unmapped. `f` must
    /// leave the register, the hierarchy it works on and the walks of the
    /// other hierarchies alone. The private stock of the temporary page
    /// must cover the tables that are missing on the way to it.
    pub fn with<F: FnOnce(&mut Mapper)>(
        &mut self,
        table: &mut InactivePageTable,
        temporary_page: &mut TemporaryPage,
        f: F,
    )
        requires
            old(self)@.wf(),
            old(self)@.coherent(),
            old(temporary_page).wf(),
            old(self)@.walk(old(temporary_page).page()) == (Walk::Vacant { clear: true }),
            old(self)@.apart_from(old(temporary_page).pool()),
            old(temporary_page).pool().len() >= old(self)@.missing_tables(
                old(temporary_page).page(),
            ),
            old(self)@.is_top(old(table).frame().number),
            old(table).frame().number != old(self)@.register(),
            forall|m: &mut Mapper|
                Self::window_opened(
                    old(self)@,
                    *m,
                    old(table).frame().number,
                    old(temporary_page).page(),
                ) ==> call_requires(f, (m,)),
            forall|m: &mut Mapper|
                Self::window_opened(
                    old(self)@,
                    *m,
                    old(table).frame().number,
                    old(temporary_page).page(),
                ) && call_ensures(f, (m,), ()) ==> Self::window_kept(*m, *final(m)),
        ensures
            *final(table) == *old(table),
            final(temporary_page).wf(),
            final(temporary_page).page() == old(temporary_page).page(),
            final(temporary_page).pool().subset_of(old(temporary_page).pool()),
            final(temporary_page).pool().len() == old(temporary_page).pool().len()
                - old(self)@.missing_tables(old(temporary_page).page()),
            final(self)@.wf(),
            final(self)@.coherent(),
            final(self)@.register() == old(self)@.register(),
            final(self)@.entry(old(self)@.register(), RECURSIVE_SLOT as int) == Entry::of(
                old(self)@.register(),
                LINK_FLAGS,
            ),
            final(self)@.is_top(old(table).frame().number),
            forall|q: Page| q.regular() ==> #[trigger] final(self)@.walk(q) == old(self)@.walk(q),
            exists|m: &mut Mapper|
                {
                    &&& call_ensures(f, (m,), ())
                    &&& Self::window_opened(
                        old(self)@,
                        *m,
                        old(table).frame().number,
                        old(temporary_page).page(),
                    )
                    &&& Self::window_closed(*final(m), final(self)@, old(temporary_page).page())
                },
    {
        self.enter(table, temporary_page);
        let ghost s1 = self@;
        proof {
            old(self)@.lemma_root();
            temporary_page.lemma_page_regular();
            assert(s1.is_top(s1.register()));
            assert(Self::window_opened(
                old(self)@,
                s1,
                old(table).frame().number,
                old(temporary_page).page(),
            ));
        }
        f(&mut self.mapper);
        let ghost s2 = self@;
        proof {
            assert(Self::window_kept(s1, s2));
            assert(s2.walk_from(s1.register(), temporary_page.page()) == s1.walk_from(
                s1.register(),
                temporary_page.page(),
            ));
        }
        self.leave(temporary_page);
        proof {
            assert forall|q: Page| q.regular() implies #[trigger] self@.walk(q) == old(self)@.walk(
                q,
            ) by {
                let r = old(self)@.register();
                assert(old(self)@.is_top(r));
                if q != temporary_page.page() {
                    assert(s1.walk_from(r, q) == old(self)@.walk_from(r, q));
                    assert(s1.is_top(r));
                    assert(s2.walk_from(r, q) == s1.walk_from(r, q));
                    assert(s2.is_top(r));
                    assert(self@.walk_from(r, q) == s2.walk_from(r, q));
                }
            }
            assert(s1.is_top(old(table).frame().number));
            assert(s2.is_top(old(table).frame().number));
            assert(Self::window_closed(s2, self@, old(temporary_page).page()));
        }
    }
}

/// A hierarchy that the processor does not translate with: the handle
/// holds the frame of its top-level table.
pub struct InactivePageTable {
    p4_frame: Frame,
}

impl InactivePageTable {
    /// The frame of the top-level table.
    pub closed spec fn frame(&self) -> Frame {
        self.p4_frame
    }

    /// The frame of the top-level table.
    pub fn p4_frame(&self) -> (frame: Frame)
        ensures
            frame == self.frame(),
    {
        self.p4_frame.clone()
    }

    /// Makes `frame` the top-level table of a hierarchy of its own: the
    /// frame is reached through the temporary page, every entry is made
    /// unused, and the recursive slot is made to lead back to the frame.
    /// In the new hierarchy no page outside the recursive window is
    /// mapped.
    pub fn new(
        frame: Frame,
        active_table: &mut ActivePageTable,
        temporary_page: &mut TemporaryPage,
    ) -> (table: InactivePageTable)
        requires
            old(active_table)@.wf(),
            old(active_table)@.coherent(),
            old(temporary_page).wf(),
            old(active_table)@.walk(old(temporary_page).page()) == (Walk::Vacant { clear: true }),
            old(active_table)@.apart_from(old(temporary_page).pool()),
            old(temporary_page).pool().len() >= old(active_table)@.missing_tables(
                old(temporary_page).page(),
            ),
            frame.number < FRAME_LIMIT,
            !old(active_table)@.has_table(frame.number),
            !old(temporary_page).pool().contains(frame.number),
        ensures
            table.frame() == frame,
            final(temporary_page).wf(),
            final(temporary_page).page() == old(temporary_page).page(),
            final(temporary_page).pool().subset_of(old(temporary_page).pool()),
            final(temporary_page).pool().len() == old(temporary_page).pool().len()
                - old(active_table)@.missing_tables(old(temporary_page).page()),
            final(active_table)@.wf(),
            final(active_table)@.coherent(),
            final(active_table)@.register() == old(active_table)@.register(),
            final(active_table)@.apart_from(final(temporary_page).pool()),
            forall|f: u64| #[trigger]
                old(active_table)@.has_table(f) ==> final(active_table)@.has_table(f),
            forall|f: u64| #[trigger]
                final(active_table)@.has_table(f) ==> old(active_table)@.has_table(f) || f
                    == frame.number || (old(temporary_page).pool().contains(f)
                        && !final(temporary_page).pool().contains(f)),
            final(active_table)@.same_walks(old(active_table)@),
            final(active_table)@.missing_tables(old(temporary_page).page()) == 0,
            final(active_table)@.is_top(frame.number),
            final(active_table)@.tables()[frame.number]@ == blank().update(
                RECURSIVE_SLOT as int,
                Entry::of(frame.number, LINK_FLAGS),
            ),
            forall|q: Page|
                q.regular() ==> #[trigger] final(active_table)@.missing_from(frame.number, q) == 3,
            forall|q: Page|
                q.regular() ==> #[trigger] final(active_table)@.walk_from(frame.number, q) == (
                Walk::Vacant { clear: true }),
    {
        proof {
            lemma_flag_constants();
            lemma_entry_of(frame.number, WRITABLE | PRESENT);
            temporary_page.lemma_page_regular();
            old(active_table)@.lemma_root();
        }
        let window = temporary_page.map_table_frame(frame.clone(), active_table);
        let ghost s1 = active_table@;
        active_table.deref_mut().format_through(window, &frame);
        let ghost s2 = active_table@;
        proof {
            assert(s1.is_top(s1.root()));
            assert(s2.walk_from(s1.root(), window) == s1.walk_from(s1.root(), window));
            s2.lemma_walk_places(s2.root(), window);
        }
        temporary_page.unmap(active_table);
        proof {
            assert forall|f: u64| #[trigger] active_table@.has_table(f) == s2.has_table(f) by {}
            assert forall|f: u64| #[trigger] s2.has_table(f) == (s1.has_table(f) || f
                == frame.number) by {}
            assert forall|r: u64, q: Page| old(active_table)@.is_top(r) && q.regular()
                implies #[trigger]
                active_table@.walk_from(r, q) == old(active_table)@.walk_from(r, q) by {
                assert(s1.is_top(r));
                assert(s2.walk_from(r, q) == s1.walk_from(r, q));
                assert(s2.is_top(r));
            }
            assert forall|q: Page| q.regular()
                implies #[trigger] active_table@.walk_from(frame.number, q)
                == (Walk::Vacant { clear: true }) by {
                assert(s2.walk_from(frame.number, q) == (Walk::Vacant { clear: true }));
            }
            assert forall|j: int| 0 <= j < 512 implies active_table@.tables()[frame.number]@[j]
                == s2.tables()[frame.number]@[j] by {
                assert(active_table@.entry(frame.number, j) == s2.entry(frame.number, j));
            }
            assert(active_table@.tables()[frame.number]@ =~= s2.tables()[frame.number]@);
        }
        InactivePageTable { p4_frame: frame }
    }
}

} // verus!
