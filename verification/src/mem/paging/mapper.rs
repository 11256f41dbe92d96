//! The page-table hierarchy and the operations on it.
//!
//! The machine's paging state is held as data: the frames that hold page
//! tables, each with its 512 entries, and the table-base register. The
//! mapper reaches the hierarchy the way the running kernel does, through
//! slot 511 of the table that the register names: the table that this slot
//! leads to is the top of the hierarchy that the mapper reads and edits.
//! While the slot leads back to the register's own table the mapper works
//! on the live address space; while it is redirected the mapper works on
//! another one.

use vstd::prelude::*;
use std::collections::HashMap;
use crate::mem::{allocated, Frame, FrameAllocator, PhysicalAddress, PAGE_SIZE};
use crate::mem::paging::{canonical, Page, VirtualAddress};
use crate::mem::paging::entry::{
    lemma_entry_of, lemma_flag_constants, Entry, EntryFlags, FRAME_LIMIT, HUGE_PAGE, PRESENT,
    USER_ACCESSIBLE, WRITABLE,
};
use crate::mem::paging::hierarchy::{
    lemma_boot_pages, lemma_coarser_alignment, lemma_frame_number_fits, lemma_joined_flags,
    lemma_low_pages_regular, lemma_present_stays,
};
use crate::mem::paging::table::{blank, Table};

verus! {

/// Index of the slot of a top-level table that leads back to a top-level
/// table.
pub const RECURSIVE_SLOT: usize = 511;

/// The flags of an entry that leads to a table made on demand: present,
/// writable and open to user mode.
pub const TABLE_FLAGS: u64 = PRESENT | WRITABLE | USER_ACCESSIBLE;

/// The flags of an entry that leads to a table by hand: the recursive slot
/// and the tables that stand at boot.
pub const LINK_FLAGS: u64 = PRESENT | WRITABLE;

/// The flags of the huge pages that stand at boot.
pub const BOOT_FLAGS: u64 = PRESENT | WRITABLE | HUGE_PAGE;

/// Pages that the tables standing at boot map to themselves: the first
/// gigabyte, in 512 huge pages of 512 frames.
pub const BOOT_PAGES: u64 = 262144;

/// Frames below this bound have an address in the lower canonical half,
/// so that each can be mapped to the page at its own address.
pub const IDENTITY_LIMIT: u64 = 0x8_0000_0000;

/// The role of a table frame: the hierarchy it belongs to (by the frame of
/// that hierarchy's top-level table), its level, from 4 at the top down to
/// 1 for a leaf table, and the indices under which it is reached from the
/// top. An index that the level does not use is 0.
pub struct Place {
    pub root: u64,
    pub level: nat,
    pub i4: int,
    pub i3: int,
    pub i2: int,
}

impl Place {
    /// The place of a top-level table.
    pub open spec fn top(root: u64) -> Place {
        Place { root: root, level: 4, i4: 0, i3: 0, i2: 0 }
    }

    /// The place of the table that hangs below entry `index` of a table at
    /// this place.
    pub open spec fn below(self, index: int) -> Place {
        Place {
            root: self.root,
            level: (self.level - 1) as nat,
            i4: if self.level == 4 { index } else { self.i4 },
            i3: if self.level == 3 { index } else { self.i3 },
            i2: if self.level == 2 { index } else { self.i2 },
        }
    }

    /// The indices are in range, slot 511 of the top is not among them,
    /// and those that the level does not use are 0.
    pub open spec fn ok(self) -> bool {
        &&& 1 <= self.level <= 4
        &&& (self.level == 4 ==> self.i4 == 0)
        &&& (self.level <= 3 ==> 0 <= self.i4 < 511)
        &&& (self.level >= 3 ==> self.i3 == 0)
        &&& (self.level <= 2 ==> 0 <= self.i3 < 512)
        &&& (self.level >= 2 ==> self.i2 == 0)
        &&& (self.level == 1 ==> 0 <= self.i2 < 512)
    }
}

/// Why a mapping could not be made.
#[derive(Debug, Clone, Copy, PartialEq, Eq, Structural)]
pub enum MapError {
    /// The allocator had no frame left for a table or for the page.
    OutOfFrames,
}

/// How the walk through the tables ends for a page.
#[derive(Debug, PartialEq, Eq)]
pub enum Walk {
    /// At an entry that is not present. `clear` says that nothing bars a
    /// mapping of the page: above the leaf level the entry is not marked
    /// huge, at the leaf level it is unused.
    Vacant { clear: bool },
    /// At a present entry of a leaf table: the entry names the frame and
    /// holds the mapping's flags.
    Leaf(Entry),
    /// At a present huge entry of the third or second level; the frame is
    /// the one that the page falls on within the huge page.
    Huge(Frame),
}

impl Walk {
    /// The frame that the page translates to.
    pub open spec fn frame(self) -> Option<Frame> {
        match self {
            Walk::Vacant { .. } => None,
            Walk::Leaf(entry) => Some(Frame { number: entry.frame_number() }),
            Walk::Huge(frame) => Some(frame),
        }
    }
}

/// The paging state of the machine and the operations of the kernel on it.
pub struct Mapper {
    tables: HashMap<u64, Table>,
    register: u64,
    stale_all: bool,
    stale_page: Option<Page>,
    places: Ghost<Map<u64, Place>>,
}

impl Mapper {
    /// The frames that hold page tables, each with its table.
    pub closed spec fn tables(&self) -> Map<u64, Table> {
        self.tables@
    }

    /// The role of each table frame.
    pub closed spec fn places(&self) -> Map<u64, Place> {
        self.places@
    }

    /// Number of the frame in the table-base register.
    pub closed spec fn register(&self) -> u64 {
        self.register
    }

    /// Whether the recursive slot was changed and the translation cache
    /// not yet flushed as a whole.
    pub closed spec fn stale_all(&self) -> bool {
        self.stale_all
    }

    /// The page whose entry was cleared and whose cached translation was
    /// not yet flushed.
    pub closed spec fn stale_page(&self) -> Option<Page> {
        self.stale_page
    }

    /// The machine as the boot code leaves it: a top-level table in `p4`
    /// whose first entry leads to the table in `p3`, whose first entry
    /// leads to the table in `p2`, which maps the first gigabyte to itself
    /// in 512 huge pages; and slot 511 of the top-level table, which leads
    /// back to that table. The register names `p4`.
    pub fn new(p4: Frame, p3: Frame, p2: Frame) -> (mapper: Mapper)
        requires
            p4.number < FRAME_LIMIT,
            p3.number < FRAME_LIMIT,
            p2.number < FRAME_LIMIT,
            p4.number != p3.number,
            p4.number != p2.number,
            p3.number != p2.number,
        ensures
            mapper.wf(),
            mapper.coherent(),
            mapper.register() == p4.number,
            forall|f: u64|
                mapper.has_table(f) <==> f == p4.number || f == p3.number || f == p2.number,
            forall|q: Page|
                q.regular() ==> #[trigger] mapper.walk(q) == if q.number < BOOT_PAGES {
                    Walk::Huge(Frame { number: q.number })
                } else {
                    Walk::Vacant { clear: true }
                },
    {
        broadcast use vstd::std_specs::hash::group_hash_axioms;

        proof {
            lemma_flag_constants();
        }
        let link = EntryFlags::from_bits_truncate(LINK_FLAGS);
        let huge = EntryFlags::from_bits_truncate(BOOT_FLAGS);
        let mut t2 = Table::new();
        let mut i: usize = 0;
        while i < 512
            invariant
                i <= 512,
                huge@ == BOOT_FLAGS,
                forall|j: int| 0 <= j < i ==> #[trigger] t2@[j]
                    == Entry::of((j * 512) as u64, BOOT_FLAGS),
                forall|j: int| i <= j < 512 ==> #[trigger] t2@[j] == Entry(0),
                t2@.len() == 512,
            decreases 512 - i,
        {
            t2.set(i, Frame { number: (i as u64) * 512 }, huge);
            i += 1;
        }
        let mut t3 = Table::new();
        t3.set(0, p2.clone(), link);
        let mut t4 = Table::new();
        t4.set(0, p3.clone(), link);
        t4.set(RECURSIVE_SLOT, p4.clone(), link);
        let mut tables: HashMap<u64, Table> = HashMap::new();
        tables.insert(p2.number, t2);
        tables.insert(p3.number, t3);
        tables.insert(p4.number, t4);
        let ghost places = Map::<u64, Place>::empty().insert(
            p4.number,
            Place::top(p4.number),
        ).insert(p3.number, Place::top(p4.number).below(0)).insert(
            p2.number,
            Place::top(p4.number).below(0).below(0),
        );
        let mapper = Mapper {
            tables: tables,
            register: p4.number,
            stale_all: false,
            stale_page: None,
            places: Ghost(places),
        };
        proof {
            lemma_entry_of(p2.number, LINK_FLAGS);
            lemma_entry_of(p3.number, LINK_FLAGS);
            lemma_entry_of(p4.number, LINK_FLAGS);
            assert(forall|j: int| 0 <= j < 512 ==> #[trigger] blank()[j] == Entry(0));
            assert forall|j: int| 0 <= j < 512 implies {
                let e = #[trigger] mapper.entry(p2.number, j);
                e.present() && e.huge() && e.frame_number() == j * 512
            } by {
                lemma_entry_of((j * 512) as u64, BOOT_FLAGS);
            }
            assert(forall|j: int|
                0 < j < 512 ==> #[trigger] mapper.entry(p3.number, j) == Entry(0));
            assert(forall|j: int|
                0 < j < 511 ==> #[trigger] mapper.entry(p4.number, j) == Entry(0));
            assert(mapper.entry(p4.number, 511) == Entry::of(p4.number, LINK_FLAGS));
            assert(mapper.entry(p4.number, 0) == Entry::of(p3.number, LINK_FLAGS));
            assert(mapper.entry(p3.number, 0) == Entry::of(p2.number, LINK_FLAGS));
            assert(mapper.root() == p4.number);
            assert forall|g: u64| #[trigger] mapper.has_table(g) implies mapper.frame_ok(g)
                && mapper.recursion_ok(g) by {}
            assert forall|g: u64, j: int| mapper.has_table(g) && 0 <= j < 512 implies #[trigger]
                mapper.entry_ok(g, j) by {
                if g == p2.number {
                    let e = mapper.entry(p2.number, j);
                    assert(e.frame_number() == j * 512);
                }
            }
            assert forall|q: Page| q.regular() implies #[trigger] mapper.walk(q) == if q.number
                < BOOT_PAGES {
                Walk::Huge(Frame { number: q.number })
            } else {
                Walk::Vacant { clear: true }
            } by {
                crate::mem::paging::lemma_indices_in_range(q);
                lemma_boot_pages(q.number);
                let e = mapper.entry(p2.number, q.p2());
                assert(e.frame_number() == q.p2() * 512);
            }
        }
        mapper
    }

    /// Number of the frame in the table-base register.
    pub fn table_base(&self) -> (frame: Frame)
        ensures
            frame.number == self.register(),
    {
        Frame { number: self.register }
    }

    /// The top-level table that the mapper works on.
    pub fn p4(&self) -> (table: &Table)
        requires
            self.structure(),
        ensures
            *table == self.tables()[self.root()],
    {
        let root = self.root_frame();
        self.table(root)
    }

    /// The table in `frame`, if the frame holds one.
    pub fn table_at(&self, frame: &Frame) -> (table: Option<&Table>)
        ensures
            match table {
                Some(table) => self.has_table(frame.number) && *table
                    == self.tables()[frame.number],
                None => !self.has_table(frame.number),
            },
    {
        broadcast use vstd::std_specs::hash::group_hash_axioms;

        self.tables.get(&frame.number)
    }

    /// How many tables are missing on the way to `page`: as many frames
    /// must an allocator hold for the page to be mapped.
    pub fn missing(&self, page: Page) -> (count: usize)
        requires
            self.structure(),
        ensures
            count == self.missing_tables(page),
    {
        let root = self.root_frame();
        proof {
            crate::mem::paging::lemma_indices_in_range(page);
            self.lemma_walk_tables(root, page);
        }
        let p3 = match self.table(root).leads_to(page.p4_index()) {
            Some(frame) => frame.number,
            None => {
                return 3;
            },
        };
        let p2 = match self.table(p3).leads_to(page.p3_index()) {
            Some(frame) => frame.number,
            None => {
                return 2;
            },
        };
        match self.table(p2).leads_to(page.p2_index()) {
            Some(_) => 0,
            None => 1,
        }
    }

    /// The physical address to which `address` translates: the frame of
    /// its page, and the same offset within it.
    pub fn translate(&self, address: VirtualAddress) -> (physical: Option<PhysicalAddress>)
        requires
            self.structure(),
            canonical(address),
        ensures
            physical == self.resolve_address(address),
    {
        let offset = address % PAGE_SIZE;
        match self.translate_page(Page::containing(address)) {
            Some(frame) => {
                proof {
                    self.lemma_resolve_fits(Page { number: address / PAGE_SIZE });
                }
                Some(frame.number * PAGE_SIZE + offset)
            },
            None => None,
        }
    }

    /// The frame to which `page` translates, or `None` where the walk
    /// meets an entry that is not present.
    pub fn translate_page(&self, page: Page) -> (frame: Option<Frame>)
        requires
            self.structure(),
        ensures
            frame == self.resolve(page),
    {
        let root = self.root_frame();
        self.walk_page(root, page)
    }

    /// How the walk for `page` ends: whether the page is mapped, and if
    /// not, whether it can be.
    pub fn inspect(&self, page: Page) -> (walk: Walk)
        requires
            self.structure(),
        ensures
            walk == self.walk(page),
    {
        let root = self.root_frame();
        proof {
            crate::mem::paging::lemma_indices_in_range(page);
            lemma_flag_constants();
        }
        let huge = EntryFlags::from_bits_truncate(HUGE_PAGE);
        let present = EntryFlags::from_bits_truncate(PRESENT);
        let e4 = self.table(root).entry(page.p4_index());
        if !e4.flags().contains(present) || e4.flags().contains(huge) {
            return Walk::Vacant { clear: !e4.flags().contains(huge) };
        }
        let p3 = match e4.pointed_frame() {
            Some(frame) => frame.number,
            None => {
                return Walk::Vacant { clear: true };
            },
        };
        proof {
            self.lemma_descend(root, page.p4());
            assert(self.entry_ok(p3, page.p3()));
            assert(self.frame_ok(p3));
        }
        let e3 = self.table(p3).entry(page.p3_index());
        if !e3.flags().contains(present) {
            return Walk::Vacant { clear: !e3.flags().contains(huge) };
        }
        let p2 = match e3.pointed_frame() {
            Some(frame) => frame.number,
            None => {
                return Walk::Vacant { clear: true };
            },
        };
        if e3.flags().contains(huge) {
            assert(p2 < FRAME_LIMIT) by {
                lemma_frame_number_fits(e3);
            }
            return Walk::Huge(
                Frame {
                    number: p2 + (page.p2_index() as u64) * 512 + (page.p1_index() as u64),
                },
            );
        }
        proof {
            self.lemma_descend(p3, page.p3());
            assert(self.entry_ok(p2, page.p2()));
            assert(self.frame_ok(p2));
        }
        let e2 = self.table(p2).entry(page.p2_index());
        if !e2.flags().contains(present) {
            return Walk::Vacant { clear: !e2.flags().contains(huge) };
        }
        let p1 = match e2.pointed_frame() {
            Some(frame) => frame.number,
            None => {
                return Walk::Vacant { clear: true };
            },
        };
        if e2.flags().contains(huge) {
            assert(p1 < FRAME_LIMIT) by {
                lemma_frame_number_fits(e2);
            }
            return Walk::Huge(Frame { number: p1 + (page.p1_index() as u64) });
        }
        proof {
            self.lemma_descend(p2, page.p2());
        }
        let e1 = self.table(p1).entry(page.p1_index());
        if e1.flags().contains(present) {
            Walk::Leaf(e1)
        } else {
            Walk::Vacant { clear: e1.is_unused() }
        }
    }

    /// The frame of the table below entry `index` of the table in `table`,
    /// which is a table above the leaf level; `None` where the entry is
    /// not present or maps a huge page.
    pub fn next_table(&self, table: &Frame, index: usize) -> (next: Option<Frame>)
        requires
            self.structure(),
            self.has_table(table.number),
            self.level(table.number) >= 2,
            index < 512,
        ensures
            next == match self.child(table.number, index as int) {
                Some(below) => Some(Frame { number: below }),
                None => None,
            },
            next matches Some(below) ==> self.has_table(below.number) && self.level(table.number) - 1
                <= self.level(below.number) <= self.level(table.number),
    {
        let next = self.table(table.number).leads_to(index);
        proof {
            if next is Some {
                self.lemma_descend(table.number, index as int);
            }
        }
        next
    }

    /// The table below entry `index` of the table in `table`. Where the
    /// entry leads to none yet, a frame is taken from the allocator, which
    /// must have one, made a table without any entry, and the entry made
    /// to lead to it: present, writable and open to user mode.
    pub fn next_table_create<A: FrameAllocator>(
        &mut self,
        table: &Frame,
        index: usize,
        allocator: &mut A,
    ) -> (next: Frame)
        requires
            old(self).structure(),
            old(self).has_table(table.number),
            old(self).level(table.number) >= 2,
            index < 512,
            !(old(self).level(table.number) == 4 && index == RECURSIVE_SLOT),
            !old(self).entry(table.number, index as int).huge(),
            old(allocator).inv(),
            old(self).apart_from(old(allocator).pool()),
            old(self).child(table.number, index as int) is None ==> !old(allocator).pool().is_empty(),
        ensures
            final(allocator).inv(),
            final(self).structure(),
            final(self).extends(*old(self), old(allocator).pool(), final(allocator).pool()),
            final(self).has_table(next.number),
            final(self).places()[next.number] == old(self).places()[table.number].below(
                index as int,
            ),
            final(self).child(table.number, index as int) == Some(next.number),
            final(self).stale_all() == old(self).stale_all(),
            final(self).stale_page() == old(self).stale_page(),
            final(self).same_walks(*old(self)),
            forall|r: u64, q: Page|
                old(self).is_top(r) && q.p4() != 511 ==> #[trigger] final(self).missing_from(r, q)
                    == if old(self).child(table.number, index as int) is None
                    && old(self).comes_to(r, q, table.number, index as int) {
                    (old(self).missing_from(r, q) - 1) as nat
                } else {
                    old(self).missing_from(r, q)
                },
            match old(self).child(table.number, index as int) {
                Some(below) => next.number == below && final(self).same_paging(*old(self))
                    && final(allocator).pool() == old(allocator).pool(),
                None => final(self).grown(*old(self), table.number, index as int, next.number)
                    && allocated(old(allocator).pool(), Some(next), final(allocator).pool()),
            },
    {
        self.try_next_table_create(table, index, allocator).unwrap()
    }

    /// As `next_table_create`, for a caller that cannot tell whether the
    /// allocator has a frame: `None` where a table is missing and the
    /// allocator has none, and nothing has changed then.
    pub fn try_next_table_create<A: FrameAllocator>(
        &mut self,
        table: &Frame,
        index: usize,
        allocator: &mut A,
    ) -> (next: Option<Frame>)
        requires
            old(self).structure(),
            old(self).has_table(table.number),
            old(self).level(table.number) >= 2,
            index < 512,
            !(old(self).level(table.number) == 4 && index == RECURSIVE_SLOT),
            !old(self).entry(table.number, index as int).huge(),
            old(allocator).inv(),
            old(self).apart_from(old(allocator).pool()),
        ensures
            final(allocator).inv(),
            final(self).structure(),
            final(self).extends(*old(self), old(allocator).pool(), final(allocator).pool()),
            next matches Some(below) ==> final(self).has_table(below.number)
                && final(self).places()[below.number]
                    == old(self).places()[table.number].below(index as int)
                && final(self).child(table.number, index as int) == Some(below.number),
            final(self).stale_all() == old(self).stale_all(),
            final(self).stale_page() == old(self).stale_page(),
            final(self).same_walks(*old(self)),
            forall|r: u64, q: Page|
                old(self).is_top(r) && q.p4() != 511 ==> #[trigger] final(self).missing_from(r, q)
                    == if old(self).child(table.number, index as int) is None && next is Some
                    && old(self).comes_to(r, q, table.number, index as int) {
                    (old(self).missing_from(r, q) - 1) as nat
                } else {
                    old(self).missing_from(r, q)
                },
            match old(self).child(table.number, index as int) {
                Some(below) => next == Some(Frame { number: below }) && final(self).same_paging(
                    *old(self),
                ) && final(allocator).pool() == old(allocator).pool(),
                None => match next {
                    Some(fresh) => final(self).grown(
                        *old(self),
                        table.number,
                        index as int,
                        fresh.number,
                    ) && allocated(old(allocator).pool(), Some(fresh), final(allocator).pool()),
                    None => final(self).same_paging(*old(self)) && allocated(
                        old(allocator).pool(),
                        None,
                        final(allocator).pool(),
                    ),
                },
            },
    {
        let table = table.number;
        let existing = self.table(table).leads_to(index);
        if let Some(frame) = existing {
            proof {
                assert(self.entry_ok(table, index as int));
            }
            return Some(frame);
        }
        match allocator.allocate_frame() {
            None => None,
            Some(frame) => {
                let fresh = frame.number;
                let ghost place = self.places@[table].below(index as int);
                proof {
                    lemma_flag_constants();
                    assert(old(self).frame_ok(table));
                    assert(old(self).entry_ok(table, index as int));
                }
                let mut entry = Entry::unused();
                entry.set(frame, EntryFlags::from_bits_truncate(TABLE_FLAGS));
                self.put(table, index, entry);
                let ghost mid = *self;
                self.install(fresh, Table::new(), Ghost(place));
                proof {
                    assert forall|g: u64, j: int|
                        #![trigger self.entry(g, j)]
                        old(self).has_table(g) && 0 <= j < 512 implies self.entry(g, j) == if g
                        == table && j == index as int {
                        Entry::of(fresh, TABLE_FLAGS)
                    } else {
                        old(self).entry(g, j)
                    } by {
                        assert(mid.has_table(g));
                        assert(self.tables()[g] == mid.tables()[g]);
                        assert(self.entry(g, j) == mid.entry(g, j));
                    }
                    assert forall|g: u64| #[trigger] old(self).has_table(g)
                        implies self.tables()[g]@.len()
                        == old(self).tables()[g]@.len() by {
                        assert(mid.has_table(g));
                        assert(self.tables()[g] == mid.tables()[g]);
                    }
                    assert(self.grown(*old(self), table, index as int, fresh));
                    self.lemma_grown(*old(self), table, index as int, fresh);
                    lemma_entry_of(fresh, TABLE_FLAGS);
                }
                Some(Frame { number: fresh })
            },
        }
    }

    /// Maps `page` to `frame` with the flags `flags`, and marks it
    /// present. The tables on the way that are missing are made, each
    /// from a frame of the allocator, which must hold as many.
    pub fn map_to<A: FrameAllocator>(
        &mut self,
        page: Page,
        frame: Frame,
        flags: EntryFlags,
        allocator: &mut A,
    )
        requires
            old(self).wf(),
            page.regular(),
            old(self).walk(page) == (Walk::Vacant { clear: true }),
            frame.number < FRAME_LIMIT,
            old(allocator).inv(),
            old(allocator).pool().finite(),
            old(self).apart_from(old(allocator).pool()),
            old(allocator).pool().len() >= old(self).missing_tables(page),
        ensures
            final(self).wf(),
            final(allocator).inv(),
            final(allocator).pool().finite(),
            final(self).extends(*old(self), old(allocator).pool(), final(allocator).pool()),
            final(self).walk(page) == Walk::Leaf(Entry::of(frame.number, flags@ | PRESENT)),
            final(allocator).pool().len() == old(allocator).pool().len() - old(self).missing_tables(page),
            final(self).same_walks_but(*old(self), old(self).root(), page),
            final(self).same_ways_elsewhere(*old(self)),
            final(self).ways_made(*old(self), page),
    {
        self.try_map_to(page, frame, flags, allocator).unwrap()
    }

    /// As `map_to`, for a caller that cannot tell how many frames the
    /// allocator holds: where it runs out before the tables on the way
    /// are made, the page stays unmapped and the attempt ends with an
    /// error.
    pub fn try_map_to<A: FrameAllocator>(
        &mut self,
        page: Page,
        frame: Frame,
        flags: EntryFlags,
        allocator: &mut A,
    ) -> (result: Result<(), MapError>)
        requires
            old(self).wf(),
            page.regular(),
            old(self).walk(page) == (Walk::Vacant { clear: true }),
            frame.number < FRAME_LIMIT,
            old(allocator).inv(),
            old(allocator).pool().finite(),
            old(self).apart_from(old(allocator).pool()),
        ensures
            final(self).wf(),
            final(allocator).inv(),
            final(allocator).pool().finite(),
            final(self).extends(*old(self), old(allocator).pool(), final(allocator).pool()),
            result is Ok <==> old(allocator).pool().len() >= old(self).missing_tables(page),
            result is Ok ==> final(self).walk(page) == Walk::Leaf(
                Entry::of(frame.number, flags@ | PRESENT),
            ) && final(allocator).pool().len()
                == old(allocator).pool().len() - old(self).missing_tables(page),
            result is Err ==> final(allocator).pool().len() == 0,
            final(self).same_walks_but(*old(self), old(self).root(), page),
            result is Err ==> final(self).same_walks(*old(self)),
            final(self).same_ways_elsewhere(*old(self)),
            result is Ok ==> final(self).ways_made(*old(self), page),
    {
        broadcast use vstd::set::group_set_axioms;

        let root = self.root_frame();
        proof {
            crate::mem::paging::lemma_indices_in_range(page);
            old(self).lemma_walk_places(root, page);
            old(self).lemma_root();
            vstd::set_lib::lemma_set_empty_equivalency_len(old(allocator).pool());
            lemma_flag_constants();
            assert(forall|j: int| 0 <= j < 512 ==> #[trigger] blank()[j] == Entry(0));
        }
        let ghost s0 = *self;
        let ghost pool0 = allocator.pool();
        let p3 = match self.try_next_table_create(&Frame { number: root }, page.p4_index(), allocator) {
            Some(table) => table.number,
            None => {
                proof {
                    assert forall|r: u64, q: Page|
                        s0.is_top(r) && r != s0.root() && q.regular() implies #[trigger]
                        self.missing_from(r, q) == s0.missing_from(r, q) by {}
                }
                return Err(MapError::OutOfFrames);
            },
        };
        let ghost s1 = *self;
        let ghost pool1 = allocator.pool();
        proof {
            s1.lemma_walk_places(root, page);
            vstd::set_lib::lemma_set_empty_equivalency_len(pool1);
            assert(s1.walk_from(root, page) == s0.walk_from(root, page));
            assert forall|r: u64, q: Page| s0.is_top(r) && q.regular() implies #[trigger]
                s1.missing_from(r, q) == if r == root && page.shared(q) >= 1
                    && s0.missing_from(r, q)
                > 2 {
                2
            } else {
                s0.missing_from(r, q)
            } by {
                crate::mem::paging::lemma_indices_in_range(q);
                s0.lemma_walk_places(r, q);
            }
        }
        let p2 = match self.try_next_table_create(&Frame { number: p3 }, page.p3_index(), allocator) {
            Some(table) => table.number,
            None => {
                proof {
                    assert forall|r: u64, q: Page| s0.is_top(r) && q.regular() implies #[trigger]
                        self.walk_from(r, q) == s0.walk_from(r, q) by {
                        assert(s1.walk_from(r, q) == s0.walk_from(r, q));
                    }
                    assert forall|r: u64, q: Page|
                        s0.is_top(r) && r != s0.root() && q.regular() implies #[trigger]
                        self.missing_from(r, q) == s0.missing_from(r, q) by {
                        assert(s1.missing_from(r, q) == s0.missing_from(r, q));
                        assert(s1.is_top(r));
                    }
                }
                return Err(MapError::OutOfFrames);
            },
        };
        let ghost s2 = *self;
        let ghost pool2 = allocator.pool();
        proof {
            s2.lemma_walk_places(root, page);
            vstd::set_lib::lemma_set_empty_equivalency_len(pool2);
            assert(s2.walk_from(root, page) == s1.walk_from(root, page));
            assert forall|r: u64, q: Page| s0.is_top(r) && q.regular() implies #[trigger]
                s2.missing_from(r, q) == if r == root && page.shared(q) >= 2
                    && s1.missing_from(r, q)
                > 1 {
                1
            } else {
                s1.missing_from(r, q)
            } by {
                crate::mem::paging::lemma_indices_in_range(q);
                assert(s1.is_top(r));
                s1.lemma_walk_places(r, q);
            }
        }
        let p1 = match self.try_next_table_create(&Frame { number: p2 }, page.p2_index(), allocator) {
            Some(table) => table.number,
            None => {
                proof {
                    assert forall|r: u64, q: Page| s0.is_top(r) && q.regular() implies #[trigger]
                        self.walk_from(r, q) == s0.walk_from(r, q) by {
                        assert(s1.walk_from(r, q) == s0.walk_from(r, q));
                        assert(s2.walk_from(r, q) == s1.walk_from(r, q));
                    }
                    assert forall|r: u64, q: Page|
                        s0.is_top(r) && r != s0.root() && q.regular() implies #[trigger]
                        self.missing_from(r, q) == s0.missing_from(r, q) by {
                        assert(s1.missing_from(r, q) == s0.missing_from(r, q));
                        assert(s2.missing_from(r, q) == s1.missing_from(r, q));
                        assert(s1.is_top(r));
                        assert(s2.is_top(r));
                    }
                }
                return Err(MapError::OutOfFrames);
            },
        };
        let ghost s3 = *self;
        proof {
            s3.lemma_walk_places(root, page);
            assert(s3.walk_from(root, page) == s2.walk_from(root, page));
            lemma_flag_constants();
            assert forall|r: u64, q: Page| s0.is_top(r) && q.regular() implies #[trigger]
                s3.missing_from(r, q) == if r == root && page.shared(q) >= 3
                    && s2.missing_from(r, q)
                > 0 {
                0
            } else {
                s2.missing_from(r, q)
            } by {
                crate::mem::paging::lemma_indices_in_range(q);
                assert(s1.is_top(r));
                assert(s2.is_top(r));
                s2.lemma_walk_places(r, q);
            }
        }
        let all = flags.union(EntryFlags::from_bits_truncate(PRESENT));
        let ghost bits = all@;
        proof {
            use_type_invariant(all);
            lemma_entry_of(frame.number, bits);
            lemma_present_stays(flags@);
        }
        let mut entry = Entry::unused();
        entry.set(frame, all);
        self.put(p1, page.p1_index(), entry);
        proof {
            self.lemma_leaf_rewritten(s3, p1, page.p1(), entry);
            assert forall|r: u64, q: Page| s0.is_top(r) && q.regular() implies #[trigger]
                self.missing_from(r, q) == if r == root {
                if s0.missing_from(r, q) <= 3 - page.shared(q) {
                    s0.missing_from(r, q)
                } else {
                    (3 - page.shared(q)) as nat
                }
            } else {
                s0.missing_from(r, q)
            } by {
                assert(s1.is_top(r) && s2.is_top(r) && s3.is_top(r));
                assert(self.missing_from(r, q) == s3.missing_from(r, q));
                assert(s1.missing_from(r, q) <= s0.missing_from(r, q));
                assert(s2.missing_from(r, q) <= s1.missing_from(r, q));
                assert(s3.missing_from(r, q) <= s2.missing_from(r, q));
            }
            assert forall|r: u64, q: Page|
                s0.is_top(r) && q.regular() && !(r == s0.root() && q == page) implies #[trigger]
                self.walk_from(r, q) == s0.walk_from(r, q) by {
                assert(s1.walk_from(r, q) == s0.walk_from(r, q));
                assert(s2.walk_from(r, q) == s1.walk_from(r, q));
                assert(s3.walk_from(r, q) == s2.walk_from(r, q));
                if s3.p1_of(r, q) == Some(p1) && q.p1() == page.p1() {
                    s3.lemma_walk_places(r, q);
                    crate::mem::paging::lemma_indices_determine_page(q, page);
                }
            }
        }
        Ok(())
    }

    /// Maps `page` to a frame that the allocator picks, with the flags
    /// `flags`, and marks it present. The allocator must hold that frame
    /// and one for each table that is missing on the way.
    pub fn map<A: FrameAllocator>(&mut self, page: Page, flags: EntryFlags, allocator: &mut A)
        requires
            old(self).wf(),
            page.regular(),
            old(self).walk(page) == (Walk::Vacant { clear: true }),
            old(allocator).inv(),
            old(allocator).pool().finite(),
            old(self).apart_from(old(allocator).pool()),
            old(allocator).pool().len() >= old(self).missing_tables(page) + 1,
        ensures
            final(self).wf(),
            final(allocator).inv(),
            final(allocator).pool().finite(),
            final(self).extends(*old(self), old(allocator).pool(), final(allocator).pool()),
            final(self).walk(page) == Walk::Leaf(
                Entry::of(old(allocator).upcoming(0).unwrap().number, flags@ | PRESENT),
            ),
            old(allocator).upcoming(0) matches Some(frame) && old(allocator).pool().contains(
                frame.number,
            ) && !final(allocator).pool().contains(frame.number) && !final(self).has_table(
                frame.number,
            ),
            final(allocator).pool().len() == old(allocator).pool().len() - old(self).missing_tables(page) - 1,
            final(self).same_walks_but(*old(self), old(self).root(), page),
            final(self).same_ways_elsewhere(*old(self)),
            final(self).ways_made(*old(self), page),
    {
        self.try_map(page, flags, allocator).unwrap()
    }

    /// As `map`, for a caller that cannot tell how many frames the
    /// allocator holds: where it runs out, the page stays unmapped and the
    /// attempt ends with an error.
    pub fn try_map<A: FrameAllocator>(
        &mut self,
        page: Page,
        flags: EntryFlags,
        allocator: &mut A,
    ) -> (result: Result<(), MapError>)
        requires
            old(self).wf(),
            page.regular(),
            old(self).walk(page) == (Walk::Vacant { clear: true }),
            old(allocator).inv(),
            old(allocator).pool().finite(),
            old(self).apart_from(old(allocator).pool()),
        ensures
            final(self).wf(),
            final(allocator).inv(),
            final(allocator).pool().finite(),
            final(self).extends(*old(self), old(allocator).pool(), final(allocator).pool()),
            result is Ok <==> old(allocator).pool().len() >= old(self).missing_tables(page) + 1,
            result is Ok ==> {
                &&& final(self).walk(page) matches Walk::Leaf(entry)
                &&& entry == Entry::of(entry.frame_number(), flags@ | PRESENT)
                &&& old(allocator).upcoming(0) == Some(Frame { number: entry.frame_number() })
                &&& old(allocator).pool().contains(entry.frame_number())
                &&& !final(allocator).pool().contains(entry.frame_number())
                &&& !final(self).has_table(entry.frame_number())
                &&& final(allocator).pool().len()
                    == old(allocator).pool().len() - old(self).missing_tables(page) - 1
            },
            result is Err ==> final(allocator).pool().len() == 0,
            final(self).same_walks_but(*old(self), old(self).root(), page),
            result is Err ==> final(self).same_walks(*old(self)),
            final(self).same_ways_elsewhere(*old(self)),
            result is Ok ==> final(self).ways_made(*old(self), page),
    {
        broadcast use vstd::set::group_set_axioms;

        proof {
            vstd::set_lib::lemma_set_empty_equivalency_len(old(allocator).pool());
        }
        let frame = match allocator.allocate_frame() {
            Some(frame) => frame,
            None => {
                return Err(MapError::OutOfFrames);
            },
        };
        let ghost number = frame.number;
        proof {
            lemma_flag_constants();
            use_type_invariant(flags);
            lemma_joined_flags(flags@, PRESENT);
            lemma_entry_of(number, flags@ | PRESENT);
        }
        self.try_map_to(page, frame, flags, allocator)
    }

    /// Maps the page at the address of `frame` to `frame`, with the flags
    /// `flags`, and marks it present. The allocator must hold a frame for
    /// each table that is missing on the way.
    pub fn identity_map<A: FrameAllocator>(&mut self, frame: Frame, flags: EntryFlags, allocator: &mut A)
        requires
            old(self).wf(),
            frame.number < IDENTITY_LIMIT,
            old(self).walk(Page { number: frame.number }) == (Walk::Vacant { clear: true }),
            old(allocator).inv(),
            old(allocator).pool().finite(),
            old(self).apart_from(old(allocator).pool()),
            old(allocator).pool().len() >= old(self).missing_tables(Page { number: frame.number }),
        ensures
            final(self).wf(),
            final(allocator).inv(),
            final(allocator).pool().finite(),
            final(self).extends(*old(self), old(allocator).pool(), final(allocator).pool()),
            final(self).walk(Page { number: frame.number }) == Walk::Leaf(
                Entry::of(frame.number, flags@ | PRESENT),
            ),
            final(allocator).pool().len() == old(allocator).pool().len()
                - old(self).missing_tables(Page { number: frame.number }),
            final(self).same_walks_but(
                *old(self),
                old(self).root(),
                Page { number: frame.number },
            ),
            final(self).same_ways_elsewhere(*old(self)),
            final(self).ways_made(*old(self), Page { number: frame.number }),
    {
        self.try_identity_map(frame, flags, allocator).unwrap()
    }

    /// As `identity_map`, for a caller that cannot tell how many frames
    /// the allocator holds: where it runs out, the page stays unmapped and
    /// the attempt ends with an error.
    pub fn try_identity_map<A: FrameAllocator>(
        &mut self,
        frame: Frame,
        flags: EntryFlags,
        allocator: &mut A,
    ) -> (result: Result<(), MapError>)
        requires
            old(self).wf(),
            frame.number < IDENTITY_LIMIT,
            old(self).walk(Page { number: frame.number }) == (Walk::Vacant { clear: true }),
            old(allocator).inv(),
            old(allocator).pool().finite(),
            old(self).apart_from(old(allocator).pool()),
        ensures
            final(self).wf(),
            final(allocator).inv(),
            final(allocator).pool().finite(),
            final(self).extends(*old(self), old(allocator).pool(), final(allocator).pool()),
            result is Ok <==> old(allocator).pool().len() >= old(self).missing_tables(
                Page { number: frame.number },
            ),
            result is Ok ==> final(self).walk(Page { number: frame.number }) == Walk::Leaf(
                Entry::of(frame.number, flags@ | PRESENT),
            ) && final(allocator).pool().len()
                == old(allocator).pool().len() - old(self).missing_tables(Page { number: frame.number }),
            result is Err ==> final(allocator).pool().len() == 0,
            final(self).same_walks_but(
                *old(self),
                old(self).root(),
                Page { number: frame.number },
            ),
            result is Err ==> final(self).same_walks(*old(self)),
            final(self).same_ways_elsewhere(*old(self)),
            result is Ok ==> final(self).ways_made(*old(self), Page { number: frame.number }),
    {
        proof {
            lemma_low_pages_regular(frame.number);
        }
        let page = Page::containing(frame.start());
        self.try_map_to(page, frame, flags, allocator)
    }

    /// Takes the mapping of `page` away: its leaf entry becomes unused and
    /// the page's translation leaves the translation cache. The frame is
    /// not handed back to the allocator, and tables that are left without
    /// any entry stay.
    pub fn unmap<A: FrameAllocator>(&mut self, page: Page, allocator: &mut A)
        requires
            old(self).wf(),
            page.regular(),
            old(self).walk(page) is Leaf,
        ensures
            final(self).wf(),
            final(self).same_frames(*old(self)),
            old(self).p1_of(old(self).root(), page) is Some,
            final(self).rewritten(
                *old(self),
                old(self).p1_of(old(self).root(), page).unwrap(),
                page.p1(),
                Entry(0),
            ),
            final(self).walk(page) == (Walk::Vacant { clear: true }),
            final(self).missing_tables(page) == 0,
            final(self).same_walks_throughout_but(*old(self), old(self).root(), page),
            final(self).same_walks_but(*old(self), old(self).root(), page),
            *final(allocator) == *old(allocator),
            final(self).same_ways(*old(self)),
    {
        let root = self.root_frame();
        proof {
            crate::mem::paging::lemma_indices_in_range(page);
            self.lemma_walk_places(root, page);
            lemma_flag_constants();
        }
        let p3 = self.table(root).leads_to(page.p4_index()).unwrap().number;
        let p2 = self.table(p3).leads_to(page.p3_index()).unwrap().number;
        let p1 = self.table(p2).leads_to(page.p2_index()).unwrap().number;
        let ghost s0 = *self;
        self.put(p1, page.p1_index(), Entry::unused());
        proof {
            self.lemma_leaf_rewritten(s0, p1, page.p1(), Entry(0));
            assert forall|r: u64, q: Page|
                s0.is_top(r) && q.valid() && !(r == s0.root() && q == page) implies #[trigger]
                self.walk_from(r, q) == s0.walk_from(r, q) by {
                if q.p4() != 511 && s0.p1_of(r, q) == Some(p1) && q.p1() == page.p1() {
                    s0.lemma_walk_places(r, q);
                    crate::mem::paging::lemma_indices_determine_page(q, page);
                }
            }
        }
        let ghost s1 = *self;
        proof {
            assert(s1.entry(root, page.p4()) == s0.entry(root, page.p4()));
            assert(s1.entry(p3, page.p3()) == s0.entry(p3, page.p3()));
            assert(s1.entry(p2, page.p2()) == s0.entry(p2, page.p2()));
            assert(s1.missing_tables(page) == 0);
        }
        self.stale_page = Some(page);
        self.flush(page.start());
        proof {
            self.lemma_same_paging(s1);
            assert(self.entry(root, page.p4()) == s1.entry(root, page.p4()));
            assert(self.entry(p3, page.p3()) == s1.entry(p3, page.p3()));
            assert(self.entry(p2, page.p2()) == s1.entry(p2, page.p2()));
            assert(forall|g: u64, j: int| #[trigger] self.entry(g, j) == s1.entry(g, j));
            assert(self.stale_page() is None && old(self).stale_page() is None);
            assert(self.rewritten(s0, p1, page.p1(), Entry(0)));
        }
    }

    /// The table in frame `frame`.
    fn table(&self, frame: u64) -> (table: &Table)
        requires
            self.has_table(frame),
        ensures
            *table == self.tables()[frame],
            table@.len() == 512,
    {
        broadcast use vstd::std_specs::hash::group_hash_axioms;

        let found = self.tables.get(&frame);
        assert(found is Some);
        let table = found.unwrap();
        proof {
            use_type_invariant(table);
        }
        table
    }

    /// Number of the frame of the top-level table that the mapper works on.
    fn root_frame(&self) -> (root: u64)
        requires
            self.structure(),
        ensures
            root == self.root(),
            self.has_table(root),
            self.level(root) == 4,
    {
        proof {
            self.lemma_root();
            assert(self.frame_ok(self.register()) && self.recursion_ok(self.register()));
        }
        let entry = self.table(self.register).entry(RECURSIVE_SLOT);
        entry.pointed_frame().unwrap().number
    }

    /// The frame to which `page` translates in the hierarchy below the
    /// top-level table in `root`.
    fn walk_page(&self, root: u64, page: Page) -> (frame: Option<Frame>)
        requires
            self.structure(),
            self.is_top(root),
        ensures
            frame == self.resolve_from(root, page),
    {
        proof {
            crate::mem::paging::lemma_indices_in_range(page);
            lemma_flag_constants();
        }
        let huge = EntryFlags::from_bits_truncate(HUGE_PAGE);
        let p3 = match self.table(root).leads_to(page.p4_index()) {
            Some(frame) => frame.number,
            None => {
                return None;
            },
        };
        proof {
            self.lemma_descend(root, page.p4());
            assert(self.entry_ok(p3, page.p3()));
            assert(self.frame_ok(p3));
        }
        let e3 = self.table(p3).entry(page.p3_index());
        if let Some(start) = e3.pointed_frame() {
            if e3.flags().contains(huge) {
                assert(start.number % 262144 == 0);
                assert(start.number < FRAME_LIMIT) by {
                    lemma_frame_number_fits(e3);
                }
                return Some(
                    Frame {
                        number: start.number + (page.p2_index() as u64) * 512 + (
                        page.p1_index() as u64),
                    },
                );
            }
        }
        let p2 = match self.table(p3).leads_to(page.p3_index()) {
            Some(frame) => frame.number,
            None => {
                return None;
            },
        };
        proof {
            self.lemma_descend(p3, page.p3());
            assert(self.entry_ok(p2, page.p2()));
            assert(self.frame_ok(p2));
        }
        let e2 = self.table(p2).entry(page.p2_index());
        if let Some(start) = e2.pointed_frame() {
            if e2.flags().contains(huge) {
                assert(start.number % 512 == 0) by {
                    lemma_coarser_alignment(start.number);
                }
                assert(start.number < FRAME_LIMIT) by {
                    lemma_frame_number_fits(e2);
                }
                return Some(Frame { number: start.number + (page.p1_index() as u64) });
            }
        }
        let p1 = match self.table(p2).leads_to(page.p2_index()) {
            Some(frame) => frame.number,
            None => {
                return None;
            },
        };
        proof {
            self.lemma_descend(p2, page.p2());
        }
        self.table(p1).entry(page.p1_index()).pointed_frame()
    }

    /// Replaces entry `index` of the table in `frame`.
    fn put(&mut self, frame: u64, index: usize, entry: Entry)
        requires
            old(self).has_table(frame),
            index < 512,
        ensures
            final(self).rewritten(*old(self), frame, index as int, entry),
    {
        broadcast use vstd::std_specs::hash::group_hash_axioms;

        let found = self.tables.remove(&frame);
        assert(found is Some);
        let mut table = found.unwrap();
        proof {
            use_type_invariant(&table);
        }
        table.put(index, entry);
        self.tables.insert(frame, table);
        assert(self.tables@.dom() =~= old(self).tables@.dom());
    }

    /// Makes `frame` hold the table `table`, in the role `place`.
    fn install(&mut self, frame: u64, table: Table, Ghost(place): Ghost<Place>)
        requires
            !old(self).has_table(frame),
        ensures
            final(self).tables().dom() == old(self).tables().dom().insert(frame),
            final(self).tables()[frame] == table,
            forall|g: u64| #[trigger]
                old(self).has_table(g) ==> final(self).tables()[g] == old(self).tables()[g],
            final(self).places() == old(self).places().insert(frame, place),
            final(self).register() == old(self).register(),
            final(self).stale_all() == old(self).stale_all(),
            final(self).stale_page() == old(self).stale_page(),
    {
        broadcast use vstd::std_specs::hash::group_hash_axioms;

        self.tables.insert(frame, table);
        self.places = Ghost(self.places@.insert(frame, place));
    }

    /// Drops what the translation cache holds for the page of `address`.
    fn flush(&mut self, address: VirtualAddress)
        ensures
            final(self).same_paging(*old(self)),
            final(self).stale_all() == old(self).stale_all(),
            final(self).stale_page() == match old(self).stale_page() {
                Some(page) => if page.number == address / PAGE_SIZE {
                    None
                } else {
                    Some(page)
                },
                None => None,
            },
    {
        if let Some(page) = self.stale_page {
            if page.number == address / PAGE_SIZE {
                self.stale_page = None;
            }
        }
    }

    /// Drops everything that the translation cache holds.
    pub(crate) fn flush_all(&mut self)
        ensures
            final(self).same_paging(*old(self)),
            final(self).flushed(),
            final(self).same_ways(*old(self)),
    {
        self.stale_all = false;
        self.stale_page = None;
    }

    /// Makes the recursive slot of the register's table lead to the
    /// top-level table in `target`: from then on the mapper works on that
    /// table's hierarchy. The translation cache is stale until it is
    /// flushed as a whole.
    pub(crate) fn redirect(&mut self, target: &Frame)
        requires
            old(self).structure(),
            old(self).is_top(target.number),
        ensures
            final(self).structure(),
            final(self).same_roles(*old(self)),
            final(self).root() == target.number,
            final(self).rewritten_but_cache(
                *old(self),
                old(self).register(),
                RECURSIVE_SLOT as int,
                Entry::of(target.number, LINK_FLAGS),
            ),
            final(self).stale_all(),
            final(self).stale_page() == old(self).stale_page(),
            final(self).same_walks(*old(self)),
            final(self).same_ways(*old(self)),
    {
        proof {
            lemma_flag_constants();
            assert(self.frame_ok(target.number));
        }
        let ghost s0 = *self;
        let mut entry = Entry::unused();
        entry.set(target.clone(), EntryFlags::from_bits_truncate(LINK_FLAGS));
        self.put(self.register, RECURSIVE_SLOT, entry);
        let ghost s1 = *self;
        self.stale_all = true;
        proof {
            s1.lemma_redirected(s0, target.number);
            self.lemma_same_paging(s1);
            assert(forall|g: u64, j: int| #[trigger] self.entry(g, j) == s1.entry(g, j));
        }
    }

    /// Makes the recursive slot of the table behind the window `window`
    /// lead back to that table. The write goes through the window, which
    /// must be mapped to the register's table; the mapper then works on
    /// the live address space again. The translation cache is stale until
    /// it is flushed as a whole.
    pub(crate) fn restore_through(&mut self, window: Page)
        requires
            old(self).structure(),
            old(self).resolve_from(old(self).register(), window) == Some(
                Frame { number: old(self).register() },
            ),
        ensures
            final(self).structure(),
            final(self).same_roles(*old(self)),
            final(self).coherent(),
            final(self).rewritten_but_cache(
                *old(self),
                old(self).register(),
                RECURSIVE_SLOT as int,
                Entry::of(old(self).register(), LINK_FLAGS),
            ),
            final(self).stale_all(),
            final(self).stale_page() == old(self).stale_page(),
            final(self).same_walks(*old(self)),
            final(self).same_ways(*old(self)),
    {
        let target = self.walk_page(self.register, window).unwrap();
        proof {
            lemma_flag_constants();
            assert(self.frame_ok(target.number));
        }
        let ghost s0 = *self;
        let mut entry = Entry::unused();
        entry.set(target.clone(), EntryFlags::from_bits_truncate(LINK_FLAGS));
        self.put(target.number, RECURSIVE_SLOT, entry);
        let ghost s1 = *self;
        self.stale_all = true;
        proof {
            s1.lemma_redirected(s0, s0.register());
            self.lemma_same_paging(s1);
            assert(forall|g: u64, j: int| #[trigger] self.entry(g, j) == s1.entry(g, j));
        }
    }

    /// Makes the frame behind the window `window` a top-level table of its
    /// own: every entry unused but the recursive slot, which leads back to
    /// the frame. The write goes through the window, so the window must be
    /// mapped to the frame in the address space that the register names.
    pub(crate) fn format_through(&mut self, window: Page, frame: &Frame)
        requires
            old(self).structure(),
            old(self).resolve_from(old(self).register(), window) == Some(*frame),
            !old(self).has_table(frame.number),
            frame.number < FRAME_LIMIT,
        ensures
            final(self).structure(),
            final(self).topped(*old(self), frame.number),
            final(self).root() == old(self).root(),
            final(self).is_top(frame.number),
            final(self).same_walks(*old(self)),
            forall|q: Page|
                q.p4() != 511 ==> #[trigger] final(self).walk_from(frame.number, q) == (
                Walk::Vacant { clear: true }),
            final(self).same_ways(*old(self)),
            forall|q: Page| q.regular() ==> #[trigger] final(self).missing_from(frame.number, q)
                == 3,
    {
        proof {
            lemma_flag_constants();
        }
        let target = self.walk_page(self.register, window).unwrap();
        let ghost s0 = *self;
        let mut table = Table::new();
        table.zero();
        table.set(RECURSIVE_SLOT, target.clone(), EntryFlags::from_bits_truncate(LINK_FLAGS));
        self.install(target.number, table, Ghost(Place::top(target.number)));
        proof {
            self.lemma_topped(s0, frame.number);
        }
    }

    /// Loads the table-base register with `frame`, which also empties the
    /// translation cache.
    pub(crate) fn load_register(&mut self, frame: &Frame)
        requires
            old(self).structure(),
            old(self).coherent(),
            old(self).is_top(frame.number),
        ensures
            final(self).wf(),
            final(self).coherent(),
            final(self).register() == frame.number,
            final(self).tables() == old(self).tables(),
            final(self).places() == old(self).places(),
            final(self).same_ways(*old(self)),
    {
        proof {
            assert(self.frame_ok(frame.number) && self.recursion_ok(frame.number));
            assert(self.frame_ok(self.register()) && self.recursion_ok(self.register()));
        }
        let ghost s0 = *self;
        self.register = frame.number;
        self.stale_all = false;
        self.stale_page = None;
        proof {
            assert forall|g: u64| #[trigger] self.has_table(g) implies self.frame_ok(g)
                && self.recursion_ok(g) by {
                assert(s0.has_table(g));
                assert(s0.frame_ok(g) && s0.recursion_ok(g));
            }
            assert forall|g: u64, j: int| self.has_table(g) && 0 <= j < 512 implies #[trigger]
                self.entry_ok(g, j) by {
                assert(s0.has_table(g));
                assert(s0.entry_ok(g, j));
            }
        }
    }
}

} // verus!
