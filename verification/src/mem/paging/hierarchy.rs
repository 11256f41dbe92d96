//! The shape of the page-table hierarchies and the way of a page through
//! them, as specifications of the mapper's state, with the lemmas on what
//! an edit of one entry keeps.

use vstd::prelude::*;
use crate::mem::{Frame, PhysicalAddress, PAGE_SIZE};
use crate::mem::paging::{canonical, lemma_indices_in_range, Page, VirtualAddress};
use crate::mem::paging::entry::{
    lemma_entry_of, lemma_flag_constants, Entry, ALL_FLAGS, FRAME_LIMIT, PRESENT,
};
use crate::mem::paging::mapper::{
    Mapper, Place, Walk, IDENTITY_LIMIT, LINK_FLAGS, RECURSIVE_SLOT, TABLE_FLAGS,
};
use crate::mem::paging::table::blank;

verus! {

impl Mapper {
    /// Whether the frame `frame` holds a page table.
    pub open spec fn has_table(&self, frame: u64) -> bool {
        self.tables().contains_key(frame)
    }

    /// Entry `index` of the table in frame `frame`.
    pub open spec fn entry(&self, frame: u64, index: int) -> Entry {
        self.tables()[frame]@[index]
    }

    /// Level of the table in frame `frame`.
    pub open spec fn level(&self, frame: u64) -> nat {
        self.places()[frame].level
    }

    /// Frame of the top-level table of the hierarchy to which the table in
    /// frame `frame` belongs.
    pub open spec fn hierarchy(&self, frame: u64) -> u64 {
        self.places()[frame].root
    }

    /// Whether `frame` holds a top-level table.
    pub open spec fn is_top(&self, frame: u64) -> bool {
        self.has_table(frame) && self.level(frame) == 4
    }

    /// The frame of the table below entry `index` of the table in `frame`,
    /// if that entry leads to a table.
    pub open spec fn child(&self, frame: u64, index: int) -> Option<u64> {
        if self.entry(frame, index).leads_on() {
            Some(self.entry(frame, index).frame_number())
        } else {
            None
        }
    }

    /// Frame of the top-level table that the mapper reads and edits: the
    /// one that the recursive slot of the register's table leads to.
    pub open spec fn root(&self) -> u64 {
        self.entry(self.register(), RECURSIVE_SLOT as int).frame_number()
    }

    /// Whether the mapper works on the live address space.
    pub open spec fn coherent(&self) -> bool {
        self.root() == self.register()
    }

    /// The third-level table on the way to `page`, from the top-level
    /// table in `root`.
    pub open spec fn p3_of(&self, root: u64, page: Page) -> Option<u64> {
        self.child(root, page.p4())
    }

    /// The second-level table on the way to `page`.
    pub open spec fn p2_of(&self, root: u64, page: Page) -> Option<u64> {
        match self.p3_of(root, page) {
            Some(p3) => self.child(p3, page.p3()),
            None => None,
        }
    }

    /// The leaf table on the way to `page`.
    pub open spec fn p1_of(&self, root: u64, page: Page) -> Option<u64> {
        match self.p2_of(root, page) {
            Some(p2) => self.child(p2, page.p2()),
            None => None,
        }
    }

    /// How the walk for `page` ends in the hierarchy below the top-level
    /// table in `root`. The walk goes down level by level. A present huge
    /// entry at the third or second level ends it early, and the frame is
    /// then the entry's frame plus the page's index within the huge page.
    pub open spec fn walk_from(&self, root: u64, page: Page) -> Walk {
        let e4 = self.entry(root, page.p4());
        if !e4.leads_on() {
            Walk::Vacant { clear: !e4.huge() }
        } else {
            let p3 = e4.frame_number();
            let e3 = self.entry(p3, page.p3());
            if e3.present() && e3.huge() {
                Walk::Huge(
                    Frame { number: (e3.frame_number() + page.p2() * 512 + page.p1()) as u64 },
                )
            } else if !e3.present() {
                Walk::Vacant { clear: !e3.huge() }
            } else {
                let p2 = e3.frame_number();
                let e2 = self.entry(p2, page.p2());
                if e2.present() && e2.huge() {
                    Walk::Huge(Frame { number: (e2.frame_number() + page.p1()) as u64 })
                } else if !e2.present() {
                    Walk::Vacant { clear: !e2.huge() }
                } else {
                    let p1 = e2.frame_number();
                    let e1 = self.entry(p1, page.p1());
                    if e1.present() {
                        Walk::Leaf(e1)
                    } else {
                        Walk::Vacant { clear: e1.0 == 0 }
                    }
                }
            }
        }
    }

    /// How the walk for `page` ends in the hierarchy that the mapper works
    /// on.
    pub open spec fn walk(&self, page: Page) -> Walk {
        self.walk_from(self.root(), page)
    }

    /// The frame to which `page` translates in the hierarchy below the
    /// top-level table in `root`.
    pub open spec fn resolve_from(&self, root: u64, page: Page) -> Option<Frame> {
        self.walk_from(root, page).frame()
    }

    /// The frame to which `page` translates in the hierarchy that the
    /// mapper works on.
    pub open spec fn resolve(&self, page: Page) -> Option<Frame> {
        self.resolve_from(self.root(), page)
    }

    /// The physical address to which `address` translates.
    pub open spec fn resolve_address(&self, address: VirtualAddress) -> Option<PhysicalAddress> {
        match self.resolve(Page { number: address / PAGE_SIZE }) {
            Some(frame) => Some((frame.number * PAGE_SIZE + address % PAGE_SIZE) as u64),
            None => None,
        }
    }

    /// How many tables are missing on the way to `page` in the hierarchy
    /// below the top-level table in `root`.
    pub open spec fn missing_from(&self, root: u64, page: Page) -> nat {
        if self.p3_of(root, page) is None {
            3
        } else if self.p2_of(root, page) is None {
            2
        } else if self.p1_of(root, page) is None {
            1
        } else {
            0
        }
    }

    /// How many tables are missing on the way to `page` in the hierarchy
    /// that the mapper works on.
    pub open spec fn missing_tables(&self, page: Page) -> nat {
        self.missing_from(self.root(), page)
    }

    /// Whether the walk for `page` below `root` comes to entry `index` of
    /// the table in `frame` at one of the three upper levels.
    pub open spec fn comes_to(&self, root: u64, page: Page, frame: u64, index: int) -> bool {
        ||| frame == root && index == page.p4()
        ||| self.p3_of(root, page) == Some(frame) && index == page.p3()
        ||| self.p2_of(root, page) == Some(frame) && index == page.p2()
    }

    /// The table frame `frame` has 512 entries, a frame number that fits an
    /// entry, and a place; a top-level table is the top of its own
    /// hierarchy.
    pub open spec fn frame_ok(&self, frame: u64) -> bool {
        &&& self.places().contains_key(frame)
        &&& self.tables()[frame]@.len() == 512
        &&& frame < FRAME_LIMIT
        &&& self.places()[frame].ok()
        &&& (self.level(frame) == 4 ==> self.hierarchy(frame) == frame)
    }

    /// The recursive slot of the top-level table in `frame` leads to a
    /// top-level table: to the table itself, or, in the register's table,
    /// to the top of the hierarchy that the mapper works on.
    pub open spec fn recursion_ok(&self, frame: u64) -> bool {
        self.level(frame) == 4 ==> {
            &&& self.entry(frame, RECURSIVE_SLOT as int).leads_on()
            &&& (frame != self.register() ==> self.entry(
                frame,
                RECURSIVE_SLOT as int,
            ).frame_number() == frame)
            &&& (frame == self.register() ==> self.has_table(self.root()) && self.level(
                self.root(),
            ) == 4)
        }
    }

    /// Entry `index` of the table in `frame` fits the table's level: where
    /// it leads on, the table below has the place that follows from this
    /// one; the top level holds no huge page; a huge page's frame is
    /// aligned to the huge page's size.
    pub open spec fn entry_ok(&self, frame: u64, index: int) -> bool {
        let place = self.places()[frame];
        let entry = self.entry(frame, index);
        &&& (place.level >= 2 && !(place.level == 4 && index == RECURSIVE_SLOT) && entry.leads_on()
            ==> self.has_table(entry.frame_number()) && self.places()[entry.frame_number()]
            == place.below(index))
        &&& (place.level == 4 && entry.present() ==> !entry.huge())
        &&& (place.level == 3 && entry.present() && entry.huge() ==> entry.frame_number()
            % 262144 == 0)
        &&& (place.level == 2 && entry.present() && entry.huge() ==> entry.frame_number() % 512
            == 0)
    }

    /// The tables form hierarchies: each table frame has one place, and the
    /// entries lead from each place to the places below it.
    pub open spec fn structure(&self) -> bool {
        &&& self.has_table(self.register())
        &&& self.level(self.register()) == 4
        &&& forall|frame: u64| #[trigger]
            self.has_table(frame) ==> self.frame_ok(frame) && self.recursion_ok(frame)
        &&& forall|frame: u64, index: int|
            self.has_table(frame) && 0 <= index < 512 ==> #[trigger] self.entry_ok(frame, index)
    }

    /// Whether the translation cache holds nothing that the tables no
    /// longer say.
    pub open spec fn flushed(&self) -> bool {
        !self.stale_all() && self.stale_page() is None
    }

    /// The state between two operations: the tables form hierarchies and
    /// the translation cache is in step with them.
    pub open spec fn wf(&self) -> bool {
        self.structure() && self.flushed()
    }

    /// No frame of `pool` holds a table, and each has a number that
    /// fits an entry: the mapper may take tables from such a pool.
    pub open spec fn apart_from(&self, pool: Set<u64>) -> bool {
        forall|n: u64| #[trigger] pool.contains(n) ==> !self.has_table(n) && n < FRAME_LIMIT
    }

    /// `self` holds the same tables, roles and register as `pre`.
    pub open spec fn same_paging(&self, pre: Mapper) -> bool {
        &&& self.tables() == pre.tables()
        &&& self.places() == pre.places()
        &&& self.register() == pre.register()
    }

    /// `self` holds tables in the same frames and roles as `pre`, with the
    /// same register.
    pub open spec fn same_roles(&self, pre: Mapper) -> bool {
        &&& self.tables().dom() == pre.tables().dom()
        &&& self.places() == pre.places()
        &&& self.register() == pre.register()
    }

    /// `self` holds tables in the same frames and roles as `pre`, with the
    /// same register and the same hierarchy to work on.
    pub open spec fn same_frames(&self, pre: Mapper) -> bool {
        &&& self.tables().dom() == pre.tables().dom()
        &&& self.places() == pre.places()
        &&& self.register() == pre.register()
        &&& self.root() == pre.root()
    }

    /// `self` arises from `pre` by work with tables taken out of the pool
    /// `before`, of which `after` is left: the register is the same, every
    /// table is still a table in the same role, each new table left the
    /// pool, and no frame that is left in the pool holds a table.
    pub open spec fn keeps(&self, pre: Mapper, before: Set<u64>, after: Set<u64>) -> bool {
        &&& self.register() == pre.register()
        &&& after.subset_of(before)
        &&& self.apart_from(after)
        &&& forall|f: u64| #[trigger]
            pre.has_table(f) ==> self.has_table(f) && self.places()[f] == pre.places()[f]
        &&& forall|f: u64| #[trigger]
            self.has_table(f) && !pre.has_table(f) ==> before.contains(f) && !after.contains(f)
    }

    /// As `keeps`, and the mapper works on the same hierarchy as in `pre`.
    pub open spec fn extends(&self, pre: Mapper, before: Set<u64>, after: Set<u64>) -> bool {
        self.root() == pre.root() && self.keeps(pre, before, after)
    }

    /// No page outside the recursive window has another walk than in
    /// `pre`, in any hierarchy.
    pub open spec fn same_walks(&self, pre: Mapper) -> bool {
        forall|r: u64, q: Page|
            pre.is_top(r) && q.regular() ==> #[trigger] self.walk_from(r, q) == pre.walk_from(r, q)
    }

    /// No page outside the recursive window has another walk than in
    /// `pre` in a hierarchy other than the one that `pre` works on.
    pub open spec fn same_walks_elsewhere(&self, pre: Mapper) -> bool {
        forall|r: u64, q: Page|
            pre.is_top(r) && r != pre.root() && q.regular() ==> #[trigger] self.walk_from(r, q)
                == pre.walk_from(r, q)
    }

    /// Every top-level table of `pre` is still one.
    pub open spec fn same_tops(&self, pre: Mapper) -> bool {
        forall|r: u64| #[trigger] pre.is_top(r) ==> self.is_top(r)
    }

    /// But for `page` in the hierarchy below `root`, no page outside the
    /// recursive window has another walk than in `pre`, in any hierarchy.
    pub open spec fn same_walks_but(&self, pre: Mapper, root: u64, page: Page) -> bool {
        forall|r: u64, q: Page|
            pre.is_top(r) && q.regular() && !(r == root && q == page) ==> #[trigger] self.walk_from(
                r,
                q,
            ) == pre.walk_from(r, q)
    }

    /// But for `page` in the hierarchy below `root`, no canonical page has
    /// another walk than in `pre`, in any hierarchy, the pages of the
    /// recursive window among them.
    pub open spec fn same_walks_throughout_but(&self, pre: Mapper, root: u64, page: Page) -> bool {
        forall|r: u64, q: Page|
            pre.is_top(r) && q.valid() && !(r == root && q == page) ==> #[trigger] self.walk_from(
                r,
                q,
            ) == pre.walk_from(r, q)
    }

    /// No table on the way to a page outside the recursive window was
    /// made since `pre`, in any hierarchy.
    pub open spec fn same_ways(&self, pre: Mapper) -> bool {
        forall|r: u64, q: Page|
            pre.is_top(r) && q.regular() ==> #[trigger] self.missing_from(r, q) == pre.missing_from(
                r,
                q,
            )
    }

    /// No table on the way to a page outside the recursive window was
    /// made since `pre` in a hierarchy other than the one that `pre`
    /// works on.
    pub open spec fn same_ways_elsewhere(&self, pre: Mapper) -> bool {
        forall|r: u64, q: Page|
            pre.is_top(r) && r != pre.root() && q.regular() ==> #[trigger] self.missing_from(r, q)
                == pre.missing_from(r, q)
    }

    /// The tables on the way to `page` were made since `pre`, and no
    /// other: a page now misses what it missed before, but no more than
    /// the tables that it does not share with `page`.
    pub open spec fn ways_made(&self, pre: Mapper, page: Page) -> bool {
        forall|q: Page|
            q.regular() ==> #[trigger] self.missing_from(pre.root(), q) == if pre.missing_from(
                pre.root(),
                q,
            ) <= 3 - page.shared(q) {
                pre.missing_from(pre.root(), q)
            } else {
                (3 - page.shared(q)) as nat
            }
    }

    /// `self` differs from `pre` in one entry of one table: entry `index`
    /// of the table in `frame` is now `entry`.
    pub open spec fn rewritten(&self, pre: Mapper, frame: u64, index: int, entry: Entry) -> bool {
        &&& self.rewritten_but_cache(pre, frame, index, entry)
        &&& self.stale_all() == pre.stale_all()
        &&& self.stale_page() == pre.stale_page()
    }

    /// As `rewritten`, but for what the translation cache holds.
    pub open spec fn rewritten_but_cache(
        &self,
        pre: Mapper,
        frame: u64,
        index: int,
        entry: Entry,
    ) -> bool {
        &&& self.tables().dom() == pre.tables().dom()
        &&& self.places() == pre.places()
        &&& self.register() == pre.register()
        &&& forall|g: u64| #[trigger]
            pre.has_table(g) ==> self.tables()[g]@.len() == pre.tables()[g]@.len()
        &&& forall|g: u64, j: int|
            #![trigger self.entry(g, j)]
            pre.has_table(g) && 0 <= j < 512 ==> self.entry(g, j) == if g == frame && j == index {
                entry
            } else {
                pre.entry(g, j)
            }
    }

    /// `self` differs from `pre` in one new table: the frame `fresh` holds
    /// a table without any entry, and entry `index` of the table in
    /// `frame` leads to it.
    pub open spec fn grown(&self, pre: Mapper, frame: u64, index: int, fresh: u64) -> bool {
        &&& !pre.has_table(fresh)
        &&& self.tables().dom() == pre.tables().dom().insert(fresh)
        &&& self.places() == pre.places().insert(fresh, pre.places()[frame].below(index))
        &&& self.register() == pre.register()
        &&& self.stale_all() == pre.stale_all()
        &&& self.stale_page() == pre.stale_page()
        &&& self.tables()[fresh]@ == blank()
        &&& forall|g: u64| #[trigger]
            pre.has_table(g) ==> self.tables()[g]@.len() == pre.tables()[g]@.len()
        &&& forall|g: u64, j: int|
            #![trigger self.entry(g, j)]
            pre.has_table(g) && 0 <= j < 512 ==> self.entry(g, j) == if g == frame && j == index {
                Entry::of(fresh, TABLE_FLAGS)
            } else {
                pre.entry(g, j)
            }
    }

    /// `self` differs from `pre` in one new top-level table: the frame
    /// `fresh` holds a table whose only entry is the recursive slot, which
    /// leads back to it.
    pub open spec fn topped(&self, pre: Mapper, fresh: u64) -> bool {
        &&& !pre.has_table(fresh)
        &&& self.tables().dom() == pre.tables().dom().insert(fresh)
        &&& self.places() == pre.places().insert(fresh, Place::top(fresh))
        &&& self.register() == pre.register()
        &&& self.stale_all() == pre.stale_all()
        &&& self.stale_page() == pre.stale_page()
        &&& self.tables()[fresh]@ == blank().update(
            RECURSIVE_SLOT as int,
            Entry::of(fresh, LINK_FLAGS),
        )
        &&& forall|g: u64| #[trigger] pre.has_table(g) ==> self.tables()[g] == pre.tables()[g]
    }

    /// The top-level table that the mapper works on is a table.
    pub proof fn lemma_root(&self)
        requires
            self.structure(),
        ensures
            self.has_table(self.root()),
            self.level(self.root()) == 4,
            self.hierarchy(self.root()) == self.root(),
            self.root() < FRAME_LIMIT,
    {
        assert(self.has_table(self.register()));
        assert(self.frame_ok(self.register()) && self.recursion_ok(self.register()));
        assert(self.has_table(self.root()));
        assert(self.frame_ok(self.root()));
    }

    /// The table below a table of level 2 or more is a table, at most one
    /// level lower.
    pub proof fn lemma_descend(&self, frame: u64, index: int)
        requires
            self.structure(),
            self.has_table(frame),
            self.level(frame) >= 2,
            0 <= index < 512,
            self.entry(frame, index).leads_on(),
        ensures
            self.has_table(self.entry(frame, index).frame_number()),
            self.level(frame) - 1 <= self.level(self.entry(frame, index).frame_number())
                <= self.level(frame),
            self.hierarchy(frame) == self.hierarchy(self.root()) ==> self.hierarchy(
                self.entry(frame, index).frame_number(),
            ) == self.hierarchy(self.root()),
    {
        assert(self.entry_ok(frame, index));
        assert(self.frame_ok(frame) && self.recursion_ok(frame));
        let target = self.entry(frame, index).frame_number();
        if self.level(frame) == 4 && index == RECURSIVE_SLOT {
            assert(self.has_table(self.register()));
            assert(self.frame_ok(self.register()) && self.recursion_ok(self.register()));
            assert(self.has_table(self.root()));
            assert(self.frame_ok(self.root()));
        }
    }

    /// The tables on the way to a page outside the recursive window are
    /// tables of the hierarchy, at the places that the page's indices
    /// name.
    pub proof fn lemma_walk_places(&self, root: u64, page: Page)
        requires
            self.structure(),
            self.is_top(root),
            page.p4() != 511,
        ensures
            match self.p3_of(root, page) {
                Some(p3) => self.has_table(p3) && self.places()[p3] == (Place {
                    root: root,
                    level: 3,
                    i4: page.p4(),
                    i3: 0,
                    i2: 0,
                }),
                None => true,
            },
            match self.p2_of(root, page) {
                Some(p2) => self.has_table(p2) && self.places()[p2] == (Place {
                    root: root,
                    level: 2,
                    i4: page.p4(),
                    i3: page.p3(),
                    i2: 0,
                }),
                None => true,
            },
            match self.p1_of(root, page) {
                Some(p1) => self.has_table(p1) && self.places()[p1] == (Place {
                    root: root,
                    level: 1,
                    i4: page.p4(),
                    i3: page.p3(),
                    i2: page.p2(),
                }),
                None => true,
            },
    {
        lemma_indices_in_range(page);
        assert(self.frame_ok(root));
        assert(self.entry_ok(root, page.p4()));
        if let Some(p3) = self.p3_of(root, page) {
            assert(self.entry_ok(p3, page.p3()));
            if let Some(p2) = self.p2_of(root, page) {
                assert(self.entry_ok(p2, page.p2()));
            }
        }
    }

    /// The tables on the way to a page of the recursive window stand one
    /// level higher than on the way to other pages: the walk reads no
    /// entry of a leaf table.
    pub proof fn lemma_window_tables(&self, root: u64, page: Page)
        requires
            self.structure(),
            self.is_top(root),
            page.p4() == 511,
        ensures
            match self.p3_of(root, page) {
                Some(p3) => self.is_top(p3),
                None => true,
            },
            match self.p2_of(root, page) {
                Some(p2) => self.has_table(p2) && self.level(p2) >= 3,
                None => true,
            },
            match self.p1_of(root, page) {
                Some(p1) => self.has_table(p1) && self.level(p1) >= 2,
                None => true,
            },
    {
        lemma_indices_in_range(page);
        assert(self.frame_ok(root) && self.recursion_ok(root));
        assert(self.frame_ok(self.register()) && self.recursion_ok(self.register()));
        if let Some(p3) = self.p3_of(root, page) {
            assert(self.is_top(p3));
            if let Some(p2) = self.p2_of(root, page) {
                self.lemma_descend(p3, page.p3());
                if let Some(p1) = self.p1_of(root, page) {
                    self.lemma_descend(p2, page.p2());
                }
            }
        }
    }

    /// The tables on the way to any page are tables.
    pub proof fn lemma_walk_tables(&self, root: u64, page: Page)
        requires
            self.structure(),
            self.is_top(root),
        ensures
            match self.p3_of(root, page) {
                Some(p3) => self.has_table(p3) && self.level(p3) >= 3,
                None => true,
            },
            match self.p2_of(root, page) {
                Some(p2) => self.has_table(p2) && self.level(p2) >= 2,
                None => true,
            },
            match self.p1_of(root, page) {
                Some(p1) => self.has_table(p1),
                None => true,
            },
    {
        lemma_indices_in_range(page);
        if let Some(p3) = self.p3_of(root, page) {
            self.lemma_descend(root, page.p4());
            if let Some(p2) = self.p2_of(root, page) {
                self.lemma_descend(p3, page.p3());
                if let Some(p1) = self.p1_of(root, page) {
                    self.lemma_descend(p2, page.p2());
                }
            }
        }
    }

    /// A frame that a page translates to has an address of at most 53
    /// bits.
    pub proof fn lemma_resolve_fits(&self, page: Page)
        requires
            self.structure(),
        ensures
            self.resolve(page) is Some ==> self.resolve(page).unwrap().number < 2 * FRAME_LIMIT,
    {
        lemma_indices_in_range(page);
        self.lemma_root();
        let root = self.root();
        if let Some(p3) = self.p3_of(root, page) {
            lemma_frame_number_fits(self.entry(p3, page.p3()));
            if let Some(p2) = self.child(p3, page.p3()) {
                lemma_frame_number_fits(self.entry(p2, page.p2()));
                if let Some(p1) = self.child(p2, page.p2()) {
                    lemma_frame_number_fits(self.entry(p1, page.p1()));
                }
            }
        }
    }

    /// A page whose walk ends at a leaf entry for `frame` translates to
    /// `frame`, and each address in the page to the address at the same
    /// offset in the frame.
    pub proof fn lemma_mapped_translation(&self, page: Page, frame: u64, flags: u64, address: u64)
        requires
            self.walk(page) == Walk::Leaf(Entry::of(frame, flags)),
            frame < FRAME_LIMIT,
            flags & !ALL_FLAGS == 0,
            address / PAGE_SIZE == page.number,
        ensures
            self.resolve(page) == Some(Frame { number: frame }),
            self.resolve_address(address) == Some((frame * PAGE_SIZE + address % PAGE_SIZE) as u64),
            frame == page.number ==> self.resolve_address(address) == Some(address),
    {
        lemma_entry_of(frame, flags);
    }

    /// A page whose walk ends at an entry that is not present translates
    /// to nothing, and so does each address in it.
    pub proof fn lemma_unmapped_translation(&self, page: Page, address: u64)
        requires
            self.walk(page) is Vacant,
            address / PAGE_SIZE == page.number,
        ensures
            self.resolve(page) is None,
            self.resolve_address(address) is None,
    {
    }

    /// A huge entry of the second level with base frame `n` maps the page
    /// with index `i` below it to frame `n + i`; the base is a multiple of
    /// 512.
    pub proof fn lemma_huge_page_translation(&self, page: Page)
        requires
            self.structure(),
            page.p4() != 511,
            self.p2_of(self.root(), page) is Some,
            self.entry(self.p2_of(self.root(), page).unwrap(), page.p2()).present(),
            self.entry(self.p2_of(self.root(), page).unwrap(), page.p2()).huge(),
        ensures
            self.resolve(page) == Some(
                Frame {
                    number: (self.entry(
                        self.p2_of(self.root(), page).unwrap(),
                        page.p2(),
                    ).frame_number() + page.p1()) as u64,
                },
            ),
            self.entry(self.p2_of(self.root(), page).unwrap(), page.p2()).frame_number() % 512 == 0,
    {
        lemma_indices_in_range(page);
        self.lemma_root();
        self.lemma_walk_places(self.root(), page);
        let p2 = self.p2_of(self.root(), page).unwrap();
        assert(self.entry_ok(p2, page.p2()));
    }

    /// A state with the same tables, roles and register is in shape as
    /// well and has the same walks.
    pub proof fn lemma_same_paging(&self, pre: Mapper)
        requires
            pre.structure(),
            self.same_paging(pre),
        ensures
            self.structure(),
            self.root() == pre.root(),
            forall|r: u64, q: Page| #[trigger] self.walk_from(r, q) == pre.walk_from(r, q),
            forall|r: u64, q: Page| #[trigger] self.missing_from(r, q) == pre.missing_from(r, q),
    {
        assert forall|g: u64| #[trigger] self.has_table(g) implies self.frame_ok(g)
            && self.recursion_ok(g) by {
            assert(pre.has_table(g));
            assert(pre.frame_ok(g) && pre.recursion_ok(g));
        }
        assert forall|g: u64, j: int| self.has_table(g) && 0 <= j < 512 implies #[trigger]
            self.entry_ok(g, j) by {
            assert(pre.has_table(g));
            assert(pre.entry_ok(g, j));
        }
    }

    /// A new table below a vacant entry keeps the hierarchies in shape and
    /// changes the walk of no page outside the recursive window.
    pub proof fn lemma_grown(&self, pre: Mapper, frame: u64, index: int, fresh: u64)
        requires
            pre.structure(),
            pre.has_table(frame),
            pre.level(frame) >= 2,
            0 <= index < 512,
            !pre.entry(frame, index).present(),
            !pre.entry(frame, index).huge(),
            fresh < FRAME_LIMIT,
            self.grown(pre, frame, index, fresh),
        ensures
            self.structure(),
            self.root() == pre.root(),
            forall|r: u64, q: Page|
                pre.is_top(r) && q.p4() != 511 ==> #[trigger] self.walk_from(r, q) == pre.walk_from(
                    r,
                    q,
                ),
            forall|r: u64, q: Page|
                pre.is_top(r) && q.p4() != 511 ==> #[trigger] self.missing_from(r, q)
                    == if pre.comes_to(
                    r,
                    q,
                    frame,
                    index,
                ) {
                    (pre.missing_from(r, q) - 1) as nat
                } else {
                    pre.missing_from(r, q)
                },
    {
        lemma_flag_constants();
        lemma_entry_of(fresh, TABLE_FLAGS);
        let link = Entry::of(fresh, TABLE_FLAGS);
        assert(link.leads_on() && link.frame_number() == fresh);
        assert(pre.frame_ok(frame) && pre.recursion_ok(frame));
        assert(!(pre.level(frame) == 4 && index == 511));
        assert(pre.frame_ok(pre.register()) && pre.recursion_ok(pre.register()));
        assert(self.entry(pre.register(), 511) == pre.entry(pre.register(), 511));
        assert(forall|j: int| 0 <= j < 512 ==> #[trigger] self.entry(fresh, j) == Entry(0));
        assert forall|g: u64| #[trigger] self.has_table(g) implies self.frame_ok(g)
            && self.recursion_ok(g) by {
            if g != fresh {
                assert(pre.has_table(g));
                assert(pre.frame_ok(g) && pre.recursion_ok(g));
                if pre.level(g) == 4 {
                    assert(self.entry(g, 511) == pre.entry(g, 511));
                }
            }
        }
        assert forall|g: u64, j: int| self.has_table(g) && 0 <= j < 512 implies #[trigger]
            self.entry_ok(g, j) by {
            if g != fresh {
                assert(pre.has_table(g));
                assert(pre.entry_ok(g, j));
                assert(pre.frame_ok(g));
            }
        }
        assert forall|r: u64, q: Page| pre.is_top(r) && q.p4() != 511 implies #[trigger]
            self.walk_from(r, q) == pre.walk_from(r, q) by {
            lemma_indices_in_range(q);
            pre.lemma_walk_places(r, q);
        }
        assert forall|r: u64, q: Page| pre.is_top(r) && q.p4() != 511 implies #[trigger]
            self.missing_from(r, q) == if pre.comes_to(r, q, frame, index) {
            (pre.missing_from(r, q) - 1) as nat
        } else {
            pre.missing_from(r, q)
        } by {
            lemma_indices_in_range(q);
            pre.lemma_walk_places(r, q);
        }
    }

    /// A new value for an entry of a leaf table keeps the hierarchies in
    /// shape and changes the walk of the one page that the entry stands
    /// for, and of no other page outside the recursive window.
    pub proof fn lemma_leaf_rewritten(&self, pre: Mapper, frame: u64, index: int, entry: Entry)
        requires
            pre.structure(),
            pre.has_table(frame),
            pre.level(frame) == 1,
            0 <= index < 512,
            self.rewritten(pre, frame, index, entry),
        ensures
            self.structure(),
            self.root() == pre.root(),
            forall|r: u64, q: Page|
                pre.is_top(r) && q.p4() != 511 && !(pre.p1_of(r, q) == Some(frame) && q.p1()
                    == index) ==> #[trigger] self.walk_from(r, q) == pre.walk_from(r, q),
            forall|r: u64, q: Page|
                pre.is_top(r) && q.p4() != 511 && pre.p1_of(r, q) == Some(frame) && q.p1() == index
                    ==> #[trigger] self.walk_from(r, q) == if entry.present() {
                    Walk::Leaf(entry)
                } else {
                    Walk::Vacant { clear: entry.0 == 0 }
                },
            forall|r: u64, q: Page|
                pre.is_top(r) && q.p4() != 511 ==> #[trigger] self.missing_from(r, q)
                    == pre.missing_from(r, q),
            forall|r: u64, q: Page|
                pre.is_top(r) && q.p4() == 511 ==> #[trigger] self.walk_from(r, q) == pre.walk_from(
                    r,
                    q,
                ),
    {
        assert(pre.frame_ok(frame));
        assert(pre.frame_ok(pre.register()) && pre.recursion_ok(pre.register()));
        assert(self.entry(pre.register(), 511) == pre.entry(pre.register(), 511));
        assert forall|r: u64, q: Page| pre.is_top(r) && q.p4() == 511 implies #[trigger]
            self.walk_from(r, q) == pre.walk_from(r, q) by {
            lemma_indices_in_range(q);
            pre.lemma_window_tables(r, q);
        }
        assert forall|g: u64| #[trigger] self.has_table(g) implies self.frame_ok(g)
            && self.recursion_ok(g) by {
            assert(pre.has_table(g));
            assert(pre.frame_ok(g) && pre.recursion_ok(g));
            if pre.level(g) == 4 {
                assert(self.entry(g, 511) == pre.entry(g, 511));
            }
        }
        assert forall|g: u64, j: int| self.has_table(g) && 0 <= j < 512 implies #[trigger]
            self.entry_ok(g, j) by {
            assert(pre.has_table(g));
            assert(pre.entry_ok(g, j));
        }
        assert forall|r: u64, q: Page| pre.is_top(r) && q.p4() != 511 implies (!(pre.p1_of(r, q)
            == Some(frame) && q.p1() == index) ==> #[trigger] self.walk_from(r, q)
            == pre.walk_from(r, q)) && (pre.p1_of(r, q) == Some(frame) && q.p1() == index
            ==> self.walk_from(r, q) == if entry.present() {
            Walk::Leaf(entry)
        } else {
            Walk::Vacant { clear: entry.0 == 0 }
        }) by {
            lemma_indices_in_range(q);
            pre.lemma_walk_places(r, q);
        }
        assert forall|r: u64, q: Page| pre.is_top(r) && q.p4() != 511 implies #[trigger]
            self.missing_from(r, q) == pre.missing_from(r, q) by {
            lemma_indices_in_range(q);
            pre.lemma_walk_places(r, q);
        }
    }

    /// A new top-level table keeps the hierarchies in shape and changes no
    /// walk. In the new hierarchy no page outside the recursive window is
    /// mapped, and nothing bars a mapping.
    pub proof fn lemma_topped(&self, pre: Mapper, fresh: u64)
        requires
            pre.structure(),
            fresh < FRAME_LIMIT,
            self.topped(pre, fresh),
        ensures
            self.structure(),
            self.root() == pre.root(),
            self.is_top(fresh),
            forall|r: u64, q: Page| pre.is_top(r) ==> #[trigger] self.walk_from(r, q)
                == pre.walk_from(r, q),
            forall|q: Page|
                q.p4() != 511 ==> #[trigger] self.walk_from(fresh, q) == (Walk::Vacant {
                    clear: true,
                }),
            forall|r: u64, q: Page|
                pre.is_top(r) ==> #[trigger] self.missing_from(r, q) == pre.missing_from(r, q),
            forall|q: Page| q.p4() != 511 ==> #[trigger] self.missing_from(fresh, q) == 3,
    {
        lemma_flag_constants();
        lemma_entry_of(fresh, LINK_FLAGS);
        assert(forall|j: int| 0 <= j < 512 ==> #[trigger] blank()[j] == Entry(0));
        assert(forall|g: u64, j: int|
            pre.has_table(g) ==> #[trigger] self.entry(g, j) == pre.entry(g, j));
        assert(forall|j: int|
            0 <= j < 512 && j != 511 ==> #[trigger] self.entry(fresh, j) == Entry(0));
        assert(self.entry(fresh, 511) == Entry::of(fresh, LINK_FLAGS));
        assert(pre.frame_ok(pre.register()) && pre.recursion_ok(pre.register()));
        assert forall|g: u64| #[trigger] self.has_table(g) implies self.frame_ok(g)
            && self.recursion_ok(g) by {
            if g != fresh {
                assert(pre.has_table(g));
                assert(pre.frame_ok(g) && pre.recursion_ok(g));
            }
        }
        assert forall|g: u64, j: int| self.has_table(g) && 0 <= j < 512 implies #[trigger]
            self.entry_ok(g, j) by {
            if g != fresh {
                assert(pre.has_table(g));
                assert(pre.entry_ok(g, j));
                assert(pre.frame_ok(g));
            }
        }
        assert forall|r: u64, q: Page| pre.is_top(r) implies #[trigger] self.walk_from(r, q)
            == pre.walk_from(r, q) by {
            lemma_indices_in_range(q);
            assert(pre.frame_ok(r) && pre.recursion_ok(r));
            pre.lemma_walk_tables(r, q);
        }
        assert forall|q: Page| q.p4() != 511 implies #[trigger] self.walk_from(fresh, q) == (
        Walk::Vacant { clear: true }) by {
            lemma_indices_in_range(q);
        }
        assert forall|r: u64, q: Page| pre.is_top(r) implies #[trigger] self.missing_from(r, q)
            == pre.missing_from(r, q) by {
            lemma_indices_in_range(q);
            assert(pre.frame_ok(r) && pre.recursion_ok(r));
            pre.lemma_walk_tables(r, q);
        }
        assert forall|q: Page| q.p4() != 511 implies #[trigger] self.missing_from(fresh, q)
            == 3 by {
            lemma_indices_in_range(q);
        }
    }

    /// A new target for the recursive slot of the register's table, itself
    /// a top-level table, keeps the hierarchies in shape and changes the
    /// walk of no page outside the recursive window. The mapper then works
    /// on the target's hierarchy.
    pub proof fn lemma_redirected(&self, pre: Mapper, target: u64)
        requires
            pre.structure(),
            pre.is_top(target),
            self.rewritten(pre, pre.register(), RECURSIVE_SLOT as int, Entry::of(target, LINK_FLAGS)),
        ensures
            self.structure(),
            self.root() == target,
            forall|r: u64, q: Page|
                pre.is_top(r) && q.p4() != 511 ==> #[trigger] self.walk_from(r, q) == pre.walk_from(
                    r,
                    q,
                ),
            forall|r: u64, q: Page|
                pre.is_top(r) && q.p4() != 511 ==> #[trigger] self.missing_from(r, q)
                    == pre.missing_from(r, q),
    {
        lemma_flag_constants();
        assert(pre.frame_ok(target));
        lemma_entry_of(target, LINK_FLAGS);
        assert(pre.frame_ok(pre.register()) && pre.recursion_ok(pre.register()));
        assert(self.entry(pre.register(), 511) == Entry::of(target, LINK_FLAGS));
        assert forall|g: u64| #[trigger] self.has_table(g) implies self.frame_ok(g)
            && self.recursion_ok(g) by {
            assert(pre.has_table(g));
            assert(pre.frame_ok(g) && pre.recursion_ok(g));
            if g != pre.register() {
                assert(self.entry(g, 511) == pre.entry(g, 511));
            }
        }
        assert forall|g: u64, j: int| self.has_table(g) && 0 <= j < 512 implies #[trigger]
            self.entry_ok(g, j) by {
            assert(pre.has_table(g));
            assert(pre.entry_ok(g, j));
        }
        assert forall|r: u64, q: Page| pre.is_top(r) && q.p4() != 511 implies #[trigger]
            self.walk_from(r, q) == pre.walk_from(r, q) by {
            lemma_indices_in_range(q);
            pre.lemma_walk_places(r, q);
        }
        assert forall|r: u64, q: Page| pre.is_top(r) && q.p4() != 511 implies #[trigger]
            self.missing_from(r, q) == pre.missing_from(r, q) by {
            lemma_indices_in_range(q);
            pre.lemma_walk_places(r, q);
        }
    }
}

/// The frame number in an entry fits the entry's address bits.
pub proof fn lemma_frame_number_fits(entry: Entry)
    ensures
        entry.frame_number() < FRAME_LIMIT,
{
    let bits = entry.0;
    assert((bits & 0x000f_ffff_ffff_f000u64) / 4096 < 0x100_0000_0000u64) by (bit_vector);
}

/// The page with the number of a frame below the identity limit is
/// canonical and lies outside the recursive window.
pub proof fn lemma_low_pages_regular(n: u64)
    requires
        n < IDENTITY_LIMIT,
    ensures
        (Page { number: n }).regular(),
        n < FRAME_LIMIT,
        canonical((n * 4096) as u64),
        n * 4096 <= u64::MAX,
        (n * 4096) as u64 / 4096 == n,
{
    assert((n >> 27) & 0x1ff != 511) by (bit_vector)
        requires
            n < 0x8_0000_0000u64,
    ;
}

/// The first gigabyte is the pages whose two upper indices are 0; such a
/// page's number is its third index times 512 plus its last index.
pub proof fn lemma_boot_pages(n: u64)
    by (bit_vector)
    ensures
        n < 262144 ==> (n >> 27) & 0x1ff == 0 && (n >> 18) & 0x1ff == 0 && ((n >> 9) & 0x1ff) * 512
            + (n & 0x1ff) == n,
        n >= 262144 && (n < 0x8_0000_0000 || (0xf_fff8_0000_0000 <= n && n <= 0xf_ffff_ffff_ffff))
            ==> (n >> 27) & 0x1ff != 0 || (n >> 18) & 0x1ff != 0,
{
}

/// Two sets of flags joined hold flag bits only.
pub proof fn lemma_joined_flags(a: u64, b: u64)
    by (bit_vector)
    requires
        a & !0x8000_0000_0000_01ffu64 == 0,
        b & !0x8000_0000_0000_01ffu64 == 0,
    ensures
        (a | b) & !0x8000_0000_0000_01ffu64 == 0,
{
}

/// Flags joined with the present flag are marked present.
pub proof fn lemma_present_stays(flags: u64)
    by (bit_vector)
    ensures
        (flags | PRESENT) & PRESENT != 0,
{
}

/// A number aligned to 512 * 512 = 262144 is aligned to 512.
pub proof fn lemma_coarser_alignment(n: u64)
    ensures
        n % 262144 == 0 ==> n % 512 == 0,
{
    if n % 262144 == 0 {
        assert(n % 512 == 0) by (nonlinear_arith)
            requires
                n % 262144 == 0,
        ;
    }
}

} // verus!
