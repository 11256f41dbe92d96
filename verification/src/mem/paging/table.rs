//! One table of the hierarchy: 512 entries.

use vstd::prelude::*;
use crate::mem::Frame;
use crate::mem::paging::entry::{lemma_flag_constants, Entry, EntryFlags, FRAME_LIMIT, HUGE_PAGE};
use crate::mem::paging::ENTRY_COUNT;

verus! {

/// A page table. It always holds exactly 512 entries.
pub struct Table {
    entries: Vec<Entry>,
}

impl View for Table {
    type V = Seq<Entry>;

    /// The table's entries, by index.
    closed spec fn view(&self) -> Seq<Entry> {
        self.entries@
    }
}

/// The entries of a table in which every entry is unused.
pub open spec fn blank() -> Seq<Entry> {
    Seq::new(512, |i: int| Entry(0))
}

impl Table {
    #[verifier::type_invariant]
    pub open spec fn full(self) -> bool {
        self@.len() == 512
    }

    /// A table in which every entry is unused.
    pub fn new() -> (table: Table)
        ensures
            table@ == blank(),
    {
        let mut entries: Vec<Entry> = Vec::new();
        let mut i: usize = 0;
        while i < ENTRY_COUNT
            invariant
                i <= 512,
                entries@.len() == i,
                forall|j: int| 0 <= j < i ==> entries@[j] == Entry(0),
            decreases 512 - i,
        {
            entries.push(Entry::unused());
            i += 1;
        }
        assert(entries@ =~= blank());
        Table { entries: entries }
    }

    /// Makes every entry unused.
    pub fn zero(&mut self)
        ensures
            final(self)@ == blank(),
    {
        proof {
            use_type_invariant(&*self);
        }
        let mut i: usize = 0;
        while i < ENTRY_COUNT
            invariant
                i <= 512,
                self.entries@.len() == 512,
                forall|j: int| 0 <= j < i ==> self.entries@[j] == Entry(0),
            decreases 512 - i,
        {
            self.entries[i] = Entry::unused();
            i += 1;
        }
        assert(self.entries@ =~= blank());
    }

    /// The entry at `index`.
    pub fn entry(&self, index: usize) -> (entry: Entry)
        requires
            index < 512,
        ensures
            entry == self@[index as int],
    {
        proof {
            use_type_invariant(self);
        }
        self.entries[index]
    }

    /// Replaces the entry at `index`.
    pub fn put(&mut self, index: usize, entry: Entry)
        requires
            index < 512,
        ensures
            final(self)@ == old(self)@.update(index as int, entry),
    {
        proof {
            use_type_invariant(&*self);
        }
        self.entries[index] = entry;
    }

    /// Makes the entry at `index` name `frame` with the flags `flags`.
    pub fn set(&mut self, index: usize, frame: Frame, flags: EntryFlags)
        requires
            index < 512,
            frame.number < FRAME_LIMIT,
        ensures
            final(self)@ == old(self)@.update(index as int, Entry::of(frame.number, flags@)),
    {
        proof {
            use_type_invariant(&*self);
        }
        let mut entry = Entry::unused();
        entry.set(frame, flags);
        self.entries[index] = entry;
    }

    /// Makes the entry at `index` unused.
    pub fn set_unused(&mut self, index: usize)
        requires
            index < 512,
        ensures
            final(self)@ == old(self)@.update(index as int, Entry(0)),
    {
        proof {
            use_type_invariant(&*self);
        }
        self.entries[index] = Entry::unused();
    }

    /// The frame that the entry at `index` leads on to: the entry's frame
    /// if the entry is present and no huge page. Whether a table stands
    /// there depends on the level of this table, which the mapper knows.
    pub open spec fn child(self, index: int) -> Option<Frame> {
        if self@[index].leads_on() {
            Some(Frame { number: self@[index].frame_number() })
        } else {
            None
        }
    }

    /// The frame that the entry at `index` leads on to, if it is present
    /// and no huge page.
    pub fn leads_to(&self, index: usize) -> (next: Option<Frame>)
        requires
            index < 512,
        ensures
            next == self.child(index as int),
    {
        let entry = self.entry(index);
        let flags = entry.flags();
        proof {
            lemma_flag_constants();
        }
        if flags.contains(EntryFlags::from_bits_truncate(HUGE_PAGE)) {
            None
        } else {
            entry.pointed_frame()
        }
    }
}

} // verus!
