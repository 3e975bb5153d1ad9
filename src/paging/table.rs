//! A page table: 512 entries.
use vstd::prelude::*;
use crate::paging::entry::{Entry, is_huge, is_present, HUGE_PAGE, PRESENT};

verus! {

pub const ENTRY_COUNT: usize = 512;

/// Virtual address of the level-4 table under the recursive mapping.
pub const P4_ADDRESS: u64 = 0xFFFF_FFFF_FFFF_F000;

/// The virtual address at which entry `index` of the table at `table_address`
/// makes its next-level table visible under the recursive mapping.
pub open spec fn recursive_address(table_address: u64, index: u64) -> u64 {
    (table_address << 9u64) | (index << 12u64)
}

/// The level of a table in the hierarchy: a level-4 table is the root, a
/// level-1 table maps pages and has no next level.
#[derive(PartialEq, Eq, Structural, Clone, Copy, Debug)]
pub enum TableLevel {
    Level4,
    Level3,
    Level2,
    Level1,
}

/// The level below `level`; level 1 has none.
pub open spec fn level_below(level: TableLevel) -> Option<TableLevel> {
    match level {
        TableLevel::Level4 => Some(TableLevel::Level3),
        TableLevel::Level3 => Some(TableLevel::Level2),
        TableLevel::Level2 => Some(TableLevel::Level1),
        TableLevel::Level1 => None,
    }
}

impl TableLevel {
    /// The level of the tables that entries at this level point at.
    pub fn next_level(self) -> (r: Option<TableLevel>)
        ensures
            r == level_below(self),
    {
        match self {
            TableLevel::Level4 => Some(TableLevel::Level3),
            TableLevel::Level3 => Some(TableLevel::Level2),
            TableLevel::Level2 => Some(TableLevel::Level1),
            TableLevel::Level1 => None,
        }
    }
}

pub struct Table {
    entries: Vec<Entry>,
    level: TableLevel,
}

impl View for Table {
    type V = Seq<u64>;

    closed spec fn view(&self) -> Seq<u64> {
        self.entries@.map_values(|e: Entry| e.0)
    }
}

impl Table {
    pub closed spec fn level_spec(&self) -> TableLevel {
        self.level
    }

    /// The table's level.
    pub fn level(&self) -> (r: TableLevel)
        ensures
            r == self.level_spec(),
    {
        self.level
    }

    pub open spec fn wf(&self) -> bool {
        self@.len() == ENTRY_COUNT
    }

    /// A table with every entry unused.
    pub fn new(level: TableLevel) -> (r: Table)
        ensures
            r.wf(),
            r.level_spec() == level,
            forall|i: int| 0 <= i < ENTRY_COUNT ==> r@[i] == 0,
    {
        let mut entries: Vec<Entry> = Vec::new();
        while entries.len() < ENTRY_COUNT
            invariant
                entries.len() <= ENTRY_COUNT,
                forall|i: int| 0 <= i < entries.len() ==> entries@[i].0 == 0,
            decreases ENTRY_COUNT - entries.len(),
        {
            entries.push(Entry(0));
        }
        Table { entries, level }
    }

    pub fn index(&self, index: usize) -> (r: &Entry)
        requires
            self.wf(),
            index < ENTRY_COUNT,
        ensures
            r.0 == self@[index as int],
    {
        &self.entries[index]
    }

    /// Replaces entry `index`.
    pub fn set_index(&mut self, index: usize, entry: Entry)
        requires
            old(self).wf(),
            index < ENTRY_COUNT,
        ensures
            final(self).wf(),
            final(self).level_spec() == old(self).level_spec(),
            final(self)@ == old(self)@.update(index as int, entry.0),
    {
        self.entries.set(index, entry);
        proof {
            assert(self@ =~= old(self)@.update(index as int, entry.0));
        }
    }

    /// Sets every entry to unused.
    pub fn zero(&mut self)
        requires
            old(self).wf(),
        ensures
            final(self).wf(),
            final(self).level_spec() == old(self).level_spec(),
            forall|i: int| 0 <= i < ENTRY_COUNT ==> final(self)@[i] == 0,
    {
        let mut i: usize = 0;
        while i < ENTRY_COUNT
            invariant
                self.wf(),
                self.level == old(self).level,
                self.entries@.len() == ENTRY_COUNT,
                i <= ENTRY_COUNT,
                forall|j: int| 0 <= j < i ==> self.entries@[j].0 == 0,
            decreases ENTRY_COUNT - i,
        {
            self.entries.set(i, Entry(0));
            i = i + 1;
        }
        assert forall|j: int| 0 <= j < ENTRY_COUNT implies self@[j] == 0 by {
            assert(self@[j] == self.entries@[j].0);
        }
    }

    /// Where the next-level table of entry `index` is visible, for a table
    /// visible at `table_address`: none unless the entry is present and not a
    /// huge page. A level-1 table has no next level.
    pub fn next_table_address(&self, table_address: u64, index: usize) -> (r: Option<u64>)
        requires
            self.wf(),
            index < ENTRY_COUNT,
            level_below(self.level_spec()) is Some,
        ensures
            r == (if is_present(self@[index as int]) && !is_huge(self@[index as int]) {
                Some(recursive_address(table_address, index as u64))
            } else {
                None
            }),
    {
        let raw = self.index(index).0;
        let present = raw & PRESENT == PRESENT;
        let huge = raw & HUGE_PAGE == HUGE_PAGE;
        if present && !huge {
            Some((table_address << 9u64) | ((index as u64) << 12u64))
        } else {
            None
        }
    }
}

} // verus!
