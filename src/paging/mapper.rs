//! The mapper: walks and edits the four-level hierarchy rooted at a level-4
//! table. Physical memory is modelled as a run of frames that can each hold a
//! table; a table's entries are read and written through its frame number.
use vstd::prelude::*;
use crate::frame::{extends, lemma_extends_push, lemma_extends_refl, lemma_extends_trans, Frame, FrameAllocator};
use crate::paging::entry::{
    entry_word, frame_of, is_huge, is_present, lemma_entry_word, Entry, EntryFlags, ADDRESS_MASK,
    FRAME_LIMIT, HUGE_PAGE, PRESENT, WRITABLE,
};
use crate::paging::table::ENTRY_COUNT;
use crate::paging::{
    walk_avoids,
    is_canonical, p1_index_of, p2_index_of, p3_index_of, p4_index_of, Page, PhysicalAddress,
    VirtualAddress,
};

verus! {

/// The most frames that the table memory can hold.
pub const MAX_TABLE_FRAMES: usize = 0x10_0000;

/// Index of the entry of the level-4 table that points back at the table.
pub const RECURSIVE_INDEX: usize = 511;

/// Why a mapping could not be made.
#[derive(PartialEq, Eq, Structural, Clone, Copy, Debug)]
pub enum MapError {
    /// The allocator had no frame left for a new table.
    OutOfFrames,
    /// A frame handed out for a table lies outside table memory.
    FrameOutOfRange,
    /// A new table took a frame that the walk to the page already used.
    FrameInUse,
}

/// Entry `index` of the table in frame `table`.
pub open spec fn entry_in(mem: Seq<u64>, table: int, index: int) -> u64 {
    mem[table * 512 + index]
}

/// The table that entry `index` of table `table` points at, if any.
pub open spec fn next_in(mem: Seq<u64>, frames: nat, table: int, index: int) -> Option<int> {
    let e = entry_in(mem, table, index);
    if is_present(e) && !is_huge(e) && frame_of(e) < frames {
        Some(frame_of(e) as int)
    } else {
        None
    }
}

/// The level-1 table on the walk to page `number`.
pub open spec fn p1_table(mem: Seq<u64>, frames: nat, p4: int, number: u64) -> Option<int> {
    match next_in(mem, frames, p4, p4_index_of(number)) {
        Some(p3) => match next_in(mem, frames, p3, p3_index_of(number)) {
            Some(p2) => next_in(mem, frames, p2, p2_index_of(number)),
            None => None,
        },
        None => None,
    }
}

/// The frame that page `number` maps to, if any.
pub open spec fn page_frame(mem: Seq<u64>, frames: nat, p4: int, number: u64) -> Option<u64> {
    match p1_table(mem, frames, p4, number) {
        Some(p1) => {
            let e = entry_in(mem, p1, p1_index_of(number));
            if is_present(e) {
                Some(frame_of(e))
            } else {
                None
            }
        },
        None => None,
    }
}

/// The physical address that `address` translates to, if any.
pub open spec fn translated(mem: Seq<u64>, frames: nat, p4: int, address: u64) -> Option<u64> {
    match page_frame(mem, frames, p4, address / 4096) {
        Some(f) => Some((f * 4096 + address % 4096) as u64),
        None => None,
    }
}

/// The walk to page `number` meets no huge page, and a level-1 entry it
/// reaches is unused: the page may be mapped.
pub open spec fn mappable(mem: Seq<u64>, frames: nat, p4: int, number: u64) -> bool {
    &&& !is_huge(entry_in(mem, p4, p4_index_of(number)))
    &&& (next_in(mem, frames, p4, p4_index_of(number)) matches Some(p3) ==> {
        &&& !is_huge(entry_in(mem, p3, p3_index_of(number)))
        &&& (next_in(mem, frames, p3, p3_index_of(number)) matches Some(p2) ==> {
            &&& !is_huge(entry_in(mem, p2, p2_index_of(number)))
            &&& (next_in(mem, frames, p2, p2_index_of(number)) matches Some(p1) ==> entry_in(
                mem,
                p1,
                p1_index_of(number),
            ) == 0)
        })
    })
}

/// Entry `index` of table `table` is present but names a frame outside table memory.
pub open spec fn out_of_range(mem: Seq<u64>, frames: nat, table: int, index: int) -> bool {
    let e = entry_in(mem, table, index);
    is_present(e) && !is_huge(e) && frame_of(e) >= frames
}

/// The existing part of the walk to page `number` ends at an entry naming a
/// frame outside table memory.
pub open spec fn walk_blocked(mem: Seq<u64>, frames: nat, p4: int, number: u64) -> bool {
    ||| out_of_range(mem, frames, p4, p4_index_of(number))
    ||| (next_in(mem, frames, p4, p4_index_of(number)) matches Some(p3) && (out_of_range(
        mem,
        frames,
        p3,
        p3_index_of(number),
    ) || (next_in(mem, frames, p3, p3_index_of(number)) matches Some(p2) && out_of_range(
        mem,
        frames,
        p2,
        p2_index_of(number),
    ))))
}

/// Table memory after frame `f` becomes the table that entry `index` of
/// table `table` points at: the entry is written, then table `f` zeroed.
pub open spec fn table_installed(mem: Seq<u64>, table: int, index: int, f: int) -> Seq<u64> {
    Seq::new(
        mem.len(),
        |j: int|
            if f * 512 <= j < f * 512 + 512 {
                0
            } else if j == table * 512 + index {
                entry_word(f as u64, PRESENT | WRITABLE)
            } else {
                mem[j]
            },
    )
}

/// How many tables the walk to page `number` lacks.
pub open spec fn missing_tables(mem: Seq<u64>, frames: nat, p4: int, number: u64) -> nat {
    match next_in(mem, frames, p4, p4_index_of(number)) {
        None => 3,
        Some(p3) => match next_in(mem, frames, p3, p3_index_of(number)) {
            None => 2,
            Some(p2) => match next_in(mem, frames, p2, p2_index_of(number)) {
                None => 1,
                Some(_) => 0,
            },
        },
    }
}

/// Table memory after the frames `taken` become the level-3, level-2 and
/// level-1 tables of the walk to page `number`, one below the other.
pub open spec fn created_walk(mem: Seq<u64>, p4: int, number: u64, taken: Seq<Frame>) -> Seq<u64> {
    let f3 = taken[0].number as int;
    let f2 = taken[1].number as int;
    let f1 = taken[2].number as int;
    table_installed(
        table_installed(table_installed(mem, p4, p4_index_of(number), f3), f3, p3_index_of(number), f2),
        f2,
        p2_index_of(number),
        f1,
    )
}

/// Table memory after the tables that the walk to page `number` lacks are
/// made, top down, from the frames `taken`.
pub open spec fn tables_made(mem: Seq<u64>, frames: nat, p4: int, number: u64, taken: Seq<Frame>) -> Seq<u64> {
    match next_in(mem, frames, p4, p4_index_of(number)) {
        None => created_walk(mem, p4, number, taken),
        Some(p3) => match next_in(mem, frames, p3, p3_index_of(number)) {
            None => table_installed(
                table_installed(mem, p3, p3_index_of(number), taken[0].number as int),
                taken[0].number as int,
                p2_index_of(number),
                taken[1].number as int,
            ),
            Some(p2) => match next_in(mem, frames, p2, p2_index_of(number)) {
                None => table_installed(mem, p2, p2_index_of(number), taken[0].number as int),
                Some(_) => mem,
            },
        },
    }
}

pub struct Mapper {
    p4_frame: usize,
    frames: usize,
    memory: Vec<u64>,
}

impl Mapper {
    /// Frame of the level-4 table.
    pub closed spec fn p4(&self) -> int {
        self.p4_frame as int
    }

    /// Number of frames that table memory holds.
    pub closed spec fn frames(&self) -> nat {
        self.frames as nat
    }

    /// Table memory: entry `i` of the table in frame `f` is at `f * 512 + i`.
    pub closed spec fn mem(&self) -> Seq<u64> {
        self.memory@
    }

    pub open spec fn wf(&self) -> bool {
        &&& self.frames() <= MAX_TABLE_FRAMES
        &&& 0 <= self.p4() < self.frames()
        &&& self.mem().len() == self.frames() * 512
    }

    /// The frame that `page` maps to, as the hierarchy stands.
    pub open spec fn frame_of_page(&self, page: Page) -> Option<u64> {
        page_frame(self.mem(), self.frames(), self.p4(), page@)
    }

    /// A hierarchy in `frames` frames of zeroed table memory whose level-4
    /// table, in frame `p4_frame`, maps itself through its last entry.
    pub fn new(p4_frame: usize, frames: usize) -> (r: Mapper)
        requires
            p4_frame < frames <= MAX_TABLE_FRAMES,
        ensures
            r.wf(),
            r.p4() == p4_frame,
            r.frames() == frames,
            forall|f: int, i: int|
                0 <= f < frames && 0 <= i < 512 ==> #[trigger] entry_in(r.mem(), f, i) == if f
                    == p4_frame && i == RECURSIVE_INDEX {
                    entry_word(p4_frame as u64, PRESENT | WRITABLE)
                } else {
                    0
                },
    {
        let size = frames * ENTRY_COUNT;
        let mut memory: Vec<u64> = Vec::new();
        while memory.len() < size
            invariant
                memory.len() <= size,
                forall|i: int| 0 <= i < memory.len() ==> memory@[i] == 0,
            decreases size - memory.len(),
        {
            memory.push(0);
        }
        let mut r = Mapper { p4_frame, frames, memory };
        let word = ((p4_frame as u64) << 12u64) | (PRESENT | WRITABLE);
        r.memory.set(p4_frame * ENTRY_COUNT + RECURSIVE_INDEX, word);
        proof {
            assert forall|f: int, i: int| 0 <= f < frames && 0 <= i < 512 implies #[trigger] entry_in(
                r.mem(),
                f,
                i,
            ) == if f == p4_frame && i == RECURSIVE_INDEX {
                entry_word(p4_frame as u64, PRESENT | WRITABLE)
            } else {
                0
            } by {
                assert(f * 512 + i < frames * 512) by (nonlinear_arith)
                    requires
                        f < frames,
                        i < 512,
                ;
                if f * 512 + i == p4_frame * 512 + 511 {
                    assert(f == p4_frame && i == 511) by (nonlinear_arith)
                        requires
                            f * 512 + i == p4_frame * 512 + 511,
                            0 <= i < 512,
                    ;
                }
            }
        }
        r
    }

    /// Number of frames of table memory.
    pub fn frame_count(&self) -> (r: usize)
        ensures
            r == self.frames(),
    {
        self.frames
    }

    /// Frame of the level-4 table.
    pub fn p4_frame(&self) -> (r: usize)
        ensures
            r == self.p4(),
    {
        self.p4_frame
    }

    /// Makes the table in frame `p4_frame` the root of every walk, as the
    /// recursive entry does once it names that table.
    pub(crate) fn set_root(&mut self, p4_frame: usize)
        requires
            old(self).wf(),
            p4_frame < old(self).frames(),
        ensures
            final(self).wf(),
            final(self).p4() == p4_frame,
            final(self).frames() == old(self).frames(),
            final(self).mem() == old(self).mem(),
    {
        self.p4_frame = p4_frame;
    }

    /// Entry `index` of the table in frame `table`.
    pub fn read_entry(&self, table: usize, index: usize) -> (r: u64)
        requires
            self.wf(),
            table < self.frames(),
            index < 512,
        ensures
            r == entry_in(self.mem(), table as int, index as int),
    {
        proof {
            lemma_slot(table as int, index as int, self.frames() as int);
        }
        self.memory[table * ENTRY_COUNT + index]
    }

    /// Writes entry `index` of the table in frame `table`.
    pub fn write_entry(&mut self, table: usize, index: usize, value: u64)
        requires
            old(self).wf(),
            table < old(self).frames(),
            index < 512,
        ensures
            final(self).wf(),
            final(self).p4() == old(self).p4(),
            final(self).frames() == old(self).frames(),
            final(self).mem() == old(self).mem().update(table * 512 + index, value),
    {
        proof {
            lemma_slot(table as int, index as int, self.frames() as int);
        }
        self.memory.set(table * ENTRY_COUNT + index, value);
    }

    /// Sets every entry of the table in frame `table` to unused.
    pub fn zero_table(&mut self, table: usize)
        requires
            old(self).wf(),
            table < old(self).frames(),
        ensures
            final(self).wf(),
            final(self).p4() == old(self).p4(),
            final(self).frames() == old(self).frames(),
            forall|j: int|
                0 <= j < final(self).mem().len() ==> final(self).mem()[j] == if table * 512 <= j < table
                    * 512 + 512 {
                    0
                } else {
                    old(self).mem()[j]
                },
    {
        let mut i: usize = 0;
        while i < ENTRY_COUNT
            invariant
                self.wf(),
                self.p4() == old(self).p4(),
                self.frames() == old(self).frames(),
                table < self.frames(),
                i <= 512,
                forall|j: int|
                    0 <= j < self.mem().len() ==> self.mem()[j] == if table * 512 <= j < table * 512
                        + i {
                        0
                    } else {
                        old(self).mem()[j]
                    },
            decreases 512 - i,
        {
            self.write_entry(table, i, 0);
            i = i + 1;
        }
    }

    /// The table that entry `index` of the table in frame `table` points at:
    /// none unless the entry is present, not a huge page, and names a frame of
    /// table memory.
    pub fn next_table(&self, table: usize, index: usize) -> (r: Option<usize>)
        requires
            self.wf(),
            table < self.frames(),
            index < 512,
        ensures
            r == (match next_in(self.mem(), self.frames(), table as int, index as int) {
                Some(f) => Some(f as usize),
                None => None,
            }),
            r matches Some(f) ==> next_in(self.mem(), self.frames(), table as int, index as int) == Some(f as int)
                && f < self.frames(),
            r is None ==> next_in(self.mem(), self.frames(), table as int, index as int) is None,
    {
        let e = self.read_entry(table, index);
        if e & PRESENT == PRESENT && e & HUGE_PAGE != HUGE_PAGE {
            let f = (e & ADDRESS_MASK) / 4096;
            if f < self.frames as u64 {
                return Some(f as usize);
            }
        }
        None
    }

    /// The level-1 table on the walk to `page`, if every table on it exists.
    pub fn p1_frame(&self, page: Page) -> (r: Option<usize>)
        requires
            self.wf(),
        ensures
            r == (match p1_table(self.mem(), self.frames(), self.p4(), page@) {
                Some(f) => Some(f as usize),
                None => None,
            }),
            r matches Some(f) ==> f < self.frames() && p1_table(self.mem(), self.frames(), self.p4(), page@) == Some(
                f as int,
            ),
            r is None ==> p1_table(self.mem(), self.frames(), self.p4(), page@) is None,
    {
        match self.next_table(self.p4_frame, page.p4_index()) {
            Some(p3) => match self.next_table(p3, page.p3_index()) {
                Some(p2) => self.next_table(p2, page.p2_index()),
                None => None,
            },
            None => None,
        }
    }

    /// Whether `map_to` may be asked to map `page`: no huge page on its walk
    /// and no entry in use at its level-1 slot.
    pub fn can_map(&self, page: Page) -> (r: bool)
        requires
            self.wf(),
        ensures
            r == mappable(self.mem(), self.frames(), self.p4(), page@),
    {
        let e4 = self.read_entry(self.p4_frame, page.p4_index());
        if e4 & HUGE_PAGE == HUGE_PAGE {
            return false;
        }
        match self.next_table(self.p4_frame, page.p4_index()) {
            None => true,
            Some(p3) => {
                let e3 = self.read_entry(p3, page.p3_index());
                if e3 & HUGE_PAGE == HUGE_PAGE {
                    return false;
                }
                match self.next_table(p3, page.p3_index()) {
                    None => true,
                    Some(p2) => {
                        let e2 = self.read_entry(p2, page.p2_index());
                        if e2 & HUGE_PAGE == HUGE_PAGE {
                            return false;
                        }
                        match self.next_table(p2, page.p2_index()) {
                            None => true,
                            Some(p1) => self.read_entry(p1, page.p1_index()) == 0,
                        }
                    },
                }
            },
        }
    }

    /// The frame number that `page` maps to, if any.
    fn frame_number_of(&self, page: Page) -> (r: Option<u64>)
        requires
            self.wf(),
        ensures
            r == self.frame_of_page(page),
            r matches Some(f) ==> f < 0x100_0000_0000,
    {
        match self.p1_frame(page) {
            Some(p1) => {
                let e = self.read_entry(p1, page.p1_index());
                proof {
                    assert((e & 0x000F_FFFF_FFFF_F000u64) / 4096 < 0x100_0000_0000u64) by (bit_vector);
                }
                if e & PRESENT == PRESENT {
                    Some((e & ADDRESS_MASK) / 4096)
                } else {
                    None
                }
            },
            None => None,
        }
    }

    /// The frame that `page` maps to, if any.
    pub fn translate_page(&self, page: Page) -> (r: Option<Frame>)
        requires
            self.wf(),
        ensures
            r == (match self.frame_of_page(page) {
                Some(f) => Some(Frame { number: f as usize, num_pages: 1 }),
                None => None,
            }),
    {
        match self.frame_number_of(page) {
            Some(f) => Some(Frame { number: f as usize, num_pages: 1 }),
            None => None,
        }
    }

    /// The physical address that `address` translates to, if any.
    pub fn translate(&self, address: VirtualAddress) -> (r: Option<PhysicalAddress>)
        requires
            self.wf(),
            is_canonical(address),
        ensures
            r == translated(self.mem(), self.frames(), self.p4(), address),
    {
        let offset = address % 4096;
        match self.frame_number_of(Page::from_address(address)) {
            Some(f) => Some(f * 4096 + offset),
            None => None,
        }
    }
}

impl Mapper {
    /// Makes `frame`, the allocator's answer, the table that entry `index` of
    /// table `table` points at: the entry is set present and writable and the
    /// new table zeroed.
    pub fn install_table(&mut self, table: usize, index: usize, frame: Option<Frame>) -> (r: Result<usize, MapError>)
        requires
            old(self).wf(),
            table < old(self).frames(),
            index < 512,
        ensures
            final(self).wf(),
            final(self).p4() == old(self).p4(),
            final(self).frames() == old(self).frames(),
            frame is None ==> r == Err::<usize, MapError>(MapError::OutOfFrames) && final(self).mem() == old(
                self,
            ).mem(),
            frame matches Some(f) && f.number >= old(self).frames() ==> r == Err::<usize, MapError>(
                MapError::FrameOutOfRange,
            ) && final(self).mem() == old(self).mem(),
            frame matches Some(f) && f.number == table ==> r == Err::<usize, MapError>(MapError::FrameInUse)
                && final(self).mem() == old(self).mem(),
            frame matches Some(f) ==> (f.number < old(self).frames() && f.number != table ==> r == Ok::<
                usize,
                MapError,
            >(f.number)
                && final(self).mem() == table_installed(old(self).mem(), table as int, index as int, f.number as int)),
    {
        match frame {
            None => Err(MapError::OutOfFrames),
            Some(frame) => {
                if frame.number >= self.frames {
                    return Err(MapError::FrameOutOfRange);
                }
                if frame.number == table {
                    return Err(MapError::FrameInUse);
                }
                let ghost m0 = self.mem();
                let mut entry = Entry(0);
                entry.set(frame, EntryFlags::from_bits_truncate(PRESENT | WRITABLE));
                proof {
                    assert((3u64 & 0x8000_0000_0000_01FFu64) == 3u64) by (bit_vector);
                    assert((1u64 | 2u64) == 3u64) by (bit_vector);
                    lemma_slot(table as int, index as int, self.frames() as int);
                }
                self.write_entry(table, index, entry.0);
                self.zero_table(frame.number);
                proof {
                    assert(self.mem() =~= table_installed(m0, table as int, index as int, frame.number as int));
                }
                Ok(frame.number)
            },
        }
    }

    /// The table that entry `index` of table `table` points at, made when
    /// there is none from a frame of `allocator` (see `install_table`).
    pub fn next_table_or_create<A: FrameAllocator>(
        &mut self,
        table: usize,
        index: usize,
        allocator: &mut A,
    ) -> (r: Result<usize, MapError>)
        requires
            old(self).wf(),
            table < old(self).frames(),
            index < 512,
            old(allocator).inv(),
            !is_huge(entry_in(old(self).mem(), table as int, index as int)),
        ensures
            final(self).wf(),
            final(self).p4() == old(self).p4(),
            final(self).frames() == old(self).frames(),
            final(allocator).inv(),
            r matches Ok(f) ==> f < final(self).frames(),
            next_in(old(self).mem(), old(self).frames(), table as int, index as int) matches Some(f)
                ==> (r == Ok::<usize, MapError>(f as usize) && final(self).mem() == old(self).mem()
                && *final(allocator) == *old(allocator)),
            out_of_range(old(self).mem(), old(self).frames(), table as int, index as int) ==> (r
                == Err::<usize, MapError>(MapError::FrameOutOfRange) && final(self).mem() == old(self).mem()
                && *final(allocator) == *old(allocator)),
            r is Err ==> final(self).mem() == old(self).mem(),
            !is_present(entry_in(old(self).mem(), table as int, index as int)) ==> (old(allocator).next_frame(1) matches Some(f)
                ==> (f.number < old(self).frames() && f.number != table ==> r == Ok::<usize, MapError>(f.number))),
            extends(final(allocator).handed(), old(allocator).handed()),
            final(allocator).handed().len() <= old(allocator).handed().len() + 1,
            r matches Ok(f) ==> (next_in(old(self).mem(), old(self).frames(), table as int, index as int) is None
                ==> final(allocator).handed() == old(allocator).handed().push(Frame { number: f, num_pages: 1 })),
            r matches Ok(f) ==> (next_in(old(self).mem(), old(self).frames(), table as int, index as int) is None
                ==> !is_present(entry_in(old(self).mem(), table as int, index as int)) && final(self).mem()
                == table_installed(old(self).mem(), table as int, index as int, f as int)),
    {
        proof {
            lemma_extends_refl(old(allocator).handed());
        }
        match self.next_table(table, index) {
            Some(f) => Ok(f),
            None => {
                let e = self.read_entry(table, index);
                if e & PRESENT == PRESENT {
                    return Err(MapError::FrameOutOfRange);
                }
                let frame = allocator.allocate(1);
                proof {
                    if frame is Some {
                        lemma_extends_push(old(allocator).handed(), frame->Some_0);
                    }
                }
                self.install_table(table, index, frame)
            },
        }
    }

    /// Maps `page` to `frame` with `flags` and PRESENT, making the tables on
    /// the way that are missing. The page must not be mapped already and its
    /// walk must meet no huge page.
    pub fn map_to<A: FrameAllocator>(
        &mut self,
        page: Page,
        frame: Frame,
        flags: EntryFlags,
        allocator: &mut A,
    ) -> (r: Result<(), MapError>)
        requires
            old(self).wf(),
            old(allocator).inv(),
            frame.number < FRAME_LIMIT as int,
            flags.wf(),
            mappable(old(self).mem(), old(self).frames(), old(self).p4(), page@),
        ensures
            final(self).wf(),
            final(self).p4() == old(self).p4(),
            final(self).frames() == old(self).frames(),
            final(allocator).inv(),
            r is Ok ==> final(self).frame_of_page(page) == Some(frame.number as u64),
            r is Ok ==> (p1_table(final(self).mem(), final(self).frames(), final(self).p4(), page@) matches Some(p1)
                && entry_in(final(self).mem(), p1, p1_index_of(page@)) == entry_word(
                frame.number as u64,
                flags@ | PRESENT,
            )),
            p1_table(old(self).mem(), old(self).frames(), old(self).p4(), page@) matches Some(p1) ==> r is Ok
                && final(self).mem() == old(self).mem().update(
                p1 * 512 + p1_index_of(page@),
                entry_word(frame.number as u64, flags@ | PRESENT),
            ) && *final(allocator) == *old(allocator),
            (r is Ok && next_in(old(self).mem(), old(self).frames(), old(self).p4(), p4_index_of(page@)) is None)
                ==> (p1_table(final(self).mem(), final(self).frames(), final(self).p4(), page@) matches Some(p1)
                && forall|i: int| 0 <= i < 512 && i != p1_index_of(page@) ==> #[trigger] entry_in(
                final(self).mem(),
                p1,
                i,
            ) == 0),
            extends(final(allocator).handed(), old(allocator).handed()),
            (missing_tables(old(self).mem(), old(self).frames(), old(self).p4(), page@) == 1 && !walk_blocked(
                old(self).mem(),
                old(self).frames(),
                old(self).p4(),
                page@,
            )) ==> (old(allocator).next_frame(1) matches Some(f) ==> (f.number < old(self).frames() && walk_avoids(
                old(self).mem(),
                old(self).frames(),
                old(self).p4(),
                page@,
                f.number as int,
            ) ==> r is Ok)),
            r is Ok ==> (p1_table(final(self).mem(), final(self).frames(), final(self).p4(), page@) matches Some(p1)
                && final(self).mem() == tables_made(
                old(self).mem(),
                old(self).frames(),
                old(self).p4(),
                page@,
                final(allocator).handed().subrange(
                    old(allocator).handed().len() as int,
                    final(allocator).handed().len() as int,
                ),
            ).update(p1 * 512 + p1_index_of(page@), entry_word(frame.number as u64, flags@ | PRESENT))),
            r is Ok ==> final(allocator).handed().len() == old(allocator).handed().len() + missing_tables(
                old(self).mem(),
                old(self).frames(),
                old(self).p4(),
                page@,
            ),
            walk_blocked(old(self).mem(), old(self).frames(), old(self).p4(), page@) ==> (r
                == Err::<(), MapError>(MapError::FrameOutOfRange) && final(self).mem() == old(self).mem()
                && *final(allocator) == *old(allocator)),
    {
        proof {
            assert(!is_huge(0) && !is_present(0)) by (bit_vector);
        }
        let ghost m0 = self.mem();
        let ghost frames = self.frames() as int;
        let p4 = self.p4_frame;
        let ghost a0 = allocator.handed();
        proof {
            lemma_extends_refl(a0);
        }
        let p3 = match self.next_table_or_create(p4, page.p4_index(), allocator) {
            Ok(f) => f,
            Err(e) => return Err(e),
        };
        let ghost m1 = self.mem();
        let ghost a1 = allocator.handed();
        proof {
            if next_in(m0, frames as nat, p4 as int, p4_index_of(page@)) is None {
                lemma_slot(p3 as int, p3_index_of(page@), frames);
                assert(entry_in(m1, p3 as int, p3_index_of(page@)) == 0);
            }
        }
        let p2 = match self.next_table_or_create(p3, page.p3_index(), allocator) {
            Ok(f) => f,
            Err(e) => {
                proof {
                    lemma_extends_trans(allocator.handed(), a1, a0);
                }
                return Err(e);
            },
        };
        let ghost m2 = self.mem();
        let ghost a2 = allocator.handed();
        proof {
            lemma_extends_trans(a2, a1, a0);
        }
        proof {
            if next_in(m1, frames as nat, p3 as int, p3_index_of(page@)) is None {
                lemma_slot(p2 as int, p2_index_of(page@), frames);
                assert(entry_in(m2, p2 as int, p2_index_of(page@)) == 0);
            }
        }
        let created = match self.next_table_or_create(p2, page.p2_index(), allocator) {
            Ok(f) => f,
            Err(e) => {
                proof {
                    lemma_extends_trans(allocator.handed(), a2, a0);
                }
                return Err(e);
            },
        };
        let ghost m3 = self.mem();
        let ghost a3 = allocator.handed();
        proof {
            lemma_extends_trans(a3, a2, a0);
            if missing_tables(m0, frames as nat, p4 as int, page@) == 1 && !walk_blocked(m0, frames as nat, p4 as int, page@)
                && next_in(m2, frames as nat, p2 as int, p2_index_of(page@)) is None
                && walk_avoids(m0, frames as nat, p4 as int, page@, created as int) {
                let n = page@;
                assert(m1 == m0 && m2 == m0);
                assert(!is_present(0)) by (bit_vector);
                lemma_slot_other_table(p4 as int, p4_index_of(n), created as int, frames);
                lemma_slot_other_table(p3 as int, p3_index_of(n), created as int, frames);
                lemma_slot(p2 as int, p2_index_of(n), frames);
                assert(entry_in(m3, p4 as int, p4_index_of(n)) == entry_in(m0, p4 as int, p4_index_of(n)));
                assert(entry_in(m3, p3 as int, p3_index_of(n)) == entry_in(m0, p3 as int, p3_index_of(n)));
                assert((3u64 & 0x8000_0000_0000_01FFu64) == 3u64 && (1u64 | 2u64) == 3u64) by (bit_vector);
                assert(3u64 & !0x8000_0000_0000_01FFu64 == 0) by (bit_vector);
                lemma_entry_word(created as u64, 3);
                assert(entry_in(m3, p2 as int, p2_index_of(n)) == entry_word(created as u64, PRESENT | WRITABLE));
                assert(3u64 & 1u64 == 1u64 && 3u64 & 0x80u64 != 0x80u64) by (bit_vector);
                assert(next_in(m3, frames as nat, p4 as int, p4_index_of(n)) == Some(p3 as int));
                assert(next_in(m3, frames as nat, p3 as int, p3_index_of(n)) == Some(p2 as int));
                assert(frame_of(entry_in(m3, p2 as int, p2_index_of(n))) == created as u64);
                assert(next_in(m3, frames as nat, p2 as int, p2_index_of(n)) == Some(created as int));
                assert(p1_table(m3, frames as nat, p4 as int, n) == Some(created as int));
            }
        }
        proof {
            lemma_slot(created as int, p1_index_of(page@), frames);
        }
        let p1 = match self.p1_frame(page) {
            Some(p1) => p1,
            None => return Err(MapError::FrameInUse),
        };
        if p1 != created {
            return Err(MapError::FrameInUse);
        }
        let i1 = page.p1_index();
        let old_entry = self.read_entry(p1, i1);
        proof {
            if next_in(m2, frames as nat, p2 as int, p2_index_of(page@)) is Some {
                assert(m3 == m2);
                assert(next_in(m1, frames as nat, p3 as int, p3_index_of(page@)) is Some);
                assert(m2 == m1);
                assert(next_in(m0, frames as nat, p4 as int, p4_index_of(page@)) is Some);
                assert(m1 == m0);
                assert(p1_table(m0, frames as nat, p4 as int, page@) == Some(created as int));
            }
            assert(old_entry == 0);
        }
        let flags_present = flags.union(EntryFlags::from_bits_truncate(PRESENT));
        let mut entry = Entry(old_entry);
        entry.set(frame, flags_present);
        proof {
            let f0 = flags@;
            assert((f0 | (1u64 & 0x8000_0000_0000_01FFu64)) == f0 | 1u64) by (bit_vector);
            assert((f0 | 1u64) & 1u64 == 1u64) by (bit_vector);
            lemma_entry_word(frame.number as u64, flags_present@);
            lemma_walk_after_write(self.mem(), self.frames(), self.p4(), p1 as int, i1 as int, entry.0, page@);
        }
        self.write_entry(p1, i1, entry.0);
        proof {
            assert(!is_present(0)) by (bit_vector);
            let n0 = a0.len() as int;
            if next_in(m0, frames as nat, p4 as int, p4_index_of(page@)) is None {
                assert(next_in(m1, frames as nat, p3 as int, p3_index_of(page@)) is None);
                assert(next_in(m2, frames as nat, p2 as int, p2_index_of(page@)) is None);
                assert(a3 == a0.push(Frame { number: p3, num_pages: 1 }).push(Frame { number: p2, num_pages: 1 }).push(
                    Frame { number: created, num_pages: 1 },
                ));
                assert(a3.subrange(n0, n0 + 3) =~= seq![
                    Frame { number: p3, num_pages: 1 },
                    Frame { number: p2, num_pages: 1 },
                    Frame { number: created, num_pages: 1 },
                ]);
                assert(m3 == created_walk(m0, p4 as int, page@, a3.subrange(n0, n0 + 3)));
                assert(a3.subrange(n0, a3.len() as int) =~= a3.subrange(n0, n0 + 3));
            } else if next_in(m1, frames as nat, p3 as int, p3_index_of(page@)) is None {
                assert(next_in(m2, frames as nat, p2 as int, p2_index_of(page@)) is None);
                assert(m1 == m0);
                assert(a3 == a0.push(Frame { number: p2, num_pages: 1 }).push(Frame { number: created, num_pages: 1 }));
                assert(a3.subrange(n0, a3.len() as int) =~= seq![
                    Frame { number: p2, num_pages: 1 },
                    Frame { number: created, num_pages: 1 },
                ]);
            } else if next_in(m2, frames as nat, p2 as int, p2_index_of(page@)) is None {
                assert(m1 == m0 && m2 == m0);
                assert(a3 == a0.push(Frame { number: created, num_pages: 1 }));
                assert(a3.subrange(n0, a3.len() as int) =~= seq![Frame { number: created, num_pages: 1 }]);
            } else {
                assert(m1 == m0 && m2 == m0);
            }
            if next_in(m0, frames as nat, p4 as int, p4_index_of(page@)) is None {
                assert forall|i: int| 0 <= i < 512 && i != p1_index_of(page@) implies #[trigger] entry_in(
                    self.mem(),
                    p1 as int,
                    i,
                ) == 0 by {
                    lemma_slot(created as int, i, frames);
                    assert(entry_in(m3, created as int, i) == 0);
                }
            }
        }
        Ok(())
    }

    /// Maps `page` to a fresh frame from `allocator`.
    pub fn map<A: FrameAllocator>(&mut self, page: Page, flags: EntryFlags, allocator: &mut A) -> (r: Result<(), MapError>)
        requires
            old(self).wf(),
            old(allocator).inv(),
            flags.wf(),
            mappable(old(self).mem(), old(self).frames(), old(self).p4(), page@),
        ensures
            final(self).wf(),
            final(self).p4() == old(self).p4(),
            final(self).frames() == old(self).frames(),
            final(allocator).inv(),
            extends(final(allocator).handed(), old(allocator).handed()),
            r is Ok ==> final(allocator).handed().len() > old(allocator).handed().len() && final(self).frame_of_page(
                page,
            ) == Some(final(allocator).handed()[old(allocator).handed().len() as int].number as u64)
                && final(allocator).handed()[old(allocator).handed().len() as int].number < FRAME_LIMIT,
    {
        let ghost a0 = allocator.handed();
        let frame = allocator.allocate(1);
        proof {
            if frame is Some {
                lemma_extends_push(a0, frame->Some_0);
            } else {
                lemma_extends_refl(a0);
            }
        }
        let ghost a1 = allocator.handed();
        let r = self.map_frame(page, frame, flags, allocator);
        proof {
            lemma_extends_trans(allocator.handed(), a1, a0);
            if r is Ok {
                assert(allocator.handed().subrange(0, a1.len() as int) == a1);
                assert(allocator.handed()[a0.len() as int] == allocator.handed().subrange(0, a1.len() as int)[a0.len() as int]);
            }
        }
        r
    }

    /// Maps `page` to `frame`, the allocator's answer to a request for one
    /// frame, as `map_to` does.
    pub fn map_frame<A: FrameAllocator>(
        &mut self,
        page: Page,
        frame: Option<Frame>,
        flags: EntryFlags,
        allocator: &mut A,
    ) -> (r: Result<(), MapError>)
        requires
            old(self).wf(),
            old(allocator).inv(),
            flags.wf(),
            mappable(old(self).mem(), old(self).frames(), old(self).p4(), page@),
        ensures
            final(self).wf(),
            final(self).p4() == old(self).p4(),
            final(self).frames() == old(self).frames(),
            final(allocator).inv(),
            extends(final(allocator).handed(), old(allocator).handed()),
            frame is None ==> r == Err::<(), MapError>(MapError::OutOfFrames) && final(self).mem() == old(self).mem()
                && *final(allocator) == *old(allocator),
            frame matches Some(f) && f.number >= FRAME_LIMIT ==> r == Err::<(), MapError>(MapError::FrameOutOfRange)
                && final(self).mem() == old(self).mem() && *final(allocator) == *old(allocator),
            frame matches Some(f) ==> (f.number < FRAME_LIMIT && p1_table(
                old(self).mem(),
                old(self).frames(),
                old(self).p4(),
                page@,
            ) is Some ==> r is Ok),
            frame matches Some(f) ==> (r is Ok ==> final(self).frame_of_page(page) == Some(f.number as u64)
                && f.number < FRAME_LIMIT),
    {
        proof {
            lemma_extends_refl(allocator.handed());
        }
        let frame = match frame {
            Some(frame) => frame,
            None => return Err(MapError::OutOfFrames),
        };
        if frame.number as u64 >= FRAME_LIMIT {
            return Err(MapError::FrameOutOfRange);
        }
        self.map_to(page, frame, flags, allocator)
    }

    /// Maps the page at the same address as `frame` to `frame`.
    pub fn identity_map<A: FrameAllocator>(
        &mut self,
        frame: Frame,
        flags: EntryFlags,
        allocator: &mut A,
    ) -> (r: Result<(), MapError>)
        requires
            old(self).wf(),
            old(allocator).inv(),
            flags.wf(),
            frame.number < 0x8_0000_0000,
            mappable(old(self).mem(), old(self).frames(), old(self).p4(), frame.number as u64),
        ensures
            final(self).wf(),
            final(self).p4() == old(self).p4(),
            final(self).frames() == old(self).frames(),
            final(allocator).inv(),
            r is Ok ==> page_frame(final(self).mem(), final(self).frames(), final(self).p4(), frame.number as u64)
                == Some(frame.number as u64),
            p1_table(old(self).mem(), old(self).frames(), old(self).p4(), frame.number as u64) is Some ==> r is Ok,
            walk_blocked(old(self).mem(), old(self).frames(), old(self).p4(), frame.number as u64) ==> r == Err::<
                (),
                MapError,
            >(MapError::FrameOutOfRange),
    {
        proof {
            assert((frame.number * 4096) / 4096 == frame.number) by (nonlinear_arith);
        }
        let page = Page::from_address(frame.start_address());
        self.map_to(page, frame, flags, allocator)
    }

    /// Clears the entry that maps `page` and returns the address whose
    /// cached mapping must then be invalidated. The frame stays with the caller.
    pub fn unmap<A: FrameAllocator>(&mut self, page: Page, allocator: &mut A) -> (r: VirtualAddress)
        requires
            old(self).wf(),
            page.wf(),
            p1_table(old(self).mem(), old(self).frames(), old(self).p4(), page@) is Some,
        ensures
            final(self).wf(),
            final(self).p4() == old(self).p4(),
            final(self).frames() == old(self).frames(),
            final(self).frame_of_page(page) is None,
            final(self).mem() == old(self).mem().update(
                p1_table(old(self).mem(), old(self).frames(), old(self).p4(), page@)->Some_0 * 512
                    + p1_index_of(page@),
                0,
            ),
            r == page@ * 4096,
            *final(allocator) == *old(allocator),
    {
        let p1 = match self.p1_frame(page) {
            Some(p1) => p1,
            None => return page.start_address(),
        };
        proof {
            lemma_walk_after_clear(self.mem(), self.frames(), self.p4(), p1 as int, page@);
        }
        self.write_entry(p1, page.p1_index(), 0);
        page.start_address()
    }
}

/// Writing into an unused entry of the level-1 table keeps the walk to it.
proof fn lemma_walk_after_write(mem: Seq<u64>, frames: nat, p4: int, p1: int, i1: int, w: u64, number: u64)
    requires
        mem.len() == frames * 512,
        0 <= p4 < frames,
        p1_table(mem, frames, p4, number) == Some(p1),
        i1 == p1_index_of(number),
        entry_in(mem, p1, i1) == 0,
    ensures
        p1_table(mem.update(p1 * 512 + i1, w), frames, p4, number) == Some(p1),
        entry_in(mem.update(p1 * 512 + i1, w), p1, i1) == w,
{
    let m = mem.update(p1 * 512 + i1, w);
    assert(!is_present(0)) by (bit_vector);
    let p3 = next_in(mem, frames, p4, p4_index_of(number))->Some_0;
    let p2 = next_in(mem, frames, p3, p3_index_of(number))->Some_0;
    lemma_slot(p4, p4_index_of(number), frames as int);
    lemma_slot(p3, p3_index_of(number), frames as int);
    lemma_slot(p2, p2_index_of(number), frames as int);
    lemma_slot(p1, i1, frames as int);
    assert(entry_in(m, p4, p4_index_of(number)) == entry_in(mem, p4, p4_index_of(number)));
    assert(entry_in(m, p3, p3_index_of(number)) == entry_in(mem, p3, p3_index_of(number)));
    assert(entry_in(m, p2, p2_index_of(number)) == entry_in(mem, p2, p2_index_of(number)));
}

/// Once a level-1 entry of the walk is written, the walk's tables are as before.
pub(crate) proof fn lemma_walk_kept_by_map(mem: Seq<u64>, frames: nat, p4: int, p1: int, number: u64, w: u64)
    requires
        mem.len() == frames * 512,
        0 <= p4 < frames,
        p1_table(mem, frames, p4, number) == Some(p1),
        entry_in(mem, p1, p1_index_of(number)) == 0,
    ensures
        ({
            let m1 = mem.update(p1 * 512 + p1_index_of(number), w);
            &&& p1_table(m1, frames, p4, number) == Some(p1)
            &&& next_in(m1, frames, p4, p4_index_of(number)) == next_in(mem, frames, p4, p4_index_of(number))
            &&& next_in(m1, frames, p4, p4_index_of(number)) matches Some(p3) && next_in(
                m1,
                frames,
                p3,
                p3_index_of(number),
            ) == next_in(mem, frames, p3, p3_index_of(number))
        }),
{
    let m1 = mem.update(p1 * 512 + p1_index_of(number), w);
    lemma_walk_after_write(mem, frames, p4, p1, p1_index_of(number), w, number);
    assert(!is_present(0)) by (bit_vector);
    let p3 = next_in(mem, frames, p4, p4_index_of(number))->Some_0;
    lemma_slot(p4, p4_index_of(number), frames as int);
    lemma_slot(p3, p3_index_of(number), frames as int);
    lemma_slot(p1, p1_index_of(number), frames as int);
    assert(entry_in(m1, p4, p4_index_of(number)) == entry_in(mem, p4, p4_index_of(number)));
    assert(entry_in(m1, p3, p3_index_of(number)) == entry_in(mem, p3, p3_index_of(number)));
}

/// Clearing the entry of the level-1 table unmaps the page, whichever table
/// the slot belongs to.
proof fn lemma_walk_after_clear(mem: Seq<u64>, frames: nat, p4: int, p1: int, number: u64)
    requires
        mem.len() == frames * 512,
        0 <= p4 < frames,
        p1_table(mem, frames, p4, number) == Some(p1),
    ensures
        page_frame(mem.update(p1 * 512 + p1_index_of(number), 0), frames, p4, number) is None,
{
    let i1 = p1_index_of(number);
    let m = mem.update(p1 * 512 + i1, 0);
    assert(!is_present(0)) by (bit_vector);
    let p3 = next_in(mem, frames, p4, p4_index_of(number))->Some_0;
    let p2 = next_in(mem, frames, p3, p3_index_of(number))->Some_0;
    lemma_slot(p4, p4_index_of(number), frames as int);
    lemma_slot(p3, p3_index_of(number), frames as int);
    lemma_slot(p2, p2_index_of(number), frames as int);
    lemma_slot(p1, i1, frames as int);
    if p4 * 512 + p4_index_of(number) != p1 * 512 + i1 {
        assert(entry_in(m, p4, p4_index_of(number)) == entry_in(mem, p4, p4_index_of(number)));
        if p3 * 512 + p3_index_of(number) != p1 * 512 + i1 {
            assert(entry_in(m, p3, p3_index_of(number)) == entry_in(mem, p3, p3_index_of(number)));
            if p2 * 512 + p2_index_of(number) != p1 * 512 + i1 {
                assert(entry_in(m, p2, p2_index_of(number)) == entry_in(mem, p2, p2_index_of(number)));
                assert(entry_in(m, p1, i1) == 0);
            } else {
                assert(entry_in(m, p2, p2_index_of(number)) == 0);
            }
        } else {
            assert(entry_in(m, p3, p3_index_of(number)) == 0);
        }
    } else {
        assert(entry_in(m, p4, p4_index_of(number)) == 0);
    }
}

/// Every address of a mapped page translates to the same offset in its frame.
pub proof fn lemma_translate_mapped(mem: Seq<u64>, frames: nat, p4: int, number: u64, frame: u64, offset: u64)
    requires
        page_frame(mem, frames, p4, number) == Some(frame),
        number <= 0xF_FFFF_FFFF_FFFF,
        frame < 0x100_0000_0000,
        offset < 4096,
    ensures
        translated(mem, frames, p4, (number * 4096 + offset) as u64) == Some((frame * 4096 + offset) as u64),
{
    let a = number * 4096 + offset;
    assert(a / 4096 == number && a % 4096 == offset) by (nonlinear_arith)
        requires
            a == number * 4096 + offset,
            0 <= offset < 4096,
    ;
}

/// No address of an unmapped page translates.
pub proof fn lemma_translate_unmapped(mem: Seq<u64>, frames: nat, p4: int, number: u64, offset: u64)
    requires
        page_frame(mem, frames, p4, number) is None,
        number <= 0xF_FFFF_FFFF_FFFF,
        offset < 4096,
    ensures
        translated(mem, frames, p4, (number * 4096 + offset) as u64) is None,
{
    let a = number * 4096 + offset;
    assert(a / 4096 == number) by (nonlinear_arith)
        requires
            a == number * 4096 + offset,
            0 <= offset < 4096,
    ;
}

/// Slots of two different tables are different cells, and a slot of one
/// table lies outside the other.
proof fn lemma_slot_other_table(t: int, i: int, f: int, frames: int)
    requires
        t != f,
        0 <= i < 512,
        0 <= t < frames,
        0 <= f < frames,
    ensures
        !(f * 512 <= t * 512 + i < f * 512 + 512),
        0 <= t * 512 + i < frames * 512,
{
    lemma_slot(t, i, frames);
    if f * 512 <= t * 512 + i && t * 512 + i < f * 512 + 512 {
        assert(t == f) by (nonlinear_arith)
            requires
                f * 512 <= t * 512 + i,
                t * 512 + i < f * 512 + 512,
                0 <= i < 512,
        ;
    }
}

pub(crate) proof fn lemma_slot_in(table: int, index: int, frames: int)
    requires
        0 <= table < frames,
        0 <= index < 512,
    ensures
        0 <= table * 512 + index < frames * 512,
{
    lemma_slot(table, index, frames);
}

proof fn lemma_slot(table: int, index: int, frames: int)
    requires
        0 <= table < frames,
        0 <= index < 512,
    ensures
        0 <= table * 512 + index < frames * 512,
{
    assert(table * 512 + index < frames * 512) by (nonlinear_arith)
        requires
            table < frames,
            index < 512,
    ;
}

} // verus!
