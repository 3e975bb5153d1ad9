//! Four-level x86-64 paging: entries, tables, pages and the mapper.
use vstd::prelude::*;
use crate::frame::Frame;
use crate::paging::entry::{entry_word, Entry, EntryFlags, PRESENT, WRITABLE};
use crate::paging::mapper::{entry_in, mappable, next_in, p1_table, page_frame, MapError, Mapper, MAX_TABLE_FRAMES, RECURSIVE_INDEX};
use crate::paging::temporary_page::TemporaryPage;

pub mod entry;
pub mod mapper;
pub mod table;
pub mod temporary_page;

verus! {

/// A virtual address: bits 0-11 are the offset in the page, bits 12-47 the
/// four table indices, bits 48-63 copies of bit 47.
pub type VirtualAddress = u64;

/// A physical address: bits 12-51 name the frame.
pub type PhysicalAddress = u64;

/// Bit 47 is copied into bits 48-63: the lower or the higher half.
pub open spec fn is_canonical(address: u64) -> bool {
    address < 0x0000_8000_0000_0000 || address >= 0xFFFF_8000_0000_0000
}

pub open spec fn p4_index_of(number: u64) -> int {
    ((number / 0x800_0000) % 512) as int
}

pub open spec fn p3_index_of(number: u64) -> int {
    ((number / 0x4_0000) % 512) as int
}

pub open spec fn p2_index_of(number: u64) -> int {
    ((number / 0x200) % 512) as int
}

pub open spec fn p1_index_of(number: u64) -> int {
    (number % 512) as int
}

/// One 4 KiB page of virtual memory.
#[derive(PartialEq, Eq, Structural, Clone, Copy, Debug)]
pub struct Page {
    number: u64,
}

impl View for Page {
    type V = u64;

    closed spec fn view(&self) -> u64 {
        self.number
    }
}

impl Page {
    /// Every page number that an address yields.
    pub open spec fn wf(&self) -> bool {
        self@ <= 0xF_FFFF_FFFF_FFFF
    }

    /// The page that holds `address`, which must be canonical.
    pub fn from_address(address: VirtualAddress) -> (r: Page)
        requires
            is_canonical(address),
        ensures
            r@ == address / 4096,
            r.wf(),
    {
        Page { number: address / 4096 }
    }

    /// The address of the first byte of the page.
    pub fn start_address(&self) -> (r: VirtualAddress)
        requires
            self.wf(),
        ensures
            r == self@ * 4096,
    {
        self.number * 4096
    }

    pub fn p4_index(&self) -> (r: usize)
        ensures
            r == p4_index_of(self@),
            r < 512,
    {
        ((self.number / 0x800_0000) % 512) as usize
    }

    pub fn p3_index(&self) -> (r: usize)
        ensures
            r == p3_index_of(self@),
            r < 512,
    {
        ((self.number / 0x4_0000) % 512) as usize
    }

    pub fn p2_index(&self) -> (r: usize)
        ensures
            r == p2_index_of(self@),
            r < 512,
    {
        ((self.number / 0x200) % 512) as usize
    }

    pub fn p1_index(&self) -> (r: usize)
        ensures
            r == p1_index_of(self@),
            r < 512,
    {
        (self.number % 512) as usize
    }
}


/// The hierarchy that the CPU walks now.
pub struct ActivePageTable {
    pub mapper: Mapper,
}

/// A level-4 table, zeroed and mapping itself, that the CPU does not walk.
pub struct InactivePageTable {
    p4_frame: Frame,
}

/// The word that makes a table in frame `number` map itself.
pub open spec fn recursive_word(number: u64) -> u64 {
    entry_word(number, PRESENT | WRITABLE)
}

/// The recursive entry for the table in frame `number`.
fn recursive_entry(number: usize) -> (r: u64)
    requires
        number < MAX_TABLE_FRAMES,
    ensures
        r == recursive_word(number as u64),
{
    let mut entry = Entry(0);
    entry.set(Frame { number, num_pages: 1 }, EntryFlags::from_bits_truncate(PRESENT | WRITABLE));
    proof {
        assert((3u64 & 0x8000_0000_0000_01FFu64) == 3u64) by (bit_vector);
        assert((1u64 | 2u64) == 3u64) by (bit_vector);
    }
    entry.0
}

proof fn lemma_slots_apart(f: int, i: int, g: int, j: int)
    requires
        f != g,
        0 <= i < 512,
        0 <= j < 512,
    ensures
        f * 512 + i != g * 512 + j,
{
    if f * 512 + i == g * 512 + j {
        assert(f == g) by (nonlinear_arith)
            requires
                f * 512 + i == g * 512 + j,
                0 <= i < 512,
                0 <= j < 512,
        ;
    }
}

impl ActivePageTable {
    pub open spec fn wf(&self) -> bool {
        self.mapper.wf()
    }

    /// The active hierarchy in `frames` frames of table memory, rooted at
    /// `p4_frame`.
    pub fn new(p4_frame: usize, frames: usize) -> (r: ActivePageTable)
        requires
            p4_frame < frames <= MAX_TABLE_FRAMES,
        ensures
            r.wf(),
            r.mapper.p4() == p4_frame,
            r.mapper.frames() == frames,
    {
        ActivePageTable { mapper: Mapper::new(p4_frame, frames) }
    }

    /// Points the active recursive entry at `inactive`, keeping the active
    /// level-4 table reachable through the scratch page, and returns that
    /// table's frame. From here on the mapper edits the inactive hierarchy;
    /// the whole TLB must be flushed before it is used.
    pub fn switch_to(&mut self, inactive: &InactivePageTable, temporary_page: &mut TemporaryPage) -> (r: Result<
        Frame,
        MapError,
    >)
        requires
            old(self).wf(),
            old(temporary_page).wf(),
            mappable(
                old(self).mapper.mem(),
                old(self).mapper.frames(),
                old(self).mapper.p4(),
                old(temporary_page).page()@,
            ),
        ensures
            final(self).wf(),
            final(temporary_page).wf(),
            final(temporary_page).page() == old(temporary_page).page(),
            final(self).mapper.frames() == old(self).mapper.frames(),
            r matches Ok(backup) ==> {
                &&& backup.number == old(self).mapper.p4()
                &&& backup.num_pages == 1
                &&& final(self).mapper.p4() == inactive.p4_frame().number
                &&& entry_in(final(self).mapper.mem(), backup.number as int, RECURSIVE_INDEX as int)
                    == recursive_word(inactive.p4_frame().number as u64)
                &&& exists|mid: Seq<u64>|
                    #![trigger mid.update(backup.number * 512 + RECURSIVE_INDEX, recursive_word(inactive.p4_frame().number as u64))]
                    page_frame(mid, old(self).mapper.frames(), backup.number as int, old(temporary_page).page()@)
                        == Some(backup.number as u64) && final(self).mapper.mem() == mid.update(
                        backup.number * 512 + RECURSIVE_INDEX,
                        recursive_word(inactive.p4_frame().number as u64),
                    )
            },
            r is Err ==> final(self).mapper.p4() == old(self).mapper.p4(),
            (inactive.p4_frame().number < old(self).mapper.frames() && p1_table(
                old(self).mapper.mem(),
                old(self).mapper.frames(),
                old(self).mapper.p4(),
                old(temporary_page).page()@,
            ) is Some) ==> r is Ok,
    {
        let target = inactive.p4_frame.number;
        if target >= self.mapper.frame_count() {
            return Err(MapError::FrameOutOfRange);
        }
        let backup = Frame { number: self.mapper.p4_frame(), num_pages: 1 };
        match temporary_page.map(backup, &mut self.mapper) {
            Ok(_) => {},
            Err(e) => return Err(e),
        }
        let ghost mid = self.mapper.mem();
        let word = recursive_entry(target);
        self.mapper.write_entry(backup.number, RECURSIVE_INDEX, word);
        self.mapper.set_root(target);
        proof {
            assert(page_frame(mid, self.mapper.frames(), backup.number as int, temporary_page.page()@) == Some(
                backup.number as u64,
            ));
        }
        Ok(backup)
    }

    /// Points the recursive entry of the active table in frame `backup` back
    /// at itself through the scratch page, then unmaps the scratch page and
    /// returns its address. The whole TLB must be flushed afterwards.
    pub fn restore(&mut self, backup: Frame, temporary_page: &mut TemporaryPage) -> (r: Result<u64, MapError>)
        requires
            old(self).wf(),
            old(temporary_page).wf(),
            backup.number < old(self).mapper.frames(),
        ensures
            final(self).wf(),
            final(temporary_page).wf(),
            final(self).mapper.frames() == old(self).mapper.frames(),
            final(self).mapper.p4() == backup.number,
            final(temporary_page).page() == old(temporary_page).page(),
            entry_in(final(self).mapper.mem(), backup.number as int, RECURSIVE_INDEX as int) == recursive_word(
                backup.number as u64,
            ),
            r matches Ok(a) ==> {
                &&& a == old(temporary_page).page()@ * 4096
                &&& final(self).mapper.frame_of_page(old(temporary_page).page()) is None
            },
            p1_table(
                old(self).mapper.mem().update(
                    backup.number * 512 + RECURSIVE_INDEX,
                    recursive_word(backup.number as u64),
                ),
                old(self).mapper.frames(),
                backup.number as int,
                old(temporary_page).page()@,
            ) matches Some(p1) ==> (!(p1 == backup.number && p1_index_of(old(temporary_page).page()@)
                == RECURSIVE_INDEX) ==> r is Ok),
    {
        proof {
            crate::paging::mapper::lemma_slot_in(backup.number as int, 511, self.mapper.frames() as int);
        }
        let word = recursive_entry(backup.number);
        self.mapper.write_entry(backup.number, RECURSIVE_INDEX, word);
        self.mapper.set_root(backup.number);
        let page = temporary_page.scratch();
        let slot = match self.mapper.p1_frame(page) {
            Some(p1) => p1,
            None => return Err(MapError::FrameInUse),
        };
        if slot == backup.number && page.p1_index() == RECURSIVE_INDEX {
            return Err(MapError::FrameInUse);
        }
        let ghost m = self.mapper.mem();
        let address = temporary_page.unmap(&mut self.mapper);
        proof {
            lemma_slot_kept(m, slot as int, p1_index_of(page@), backup.number as int, RECURSIVE_INDEX as int);
            crate::paging::mapper::lemma_slot_in(backup.number as int, 511, self.mapper.frames() as int);
            crate::paging::mapper::lemma_slot_in(slot as int, p1_index_of(page@), self.mapper.frames() as int);
            assert(entry_in(m, backup.number as int, RECURSIVE_INDEX as int) == recursive_word(backup.number as u64));
        }
        Ok(address)
    }
}

proof fn lemma_slot_kept(m: Seq<u64>, f: int, i: int, g: int, j: int)
    requires
        0 <= i < 512,
        0 <= j < 512,
        !(f == g && i == j),
    ensures
        f * 512 + i != g * 512 + j,
{
    if f != g {
        lemma_slots_apart(f, i, g, j);
    }
}

/// The frame `f` is none of the tables on the walk to page `number`.
pub open spec fn walk_avoids(mem: Seq<u64>, frames: nat, p4: int, number: u64, f: int) -> bool {
    &&& f != p4
    &&& (next_in(mem, frames, p4, p4_index_of(number)) matches Some(p3) ==> {
        &&& f != p3
        &&& (next_in(mem, frames, p3, p3_index_of(number)) matches Some(p2) ==> {
            &&& f != p2
            &&& (next_in(mem, frames, p2, p2_index_of(number)) matches Some(p1) ==> f != p1)
        })
    })
}

/// A slot of a table other than `f` lies outside table `f`.
proof fn lemma_slot_outside(t: int, i: int, f: int, frames: int)
    requires
        t != f,
        0 <= i < 512,
        0 <= t < frames,
        0 <= f < frames,
    ensures
        !(f * 512 <= t * 512 + i < f * 512 + 512),
        0 <= t * 512 + i < frames * 512,
        0 <= f * 512 + 511 < frames * 512,
{
    crate::paging::mapper::lemma_slot_in(t, i, frames);
    crate::paging::mapper::lemma_slot_in(f, 511, frames);
    if f * 512 <= t * 512 + i && t * 512 + i < f * 512 + 512 {
        assert(t == f) by (nonlinear_arith)
            requires
                f * 512 <= t * 512 + i,
                t * 512 + i < f * 512 + 512,
                0 <= i < 512,
        ;
    }
}

impl InactivePageTable {
    /// The frame of the table.
    pub closed spec fn p4_frame(&self) -> Frame {
        self.p4_frame
    }

    /// Makes `frame` a level-4 table that maps itself: it is mapped at the
    /// scratch page, zeroed, given its recursive entry, and unmapped.
    pub fn new(frame: Frame, active_table: &mut ActivePageTable, temporary_page: &mut TemporaryPage) -> (r: Result<
        InactivePageTable,
        MapError,
    >)
        requires
            old(active_table).wf(),
            old(temporary_page).wf(),
            mappable(
                old(active_table).mapper.mem(),
                old(active_table).mapper.frames(),
                old(active_table).mapper.p4(),
                old(temporary_page).page()@,
            ),
        ensures
            final(active_table).wf(),
            final(temporary_page).wf(),
            (frame.number < old(active_table).mapper.frames() && p1_table(
                old(active_table).mapper.mem(),
                old(active_table).mapper.frames(),
                old(active_table).mapper.p4(),
                old(temporary_page).page()@,
            ) is Some && walk_avoids(
                old(active_table).mapper.mem(),
                old(active_table).mapper.frames(),
                old(active_table).mapper.p4(),
                old(temporary_page).page()@,
                frame.number as int,
            )) ==> r is Ok,
            final(active_table).mapper.p4() == old(active_table).mapper.p4(),
            final(active_table).mapper.frames() == old(active_table).mapper.frames(),
            r matches Ok(t) ==> {
                &&& t.p4_frame() == frame
                &&& forall|i: int|
                    0 <= i < 512 ==> #[trigger] entry_in(final(active_table).mapper.mem(), frame.number as int, i)
                        == if i == RECURSIVE_INDEX {
                        recursive_word(frame.number as u64)
                    } else {
                        0
                    }
                &&& final(active_table).mapper.frame_of_page(old(temporary_page).page()) is None
            },
    {
        if frame.number >= active_table.mapper.frame_count() {
            return Err(MapError::FrameOutOfRange);
        }
        let ghost m0 = active_table.mapper.mem();
        let ghost frames = active_table.mapper.frames();
        let ghost p4 = active_table.mapper.p4();
        match temporary_page.map(frame, &mut active_table.mapper) {
            Ok(_) => {},
            Err(e) => return Err(e),
        }
        let ghost m1 = active_table.mapper.mem();
        active_table.mapper.zero_table(frame.number);
        let word = recursive_entry(frame.number);
        active_table.mapper.write_entry(frame.number, RECURSIVE_INDEX, word);
        let page = temporary_page.scratch();
        proof {
            let f = frame.number as int;
            let m3 = active_table.mapper.mem();
            if p1_table(m0, frames, p4, page@) is Some && walk_avoids(m0, frames, p4, page@, f) {
                let p1 = p1_table(m0, frames, p4, page@)->Some_0;
                let n = page@;
                crate::paging::mapper::lemma_walk_kept_by_map(m0, frames, p4, p1, n, entry_word(frame.number as u64, WRITABLE | PRESENT));
                let p3 = next_in(m1, frames, p4, p4_index_of(n))->Some_0;
                let p2 = next_in(m1, frames, p3, p3_index_of(n))->Some_0;
                lemma_slot_outside(p4, p4_index_of(n), f, frames as int);
                lemma_slot_outside(p3, p3_index_of(n), f, frames as int);
                lemma_slot_outside(p2, p2_index_of(n), f, frames as int);
                assert(entry_in(m3, p4, p4_index_of(n)) == entry_in(m1, p4, p4_index_of(n)));
                assert(entry_in(m3, p3, p3_index_of(n)) == entry_in(m1, p3, p3_index_of(n)));
                assert(entry_in(m3, p2, p2_index_of(n)) == entry_in(m1, p2, p2_index_of(n)));
                assert(p1_table(m3, frames, p4, n) == Some(p1));
            }
        }
        let slot = match active_table.mapper.p1_frame(page) {
            Some(p1) => p1,
            None => return Err(MapError::FrameInUse),
        };
        if slot == frame.number {
            return Err(MapError::FrameInUse);
        }
        let ghost m = active_table.mapper.mem();
        proof {
            assert forall|i: int| 0 <= i < 512 implies #[trigger] entry_in(m, frame.number as int, i) == if i
                == RECURSIVE_INDEX {
                recursive_word(frame.number as u64)
            } else {
                0
            } by {
                crate::paging::mapper::lemma_slot_in(frame.number as int, i, active_table.mapper.frames() as int);
                if i != RECURSIVE_INDEX {
                    lemma_slots_apart(i, 0, 511, 0);
                }
            }
        }
        temporary_page.unmap(&mut active_table.mapper);
        proof {
            assert forall|i: int| 0 <= i < 512 implies #[trigger] entry_in(
                active_table.mapper.mem(),
                frame.number as int,
                i,
            ) == entry_in(m, frame.number as int, i) by {
                lemma_slots_apart(slot as int, p1_index_of(page@), frame.number as int, i);
                crate::paging::mapper::lemma_slot_in(frame.number as int, i, active_table.mapper.frames() as int);
                crate::paging::mapper::lemma_slot_in(slot as int, p1_index_of(page@), active_table.mapper.frames() as int);
            }
        }
        Ok(InactivePageTable { p4_frame: frame })
    }
}
} // verus!
