//! Page-table entries: a 64-bit word holding a frame address and flag bits.
use vstd::prelude::*;
use crate::frame::Frame;

verus! {

/// Bits 12-51: the physical address of the frame or next table.
pub const ADDRESS_MASK: u64 = 0x000F_FFFF_FFFF_F000;

pub const PRESENT: u64 = 0x1;
pub const WRITABLE: u64 = 0x2;
pub const USER_ACCESSIBLE: u64 = 0x4;
pub const WRITE_THROUGH: u64 = 0x8;
pub const NO_CACHE: u64 = 0x10;
pub const ACCESSED: u64 = 0x20;
pub const DIRTY: u64 = 0x40;
pub const HUGE_PAGE: u64 = 0x80;
pub const GLOBAL: u64 = 0x100;
pub const NO_EXECUTE: u64 = 0x8000_0000_0000_0000;

/// Every flag bit an entry knows.
pub const ALL_FLAGS: u64 = 0x8000_0000_0000_01FF;

/// Frames whose start address fits the 52-bit physical address field.
pub const FRAME_LIMIT: u64 = 0x100_0000_0000;

/// A set of entry flags.
#[derive(PartialEq, Eq, Structural, Clone, Copy, Debug)]
pub struct EntryFlags {
    bits: u64,
}

impl View for EntryFlags {
    type V = u64;

    closed spec fn view(&self) -> u64 {
        self.bits
    }
}

impl EntryFlags {
    /// Holds no bit outside the known flags.
    pub open spec fn wf(&self) -> bool {
        self@ & !ALL_FLAGS == 0
    }

    pub fn empty() -> (r: EntryFlags)
        ensures
            r@ == 0,
            r.wf(),
    {
        proof {
            assert(0u64 & !ALL_FLAGS == 0) by (bit_vector);
        }
        EntryFlags { bits: 0 }
    }

    /// The known flags among `bits`.
    pub fn from_bits_truncate(bits: u64) -> (r: EntryFlags)
        ensures
            r@ == bits & ALL_FLAGS,
            r.wf(),
    {
        proof {
            assert((bits & 0x8000_0000_0000_01FF) & !0x8000_0000_0000_01FFu64 == 0) by (bit_vector);
        }
        EntryFlags { bits: bits & ALL_FLAGS }
    }

    pub fn bits(&self) -> (r: u64)
        ensures
            r == self@,
    {
        self.bits
    }

    /// Every flag of `other` is set in `self`.
    pub fn contains(&self, other: EntryFlags) -> (r: bool)
        ensures
            r == (self@ & other@ == other@),
    {
        self.bits & other.bits == other.bits
    }

    /// The flags of both sets.
    pub fn union(&self, other: EntryFlags) -> (r: EntryFlags)
        requires
            self.wf(),
            other.wf(),
        ensures
            r@ == self@ | other@,
            r.wf(),
    {
        let a = self.bits;
        let b = other.bits;
        proof {
            assert(a & !0x8000_0000_0000_01FFu64 == 0 && b & !0x8000_0000_0000_01FFu64 == 0 ==> (a | b)
                & !0x8000_0000_0000_01FFu64 == 0) by (bit_vector);
        }
        EntryFlags { bits: a | b }
    }
}

pub open spec fn is_present(raw: u64) -> bool {
    raw & PRESENT == PRESENT
}

pub open spec fn is_huge(raw: u64) -> bool {
    raw & HUGE_PAGE == HUGE_PAGE
}

/// The frame number held in the address bits.
pub open spec fn frame_of(raw: u64) -> u64 {
    (raw & ADDRESS_MASK) / 4096
}

/// The word that maps frame `number` with flag bits `flags`.
pub open spec fn entry_word(number: u64, flags: u64) -> u64 {
    (number << 12u64) | flags
}

/// An entry made of a frame number and known flags gives both back.
pub proof fn lemma_entry_word(number: u64, flags: u64)
    requires
        number < 0x100_0000_0000,
        flags & !ALL_FLAGS == 0,
    ensures
        frame_of(entry_word(number, flags)) == number,
        is_present(entry_word(number, flags)) == (flags & PRESENT == PRESENT),
        is_huge(entry_word(number, flags)) == (flags & HUGE_PAGE == HUGE_PAGE),
        entry_word(number, flags) & ALL_FLAGS == flags,
        flags & PRESENT == PRESENT ==> entry_word(number, flags) != 0,
{
    assert(number < 0x100_0000_0000 && flags & !0x8000_0000_0000_01FFu64 == 0 ==> (((number << 12u64)
        | flags) & 0x000F_FFFF_FFFF_F000u64) / 4096 == number) by (bit_vector);
    assert(number < 0x100_0000_0000 && flags & !0x8000_0000_0000_01FFu64 == 0 ==> (((number << 12u64)
        | flags) & 1u64 == 1u64) == (flags & 1u64 == 1u64)) by (bit_vector);
    assert(number < 0x100_0000_0000 && flags & !0x8000_0000_0000_01FFu64 == 0 ==> (((number << 12u64)
        | flags) & 0x80u64 == 0x80u64) == (flags & 0x80u64 == 0x80u64)) by (bit_vector);
    assert(number < 0x100_0000_0000 && flags & !0x8000_0000_0000_01FFu64 == 0 ==> ((number << 12u64)
        | flags) & 0x8000_0000_0000_01FFu64 == flags) by (bit_vector);
    assert(flags & 1u64 == 1u64 ==> ((number << 12u64) | flags) != 0) by (bit_vector);
}

/// One entry of a page table.
#[derive(PartialEq, Eq, Structural, Clone, Copy, Debug)]
pub struct Entry(pub u64);

impl Entry {
    /// The whole word is zero.
    pub fn is_unused(&self) -> (r: bool)
        ensures
            r == (self.0 == 0),
    {
        self.0 == 0
    }

    pub fn set_unused(&mut self)
        ensures
            final(self).0 == 0,
    {
        self.0 = 0;
    }

    /// The flag bits of the entry.
    pub fn flags(&self) -> (r: EntryFlags)
        ensures
            r@ == self.0 & ALL_FLAGS,
            r.wf(),
    {
        EntryFlags::from_bits_truncate(self.0)
    }

    /// The one-page frame that the entry points at, if it is present.
    pub fn frame_pointer(&self) -> (r: Option<Frame>)
        ensures
            r == (if is_present(self.0) {
                Some(Frame { number: frame_of(self.0) as usize, num_pages: 1 })
            } else {
                None
            }),
    {
        if self.0 & PRESENT == PRESENT {
            Some(Frame { number: ((self.0 & ADDRESS_MASK) / 4096) as usize, num_pages: 1 })
        } else {
            None
        }
    }

    /// Points the entry at `frame` with `flags`.
    pub fn set(&mut self, frame: Frame, flags: EntryFlags)
        requires
            frame.number < FRAME_LIMIT as int,
        ensures
            final(self).0 == entry_word(frame.number as u64, flags@),
    {
        self.0 = ((frame.number as u64) << 12u64) | flags.bits();
    }
}

} // verus!
