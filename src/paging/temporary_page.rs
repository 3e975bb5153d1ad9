//! A scratch page of virtual memory, with a stash of three frames for the
//! tables its mapping may need.
use vstd::prelude::*;
use crate::frame::{Frame, FrameAllocator};
use crate::paging::entry::{entry_word, EntryFlags, FRAME_LIMIT, PRESENT, WRITABLE};
use crate::paging::mapper::{mappable, missing_tables, p1_table, walk_blocked, MapError, Mapper};
use crate::paging::{p1_index_of, walk_avoids, Page, VirtualAddress};

verus! {

/// Number of frames the stash holds: one table per level below the top.
pub const STASH_FRAMES: usize = 3;

/// A fixed stash of one-page frames.
pub struct TinyAllocator {
    frames: Vec<Option<Frame>>,
    handed: Ghost<Seq<Frame>>,
}

impl TinyAllocator {
    /// The frames handed out so far, oldest first.
    pub closed spec fn handed_out(&self) -> Seq<Frame> {
        self.handed@
    }

    /// The frames in the stash's slots.
    pub closed spec fn slots(&self) -> Seq<Option<Frame>> {
        self.frames@
    }

    /// A stash filled with three one-page frames from `allocator` (fewer
    /// when it runs out).
    pub fn new<A: FrameAllocator>(allocator: &mut A) -> (r: TinyAllocator)
        requires
            old(allocator).inv(),
        ensures
            final(allocator).inv(),
            r.inv(),
    {
        let mut frames: Vec<Option<Frame>> = Vec::new();
        while frames.len() < STASH_FRAMES
            invariant
                allocator.inv(),
                frames.len() <= STASH_FRAMES,
                forall|i: int| 0 <= i < frames.len() ==> (#[trigger] frames@[i] matches Some(f) ==> f.num_pages == 1),
            decreases STASH_FRAMES - frames.len(),
        {
            let frame = allocator.allocate(1);
            frames.push(frame);
        }
        TinyAllocator { frames, handed: Ghost(Seq::empty()) }
    }
}

/// `i` is the first filled slot of `slots`.
pub open spec fn first_filled(slots: Seq<Option<Frame>>, i: int) -> bool {
    &&& 0 <= i < slots.len()
    &&& slots[i] is Some
    &&& forall|j: int| 0 <= j < i ==> #[trigger] slots[j] is None
}

/// `i` is the first empty slot of `slots`.
pub open spec fn first_empty(slots: Seq<Option<Frame>>, i: int) -> bool {
    &&& 0 <= i < slots.len()
    &&& slots[i] is None
    &&& forall|j: int| 0 <= j < i ==> #[trigger] slots[j] is Some
}

/// The frame of the first filled slot, if any.
pub open spec fn first_frame(slots: Seq<Option<Frame>>) -> Option<Frame>
    decreases slots.len(),
{
    if slots.len() == 0 {
        None
    } else if slots[0] is Some {
        slots[0]
    } else {
        first_frame(slots.drop_first())
    }
}

proof fn lemma_first_frame(slots: Seq<Option<Frame>>)
    ensures
        forall|i: int| first_filled(slots, i) ==> first_frame(slots) == slots[i],
        (forall|i: int| 0 <= i < slots.len() ==> #[trigger] slots[i] is None) ==> first_frame(slots) is None,
    decreases slots.len(),
{
    if slots.len() > 0 {
        let rest = slots.drop_first();
        lemma_first_frame(rest);
        assert forall|i: int| first_filled(slots, i) implies first_frame(slots) == slots[i] by {
            if i > 0 {
                assert(slots[0] is None);
                assert(first_filled(rest, i - 1)) by {
                    assert forall|j: int| 0 <= j < i - 1 implies #[trigger] rest[j] is None by {
                        assert(rest[j] == slots[j + 1]);
                    }
                }
            }
        }
        if forall|i: int| 0 <= i < slots.len() ==> #[trigger] slots[i] is None {
            assert(slots[0] is None);
            assert forall|i: int| 0 <= i < rest.len() implies #[trigger] rest[i] is None by {
                assert(rest[i] == slots[i + 1]);
            }
        }
    }
}

impl TinyAllocator {
    /// Takes the frame of the first filled slot; only one-page requests are served.
    pub fn take_frame(&mut self, num_pages: usize) -> (r: Option<Frame>)
        requires
            old(self).inv(),
        ensures
            final(self).inv(),
            num_pages != 1 ==> r is None && final(self).slots() == old(self).slots(),
            num_pages == 1 ==> (forall|i: int| first_filled(old(self).slots(), i) ==> r == old(self).slots()[i]
                && final(self).slots() == old(self).slots().update(i, None)),
            num_pages == 1 ==> ((forall|i: int| 0 <= i < old(self).slots().len() ==> #[trigger] old(self).slots()[i]
                is None) ==> r is None && final(self).slots() == old(self).slots()),
            r matches Some(f) ==> final(self).handed_out() == old(self).handed_out().push(f),
            r is None ==> final(self).handed_out() == old(self).handed_out(),
            r == (if num_pages == 1 {
                first_frame(old(self).slots())
            } else {
                None
            }),
    {
        proof {
            lemma_first_frame(self.frames@);
        }
        if num_pages != 1 {
            return None;
        }
        let mut i: usize = 0;
        while i < STASH_FRAMES
            invariant
                self.inv(),
                *self == *old(self),
                num_pages == 1,
                i <= STASH_FRAMES,
                forall|j: int| 0 <= j < i ==> #[trigger] self.frames@[j] is None,
            decreases STASH_FRAMES - i,
        {
            if self.frames[i].is_some() {
                let frame = self.frames[i];
                self.frames.set(i, None);
                self.handed = Ghost(self.handed@.push(frame->Some_0));
                proof {
                    assert(first_filled(old(self).slots(), i as int));
                    lemma_first_frame(old(self).slots());
                    assert(first_frame(old(self).slots()) == old(self).slots()[i as int]);
                    assert forall|k: int| first_filled(old(self).slots(), k) implies k == i by {
                        if k < i {
                        } else if k > i {
                            assert(old(self).slots()[i as int] is None);
                        }
                    }
                }
                return frame;
            }
            i = i + 1;
        }
        None
    }

    /// Puts a one-page frame in the first empty slot; other frames, or a full
    /// stash, leave the slots as they are.
    pub fn return_frame(&mut self, frame: Frame)
        requires
            old(self).inv(),
        ensures
            final(self).inv(),
            frame.num_pages != 1 ==> final(self).slots() == old(self).slots(),
            frame.num_pages == 1 ==> (forall|i: int| first_empty(old(self).slots(), i) ==> final(self).slots()
                == old(self).slots().update(i, Some(frame))),
            (forall|i: int| 0 <= i < old(self).slots().len() ==> #[trigger] old(self).slots()[i] is Some)
                ==> (final(self).slots() == old(self).slots()),
            final(self).handed_out() == old(self).handed_out(),
    {
        if frame.num_pages != 1 {
            return;
        }
        let mut i: usize = 0;
        while i < STASH_FRAMES
            invariant
                self.inv(),
                *self == *old(self),
                frame.num_pages == 1,
                i <= STASH_FRAMES,
                forall|j: int| 0 <= j < i ==> #[trigger] self.frames@[j] is Some,
            decreases STASH_FRAMES - i,
        {
            if self.frames[i].is_none() {
                self.frames.set(i, Some(frame));
                proof {
                    assert forall|k: int| first_empty(old(self).slots(), k) implies k == i by {
                        if k > i {
                            assert(old(self).slots()[i as int] is Some);
                        }
                    }
                }
                return;
            }
            i = i + 1;
        }
    }
}

impl FrameAllocator for TinyAllocator {
    closed spec fn inv(&self) -> bool {
        &&& self.frames@.len() == STASH_FRAMES
        &&& forall|i: int| 0 <= i < STASH_FRAMES ==> (#[trigger] self.frames@[i] matches Some(f) ==> f.num_pages == 1)
    }

    closed spec fn handed(&self) -> Seq<Frame> {
        self.handed@
    }

    /// Every frame is accepted; frames of more than one page are dropped.
    closed spec fn takes_back(&self, frame: Frame) -> bool {
        true
    }

    closed spec fn next_frame(&self, num_pages: usize) -> Option<Frame> {
        if num_pages == 1 {
            first_frame(self.frames@)
        } else {
            None
        }
    }

    fn allocate(&mut self, num_pages: usize) -> (r: Option<Frame>) {
        self.take_frame(num_pages)
    }

    fn deallocate(&mut self, frame: Frame) {
        self.return_frame(frame)
    }
}

pub struct TemporaryPage {
    page: Page,
    allocator: TinyAllocator,
}

impl TemporaryPage {
    /// The scratch page.
    pub closed spec fn page(&self) -> Page {
        self.page
    }

    /// The frames in the stash's slots.
    pub closed spec fn stash(&self) -> Seq<Option<Frame>> {
        self.allocator.slots()
    }

    /// The scratch page.
    pub fn scratch(&self) -> (r: Page)
        ensures
            r == self.page(),
    {
        self.page
    }

    pub closed spec fn wf(&self) -> bool {
        self.allocator.inv() && self.page.wf()
    }

    /// A scratch slot at `page` whose stash is filled from `allocator`.
    pub fn new<A: FrameAllocator>(page: Page, allocator: &mut A) -> (r: TemporaryPage)
        requires
            old(allocator).inv(),
            page.wf(),
        ensures
            final(allocator).inv(),
            r.wf(),
            r.page() == page,
    {
        TemporaryPage { page, allocator: TinyAllocator::new(allocator) }
    }

    /// Maps the scratch page to `frame` in `mapper`, with the stash for the
    /// tables it needs, and returns the scratch page's address. The scratch
    /// page must not be mapped already.
    pub fn map(&mut self, frame: Frame, mapper: &mut Mapper) -> (r: Result<VirtualAddress, MapError>)
        requires
            old(self).wf(),
            old(mapper).wf(),
            frame.number < FRAME_LIMIT as int,
            mappable(old(mapper).mem(), old(mapper).frames(), old(mapper).p4(), old(self).page()@),
        ensures
            final(self).wf(),
            final(self).page() == old(self).page(),
            final(mapper).wf(),
            final(mapper).p4() == old(mapper).p4(),
            final(mapper).frames() == old(mapper).frames(),
            r matches Ok(a) ==> a == old(self).page()@ * 4096 && final(mapper).frame_of_page(old(self).page())
                == Some(frame.number as u64),
            p1_table(old(mapper).mem(), old(mapper).frames(), old(mapper).p4(), old(self).page()@) matches Some(p1)
                ==> r == Ok::<VirtualAddress, MapError>((old(self).page()@ * 4096) as u64) && final(mapper).mem() == old(
                mapper,
            ).mem().update(
                p1 * 512 + p1_index_of(old(self).page()@),
                entry_word(frame.number as u64, WRITABLE | PRESENT),
            ),
            (missing_tables(old(mapper).mem(), old(mapper).frames(), old(mapper).p4(), old(self).page()@) == 1
                && !walk_blocked(old(mapper).mem(), old(mapper).frames(), old(mapper).p4(), old(self).page()@))
                ==> (first_frame(old(self).stash()) matches Some(f) ==> (f.number < old(mapper).frames()
                && walk_avoids(
                old(mapper).mem(),
                old(mapper).frames(),
                old(mapper).p4(),
                old(self).page()@,
                f.number as int,
            ) ==> r == Ok::<VirtualAddress, MapError>((old(self).page()@ * 4096) as u64))),
    {
        proof {
            assert((2u64 & 0x8000_0000_0000_01FFu64) == 2u64) by (bit_vector);
        }
        match mapper.map_to(self.page, frame, EntryFlags::from_bits_truncate(WRITABLE), &mut self.allocator) {
            Ok(()) => Ok(self.page.start_address()),
            Err(e) => Err(e),
        }
    }

    /// Unmaps the scratch page and returns the address whose cached mapping
    /// must then be invalidated.
    pub fn unmap(&mut self, mapper: &mut Mapper) -> (r: VirtualAddress)
        requires
            old(self).wf(),
            old(mapper).wf(),
            p1_table(old(mapper).mem(), old(mapper).frames(), old(mapper).p4(), old(self).page()@) is Some,
        ensures
            final(self).wf(),
            final(self).page() == old(self).page(),
            final(mapper).wf(),
            final(mapper).p4() == old(mapper).p4(),
            final(mapper).frames() == old(mapper).frames(),
            final(mapper).frame_of_page(old(self).page()) is None,
            final(mapper).mem() == old(mapper).mem().update(
                p1_table(old(mapper).mem(), old(mapper).frames(), old(mapper).p4(), old(self).page()@)->Some_0
                    * 512 + p1_index_of(old(self).page()@),
                0,
            ),
            r == old(self).page()@ * 4096,
    {
        mapper.unmap(self.page, &mut self.allocator)
    }
}

} // verus!
