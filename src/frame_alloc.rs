//! The frame allocator of the kernel: a buddy tree with the boot regions pinned.
use vstd::prelude::*;
use crate::buddy::{lemma_pow2_pos, lemma_block_fits, lemma_alloc_frames, block_size, tree_wf, lemma_level_for_bound, alloc_offset, alloc_tree, level_for, mark_leaves, pow2, release, free_node, Buddy, Node, LEVELS};
use crate::frame::{Frame, FrameAllocator, PAGE_SIZE};

verus! {

/// Bytes covered by the allocator's arena.
pub const ARENA_BYTES: usize = 4194304;

/// Frames of the arena.
pub const ARENA_FRAMES: usize = 1024;

/// Number of frames, from `start / PAGE_SIZE` on, that the bytes
/// `[start, end)` touch inside the arena.
pub open spec fn pages_spanned(start: nat, end: nat) -> nat {
    let first = (start / 4096) as int;
    let rounded = ((end + 4095) as int) / 4096;
    let last = if rounded > ARENA_FRAMES { ARENA_FRAMES as int } else { rounded };
    if end <= start || last <= first {
        0
    } else {
        (last - first) as nat
    }
}

/// The tree after the parts inside the arena of the kernel image
/// `[0, kernel_end)` and of the boot information `[multiboot_start,
/// multiboot_end)` are pinned.
pub open spec fn boot_tree(kernel_end: nat, multiboot_start: nat, multiboot_end: nat) -> Seq<Node> {
    let empty = Seq::new((2 * pow2(LEVELS as nat) - 1) as nat, |i: int| Node::Unused);
    let t1 = mark_leaves(empty, LEVELS as nat, 0, pages_spanned(0, kernel_end));
    mark_leaves(t1, LEVELS as nat, multiboot_start / PAGE_SIZE as nat, pages_spanned(multiboot_start, multiboot_end))
}

pub struct Allocator {
    buddy: Buddy,
    handed: Ghost<Seq<Frame>>,
}

impl View for Allocator {
    type V = Seq<Node>;

    closed spec fn view(&self) -> Seq<Node> {
        self.buddy@
    }
}

impl Allocator {
    /// The runs handed out so far, oldest first.
    pub closed spec fn handed_out(&self) -> Seq<Frame> {
        self.handed@
    }

    pub closed spec fn wf(&self) -> bool {
        self.buddy.wf() && self.buddy.levels() == LEVELS
    }

    /// A well-formed allocator holds a well-formed tree of `LEVELS` levels,
    /// so the laws of the buddy tree apply to it.
    pub proof fn lemma_tree_wf(&self)
        requires
            self.wf(),
        ensures
            tree_wf(self@, LEVELS as nat),
    {
    }

    /// Frames, from `start / PAGE_SIZE` on, that the bytes `[start, end)`
    /// touch inside the arena.
    fn pages_between(start: usize, end: usize) -> (r: usize)
        ensures
            r == pages_spanned(start as nat, end as nat),
            r > 0 ==> start / PAGE_SIZE + r <= ARENA_FRAMES,
    {
        let first = start / PAGE_SIZE;
        let mut last = end / PAGE_SIZE + if end % PAGE_SIZE == 0 { 0 } else { 1 };
        proof {
            assert((end as int + 4095) / 4096 == (end as int) / 4096 + if end % PAGE_SIZE == 0 { 0int } else { 1int });
        }
        if last > ARENA_FRAMES {
            last = ARENA_FRAMES;
        }
        if end <= start || last <= first {
            0
        } else {
            last - first
        }
    }

    /// An allocator over the arena with the parts of the kernel image and of
    /// the boot information that lie in the arena marked as taken.
    pub fn new(kernel_end: usize, multiboot_start: usize, multiboot_end: usize) -> (r: Allocator)
        ensures
            r.wf(),
            r@ == boot_tree(kernel_end as nat, multiboot_start as nat, multiboot_end as nat),
            r.handed_out() == Seq::<Frame>::empty(),
    {
        let mut buddy = Buddy::new();
        proof {
            assert(buddy@ =~= Seq::new((2 * pow2(LEVELS as nat) - 1) as nat, |i: int| Node::Unused));
            reveal_with_fuel(pow2, 11);
        }
        let kernel_pages = Allocator::pages_between(0, kernel_end);
        if kernel_pages > 0 {
            buddy.mark_used(kernel_pages, 0);
        }
        let multiboot_pages = Allocator::pages_between(multiboot_start, multiboot_end);
        let multiboot_offset = multiboot_start / PAGE_SIZE;
        if multiboot_pages > 0 {
            buddy.mark_used(multiboot_pages, multiboot_offset);
        }
        Allocator { buddy, handed: Ghost(Seq::empty()) }
    }

    /// A run of `num_pages` frames taken from the buddy tree, or `None` when
    /// no free block is large enough.
    pub fn allocate(&mut self, num_pages: usize) -> (r: Option<Frame>)
        requires
            old(self).wf(),
        ensures
            final(self).wf(),
            final(self)@ == alloc_tree(old(self)@, LEVELS as nat, num_pages as nat),
            r == (match alloc_offset(old(self)@, LEVELS as nat, num_pages as nat) {
                Some(o) => Some(Frame { number: o as usize, num_pages }),
                None => None,
            }),
            r matches Some(f) ==> f.number as int % block_size(num_pages as nat) as int == 0 && f.number
                + block_size(num_pages as nat) <= pow2(LEVELS as nat),
            r matches Some(f) ==> final(self).handed_out() == old(self).handed_out().push(f),
            r is None ==> final(self).handed_out() == old(self).handed_out(),
    {
        proof {
            if alloc_offset(old(self)@, LEVELS as nat, num_pages as nat) is Some {
                lemma_pow2_pos(LEVELS as nat);
                lemma_pow2_pos(level_for(num_pages as nat));
                lemma_alloc_frames(old(self)@, LEVELS as nat, num_pages as nat, 0);
                let k = level_for(num_pages as nat);
                let o = alloc_offset(old(self)@, LEVELS as nat, num_pages as nat)->Some_0;
                let p = o / (pow2(k) as int);
                lemma_block_fits(LEVELS as nat, k, p);
                vstd::arithmetic::div_mod::lemma_mod_multiples_basic(p, pow2(k) as int);
            }
        }
        let frame_number = self.buddy.allocate(num_pages);
        if frame_number >= 0 {
            let f = Frame { number: frame_number as usize, num_pages };
            self.handed = Ghost(self.handed@.push(f));
            Some(f)
        } else {
            None
        }
    }

    /// Gives a run back to the buddy tree.
    pub fn deallocate(&mut self, frame: Frame)
        requires
            old(self).wf(),
            level_for(frame.num_pages as nat) <= LEVELS,
            frame.number < pow2(LEVELS as nat),
        ensures
            final(self).wf(),
            final(self)@ == release(old(self)@, free_node(LEVELS as nat, frame.num_pages as nat, frame.number as nat)),
            final(self).handed_out() == old(self).handed_out(),
    {
        self.buddy.free(frame.num_pages, frame.number);
    }

    /// The frames that `deallocate` takes back: those the arena can hold.
    pub fn can_take_back(&self, frame: &Frame) -> (r: bool)
        ensures
            r == (level_for(frame.num_pages as nat) <= LEVELS && frame.number < pow2(LEVELS as nat)),
    {
        proof {
            reveal_with_fuel(pow2, 11);
        }
        proof {
            lemma_level_for_bound(frame.num_pages as nat, LEVELS as nat);
        }
        frame.number < 1024 && frame.num_pages <= 1024
    }
}

impl FrameAllocator for Allocator {
    open spec fn inv(&self) -> bool {
        self.wf()
    }

    open spec fn handed(&self) -> Seq<Frame> {
        self.handed_out()
    }

    /// Runs inside the arena, of at most the arena's size.
    open spec fn takes_back(&self, frame: Frame) -> bool {
        level_for(frame.num_pages as nat) <= LEVELS && frame.number < pow2(LEVELS as nat)
    }

    open spec fn next_frame(&self, num_pages: usize) -> Option<Frame> {
        match alloc_offset(self@, LEVELS as nat, num_pages as nat) {
            Some(o) => Some(Frame { number: o as usize, num_pages }),
            None => None,
        }
    }

    fn allocate(&mut self, num_pages: usize) -> (r: Option<Frame>) {
        Allocator::allocate(self, num_pages)
    }

    fn deallocate(&mut self, frame: Frame) {
        Allocator::deallocate(self, frame)
    }
}

} // verus!
