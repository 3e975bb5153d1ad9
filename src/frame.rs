//! Physical frames and the capability that hands them out.
use vstd::prelude::*;

verus! {

/// Bytes per page and per frame.
pub const PAGE_SIZE: usize = 4096;

/// A run of `num_pages` physical page frames starting at frame `number`.
#[derive(PartialEq, Eq, Structural, Clone, Copy, Debug)]
pub struct Frame {
    pub number: usize,
    pub num_pages: usize,
}

impl Frame {
    /// The frame that holds physical address `address`.
    pub fn from_address(address: usize, num_pages: usize) -> (r: Frame)
        ensures
            r.number == address / PAGE_SIZE,
            r.num_pages == num_pages,
    {
        Frame { number: address / PAGE_SIZE, num_pages }
    }

    /// The physical address of the first byte of the frame.
    pub fn start_address(&self) -> (r: u64)
        requires
            self.number < 0x10_0000_0000_0000,
        ensures
            r == self.number * PAGE_SIZE,
    {
        self.number as u64 * 4096
    }
}

/// `a` is `b` followed by zero or more frames.
pub open spec fn extends(a: Seq<Frame>, b: Seq<Frame>) -> bool {
    b.len() <= a.len() && a.subrange(0, b.len() as int) == b
}

pub proof fn lemma_extends_refl(a: Seq<Frame>)
    ensures
        extends(a, a),
{
    assert(a.subrange(0, a.len() as int) =~= a);
}

pub proof fn lemma_extends_push(a: Seq<Frame>, f: Frame)
    ensures
        extends(a.push(f), a),
{
    assert(a.push(f).subrange(0, a.len() as int) =~= a);
}

pub proof fn lemma_extends_trans(a: Seq<Frame>, b: Seq<Frame>, c: Seq<Frame>)
    requires
        extends(a, b),
        extends(b, c),
    ensures
        extends(a, c),
{
    assert(a.subrange(0, c.len() as int) =~= b.subrange(0, c.len() as int));
}

/// A source of physical frames.
pub trait FrameAllocator {
    /// The allocator's own consistency.
    spec fn inv(&self) -> bool;

    /// The runs handed out so far, oldest first.
    spec fn handed(&self) -> Seq<Frame>;

    /// The runs that `deallocate` accepts.
    spec fn takes_back(&self, frame: Frame) -> bool;

    /// What `allocate(num_pages)` answers in the present state.
    spec fn next_frame(&self, num_pages: usize) -> Option<Frame>;

    /// A run of `num_pages` frames, or `None` when none is left.
    fn allocate(&mut self, num_pages: usize) -> (r: Option<Frame>)
        requires
            old(self).inv(),
        ensures
            final(self).inv(),
            r == old(self).next_frame(num_pages),
            r matches Some(f) ==> f.num_pages == num_pages && final(self).handed() == old(self).handed().push(f),
            r is None ==> final(self).handed() == old(self).handed(),
    ;

    /// Takes back a run handed out by `allocate`.
    fn deallocate(&mut self, frame: Frame)
        requires
            old(self).inv(),
            old(self).takes_back(frame),
        ensures
            final(self).inv(),
            final(self).handed() == old(self).handed(),
    ;
}

} // verus!
