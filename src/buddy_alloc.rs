//! A buddy allocator for a byte-scale arena of `2^8` units: the same tree as
//! the frame allocator's, with fewer levels.
use vstd::prelude::*;
use crate::buddy::{
    alloc_offset, alloc_tree, block_size, free_node, lemma_alloc_frames, lemma_block_fits, lemma_pow2_pos, level_for, pow2,
    release, tree_len, tree_wf, Buddy, Node,
};

verus! {

/// Levels of the block tree: `2^8` blocks.
pub const BLOCK_LEVELS: usize = 8;

pub struct BuddyAllocator {
    buddy: Buddy,
}

impl View for BuddyAllocator {
    type V = Seq<Node>;

    closed spec fn view(&self) -> Seq<Node> {
        self.buddy@
    }
}

impl BuddyAllocator {
    pub closed spec fn wf(&self) -> bool {
        self.buddy.wf() && self.buddy.levels() == BLOCK_LEVELS
    }

    /// A well-formed allocator holds a well-formed tree of `BLOCK_LEVELS`
    /// levels, so the laws of the buddy tree apply to it.
    pub proof fn lemma_tree_wf(&self)
        requires
            self.wf(),
        ensures
            tree_wf(self@, BLOCK_LEVELS as nat),
    {
    }

    /// An allocator with every block free.
    pub fn new() -> (r: BuddyAllocator)
        ensures
            r.wf(),
            r@.len() == tree_len(BLOCK_LEVELS as nat),
            forall|i: int| 0 <= i < r@.len() ==> r@[i] == Node::Unused,
    {
        BuddyAllocator { buddy: Buddy::with_levels(BLOCK_LEVELS) }
    }

    /// Takes the leftmost free block of `2^level_for(s)` units and returns
    /// its first unit, or -1 when there is none.
    pub fn allocate(&mut self, s: usize) -> (r: isize)
        requires
            old(self).wf(),
        ensures
            final(self).wf(),
            final(self)@ == alloc_tree(old(self)@, BLOCK_LEVELS as nat, s as nat),
            r == (match alloc_offset(old(self)@, BLOCK_LEVELS as nat, s as nat) {
                Some(o) => o,
                None => -1,
            }),
            r >= 0 ==> r + block_size(s as nat) <= pow2(BLOCK_LEVELS as nat) && (r as int) % (block_size(s as nat) as int) == 0,
    {
        proof {
            if alloc_offset(old(self)@, BLOCK_LEVELS as nat, s as nat) is Some {
                lemma_pow2_pos(BLOCK_LEVELS as nat);
                lemma_pow2_pos(level_for(s as nat));
                lemma_alloc_frames(old(self)@, BLOCK_LEVELS as nat, s as nat, 0);
                let k = level_for(s as nat);
                let o = alloc_offset(old(self)@, BLOCK_LEVELS as nat, s as nat)->Some_0;
                let p = o / (pow2(k) as int);
                lemma_block_fits(BLOCK_LEVELS as nat, k, p);
                vstd::arithmetic::div_mod::lemma_mod_multiples_basic(p, pow2(k) as int);
            }
        }
        self.buddy.allocate(s)
    }

    /// Gives back the block of `2^level_for(s)` units that holds unit `offset`.
    pub fn free(&mut self, s: usize, offset: usize)
        requires
            old(self).wf(),
            level_for(s as nat) <= BLOCK_LEVELS,
            offset < pow2(BLOCK_LEVELS as nat),
        ensures
            final(self).wf(),
            final(self)@ == release(old(self)@, free_node(BLOCK_LEVELS as nat, s as nat, offset as nat)),
    {
        self.buddy.free(s, offset);
    }
}

} // verus!
