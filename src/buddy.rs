//! A buddy tree over power-of-two runs of frames.
//!
//! The tree is complete and flattened into a vector: the root is at index 0,
//! the children of `i` are `2i + 1` and `2i + 2`. A node at level `d`
//! (leaves are level 0) stands for a block of `2^d` frames.
use vstd::prelude::*;

verus! {

/// The number of levels of the frame allocator's tree: `2^10` frames.
pub const LEVELS: usize = 10;

/// The deepest tree that can be built.
pub const MAX_LEVELS: usize = 30;

/// The state of one node of the tree.
#[derive(PartialEq, Eq, Structural, Clone, Copy, Debug)]
pub enum Node {
    Unused,
    Used,
    Split,
    Full,
}

pub open spec fn pow2(n: nat) -> nat
    decreases n,
{
    if n == 0 {
        1
    } else {
        2 * pow2((n - 1) as nat)
    }
}

/// Number of cells of a tree with `levels` levels below the root.
pub open spec fn tree_len(levels: nat) -> nat {
    (2 * pow2(levels) - 1) as nat
}

/// Index of the node at `level` (0 = leaves) and position `pos` within that level.
pub open spec fn node_at(levels: nat, level: nat, pos: int) -> int {
    pow2((levels - level) as nat) - 1 + pos
}

pub open spec fn parent(i: int) -> int {
    (i + 1) / 2 - 1
}

pub open spec fn sibling(i: int) -> int {
    if i % 2 == 1 {
        i + 1
    } else {
        i - 1
    }
}

/// The state that a node takes from the states of its two children.
pub open spec fn combine(l: Node, r: Node) -> Node {
    if (l == Node::Used || l == Node::Full) && (r == Node::Used || r == Node::Full) {
        Node::Full
    } else if l == Node::Unused && r == Node::Unused {
        Node::Unused
    } else {
        Node::Split
    }
}

/// A node agrees with its children: a `Used` node claims its whole subtree,
/// any other node is what its children make it.
pub open spec fn node_ok(p: Node, l: Node, r: Node) -> bool {
    (p == Node::Used && l == Node::Used && r == Node::Used) || p == combine(l, r)
}

pub open spec fn ok_at(t: Seq<Node>, i: int) -> bool {
    node_ok(t[i], t[2 * i + 1], t[2 * i + 2])
}

/// The well-formed trees of `levels` levels.
pub open spec fn tree_wf(t: Seq<Node>, levels: nat) -> bool {
    &&& t.len() == tree_len(levels)
    &&& forall|i: int| 0 <= i < pow2(levels) - 1 ==> #[trigger] ok_at(t, i)
    &&& forall|i: int|
        pow2(levels) - 1 <= i < t.len() ==> (#[trigger] t[i] == Node::Unused || t[i] == Node::Used)
}

/// `j` lies in the subtree rooted at `i` (or is `i`).
pub open spec fn in_subtree(j: int, i: int) -> bool
    decreases j,
{
    if j < i || i < 0 {
        false
    } else if j == i {
        true
    } else {
        in_subtree(parent(j), i)
    }
}

/// `t` with every node of the subtree rooted at `i` set to `v`.
pub open spec fn fill(t: Seq<Node>, i: int, v: Node) -> Seq<Node> {
    Seq::new(t.len(), |j: int| if in_subtree(j, i) { v } else { t[j] })
}

/// Recomputes node `a` from its children, then each ancestor of `a` in turn.
pub open spec fn fix_up(t: Seq<Node>, a: int) -> Seq<Node>
    decreases a,
{
    if a < 0 {
        t
    } else {
        let t2 = t.update(a, combine(t[2 * a + 1], t[2 * a + 2]));
        if a == 0 {
            t2
        } else {
            fix_up(t2, parent(a))
        }
    }
}

/// Recomputes every strict ancestor of `i`.
pub open spec fn lift(t: Seq<Node>, i: int) -> Seq<Node> {
    if i <= 0 {
        t
    } else {
        fix_up(t, parent(i))
    }
}

/// Frees `i`, then each ancestor whose other child is free too.
pub open spec fn combine_up(t: Seq<Node>, i: int) -> Seq<Node>
    decreases i,
{
    let t2 = t.update(i, Node::Unused);
    if i <= 0 {
        t2
    } else if t2[sibling(i)] == Node::Unused {
        combine_up(t2, parent(i))
    } else {
        t2
    }
}

/// The tree after the block at node `i` is handed out.
pub open spec fn claim(t: Seq<Node>, i: int) -> Seq<Node> {
    fill(lift(t.update(i, Node::Used), i), i, Node::Used)
}

/// The tree after the block at node `i` is given back.
pub open spec fn release(t: Seq<Node>, i: int) -> Seq<Node> {
    fill(lift(combine_up(t, i), i), i, Node::Unused)
}

/// Floor of the base-2 logarithm (0 for 0 and 1).
pub open spec fn floor_log2(x: nat) -> nat
    decreases x,
{
    if x <= 1 {
        0
    } else {
        1 + floor_log2(x / 2)
    }
}

/// The level of the smallest block that holds `n` frames: `ceil(log2(max(n, 1)))`.
pub open spec fn level_for(n: nat) -> nat {
    if n <= 1 {
        0
    } else {
        floor_log2((n - 1) as nat) + 1
    }
}

/// `n` rounded up to a power of two (1 for 0).
pub open spec fn block_size(n: nat) -> nat {
    pow2(level_for(n))
}

pub open spec fn is_free(t: Seq<Node>, levels: nat, level: nat, pos: int) -> bool {
    t[node_at(levels, level, pos)] == Node::Unused
}

/// `pos` is the leftmost free node at `level`.
pub open spec fn is_first_free(t: Seq<Node>, levels: nat, level: nat, pos: int) -> bool {
    &&& 0 <= pos < pow2((levels - level) as nat)
    &&& is_free(t, levels, level, pos)
    &&& forall|q: int| 0 <= q < pos ==> !#[trigger] is_free(t, levels, level, q)
}

pub open spec fn has_free(t: Seq<Node>, levels: nat, level: nat) -> bool {
    exists|pos: int| 0 <= pos < pow2((levels - level) as nat) && #[trigger] is_free(t, levels, level, pos)
}

pub open spec fn first_free(t: Seq<Node>, levels: nat, level: nat) -> int {
    choose|pos: int| is_first_free(t, levels, level, pos)
}

/// The first frame of the block that an allocation of `n` frames gets, if any.
pub open spec fn alloc_offset(t: Seq<Node>, levels: nat, n: nat) -> Option<int> {
    let k = level_for(n);
    if k > levels || !has_free(t, levels, k) {
        None
    } else {
        Some(first_free(t, levels, k) * pow2(k))
    }
}

/// The tree after an allocation of `n` frames.
pub open spec fn alloc_tree(t: Seq<Node>, levels: nat, n: nat) -> Seq<Node> {
    let k = level_for(n);
    if k > levels || !has_free(t, levels, k) {
        t
    } else {
        claim(t, node_at(levels, k, first_free(t, levels, k)))
    }
}

/// The node that `free(n, frame)` gives back.
pub open spec fn free_node(levels: nat, n: nat, frame: nat) -> int {
    let k = level_for(n);
    node_at(levels, k, (frame / pow2(k)) as int)
}

/// The tree after leaves `frame .. frame + count` are pinned one by one.
pub open spec fn mark_leaves(t: Seq<Node>, levels: nat, frame: nat, count: nat) -> Seq<Node>
    decreases count,
{
    if count == 0 {
        t
    } else {
        let t1 = mark_leaves(t, levels, frame, (count - 1) as nat);
        let leaf = node_at(levels, 0, frame + count - 1);
        lift(t1.update(leaf, Node::Used), leaf)
    }
}

// ---------------------------------------------------------------------------
// Arithmetic facts
/// Every power of two is at least one.
pub proof fn lemma_pow2_pos(n: nat)
    ensures
        pow2(n) >= 1,
    decreases n,
{
    if n > 0 {
        lemma_pow2_pos((n - 1) as nat);
    }
}

proof fn lemma_pow2_add(a: nat, b: nat)
    ensures
        pow2(a + b) == pow2(a) * pow2(b),
    decreases a,
{
    if a > 0 {
        let a1 = (a - 1) as nat;
        lemma_pow2_add(a1, b);
        assert(pow2(a + b) == 2 * pow2(a1 + b));
        assert(pow2(a) == 2 * pow2(a1));
        let x = pow2(a1);
        let y = pow2(b);
        assert(2 * (x * y) == (2 * x) * y) by (nonlinear_arith);
        assert(pow2(a) * pow2(b) == (2 * x) * y);
    } else {
        assert(pow2(a) == 1);
        assert(a + b == b);
    }
}

proof fn lemma_pow2_mono(a: nat, b: nat)
    requires
        a <= b,
    ensures
        pow2(a) <= pow2(b),
    decreases b,
{
    if a < b {
        lemma_pow2_mono(a, (b - 1) as nat);
    }
}

proof fn lemma_pow2_max()
    ensures
        pow2(MAX_LEVELS as nat) == 0x4000_0000,
{
    reveal_with_fuel(pow2, 31);
}

/// The children of a node are the nodes one level down at twice its position.
proof fn lemma_children(levels: nat, level: nat, pos: int)
    requires
        0 < level <= levels,
    ensures
        2 * node_at(levels, level, pos) + 1 == node_at(levels, (level - 1) as nat, 2 * pos),
        2 * node_at(levels, level, pos) + 2 == node_at(levels, (level - 1) as nat, 2 * pos + 1),
{
    assert(pow2((levels - (level - 1)) as nat) == 2 * pow2((levels - level) as nat));
}

proof fn lemma_parent_of_child(i: int)
    requires
        i >= 0,
    ensures
        parent(2 * i + 1) == i,
        parent(2 * i + 2) == i,
        sibling(2 * i + 1) == 2 * i + 2,
        sibling(2 * i + 2) == 2 * i + 1,
{
}

proof fn lemma_child_of_parent(j: int)
    requires
        j > 0,
    ensures
        0 <= parent(j) < j,
        j == 2 * parent(j) + 1 || j == 2 * parent(j) + 2,
        j % 2 == 1 ==> j == 2 * parent(j) + 1,
        j % 2 == 0 ==> j == 2 * parent(j) + 2,
        sibling(j) == 2 * parent(j) + 1 || sibling(j) == 2 * parent(j) + 2,
        sibling(j) != j,
{
}


// ---------------------------------------------------------------------------
// Facts about subtrees
proof fn lemma_in_subtree_up(x: int, c: int)
    requires
        in_subtree(x, c),
        c > 0,
    ensures
        in_subtree(x, parent(c)),
    decreases x,
{
    lemma_child_of_parent(c);
    if x != c {
        lemma_child_of_parent(x);
        lemma_in_subtree_up(parent(x), c);
    } else {
        assert(in_subtree(parent(c), parent(c)));
    }
}

/// The subtree of `i` is `i` and the subtrees of its two children.
proof fn lemma_subtree_split(j: int, i: int)
    requires
        0 <= i < j,
    ensures
        in_subtree(j, i) == (in_subtree(j, 2 * i + 1) || in_subtree(j, 2 * i + 2)),
    decreases j,
{
    lemma_child_of_parent(j);
    lemma_parent_of_child(i);
    assert(in_subtree(i, i));
    if j == 2 * i + 1 || j == 2 * i + 2 {
        assert(parent(j) == i);
        assert(in_subtree(j, 2 * i + 1) || in_subtree(j, 2 * i + 2));
    } else if j > 2 * i + 2 {
        assert(parent(j) > i);
        lemma_subtree_split(parent(j), i);
    } else {
        assert(parent(j) < i);
        assert(!in_subtree(parent(j), i));
    }
}

/// Every node of a free subtree is free; every node under a taken node is taken.
proof fn lemma_subtree_state(t: Seq<Node>, levels: nat, i: int, j: int)
    requires
        tree_wf(t, levels),
        0 <= i,
        in_subtree(j, i),
        j < t.len(),
    ensures
        t[i] == Node::Unused ==> t[j] == Node::Unused,
        (t[i] == Node::Used || t[i] == Node::Full) ==> (t[j] == Node::Used || t[j] == Node::Full),
        t[i] == Node::Used ==> t[j] == Node::Used,
    decreases j,
{
    if j != i {
        lemma_child_of_parent(j);
        let p = parent(j);
        lemma_pow2_pos(levels);
        lemma_subtree_state(t, levels, i, p);
        assert(0 <= p < pow2(levels) - 1);
        assert(ok_at(t, p));
    }
}

/// A leaf is the only node of its subtree.
proof fn lemma_leaf_subtree(levels: nat, leaf: int, j: int)
    requires
        pow2(levels) - 1 <= leaf,
        0 <= j < tree_len(levels),
        j != leaf,
    ensures
        !in_subtree(j, leaf),
{
    lemma_pow2_pos(levels);
    if j > leaf {
        lemma_child_of_parent(j);
        assert(parent(j) < leaf);
        assert(!in_subtree(parent(j), leaf));
    }
}

proof fn lemma_fill_leaf(t: Seq<Node>, levels: nat, leaf: int)
    requires
        t.len() == tree_len(levels),
        pow2(levels) - 1 <= leaf < t.len(),
    ensures
        fill(t, leaf, t[leaf]) == t,
{
    assert forall|j: int| 0 <= j < t.len() implies fill(t, leaf, t[leaf])[j] == t[j] by {
        if j != leaf {
            lemma_leaf_subtree(levels, leaf, j);
        }
    }
    assert(fill(t, leaf, t[leaf]) =~= t);
}

/// What `fix_up` changes: `a` and its ancestors, each recomputed from its children.
proof fn lemma_fix_up(t: Seq<Node>, a: int)
    requires
        0 <= a,
        2 * a + 2 < t.len(),
    ensures
        fix_up(t, a).len() == t.len(),
        forall|j: int| 0 <= j < t.len() && !in_subtree(a, j) ==> fix_up(t, a)[j] == t[j],
        forall|j: int|
            0 <= j && #[trigger] in_subtree(a, j) ==> fix_up(t, a)[j] == combine(
                fix_up(t, a)[2 * j + 1],
                fix_up(t, a)[2 * j + 2],
            ),
    decreases a,
{
    let t2 = t.update(a, combine(t[2 * a + 1], t[2 * a + 2]));
    assert(in_subtree(a, a));
    if a == 0 {
        assert forall|j: int| 0 <= j && #[trigger] in_subtree(a, j) implies j == 0 by {}
    } else {
        let p = parent(a);
        lemma_child_of_parent(a);
        lemma_fix_up(t2, p);
        let r = fix_up(t2, p);
        assert forall|j: int| 0 <= j < t.len() && !in_subtree(a, j) implies r[j] == t[j] by {
            if in_subtree(p, j) {
                assert(in_subtree(a, j));
            }
        }
        assert forall|j: int| 0 <= j && #[trigger] in_subtree(a, j) implies r[j] == combine(
            r[2 * j + 1],
            r[2 * j + 2],
        ) by {
            if j != a {
                assert(in_subtree(p, j));
            } else {
                assert(!in_subtree(p, a));
                assert(!in_subtree(p, 2 * a + 1));
                assert(!in_subtree(p, 2 * a + 2));
            }
        }
    }
}

/// `fix_up` reads only the nodes off the path from `a` to the root.
proof fn lemma_fix_up_frame(t1: Seq<Node>, t2: Seq<Node>, a: int)
    requires
        0 <= a,
        2 * a + 2 < t1.len(),
        t1.len() == t2.len(),
        forall|j: int| 0 <= j < t1.len() && !in_subtree(a, j) ==> t1[j] == t2[j],
    ensures
        fix_up(t1, a) == fix_up(t2, a),
    decreases a,
{
    assert(!in_subtree(a, 2 * a + 1));
    assert(!in_subtree(a, 2 * a + 2));
    let u1 = t1.update(a, combine(t1[2 * a + 1], t1[2 * a + 2]));
    let u2 = t2.update(a, combine(t2[2 * a + 1], t2[2 * a + 2]));
    if a == 0 {
        assert forall|j: int| 0 <= j < t1.len() implies u1[j] == u2[j] by {
            if j != 0 {
                assert(!in_subtree(0, j));
            }
        }
        assert(u1 =~= u2);
    } else {
        let p = parent(a);
        lemma_child_of_parent(a);
        assert forall|j: int| 0 <= j < t1.len() && !in_subtree(p, j) implies u1[j] == u2[j] by {
            if j != a && in_subtree(a, j) {
                assert(in_subtree(p, j));
            }
        }
        lemma_fix_up_frame(u1, u2, p);
    }
}

/// `fix_up` leaves a tree whose path is already consistent as it is.
proof fn lemma_fix_up_id(t: Seq<Node>, a: int)
    requires
        0 <= a,
        2 * a + 2 < t.len(),
        forall|j: int| 0 <= j && #[trigger] in_subtree(a, j) ==> t[j] == combine(t[2 * j + 1], t[2 * j + 2]),
    ensures
        fix_up(t, a) == t,
    decreases a,
{
    assert(in_subtree(a, a));
    let u = t.update(a, combine(t[2 * a + 1], t[2 * a + 2]));
    assert(u =~= t);
    if a > 0 {
        let p = parent(a);
        lemma_child_of_parent(a);
        assert forall|j: int| 0 <= j && #[trigger] in_subtree(p, j) implies t[j] == combine(
            t[2 * j + 1],
            t[2 * j + 2],
        ) by {
            assert(in_subtree(a, j));
        }
        lemma_fix_up_id(t, p);
    }
}

/// Setting node `i` and its subtree to `v` (taken or free) and recomputing the
/// ancestors of `i` keeps a tree well formed.
proof fn lemma_set_lift_fill_wf(t: Seq<Node>, levels: nat, i: int, v: Node)
    requires
        tree_wf(t, levels),
        0 <= i < t.len(),
        v == Node::Used || v == Node::Unused,
    ensures
        tree_wf(fill(lift(t.update(i, v), i), i, v), levels),
        lift(t.update(i, v), i)[i] == v,
        forall|j: int|
            0 <= j < t.len() && !(in_subtree(i, j) && j != i) && !in_subtree(j, i) ==> fill(
                lift(t.update(i, v), i),
                i,
                v,
            )[j] == t[j],
{
    let t1 = t.update(i, v);
    let t2 = lift(t1, i);
    let t3 = fill(t2, i, v);
    lemma_pow2_pos(levels);
    assert(in_subtree(i, i));
    if i > 0 {
        let p = parent(i);
        lemma_child_of_parent(i);
        lemma_fix_up(t1, p);
        assert(!in_subtree(p, i));
    }
    assert forall|j: int| 0 <= j < t.len() && !(in_subtree(i, j) && j != i) implies t2[j] == t1[j] by {
        if i > 0 && in_subtree(parent(i), j) {
            lemma_child_of_parent(i);
            assert(in_subtree(i, j));
        }
    }
    assert forall|j: int| 0 <= j < pow2(levels) - 1 implies #[trigger] ok_at(t3, j) by {
        assert(ok_at(t, j));
        lemma_parent_of_child(j);
        if in_subtree(j, i) {
            assert(in_subtree(j, j));
            assert(in_subtree(2 * j + 1, j));
            assert(in_subtree(2 * j + 2, j));
            lemma_in_subtree_trans_children(j, i);
        } else if i > 0 && in_subtree(parent(i), j) {
            lemma_child_of_parent(i);
            // recomputed ancestor: its children are unchanged by the fill
            assert(!in_subtree(2 * j + 1, i) || 2 * j + 1 == i) by {
                if in_subtree(2 * j + 1, i) && 2 * j + 1 != i {
                    lemma_child_of_parent(2 * j + 1);
                }
            }
            assert(!in_subtree(2 * j + 2, i) || 2 * j + 2 == i) by {
                if in_subtree(2 * j + 2, i) && 2 * j + 2 != i {
                    lemma_child_of_parent(2 * j + 2);
                }
            }
        } else {
            assert(!(in_subtree(i, j) && j != i)) by {
                if in_subtree(i, j) && j != i {
                    lemma_child_of_parent(i);
                    assert(in_subtree(parent(i), j));
                }
            }
            assert(!in_subtree(2 * j + 1, i)) by {
                if in_subtree(2 * j + 1, i) {
                    if 2 * j + 1 != i {
                        lemma_child_of_parent(2 * j + 1);
                    } else {
                        assert(in_subtree(i, parent(i)));
                    }
                }
            }
            assert(!in_subtree(2 * j + 2, i)) by {
                if in_subtree(2 * j + 2, i) {
                    if 2 * j + 2 != i {
                        lemma_child_of_parent(2 * j + 2);
                    } else {
                        assert(in_subtree(i, parent(i)));
                    }
                }
            }
            assert(!(in_subtree(i, 2 * j + 1) && 2 * j + 1 != i)) by {
                if in_subtree(i, 2 * j + 1) && 2 * j + 1 != i {
                    lemma_in_subtree_up(i, 2 * j + 1);
                }
            }
            assert(!(in_subtree(i, 2 * j + 2) && 2 * j + 2 != i)) by {
                if in_subtree(i, 2 * j + 2) && 2 * j + 2 != i {
                    lemma_in_subtree_up(i, 2 * j + 2);
                }
            }
        }
    }
    assert forall|j: int| pow2(levels) - 1 <= j < t3.len() implies (#[trigger] t3[j] == Node::Unused
        || t3[j] == Node::Used) by {
        if !in_subtree(j, i) && j != i {
            lemma_leaf_subtree(levels, j, i);
        }
    }
}

proof fn lemma_in_subtree_trans_children(j: int, i: int)
    requires
        in_subtree(j, i),
        0 <= j,
    ensures
        in_subtree(2 * j + 1, i),
        in_subtree(2 * j + 2, i),
{
    lemma_parent_of_child(j);
    assert(in_subtree(2 * j + 1, i) == in_subtree(j, i));
    assert(in_subtree(2 * j + 2, i) == in_subtree(j, i));
}


// ---------------------------------------------------------------------------
// The tree

/// `2^n` as a machine integer.
fn pow2_usize(n: usize) -> (r: usize)
    requires
        n <= MAX_LEVELS,
    ensures
        r == pow2(n as nat),
        1 <= r <= 0x4000_0000,
{
    proof {
        lemma_pow2_pos(n as nat);
        lemma_pow2_mono(n as nat, MAX_LEVELS as nat);
        lemma_pow2_max();
    }
    let mut r: usize = 1;
    let mut i: usize = 0;
    while i < n
        invariant
            i <= n,
            n <= MAX_LEVELS,
            r == pow2(i as nat),
            pow2(n as nat) <= 0x4000_0000,
        decreases n - i,
    {
        proof {
            lemma_pow2_mono((i + 1) as nat, n as nat);
        }
        r = r * 2;
        i = i + 1;
    }
    r
}

/// A buddy tree: which power-of-two blocks of `2^levels` frames are handed out.
pub struct Buddy {
    levels: usize,
    tree: Vec<Node>,
}

impl View for Buddy {
    type V = Seq<Node>;

    closed spec fn view(&self) -> Seq<Node> {
        self.tree@
    }
}

impl Buddy {
    /// Number of levels below the root; the tree covers `2^levels` frames.
    pub closed spec fn levels(&self) -> nat {
        self.levels as nat
    }

    pub open spec fn wf(&self) -> bool {
        self.levels() <= MAX_LEVELS && tree_wf(self@, self.levels())
    }

    /// A tree over `2^LEVELS` frames, all free.
    pub fn new() -> (r: Buddy)
        ensures
            r.wf(),
            r.levels() == LEVELS,
            forall|i: int| 0 <= i < r@.len() ==> r@[i] == Node::Unused,
    {
        Buddy::with_levels(LEVELS)
    }

    /// A tree over `2^levels` frames, all free.
    pub fn with_levels(levels: usize) -> (r: Buddy)
        requires
            levels <= MAX_LEVELS,
        ensures
            r.wf(),
            r.levels() == levels,
            forall|i: int| 0 <= i < r@.len() ==> r@[i] == Node::Unused,
    {
        let size = 2 * pow2_usize(levels) - 1;
        let mut tree: Vec<Node> = Vec::new();
        while tree.len() < size
            invariant
                tree.len() <= size,
                forall|i: int| 0 <= i < tree.len() ==> tree@[i] == Node::Unused,
            decreases size - tree.len(),
        {
            tree.push(Node::Unused);
        }
        let r = Buddy { levels, tree };
        assert forall|i: int| 0 <= i < pow2(levels as nat) - 1 implies #[trigger] ok_at(r@, i) by {
            assert(r@[2 * i + 1] == Node::Unused);
            assert(r@[2 * i + 2] == Node::Unused);
        }
        r
    }

    /// The leftmost free node at level `k` below node `index` (at `level`,
    /// position `pos`), as a position within level `k`. The search descends
    /// into free and split nodes, left child first, and turns back at taken
    /// ones, whose subtrees hold no free node.
    fn find_free(&self, index: usize, pos: usize, level: usize, k: usize) -> (r: Option<usize>)
        requires
            self.wf(),
            k <= level <= self.levels(),
            pos < pow2((self.levels() - level) as nat),
            index == node_at(self.levels(), level as nat, pos as int),
        ensures
            r matches Some(q) ==> {
                &&& pos * pow2((level - k) as nat) <= q < (pos + 1) * pow2((level - k) as nat)
                &&& is_free(self@, self.levels(), k as nat, q as int)
                &&& forall|p: int|
                    pos * pow2((level - k) as nat) <= p < q ==> !#[trigger] is_free(self@, self.levels(), k as nat, p)
            },
            r is None ==> forall|p: int|
                pos * pow2((level - k) as nat) <= p < (pos + 1) * pow2((level - k) as nat) ==> !#[trigger] is_free(
                    self@,
                    self.levels(),
                    k as nat,
                    p,
                ),
        decreases level - k,
    {
        proof {
            self.lemma_sized();
            lemma_pow2_mono((self.levels() - level) as nat, self.levels());
        }
        let ghost t = self@;
        let ghost levels = self.levels();
        let ghost d = (level - k) as nat;
        let node = self.tree[index];
        if level == k {
            proof {
                assert(d == 0);
                assert(pow2(d) == 1);
                assert(pos * pow2(d) == pos && (pos + 1) * pow2(d) == pos + 1) by (nonlinear_arith)
                    requires
                        pow2(d) == 1,
                ;
            }
            if node == Node::Unused {
                return Some(pos);
            } else {
                return None;
            }
        }
        proof {
            lemma_children(levels, level as nat, pos as int);
            assert(pow2((levels - (level - 1)) as nat) == 2 * pow2((levels - level) as nat));
            assert(((level - 1) - k) as nat == (d - 1) as nat);
            assert(pow2(d) == 2 * pow2((d - 1) as nat));
        }
        let ghost h = pow2((d - 1) as nat);
        proof {
            assert(pow2(((level - 1) - k) as nat) == h);
            assert(pow2((level - k) as nat) == pow2(d));
        }
        match node {
            Node::Used | Node::Full => {
                proof {
                    assert forall|p: int|
                        pos * pow2(d) <= p < (pos + 1) * pow2(d) implies !#[trigger] is_free(
                        t,
                        levels,
                        k as nat,
                        p,
                    ) by {
                        lemma_node_in_block(levels, level as nat, pos as int, k as nat, p);
                        lemma_pow2_mono((levels - k) as nat, levels);
                        lemma_subtree_state(t, levels, index as int, node_at(levels, k as nat, p));
                    }
                }
                None
            },
            Node::Unused | Node::Split => {
                proof {
                    assert(pos * pow2(d) == (2 * pos) * h) by (nonlinear_arith)
                        requires
                            pow2(d) == 2 * h,
                    ;
                    assert((2 * pos + 1) * h + h == (pos + 1) * pow2(d)) by (nonlinear_arith)
                        requires
                            pow2(d) == 2 * h,
                    ;
                    assert((2 * pos + 1) * h == (2 * pos) * h + h) by (nonlinear_arith);
                    assert((2 * pos + 1 + 1) * h == (2 * pos + 1) * h + h) by (nonlinear_arith);
                    assert(h >= 1) by {
                        lemma_pow2_pos((d - 1) as nat);
                    }
                }
                match self.find_free(2 * index + 1, 2 * pos, level - 1, k) {
                    Some(q) => {
                        proof {
                            assert(pos * pow2(d) <= q < (pos + 1) * pow2(d));
                        }
                        Some(q)
                    },
                    None => {
                        let r = self.find_free(2 * index + 2, 2 * pos + 1, level - 1, k);
                        proof {
                            if r is Some {
                                let q = r->Some_0;
                                assert forall|p: int| pos * pow2(d) <= p < q implies !#[trigger] is_free(
                                    t,
                                    levels,
                                    k as nat,
                                    p,
                                ) by {
                                    if p < (2 * pos + 1) * h {
                                        assert((2 * pos) * h <= p);
                                    }
                                }
                            } else {
                                assert forall|p: int|
                                    pos * pow2(d) <= p < (pos + 1) * pow2(d) implies !#[trigger] is_free(
                                    t,
                                    levels,
                                    k as nat,
                                    p,
                                ) by {
                                    if p < (2 * pos + 1) * h {
                                        assert((2 * pos) * h <= p);
                                    } else {
                                        assert(p < (2 * pos + 1 + 1) * h);
                                    }
                                }
                            }
                        }
                        r
                    },
                }
            },
        }
    }

    /// Hands out the leftmost free block of `2^level_for(num_frames)` frames
    /// and returns its first frame, or -1 when no such block is free or the
    /// request is larger than the tree.
    pub fn allocate(&mut self, num_frames: usize) -> (r: isize)
        requires
            old(self).wf(),
        ensures
            final(self).wf(),
            final(self).levels() == old(self).levels(),
            final(self)@ == alloc_tree(old(self)@, old(self).levels(), num_frames as nat),
            r == (match alloc_offset(old(self)@, old(self).levels(), num_frames as nat) {
                Some(o) => o,
                None => -1,
            }),
            alloc_offset(old(self)@, old(self).levels(), num_frames as nat) matches Some(o) ==> 0 <= o
                < pow2(old(self).levels()),
            alloc_offset(old(self)@, old(self).levels(), num_frames as nat) matches Some(o) ==> forall|f: int|
                0 <= f < pow2(old(self).levels()) ==> (#[trigger] in_span(o, block_size(num_frames as nat) as int, f)
                    ==> old(self)@[leaf(old(self).levels(), f)] == Node::Unused && final(self)@[leaf(
                    old(self).levels(),
                    f,
                )] == Node::Used) && (!in_span(o, block_size(num_frames as nat) as int, f)
                    ==> (final(self)@[leaf(old(self).levels(), f)] == old(self)@[leaf(old(self).levels(), f)])),
    {
        proof {
            if alloc_offset(self@, self.levels(), num_frames as nat) is Some {
                let t = self@;
                let levels = self.levels();
                let k = level_for(num_frames as nat);
                lemma_pow2_pos(levels);
                lemma_alloc_frames(t, levels, num_frames as nat, 0);
                let o = alloc_offset(t, levels, num_frames as nat)->Some_0;
                lemma_pow2_pos(k);
                let p = o / (pow2(k) as int);
                assert forall|f: int| 0 <= f < pow2(levels) implies (#[trigger] in_span(o, pow2(k) as int, f)
                    ==> t[leaf(levels, f)] == Node::Unused && alloc_tree(t, levels, num_frames as nat)[leaf(
                    levels,
                    f,
                )] == Node::Used) && (!in_span(o, pow2(k) as int, f) ==> alloc_tree(
                    t,
                    levels,
                    num_frames as nat,
                )[leaf(levels, f)] == t[leaf(levels, f)]) by {
                    lemma_alloc_frames(t, levels, num_frames as nat, f);
                    assert(in_span(o, pow2(k) as int, f) <==> in_block(k, p, f)) by (nonlinear_arith)
                        requires
                            o == p * pow2(k),
                            in_span(o, pow2(k) as int, f) == (o <= f < o + pow2(k)),
                            in_block(k, p, f) == (p * pow2(k) <= f < (p + 1) * pow2(k)),
                    ;
                }
            }
        }
        match self.allocate_block(num_frames) {
            Some((_, frame)) => frame as isize,
            None => -1,
        }
    }

    /// The node and the first frame of the block that an allocation of
    /// `num_frames` frames takes, or `None` when none is free.
    pub fn allocate_block(&mut self, num_frames: usize) -> (r: Option<(usize, usize)>)
        requires
            old(self).wf(),
        ensures
            final(self).wf(),
            final(self).levels() == old(self).levels(),
            final(self)@ == alloc_tree(old(self)@, old(self).levels(), num_frames as nat),
            r is None <==> alloc_offset(old(self)@, old(self).levels(), num_frames as nat) is None,
            r matches Some((i, o)) ==> {
                &&& alloc_offset(old(self)@, old(self).levels(), num_frames as nat) == Some(o as int)
                &&& i == node_at(
                    old(self).levels(),
                    level_for(num_frames as nat),
                    first_free(old(self)@, old(self).levels(), level_for(num_frames as nat)),
                )
                &&& o < pow2(old(self).levels()) <= 0x4000_0000
                &&& i < old(self)@.len()
                &&& is_first_free(old(self)@, old(self).levels(), level_for(num_frames as nat), first_free(old(self)@, old(self).levels(), level_for(num_frames as nat)))
            },
    {
        proof {
            self.lemma_sized();
        }
        let ghost t0 = self@;
        let ghost levels = self.levels();
        let requested_level = self.get_level_from_num_frames(num_frames);
        if requested_level > self.levels {
            return None;
        }
        let ghost k = requested_level as nat;
        let width = pow2_usize(self.levels - requested_level);
        let first = width - 1;
        proof {
            lemma_pow2_add(k, (levels - k) as nat);
            lemma_pow2_pos(k);
            assert(pow2(levels) == pow2(k) * pow2((levels - k) as nat));
            assert(width <= pow2(levels)) by (nonlinear_arith)
                requires
                    pow2(levels) == pow2(k) * width,
                    pow2(k) >= 1,
            ;
        }
        let pos = match self.find_free(0, 0, self.levels, requested_level) {
            Some(pos) => pos,
            None => {
                proof {
                    let w = pow2((levels - k) as nat);
                    assert(0 * w == 0 && (0 + 1) * w == w) by (nonlinear_arith);
                    assert forall|q: int| 0 <= q < pow2((levels - k) as nat) implies !#[trigger] is_free(
                        t0,
                        levels,
                        k,
                        q,
                    ) by {}
                }
                return None;
            },
        };
        proof {
            let w = pow2((levels - k) as nat);
            assert(0 * w == 0 && (0 + 1) * w == w) by (nonlinear_arith);
        }
        let index = first + pos;
        proof {
            assert(is_first_free(t0, levels, k, pos as int));
            let c = first_free(t0, levels, k);
            assert(is_first_free(t0, levels, k, c));
            if c < pos {
                assert(!is_free(t0, levels, k, c));
            }
            if c > pos {
                assert(!is_free(t0, levels, k, pos as int));
            }
            assert(c == pos);
            lemma_set_lift_fill_wf(t0, levels, index as int, Node::Used);
        }
        self.tree.set(index, Node::Used);
        if index > 0 {
            self.update_parents((index + 1) / 2 - 1);
        }
        self.update_children(index);
        let size = pow2_usize(requested_level);
        proof {
            assert(pos * size < pow2(levels)) by (nonlinear_arith)
                requires
                    pos < width,
                    pow2(levels) == size * width,
                    size >= 1,
            ;
        }
        Some((index, pos * size))
    }

    /// Gives back the block of `2^level_for(num_frames)` frames that holds
    /// `frame_number`, joining it with its free buddies.
    pub fn free(&mut self, num_frames: usize, frame_number: usize)
        requires
            old(self).wf(),
            level_for(num_frames as nat) <= old(self).levels(),
            frame_number < pow2(old(self).levels()),
        ensures
            final(self).wf(),
            final(self).levels() == old(self).levels(),
            final(self)@ == release(
                old(self)@,
                free_node(old(self).levels(), num_frames as nat, frame_number as nat),
            ),
            forall|f: int|
                0 <= f < pow2(old(self).levels()) ==> (#[trigger] in_block(
                    level_for(num_frames as nat),
                    (frame_number as int) / (pow2(level_for(num_frames as nat)) as int),
                    f,
                ) ==> final(self)@[leaf(old(self).levels(), f)] == Node::Unused) && (!in_block(
                    level_for(num_frames as nat),
                    (frame_number as int) / (pow2(level_for(num_frames as nat)) as int),
                    f,
                ) ==> final(self)@[leaf(old(self).levels(), f)] == old(self)@[leaf(old(self).levels(), f)]),
    {
        proof {
            self.lemma_sized();
        }
        let ghost t0 = self@;
        let ghost levels = self.levels();
        let requested_level = self.get_level_from_num_frames(num_frames);
        let ghost k = requested_level as nat;
        let size = pow2_usize(requested_level);
        let level_offset = frame_number / size;
        let width = pow2_usize(self.levels - requested_level);
        proof {
            lemma_pow2_add(k, (levels - k) as nat);
            assert(level_offset < width) by (nonlinear_arith)
                requires
                    frame_number < size * width,
                    level_offset == frame_number / size,
                    size >= 1,
            ;
        }
        proof {
            lemma_pow2_pos(k);
            assert(width <= pow2(levels)) by (nonlinear_arith)
                requires
                    pow2(levels) == size * width,
                    size >= 1,
            ;
        }
        let index_offset = (width - 1) + level_offset;
        proof {
            assert(index_offset as int == free_node(levels, num_frames as nat, frame_number as nat));
            assert forall|f: int| 0 <= f < pow2(levels) implies (#[trigger] in_block(
                k,
                (frame_number as int) / (pow2(k) as int),
                f,
            ) ==> release(t0, index_offset as int)[leaf(levels, f)] == Node::Unused) && (!in_block(
                k,
                (frame_number as int) / (pow2(k) as int),
                f,
            ) ==> release(t0, index_offset as int)[leaf(levels, f)] == t0[leaf(levels, f)]) by {
                lemma_release_frames(t0, levels, k, level_offset as int, f);
            }
        }
        self.release_node(index_offset);
    }

    /// Gives back the block at node `index_offset`.
    pub fn release_node(&mut self, index_offset: usize)
        requires
            old(self).wf(),
            index_offset < old(self)@.len(),
        ensures
            final(self).wf(),
            final(self).levels() == old(self).levels(),
            final(self)@ == release(old(self)@, index_offset as int),
    {
        proof {
            self.lemma_sized();
            if index_offset > 0 {
                lemma_child_of_parent(index_offset as int);
            }
        }
        let ghost t0 = self@;
        let ghost levels = self.levels();
        self.free_and_combine(index_offset);
        if index_offset > 0 {
            self.update_parents((index_offset + 1) / 2 - 1);
        }
        proof {
            let i = index_offset as int;
            lemma_combine_up(t0, i);
            lemma_release_as_update(t0, i);
            assert(in_subtree(i, i));
            if i > 0 {
                lemma_child_of_parent(i);
                lemma_fix_up(combine_up(t0, i), parent(i));
                assert(!in_subtree(parent(i), i));
            }
            lemma_set_lift_fill_wf(t0, levels, i, Node::Unused);
        }
        self.update_children(index_offset);
    }

    /// Pins the `num_frames` single frames from `frame_number` on as taken.
    pub fn mark_used(&mut self, num_frames: usize, frame_number: usize) -> (r: bool)
        requires
            old(self).wf(),
            frame_number + num_frames <= pow2(old(self).levels()),
        ensures
            final(self).wf(),
            final(self).levels() == old(self).levels(),
            final(self)@ == mark_leaves(
                old(self)@,
                old(self).levels(),
                frame_number as nat,
                num_frames as nat,
            ),
            r,
    {
        proof {
            self.lemma_sized();
        }
        let ghost t0 = self@;
        let ghost levels = self.levels();
        let last_level_offset = pow2_usize(self.levels) - 1;
        let index_offset = last_level_offset + frame_number;
        let mut n: usize = 0;
        while n < num_frames
            invariant
                self.wf(),
                self.sized(),
                self.levels() == levels,
                n <= num_frames,
                index_offset == pow2(levels) - 1 + frame_number,
                frame_number + num_frames <= pow2(levels),
                self@ == mark_leaves(t0, levels, frame_number as nat, n as nat),
            decreases num_frames - n,
        {
            let leaf = index_offset + n;
            let ghost t = self@;
            proof {
                lemma_set_lift_fill_wf(t, levels, leaf as int, Node::Used);
                lemma_fill_leaf(lift(t.update(leaf as int, Node::Used), leaf as int), levels, leaf as int);
                if leaf > 0 {
                    lemma_child_of_parent(leaf as int);
                    lemma_fix_up(t.update(leaf as int, Node::Used), parent(leaf as int));
                }
            }
            self.tree.set(leaf, Node::Used);
            if leaf > 0 {
                self.update_parents((leaf + 1) / 2 - 1);
            }
            n = n + 1;
        }
        true
    }

    /// Number of cells of the tree.
    pub fn len(&self) -> (r: usize)
        ensures
            r == self@.len(),
    {
        self.tree.len()
    }

    /// The state of the node at `index`.
    pub fn state(&self, index: usize) -> (r: Node)
        requires
            index < self@.len(),
        ensures
            r == self@[index as int],
    {
        self.tree[index]
    }

    /// The tree has the length its levels call for.
    closed spec fn sized(&self) -> bool {
        &&& self.levels <= MAX_LEVELS
        &&& self.tree@.len() == tree_len(self.levels as nat)
        &&& 1 <= pow2(self.levels as nat) <= 0x4000_0000
        &&& self.tree@.len() == 2 * pow2(self.levels as nat) - 1
    }

    proof fn lemma_sized(&self)
        requires
            self.wf(),
        ensures
            self.sized(),
    {
        lemma_pow2_mono(self.levels as nat, MAX_LEVELS as nat);
        lemma_pow2_max();
        lemma_pow2_pos(self.levels as nat);
    }

    /// The level of the smallest block that holds `num_frames` frames.
    fn get_level_from_num_frames(&self, num_frames: usize) -> (r: usize)
        ensures
            r == level_for(num_frames as nat),
    {
        if num_frames <= 1 {
            0
        } else {
            let r = self.log_base_2(num_frames - 1);
            proof {
                lemma_floor_log2_le((num_frames - 1) as nat);
            }
            r + 1
        }
    }

    /// Recomputes node `index` and each of its ancestors from their children.
    fn update_parents(&mut self, index: usize)
        requires
            old(self).sized(),
            index < pow2(old(self).levels()) - 1,
        ensures
            final(self).sized(),
            final(self).levels == old(self).levels,
            final(self)@ == fix_up(old(self)@, index as int),
    {
        let ghost target = fix_up(self.tree@, index as int);
        let mut i = index;
        loop
            invariant
                self.sized(),
                self.levels == old(self).levels,
                i < pow2(self.levels()) - 1,
                fix_up(self.tree@, i as int) == target,
            ensures
                self.sized(),
                self.levels == old(self).levels,
                self.tree@ == target,
            decreases i,
        {
            let left_child = i * 2 + 1;
            let right_child = i * 2 + 2;
            let l = self.tree[left_child];
            let r = self.tree[right_child];
            let left_used_or_full = l == Node::Full || l == Node::Used;
            let right_used_or_full = r == Node::Full || r == Node::Used;
            if left_used_or_full && right_used_or_full {
                self.tree.set(i, Node::Full);
            } else if l == Node::Unused && r == Node::Unused {
                self.tree.set(i, Node::Unused);
            } else {
                self.tree.set(i, Node::Split);
            }
            if i == 0 {
                break ;
            }
            i = (i + 1) / 2 - 1;
        }
    }

    /// Sets every node below `index` to the state of `index`.
    fn update_children(&mut self, index: usize)
        requires
            old(self).sized(),
            index < old(self)@.len(),
        ensures
            final(self).sized(),
            final(self).levels == old(self).levels,
            final(self)@ == fill(old(self)@, index as int, old(self)@[index as int]),
        decreases old(self)@.len() - index,
    {
        let ghost t0 = self.tree@;
        let left_child = index * 2 + 1;
        let right_child = index * 2 + 2;
        if left_child > self.tree.len() - 1 || right_child > self.tree.len() - 1 {
            proof {
                lemma_pow2_pos(self.levels());
                lemma_fill_leaf(t0, self.levels(), index as int);
            }
            return;
        }
        let v = self.tree[index];
        self.tree.set(left_child, v);
        self.update_children(left_child);
        self.tree.set(right_child, v);
        self.update_children(right_child);
        proof {
            let t = self.tree@;
            assert forall|j: int| 0 <= j < t.len() implies t[j] == fill(t0, index as int, v)[j] by {
                assert(in_subtree(index as int, index as int));
                if j > index {
                    lemma_subtree_split(j, index as int);
                }
                if j < index {
                    assert(!in_subtree(j, 2 * index + 1));
                    assert(!in_subtree(j, 2 * index + 2));
                }
                if j == index {
                    assert(!in_subtree(j, 2 * index + 1));
                    assert(!in_subtree(j, 2 * index + 2));
                }
                assert(in_subtree(2 * index + 1, 2 * index + 1));
                assert(in_subtree(2 * index + 2, 2 * index + 2));
            }
            assert(t =~= fill(t0, index as int, v));
        }
    }

    /// Frees node `index`, then each ancestor whose other child is free too.
    fn free_and_combine(&mut self, index: usize)
        requires
            old(self).sized(),
            index < old(self)@.len(),
        ensures
            final(self).sized(),
            final(self).levels == old(self).levels,
            final(self)@ == combine_up(old(self)@, index as int),
        decreases index,
    {
        self.tree.set(index, Node::Unused);
        if index == 0 {
            return;
        }
        let other_node: usize;
        if index % 2 == 1 {
            assert(index + 1 < self.tree@.len());
            other_node = index + 1;
        } else {
            other_node = index - 1;
        }
        if self.tree[other_node] == Node::Unused {
            self.free_and_combine((index + 1) / 2 - 1);
        }
    }

    /// Position of the most significant bit of `x` (0 for 0).
    fn log_base_2(&self, x: usize) -> (r: usize)
        ensures
            r == floor_log2(x as nat),
    {
        proof {
            lemma_floor_log2_le(x as nat);
        }
        let mut exp: usize = 0;
        let mut msb = x;
        msb = msb / 2;
        while msb > 0
            invariant
                floor_log2(x as nat) <= x,
                floor_log2(x as nat) == exp + (if msb == 0 {
                    0
                } else {
                    1 + floor_log2(msb as nat)
                }),
            decreases msb,
        {
            proof {
                let m = msb as nat;
                if m >= 2 {
                    assert(floor_log2(m) == 1 + floor_log2(m / 2));
                } else {
                    assert(floor_log2(m) == 0);
                }
            }
            msb = msb / 2;
            exp = exp + 1;
        }
        exp
    }
}

proof fn lemma_floor_log2_le(x: nat)
    ensures
        floor_log2(x) <= x,
    decreases x,
{
    if x > 1 {
        lemma_floor_log2_le(x / 2);
    }
}


/// What `combine_up` changes: `i`, and only ancestors of `i` besides.
proof fn lemma_combine_up(t: Seq<Node>, i: int)
    requires
        0 <= i < t.len(),
    ensures
        combine_up(t, i).len() == t.len(),
        combine_up(t, i)[i] == Node::Unused,
        forall|j: int|
            0 <= j < t.len() && !(in_subtree(i, j) && j != i) ==> combine_up(t, i)[j] == t.update(
                i,
                Node::Unused,
            )[j],
    decreases i,
{
    let t2 = t.update(i, Node::Unused);
    if i > 0 && t2[sibling(i)] == Node::Unused {
        let p = parent(i);
        lemma_child_of_parent(i);
        lemma_combine_up(t2, p);
        assert(in_subtree(i, p)) by {
            assert(in_subtree(p, p));
        }
        assert(!(in_subtree(p, i) && i != p));
        assert forall|j: int|
            0 <= j < t.len() && !(in_subtree(i, j) && j != i) implies combine_up(t, i)[j] == t2[j] by {
            if in_subtree(p, j) {
                assert(in_subtree(i, j));
            }
        }
    }
}


/// Blocks of level at most `levels` are those of at most `2^levels` frames.
pub proof fn lemma_level_for_bound(n: nat, levels: nat)
    ensures
        level_for(n) <= levels <==> n <= pow2(levels),
        n <= block_size(n),
{
    lemma_pow2_pos(levels);
    if n >= 2 {
        lemma_floor_log2_bound((n - 1) as nat, levels);
        lemma_floor_log2_bound((n - 1) as nat, level_for(n));
    } else {
        lemma_pow2_pos(level_for(n));
    }
}

proof fn lemma_floor_log2_bound(x: nat, levels: nat)
    requires
        x >= 1,
    ensures
        floor_log2(x) < levels <==> x < pow2(levels),
    decreases x,
{
    if x >= 2 && levels >= 1 {
        lemma_floor_log2_bound(x / 2, (levels - 1) as nat);
        assert(pow2(levels) == 2 * pow2((levels - 1) as nat));
    } else if x >= 2 {
        assert(pow2(levels) == 1);
    } else if levels >= 1 {
        lemma_pow2_mono(1, levels);
        assert(pow2(1) == 2) by {
            reveal_with_fuel(pow2, 2);
        }
    }
}

// ---------------------------------------------------------------------------
// Blocks and frames

/// `f` lies in `[start, start + len)`.
pub open spec fn in_span(start: int, len: int, f: int) -> bool {
    start <= f < start + len
}

/// The leaf of frame `f`.
pub open spec fn leaf(levels: nat, f: int) -> int {
    node_at(levels, 0, f)
}

/// Frame `f` lies in the block of `2^level` frames at position `pos`.
pub open spec fn in_block(level: nat, pos: int, f: int) -> bool {
    pos * pow2(level) <= f < (pos + 1) * pow2(level)
}

/// The nodes of level `k` below a block are those whose positions fall in
/// the block's range.
proof fn lemma_node_in_block(levels: nat, level: nat, pos: int, k: nat, q: int)
    requires
        k <= level <= levels,
        0 <= pos < pow2((levels - level) as nat),
        pos * pow2((level - k) as nat) <= q < (pos + 1) * pow2((level - k) as nat),
    ensures
        in_subtree(node_at(levels, k, q), node_at(levels, level, pos)),
        0 <= q < pow2((levels - k) as nat),
    decreases level - k,
{
    let d = (level - k) as nat;
    lemma_pow2_add(d, (levels - level) as nat);
    assert((d + (levels - level)) as nat == (levels - k) as nat);
    lemma_pow2_pos(d);
    let w = pow2(d);
    assert(0 <= pos * w) by (nonlinear_arith)
        requires
            pos >= 0,
            w >= 1,
    ;
    assert((pos + 1) * w <= pow2((levels - level) as nat) * w) by (nonlinear_arith)
        requires
            pos + 1 <= pow2((levels - level) as nat),
            w >= 1,
    ;
    if level == k {
        assert(pow2(0) == 1);
        assert(q == pos) by (nonlinear_arith)
            requires
                w == 1,
                pos * w <= q < (pos + 1) * w,
        ;
        assert(in_subtree(node_at(levels, k, q), node_at(levels, k, q)));
    } else {
        let h = pow2((d - 1) as nat);
        assert(w == 2 * h);
        let c = if q < (2 * pos + 1) * h {
            2 * pos
        } else {
            2 * pos + 1
        };
        assert(c * h <= q < (c + 1) * h) by (nonlinear_arith)
            requires
                pos * w <= q < (pos + 1) * w,
                w == 2 * h,
                c == (if q < (2 * pos + 1) * h {
                    2 * pos
                } else {
                    2 * pos + 1
                }),
        ;
        assert(((level - 1) - k) as nat == (d - 1) as nat);
        assert(pow2((levels - (level - 1)) as nat) == 2 * pow2((levels - level) as nat));
        lemma_node_in_block(levels, (level - 1) as nat, c, k, q);
        lemma_children(levels, level, pos);
        let node = node_at(levels, level, pos);
        lemma_parent_of_child(node);
        lemma_in_subtree_up(node_at(levels, k, q), node_at(levels, (level - 1) as nat, c));
    }
}

/// A block of `2^level` frames at a position of its level ends inside the tree.
pub proof fn lemma_block_fits(levels: nat, level: nat, pos: int)
    requires
        level <= levels,
        0 <= pos < pow2((levels - level) as nat),
    ensures
        0 <= pos * pow2(level),
        pos * pow2(level) + pow2(level) <= pow2(levels),
{
    lemma_pow2_pos(level);
    lemma_pow2_add(level, (levels - level) as nat);
    assert((level + (levels - level)) as nat == levels);
    let w = pow2(level);
    let m = pow2((levels - level) as nat);
    assert(0 <= pos * w && pos * w + w <= w * m) by (nonlinear_arith)
        requires
            0 <= pos < m,
            w >= 1,
    ;
}

/// The leaves of a block are the leaves of its subtree.
proof fn lemma_leaf_in_block(levels: nat, level: nat, pos: int, f: int)
    requires
        level <= levels,
        0 <= pos < pow2((levels - level) as nat),
        in_block(level, pos, f),
    ensures
        in_subtree(leaf(levels, f), node_at(levels, level, pos)),
        0 <= f < pow2(levels),
{
    assert((level - 0) as nat == level);
    lemma_node_in_block(levels, level, pos, 0, f);
}

/// The strict ancestors of `i` are what their children make them.
spec fn recomputed_above(t: Seq<Node>, i: int) -> bool {
    forall|a: int|
        0 <= a && #[trigger] in_subtree(i, a) && a != i ==> t[a] == combine(t[2 * a + 1], t[2 * a + 2])
}

/// Two trees agree off the strict ancestors of `i`.
spec fn agree_off_above(t1: Seq<Node>, t2: Seq<Node>, i: int) -> bool {
    forall|a: int| 0 <= a < t1.len() && !(#[trigger] in_subtree(i, a) && a != i) ==> t1[a] == t2[a]
}

proof fn lemma_agree_at(t1: Seq<Node>, t2: Seq<Node>, i: int, a: int)
    requires
        agree_off_above(t1, t2, i),
        0 <= a < t1.len(),
        !(in_subtree(i, a) && a != i),
    ensures
        t1[a] == t2[a],
{
}

proof fn lemma_same_above(t1: Seq<Node>, t2: Seq<Node>, i: int, j: int)
    requires
        t1.len() == t2.len(),
        t1.len() % 2 == 1,
        0 <= j,
        i < t1.len(),
        in_subtree(i, j),
        j != i,
        recomputed_above(t1, i),
        recomputed_above(t2, i),
        agree_off_above(t1, t2, i),
    ensures
        t1[j] == t2[j],
    decreases i - j,
{
    lemma_parent_of_child(j);
    lemma_desc_ge(i, j);
    let c1 = 2 * j + 1;
    let c2 = 2 * j + 2;
    assert(c1 < t1.len());
    assert(c2 < t1.len()) by {
        if c2 >= t1.len() {
            assert(i == c1);
            assert(t1.len() == c1 + 1);
        }
    }
    if in_subtree(i, c1) && c1 != i {
        lemma_same_above(t1, t2, i, c1);
    } else {
        lemma_agree_at(t1, t2, i, c1);
    }
    if in_subtree(i, c2) && c2 != i {
        lemma_same_above(t1, t2, i, c2);
    } else {
        lemma_agree_at(t1, t2, i, c2);
    }
    assert(recomputed_above(t1, i) && recomputed_above(t2, i));
    assert(t1[j] == combine(t1[c1], t1[c2]));
    assert(t2[j] == combine(t2[c1], t2[c2]));
}

proof fn lemma_desc_ge(i: int, j: int)
    requires
        in_subtree(i, j),
        i != j,
    ensures
        i >= 2 * j + 1,
    decreases i,
{
    lemma_child_of_parent(i);
    if parent(i) != j {
        lemma_desc_ge(parent(i), j);
    }
}

/// Giving a block back reads as freeing its node, recomputing its ancestors
/// and freeing its subtree.
proof fn lemma_release_as_update(t: Seq<Node>, i: int)
    requires
        0 <= i < t.len(),
        t.len() % 2 == 1,
    ensures
        release(t, i) == fill(lift(t.update(i, Node::Unused), i), i, Node::Unused),
{
    let x = t.update(i, Node::Unused);
    lemma_combine_up(t, i);
    assert(in_subtree(i, i));
    if i > 0 {
        let p = parent(i);
        lemma_child_of_parent(i);
        assert forall|j: int| 0 <= j < t.len() && !in_subtree(p, j) implies combine_up(t, i)[j] == x[j] by {
            if in_subtree(i, j) && j != i {
                assert(in_subtree(p, j));
            }
        }
        lemma_fix_up_frame(combine_up(t, i), x, p);
    } else {
        assert(combine_up(t, i) =~= x);
    }
}

/// After a claim and a release of the same free node, only the strict
/// ancestors of the node can differ from the first tree.
proof fn lemma_claim_release_off_path(t: Seq<Node>, levels: nat, i: int)
    requires
        tree_wf(t, levels),
        0 <= i < t.len(),
        t[i] == Node::Unused,
    ensures
        agree_off_above(release(claim(t, i), i), t, i),
{
    lemma_pow2_pos(levels);
    let t1 = claim(t, i);
    lemma_set_lift_fill_wf(t, levels, i, Node::Used);
    lemma_release_as_update(t1, i);
    let x = t1.update(i, Node::Unused);
    let r = release(t1, i);
    assert(in_subtree(i, i));
    if i > 0 {
        lemma_child_of_parent(i);
        lemma_fix_up(x, parent(i));
    }
    assert forall|a: int| 0 <= a < t.len() && !(#[trigger] in_subtree(i, a) && a != i) implies r[a] == t[a] by {
        if in_subtree(a, i) {
            lemma_subtree_state(t, levels, i, a);
        } else {
            if i > 0 && in_subtree(parent(i), a) {
                lemma_child_of_parent(i);
                assert(in_subtree(i, a));
            }
        }
    }
}

/// After a claim and a release of the same free node, the strict ancestors
/// of the node are recomputed from their children, as they were before.
proof fn lemma_claim_release_path(t: Seq<Node>, levels: nat, i: int)
    requires
        tree_wf(t, levels),
        0 <= i < t.len(),
        t[i] == Node::Unused,
    ensures
        recomputed_above(release(claim(t, i), i), i),
        recomputed_above(t, i),
{
    lemma_pow2_pos(levels);
    let t1 = claim(t, i);
    lemma_set_lift_fill_wf(t, levels, i, Node::Used);
    lemma_release_as_update(t1, i);
    let x = t1.update(i, Node::Unused);
    let r = release(t1, i);
    let l = lift(x, i);
    assert(in_subtree(i, i));
    if i > 0 {
        lemma_child_of_parent(i);
        lemma_fix_up(x, parent(i));
    }
    assert forall|a: int|
        0 <= a && #[trigger] in_subtree(i, a) && a != i implies r[a] == combine(r[2 * a + 1], r[2 * a + 2])
        && t[a] == combine(t[2 * a + 1], t[2 * a + 2]) by {
        lemma_child_of_parent(i);
        let p = parent(i);
        assert(in_subtree(p, a));
        assert(!in_subtree(a, i));
        lemma_parent_of_child(a);
        assert(!in_subtree(2 * a + 1, i) || 2 * a + 1 == i) by {
            if in_subtree(2 * a + 1, i) && 2 * a + 1 != i {
                lemma_child_of_parent(2 * a + 1);
            }
        }
        assert(!in_subtree(2 * a + 2, i) || 2 * a + 2 == i) by {
            if in_subtree(2 * a + 2, i) && 2 * a + 2 != i {
                lemma_child_of_parent(2 * a + 2);
            }
        }
        assert(a < pow2(levels) - 1) by {
            if a >= pow2(levels) - 1 {
                lemma_leaf_subtree(levels, a, i);
            }
        }
        assert(ok_at(t, a));
        if t[a] == Node::Used {
            lemma_subtree_state(t, levels, a, i);
        }
    }
}

/// Handing out a free block and giving it back restores the tree node for node.
pub proof fn lemma_claim_release(t: Seq<Node>, levels: nat, i: int)
    requires
        tree_wf(t, levels),
        0 <= i < t.len(),
        t[i] == Node::Unused,
    ensures
        release(claim(t, i), i) == t,
{
    lemma_pow2_pos(levels);
    let r = release(claim(t, i), i);
    lemma_set_lift_fill_wf(t, levels, i, Node::Used);
    lemma_release_as_update(claim(t, i), i);
    lemma_claim_release_off_path(t, levels, i);
    lemma_claim_release_path(t, levels, i);
    assert(r.len() == t.len()) by {
        if i > 0 {
            lemma_child_of_parent(i);
            lemma_fix_up(claim(t, i).update(i, Node::Unused), parent(i));
        }
    }
    assert forall|j: int| 0 <= j < t.len() implies r[j] == t[j] by {
        if in_subtree(i, j) && j != i {
            lemma_same_above(r, t, i, j);
        } else {
            lemma_agree_at(r, t, i, j);
        }
    }
    assert(r =~= t);
}

/// Allocating `n` frames and freeing `n` frames at the offset that came back
/// leaves the tree exactly as it was.
pub proof fn lemma_round_trip(t: Seq<Node>, levels: nat, n: nat)
    requires
        tree_wf(t, levels),
        alloc_offset(t, levels, n) is Some,
    ensures
        level_for(n) <= levels,
        alloc_offset(t, levels, n)->Some_0 < pow2(levels),
        release(
            alloc_tree(t, levels, n),
            free_node(levels, n, alloc_offset(t, levels, n)->Some_0 as nat),
        ) == t,
{
    let k = level_for(n);
    let p = first_free(t, levels, k);
    lemma_first_free(t, levels, k);
    let o = p * pow2(k);
    lemma_pow2_pos(k);
    lemma_pow2_add(k, (levels - k) as nat);
    assert(0 <= o) by (nonlinear_arith)
        requires
            p >= 0,
            pow2(k) >= 1,
            o == p * pow2(k),
    ;
    assert(o < pow2(levels)) by (nonlinear_arith)
        requires
            p < pow2((levels - k) as nat),
            pow2(levels) == pow2(k) * pow2((levels - k) as nat),
            o == p * pow2(k),
            pow2(k) >= 1,
    ;
    assert((o as nat) / pow2(k) == p) by {
        vstd::arithmetic::div_mod::lemma_div_multiples_vanish(p, pow2(k) as int);
        assert(p * pow2(k) == pow2(k) * p) by (nonlinear_arith);
    }
    let i = node_at(levels, k, p);
    assert(0 <= i < t.len()) by {
        assert(pow2((levels - k) as nat) <= pow2(levels)) by {
            lemma_pow2_mono((levels - k) as nat, levels);
        }
    }
    lemma_claim_release(t, levels, i);
}

/// A free position exists at `level` only if a leftmost one does.
proof fn lemma_first_free(t: Seq<Node>, levels: nat, level: nat)
    requires
        has_free(t, levels, level),
    ensures
        is_first_free(t, levels, level, first_free(t, levels, level)),
{
    let w = choose|pos: int| 0 <= pos < pow2((levels - level) as nat) && #[trigger] is_free(t, levels, level, pos);
    lemma_first_free_below(t, levels, level, w);
}

proof fn lemma_first_free_below(t: Seq<Node>, levels: nat, level: nat, w: int)
    requires
        0 <= w < pow2((levels - level) as nat),
        is_free(t, levels, level, w),
    ensures
        exists|pos: int| is_first_free(t, levels, level, pos),
    decreases w,
{
    if exists|q: int| 0 <= q < w && #[trigger] is_free(t, levels, level, q) {
        let q = choose|q: int| 0 <= q < w && #[trigger] is_free(t, levels, level, q);
        lemma_first_free_below(t, levels, level, q);
    } else {
        assert(is_first_free(t, levels, level, w));
    }
}

/// A well-formed tree whose frames are all free is free in every node: once
/// every allocation is given back, the tree is whole again.
pub proof fn lemma_all_free(t: Seq<Node>, levels: nat)
    requires
        tree_wf(t, levels),
        forall|f: int| 0 <= f < pow2(levels) ==> #[trigger] t[leaf(levels, f)] == Node::Unused,
    ensures
        forall|i: int| 0 <= i < t.len() ==> t[i] == Node::Unused,
{
    assert forall|i: int| 0 <= i < t.len() implies t[i] == Node::Unused by {
        lemma_all_free_at(t, levels, i);
    }
}

proof fn lemma_all_free_at(t: Seq<Node>, levels: nat, i: int)
    requires
        tree_wf(t, levels),
        forall|f: int| 0 <= f < pow2(levels) ==> #[trigger] t[leaf(levels, f)] == Node::Unused,
        0 <= i < t.len(),
    ensures
        t[i] == Node::Unused,
    decreases t.len() - i,
{
    lemma_pow2_pos(levels);
    if i >= pow2(levels) - 1 {
        let f = i - (pow2(levels) - 1);
        assert(leaf(levels, f) == i);
    } else {
        lemma_all_free_at(t, levels, 2 * i + 1);
        lemma_all_free_at(t, levels, 2 * i + 2);
        assert(ok_at(t, i));
    }
}

/// The block an allocation hands out holds only frames that were free, and
/// they are all taken afterwards; no other frame changes.
pub proof fn lemma_alloc_frames(t: Seq<Node>, levels: nat, n: nat, f: int)
    requires
        tree_wf(t, levels),
        alloc_offset(t, levels, n) is Some,
        0 <= f < pow2(levels),
    ensures
        in_block(level_for(n), alloc_offset(t, levels, n)->Some_0 / (pow2(level_for(n)) as int), f) ==> (t[leaf(levels, f)]
            == Node::Unused && alloc_tree(t, levels, n)[leaf(levels, f)] == Node::Used),
        !in_block(level_for(n), alloc_offset(t, levels, n)->Some_0 / (pow2(level_for(n)) as int), f) ==> alloc_tree(
            t,
            levels,
            n,
        )[leaf(levels, f)] == t[leaf(levels, f)],
        alloc_offset(t, levels, n)->Some_0 == (alloc_offset(t, levels, n)->Some_0 / (pow2(level_for(n)) as int)) * pow2(level_for(n)),
        0 <= alloc_offset(t, levels, n)->Some_0 / (pow2(level_for(n)) as int) && alloc_offset(t, levels, n)->Some_0 / (pow2(level_for(n)) as int) < pow2((levels - level_for(n)) as nat),
{
    let k = level_for(n);
    let p = first_free(t, levels, k);
    lemma_first_free(t, levels, k);
    lemma_pow2_pos(k);
    lemma_pow2_pos(levels);
    assert((p * pow2(k)) / pow2(k) as int == p) by {
        vstd::arithmetic::div_mod::lemma_div_multiples_vanish(p, pow2(k) as int);
        assert(p * pow2(k) == pow2(k) * p) by (nonlinear_arith);
    }
    let i = node_at(levels, k, p);
    assert(0 <= i < t.len()) by {
        lemma_pow2_mono((levels - k) as nat, levels);
    }
    lemma_set_lift_fill_wf(t, levels, i, Node::Used);
    let lf = leaf(levels, f);
    if in_block(k, p, f) {
        lemma_leaf_in_block(levels, k, p, f);
        lemma_subtree_state(t, levels, i, lf);
    } else {
        // a leaf outside the block is outside the subtree and no ancestor
        assert(!in_subtree(lf, i)) by {
            if in_subtree(lf, i) {
                lemma_leaf_block_of_subtree(levels, k, p, f);
            }
        }
        assert(!(in_subtree(i, lf) && lf != i)) by {
            if in_subtree(i, lf) && lf != i {
                lemma_leaf_subtree(levels, lf, i);
            }
        }
    }
}

/// A leaf in the subtree of a block lies in the block.
proof fn lemma_leaf_block_of_subtree(levels: nat, level: nat, pos: int, f: int)
    requires
        level <= levels,
        0 <= pos < pow2((levels - level) as nat),
        0 <= f < pow2(levels),
        in_subtree(leaf(levels, f), node_at(levels, level, pos)),
    ensures
        in_block(level, pos, f),
{
    // the block of f at `level` is a block whose subtree holds the leaf;
    // two nodes of one level never share a leaf
    lemma_pow2_pos(level);
    lemma_pow2_add(level, (levels - level) as nat);
    let q = f / pow2(level) as int;
    vstd::arithmetic::div_mod::lemma_fundamental_div_mod(f, pow2(level) as int);
    vstd::arithmetic::div_mod::lemma_mod_bound(f, pow2(level) as int);
    assert(in_block(level, q, f)) by (nonlinear_arith)
        requires
            f == pow2(level) * q + f % (pow2(level) as int),
            0 <= f % (pow2(level) as int) && f % (pow2(level) as int) < pow2(level),
    ;
    assert(0 <= q < pow2((levels - level) as nat)) by {
        vstd::arithmetic::div_mod::lemma_div_pos_is_pos(f, pow2(level) as int);
        vstd::arithmetic::div_mod::lemma_div_by_multiple_is_strongly_ordered(f, pow2(levels) as int, pow2((levels - level) as nat) as int, pow2(level) as int);
        assert(pow2(levels) == pow2((levels - level) as nat) * pow2(level)) by (nonlinear_arith)
            requires pow2(levels) == pow2(level) * pow2((levels - level) as nat);
        vstd::arithmetic::div_mod::lemma_div_multiples_vanish(pow2((levels - level) as nat) as int, pow2(level) as int);
        assert(pow2((levels - level) as nat) * pow2(level) == pow2(level) * pow2((levels - level) as nat)) by (nonlinear_arith);
    }
    lemma_leaf_in_block(levels, level, q, f);
    if q != pos {
        lemma_subtree_unique(levels, level, q, pos, leaf(levels, f));
    }
}

/// Two distinct nodes of one level have disjoint subtrees.
proof fn lemma_subtree_unique(levels: nat, level: nat, a: int, b: int, j: int)
    requires
        level <= levels,
        0 <= a < pow2((levels - level) as nat),
        0 <= b < pow2((levels - level) as nat),
        a != b,
        in_subtree(j, node_at(levels, level, a)),
    ensures
        !in_subtree(j, node_at(levels, level, b)),
    decreases j,
{
    let na = node_at(levels, level, a);
    let nb = node_at(levels, level, b);
    if in_subtree(j, nb) {
        if j == na || j == nb {
            // j is one of them and lies below the other: impossible, below
            // means a greater level-difference than zero
            if j == na {
                lemma_level_descend(levels, level, b, j);
            } else {
                lemma_level_descend(levels, level, a, j);
            }
        } else {
            lemma_child_of_parent(j);
            lemma_subtree_unique(levels, level, a, b, parent(j));
        }
    }
}

/// A strict descendant of a node of `level` lies past the end of that level.
proof fn lemma_level_descend(levels: nat, level: nat, pos: int, j: int)
    requires
        level <= levels,
        0 <= pos < pow2((levels - level) as nat),
        in_subtree(j, node_at(levels, level, pos)),
        j != node_at(levels, level, pos),
    ensures
        j >= 2 * pow2((levels - level) as nat) - 1,
    decreases j,
{
    let n = node_at(levels, level, pos);
    lemma_pow2_pos((levels - level) as nat);
    lemma_child_of_parent(j);
    if parent(j) != n {
        lemma_level_descend(levels, level, pos, parent(j));
    }
}

/// Frames pinned by `mark_leaves` are taken; others keep their state.
pub proof fn lemma_mark_leaves(t: Seq<Node>, levels: nat, frame: nat, count: nat, f: int)
    requires
        tree_wf(t, levels),
        frame + count <= pow2(levels),
        0 <= f < pow2(levels),
    ensures
        tree_wf(mark_leaves(t, levels, frame, count), levels),
        frame <= f < frame + count ==> mark_leaves(t, levels, frame, count)[leaf(levels, f)] == Node::Used,
        !(frame <= f < frame + count) ==> mark_leaves(t, levels, frame, count)[leaf(levels, f)] == t[leaf(levels, f)],
    decreases count,
{
    lemma_pow2_pos(levels);
    if count > 0 {
        let c1 = (count - 1) as nat;
        lemma_mark_leaves(t, levels, frame, c1, f);
        let t1 = mark_leaves(t, levels, frame, c1);
        let lf = leaf(levels, frame + count - 1);
        lemma_set_lift_fill_wf(t1, levels, lf, Node::Used);
        lemma_fill_leaf(lift(t1.update(lf, Node::Used), lf), levels, lf);
        let g = leaf(levels, f);
        if g != lf {
            lemma_leaf_subtree(levels, lf, g);
            lemma_leaf_subtree(levels, g, lf);
        }
    }
}

/// Frames taken before an allocation stay taken after it.
pub proof fn lemma_alloc_keeps_used(t: Seq<Node>, levels: nat, n: nat, f: int)
    requires
        tree_wf(t, levels),
        0 <= f < pow2(levels),
        t[leaf(levels, f)] == Node::Used,
    ensures
        alloc_tree(t, levels, n)[leaf(levels, f)] == Node::Used,
{
    if alloc_offset(t, levels, n) is Some {
        lemma_alloc_frames(t, levels, n, f);
    }
}

/// An allocation never hands out a frame that is taken, such as one pinned
/// by `mark_used`.
pub proof fn lemma_taken_not_handed_out(t: Seq<Node>, levels: nat, n: nat, f: int)
    requires
        tree_wf(t, levels),
        alloc_offset(t, levels, n) is Some,
        0 <= f < pow2(levels),
        t[leaf(levels, f)] != Node::Unused,
    ensures
        !(alloc_offset(t, levels, n)->Some_0 <= f < alloc_offset(t, levels, n)->Some_0 + block_size(n)),
{
    let k = level_for(n);
    let o = alloc_offset(t, levels, n)->Some_0;
    lemma_alloc_frames(t, levels, n, f);
    let p = o / pow2(k) as int;
    if o <= f < o + block_size(n) {
        assert(in_block(k, p, f)) by (nonlinear_arith)
            requires o == p * pow2(k), o <= f < o + pow2(k);
    }
}

/// Allocation keeps a tree well formed.
pub proof fn lemma_alloc_wf(t: Seq<Node>, levels: nat, n: nat)
    requires
        tree_wf(t, levels),
    ensures
        tree_wf(alloc_tree(t, levels, n), levels),
{
    let k = level_for(n);
    if alloc_offset(t, levels, n) is Some {
        lemma_pow2_pos(levels);
        lemma_alloc_frames(t, levels, n, 0);
        let p = first_free(t, levels, k);
        lemma_first_free(t, levels, k);
        let i = node_at(levels, k, p);
        lemma_pow2_mono((levels - k) as nat, levels);
        lemma_set_lift_fill_wf(t, levels, i, Node::Used);
    }
}

/// Number of free frames among frames `[0, m)`.
pub open spec fn free_frames(t: Seq<Node>, levels: nat, m: int) -> nat
    decreases m,
{
    if m <= 0 {
        0
    } else {
        free_frames(t, levels, m - 1) + if t[leaf(levels, m - 1)] == Node::Unused {
            1nat
        } else {
            0nat
        }
    }
}

/// Frames of `[o, o + s)` below `m`.
spec fn overlap(o: int, s: int, m: int) -> int {
    if m <= o {
        0
    } else if m >= o + s {
        s
    } else {
        m - o
    }
}

/// `t2` is `t` with the free frames `[o, o + s)` taken.
spec fn takes_block(t: Seq<Node>, t2: Seq<Node>, levels: nat, o: int, s: int) -> bool {
    forall|f: int|
        0 <= f < pow2(levels) ==> (#[trigger] in_span(o, s, f) ==> t[leaf(levels, f)] == Node::Unused
            && t2[leaf(levels, f)] == Node::Used) && (!in_span(o, s, f) ==> t2[leaf(levels, f)] == t[leaf(
            levels,
            f,
        )])
}

proof fn lemma_count_take(t: Seq<Node>, t2: Seq<Node>, levels: nat, o: int, s: int, m: int)
    requires
        takes_block(t, t2, levels, o, s),
        0 <= o,
        0 <= s,
        0 <= m <= pow2(levels),
    ensures
        free_frames(t2, levels, m) + overlap(o, s, m) == free_frames(t, levels, m),
    decreases m,
{
    if m > 0 {
        lemma_count_take(t, t2, levels, o, s, m - 1);
        let f = m - 1;
        if in_span(o, s, f) {
            assert(t[leaf(levels, f)] == Node::Unused && t2[leaf(levels, f)] == Node::Used);
            assert(overlap(o, s, m) == overlap(o, s, m - 1) + 1);
        } else {
            assert(t2[leaf(levels, f)] == t[leaf(levels, f)]);
            assert(overlap(o, s, m) == overlap(o, s, m - 1));
        }
    }
}

/// An allocation succeeds only where its block fits in the free frames, and
/// takes exactly that many: a run of requests whose blocks add up to more
/// than the free frames fails at the first request over the budget.
pub proof fn lemma_exhaustion(t: Seq<Node>, levels: nat, n: nat)
    requires
        tree_wf(t, levels),
    ensures
        block_size(n) > free_frames(t, levels, pow2(levels) as int) ==> alloc_offset(t, levels, n) is None,
        alloc_offset(t, levels, n) is Some ==> free_frames(alloc_tree(t, levels, n), levels, pow2(levels) as int)
            + block_size(n) == free_frames(t, levels, pow2(levels) as int),
{
    if alloc_offset(t, levels, n) is Some {
        let k = level_for(n);
        let o = alloc_offset(t, levels, n)->Some_0;
        let t2 = alloc_tree(t, levels, n);
        lemma_pow2_pos(levels);
        lemma_alloc_frames(t, levels, n, 0);
        let p = o / (pow2(k) as int);
        lemma_pow2_pos(k);
        lemma_pow2_add(k, (levels - k) as nat);
        assert(0 <= o) by (nonlinear_arith)
            requires
                o == p * pow2(k),
                p >= 0,
        ;
        assert(o + pow2(k) <= pow2(levels)) by (nonlinear_arith)
            requires
                o == p * pow2(k),
                p < pow2((levels - k) as nat),
                pow2(levels) == pow2(k) * pow2((levels - k) as nat),
        ;
        assert forall|f: int| 0 <= f < pow2(levels) implies (#[trigger] in_span(o, pow2(k) as int, f) ==> t[leaf(
            levels,
            f,
        )] == Node::Unused && t2[leaf(levels, f)] == Node::Used) && (!in_span(o, pow2(k) as int, f)
            ==> t2[leaf(levels, f)] == t[leaf(levels, f)]) by {
            lemma_alloc_frames(t, levels, n, f);
            if in_span(o, pow2(k) as int, f) {
                assert(in_block(k, p, f)) by (nonlinear_arith)
                    requires
                        o == p * pow2(k),
                        o <= f < o + pow2(k),
                ;
            } else {
                assert(!in_block(k, p, f)) by (nonlinear_arith)
                    requires
                        o == p * pow2(k),
                        !(o <= f < o + pow2(k)),
                ;
            }
        }
        lemma_count_take(t, t2, levels, o, pow2(k) as int, pow2(levels) as int);
    }
}

/// The tree after the requests `reqs`, in order.
pub open spec fn after_requests(t: Seq<Node>, levels: nat, reqs: Seq<nat>) -> Seq<Node>
    decreases reqs.len(),
{
    if reqs.len() == 0 {
        t
    } else {
        alloc_tree(after_requests(t, levels, reqs.drop_last()), levels, reqs.last())
    }
}

/// Frames the blocks of `reqs` add up to.
pub open spec fn total_blocks(reqs: Seq<nat>) -> nat
    decreases reqs.len(),
{
    if reqs.len() == 0 {
        0
    } else {
        total_blocks(reqs.drop_last()) + block_size(reqs.last())
    }
}

/// Every request of `reqs` was granted.
pub open spec fn all_granted(t: Seq<Node>, levels: nat, reqs: Seq<nat>) -> bool {
    forall|j: int|
        0 <= j < reqs.len() ==> (#[trigger] alloc_offset(after_requests(t, levels, reqs.take(j)), levels, reqs[j]))
            is Some
}

proof fn lemma_granted_count(t: Seq<Node>, levels: nat, reqs: Seq<nat>)
    requires
        tree_wf(t, levels),
        all_granted(t, levels, reqs),
    ensures
        tree_wf(after_requests(t, levels, reqs), levels),
        free_frames(after_requests(t, levels, reqs), levels, pow2(levels) as int) + total_blocks(reqs) == free_frames(
            t,
            levels,
            pow2(levels) as int,
        ),
    decreases reqs.len(),
{
    if reqs.len() > 0 {
        let r = reqs.drop_last();
        assert forall|j: int| 0 <= j < r.len() implies (#[trigger] alloc_offset(
            after_requests(t, levels, r.take(j)),
            levels,
            r[j],
        )) is Some by {
            assert(r.take(j) =~= reqs.take(j));
            assert(alloc_offset(after_requests(t, levels, reqs.take(j)), levels, reqs[j]) is Some);
        }
        lemma_granted_count(t, levels, r);
        let j = reqs.len() - 1;
        assert(reqs.take(j) =~= r);
        assert(alloc_offset(after_requests(t, levels, reqs.take(j)), levels, reqs[j]) is Some);
        lemma_exhaustion(after_requests(t, levels, r), levels, reqs.last());
        lemma_alloc_wf(after_requests(t, levels, r), levels, reqs.last());
    }
}

/// Once granted requests and one more add up to more frames than were free,
/// that one more request fails.
pub proof fn lemma_exhaustion_sequence(t: Seq<Node>, levels: nat, reqs: Seq<nat>, n: nat)
    requires
        tree_wf(t, levels),
        all_granted(t, levels, reqs),
        total_blocks(reqs) + block_size(n) > free_frames(t, levels, pow2(levels) as int),
    ensures
        alloc_offset(after_requests(t, levels, reqs), levels, n) is None,
{
    lemma_granted_count(t, levels, reqs);
    lemma_exhaustion(after_requests(t, levels, reqs), levels, n);
}

proof fn lemma_after_requests_wf(t: Seq<Node>, levels: nat, reqs: Seq<nat>)
    requires
        tree_wf(t, levels),
    ensures
        tree_wf(after_requests(t, levels, reqs), levels),
    decreases reqs.len(),
{
    if reqs.len() > 0 {
        lemma_after_requests_wf(t, levels, reqs.drop_last());
        lemma_alloc_wf(after_requests(t, levels, reqs.drop_last()), levels, reqs.last());
    }
}

proof fn lemma_after_take_step(t: Seq<Node>, levels: nat, reqs: Seq<nat>, b: int)
    requires
        0 < b <= reqs.len(),
    ensures
        after_requests(t, levels, reqs.take(b)) == alloc_tree(
            after_requests(t, levels, reqs.take(b - 1)),
            levels,
            reqs[b - 1],
        ),
{
    assert(reqs.take(b).drop_last() =~= reqs.take(b - 1));
    assert(reqs.take(b).last() == reqs[b - 1]);
}

/// A frame taken after the first `a` requests is still taken after the first `b`.
proof fn lemma_stays_used(t: Seq<Node>, levels: nat, reqs: Seq<nat>, a: int, b: int, f: int)
    requires
        tree_wf(t, levels),
        0 <= a <= b <= reqs.len(),
        0 <= f < pow2(levels),
        after_requests(t, levels, reqs.take(a))[leaf(levels, f)] == Node::Used,
    ensures
        after_requests(t, levels, reqs.take(b))[leaf(levels, f)] == Node::Used,
    decreases b - a,
{
    if b > a {
        lemma_stays_used(t, levels, reqs, a, b - 1, f);
        lemma_after_take_step(t, levels, reqs, b);
        lemma_after_requests_wf(t, levels, reqs.take(b - 1));
        lemma_alloc_keeps_used(after_requests(t, levels, reqs.take(b - 1)), levels, reqs[b - 1], f);
    }
}

/// The first frame granted to request `j` of a run.
pub open spec fn granted_at(t: Seq<Node>, levels: nat, reqs: Seq<nat>, j: int) -> int {
    alloc_offset(after_requests(t, levels, reqs.take(j)), levels, reqs[j])->Some_0
}

/// A frame of the block granted to request `j` is taken from then on.
proof fn lemma_granted_taken(t: Seq<Node>, levels: nat, reqs: Seq<nat>, j: int, f: int)
    requires
        tree_wf(t, levels),
        all_granted(t, levels, reqs),
        0 <= j < reqs.len(),
        in_span(granted_at(t, levels, reqs, j), block_size(reqs[j]) as int, f),
    ensures
        0 <= f < pow2(levels),
        after_requests(t, levels, reqs.take(j + 1))[leaf(levels, f)] == Node::Used,
{
    let tj = after_requests(t, levels, reqs.take(j));
    lemma_after_requests_wf(t, levels, reqs.take(j));
    assert(alloc_offset(tj, levels, reqs[j]) is Some);
    lemma_pow2_pos(levels);
    lemma_alloc_frames(tj, levels, reqs[j], 0);
    let k = level_for(reqs[j]);
    let o = granted_at(t, levels, reqs, j);
    let p = o / (pow2(k) as int);
    lemma_pow2_add(k, (levels - k) as nat);
    assert(in_block(k, p, f)) by (nonlinear_arith)
        requires
            o == p * pow2(k),
            o <= f < o + pow2(k),
    ;
    lemma_leaf_in_block(levels, k, p, f);
    lemma_alloc_frames(tj, levels, reqs[j], f);
    lemma_after_take_step(t, levels, reqs, j + 1);
}

/// Blocks granted to two requests of one run never overlap, as long as
/// neither is given back.
pub proof fn lemma_granted_disjoint(t: Seq<Node>, levels: nat, reqs: Seq<nat>, j: int, m: int)
    requires
        tree_wf(t, levels),
        all_granted(t, levels, reqs),
        0 <= j < m < reqs.len(),
    ensures
        granted_at(t, levels, reqs, j) + block_size(reqs[j]) <= granted_at(t, levels, reqs, m)
            || granted_at(t, levels, reqs, m) + block_size(reqs[m]) <= granted_at(t, levels, reqs, j),
{
    let oj = granted_at(t, levels, reqs, j);
    let om = granted_at(t, levels, reqs, m);
    if !(oj + block_size(reqs[j]) <= om || om + block_size(reqs[m]) <= oj) {
        let f = if oj < om { om } else { oj };
        let tm = after_requests(t, levels, reqs.take(m));
        lemma_after_requests_wf(t, levels, reqs.take(m));
        assert(alloc_offset(tm, levels, reqs[m]) is Some);
        lemma_pow2_pos(levels);
        lemma_alloc_frames(tm, levels, reqs[m], 0);
        let km = level_for(reqs[m]);
        let pm = om / (pow2(km) as int);
        assert(0 <= om) by (nonlinear_arith)
            requires
                om == pm * pow2(km),
                pm >= 0,
        ;
        let tj = after_requests(t, levels, reqs.take(j));
        lemma_after_requests_wf(t, levels, reqs.take(j));
        assert(alloc_offset(tj, levels, reqs[j]) is Some);
        lemma_alloc_frames(tj, levels, reqs[j], 0);
        let kj = level_for(reqs[j]);
        let pj = oj / (pow2(kj) as int);
        assert(0 <= oj) by (nonlinear_arith)
            requires
                oj == pj * pow2(kj),
                pj >= 0,
        ;
        assert(in_span(oj, block_size(reqs[j]) as int, f));
        lemma_granted_taken(t, levels, reqs, j, f);
        lemma_stays_used(t, levels, reqs, j + 1, m, f);
        lemma_taken_not_handed_out(tm, levels, reqs[m], f);
    }
}

/// Frames pinned before a run of requests are granted to none of them.
pub proof fn lemma_reserved_run(t: Seq<Node>, levels: nat, frame: nat, count: nat, reqs: Seq<nat>, j: int)
    requires
        tree_wf(t, levels),
        frame + count <= pow2(levels),
        all_granted(mark_leaves(t, levels, frame, count), levels, reqs),
        0 <= j < reqs.len(),
    ensures
        forall|f: int|
            #[trigger] in_span(frame as int, count as int, f) ==> !in_span(
                granted_at(mark_leaves(t, levels, frame, count), levels, reqs, j),
                block_size(reqs[j]) as int,
                f,
            ),
{
    let m0 = mark_leaves(t, levels, frame, count);
    lemma_pow2_pos(levels);
    lemma_mark_leaves(t, levels, frame, count, 0);
    let tj = after_requests(m0, levels, reqs.take(j));
    lemma_after_requests_wf(m0, levels, reqs.take(j));
    assert(alloc_offset(tj, levels, reqs[j]) is Some);
    assert(reqs.take(0) =~= Seq::<nat>::empty());
    assert forall|f: int| #[trigger] in_span(frame as int, count as int, f) implies !in_span(
        granted_at(m0, levels, reqs, j),
        block_size(reqs[j]) as int,
        f,
    ) by {
        lemma_mark_leaves(t, levels, frame, count, f);
        lemma_stays_used(m0, levels, reqs, 0, j, f);
        lemma_taken_not_handed_out(tj, levels, reqs[j], f);
    }
}

/// Frame `f` lies in the block of live allocation `j` (first frame, frames asked).
pub open spec fn in_live(live: Seq<(nat, nat)>, j: int, f: int) -> bool {
    in_span(live[j].0 as int, block_size(live[j].1) as int, f)
}

/// Live allocations `j` and `m` hold disjoint blocks.
pub open spec fn live_apart(live: Seq<(nat, nat)>, j: int, m: int) -> bool {
    live[j].0 + block_size(live[j].1) <= live[m].0 || live[m].0 + block_size(live[m].1) <= live[j].0
}

/// `live` lists the allocations handed out and not given back: each is a
/// block of the tree whose frames are taken, no two overlap, and every taken
/// frame lies in one of them.
pub open spec fn live_ok(t: Seq<Node>, levels: nat, live: Seq<(nat, nat)>) -> bool {
    &&& forall|j: int|
        0 <= j < live.len() ==> level_for(#[trigger] live[j].1) <= levels && live[j].0 % block_size(live[j].1) == 0
            && live[j].0 + block_size(live[j].1) <= pow2(levels)
    &&& forall|j: int, f: int| 0 <= j < live.len() && #[trigger] in_live(live, j, f) ==> t[leaf(levels, f)] == Node::Used
    &&& forall|f: int|
        0 <= f < pow2(levels) && #[trigger] t[leaf(levels, f)] != Node::Unused ==> exists|j: int|
            0 <= j < live.len() && #[trigger] in_live(live, j, f)
    &&& forall|j: int, m: int| 0 <= j < live.len() && 0 <= m < live.len() && j != m ==> #[trigger] live_apart(live, j, m)
}

/// A tree with every node free has no live allocation.
pub proof fn lemma_live_empty(t: Seq<Node>, levels: nat)
    requires
        tree_wf(t, levels),
        forall|i: int| 0 <= i < t.len() ==> t[i] == Node::Unused,
    ensures
        live_ok(t, levels, Seq::empty()),
{
    lemma_pow2_pos(levels);
    assert forall|f: int| 0 <= f < pow2(levels) implies #[trigger] t[leaf(levels, f)] == Node::Unused by {
        assert(0 <= leaf(levels, f) < t.len());
    }
}

/// Once every allocation is given back, in whatever order, every node of the
/// tree is free again.
pub proof fn lemma_live_none_all_free(t: Seq<Node>, levels: nat)
    requires
        tree_wf(t, levels),
        live_ok(t, levels, Seq::empty()),
    ensures
        forall|i: int| 0 <= i < t.len() ==> t[i] == Node::Unused,
{
    assert forall|f: int| 0 <= f < pow2(levels) implies #[trigger] t[leaf(levels, f)] == Node::Unused by {
        if t[leaf(levels, f)] != Node::Unused {
            let j = choose|j: int| 0 <= j < Seq::<(nat, nat)>::empty().len() && #[trigger] in_live(Seq::empty(), j, f);
        }
    }
    lemma_all_free(t, levels);
}

/// A block whose first frame is a multiple of its size is the block of the
/// node at its level and position.
proof fn lemma_span_block(o: int, k: nat, f: int)
    requires
        o >= 0,
        o % (pow2(k) as int) == 0,
    ensures
        o == (o / (pow2(k) as int)) * pow2(k),
        in_span(o, pow2(k) as int, f) <==> in_block(k, o / (pow2(k) as int), f),
{
    lemma_pow2_pos(k);
    let w = pow2(k) as int;
    vstd::arithmetic::div_mod::lemma_fundamental_div_mod(o, w);
    let p = o / w;
    assert(o == p * w) by (nonlinear_arith)
        requires
            o == w * p + o % w,
            o % w == 0,
    ;
    assert((p + 1) * w == o + w) by (nonlinear_arith)
        requires
            o == p * w,
    ;
}

/// Allocation keeps the live list accurate once its block joins the list.
pub proof fn lemma_live_alloc(t: Seq<Node>, levels: nat, live: Seq<(nat, nat)>, n: nat)
    requires
        tree_wf(t, levels),
        live_ok(t, levels, live),
        alloc_offset(t, levels, n) is Some,
    ensures
        live_ok(alloc_tree(t, levels, n), levels, live.push((alloc_offset(t, levels, n)->Some_0 as nat, n))),
{
    let t2 = alloc_tree(t, levels, n);
    let o = alloc_offset(t, levels, n)->Some_0;
    let k = level_for(n);
    let live2 = live.push((o as nat, n));
    lemma_pow2_pos(levels);
    lemma_pow2_pos(k);
    lemma_alloc_frames(t, levels, n, 0);
    let p = o / (pow2(k) as int);
    lemma_block_fits(levels, k, p);
    vstd::arithmetic::div_mod::lemma_mod_multiples_basic(p, pow2(k) as int);
    assert(live2[live.len() as int] == (o as nat, n));
    assert forall|j: int|
        0 <= j < live2.len() implies level_for(#[trigger] live2[j].1) <= levels && live2[j].0 % block_size(
        live2[j].1,
    ) == 0 && live2[j].0 + block_size(live2[j].1) <= pow2(levels) by {
        if j < live.len() {
            assert(live2[j] == live[j]);
        }
    }
    // the new block's frames were free and are taken now
    assert forall|f: int| #[trigger] in_span(o, pow2(k) as int, f) implies 0 <= f < pow2(levels) && t[leaf(levels, f)]
        == Node::Unused && t2[leaf(levels, f)] == Node::Used by {
        lemma_span_block(o, k, f);
        lemma_alloc_frames(t, levels, n, f);
    }
    assert forall|j: int, f: int| 0 <= j < live2.len() && #[trigger] in_live(live2, j, f) implies t2[leaf(levels, f)]
        == Node::Used by {
        if j < live.len() {
            assert(live2[j] == live[j]);
            assert(in_live(live, j, f));
            lemma_alloc_keeps_used(t, levels, n, f);
        } else {
            assert(in_span(o, pow2(k) as int, f));
        }
    }
    assert forall|f: int| 0 <= f < pow2(levels) && #[trigger] t2[leaf(levels, f)] != Node::Unused implies exists|
        j: int,
    | 0 <= j < live2.len() && #[trigger] in_live(live2, j, f) by {
        lemma_alloc_frames(t, levels, n, f);
        lemma_span_block(o, k, f);
        if in_span(o, pow2(k) as int, f) {
            assert(in_live(live2, live.len() as int, f));
        } else {
            assert(t[leaf(levels, f)] != Node::Unused);
            let j = choose|j: int| 0 <= j < live.len() && #[trigger] in_live(live, j, f);
            assert(live2[j] == live[j]);
            assert(in_live(live2, j, f));
        }
    }
    assert forall|j: int, m: int| 0 <= j < live2.len() && 0 <= m < live2.len() && j != m implies #[trigger] live_apart(
        live2,
        j,
        m,
    ) by {
        if j < live.len() && m < live.len() {
            assert(live2[j] == live[j] && live2[m] == live[m]);
            assert(live_apart(live, j, m));
        } else {
            let q = if j < live.len() { j } else { m };
            assert(q < live.len());
            assert(live2[q] == live[q]);
            let oq = live[q].0 as int;
            let bq = block_size(live[q].1) as int;
            if !(o + pow2(k) <= oq || oq + bq <= o) {
                let f = if o < oq { oq } else { o };
                lemma_pow2_pos(level_for(live[q].1));
                assert(in_live(live, q, f));
                assert(in_span(o, pow2(k) as int, f));
            }
        }
    }
}

/// Giving back a live allocation keeps the live list accurate once it
/// leaves the list.
pub proof fn lemma_live_free(t: Seq<Node>, levels: nat, live: Seq<(nat, nat)>, j: int)
    requires
        tree_wf(t, levels),
        live_ok(t, levels, live),
        0 <= j < live.len(),
    ensures
        tree_wf(release(t, free_node(levels, live[j].1, live[j].0)), levels),
        live_ok(release(t, free_node(levels, live[j].1, live[j].0)), levels, live.remove(j)),
{
    let n = live[j].1;
    let o = live[j].0 as int;
    let k = level_for(n);
    let p = o / (pow2(k) as int);
    let i = free_node(levels, n, live[j].0);
    lemma_pow2_pos(levels);
    lemma_pow2_pos(k);
    assert(level_for(live[j].1) <= levels);
    lemma_span_block(o, k, 0);
    lemma_pow2_add(k, (levels - k) as nat);
    assert(p < pow2((levels - k) as nat)) by (nonlinear_arith)
        requires
            o == p * pow2(k),
            o + pow2(k) <= pow2(levels),
            pow2(levels) == pow2(k) * pow2((levels - k) as nat),
            pow2(k) >= 1,
    ;
    assert(p >= 0) by (nonlinear_arith)
        requires
            o == p * pow2(k),
            o >= 0,
            pow2(k) >= 1,
    ;
    assert(i == node_at(levels, k, p));
    lemma_pow2_mono((levels - k) as nat, levels);
    assert(0 <= i < t.len());
    let t2 = release(t, i);
    lemma_release_as_update(t, i);
    lemma_set_lift_fill_wf(t, levels, i, Node::Unused);
    let live2 = live.remove(j);
    // frames of the block are free afterwards; other frames keep their state
    assert forall|f: int| 0 <= f < pow2(levels) implies (#[trigger] in_span(o, pow2(k) as int, f) ==> t2[leaf(
        levels,
        f,
    )] == Node::Unused) && (!in_span(o, pow2(k) as int, f) ==> t2[leaf(levels, f)] == t[leaf(levels, f)]) by {
        lemma_span_block(o, k, f);
        let lf = leaf(levels, f);
        if in_span(o, pow2(k) as int, f) {
            lemma_leaf_in_block(levels, k, p, f);
        } else {
            assert(!in_subtree(lf, i)) by {
                if in_subtree(lf, i) {
                    lemma_leaf_block_of_subtree(levels, k, p, f);
                }
            }
            assert(!(in_subtree(i, lf) && lf != i)) by {
                if in_subtree(i, lf) && lf != i {
                    lemma_leaf_subtree(levels, lf, i);
                }
            }
        }
    }
    assert forall|x: int|
        0 <= x < live2.len() implies level_for(#[trigger] live2[x].1) <= levels && live2[x].0 % block_size(
        live2[x].1,
    ) == 0 && live2[x].0 + block_size(live2[x].1) <= pow2(levels) by {
        if x < j {
            assert(live2[x] == live[x]);
        } else {
            assert(live2[x] == live[x + 1]);
        }
    }
    assert forall|x: int, f: int| 0 <= x < live2.len() && #[trigger] in_live(live2, x, f) implies t2[leaf(levels, f)]
        == Node::Used by {
        let y = if x < j { x } else { x + 1 };
        assert(live2[x] == live[y]);
        assert(in_live(live, y, f));
        assert(live_apart(live, y, j));
        lemma_pow2_pos(level_for(live[y].1));
        assert(!in_span(o, pow2(k) as int, f));
        assert(0 <= f < pow2(levels));
    }
    assert forall|f: int| 0 <= f < pow2(levels) && #[trigger] t2[leaf(levels, f)] != Node::Unused implies exists|
        x: int,
    | 0 <= x < live2.len() && #[trigger] in_live(live2, x, f) by {
        assert(!in_span(o, pow2(k) as int, f));
        assert(t[leaf(levels, f)] != Node::Unused);
        let y = choose|y: int| 0 <= y < live.len() && #[trigger] in_live(live, y, f);
        assert(y != j);
        let x = if y < j { y } else { y - 1 };
        assert(live2[x] == live[y]);
        assert(in_live(live2, x, f));
    }
    assert forall|x: int, m: int| 0 <= x < live2.len() && 0 <= m < live2.len() && x != m implies #[trigger] live_apart(
        live2,
        x,
        m,
    ) by {
        let y = if x < j { x } else { x + 1 };
        let z = if m < j { m } else { m + 1 };
        assert(live2[x] == live[y] && live2[m] == live[z]);
        assert(live_apart(live, y, z));
    }
}

/// Giving back the block at position `pos` of `level` frees its frames and
/// leaves every other frame as it was.
pub proof fn lemma_release_frames(t: Seq<Node>, levels: nat, level: nat, pos: int, f: int)
    requires
        tree_wf(t, levels),
        level <= levels,
        0 <= pos < pow2((levels - level) as nat),
        0 <= f < pow2(levels),
    ensures
        in_block(level, pos, f) ==> release(t, node_at(levels, level, pos))[leaf(levels, f)] == Node::Unused,
        !in_block(level, pos, f) ==> release(t, node_at(levels, level, pos))[leaf(levels, f)] == t[leaf(
            levels,
            f,
        )],
{
    let i = node_at(levels, level, pos);
    lemma_pow2_pos(levels);
    lemma_pow2_mono((levels - level) as nat, levels);
    lemma_release_as_update(t, i);
    lemma_set_lift_fill_wf(t, levels, i, Node::Unused);
    let lf = leaf(levels, f);
    if in_block(level, pos, f) {
        lemma_leaf_in_block(levels, level, pos, f);
    } else {
        assert(!in_subtree(lf, i)) by {
            if in_subtree(lf, i) {
                lemma_leaf_block_of_subtree(levels, level, pos, f);
            }
        }
        assert(!(in_subtree(i, lf) && lf != i)) by {
            if in_subtree(i, lf) && lf != i {
                lemma_leaf_subtree(levels, lf, i);
            }
        }
    }
}
} // verus!
