//! Left-leaning 2-3 red-black trees over an arena of elements.
//!
//! Links between elements are arena indices rather than machine pointers;
//! index 0 is a sentinel element that stands in for null everywhere inside
//! the tree, so traversals and rotations can read children unconditionally.
//! Color bits live in the least significant bit of right-child links, making
//! the node linkage as compact as possible for red-black trees.

use vstd::prelude::*;
use vstd::seq_lib::*;

use crate::aligned_ptr_pun::AlignedPtrPun;
use crate::model::{
    Rbt, Frame, ridx, key_of, sub_l, sub_r, keys, idxs, inorder, height, lo_ok, hi_ok, bst, uniq,
    plug, plug1, ctx_lo, ctx_hi, ctx_keys, ctx_idxs, ctx_uniq, ctx_bst, lemma_bst_range, hi_wider, drl, dlr, lemma_drl, lemma_dlr,
    lemma_bst_widen, lemma_inorder, lemma_inorder_min, lemma_inorder_max, lemma_push, lemma_ridx_zero, lemma_plug_keys, lemma_plug_idxs, lemma_plug_uniq, lemma_ctx_keys_range, lemma_ctx_all_left_lower, lemma_ctx_concat, seam,
    lemma_plug_bst, lemma_plug_ridx, rot_left, rot_right, lemma_rot_left, lemma_rot_right,
};

verus! {

/// The sentinel's arena index.
pub const NIL: usize = 0;

/// The largest arena the tree accepts; keeps every scaled link away from the
/// top of the address space.
pub const CAP: usize = usize::MAX / 4;

/// The linkage fields embedded in every element: a left-child index and a
/// right-child index packed with the node's color.  The index is stored
/// doubled so that the packed word's low bit is free for the color.
#[derive(Clone, Copy)]
pub struct Node {
    left: usize,
    right_red: AlignedPtrPun,
}

impl Node {
    /// The left-child index.
    pub closed spec fn sleft(self) -> nat {
        self.left as nat
    }

    /// The right-child index.
    pub closed spec fn sright(self) -> nat {
        (self.right_red.ptr() / 2) as nat
    }

    /// The color: true for red.
    pub closed spec fn sred(self) -> bool {
        self.right_red.flag()
    }

    /// A fresh red leaf: both children are the sentinel.
    pub fn new() -> (n: Node)
        ensures
            n.sleft() == 0,
            n.sright() == 0,
            n.sred(),
    {
        Node { left: NIL, right_red: AlignedPtrPun::new(2 * NIL, true) }
    }

    /// Unpacks the right-child index.
    fn right(&self) -> (r: usize)
        ensures
            r == self.sright(),
    {
        self.right_red.eliminate().0 / 2
    }

    /// Replaces the right-child index, preserving the color.
    fn set_right(&mut self, i: usize)
        requires
            i <= CAP,
        ensures
            final(self).sright() == i,
            final(self).sleft() == old(self).sleft(),
            final(self).sred() == old(self).sred(),
    {
        self.right_red.set_ptr(2 * i);
    }

    /// Unpacks the color.
    fn color(&self) -> (c: bool)
        ensures
            c == self.sred(),
    {
        self.right_red.eliminate().1
    }

    /// Replaces the color, preserving the right-child index.
    fn set_color(&mut self, c: bool)
        requires
            old(self).sright() <= CAP,
        ensures
            final(self).sred() == c,
            final(self).sleft() == old(self).sleft(),
            final(self).sright() == old(self).sright(),
    {
        self.right_red.set_flag(c);
    }
}

/// One element of the arena: the caller's key together with the embedded
/// tree linkage.
#[derive(Clone, Copy)]
pub struct Elem {
    key: u64,
    node: Node,
}

/// The two elements agree on everything the tree shape depends on (the color
/// bit is free to differ).
pub closed spec fn same_elem(x: Elem, y: Elem) -> bool {
    x.key == y.key && x.node.sleft() == y.node.sleft() && x.node.sright() == y.node.sright()
}

/// The arena realizes the ghost shape: every shape node names an in-bounds,
/// non-sentinel element whose key and child links match the shape.
pub closed spec fn repr(a: Seq<Elem>, t: Rbt) -> bool
    decreases t,
{
    match t {
        Rbt::Nil => true,
        Rbt::Node { i, k, l, r } => 0 < i < a.len() && a[i as int].key == k && a[
            i as int
        ].node.sleft() == ridx(*l) && a[i as int].node.sright() == ridx(*r) && repr(a, *l) && repr(
            a,
            *r,
        ),
    }
}

/// The arena realizes a path: each frame names an element whose off-side
/// link matches the frame and whose on-side link is `ir` for the innermost
/// frame and the next frame's index further out.
pub closed spec fn ctx_repr(a: Seq<Elem>, fs: Seq<Frame>, ir: nat) -> bool
    decreases fs.len(),
{
    if fs.len() == 0 {
        true
    } else {
        let f = fs.last();
        let fs0 = fs.drop_last();
        0 < f.i < a.len() && a[f.i as int].key == f.k && (if f.left {
            a[f.i as int].node.sleft() == ir && a[f.i as int].node.sright() == ridx(f.other)
        } else {
            a[f.i as int].node.sright() == ir && a[f.i as int].node.sleft() == ridx(f.other)
        }) && repr(a, f.other) && ctx_repr(a, fs0, f.i)
    }
}

/// Realization only reads the elements the shape names: it survives any
/// change outside `idxs(t)` and any change of color bits.
proof fn lemma_repr_frame(a1: Seq<Elem>, a2: Seq<Elem>, t: Rbt)
    requires
        repr(a1, t),
        a1.len() <= a2.len(),
        forall|j: nat|
            idxs(t).contains(j) ==> same_elem(#[trigger] a1[j as int], a2[j as int]),
    ensures
        repr(a2, t),
    decreases t,
{
    match t {
        Rbt::Nil => {},
        Rbt::Node { i, l, r, .. } => {
            assert(idxs(t).contains(i));
            lemma_repr_frame(a1, a2, *l);
            lemma_repr_frame(a1, a2, *r);
        },
    }
}

/// The path analogue of `lemma_repr_frame`.
proof fn lemma_ctx_repr_frame(a1: Seq<Elem>, a2: Seq<Elem>, fs: Seq<Frame>, ir: nat)
    requires
        ctx_repr(a1, fs, ir),
        a1.len() <= a2.len(),
        forall|j: nat|
            ctx_idxs(fs).contains(j) ==> same_elem(#[trigger] a1[j as int], a2[j as int]),
    ensures
        ctx_repr(a2, fs, ir),
    decreases fs.len(),
{
    if fs.len() == 0 {
    } else {
        let f = fs.last();
        assert(ctx_idxs(fs).contains(f.i));
        lemma_repr_frame(a1, a2, f.other);
        lemma_ctx_repr_frame(a1, a2, fs.drop_last(), f.i);
    }
}

/// Every index a realized shape uses is in bounds and not the sentinel's,
/// and carries a key of the shape.
proof fn lemma_repr_idx(a: Seq<Elem>, t: Rbt, j: nat)
    requires
        repr(a, t),
        idxs(t).contains(j),
    ensures
        0 < j < a.len(),
        keys(t).contains(a[j as int].key),
    decreases t,
{
    match t {
        Rbt::Nil => {},
        Rbt::Node { i, l, r, .. } => {
            if j == i {
            } else if idxs(*l).contains(j) {
                lemma_repr_idx(a, *l, j);
            } else {
                lemma_repr_idx(a, *r, j);
            }
        },
    }
}

/// A realized path plugged with a realized subtree realizes the rebuilt
/// shape, provided the path's innermost link points at the subtree's root.
proof fn lemma_plug_repr(a: Seq<Elem>, fs: Seq<Frame>, t: Rbt)
    requires
        ctx_repr(a, fs, ridx(t)),
        repr(a, t),
    ensures
        repr(a, plug(fs, t)),
    decreases fs.len(),
{
    if fs.len() == 0 {
    } else {
        let f = fs.last();
        assert(repr(a, plug1(f, t)));
        lemma_plug_repr(a, fs.drop_last(), plug1(f, t));
    }
}

/// In a realized search tree, distinct nodes carry distinct keys.
proof fn lemma_key_unique(
    a: Seq<Elem>,
    t: Rbt,
    lo: Option<u64>,
    hi: Option<u64>,
    j1: nat,
    j2: nat,
)
    requires
        repr(a, t),
        bst(t, lo, hi),
        uniq(t),
        idxs(t).contains(j1),
        idxs(t).contains(j2),
        a[j1 as int].key == a[j2 as int].key,
    ensures
        j1 == j2,
    decreases t,
{
    match t {
        Rbt::Nil => {},
        Rbt::Node { i, k, l, r } => {
            lemma_bst_range(*l, lo, Some(k));
            lemma_bst_range(*r, Some(k), hi);
            if idxs(*l).contains(j1) {
                lemma_repr_idx(a, *l, j1);
            } else if idxs(*r).contains(j1) {
                lemma_repr_idx(a, *r, j1);
            }
            if idxs(*l).contains(j2) {
                lemma_repr_idx(a, *l, j2);
            } else if idxs(*r).contains(j2) {
                lemma_repr_idx(a, *r, j2);
            }
            if idxs(*l).contains(j1) && idxs(*l).contains(j2) {
                lemma_key_unique(a, *l, lo, Some(k), j1, j2);
            } else if idxs(*r).contains(j1) && idxs(*r).contains(j2) {
                lemma_key_unique(a, *r, Some(k), hi, j1, j2);
            }
        },
    }
}

/// Every index a realized path uses is in bounds and not the sentinel's.
proof fn lemma_ctx_repr_idx(a: Seq<Elem>, fs: Seq<Frame>, ir: nat, j: nat)
    requires
        ctx_repr(a, fs, ir),
        ctx_idxs(fs).contains(j),
    ensures
        0 < j < a.len(),
    decreases fs.len(),
{
    if fs.len() == 0 {
    } else {
        let f = fs.last();
        if j == f.i {
        } else if idxs(f.other).contains(j) {
            lemma_repr_idx(a, f.other, j);
        } else {
            lemma_ctx_repr_idx(a, fs.drop_last(), f.i, j);
        }
    }
}

/// Realization of a subtree and of a path survives a change of color bits
/// anywhere in the arena.
proof fn lemma_recolor_frame(a1: Seq<Elem>, a2: Seq<Elem>, t: Rbt, fs: Seq<Frame>, ir: nat)
    requires
        repr(a1, t),
        ctx_repr(a1, fs, ir),
        a2.len() == a1.len(),
        forall|p: int| 0 <= p < a1.len() ==> same_elem(#[trigger] a1[p], a2[p]),
    ensures
        repr(a2, t),
        ctx_repr(a2, fs, ir),
{
    assert forall|j: nat| idxs(t).contains(j) implies same_elem(
        #[trigger] a1[j as int],
        a2[j as int],
    ) by {
        lemma_repr_idx(a1, t, j);
    }
    lemma_repr_frame(a1, a2, t);
    assert forall|j: nat| ctx_idxs(fs).contains(j) implies same_elem(
        #[trigger] a1[j as int],
        a2[j as int],
    ) by {
        lemma_ctx_repr_idx(a1, fs, ir, j);
    }
    lemma_ctx_repr_frame(a1, a2, fs, ir);
}

/// Realization of a path survives any change confined to indices outside it.
proof fn lemma_ctx_outside_frame(a1: Seq<Elem>, a2: Seq<Elem>, fs: Seq<Frame>, ir: nat, s: Set<nat>)
    requires
        ctx_repr(a1, fs, ir),
        a2.len() == a1.len(),
        forall|p: int| 0 <= p < a1.len() && !s.contains(p as nat) ==> a2[p] == #[trigger] a1[p],
        ctx_idxs(fs).disjoint(s),
    ensures
        ctx_repr(a2, fs, ir),
{
    assert forall|j: nat| ctx_idxs(fs).contains(j) implies same_elem(
        #[trigger] a1[j as int],
        a2[j as int],
    ) by {
        lemma_ctx_repr_idx(a1, fs, ir, j);
        assert(!s.contains(j));
    }
    lemma_ctx_repr_frame(a1, a2, fs, ir);
}

/// Realization of a concatenated path from realization of its parts.
proof fn lemma_ctx_repr_concat(a: Seq<Elem>, fs: Seq<Frame>, gs: Seq<Frame>, ir: nat)
    requires
        ctx_repr(a, gs, ir),
        ctx_repr(a, fs, seam(gs, ir)),
    ensures
        ctx_repr(a, fs + gs, ir),
    decreases gs.len(),
{
    if gs.len() == 0 {
        assert(fs + gs =~= fs);
    } else {
        let g = gs.last();
        let gs0 = gs.drop_last();
        assert((fs + gs).drop_last() =~= fs + gs0);
        assert((fs + gs).last() == g);
        if gs0.len() == 0 {
            assert(gs[0] == g);
        } else {
            assert(gs0[0] == gs[0]);
        }
        lemma_ctx_repr_concat(a, fs, gs0, g.i);
        assert(ctx_repr(a, fs + gs, ir));
    }
}

/// One level of the recorded root-to-leaf path: the visited element and the
/// side the walk descended to.
#[derive(Clone, Copy)]
struct PathElem {
    node: usize,
    left: bool,
}

/// A left-leaning 2-3 red-black tree.  Elements live in an arena the tree
/// owns structurally; the tree threads its links through their embedded
/// nodes.  Parent links are not used, and rebalancing walks an explicit
/// root-to-leaf path instead.
pub struct Tree {
    nodes: Vec<Elem>,
    root: usize,
    shape: Ghost<Rbt>,
}

impl View for Tree {
    type V = Set<u64>;

    /// The tree as the set of keys it stores.
    closed spec fn view(&self) -> Set<u64> {
        keys(self.shape@)
    }
}

impl Tree {
    /// The tree is initialized and internally consistent: the sentinel is
    /// self-linked and black, the arena realizes the shape, all indices are
    /// distinct, and the keys obey the search-tree order.
    pub closed spec fn wf(self) -> bool {
        &&& 1 <= self.nodes@.len() <= CAP
        &&& self.nodes@[0].node.sleft() == 0
        &&& self.nodes@[0].node.sright() == 0
        &&& !self.nodes@[0].node.sred()
        &&& repr(self.nodes@, self.shape@)
        &&& uniq(self.shape@)
        &&& bst(self.shape@, None, None)
        &&& self.root == ridx(self.shape@)
    }

    /// The keys in symmetric order.
    pub closed spec fn key_seq(self) -> Seq<u64> {
        inorder(self.shape@)
    }

    /// Index `i` currently holds a member element.
    pub closed spec fn member(self, i: usize) -> bool {
        idxs(self.shape@).contains(i as nat)
    }

    /// The key of the element at index `i`.
    pub closed spec fn key_at(self, i: usize) -> u64 {
        self.nodes@[i as int].key
    }

    /// The number of arena slots (the sentinel and every element ever
    /// inserted).
    pub closed spec fn arena_len(self) -> nat {
        self.nodes@.len()
    }

    /// The root's arena index; the sentinel's index when the tree is empty.
    pub closed spec fn root_id(self) -> usize {
        self.root
    }

    /// The left-child index stored at index `i`.
    pub closed spec fn left_at(self, i: usize) -> usize {
        self.nodes@[i as int].node.sleft() as usize
    }

    /// The right-child index stored at index `i`.
    pub closed spec fn right_at(self, i: usize) -> usize {
        self.nodes@[i as int].node.sright() as usize
    }

    /// The color bit stored at index `i`.
    pub closed spec fn red_at(self, i: usize) -> bool {
        self.nodes@[i as int].node.sred()
    }

    /// An uninitialized tree; `init` must run before any other operation.
    pub fn place() -> (t: Tree)
        ensures
            t@ == Set::<u64>::empty(),
            !t.wf(),
    {
        proof {
            assert(keys(Rbt::Nil) =~= Set::<u64>::empty());
        }
        Tree { nodes: Vec::new(), root: NIL, shape: Ghost(Rbt::Nil) }
    }

    /// (Re)initializes the tree to empty, establishing the sentinel.
    pub fn init(&mut self)
        ensures
            final(self).wf(),
            final(self)@ == Set::<u64>::empty(),
            final(self).key_seq() == Seq::<u64>::empty(),
            final(self).arena_len() == 1,
    {
        let mut v: Vec<Elem> = Vec::new();
        v.push(Elem { key: 0, node: Node { left: NIL, right_red: AlignedPtrPun::new(2 * NIL, false) } });
        self.nodes = v;
        self.root = NIL;
        self.shape = Ghost(Rbt::Nil);
        proof {
            assert(keys(Rbt::Nil) =~= Set::<u64>::empty());
        }
    }

    /// The root's arena index, for walking the stored structure from
    /// outside; the sentinel's index when the tree is empty.
    pub fn root_index(&self) -> (r: usize)
        ensures
            r == self.root_id(),
    {
        self.root
    }

    /// The number of arena slots.
    pub fn slot_count(&self) -> (n: usize)
        ensures
            n == self.arena_len(),
    {
        self.nodes.len()
    }

    /// The key stored at index `i`.
    pub fn node_key(&self, i: usize) -> (k: u64)
        requires
            i < self.arena_len(),
        ensures
            k == self.key_at(i),
    {
        self.nodes[i].key
    }

    /// The left-child index stored at index `i`.
    pub fn node_left(&self, i: usize) -> (r: usize)
        requires
            i < self.arena_len(),
        ensures
            r == self.left_at(i),
    {
        self.nodes[i].node.left
    }

    /// The right-child index stored at index `i`.
    pub fn node_right(&self, i: usize) -> (r: usize)
        requires
            i < self.arena_len(),
        ensures
            r == self.right_at(i),
    {
        self.nodes[i].node.right()
    }

    /// The color bit stored at index `i`: true for red.
    pub fn node_is_red(&self, i: usize) -> (r: bool)
        requires
            i < self.arena_len(),
        ensures
            r == self.red_at(i),
    {
        self.nodes[i].node.color()
    }

    /// Translates the sentinel's index, which callers never see, to `None`.
    fn sanitize(&self, ptr: usize) -> (r: Option<usize>)
        ensures
            r == if ptr == NIL {
                None::<usize>
            } else {
                Some(ptr)
            },
    {
        if ptr == NIL {
            None
        } else {
            Some(ptr)
        }
    }

    /// Descends all-left from `subtree`: the least element of the realized
    /// subtree `t`, or the sentinel if `t` is empty.
    fn first_(&self, subtree: usize, Ghost(t): Ghost<Rbt>) -> (r: usize)
        requires
            self.wf(),
            repr(self.nodes@, t),
            uniq(t),
            ridx(t) == subtree as nat,
        ensures
            t is Nil ==> r == NIL,
            t is Node ==> idxs(t).contains(r as nat) && inorder(t).len() > 0 && self.nodes@[
                r as int
            ].key == inorder(t)[0],
    {
        let mut node = subtree;
        let ghost mut cur = t;
        if node != NIL {
            proof {
                assert(cur is Node);
            }
            while self.nodes[node].node.left != NIL
                invariant
                    self.wf(),
                    repr(self.nodes@, cur),
                    uniq(cur),
                    cur is Node,
                    ridx(cur) == node as nat,
                    idxs(cur).subset_of(idxs(t)),
                    inorder(t).len() > 0,
                    inorder(cur).len() > 0,
                    inorder(cur)[0] == inorder(t)[0],
                decreases height(cur),
            {
                node = self.nodes[node].node.left;
                proof {
                    let prev = cur;
                    cur = sub_l(cur);
                    assert(cur is Node);
                    assert(inorder(prev) == inorder(cur) + seq![key_of(prev)] + inorder(
                        sub_r(prev),
                    ));
                    assert(inorder(prev)[0] == inorder(cur)[0]);
                    assert(idxs(prev).contains(ridx(cur)));
                }
            }
            proof {
                assert(uniq(sub_l(cur)));
                lemma_ridx_zero(sub_l(cur));
                assert(sub_l(cur) is Nil);
                assert(inorder(sub_l(cur)) == Seq::<u64>::empty());
                assert(inorder(cur)[0] == key_of(cur));
                assert(idxs(cur).contains(node as nat));
            }
        }
        node
    }

    /// Descends all-right from `subtree`: the greatest element of the
    /// realized subtree `t`, or the sentinel if `t` is empty.
    fn last_(&self, subtree: usize, Ghost(t): Ghost<Rbt>) -> (r: usize)
        requires
            self.wf(),
            repr(self.nodes@, t),
            uniq(t),
            ridx(t) == subtree as nat,
        ensures
            t is Nil ==> r == NIL,
            t is Node ==> idxs(t).contains(r as nat) && inorder(t).len() > 0 && self.nodes@[
                r as int
            ].key == inorder(t).last(),
    {
        let mut node = subtree;
        let ghost mut cur = t;
        if node != NIL {
            proof {
                assert(cur is Node);
            }
            while self.nodes[node].node.right() != NIL
                invariant
                    self.wf(),
                    repr(self.nodes@, cur),
                    uniq(cur),
                    cur is Node,
                    ridx(cur) == node as nat,
                    idxs(cur).subset_of(idxs(t)),
                    inorder(t).len() > 0,
                    inorder(cur).len() > 0,
                    inorder(cur).last() == inorder(t).last(),
                decreases height(cur),
            {
                node = self.nodes[node].node.right();
                proof {
                    let prev = cur;
                    cur = sub_r(cur);
                    assert(cur is Node);
                    assert(inorder(prev) == inorder(sub_l(prev)) + seq![key_of(prev)] + inorder(
                        cur,
                    ));
                    assert(inorder(prev).last() == inorder(cur).last());
                    assert(idxs(prev).contains(ridx(cur)));
                }
            }
            proof {
                assert(uniq(sub_r(cur)));
                lemma_ridx_zero(sub_r(cur));
                assert(sub_r(cur) is Nil);
                assert(inorder(sub_r(cur)) == Seq::<u64>::empty());
                assert(inorder(cur).last() == key_of(cur));
                assert(idxs(cur).contains(node as nat));
            }
        }
        node
    }

    /// The least member, or `None` when the tree is empty.  The tree is not
    /// changed.
    pub fn first(&mut self) -> (r: Option<usize>)
        requires
            old(self).wf(),
        ensures
            *final(self) == *old(self),
            match r {
                None => old(self)@ == Set::<u64>::empty(),
                Some(i) => old(self).member(i) && old(self)@.contains(old(self).key_at(i))
                    && forall|q: u64|
                    #[trigger] old(self)@.contains(q) ==> old(self).key_at(i) <= q,
            },
    {
        let ptr = self.first_(self.root, Ghost(self.shape@));
        proof {
            let t = self.shape@;
            if t is Nil {
                assert(keys(t) =~= Set::<u64>::empty());
            } else {
                lemma_inorder(t, None, None);
                lemma_repr_idx(self.nodes@, t, ptr as nat);
                assert forall|q: u64| #[trigger] keys(t).contains(q) implies inorder(t)[0]
                    <= q by {
                    assert(inorder(t).to_set().contains(q));
                    let p = choose|p: int| 0 <= p < inorder(t).len() && inorder(t)[p] == q;
                    if p > 0 {
                        assert(inorder(t)[0] < inorder(t)[p]);
                    }
                }
                assert(inorder(t).to_set().contains(inorder(t)[0]));
            }
        }
        self.sanitize(ptr)
    }

    /// The greatest member, or `None` when the tree is empty.  The tree is
    /// not changed.
    pub fn last(&mut self) -> (r: Option<usize>)
        requires
            old(self).wf(),
        ensures
            *final(self) == *old(self),
            match r {
                None => old(self)@ == Set::<u64>::empty(),
                Some(i) => old(self).member(i) && old(self)@.contains(old(self).key_at(i))
                    && forall|q: u64|
                    #[trigger] old(self)@.contains(q) ==> old(self).key_at(i) >= q,
            },
    {
        let ptr = self.last_(self.root, Ghost(self.shape@));
        proof {
            let t = self.shape@;
            if t is Nil {
                assert(keys(t) =~= Set::<u64>::empty());
            } else {
                lemma_inorder(t, None, None);
                lemma_repr_idx(self.nodes@, t, ptr as nat);
                let e = inorder(t).len() - 1;
                assert forall|q: u64| #[trigger] keys(t).contains(q) implies inorder(t)[e]
                    >= q by {
                    assert(inorder(t).to_set().contains(q));
                    let p = choose|p: int| 0 <= p < inorder(t).len() && inorder(t)[p] == q;
                    if p < e {
                        assert(inorder(t)[p] < inorder(t)[e]);
                    }
                }
                assert(inorder(t).to_set().contains(inorder(t)[e]));
            }
        }
        self.sanitize(ptr)
    }

    /// Classic binary-search descent over the stored order.
    fn search_in(&self, key: u64) -> (r: Option<usize>)
        requires
            self.wf(),
        ensures
            match r {
                None => !self@.contains(key),
                Some(i) => self@.contains(key) && self.member(i) && self.key_at(i) == key,
            },
    {
        let mut ret = self.root;
        let ghost mut t = self.shape@;
        let ghost mut lo: Option<u64> = None;
        let ghost mut hi: Option<u64> = None;
        while ret != NIL
            invariant
                self.wf(),
                repr(self.nodes@, t),
                uniq(t),
                bst(t, lo, hi),
                ridx(t) == ret as nat,
                idxs(t).subset_of(idxs(self.shape@)),
                keys(self.shape@).contains(key) <==> keys(t).contains(key),
            decreases height(t),
        {
            proof {
                assert(t is Node);
            }
            let e = self.nodes[ret];
            if key < e.key {
                proof {
                    lemma_bst_range(sub_r(t), Some(key_of(t)), hi);
                    assert(!keys(sub_r(t)).contains(key));
                    hi = Some(key_of(t));
                    t = sub_l(t);
                }
                ret = e.node.left;
            } else if key > e.key {
                proof {
                    lemma_bst_range(sub_l(t), lo, Some(key_of(t)));
                    assert(!keys(sub_l(t)).contains(key));
                    lo = Some(key_of(t));
                    t = sub_r(t);
                }
                ret = e.node.right();
            } else {
                proof {
                    assert(keys(t).contains(key));
                    assert(idxs(t).contains(ret as nat));
                }
                return Some(ret);
            }
        }
        proof {
            assert(t is Nil);
            assert(keys(t) =~= Set::<u64>::empty());
        }
        None
    }

    /// Looks the key up: the member element that compares equal to `key`, or
    /// `None` when `key` is not a member.  The tree is not changed.
    pub fn search(&mut self, key: u64) -> (r: Option<usize>)
        requires
            old(self).wf(),
        ensures
            *final(self) == *old(self),
            match r {
                None => !old(self)@.contains(key),
                Some(i) => old(self)@.contains(key) && old(self).member(i) && old(self).key_at(i)
                    == key,
            },
    {
        self.search_in(key)
    }

    /// The running facts of one binary-search descent: the subtree `t`,
    /// rooted at arena index `cur` and realized in the arena, sits inside
    /// the whole shape under the open bounds `(lo, hi)`.
    spec fn descent_inv(self, t: Rbt, lo: Option<u64>, hi: Option<u64>, cur: usize) -> bool {
        &&& repr(self.nodes@, t)
        &&& uniq(t)
        &&& bst(t, lo, hi)
        &&& ridx(t) == cur as nat
        &&& idxs(t).subset_of(idxs(self.shape@))
        &&& keys(t).subset_of(keys(self.shape@))
    }

    /// Descent tracking the most recent element compared greater than the
    /// probe: the least member at or above `key`.
    fn nsearch_in(&self, key: u64) -> (r: Option<usize>)
        requires
            self.wf(),
        ensures
            match r {
                None => forall|q: u64| #[trigger] self@.contains(q) ==> q < key,
                Some(i) => self.member(i) && self@.contains(self.key_at(i)) && self.key_at(i)
                    >= key && forall|q: u64|
                    #[trigger] self@.contains(q) && q >= key ==> self.key_at(i) <= q,
            },
    {
        let mut ret: usize = NIL;
        let mut tnode = self.root;
        let ghost mut t = self.shape@;
        let ghost mut lo: Option<u64> = None;
        let ghost mut hi: Option<u64> = None;
        while tnode != NIL
            invariant
                self.wf(),
                self.descent_inv(t, lo, hi, tnode),
                ret != NIL ==> self.member(ret) && self@.contains(self.key_at(ret)) && self.key_at(
                    ret,
                ) >= key && hi == Some(self.key_at(ret)),
                ret == NIL ==> hi is None,
                forall|q: u64|
                    #[trigger] self@.contains(q) && q >= key ==> keys(t).contains(q) || (ret != NIL
                        && self.key_at(ret) <= q),
            decreases height(t),
        {
            proof {
                assert(t is Node);
            }
            let e = self.nodes[tnode];
            if key < e.key {
                ret = tnode;
                tnode = e.node.left;
                proof {
                    assert(keys(t) == keys(sub_l(t)).union(keys(sub_r(t))).insert(key_of(t)));
                    assert(idxs(t).contains(ridx(t)));
                    lemma_repr_idx(self.nodes@, self.shape@, ret as nat);
                    lemma_bst_range(sub_r(t), Some(key_of(t)), hi);
                    assert(self.key_at(ret) == key_of(t));
                    assert forall|q: u64| #[trigger] self@.contains(q) && q >= key implies keys(
                        sub_l(t),
                    ).contains(q) || self.key_at(ret) <= q by {
                        if keys(t).contains(q) {
                            if keys(sub_r(t)).contains(q) {
                                assert(key_of(t) < q);
                            }
                        } else {
                            assert(hi_ok(key_of(t), hi));
                        }
                    }
                    hi = Some(key_of(t));
                    t = sub_l(t);
                }
            } else if key > e.key {
                tnode = e.node.right();
                proof {
                    assert(keys(t) == keys(sub_l(t)).union(keys(sub_r(t))).insert(key_of(t)));
                    lemma_bst_range(sub_l(t), lo, Some(key_of(t)));
                    assert forall|q: u64| #[trigger] self@.contains(q) && q >= key implies keys(
                        sub_r(t),
                    ).contains(q) || (ret != NIL && self.key_at(ret) <= q) by {
                        if keys(t).contains(q) {
                            if keys(sub_l(t)).contains(q) {
                                assert(q < key_of(t));
                            }
                        }
                    }
                    lo = Some(key_of(t));
                    t = sub_r(t);
                }
            } else {
                proof {
                    assert(keys(t).contains(key));
                    assert(idxs(t).contains(tnode as nat));
                }
                return Some(tnode);
            }
        }
        proof {
            lemma_ridx_zero(t);
            assert(keys(t) =~= Set::<u64>::empty());
        }
        self.sanitize(ret)
    }

    /// The least member at or above `key` ("next or equal"), or `None` when
    /// every member is below `key`.  An exact match is returned itself.  The
    /// tree is not changed.
    pub fn nsearch(&mut self, key: u64) -> (r: Option<usize>)
        requires
            old(self).wf(),
        ensures
            *final(self) == *old(self),
            match r {
                None => forall|q: u64| #[trigger] old(self)@.contains(q) ==> q < key,
                Some(i) => old(self).member(i) && old(self)@.contains(old(self).key_at(i)) && old(
                    self,
                ).key_at(i) >= key && forall|q: u64|
                    #[trigger] old(self)@.contains(q) && q >= key ==> old(self).key_at(i) <= q,
            },
            old(self)@.contains(key) ==> r is Some && old(self).key_at(r.unwrap()) == key,
    {
        self.nsearch_in(key)
    }

    /// Descent tracking the most recent element compared less than the
    /// probe: the greatest member at or below `key`.
    fn psearch_in(&self, key: u64) -> (r: Option<usize>)
        requires
            self.wf(),
        ensures
            match r {
                None => forall|q: u64| #[trigger] self@.contains(q) ==> q > key,
                Some(i) => self.member(i) && self@.contains(self.key_at(i)) && self.key_at(i)
                    <= key && forall|q: u64|
                    #[trigger] self@.contains(q) && q <= key ==> self.key_at(i) >= q,
            },
    {
        let mut ret: usize = NIL;
        let mut tnode = self.root;
        let ghost mut t = self.shape@;
        let ghost mut lo: Option<u64> = None;
        let ghost mut hi: Option<u64> = None;
        while tnode != NIL
            invariant
                self.wf(),
                self.descent_inv(t, lo, hi, tnode),
                ret != NIL ==> self.member(ret) && self@.contains(self.key_at(ret)) && self.key_at(
                    ret,
                ) <= key && lo == Some(self.key_at(ret)),
                ret == NIL ==> lo is None,
                forall|q: u64|
                    #[trigger] self@.contains(q) && q <= key ==> keys(t).contains(q) || (ret != NIL
                        && self.key_at(ret) >= q),
            decreases height(t),
        {
            proof {
                assert(t is Node);
            }
            let e = self.nodes[tnode];
            if key < e.key {
                tnode = e.node.left;
                proof {
                    assert(keys(t) == keys(sub_l(t)).union(keys(sub_r(t))).insert(key_of(t)));
                    lemma_bst_range(sub_r(t), Some(key_of(t)), hi);
                    assert forall|q: u64| #[trigger] self@.contains(q) && q <= key implies keys(
                        sub_l(t),
                    ).contains(q) || (ret != NIL && self.key_at(ret) >= q) by {
                        if keys(t).contains(q) {
                            if keys(sub_r(t)).contains(q) {
                                assert(q > key_of(t));
                            }
                        }
                    }
                    hi = Some(key_of(t));
                    t = sub_l(t);
                }
            } else if key > e.key {
                ret = tnode;
                tnode = e.node.right();
                proof {
                    assert(keys(t) == keys(sub_l(t)).union(keys(sub_r(t))).insert(key_of(t)));
                    assert(idxs(t).contains(ridx(t)));
                    lemma_repr_idx(self.nodes@, self.shape@, ret as nat);
                    lemma_bst_range(sub_l(t), lo, Some(key_of(t)));
                    assert(self.key_at(ret) == key_of(t));
                    assert forall|q: u64| #[trigger] self@.contains(q) && q <= key implies keys(
                        sub_r(t),
                    ).contains(q) || self.key_at(ret) >= q by {
                        if keys(t).contains(q) {
                            if keys(sub_l(t)).contains(q) {
                                assert(q < key_of(t));
                            }
                        } else {
                            assert(lo_ok(lo, key_of(t)));
                        }
                    }
                    lo = Some(key_of(t));
                    t = sub_r(t);
                }
            } else {
                proof {
                    assert(keys(t).contains(key));
                    assert(idxs(t).contains(tnode as nat));
                }
                return Some(tnode);
            }
        }
        proof {
            lemma_ridx_zero(t);
            assert(keys(t) =~= Set::<u64>::empty());
        }
        self.sanitize(ret)
    }

    /// The greatest member at or below `key` ("previous or equal"), or
    /// `None` when every member is above `key`.  An exact match is returned
    /// itself.  The tree is not changed.
    pub fn psearch(&mut self, key: u64) -> (r: Option<usize>)
        requires
            old(self).wf(),
        ensures
            *final(self) == *old(self),
            match r {
                None => forall|q: u64| #[trigger] old(self)@.contains(q) ==> q > key,
                Some(i) => old(self).member(i) && old(self)@.contains(old(self).key_at(i)) && old(
                    self,
                ).key_at(i) <= key && forall|q: u64|
                    #[trigger] old(self)@.contains(q) && q <= key ==> old(self).key_at(i) >= q,
            },
            old(self)@.contains(key) ==> r is Some && old(self).key_at(r.unwrap()) == key,
    {
        self.psearch_in(key)
    }

    /// Re-descends from the root comparing against the member at `node`,
    /// tracking the last ancestor passed to the left; at the member, its
    /// right subtree's least element wins if there is one.
    fn next_in(&self, node: usize) -> (r: Option<usize>)
        requires
            self.wf(),
            self.member(node),
        ensures
            match r {
                None => forall|q: u64| #[trigger] self@.contains(q) ==> q <= self.key_at(node),
                Some(j) => self.member(j) && self@.contains(self.key_at(j)) && self.key_at(j)
                    > self.key_at(node) && forall|q: u64|
                    #[trigger] self@.contains(q) && q > self.key_at(node) ==> self.key_at(j) <= q,
            },
    {
        proof {
            lemma_repr_idx(self.nodes@, self.shape@, node as nat);
        }
        let key = self.nodes[node].key;
        let mut ret: usize = NIL;
        let mut tnode = self.root;
        let ghost mut t = self.shape@;
        let ghost mut lo: Option<u64> = None;
        let ghost mut hi: Option<u64> = None;
        loop
            invariant
                self.wf(),
                self.member(node),
                key == self.key_at(node),
                self.descent_inv(t, lo, hi, tnode),
                keys(t).contains(key),
                ret != NIL ==> self.member(ret) && self@.contains(self.key_at(ret)) && self.key_at(
                    ret,
                ) > key && hi == Some(self.key_at(ret)),
                ret == NIL ==> hi is None,
                forall|q: u64|
                    #[trigger] self@.contains(q) && q > key ==> keys(t).contains(q) || (ret != NIL
                        && self.key_at(ret) <= q),
            decreases height(t),
        {
            proof {
                lemma_ridx_zero(t);
                if t is Nil {
                    assert(keys(t) =~= Set::<u64>::empty());
                }
                assert(t is Node);
            }
            let e = self.nodes[tnode];
            if key < e.key {
                ret = tnode;
                tnode = e.node.left;
                proof {
                    assert(keys(t) == keys(sub_l(t)).union(keys(sub_r(t))).insert(key_of(t)));
                    assert(idxs(t).contains(ridx(t)));
                    lemma_repr_idx(self.nodes@, self.shape@, ret as nat);
                    lemma_bst_range(sub_r(t), Some(key_of(t)), hi);
                    assert(!keys(sub_r(t)).contains(key));
                    hi = Some(key_of(t));
                    t = sub_l(t);
                }
            } else if key > e.key {
                tnode = e.node.right();
                proof {
                    assert(keys(t) == keys(sub_l(t)).union(keys(sub_r(t))).insert(key_of(t)));
                    lemma_bst_range(sub_l(t), lo, Some(key_of(t)));
                    assert(!keys(sub_l(t)).contains(key));
                    lo = Some(key_of(t));
                    t = sub_r(t);
                }
            } else {
                // The probe's own node: with distinct keys this is `node`.
                proof {
                    lemma_key_unique(
                        self.nodes@,
                        self.shape@,
                        None,
                        None,
                        tnode as nat,
                        node as nat,
                    );
                }
                let rsub = e.node.right();
                if rsub != NIL {
                    proof {
                        assert(uniq(sub_r(t)));
                        lemma_ridx_zero(sub_r(t));
                        lemma_inorder_min(sub_r(t), Some(key_of(t)), hi);
                        lemma_bst_range(sub_r(t), Some(key_of(t)), hi);
                    }
                    let m = self.first_(rsub, Ghost(sub_r(t)));
                    proof {
                        assert(keys(t) == keys(sub_l(t)).union(keys(sub_r(t))).insert(key_of(t)));
                        assert(keys(sub_r(t)).contains(self.key_at(m)));
                        assert(self.key_at(m) == inorder(sub_r(t))[0]);
                        assert forall|q: u64| #[trigger] self@.contains(q) && q > key implies
                            self.key_at(m) <= q by {
                            if keys(t).contains(q) {
                                lemma_bst_range(sub_l(t), lo, Some(key_of(t)));
                                assert(keys(sub_r(t)).contains(q));
                            } else {
                                assert(self.key_at(ret) <= q);
                                assert(hi_ok(inorder(sub_r(t))[0], hi));
                            }
                        }
                    }
                    return Some(m);
                } else {
                    proof {
                        assert(keys(t) == keys(sub_l(t)).union(keys(sub_r(t))).insert(key_of(t)));
                        assert(key_of(t) == key);
                        assert(uniq(sub_r(t)));
                        lemma_ridx_zero(sub_r(t));
                        assert(sub_r(t) is Nil);
                        assert(keys(sub_r(t)) =~= Set::<u64>::empty());
                        lemma_bst_range(sub_l(t), lo, Some(key_of(t)));
                        assert forall|q: u64| #[trigger] self@.contains(q) && q > key implies
                            ret != NIL && self.key_at(ret) <= q by {
                            if keys(t).contains(q) {
                                if keys(sub_l(t)).contains(q) {
                                    assert(q < key_of(t));
                                }
                                assert(false);
                            }
                        }
                    }
                    return self.sanitize(ret);
                }
            }
        }
    }

    /// The member that follows the member at `node` in the stored order, or
    /// `None` when `node` holds the greatest member.  The tree is not
    /// changed.
    pub fn next(&mut self, node: usize) -> (r: Option<usize>)
        requires
            old(self).wf(),
            old(self).member(node),
        ensures
            *final(self) == *old(self),
            match r {
                None => forall|q: u64|
                    #[trigger] old(self)@.contains(q) ==> q <= old(self).key_at(node),
                Some(j) => old(self).member(j) && old(self)@.contains(old(self).key_at(j)) && old(
                    self,
                ).key_at(j) > old(self).key_at(node) && forall|q: u64|
                    #[trigger] old(self)@.contains(q) && q > old(self).key_at(node) ==> old(
                        self,
                    ).key_at(j) <= q,
            },
    {
        self.next_in(node)
    }

    /// The mirror of `next_in`: the last ancestor passed to the right, or
    /// the greatest element of the member's left subtree.
    fn prev_in(&self, node: usize) -> (r: Option<usize>)
        requires
            self.wf(),
            self.member(node),
        ensures
            match r {
                None => forall|q: u64| #[trigger] self@.contains(q) ==> q >= self.key_at(node),
                Some(j) => self.member(j) && self@.contains(self.key_at(j)) && self.key_at(j)
                    < self.key_at(node) && forall|q: u64|
                    #[trigger] self@.contains(q) && q < self.key_at(node) ==> self.key_at(j) >= q,
            },
    {
        proof {
            lemma_repr_idx(self.nodes@, self.shape@, node as nat);
        }
        let key = self.nodes[node].key;
        let mut ret: usize = NIL;
        let mut tnode = self.root;
        let ghost mut t = self.shape@;
        let ghost mut lo: Option<u64> = None;
        let ghost mut hi: Option<u64> = None;
        loop
            invariant
                self.wf(),
                self.member(node),
                key == self.key_at(node),
                self.descent_inv(t, lo, hi, tnode),
                keys(t).contains(key),
                ret != NIL ==> self.member(ret) && self@.contains(self.key_at(ret)) && self.key_at(
                    ret,
                ) < key && lo == Some(self.key_at(ret)),
                ret == NIL ==> lo is None,
                forall|q: u64|
                    #[trigger] self@.contains(q) && q < key ==> keys(t).contains(q) || (ret != NIL
                        && self.key_at(ret) >= q),
            decreases height(t),
        {
            proof {
                lemma_ridx_zero(t);
                if t is Nil {
                    assert(keys(t) =~= Set::<u64>::empty());
                }
                assert(t is Node);
            }
            let e = self.nodes[tnode];
            if key < e.key {
                tnode = e.node.left;
                proof {
                    assert(keys(t) == keys(sub_l(t)).union(keys(sub_r(t))).insert(key_of(t)));
                    lemma_bst_range(sub_r(t), Some(key_of(t)), hi);
                    assert forall|q: u64| #[trigger] self@.contains(q) && q <= key implies keys(
                        sub_l(t),
                    ).contains(q) || (ret != NIL && self.key_at(ret) >= q) by {
                        if keys(t).contains(q) {
                            if keys(sub_r(t)).contains(q) {
                                assert(q > key_of(t));
                            }
                        }
                    }
                    hi = Some(key_of(t));
                    t = sub_l(t);
                }
            } else if key > e.key {
                ret = tnode;
                tnode = e.node.right();
                proof {
                    assert(keys(t) == keys(sub_l(t)).union(keys(sub_r(t))).insert(key_of(t)));
                    assert(idxs(t).contains(ridx(t)));
                    lemma_repr_idx(self.nodes@, self.shape@, ret as nat);
                    lemma_bst_range(sub_l(t), lo, Some(key_of(t)));
                    assert(self.key_at(ret) == key_of(t));
                    assert forall|q: u64| #[trigger] self@.contains(q) && q <= key implies keys(
                        sub_r(t),
                    ).contains(q) || self.key_at(ret) >= q by {
                        if keys(t).contains(q) {
                            if keys(sub_l(t)).contains(q) {
                                assert(q < key_of(t));
                            }
                        } else {
                            assert(lo_ok(lo, key_of(t)));
                        }
                    }
                    lo = Some(key_of(t));
                    t = sub_r(t);
                }
            } else {
                proof {
                    lemma_key_unique(
                        self.nodes@,
                        self.shape@,
                        None,
                        None,
                        tnode as nat,
                        node as nat,
                    );
                }
                let lsub = e.node.left;
                if lsub != NIL {
                    proof {
                        assert(uniq(sub_l(t)));
                        lemma_ridx_zero(sub_l(t));
                        lemma_inorder_max(sub_l(t), lo, Some(key_of(t)));
                        lemma_bst_range(sub_l(t), lo, Some(key_of(t)));
                    }
                    let m = self.last_(lsub, Ghost(sub_l(t)));
                    proof {
                        assert(keys(t) == keys(sub_l(t)).union(keys(sub_r(t))).insert(key_of(t)));
                        assert(keys(sub_l(t)).contains(self.key_at(m)));
                        assert(self.key_at(m) == inorder(sub_l(t)).last());
                        assert forall|q: u64| #[trigger] self@.contains(q) && q < key implies
                            self.key_at(m) >= q by {
                            if keys(t).contains(q) {
                                lemma_bst_range(sub_r(t), Some(key_of(t)), hi);
                                assert(keys(sub_l(t)).contains(q));
                            } else {
                                assert(self.key_at(ret) >= q);
                                assert(lo_ok(lo, inorder(sub_l(t)).last()));
                            }
                        }
                    }
                    return Some(m);
                } else {
                    proof {
                        assert(keys(t) == keys(sub_l(t)).union(keys(sub_r(t))).insert(key_of(t)));
                        assert(key_of(t) == key);
                        assert(uniq(sub_l(t)));
                        lemma_ridx_zero(sub_l(t));
                        assert(sub_l(t) is Nil);
                        assert(keys(sub_l(t)) =~= Set::<u64>::empty());
                        lemma_bst_range(sub_r(t), Some(key_of(t)), hi);
                        assert forall|q: u64| #[trigger] self@.contains(q) && q < key implies
                            ret != NIL && self.key_at(ret) >= q by {
                            if keys(t).contains(q) {
                                if keys(sub_r(t)).contains(q) {
                                    assert(q > key_of(t));
                                }
                                assert(false);
                            }
                        }
                    }
                    return self.sanitize(ret);
                }
            }
        }
    }

    /// Overwrites the left link of the element at `i`.
    fn set_left_at(&mut self, i: usize, v: usize)
        requires
            i < old(self).nodes@.len(),
        ensures
            final(self).nodes@.len() == old(self).nodes@.len(),
            final(self).nodes@[i as int].key == old(self).nodes@[i as int].key,
            final(self).nodes@[i as int].node.sleft() == v as nat,
            final(self).nodes@[i as int].node.sright() == old(self).nodes@[i as int].node.sright(),
            final(self).nodes@[i as int].node.sred() == old(self).nodes@[i as int].node.sred(),
            forall|p: int|
                0 <= p < old(self).nodes@.len() && p != i ==> final(self).nodes@[p] == old(
                    self,
                ).nodes@[p],
            final(self).root == old(self).root,
            final(self).shape == old(self).shape,
    {
        let mut e = self.nodes[i];
        e.node.left = v;
        self.nodes[i] = e;
    }

    /// Overwrites the right link of the element at `i`, preserving its color.
    fn set_right_at(&mut self, i: usize, v: usize)
        requires
            i < old(self).nodes@.len(),
            v <= CAP,
        ensures
            final(self).nodes@.len() == old(self).nodes@.len(),
            final(self).nodes@[i as int].key == old(self).nodes@[i as int].key,
            final(self).nodes@[i as int].node.sright() == v as nat,
            final(self).nodes@[i as int].node.sleft() == old(self).nodes@[i as int].node.sleft(),
            final(self).nodes@[i as int].node.sred() == old(self).nodes@[i as int].node.sred(),
            forall|p: int|
                0 <= p < old(self).nodes@.len() && p != i ==> final(self).nodes@[p] == old(
                    self,
                ).nodes@[p],
            final(self).root == old(self).root,
            final(self).shape == old(self).shape,
    {
        let mut e = self.nodes[i];
        e.node.set_right(v);
        self.nodes[i] = e;
    }

    /// Overwrites the color of the element at `i`: a shape-neutral change.
    fn set_red_at(&mut self, i: usize, c: bool)
        requires
            i < old(self).nodes@.len(),
            old(self).nodes@[i as int].node.sright() <= CAP,
        ensures
            final(self).nodes@.len() == old(self).nodes@.len(),
            final(self).nodes@[i as int].key == old(self).nodes@[i as int].key,
            final(self).nodes@[i as int].node.sred() == c,
            final(self).nodes@[i as int].node.sleft() == old(self).nodes@[i as int].node.sleft(),
            final(self).nodes@[i as int].node.sright() == old(self).nodes@[i as int].node.sright(),
            same_elem(final(self).nodes@[i as int], old(self).nodes@[i as int]),
            forall|p: int|
                0 <= p < old(self).nodes@.len() && p != i ==> final(self).nodes@[p] == old(
                    self,
                ).nodes@[p],
            final(self).root == old(self).root,
            final(self).shape == old(self).shape,
    {
        let mut e = self.nodes[i];
        e.node.set_color(c);
        self.nodes[i] = e;
    }

    /// A realized subtree's root is in bounds unless it is the sentinel.
    proof fn lemma_root_bound(a: Seq<Elem>, t: Rbt)
        requires
            repr(a, t),
        ensures
            ridx(t) == 0 || (0 < ridx(t) < a.len()),
    {
        match t {
            Rbt::Nil => {},
            Rbt::Node { .. } => {},
        }
    }

    /// Rotates left at element `i`, the root of the realized subtree `t`:
    /// exchanges it with its right child, relinking exactly two links, and
    /// returns the new subtree root.  Colors are left to the caller.
    fn rotate_left(&mut self, i: usize, Ghost(t): Ghost<Rbt>) -> (r: usize)
        requires
            old(self).nodes@.len() <= CAP,
            repr(old(self).nodes@, t),
            uniq(t),
            t is Node,
            sub_r(t) is Node,
            ridx(t) == i as nat,
        ensures
            r as nat == ridx(sub_r(t)),
            0 < r < old(self).nodes@.len(),
            final(self).nodes@.len() == old(self).nodes@.len(),
            repr(final(self).nodes@, rot_left(t)),
            forall|p: int|
                0 <= p < old(self).nodes@.len() && p != i && p != ridx(sub_r(t)) ==> final(self).nodes@[p] == old(self).nodes@[p],
            final(self).nodes@[i as int].key == old(self).nodes@[i as int].key,
            final(self).nodes@[i as int].node.sred() == old(self).nodes@[i as int].node.sred(),
            final(self).nodes@[i as int].node.sright() <= CAP,
            final(self).nodes@[ridx(sub_r(t)) as int].key == old(self).nodes@[ridx(
                sub_r(t),
            ) as int].key,
            final(self).nodes@[ridx(sub_r(t)) as int].node.sred() == old(self).nodes@[ridx(
                sub_r(t),
            ) as int].node.sred(),
            final(self).nodes@[ridx(sub_r(t)) as int].node.sright() <= CAP,
            final(self).root == old(self).root,
            final(self).shape == old(self).shape,
    {
        let ghost a0 = self.nodes@;
        let ghost aa = sub_l(t);
        let ghost bb = sub_l(sub_r(t));
        let ghost cc = sub_r(sub_r(t));
        proof {
            assert(idxs(t) == idxs(aa).union(idxs(sub_r(t))).insert(ridx(t)));
            assert(idxs(sub_r(t)) == idxs(bb).union(idxs(cc)).insert(ridx(sub_r(t))));
            assert(idxs(sub_r(t)).contains(ridx(sub_r(t))));
            assert(repr(a0, aa) && repr(a0, sub_r(t)));
            assert(repr(a0, bb) && repr(a0, cc));
            assert(uniq(aa) && uniq(sub_r(t)) && !idxs(aa).contains(i as nat) && idxs(
                aa,
            ).disjoint(idxs(sub_r(t))));
            assert(uniq(bb) && uniq(cc) && !idxs(bb).contains(ridx(sub_r(t))) && !idxs(
                cc,
            ).contains(ridx(sub_r(t))));
            Self::lemma_root_bound(a0, bb);
            Self::lemma_root_bound(a0, cc);
        }
        let j = self.nodes[i].node.right();
        let jl = self.nodes[j].node.left;
        self.set_right_at(i, jl);
        self.set_left_at(j, i);
        proof {
            let a2 = self.nodes@;
            assert forall|p: nat| idxs(aa).contains(p) implies same_elem(
                #[trigger] a0[p as int],
                a2[p as int],
            ) by {
                lemma_repr_idx(a0, aa, p);
                assert(p != i as nat);
                assert(!idxs(sub_r(t)).contains(p));
            }
            lemma_repr_frame(a0, a2, aa);
            assert forall|p: nat| idxs(bb).contains(p) implies same_elem(
                #[trigger] a0[p as int],
                a2[p as int],
            ) by {
                lemma_repr_idx(a0, bb, p);
                assert(idxs(sub_r(t)).contains(p));
                assert(p != i as nat);
                assert(p != ridx(sub_r(t)));
            }
            lemma_repr_frame(a0, a2, bb);
            assert forall|p: nat| idxs(cc).contains(p) implies same_elem(
                #[trigger] a0[p as int],
                a2[p as int],
            ) by {
                lemma_repr_idx(a0, cc, p);
                assert(idxs(sub_r(t)).contains(p));
                assert(p != i as nat);
                assert(p != ridx(sub_r(t)));
            }
            lemma_repr_frame(a0, a2, cc);
            let inner = Rbt::Node { i: i as nat, k: key_of(t), l: Box::new(aa), r: Box::new(bb) };
            assert(repr(a2, inner));
            assert(rot_left(t) == Rbt::Node {
                i: ridx(sub_r(t)),
                k: key_of(sub_r(t)),
                l: Box::new(inner),
                r: Box::new(cc),
            });
            assert(repr(a2, rot_left(t)));
        }
        j
    }

    /// Rotates right at element `i`: the mirror of `rotate_left`.
    fn rotate_right(&mut self, i: usize, Ghost(t): Ghost<Rbt>) -> (r: usize)
        requires
            old(self).nodes@.len() <= CAP,
            repr(old(self).nodes@, t),
            uniq(t),
            t is Node,
            sub_l(t) is Node,
            ridx(t) == i as nat,
        ensures
            r as nat == ridx(sub_l(t)),
            0 < r < old(self).nodes@.len(),
            final(self).nodes@.len() == old(self).nodes@.len(),
            repr(final(self).nodes@, rot_right(t)),
            forall|p: int|
                0 <= p < old(self).nodes@.len() && p != i && p != ridx(sub_l(t)) ==> final(self).nodes@[p] == old(self).nodes@[p],
            final(self).nodes@[i as int].key == old(self).nodes@[i as int].key,
            final(self).nodes@[i as int].node.sred() == old(self).nodes@[i as int].node.sred(),
            final(self).nodes@[i as int].node.sright() <= CAP,
            final(self).nodes@[ridx(sub_l(t)) as int].key == old(self).nodes@[ridx(
                sub_l(t),
            ) as int].key,
            final(self).nodes@[ridx(sub_l(t)) as int].node.sred() == old(self).nodes@[ridx(
                sub_l(t),
            ) as int].node.sred(),
            final(self).nodes@[ridx(sub_l(t)) as int].node.sright() <= CAP,
            final(self).root == old(self).root,
            final(self).shape == old(self).shape,
    {
        let ghost a0 = self.nodes@;
        let ghost aa = sub_l(sub_l(t));
        let ghost bb = sub_r(sub_l(t));
        let ghost cc = sub_r(t);
        proof {
            assert(idxs(t) == idxs(sub_l(t)).union(idxs(cc)).insert(ridx(t)));
            assert(idxs(sub_l(t)) == idxs(aa).union(idxs(bb)).insert(ridx(sub_l(t))));
            assert(idxs(sub_l(t)).contains(ridx(sub_l(t))));
            assert(repr(a0, sub_l(t)) && repr(a0, cc));
            assert(repr(a0, aa) && repr(a0, bb));
            assert(uniq(sub_l(t)) && uniq(cc) && !idxs(sub_l(t)).contains(i as nat) && idxs(
                sub_l(t),
            ).disjoint(idxs(cc)));
            assert(uniq(aa) && uniq(bb) && !idxs(aa).contains(ridx(sub_l(t))) && !idxs(
                bb,
            ).contains(ridx(sub_l(t))));
            Self::lemma_root_bound(a0, bb);
            Self::lemma_root_bound(a0, cc);
        }
        let j = self.nodes[i].node.left;
        let jr = self.nodes[j].node.right();
        self.set_left_at(i, jr);
        self.set_right_at(j, i);
        proof {
            let a2 = self.nodes@;
            assert forall|p: nat| idxs(aa).contains(p) implies same_elem(
                #[trigger] a0[p as int],
                a2[p as int],
            ) by {
                lemma_repr_idx(a0, aa, p);
                assert(idxs(sub_l(t)).contains(p));
                assert(p != i as nat);
                assert(p != ridx(sub_l(t)));
            }
            lemma_repr_frame(a0, a2, aa);
            assert forall|p: nat| idxs(bb).contains(p) implies same_elem(
                #[trigger] a0[p as int],
                a2[p as int],
            ) by {
                lemma_repr_idx(a0, bb, p);
                assert(idxs(sub_l(t)).contains(p));
                assert(p != i as nat);
                assert(p != ridx(sub_l(t)));
            }
            lemma_repr_frame(a0, a2, bb);
            assert forall|p: nat| idxs(cc).contains(p) implies same_elem(
                #[trigger] a0[p as int],
                a2[p as int],
            ) by {
                lemma_repr_idx(a0, cc, p);
                assert(p != i as nat);
                assert(!idxs(sub_l(t)).contains(p));
            }
            lemma_repr_frame(a0, a2, cc);
            let inner = Rbt::Node { i: i as nat, k: key_of(t), l: Box::new(bb), r: Box::new(cc) };
            assert(repr(a2, inner));
            assert(rot_right(t) == Rbt::Node {
                i: ridx(sub_l(t)),
                k: key_of(sub_l(t)),
                l: Box::new(aa),
                r: Box::new(inner),
            });
            assert(repr(a2, rot_right(t)));
        }
        j
    }

    /// The member that precedes the member at `node` in the stored order, or
    /// `None` when `node` holds the least member.  The tree is not changed.
    pub fn prev(&mut self, node: usize) -> (r: Option<usize>)
        requires
            old(self).wf(),
            old(self).member(node),
        ensures
            *final(self) == *old(self),
            match r {
                None => forall|q: u64|
                    #[trigger] old(self)@.contains(q) ==> q >= old(self).key_at(node),
                Some(j) => old(self).member(j) && old(self)@.contains(old(self).key_at(j)) && old(
                    self,
                ).key_at(j) < old(self).key_at(node) && forall|q: u64|
                    #[trigger] old(self)@.contains(q) && q < old(self).key_at(node) ==> old(
                        self,
                    ).key_at(j) >= q,
            },
    {
        self.prev_in(node)
    }

    /// Installs `plug(fs, ct)` as the shape.  The remaining path's links
    /// already stand in the arena, so nothing moves.
    fn seal_in(&mut self, child: usize, Ghost(ct): Ghost<Rbt>, Ghost(fs): Ghost<Seq<Frame>>)
        requires
            1 <= old(self).nodes@.len() <= CAP,
            old(self).nodes@[0].node.sleft() == 0,
            old(self).nodes@[0].node.sright() == 0,
            !old(self).nodes@[0].node.sred(),
            repr(old(self).nodes@, ct),
            uniq(ct),
            bst(ct, ctx_lo(fs, None), ctx_hi(fs, None)),
            ridx(ct) == child as nat,
            ctx_repr(old(self).nodes@, fs, ridx(ct)),
            ctx_uniq(fs),
            ctx_bst(fs, None, None),
            ctx_idxs(fs).disjoint(idxs(ct)),
            fs.len() > 0 ==> fs[0].i == old(self).root as nat,
            fs.len() == 0 ==> child == old(self).root,
        ensures
            final(self).wf(),
            final(self)@ == ctx_keys(fs).union(keys(ct)),
            idxs(final(self).shape@) == ctx_idxs(fs).union(idxs(ct)),
            final(self).nodes@ == old(self).nodes@,
            final(self).root == old(self).root,
    {
        proof {
            lemma_plug_repr(self.nodes@, fs, ct);
            lemma_plug_uniq(fs, ct);
            lemma_plug_bst(fs, ct, None, None);
            lemma_plug_keys(fs, ct);
            lemma_plug_idxs(fs, ct);
            lemma_plug_ridx(fs, ct);
        }
        self.shape = Ghost(plug(fs, ct));
    }

    /// Re-links the innermost remaining path level to `child` and installs
    /// the rebuilt shape; with no path left, `child` becomes the root.
    fn close_path(
        &mut self,
        path: &mut Vec<PathElem>,
        child: usize,
        Ghost(ct): Ghost<Rbt>,
        Ghost(fs): Ghost<Seq<Frame>>,
        Ghost(hole): Ghost<nat>,
    )
        requires
            1 <= old(self).nodes@.len() <= CAP,
            old(self).nodes@[0].node.sleft() == 0,
            old(self).nodes@[0].node.sright() == 0,
            !old(self).nodes@[0].node.sred(),
            repr(old(self).nodes@, ct),
            uniq(ct),
            bst(ct, ctx_lo(fs, None), ctx_hi(fs, None)),
            ridx(ct) == child as nat,
            ctx_repr(old(self).nodes@, fs, hole),
            ctx_uniq(fs),
            ctx_bst(fs, None, None),
            ctx_idxs(fs).disjoint(idxs(ct)),
            old(path)@.len() == fs.len(),
            forall|p: int|
                0 <= p < fs.len() ==> (#[trigger] fs[p]).i == old(path)@[p].node as nat && fs[
                    p
                ].left == old(path)@[p].left,
            fs.len() > 0 ==> fs[0].i == old(self).root as nat,
        ensures
            final(self).wf(),
            final(self)@ == ctx_keys(fs).union(keys(ct)),
            idxs(final(self).shape@) == ctx_idxs(fs).union(idxs(ct)),
            final(self).nodes@.len() == old(self).nodes@.len(),
            forall|p: int|
                0 <= p < old(self).nodes@.len() ==> final(self).nodes@[p].key == old(
                    self,
                ).nodes@[p].key,
    {
        if path.len() == 0 {
            self.root = child;
            proof {
                assert(ctx_keys(fs) =~= Set::<u64>::empty());
                assert(ctx_idxs(fs) =~= Set::<nat>::empty());
            }
            self.seal_in(child, Ghost(ct), Ghost(fs));
        } else {
            let pe = path.pop().unwrap();
            let ghost f = fs.last();
            let ghost fs0 = fs.drop_last();
            proof {
                assert(pe.node as nat == f.i && pe.left == f.left);
                assert(0 < f.i < self.nodes@.len());
                assert(ctx_repr(self.nodes@, fs0, f.i));
                assert(ctx_uniq(fs0) && uniq(f.other));
                assert(repr(self.nodes@, f.other));
                assert(ctx_idxs(fs) == ctx_idxs(fs0).union(idxs(f.other)).insert(f.i));
                assert(ctx_keys(fs) == ctx_keys(fs0).union(keys(f.other)).insert(f.k));
                assert(ctx_idxs(fs).contains(f.i));
                assert(!idxs(ct).contains(f.i));
                assert(ctx_idxs(fs0).disjoint(idxs(ct)));
                assert(idxs(f.other).disjoint(idxs(ct)));
                Self::lemma_root_bound(self.nodes@, ct);
            }
            let ghost ap = self.nodes@;
            let ghost ct1 = if f.left {
                Rbt::Node { i: f.i, k: f.k, l: Box::new(ct), r: Box::new(f.other) }
            } else {
                Rbt::Node { i: f.i, k: f.k, l: Box::new(f.other), r: Box::new(ct) }
            };
            if pe.left {
                self.set_left_at(pe.node, child);
            } else {
                self.set_right_at(pe.node, child);
            }
            proof {
                let a2 = self.nodes@;
                assert forall|p: nat| idxs(ct).contains(p) implies same_elem(
                    #[trigger] ap[p as int],
                    a2[p as int],
                ) by {
                    lemma_repr_idx(ap, ct, p);
                }
                lemma_repr_frame(ap, a2, ct);
                assert forall|p: nat| idxs(f.other).contains(p) implies same_elem(
                    #[trigger] ap[p as int],
                    a2[p as int],
                ) by {
                    lemma_repr_idx(ap, f.other, p);
                    assert(!idxs(f.other).contains(f.i));
                }
                lemma_repr_frame(ap, a2, f.other);
                assert(repr(a2, ct1));
                lemma_ctx_outside_frame(ap, a2, fs0, f.i, Set::<nat>::empty().insert(f.i));
                assert(keys(ct1) =~= keys(ct).union(keys(f.other)).insert(f.k));
                assert(idxs(ct1) =~= idxs(ct).union(idxs(f.other)).insert(f.i));
                assert(ctx_keys(fs0).union(keys(ct1)) =~= ctx_keys(fs).union(keys(ct)));
                assert(ctx_idxs(fs0).union(idxs(ct1)) =~= ctx_idxs(fs).union(idxs(ct)));
                assert(ctx_idxs(fs0).disjoint(idxs(ct1)));
                assert(uniq(ct1));
                if f.left {
                    assert(ctx_lo(fs, None) == ctx_lo(fs0, None) && ctx_hi(fs, None) == Some(f.k));
                } else {
                    assert(ctx_lo(fs, None) == Some(f.k) && ctx_hi(fs, None) == ctx_hi(fs0, None));
                }
                assert(bst(ct1, ctx_lo(fs0, None), ctx_hi(fs0, None)));
                if fs0.len() > 0 {
                    assert(fs0[0] == fs[0]);
                }
            }
            self.seal_in(pe.node, Ghost(ct1), Ghost(fs0));
        }
    }

    /// Inserts a fresh element carrying `key`, which must not be a member,
    /// and returns its arena index.  The walk down records the visited
    /// nodes and the comparison outcomes; the walk back up re-links the
    /// child just ascended from and restores the left-leaning shape with at
    /// most one rotation or recoloring per level, stopping as soon as the
    /// ascended-from child is black.
    pub fn insert(&mut self, key: u64) -> (idx: usize)
        requires
            old(self).wf(),
            !old(self)@.contains(key),
            old(self).arena_len() < CAP,
        ensures
            final(self).wf(),
            final(self)@ == old(self)@.insert(key),
            idx == old(self).arena_len(),
            final(self).arena_len() == old(self).arena_len() + 1,
            final(self).member(idx),
            final(self).key_at(idx) == key,
            forall|j: usize| #[trigger] old(self).member(j) ==> final(self).member(j),
            forall|j: usize|
                #[trigger] final(self).member(j) ==> old(self).member(j) || j == idx,
            forall|j: usize|
                j < old(self).arena_len() ==> final(self).key_at(j) == old(self).key_at(j),
    {
        let ghost t0 = self.shape@;
        let idx = self.nodes.len();
        self.nodes.push(Elem { key, node: Node::new() });
        let ghost a1 = self.nodes@;
        proof {
            assert forall|p: nat| idxs(t0).contains(p) implies same_elem(
                #[trigger] old(self).nodes@[p as int],
                a1[p as int],
            ) by {
                lemma_repr_idx(old(self).nodes@, t0, p);
            }
            lemma_repr_frame(old(self).nodes@, a1, t0);
            if idxs(t0).contains(idx as nat) {
                lemma_repr_idx(old(self).nodes@, t0, idx as nat);
            }
            assert(!idxs(t0).contains(idx as nat));
        }
        // Wind: record the path down to the sentinel.
        let mut path: Vec<PathElem> = Vec::new();
        let mut cur = self.root;
        let ghost mut fs: Seq<Frame> = Seq::empty();
        let ghost mut t = t0;
        let ghost mut lo: Option<u64> = None;
        let ghost mut hi: Option<u64> = None;
        proof {
            assert(ctx_keys(fs) =~= Set::<u64>::empty());
            assert(ctx_idxs(fs) =~= Set::<nat>::empty());
            assert(ctx_keys(fs).union(keys(t)) =~= keys(t0));
            assert(ctx_idxs(fs).union(idxs(t)) =~= idxs(t0));
        }
        while cur != NIL
            invariant
                old(self).wf(),
                !keys(t0).contains(key),
                t0 == old(self).shape@,
                idx == old(self).nodes@.len(),
                1 <= idx < CAP,
                !idxs(t0).contains(idx as nat),
                self.nodes@ == a1,
                a1.len() == idx + 1,
                a1[idx as int].key == key,
                a1[idx as int].node.sleft() == 0,
                a1[idx as int].node.sright() == 0,
                a1[0] == old(self).nodes@[0],
                self.root == old(self).root,
                repr(a1, t),
                uniq(t),
                bst(t, lo, hi),
                ridx(t) == cur as nat,
                lo_ok(lo, key),
                hi_ok(key, hi),
                !keys(t).contains(key),
                ctx_repr(a1, fs, ridx(t)),
                ctx_uniq(fs),
                ctx_bst(fs, None, None),
                ctx_lo(fs, None) == lo,
                ctx_hi(fs, None) == hi,
                ctx_idxs(fs).disjoint(idxs(t)),
                !ctx_idxs(fs).contains(idx as nat),
                ctx_keys(fs).union(keys(t)) == keys(t0),
                ctx_idxs(fs).union(idxs(t)) == idxs(t0),
                path@.len() == fs.len(),
                forall|p: int|
                    0 <= p < fs.len() ==> (#[trigger] fs[p]).i == path@[p].node as nat && fs[
                        p
                    ].left == path@[p].left,
                fs.len() > 0 ==> fs[0].i == self.root as nat,
                fs.len() == 0 ==> cur == self.root,
            decreases height(t),
        {
            proof {
                lemma_ridx_zero(t);
                assert(t is Node);
            }
            let e = self.nodes[cur];
            if key < e.key {
                path.push(PathElem { node: cur, left: true });
                proof {
                    let f = Frame { left: true, i: cur as nat, k: key_of(t), other: sub_r(t) };
                    lemma_push(fs, f);
                    assert(keys(t) == keys(sub_l(t)).union(keys(sub_r(t))).insert(key_of(t)));
                    assert(idxs(t) == idxs(sub_l(t)).union(idxs(sub_r(t))).insert(cur as nat));
                    let fs2 = fs.push(f);
                    assert(ctx_lo(fs2, None) == lo);
                    assert(ctx_hi(fs2, None) == Some(key_of(t)));
                    assert(ctx_keys(fs2) =~= ctx_keys(fs).union(keys(sub_r(t))).insert(key_of(t)));
                    assert(ctx_idxs(fs2) =~= ctx_idxs(fs).union(idxs(sub_r(t))).insert(cur as nat));
                    assert(ctx_uniq(fs2));
                    assert(ctx_bst(fs2, None, None));
                    assert(ctx_repr(a1, fs2, ridx(sub_l(t))));
                    assert(ctx_keys(fs2).union(keys(sub_l(t))) =~= keys(t0));
                    assert(ctx_idxs(fs2).union(idxs(sub_l(t))) =~= idxs(t0));
                    fs = fs2;
                    hi = Some(key_of(t));
                    t = sub_l(t);
                }
                cur = e.node.left;
            } else {
                proof {
                    assert(keys(t).contains(key_of(t)));
                    assert(key > key_of(t));
                }
                path.push(PathElem { node: cur, left: false });
                proof {
                    let f = Frame { left: false, i: cur as nat, k: key_of(t), other: sub_l(t) };
                    lemma_push(fs, f);
                    assert(keys(t) == keys(sub_l(t)).union(keys(sub_r(t))).insert(key_of(t)));
                    assert(idxs(t) == idxs(sub_l(t)).union(idxs(sub_r(t))).insert(cur as nat));
                    let fs2 = fs.push(f);
                    assert(ctx_lo(fs2, None) == Some(key_of(t)));
                    assert(ctx_hi(fs2, None) == hi);
                    assert(ctx_keys(fs2) =~= ctx_keys(fs).union(keys(sub_l(t))).insert(key_of(t)));
                    assert(ctx_idxs(fs2) =~= ctx_idxs(fs).union(idxs(sub_l(t))).insert(cur as nat));
                    assert(ctx_uniq(fs2));
                    assert(ctx_bst(fs2, None, None));
                    assert(ctx_repr(a1, fs2, ridx(sub_r(t))));
                    assert(ctx_keys(fs2).union(keys(sub_r(t))) =~= keys(t0));
                    assert(ctx_idxs(fs2).union(idxs(sub_r(t))) =~= idxs(t0));
                    fs = fs2;
                    lo = Some(key_of(t));
                    t = sub_r(t);
                }
                cur = e.node.right();
            }
        }
        // Place the fresh element as a red leaf at the sentinel position.
        let ghost leaf = Rbt::Node {
            i: idx as nat,
            k: key,
            l: Box::new(Rbt::Nil),
            r: Box::new(Rbt::Nil),
        };
        proof {
            lemma_ridx_zero(t);
            assert(t is Nil);
            assert(keys(t) =~= Set::<u64>::empty());
            assert(idxs(t) =~= Set::<nat>::empty());
            assert(repr(a1, leaf));
            assert(uniq(leaf));
            assert(bst(Rbt::Nil, lo, Some(key)));
            assert(bst(Rbt::Nil, Some(key), hi));
            assert(bst(leaf, lo, hi));
            assert(keys(leaf) =~= Set::<u64>::empty().insert(key));
            assert(idxs(leaf) =~= Set::<nat>::empty().insert(idx as nat));
            assert(ctx_idxs(fs).disjoint(idxs(leaf)));
            assert(ctx_keys(fs).union(keys(leaf)) =~= keys(t0).insert(key));
            assert(ctx_idxs(fs).union(idxs(leaf)) =~= idxs(t0).insert(idx as nat));
        }
        let mut child = idx;
        let ghost mut ct = leaf;
        let ghost mut hole: nat = 0;
        // Unwind: re-link and fix up, bottom-up.
        while path.len() != 0
            invariant
                old(self).wf(),
                !keys(t0).contains(key),
                t0 == old(self).shape@,
                idx == old(self).nodes@.len(),
                1 <= idx < CAP,
                self.nodes@.len() == idx + 1,
                forall|p: int| 0 <= p <= idx ==> self.nodes@[p].key == a1[p].key,
                a1.len() == idx + 1,
                a1[idx as int].key == key,
                forall|p: int| 0 <= p < idx ==> a1[p] == old(self).nodes@[p],
                self.nodes@[0] == old(self).nodes@[0],
                self.root == old(self).root,
                repr(self.nodes@, ct),
                uniq(ct),
                ct is Node,
                ridx(ct) == child as nat,
                bst(ct, ctx_lo(fs, None), ctx_hi(fs, None)),
                ctx_repr(self.nodes@, fs, hole),
                ctx_uniq(fs),
                ctx_bst(fs, None, None),
                ctx_idxs(fs).disjoint(idxs(ct)),
                ctx_keys(fs).union(keys(ct)) == keys(t0).insert(key),
                ctx_idxs(fs).union(idxs(ct)) == idxs(t0).insert(idx as nat),
                path@.len() == fs.len(),
                forall|p: int|
                    0 <= p < fs.len() ==> (#[trigger] fs[p]).i == path@[p].node as nat && fs[
                        p
                    ].left == path@[p].left,
                fs.len() > 0 ==> fs[0].i == self.root as nat,
            decreases path@.len(),
        {
            let ghost f = fs.last();
            let ghost fs0 = fs.drop_last();
            let pe = path.pop().unwrap();
            proof {
                assert(pe.node as nat == f.i && pe.left == f.left);
                assert(0 < f.i < self.nodes@.len());
                assert(ctx_repr(self.nodes@, fs0, f.i));
                assert(ctx_uniq(fs0) && uniq(f.other));
                assert(repr(self.nodes@, f.other));
                assert(ctx_idxs(fs) == ctx_idxs(fs0).union(idxs(f.other)).insert(f.i));
                assert(ctx_keys(fs) == ctx_keys(fs0).union(keys(f.other)).insert(f.k));
                assert(ctx_idxs(fs).contains(f.i));
                assert(!idxs(ct).contains(f.i));
                assert(ctx_idxs(fs0).disjoint(idxs(ct)));
                assert(idxs(f.other).disjoint(idxs(ct)));
            }
            let ghost ap = self.nodes@;
            if pe.left {
                self.set_left_at(pe.node, child);
                let ghost ct1 = Rbt::Node { i: f.i, k: f.k, l: Box::new(ct), r: Box::new(f.other) };
                proof {
                    let a2 = self.nodes@;
                    assert forall|p: nat| idxs(ct).contains(p) implies same_elem(
                        #[trigger] ap[p as int],
                        a2[p as int],
                    ) by {
                        lemma_repr_idx(ap, ct, p);
                    }
                    lemma_repr_frame(ap, a2, ct);
                    assert forall|p: nat| idxs(f.other).contains(p) implies same_elem(
                        #[trigger] ap[p as int],
                        a2[p as int],
                    ) by {
                        lemma_repr_idx(ap, f.other, p);
                        assert(!idxs(f.other).contains(f.i));
                    }
                    lemma_repr_frame(ap, a2, f.other);
                    assert(repr(a2, ct1));
                    lemma_ctx_outside_frame(
                        ap,
                        a2,
                        fs0,
                        f.i,
                        Set::<nat>::empty().insert(f.i),
                    );
                    assert(keys(ct1) =~= keys(ct).union(keys(f.other)).insert(f.k));
                    assert(idxs(ct1) =~= idxs(ct).union(idxs(f.other)).insert(f.i));
                    assert(ctx_keys(fs0).union(keys(ct1)) =~= keys(t0).insert(key));
                    assert(ctx_idxs(fs0).union(idxs(ct1)) =~= idxs(t0).insert(idx as nat));
                    assert(ctx_idxs(fs0).disjoint(idxs(ct1)));
                    assert(uniq(ct1));
                    assert(ctx_lo(fs, None) == ctx_lo(fs0, None) && ctx_hi(fs, None) == Some(f.k));
                    assert(bst(ct1, ctx_lo(fs0, None), ctx_hi(fs0, None)));
                }
                let left_red = self.nodes[child].node.color();
                if left_red {
                    proof {
                        assert(repr(self.nodes@, sub_l(ct)));
                        Self::lemma_root_bound(self.nodes@, sub_l(ct));
                    }
                    let ll = self.nodes[child].node.left;
                    let ll_red = self.nodes[ll].node.color();
                    if ll_red {
                        // An illegal double-red on the left: repaint the
                        // lower red black and rotate the 4-node right.
                        proof {
                            assert(self.nodes@[0].node.sred() == false);
                            assert(ll != NIL);
                            lemma_ridx_zero(sub_l(ct));
                            assert(sub_l(ct) is Node);
                            assert(repr(self.nodes@, sub_r(sub_l(ct))));
                            Self::lemma_root_bound(self.nodes@, sub_r(sub_l(ct)));
                        }
                        let ghost ap2 = self.nodes@;
                        self.set_red_at(ll, false);
                        proof {
                            let a3 = self.nodes@;
                            assert forall|p: int| 0 <= p < ap2.len() implies same_elem(
                                #[trigger] ap2[p],
                                a3[p],
                            ) by {}
                            lemma_recolor_frame(ap2, a3, ct1, fs0, f.i);
                        }
                        let ghost ap3 = self.nodes@;
                        let tnode = self.rotate_right(pe.node, Ghost(ct1));
                        proof {
                            lemma_rot_right(ct1, ctx_lo(fs0, None), ctx_hi(fs0, None));
                            assert(idxs(ct1).contains(f.i));
                            assert(idxs(ct1).contains(ridx(sub_l(ct1))));
                            lemma_ctx_outside_frame(ap3, self.nodes@, fs0, f.i, idxs(ct1));
                            ct = rot_right(ct1);
                            hole = f.i;
                            fs = fs0;
                        }
                        child = tnode;
                    } else {
                        child = pe.node;
                        proof {
                            ct = ct1;
                            hole = f.i;
                            fs = fs0;
                        }
                    }
                } else {
                    // The just-linked left child is black: balance restored.
                    proof {
                        lemma_plug_repr(self.nodes@, fs0, ct1);
                        lemma_plug_uniq(fs0, ct1);
                        lemma_plug_bst(fs0, ct1, None, None);
                        lemma_plug_keys(fs0, ct1);
                        lemma_plug_idxs(fs0, ct1);
                        lemma_plug_ridx(fs0, ct1);
                    }
                    self.shape = Ghost(plug(fs0, ct1));
                    proof {
                        assert(keys(self.shape@) =~= keys(t0).insert(key));
                        assert(idxs(self.shape@) =~= idxs(t0).insert(idx as nat));
                        if fs0.len() > 0 {
                            assert(fs0[0] == fs[0]);
                        }
                        assert forall|j: usize| j < idx implies #[trigger] self.nodes@[
                            j as int
                        ].key == old(self).nodes@[j as int].key by {
                            assert(self.nodes@[j as int].key == ap[j as int].key);
                            assert(ap[j as int].key == a1[j as int].key);
                        }
                    }
                    return idx;
                }
            } else {
                self.set_right_at(pe.node, child);
                let ghost ct1 = Rbt::Node { i: f.i, k: f.k, l: Box::new(f.other), r: Box::new(ct) };
                proof {
                    let a2 = self.nodes@;
                    assert forall|p: nat| idxs(ct).contains(p) implies same_elem(
                        #[trigger] ap[p as int],
                        a2[p as int],
                    ) by {
                        lemma_repr_idx(ap, ct, p);
                    }
                    lemma_repr_frame(ap, a2, ct);
                    assert forall|p: nat| idxs(f.other).contains(p) implies same_elem(
                        #[trigger] ap[p as int],
                        a2[p as int],
                    ) by {
                        lemma_repr_idx(ap, f.other, p);
                        assert(!idxs(f.other).contains(f.i));
                    }
                    lemma_repr_frame(ap, a2, f.other);
                    assert(repr(a2, ct1));
                    lemma_ctx_outside_frame(
                        ap,
                        a2,
                        fs0,
                        f.i,
                        Set::<nat>::empty().insert(f.i),
                    );
                    assert(keys(ct1) =~= keys(ct).union(keys(f.other)).insert(f.k));
                    assert(idxs(ct1) =~= idxs(ct).union(idxs(f.other)).insert(f.i));
                    assert(ctx_keys(fs0).union(keys(ct1)) =~= keys(t0).insert(key));
                    assert(ctx_idxs(fs0).union(idxs(ct1)) =~= idxs(t0).insert(idx as nat));
                    assert(ctx_idxs(fs0).disjoint(idxs(ct1)));
                    assert(uniq(ct1));
                    assert(ctx_lo(fs, None) == Some(f.k) && ctx_hi(fs, None) == ctx_hi(fs0, None));
                    assert(bst(ct1, ctx_lo(fs0, None), ctx_hi(fs0, None)));
                }
                let right_red = self.nodes[child].node.color();
                if right_red {
                    proof {
                        assert(repr(self.nodes@, f.other));
                        assert(self.nodes@[pe.node as int].node.sleft() == ridx(f.other));
                        Self::lemma_root_bound(self.nodes@, f.other);
                    }
                    let cl = self.nodes[pe.node].node.left;
                    let cl_red = self.nodes[cl].node.color();
                    if cl_red {
                        // A full 3-node: split it by recoloring both
                        // children black and this node red, then go on up.
                        proof {
                            assert(self.nodes@[0].node.sred() == false);
                            assert(cl != NIL);
                            lemma_ridx_zero(f.other);
                            assert(f.other is Node);
                            assert(repr(self.nodes@, sub_r(f.other)));
                            Self::lemma_root_bound(self.nodes@, sub_r(f.other));
                            assert(repr(self.nodes@, sub_r(ct)));
                            Self::lemma_root_bound(self.nodes@, sub_r(ct));
                            assert(repr(self.nodes@, sub_r(ct1)));
                        }
                        let ghost ap2 = self.nodes@;
                        self.set_red_at(cl, false);
                        self.set_red_at(child, false);
                        self.set_red_at(pe.node, true);
                        proof {
                            let a3 = self.nodes@;
                            assert forall|p: int| 0 <= p < ap2.len() implies same_elem(
                                #[trigger] ap2[p],
                                a3[p],
                            ) by {}
                            lemma_recolor_frame(ap2, a3, ct1, fs0, f.i);
                        }
                        child = pe.node;
                        proof {
                            ct = ct1;
                            hole = f.i;
                            fs = fs0;
                        }
                    } else {
                        // A right-leaning red link: rotate it to the left,
                        // carrying this node's color to the new subtree root.
                        let tred = self.nodes[pe.node].node.color();
                        let ghost apr = self.nodes@;
                        let tnode = self.rotate_left(pe.node, Ghost(ct1));
                        proof {
                            lemma_rot_left(ct1, ctx_lo(fs0, None), ctx_hi(fs0, None));
                            assert(idxs(ct1).contains(f.i));
                            assert(idxs(ct1).contains(ridx(sub_r(ct1))));
                            lemma_ctx_outside_frame(apr, self.nodes@, fs0, f.i, idxs(ct1));
                        }
                        let ghost ap3 = self.nodes@;
                        self.set_red_at(tnode, tred);
                        self.set_red_at(pe.node, true);
                        proof {
                            let a4 = self.nodes@;
                            assert forall|p: int| 0 <= p < ap3.len() implies same_elem(
                                #[trigger] ap3[p],
                                a4[p],
                            ) by {}
                            lemma_recolor_frame(ap3, a4, rot_left(ct1), fs0, f.i);
                            ct = rot_left(ct1);
                            hole = f.i;
                            fs = fs0;
                        }
                        child = tnode;
                    }
                } else {
                    // The just-linked right child is black: balance restored.
                    proof {
                        lemma_plug_repr(self.nodes@, fs0, ct1);
                        lemma_plug_uniq(fs0, ct1);
                        lemma_plug_bst(fs0, ct1, None, None);
                        lemma_plug_keys(fs0, ct1);
                        lemma_plug_idxs(fs0, ct1);
                        lemma_plug_ridx(fs0, ct1);
                    }
                    self.shape = Ghost(plug(fs0, ct1));
                    proof {
                        assert(keys(self.shape@) =~= keys(t0).insert(key));
                        assert(idxs(self.shape@) =~= idxs(t0).insert(idx as nat));
                        if fs0.len() > 0 {
                            assert(fs0[0] == fs[0]);
                        }
                        assert forall|j: usize| j < idx implies #[trigger] self.nodes@[
                            j as int
                        ].key == old(self).nodes@[j as int].key by {
                            assert(self.nodes@[j as int].key == ap[j as int].key);
                            assert(ap[j as int].key == a1[j as int].key);
                        }
                    }
                    return idx;
                }
            }
        }
        // The whole path was consumed: install the subtree as the root and
        // paint the root black.
        proof {
            assert(fs.len() == 0);
            assert(repr(self.nodes@, sub_r(ct)));
            Self::lemma_root_bound(self.nodes@, sub_r(ct));
        }
        self.root = child;
        let ghost ap = self.nodes@;
        self.set_red_at(child, false);
        self.shape = Ghost(ct);
        proof {
            let a2 = self.nodes@;
            assert forall|p: int| 0 <= p < ap.len() implies same_elem(
                #[trigger] ap[p],
                a2[p],
            ) by {}
            lemma_recolor_frame(ap, a2, ct, fs, hole);
            assert(ctx_keys(fs) =~= Set::<u64>::empty());
            assert(ctx_idxs(fs) =~= Set::<nat>::empty());
            assert(keys(ct) =~= keys(t0).insert(key));
            assert(idxs(ct) =~= idxs(t0).insert(idx as nat));
            assert forall|j: usize| j < idx implies #[trigger] self.nodes@[j as int].key == old(
                self,
            ).nodes@[j as int].key by {
                assert(self.nodes@[j as int].key == ap[j as int].key);
                assert(ap[j as int].key == a1[j as int].key);
            }
        }
        idx
    }

    /// Removes the member element at arena index `node`.  The walk down
    /// records the path to the element and on to its in-order successor; the
    /// successor is spliced into the element's place; pruning a black
    /// position then walks the recorded path back up, restoring the
    /// left-leaning shape level by level until the missing black link is
    /// absorbed.  The slot itself is never reused.
    #[verifier::rlimit(100)]
    pub fn remove(&mut self, node: usize)
        requires
            old(self).wf(),
            old(self).member(node),
        ensures
            final(self).wf(),
            final(self)@ == old(self)@.remove(old(self).key_at(node)),
            final(self).arena_len() == old(self).arena_len(),
            forall|j: usize|
                #[trigger] final(self).member(j) <==> old(self).member(j) && j != node,
            forall|j: usize|
                j < old(self).arena_len() ==> final(self).key_at(j) == old(self).key_at(j),
    {
        let ghost t0 = self.shape@;
        let ghost n0 = self.nodes@.len();
        proof {
            lemma_repr_idx(self.nodes@, t0, node as nat);
        }
        let key = self.nodes[node].key;
        // Locate: descend to the element, recording the path.
        let mut path: Vec<PathElem> = Vec::new();
        let mut cur = self.root;
        let ghost mut fs: Seq<Frame> = Seq::empty();
        let ghost mut t = t0;
        let ghost mut lo: Option<u64> = None;
        let ghost mut hi: Option<u64> = None;
        proof {
            assert(ctx_keys(fs) =~= Set::<u64>::empty());
            assert(ctx_idxs(fs) =~= Set::<nat>::empty());
            assert(ctx_keys(fs).union(keys(t)) =~= keys(t0));
            assert(ctx_idxs(fs).union(idxs(t)) =~= idxs(t0));
        }
        loop
            invariant
                old(self).wf(),
                t0 == old(self).shape@,
                *self == *old(self),
                n0 == self.nodes@.len(),
                idxs(t0).contains(node as nat),
                key == self.nodes@[node as int].key,
                repr(self.nodes@, t),
                uniq(t),
                bst(t, lo, hi),
                ridx(t) == cur as nat,
                keys(t).contains(key),
                idxs(t).contains(node as nat),
                ctx_repr(self.nodes@, fs, ridx(t)),
                ctx_uniq(fs),
                ctx_bst(fs, None, None),
                ctx_lo(fs, None) == lo,
                ctx_hi(fs, None) == hi,
                ctx_idxs(fs).disjoint(idxs(t)),
                ctx_keys(fs).union(keys(t)) == keys(t0),
                ctx_idxs(fs).union(idxs(t)) == idxs(t0),
                path@.len() == fs.len(),
                forall|p: int|
                    0 <= p < fs.len() ==> (#[trigger] fs[p]).i == path@[p].node as nat && fs[
                        p
                    ].left == path@[p].left,
                fs.len() > 0 ==> fs[0].i == self.root as nat,
                fs.len() == 0 ==> cur == self.root,
            ensures
                *self == *old(self),
                cur == node,
                repr(self.nodes@, t),
                uniq(t),
                bst(t, lo, hi),
                ridx(t) == node as nat,
                t is Node,
                key_of(t) == key,
                ctx_repr(self.nodes@, fs, node as nat),
                ctx_uniq(fs),
                ctx_bst(fs, None, None),
                ctx_lo(fs, None) == lo,
                ctx_hi(fs, None) == hi,
                ctx_idxs(fs).disjoint(idxs(t)),
                ctx_keys(fs).union(keys(t)) == keys(t0),
                ctx_idxs(fs).union(idxs(t)) == idxs(t0),
                path@.len() == fs.len(),
                forall|p: int|
                    0 <= p < fs.len() ==> (#[trigger] fs[p]).i == path@[p].node as nat && fs[
                        p
                    ].left == path@[p].left,
                fs.len() > 0 ==> fs[0].i == self.root as nat,
                fs.len() == 0 ==> node == self.root,
            decreases height(t),
        {
            proof {
                lemma_ridx_zero(t);
                if t is Nil {
                    assert(keys(t) =~= Set::<u64>::empty());
                }
                assert(t is Node);
            }
            let e = self.nodes[cur];
            if key < e.key {
                path.push(PathElem { node: cur, left: true });
                proof {
                    let f = Frame { left: true, i: cur as nat, k: key_of(t), other: sub_r(t) };
                    lemma_push(fs, f);
                    assert(keys(t) == keys(sub_l(t)).union(keys(sub_r(t))).insert(key_of(t)));
                    assert(idxs(t) == idxs(sub_l(t)).union(idxs(sub_r(t))).insert(cur as nat));
                    lemma_bst_range(sub_r(t), Some(key_of(t)), hi);
                    assert(!keys(sub_r(t)).contains(key));
                    if idxs(sub_r(t)).contains(node as nat) {
                        lemma_repr_idx(self.nodes@, sub_r(t), node as nat);
                        assert(keys(sub_r(t)).contains(key));
                    }
                    assert(idxs(sub_l(t)).contains(node as nat) || cur == node);
                    if cur == node {
                        assert(key_of(t) == key);
                        assert(false);
                    }
                    let fs2 = fs.push(f);
                    assert(ctx_lo(fs2, None) == lo);
                    assert(ctx_hi(fs2, None) == Some(key_of(t)));
                    assert(ctx_keys(fs2) =~= ctx_keys(fs).union(keys(sub_r(t))).insert(key_of(t)));
                    assert(ctx_idxs(fs2) =~= ctx_idxs(fs).union(idxs(sub_r(t))).insert(cur as nat));
                    assert(ctx_uniq(fs2));
                    assert(ctx_bst(fs2, None, None));
                    assert(ctx_repr(self.nodes@, fs2, ridx(sub_l(t))));
                    assert(ctx_keys(fs2).union(keys(sub_l(t))) =~= keys(t0));
                    assert(ctx_idxs(fs2).union(idxs(sub_l(t))) =~= idxs(t0));
                    fs = fs2;
                    hi = Some(key_of(t));
                    t = sub_l(t);
                }
                cur = e.node.left;
            } else if key > e.key {
                path.push(PathElem { node: cur, left: false });
                proof {
                    let f = Frame { left: false, i: cur as nat, k: key_of(t), other: sub_l(t) };
                    lemma_push(fs, f);
                    assert(keys(t) == keys(sub_l(t)).union(keys(sub_r(t))).insert(key_of(t)));
                    assert(idxs(t) == idxs(sub_l(t)).union(idxs(sub_r(t))).insert(cur as nat));
                    lemma_bst_range(sub_l(t), lo, Some(key_of(t)));
                    assert(!keys(sub_l(t)).contains(key));
                    if idxs(sub_l(t)).contains(node as nat) {
                        lemma_repr_idx(self.nodes@, sub_l(t), node as nat);
                        assert(keys(sub_l(t)).contains(key));
                    }
                    assert(idxs(sub_r(t)).contains(node as nat) || cur == node);
                    if cur == node {
                        assert(key_of(t) == key);
                        assert(false);
                    }
                    let fs2 = fs.push(f);
                    assert(ctx_lo(fs2, None) == Some(key_of(t)));
                    assert(ctx_hi(fs2, None) == hi);
                    assert(ctx_keys(fs2) =~= ctx_keys(fs).union(keys(sub_l(t))).insert(key_of(t)));
                    assert(ctx_idxs(fs2) =~= ctx_idxs(fs).union(idxs(sub_l(t))).insert(cur as nat));
                    assert(ctx_uniq(fs2));
                    assert(ctx_bst(fs2, None, None));
                    assert(ctx_repr(self.nodes@, fs2, ridx(sub_r(t))));
                    assert(ctx_keys(fs2).union(keys(sub_r(t))) =~= keys(t0));
                    assert(ctx_idxs(fs2).union(idxs(sub_r(t))) =~= idxs(t0));
                    fs = fs2;
                    lo = Some(key_of(t));
                    t = sub_r(t);
                }
                cur = e.node.right();
            } else {
                proof {
                    lemma_key_unique(self.nodes@, t0, None, None, cur as nat, node as nat);
                    assert(cur == node);
                }
                break;
            }
        }
        // At the element: `t` is the subtree rooted at `node`.
        let ghost fsa = fs;
        let ghost tt = t;
        let ghost loa = lo;
        let ghost hia = hi;
        let ghost lsub = sub_l(tt);
        let ghost rsub = sub_r(tt);
        proof {
            assert(cur == node);
            assert(key_of(tt) == key);
            assert(repr(self.nodes@, lsub) && repr(self.nodes@, rsub));
            assert(keys(tt) == keys(lsub).union(keys(rsub)).insert(key));
            assert(idxs(tt) == idxs(lsub).union(idxs(rsub)).insert(node as nat));
            assert(uniq(lsub) && uniq(rsub));
            lemma_bst_range(lsub, loa, Some(key));
            lemma_bst_range(rsub, Some(key), hia);
            lemma_ctx_keys_range(fsa, None, None);
            assert(!keys(lsub).contains(key) && !keys(rsub).contains(key));
            assert(!ctx_keys(fsa).contains(key));
            assert(!idxs(lsub).contains(node as nat) && !idxs(rsub).contains(node as nat));
            assert(!ctx_idxs(fsa).contains(node as nat));
        }
        let r0 = self.nodes[node].node.right();
        let mut child: usize;
        let ghost mut ct: Rbt = Rbt::Nil;
        let ghost mut hole: nat = node as nat;
        if r0 == NIL {
            // No successor below the element: splice its left child, if
            // any, directly into its place.
            proof {
                lemma_ridx_zero(rsub);
                assert(rsub is Nil);
                assert(keys(rsub) =~= Set::<u64>::empty());
                assert(idxs(rsub) =~= Set::<nat>::empty());
                assert(ctx_keys(fsa).union(keys(lsub)) =~= keys(t0).remove(key));
                assert(ctx_idxs(fsa).union(idxs(lsub)) =~= idxs(t0).remove(node as nat));
                assert(hi_wider(hia, Some(key)));
                lemma_bst_widen(lsub, loa, Some(key), loa, hia);
            }
            let lidx = self.nodes[node].node.left;
            if lidx != NIL {
                proof {
                    lemma_ridx_zero(lsub);
                    assert(lsub is Node);
                    assert(repr(self.nodes@, sub_r(lsub)));
                    Self::lemma_root_bound(self.nodes@, sub_r(lsub));
                }
                let ghost ap = self.nodes@;
                self.set_red_at(lidx, false);
                proof {
                    let a2 = self.nodes@;
                    assert forall|p: int| 0 <= p < ap.len() implies same_elem(
                        #[trigger] ap[p],
                        a2[p],
                    ) by {}
                    lemma_recolor_frame(ap, a2, lsub, fsa, node as nat);
                }
                self.close_path(&mut path, lidx, Ghost(lsub), Ghost(fsa), Ghost(node as nat));
                proof {
                    assert(self@ =~= keys(t0).remove(key));
                    assert(idxs(self.shape@) =~= idxs(t0).remove(node as nat));
                }
                return;
            } else if self.nodes[node].node.color() {
                // A red leaf position: pruning it leaves every black height
                // unchanged, so no fix-up is needed.
                proof {
                    lemma_ridx_zero(lsub);
                    assert(lsub is Nil);
                    assert(keys(lsub) =~= Set::<u64>::empty());
                    assert(idxs(lsub) =~= Set::<nat>::empty());
                    assert(idxs(Rbt::Nil) =~= Set::<nat>::empty());
                    assert(keys(Rbt::Nil) =~= Set::<u64>::empty());
                }
                self.close_path(
                    &mut path,
                    NIL,
                    Ghost(Rbt::Nil),
                    Ghost(fsa),
                    Ghost(node as nat),
                );
                proof {
                    assert(self@ =~= keys(t0).remove(key));
                    assert(idxs(self.shape@) =~= idxs(t0).remove(node as nat));
                }
                return;
            } else {
                // A black leaf position: prune it and rebalance on the way
                // back up.
                proof {
                    lemma_ridx_zero(lsub);
                    assert(lsub is Nil);
                    assert(keys(lsub) =~= Set::<u64>::empty());
                    assert(idxs(lsub) =~= Set::<nat>::empty());
                    assert(idxs(Rbt::Nil) =~= Set::<nat>::empty());
                    assert(keys(Rbt::Nil) =~= Set::<u64>::empty());
                    assert(ctx_keys(fsa).union(keys(Rbt::Nil)) =~= keys(t0).remove(key));
                    assert(ctx_idxs(fsa).union(idxs(Rbt::Nil)) =~= idxs(t0).remove(node as nat));
                }
                child = NIL;
                proof {
                    ct = Rbt::Nil;
                    hole = node as nat;
                    fs = fsa;
                }
            }
        } else {
            // Locate the in-order successor: one step right, then all-left,
            // still recording the path.
            let la = path.len();
            path.push(PathElem { node, left: false });
            let mut cur2 = r0;
            let ghost mut fsb: Seq<Frame> = Seq::empty();
            let ghost mut t2 = rsub;
            proof {
                lemma_ridx_zero(rsub);
                assert(rsub is Node);
                assert(ctx_keys(fsb) =~= Set::<u64>::empty());
                assert(ctx_idxs(fsb) =~= Set::<nat>::empty());
                assert(ctx_keys(fsb).union(keys(t2)) =~= keys(rsub));
                assert(ctx_idxs(fsb).union(idxs(t2)) =~= idxs(rsub));
                assert(bst(rsub, Some(key), hia));
            }
            while self.nodes[cur2].node.left != NIL
                invariant
                    old(self).wf(),
                    t0 == old(self).shape@,
                    *self == *old(self),
                    n0 == self.nodes@.len(),
                    idxs(t0).contains(node as nat),
                    key == self.nodes@[node as int].key,
                    ctx_repr(self.nodes@, fsa, node as nat),
                    ctx_uniq(fsa),
                    ctx_bst(fsa, None, None),
                    ctx_lo(fsa, None) == loa,
                    ctx_hi(fsa, None) == hia,
                    ctx_idxs(fsa).disjoint(idxs(tt)),
                    ctx_keys(fsa).union(keys(tt)) == keys(t0),
                    ctx_idxs(fsa).union(idxs(tt)) == idxs(t0),
                    repr(self.nodes@, tt),
                    uniq(tt),
                    bst(tt, loa, hia),
                    ridx(tt) == node as nat,
                    tt is Node,
                    key_of(tt) == key,
                    sub_l(tt) == lsub,
                    sub_r(tt) == rsub,
                    rsub is Node,
                    r0 as nat == ridx(rsub),
                    repr(self.nodes@, t2),
                    uniq(t2),
                    t2 is Node,
                    ridx(t2) == cur2 as nat,
                    bst(t2, ctx_lo(fsb, Some(key)), ctx_hi(fsb, hia)),
                    ctx_repr(self.nodes@, fsb, ridx(t2)),
                    ctx_uniq(fsb),
                    ctx_bst(fsb, Some(key), hia),
                    ctx_idxs(fsb).disjoint(idxs(t2)),
                    ctx_keys(fsb).union(keys(t2)) == keys(rsub),
                    ctx_idxs(fsb).union(idxs(t2)) == idxs(rsub),
                    forall|p: int| 0 <= p < fsb.len() ==> (#[trigger] fsb[p]).left,
                    fsb.len() == 0 ==> cur2 == r0,
                    fsb.len() > 0 ==> fsb[0].i == r0 as nat,
                    path@.len() == fsa.len() + 1 + fsb.len(),
                    la == fsa.len(),
                    forall|p: int|
                        0 <= p < la ==> (#[trigger] fsa[p]).i == path@[p].node as nat && fsa[
                            p
                        ].left == path@[p].left,
                    path@[la as int].node == node && path@[la as int].left == false,
                    forall|q: int|
                        0 <= q < fsb.len() ==> (#[trigger] fsb[q]).i == path@[la + 1
                            + q].node as nat && fsb[q].left == path@[la + 1 + q].left,
                    fsa.len() > 0 ==> fsa[0].i == self.root as nat,
                    fsa.len() == 0 ==> node == self.root,
                decreases height(t2),
            {
                let e2 = self.nodes[cur2];
                path.push(PathElem { node: cur2, left: true });
                proof {
                    let lob = ctx_lo(fsb, Some(key));
                    let hib = ctx_hi(fsb, hia);
                    let f = Frame { left: true, i: cur2 as nat, k: key_of(t2), other: sub_r(t2) };
                    lemma_push(fsb, f);
                    assert(keys(t2) == keys(sub_l(t2)).union(keys(sub_r(t2))).insert(key_of(t2)));
                    assert(idxs(t2) == idxs(sub_l(t2)).union(idxs(sub_r(t2))).insert(cur2 as nat));
                    let fs2 = fsb.push(f);
                    assert(ctx_lo(fs2, Some(key)) == lob);
                    assert(ctx_hi(fs2, hia) == Some(key_of(t2)));
                    assert(ctx_keys(fs2) =~= ctx_keys(fsb).union(keys(sub_r(t2))).insert(
                        key_of(t2),
                    ));
                    assert(ctx_idxs(fs2) =~= ctx_idxs(fsb).union(idxs(sub_r(t2))).insert(
                        cur2 as nat,
                    ));
                    assert(ctx_uniq(fs2));
                    assert(ctx_bst(fs2, Some(key), hia));
                    assert(ctx_repr(self.nodes@, fs2, ridx(sub_l(t2))));
                    assert(ctx_keys(fs2).union(keys(sub_l(t2))) =~= keys(rsub));
                    assert(ctx_idxs(fs2).union(idxs(sub_l(t2))) =~= idxs(rsub));
                    assert forall|p: int| 0 <= p < fs2.len() implies (#[trigger] fs2[p]).left by {
                        if p < fsb.len() {
                            assert(fs2[p] == fsb[p]);
                        } else {
                            assert(fs2[p] == f);
                        }
                    }
                    fsb = fs2;
                    t2 = sub_l(t2);
                    lemma_ridx_zero(t2);
                }
                cur2 = e2.node.left;
            }
            // `cur2` holds the successor: swap linkage, not keys.
            let s = cur2;
            let ghost srt = sub_r(t2);
            let ghost ks = key_of(t2);
            proof {
                assert(uniq(sub_l(t2)));
                lemma_ridx_zero(sub_l(t2));
                assert(sub_l(t2) is Nil);
                assert(keys(sub_l(t2)) =~= Set::<u64>::empty());
                assert(idxs(sub_l(t2)) =~= Set::<nat>::empty());
                assert(keys(t2) == keys(srt).insert(ks));
                assert(idxs(t2) == idxs(srt).insert(s as nat));
                assert(idxs(t2).contains(s as nat));
                assert(idxs(rsub).contains(s as nat));
                assert(idxs(tt).contains(s as nat));
                assert(s != node);
                assert(repr(self.nodes@, srt));
                Self::lemma_root_bound(self.nodes@, srt);
                Self::lemma_root_bound(self.nodes@, rsub);
                // the successor's key is the least of the right subtree
                lemma_bst_range(rsub, Some(key), hia);
                assert(keys(t2).contains(ks));
                assert(keys(rsub).contains(ks));
                assert(key < ks && hi_ok(ks, hia));
                assert(lo_ok(loa, key));
            }
            let sr = self.nodes[s].node.right();
            let tred = self.nodes[s].node.color();
            let nred = self.nodes[node].node.color();
            let nleft = self.nodes[node].node.left;
            let ghost ap0 = self.nodes@;
            let ghost ws: Set<nat> = if la == 0 {
                Set::<nat>::empty().insert(s as nat).insert(node as nat)
            } else {
                Set::<nat>::empty().insert(s as nat).insert(node as nat).insert(fsa.last().i)
            };
            self.set_red_at(s, nred);
            self.set_red_at(node, tred);
            self.set_left_at(s, nleft);
            self.set_right_at(s, r0);
            if la == 0 {
                self.root = s;
            } else {
                proof {
                    assert(0 < fsa.last().i < self.nodes@.len());
                }
                let g = path[la - 1];
                proof {
                    assert(g.node as nat == fsa.last().i);
                }
                if g.left {
                    self.set_left_at(g.node, s);
                } else {
                    self.set_right_at(g.node, s);
                }
            }
            path[la] = PathElem { node: s, left: false };
            let ghost nf = Frame { left: false, i: s as nat, k: ks, other: lsub };
            let ghost fsfull = fsa.push(nf) + fsb;
            proof {
                let a9 = self.nodes@;
                assert(a9.len() == n0);
                // distinctness of the written slots from everything that
                // must stay in place
                assert(!idxs(srt).contains(s as nat));
                assert(!idxs(rsub).contains(node as nat));
                assert(!idxs(lsub).contains(s as nat));
                assert(!idxs(lsub).contains(node as nat));
                assert(!ctx_idxs(fsb).contains(s as nat));
                assert(!ctx_idxs(fsb).contains(node as nat));
                assert(!ctx_idxs(fsa).contains(s as nat));
                assert(!ctx_idxs(fsa).contains(node as nat));
                if la > 0 {
                    assert(ctx_idxs(fsa).contains(fsa.last().i));
                    assert(!idxs(tt).contains(fsa.last().i));
                }
                assert forall|p: int|
                    0 <= p < n0 && !ws.contains(p as nat) implies a9[p] == #[trigger] ap0[p] by {}
                // the off-path subtrees survive the splice writes
                assert forall|p: nat| idxs(srt).contains(p) implies same_elem(
                    #[trigger] ap0[p as int],
                    a9[p as int],
                ) by {
                    lemma_repr_idx(ap0, srt, p);
                    assert(!ws.contains(p));
                }
                lemma_repr_frame(ap0, a9, srt);
                assert forall|p: nat| idxs(lsub).contains(p) implies same_elem(
                    #[trigger] ap0[p as int],
                    a9[p as int],
                ) by {
                    lemma_repr_idx(ap0, lsub, p);
                    assert(!ws.contains(p));
                }
                lemma_repr_frame(ap0, a9, lsub);
                lemma_ctx_outside_frame(ap0, a9, fsb, s as nat, ws);
                // the path above the element, re-hooked onto the successor
                if la == 0 {
                    assert(fsa.len() == 0);
                    assert(ctx_repr(a9, fsa, s as nat));
                } else {
                    let g = fsa.last();
                    let fsa0 = fsa.drop_last();
                    assert(ctx_uniq(fsa0) && !ctx_idxs(fsa0).contains(g.i));
                    assert(ctx_idxs(fsa) == ctx_idxs(fsa0).union(idxs(g.other)).insert(g.i));
                    assert(ctx_idxs(fsa0).disjoint(ws)) by {
                        assert(forall|x: nat|
                            ctx_idxs(fsa0).contains(x) ==> #[trigger] ctx_idxs(fsa).contains(x));
                    }
                    lemma_ctx_outside_frame(ap0, a9, fsa0, g.i, ws);
                    assert forall|p: nat| idxs(g.other).contains(p) implies same_elem(
                        #[trigger] ap0[p as int],
                        a9[p as int],
                    ) by {
                        lemma_repr_idx(ap0, g.other, p);
                        assert(ctx_idxs(fsa).contains(p));
                        assert(!ws.contains(p));
                    }
                    lemma_repr_frame(ap0, a9, g.other);
                    assert(a9[g.i as int].key == ap0[g.i as int].key);
                    assert(ctx_repr(a9, fsa, s as nat));
                }
                // the successor slot now carries the element's links
                assert(a9[s as int].key == ks);
                assert(a9[s as int].node.sleft() == ridx(lsub));
                assert(a9[s as int].node.sright() == r0 as nat);
                lemma_push(fsa, nf);
                if fsb.len() == 0 {
                    assert(s == r0);
                    assert(seam(fsb, s as nat) == s as nat);
                } else {
                    assert(seam(fsb, s as nat) == fsb[0].i);
                    assert(fsb[0].i == r0 as nat);
                }
                assert(ctx_repr(a9, fsa.push(nf), seam(fsb, s as nat)));
                lemma_ctx_repr_concat(a9, fsa.push(nf), fsb, s as nat);
                // index discipline of the assembled path
                assert(ctx_idxs(fsa.push(nf)) =~= ctx_idxs(fsa).union(idxs(lsub)).insert(
                    s as nat,
                ));
                assert(ctx_uniq(fsa.push(nf)));
                assert(ctx_idxs(fsa.push(nf)).disjoint(ctx_idxs(fsb)));
                lemma_ctx_concat(fsa.push(nf), fsb, None, None);
                assert(ctx_uniq(fsfull));
                // ordering discipline of the assembled path
                assert(hi_wider(Some(ks), Some(key)));
                lemma_bst_widen(lsub, loa, Some(key), loa, Some(ks));
                assert(ctx_lo(fsa.push(nf), None) == Some(ks));
                assert(ctx_hi(fsa.push(nf), None) == hia);
                assert(ctx_bst(fsa.push(nf), None, None));
                lemma_ctx_keys_range(fsb, Some(key), hia);
                assert(lo_ok(ctx_lo(fsb, Some(key)), ks) && hi_ok(ks, ctx_hi(fsb, hia)));
                lemma_ctx_all_left_lower(fsb, Some(key), Some(key), hia);
                assert(ctx_lo(fsb, Some(key)) == Some(key));
                assert forall|q: u64| #[trigger] ctx_keys(fsb).contains(q) implies lo_ok(
                    Some(ks),
                    q,
                ) by {
                    assert(q > key);
                    assert(!(lo_ok(Some(key), q) && hi_ok(q, ctx_hi(fsb, hia))));
                    match ctx_hi(fsb, hia) {
                        None => {
                            assert(false);
                        },
                        Some(y) => {
                            assert(q >= y);
                            assert(ks < y);
                        },
                    }
                }
                lemma_ctx_all_left_lower(fsb, Some(key), Some(ks), hia);
                assert(ctx_bst(fsb, Some(ks), hia));
                assert(ctx_bst(fsfull, None, None));
                // the hole's bounds and the pruned subtree
                assert(ctx_lo(fsfull, None) == ctx_lo(fsb, Some(ks)));
                assert(ctx_lo(fsb, Some(ks)) == Some(ks));
                assert(ctx_hi(fsfull, None) == ctx_hi(fsb, hia));
                assert(bst(t2, Some(key), ctx_hi(fsb, hia)));
                assert(bst(srt, Some(ks), ctx_hi(fsb, hia)));
                assert forall|p: nat| idxs(srt).contains(p) implies !ctx_idxs(fsfull).contains(
                    p,
                ) by {
                    assert(ctx_idxs(fsfull) =~= ctx_idxs(fsa.push(nf)).union(ctx_idxs(fsb)));
                }
                assert(ctx_idxs(fsfull).disjoint(idxs(srt)));
                // the key and index bookkeeping
                lemma_ctx_keys_range(fsa, None, None);
                assert(!ctx_keys(fsa).contains(key));
                assert(!keys(lsub).contains(key)) by {
                    lemma_bst_range(lsub, loa, Some(key));
                }
                assert(!ctx_keys(fsb).contains(key)) by {
                    if ctx_keys(fsb).contains(key) {
                        assert(keys(rsub).contains(key));
                    }
                }
                assert(!keys(srt).contains(key)) by {
                    if keys(srt).contains(key) {
                        assert(keys(rsub).contains(key));
                    }
                }
                assert(ks != key);
                assert(ctx_keys(fsfull) =~= ctx_keys(fsa).union(keys(lsub)).insert(ks).union(
                    ctx_keys(fsb),
                ));
                assert(keys(rsub) == ctx_keys(fsb).union(keys(srt)).insert(ks));
                assert(keys(tt) == keys(lsub).union(keys(rsub)).insert(key));
                assert(ctx_keys(fsfull).union(keys(srt)) =~= keys(t0).remove(key));
                assert(ctx_idxs(fsfull).union(idxs(srt)) =~= idxs(t0).remove(node as nat));
                // the exec path mirrors the assembled ghost path
                assert(fsfull.len() == la + 1 + fsb.len());
                assert(path@.len() == fsfull.len());
                assert forall|p: int| 0 <= p < fsfull.len() implies (#[trigger] fsfull[p]).i
                    == path@[p].node as nat && fsfull[p].left == path@[p].left by {
                    if p < la {
                        assert(fsfull[p] == fsa[p]);
                    } else if p == la {
                        assert(fsfull[p] == nf);
                    } else {
                        assert(fsfull[p] == fsb[p - la - 1]);
                    }
                }
                if la > 0 {
                    assert(fsfull[0] == fsa[0]);
                } else {
                    assert(fsfull[0] == nf);
                }
            }
            if tred {
                // The pruned position was red: no fix-up is needed.
                self.close_path(&mut path, sr, Ghost(srt), Ghost(fsfull), Ghost(s as nat));
                proof {
                    assert(self@ =~= keys(t0).remove(key));
                    assert(idxs(self.shape@) =~= idxs(t0).remove(node as nat));
                }
                return;
            } else {
                child = sr;
                proof {
                    ct = srt;
                    hole = s as nat;
                    fs = fsfull;
                }
            }
        }
        // The pruned position was black: walk the path back up until the
        // missing black link is absorbed.
        while path.len() != 0
            invariant
                old(self).wf(),
                t0 == old(self).shape@,
                idxs(t0).contains(node as nat),
                key == old(self).nodes@[node as int].key,
                1 <= self.nodes@.len() <= CAP,
                self.nodes@.len() == n0,
                n0 == old(self).nodes@.len(),
                forall|p: int| 0 <= p < n0 ==> self.nodes@[p].key == old(self).nodes@[p].key,
                self.nodes@[0].node.sleft() == 0,
                self.nodes@[0].node.sright() == 0,
                !self.nodes@[0].node.sred(),
                repr(self.nodes@, ct),
                uniq(ct),
                ridx(ct) == child as nat,
                bst(ct, ctx_lo(fs, None), ctx_hi(fs, None)),
                ctx_repr(self.nodes@, fs, hole),
                ctx_uniq(fs),
                ctx_bst(fs, None, None),
                ctx_idxs(fs).disjoint(idxs(ct)),
                ctx_keys(fs).union(keys(ct)) == keys(t0).remove(key),
                ctx_idxs(fs).union(idxs(ct)) == idxs(t0).remove(node as nat),
                path@.len() == fs.len(),
                forall|p: int|
                    0 <= p < fs.len() ==> (#[trigger] fs[p]).i == path@[p].node as nat && fs[
                        p
                    ].left == path@[p].left,
                fs.len() > 0 ==> fs[0].i == self.root as nat,
            decreases path@.len(),
        {
            let ghost f = fs.last();
            let ghost fs0 = fs.drop_last();
            let pe = path.pop().unwrap();
            proof {
                assert(pe.node as nat == f.i && pe.left == f.left);
                assert(0 < f.i < self.nodes@.len());
                assert(ctx_repr(self.nodes@, fs0, f.i));
                assert(ctx_uniq(fs0) && uniq(f.other));
                assert(repr(self.nodes@, f.other));
                assert(ctx_idxs(fs) == ctx_idxs(fs0).union(idxs(f.other)).insert(f.i));
                assert(ctx_keys(fs) == ctx_keys(fs0).union(keys(f.other)).insert(f.k));
                assert(ctx_idxs(fs).contains(f.i));
                assert(!idxs(ct).contains(f.i));
                assert(ctx_idxs(fs0).disjoint(idxs(ct)));
                assert(idxs(f.other).disjoint(idxs(ct)));
                Self::lemma_root_bound(self.nodes@, ct);
                if fs0.len() > 0 {
                    assert(fs0[0] == fs[0]);
                }
            }
            let ghost ap = self.nodes@;
            let ghost ct1 = if f.left {
                Rbt::Node { i: f.i, k: f.k, l: Box::new(ct), r: Box::new(f.other) }
            } else {
                Rbt::Node { i: f.i, k: f.k, l: Box::new(f.other), r: Box::new(ct) }
            };
            if pe.left {
                self.set_left_at(pe.node, child);
            } else {
                self.set_right_at(pe.node, child);
            }
            proof {
                let a2 = self.nodes@;
                assert forall|p: nat| idxs(ct).contains(p) implies same_elem(
                    #[trigger] ap[p as int],
                    a2[p as int],
                ) by {
                    lemma_repr_idx(ap, ct, p);
                }
                lemma_repr_frame(ap, a2, ct);
                assert forall|p: nat| idxs(f.other).contains(p) implies same_elem(
                    #[trigger] ap[p as int],
                    a2[p as int],
                ) by {
                    lemma_repr_idx(ap, f.other, p);
                    assert(!idxs(f.other).contains(f.i));
                }
                lemma_repr_frame(ap, a2, f.other);
                assert(repr(a2, ct1));
                lemma_ctx_outside_frame(ap, a2, fs0, f.i, Set::<nat>::empty().insert(f.i));
                assert(keys(ct1) =~= keys(ct).union(keys(f.other)).insert(f.k));
                assert(idxs(ct1) =~= idxs(ct).union(idxs(f.other)).insert(f.i));
                assert(ctx_keys(fs0).union(keys(ct1)) =~= keys(t0).remove(key));
                assert(ctx_idxs(fs0).union(idxs(ct1)) =~= idxs(t0).remove(node as nat));
                assert(ctx_idxs(fs0).disjoint(idxs(ct1)));
                assert(uniq(ct1));
                if f.left {
                    assert(ctx_lo(fs, None) == ctx_lo(fs0, None) && ctx_hi(fs, None) == Some(f.k));
                } else {
                    assert(ctx_lo(fs, None) == Some(f.k) && ctx_hi(fs, None) == ctx_hi(fs0, None));
                }
                assert(bst(ct1, ctx_lo(fs0, None), ctx_hi(fs0, None)));
                assert(sub_l(ct1) == (if f.left { ct } else { f.other }));
                assert(sub_r(ct1) == (if f.left { f.other } else { ct }));
                assert(repr(a2, sub_r(ct1)));
                Self::lemma_root_bound(a2, sub_r(ct1));
                if idxs(ct1).contains(0) {
                    lemma_repr_idx(a2, ct1, 0);
                }
                assert(!idxs(ct1).contains(0));
            }
            let ghost lo0 = ctx_lo(fs0, None);
            let ghost hi0 = ctx_hi(fs0, None);
            if pe.left {
                // The walk ascended from the left: the sibling is on the
                // right.
                let sib = self.nodes[pe.node].node.right();
                if sib == NIL {
                    // No sibling to borrow from; a well-colored tree never
                    // reaches this arm.  Pass the shortage up unchanged.
                    child = pe.node;
                    proof {
                        ct = ct1;
                        hole = f.i;
                        fs = fs0;
                    }
                } else {
                    proof {
                        lemma_ridx_zero(f.other);
                        assert(f.other is Node);
                        assert(sib as nat == ridx(f.other));
                        assert(repr(self.nodes@, sub_l(f.other)));
                        Self::lemma_root_bound(self.nodes@, sub_l(f.other));
                    }
                    let sl = self.nodes[sib].node.left;
                    let sl_red = self.nodes[sl].node.color();
                    let cur_red = self.nodes[pe.node].node.color();
                    if sl_red {
                        // A red near nephew: a double rotation ends the
                        // repair at this level.
                        proof {
                            assert(sl != NIL);
                            assert(uniq(sub_l(f.other)));
                            lemma_ridx_zero(sub_l(f.other));
                            assert(sub_l(f.other) is Node);
                            assert(repr(self.nodes@, sub_r(sub_l(f.other))));
                            Self::lemma_root_bound(self.nodes@, sub_r(sub_l(f.other)));
                        }
                        let ghost ap2 = self.nodes@;
                        if cur_red {
                            self.set_red_at(pe.node, false);
                        } else {
                            self.set_red_at(sl, false);
                        }
                        proof {
                            let a3 = self.nodes@;
                            assert forall|p: int| 0 <= p < ap2.len() implies same_elem(
                                #[trigger] ap2[p],
                                a3[p],
                            ) by {}
                            lemma_recolor_frame(ap2, a3, ct1, fs0, f.i);
                        }
                        let ghost ap3 = self.nodes@;
                        let tn = self.rot_rl(pe.node, Ghost(ct1));
                        proof {
                            lemma_drl(ct1, lo0, hi0);
                            assert(idxs(ct1).contains(f.i));
                            lemma_ctx_outside_frame(ap3, self.nodes@, fs0, f.i, idxs(ct1));
                        }
                        self.close_path(&mut path, tn, Ghost(drl(ct1)), Ghost(fs0), Ghost(f.i));
                        proof {
                            assert(self@ =~= keys(t0).remove(key));
                            assert(idxs(self.shape@) =~= idxs(t0).remove(node as nat));
                        }
                        return;
                    } else if cur_red {
                        // Red parent, black near nephew: one left rotation
                        // restores balance.
                        let ghost ap3 = self.nodes@;
                        let tn = self.rotate_left(pe.node, Ghost(ct1));
                        proof {
                            lemma_rot_left(ct1, lo0, hi0);
                            assert(idxs(ct1).contains(f.i));
                            assert(idxs(ct1).contains(ridx(sub_r(ct1))));
                            lemma_ctx_outside_frame(ap3, self.nodes@, fs0, f.i, idxs(ct1));
                        }
                        self.close_path(
                            &mut path,
                            tn,
                            Ghost(rot_left(ct1)),
                            Ghost(fs0),
                            Ghost(f.i),
                        );
                        proof {
                            assert(self@ =~= keys(t0).remove(key));
                            assert(idxs(self.shape@) =~= idxs(t0).remove(node as nat));
                        }
                        return;
                    } else {
                        // All black: repaint this node red, rotate it left,
                        // and pass the shortage up.
                        let ghost ap2 = self.nodes@;
                        self.set_red_at(pe.node, true);
                        proof {
                            let a3 = self.nodes@;
                            assert forall|p: int| 0 <= p < ap2.len() implies same_elem(
                                #[trigger] ap2[p],
                                a3[p],
                            ) by {}
                            lemma_recolor_frame(ap2, a3, ct1, fs0, f.i);
                        }
                        let ghost ap3 = self.nodes@;
                        let tn = self.rotate_left(pe.node, Ghost(ct1));
                        proof {
                            lemma_rot_left(ct1, lo0, hi0);
                            assert(idxs(ct1).contains(f.i));
                            assert(idxs(ct1).contains(ridx(sub_r(ct1))));
                            lemma_ctx_outside_frame(ap3, self.nodes@, fs0, f.i, idxs(ct1));
                        }
                        child = tn;
                        proof {
                            ct = rot_left(ct1);
                            hole = f.i;
                            fs = fs0;
                        }
                    }
                }
            } else {
                // The walk ascended from the right: the sibling is on the
                // left.
                let sib = self.nodes[pe.node].node.left;
                if sib == NIL {
                    // No sibling to borrow from; a well-colored tree never
                    // reaches this arm.  Pass the shortage up unchanged.
                    child = pe.node;
                    proof {
                        ct = ct1;
                        hole = f.i;
                        fs = fs0;
                    }
                } else {
                    proof {
                        lemma_ridx_zero(f.other);
                        assert(f.other is Node);
                        assert(sib as nat == ridx(f.other));
                        assert(repr(self.nodes@, sub_r(f.other)));
                        Self::lemma_root_bound(self.nodes@, sub_r(f.other));
                        assert(repr(self.nodes@, sub_l(f.other)));
                        Self::lemma_root_bound(self.nodes@, sub_l(f.other));
                    }
                    if self.nodes[sib].node.color() {
                        // A red sibling.
                        let lr = self.nodes[sib].node.right();
                        proof {
                            assert(lr as nat == ridx(sub_r(f.other)));
                            if lr != NIL {
                                assert(uniq(sub_r(f.other)));
                                lemma_ridx_zero(sub_r(f.other));
                                assert(sub_r(f.other) is Node);
                                assert(repr(self.nodes@, sub_l(sub_r(f.other))));
                                Self::lemma_root_bound(self.nodes@, sub_l(sub_r(f.other)));
                            }
                        }
                        let lrl = self.nodes[lr].node.left;
                        if self.nodes[lrl].node.color() {
                            // Its far-side grandchild leans red: repaint it
                            // and bring it to the top with a double rotation.
                            proof {
                                assert(lrl != NIL);
                                assert(uniq(sub_r(f.other)));
                                lemma_ridx_zero(sub_r(f.other));
                                assert(lr != NIL);
                                assert(sub_r(f.other) is Node);
                                assert(lrl as nat == ridx(sub_l(sub_r(f.other))));
                                assert(repr(self.nodes@, sub_l(sub_r(f.other))));
                                assert(uniq(sub_l(sub_r(f.other))));
                                lemma_ridx_zero(sub_l(sub_r(f.other)));
                                assert(sub_l(sub_r(f.other)) is Node);
                                assert(repr(self.nodes@, sub_r(sub_l(sub_r(f.other)))));
                                Self::lemma_root_bound(
                                    self.nodes@,
                                    sub_r(sub_l(sub_r(f.other))),
                                );
                            }
                            let ghost ap2 = self.nodes@;
                            self.set_red_at(lrl, false);
                            proof {
                                let a3 = self.nodes@;
                                assert forall|p: int| 0 <= p < ap2.len() implies same_elem(
                                    #[trigger] ap2[p],
                                    a3[p],
                                ) by {}
                                lemma_recolor_frame(ap2, a3, ct1, fs0, f.i);
                            }
                            let ghost ap3 = self.nodes@;
                            let tn = self.rot_lr(pe.node, Ghost(ct1));
                            proof {
                                lemma_dlr(ct1, lo0, hi0);
                                assert(idxs(ct1).contains(f.i));
                                lemma_ctx_outside_frame(ap3, self.nodes@, fs0, f.i, idxs(ct1));
                            }
                            self.close_path(
                                &mut path,
                                tn,
                                Ghost(dlr(ct1)),
                                Ghost(fs0),
                                Ghost(f.i),
                            );
                            proof {
                                assert(self@ =~= keys(t0).remove(key));
                                assert(idxs(self.shape@) =~= idxs(t0).remove(node as nat));
                            }
                            return;
                        } else {
                            // Otherwise one right rotation ends the repair,
                            // with the seam repainted.
                            let ghost ap2 = self.nodes@;
                            if lr != NIL {
                                proof {
                                    assert(uniq(sub_r(f.other)));
                                    lemma_ridx_zero(sub_r(f.other));
                                    assert(sub_r(f.other) is Node);
                                    assert(repr(self.nodes@, sub_r(sub_r(f.other))));
                                    Self::lemma_root_bound(
                                        self.nodes@,
                                        sub_r(sub_r(f.other)),
                                    );
                                }
                                self.set_red_at(lr, true);
                            }
                            proof {
                                let a3 = self.nodes@;
                                assert forall|p: int| 0 <= p < ap2.len() implies same_elem(
                                    #[trigger] ap2[p],
                                    a3[p],
                                ) by {}
                                lemma_recolor_frame(ap2, a3, ct1, fs0, f.i);
                            }
                            let ghost ap3 = self.nodes@;
                            let tn = self.rotate_right(pe.node, Ghost(ct1));
                            proof {
                                lemma_rot_right(ct1, lo0, hi0);
                                assert(idxs(ct1).contains(f.i));
                                assert(idxs(ct1).contains(ridx(sub_l(ct1))));
                                lemma_ctx_outside_frame(ap3, self.nodes@, fs0, f.i, idxs(ct1));
                            }
                            let ghost ap4 = self.nodes@;
                            proof {
                                assert(repr(ap4, rot_right(ct1)));
                                assert(repr(ap4, sub_r(rot_right(ct1))));
                                Self::lemma_root_bound(ap4, sub_r(rot_right(ct1)));
                            }
                            self.set_red_at(tn, false);
                            proof {
                                let a5 = self.nodes@;
                                assert forall|p: int| 0 <= p < ap4.len() implies same_elem(
                                    #[trigger] ap4[p],
                                    a5[p],
                                ) by {}
                                lemma_recolor_frame(ap4, a5, rot_right(ct1), fs0, f.i);
                            }
                            self.close_path(
                                &mut path,
                                tn,
                                Ghost(rot_right(ct1)),
                                Ghost(fs0),
                                Ghost(f.i),
                            );
                            proof {
                                assert(self@ =~= keys(t0).remove(key));
                                assert(idxs(self.shape@) =~= idxs(t0).remove(node as nat));
                            }
                            return;
                        }
                    } else {
                        let ll = self.nodes[sib].node.left;
                        let ll_red = self.nodes[ll].node.color();
                        let cur_red = self.nodes[pe.node].node.color();
                        if ll_red {
                            // A red far nephew: repaint and rotate right.
                            proof {
                                assert(ll != NIL);
                                assert(uniq(sub_l(f.other)));
                                lemma_ridx_zero(sub_l(f.other));
                                assert(sub_l(f.other) is Node);
                                assert(repr(self.nodes@, sub_r(sub_l(f.other))));
                                Self::lemma_root_bound(self.nodes@, sub_r(sub_l(f.other)));
                            }
                            let ghost ap2 = self.nodes@;
                            if cur_red {
                                self.set_red_at(pe.node, false);
                                self.set_red_at(sib, true);
                            }
                            self.set_red_at(ll, false);
                            proof {
                                let a3 = self.nodes@;
                                assert forall|p: int| 0 <= p < ap2.len() implies same_elem(
                                    #[trigger] ap2[p],
                                    a3[p],
                                ) by {}
                                lemma_recolor_frame(ap2, a3, ct1, fs0, f.i);
                            }
                            let ghost ap3 = self.nodes@;
                            let tn = self.rotate_right(pe.node, Ghost(ct1));
                            proof {
                                lemma_rot_right(ct1, lo0, hi0);
                                assert(idxs(ct1).contains(f.i));
                                assert(idxs(ct1).contains(ridx(sub_l(ct1))));
                                lemma_ctx_outside_frame(ap3, self.nodes@, fs0, f.i, idxs(ct1));
                            }
                            self.close_path(
                                &mut path,
                                tn,
                                Ghost(rot_right(ct1)),
                                Ghost(fs0),
                                Ghost(f.i),
                            );
                            proof {
                                assert(self@ =~= keys(t0).remove(key));
                                assert(idxs(self.shape@) =~= idxs(t0).remove(node as nat));
                            }
                            return;
                        } else if cur_red {
                            // Red parent absorbs the shortage: swap the two
                            // colors and stop.
                            let ghost ap2 = self.nodes@;
                            self.set_red_at(sib, true);
                            self.set_red_at(pe.node, false);
                            proof {
                                let a3 = self.nodes@;
                                assert forall|p: int| 0 <= p < ap2.len() implies same_elem(
                                    #[trigger] ap2[p],
                                    a3[p],
                                ) by {}
                                lemma_recolor_frame(ap2, a3, ct1, fs0, f.i);
                            }
                            self.seal_in(pe.node, Ghost(ct1), Ghost(fs0));
                            proof {
                                assert(self@ =~= keys(t0).remove(key));
                                assert(idxs(self.shape@) =~= idxs(t0).remove(node as nat));
                            }
                            return;
                        } else {
                            // All black: repaint the sibling red and pass the
                            // shortage up.
                            let ghost ap2 = self.nodes@;
                            self.set_red_at(sib, true);
                            proof {
                                let a3 = self.nodes@;
                                assert forall|p: int| 0 <= p < ap2.len() implies same_elem(
                                    #[trigger] ap2[p],
                                    a3[p],
                                ) by {}
                                lemma_recolor_frame(ap2, a3, ct1, fs0, f.i);
                            }
                            child = pe.node;
                            proof {
                                ct = ct1;
                                hole = f.i;
                                fs = fs0;
                            }
                        }
                    }
                }
            }
        }
        // The whole path was consumed: install the subtree as the root.
        self.root = child;
        self.shape = Ghost(ct);
        proof {
            assert(ctx_keys(fs) =~= Set::<u64>::empty());
            assert(ctx_idxs(fs) =~= Set::<nat>::empty());
            assert(keys(ct) =~= keys(t0).remove(key));
            assert(idxs(ct) =~= idxs(t0).remove(node as nat));
        }
    }

    /// In-order traversal is sorted: for any sequence of unique-keyed
    /// insertions, walking the tree in symmetric order yields every stored
    /// key exactly once, strictly ascending — so a traversal via the least
    /// member and repeated successors is ascending and has one entry per
    /// insertion.
    pub proof fn lemma_ordered_traversal(self)
        requires
            self.wf(),
        ensures
            self.key_seq().to_set() == self@,
            self.key_seq().len() == self@.len(),
            self.key_seq().no_duplicates(),
            forall|p: int, q: int|
                0 <= p < q < self.key_seq().len() ==> #[trigger] self.key_seq()[p]
                    < #[trigger] self.key_seq()[q],
    {
        lemma_inorder(self.shape@, None, None);
    }

    /// Members are identified by their keys: two member elements that
    /// compare equal are the same element.  In particular, when a key is a
    /// member, exact search, next-or-equal search and previous-or-equal
    /// search all return the one element carrying it.
    pub proof fn lemma_member_key_unique(self, i: usize, j: usize)
        requires
            self.wf(),
            self.member(i),
            self.member(j),
            self.key_at(i) == self.key_at(j),
        ensures
            i == j,
    {
        lemma_key_unique(self.nodes@, self.shape@, None, None, i as nat, j as nat);
    }

    /// Round trip: inserting a fresh key and then removing it returns the
    /// stored key set to what it was, so removing `n` inserted elements in
    /// any order empties the tree again.
    pub proof fn lemma_insert_remove_round_trip(s: Set<u64>, k: u64)
        requires
            !s.contains(k),
        ensures
            s.insert(k).remove(k) == s,
    {
        assert(s.insert(k).remove(k) =~= s);
    }

    /// Rotates the subtree's right child right, re-links it, then rotates
    /// the subtree left: the right child's left child comes out on top.
    fn rot_rl(&mut self, i: usize, Ghost(t): Ghost<Rbt>) -> (r: usize)
        requires
            old(self).nodes@.len() <= CAP,
            repr(old(self).nodes@, t),
            uniq(t),
            t is Node,
            sub_r(t) is Node,
            sub_l(sub_r(t)) is Node,
            ridx(t) == i as nat,
        ensures
            r as nat == ridx(drl(t)),
            0 < r < old(self).nodes@.len(),
            final(self).nodes@.len() == old(self).nodes@.len(),
            repr(final(self).nodes@, drl(t)),
            forall|p: int|
                0 <= p < old(self).nodes@.len() && !idxs(t).contains(p as nat) ==> final(self).nodes@[p] == old(self).nodes@[p],
            forall|p: int|
                0 <= p < old(self).nodes@.len() ==> final(self).nodes@[p].key == old(
                    self,
                ).nodes@[p].key,
            final(self).root == old(self).root,
            final(self).shape == old(self).shape,
    {
        let ghost a0 = self.nodes@;
        let ghost rs = sub_r(t);
        proof {
            assert(repr(a0, sub_l(t)) && repr(a0, rs));
            assert(uniq(sub_l(t)) && uniq(rs));
            assert(idxs(t) == idxs(sub_l(t)).union(idxs(rs)).insert(i as nat));
            assert(idxs(rs).contains(ridx(rs)));
            assert(idxs(rs).contains(ridx(sub_l(rs)))) by {
                assert(idxs(rs) == idxs(sub_l(rs)).union(idxs(sub_r(rs))).insert(ridx(rs)));
                assert(idxs(sub_l(rs)).contains(ridx(sub_l(rs))));
            }
            assert(!idxs(rs).contains(i as nat));
        }
        let sib = self.nodes[i].node.right();
        let nr = self.rotate_right(sib, Ghost(rs));
        let ghost a1 = self.nodes@;
        proof {
            lemma_rot_right(rs, None, None);
            assert(a1[i as int] == a0[i as int]);
            assert forall|p: nat| idxs(sub_l(t)).contains(p) implies same_elem(
                #[trigger] a0[p as int],
                a1[p as int],
            ) by {
                lemma_repr_idx(a0, sub_l(t), p);
                assert(!idxs(rs).contains(p));
            }
            lemma_repr_frame(a0, a1, sub_l(t));
        }
        self.set_right_at(i, nr);
        let ghost a2 = self.nodes@;
        let ghost mid = Rbt::Node {
            i: i as nat,
            k: key_of(t),
            l: Box::new(sub_l(t)),
            r: Box::new(rot_right(rs)),
        };
        proof {
            assert forall|p: nat| idxs(sub_l(t)).contains(p) implies same_elem(
                #[trigger] a1[p as int],
                a2[p as int],
            ) by {
                lemma_repr_idx(a1, sub_l(t), p);
            }
            lemma_repr_frame(a1, a2, sub_l(t));
            assert forall|p: nat| idxs(rot_right(rs)).contains(p) implies same_elem(
                #[trigger] a1[p as int],
                a2[p as int],
            ) by {
                lemma_repr_idx(a1, rot_right(rs), p);
                assert(idxs(rot_right(rs)) == idxs(rs));
            }
            lemma_repr_frame(a1, a2, rot_right(rs));
            assert(repr(a2, mid));
            assert(uniq(mid)) by {
                assert(idxs(rot_right(rs)) == idxs(rs));
            }
            assert(sub_r(mid) == rot_right(rs));
            assert(sub_r(mid) is Node);
        }
        let tn = self.rotate_left(i, Ghost(mid));
        proof {
            assert(rot_left(mid) == drl(t));
            assert(idxs(mid) =~= idxs(t));
            assert(idxs(mid).contains(ridx(sub_r(mid))));
        }
        tn
    }

    /// Rotates the subtree's left child left, re-links it, then rotates the
    /// subtree right: the left child's right child comes out on top.
    fn rot_lr(&mut self, i: usize, Ghost(t): Ghost<Rbt>) -> (r: usize)
        requires
            old(self).nodes@.len() <= CAP,
            repr(old(self).nodes@, t),
            uniq(t),
            t is Node,
            sub_l(t) is Node,
            sub_r(sub_l(t)) is Node,
            ridx(t) == i as nat,
        ensures
            r as nat == ridx(dlr(t)),
            0 < r < old(self).nodes@.len(),
            final(self).nodes@.len() == old(self).nodes@.len(),
            repr(final(self).nodes@, dlr(t)),
            forall|p: int|
                0 <= p < old(self).nodes@.len() && !idxs(t).contains(p as nat) ==> final(self).nodes@[p] == old(self).nodes@[p],
            forall|p: int|
                0 <= p < old(self).nodes@.len() ==> final(self).nodes@[p].key == old(
                    self,
                ).nodes@[p].key,
            final(self).root == old(self).root,
            final(self).shape == old(self).shape,
    {
        let ghost a0 = self.nodes@;
        let ghost ls = sub_l(t);
        proof {
            assert(repr(a0, ls) && repr(a0, sub_r(t)));
            assert(uniq(ls) && uniq(sub_r(t)));
            assert(idxs(t) == idxs(ls).union(idxs(sub_r(t))).insert(i as nat));
            assert(idxs(ls).contains(ridx(ls)));
            assert(idxs(ls).contains(ridx(sub_r(ls)))) by {
                assert(idxs(ls) == idxs(sub_l(ls)).union(idxs(sub_r(ls))).insert(ridx(ls)));
                assert(idxs(sub_r(ls)).contains(ridx(sub_r(ls))));
            }
            assert(!idxs(ls).contains(i as nat));
        }
        let sib = self.nodes[i].node.left;
        let nl = self.rotate_left(sib, Ghost(ls));
        let ghost a1 = self.nodes@;
        proof {
            lemma_rot_left(ls, None, None);
            assert(a1[i as int] == a0[i as int]);
            assert forall|p: nat| idxs(sub_r(t)).contains(p) implies same_elem(
                #[trigger] a0[p as int],
                a1[p as int],
            ) by {
                lemma_repr_idx(a0, sub_r(t), p);
                assert(!idxs(ls).contains(p));
            }
            lemma_repr_frame(a0, a1, sub_r(t));
        }
        self.set_left_at(i, nl);
        let ghost a2 = self.nodes@;
        let ghost mid = Rbt::Node {
            i: i as nat,
            k: key_of(t),
            l: Box::new(rot_left(ls)),
            r: Box::new(sub_r(t)),
        };
        proof {
            assert forall|p: nat| idxs(sub_r(t)).contains(p) implies same_elem(
                #[trigger] a1[p as int],
                a2[p as int],
            ) by {
                lemma_repr_idx(a1, sub_r(t), p);
            }
            lemma_repr_frame(a1, a2, sub_r(t));
            assert forall|p: nat| idxs(rot_left(ls)).contains(p) implies same_elem(
                #[trigger] a1[p as int],
                a2[p as int],
            ) by {
                lemma_repr_idx(a1, rot_left(ls), p);
                assert(idxs(rot_left(ls)) == idxs(ls));
            }
            lemma_repr_frame(a1, a2, rot_left(ls));
            assert(repr(a2, mid));
            assert(uniq(mid)) by {
                assert(idxs(rot_left(ls)) == idxs(ls));
            }
            assert(sub_l(mid) == rot_left(ls));
            assert(sub_l(mid) is Node);
        }
        let tn = self.rotate_right(i, Ghost(mid));
        proof {
            assert(rot_right(mid) == dlr(t));
            assert(idxs(mid) =~= idxs(t));
            assert(idxs(mid).contains(ridx(sub_l(mid))));
        }
        tn
    }
}

} // verus!
