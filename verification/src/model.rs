//! The mathematical model of the tree: a ghost shape recording, for every
//! node, the arena index of the element that carries it, the element's key,
//! and the two subtrees.  All contracts of the tree operations are stated
//! over this shape and the spec functions below.

use vstd::prelude::*;
use vstd::seq_lib::*;

verus! {

/// The ghost shape of a (sub)tree.  `Nil` stands for the sentinel.
pub enum Rbt {
    Nil,
    Node { i: nat, k: u64, l: Box<Rbt>, r: Box<Rbt> },
}

/// The arena index of the subtree's root; the sentinel index for `Nil`.
pub open spec fn ridx(t: Rbt) -> nat {
    match t {
        Rbt::Nil => 0,
        Rbt::Node { i, .. } => i,
    }
}

/// The key at the subtree's root.
pub open spec fn key_of(t: Rbt) -> u64 {
    match t {
        Rbt::Nil => 0,
        Rbt::Node { k, .. } => k,
    }
}

/// The left subtree.
pub open spec fn sub_l(t: Rbt) -> Rbt {
    match t {
        Rbt::Nil => Rbt::Nil,
        Rbt::Node { l, .. } => *l,
    }
}

/// The right subtree.
pub open spec fn sub_r(t: Rbt) -> Rbt {
    match t {
        Rbt::Nil => Rbt::Nil,
        Rbt::Node { r, .. } => *r,
    }
}

/// All keys stored in the subtree.
pub open spec fn keys(t: Rbt) -> Set<u64>
    decreases t,
{
    match t {
        Rbt::Nil => Set::empty(),
        Rbt::Node { k, l, r, .. } => keys(*l).union(keys(*r)).insert(k),
    }
}

/// All arena indices used by the subtree.
pub open spec fn idxs(t: Rbt) -> Set<nat>
    decreases t,
{
    match t {
        Rbt::Nil => Set::empty(),
        Rbt::Node { i, l, r, .. } => idxs(*l).union(idxs(*r)).insert(i),
    }
}

/// The keys of the subtree, in symmetric (in-order) order.
pub open spec fn inorder(t: Rbt) -> Seq<u64>
    decreases t,
{
    match t {
        Rbt::Nil => Seq::empty(),
        Rbt::Node { k, l, r, .. } => inorder(*l) + seq![k] + inorder(*r),
    }
}

/// The height of the subtree in nodes.
pub open spec fn height(t: Rbt) -> nat
    decreases t,
{
    match t {
        Rbt::Nil => 0,
        Rbt::Node { l, r, .. } => 1 + if height(*l) > height(*r) {
            height(*l)
        } else {
            height(*r)
        },
    }
}

/// `k` lies strictly above the lower bound, if there is one.
pub open spec fn lo_ok(lo: Option<u64>, k: u64) -> bool {
    match lo {
        None => true,
        Some(x) => x < k,
    }
}

/// `k` lies strictly below the upper bound, if there is one.
pub open spec fn hi_ok(k: u64, hi: Option<u64>) -> bool {
    match hi {
        None => true,
        Some(y) => k < y,
    }
}

/// The search-tree ordering, with open bounds carried down the shape.
pub open spec fn bst(t: Rbt, lo: Option<u64>, hi: Option<u64>) -> bool
    decreases t,
{
    match t {
        Rbt::Nil => true,
        Rbt::Node { k, l, r, .. } => lo_ok(lo, k) && hi_ok(k, hi) && bst(*l, lo, Some(k)) && bst(
            *r,
            Some(k),
            hi,
        ),
    }
}

/// Every node uses a distinct arena index, and none uses the sentinel's.
pub open spec fn uniq(t: Rbt) -> bool
    decreases t,
{
    match t {
        Rbt::Nil => true,
        Rbt::Node { i, l, r, .. } => i >= 1 && uniq(*l) && uniq(*r) && !idxs(*l).contains(i)
            && !idxs(*r).contains(i) && idxs(*l).disjoint(idxs(*r)),
    }
}

/// Under the index discipline, only `Nil` maps to the sentinel's index.
pub proof fn lemma_ridx_zero(t: Rbt)
    requires
        uniq(t),
    ensures
        (ridx(t) == 0) <==> (t is Nil),
{
    match t {
        Rbt::Nil => {},
        Rbt::Node { .. } => {},
    }
}

/// Every key of a bounded search tree lies inside its bounds.
pub proof fn lemma_bst_range(t: Rbt, lo: Option<u64>, hi: Option<u64>)
    requires
        bst(t, lo, hi),
    ensures
        forall|q: u64| #[trigger] keys(t).contains(q) ==> lo_ok(lo, q) && hi_ok(q, hi),
    decreases t,
{
    match t {
        Rbt::Nil => {
            assert(keys(t) =~= Set::<u64>::empty());
        },
        Rbt::Node { k, l, r, .. } => {
            lemma_bst_range(*l, lo, Some(k));
            lemma_bst_range(*r, Some(k), hi);
            assert forall|q: u64| #[trigger] keys(t).contains(q) implies lo_ok(lo, q) && hi_ok(
                q,
                hi,
            ) by {
                assert(keys(t) == keys(*l).union(keys(*r)).insert(k));
                if keys(*l).contains(q) {
                    assert(lo_ok(lo, q) && hi_ok(q, Some(k)));
                } else if keys(*r).contains(q) {
                    assert(lo_ok(Some(k), q) && hi_ok(q, hi));
                } else {
                    assert(q == k);
                }
            }
        },
    }
}

/// `lo2` is no tighter a lower bound than `lo`.
pub open spec fn lo_wider(lo2: Option<u64>, lo: Option<u64>) -> bool {
    match lo2 {
        None => true,
        Some(x2) => match lo {
            None => false,
            Some(x) => x2 <= x,
        },
    }
}

/// `hi2` is no tighter an upper bound than `hi`.
pub open spec fn hi_wider(hi2: Option<u64>, hi: Option<u64>) -> bool {
    match hi2 {
        None => true,
        Some(y2) => match hi {
            None => false,
            Some(y) => y <= y2,
        },
    }
}

/// A bounded search tree remains one under looser bounds.
pub proof fn lemma_bst_widen(t: Rbt, lo: Option<u64>, hi: Option<u64>, lo2: Option<u64>, hi2: Option<u64>)
    requires
        bst(t, lo, hi),
        lo_wider(lo2, lo),
        hi_wider(hi2, hi),
    ensures
        bst(t, lo2, hi2),
    decreases t,
{
    match t {
        Rbt::Nil => {},
        Rbt::Node { k, l, r, .. } => {
            lemma_bst_widen(*l, lo, Some(k), lo2, Some(k));
            lemma_bst_widen(*r, Some(k), hi, Some(k), hi2);
        },
    }
}

/// The in-order key sequence of a bounded search tree: it lists exactly the
/// tree's keys, strictly ascending and inside the bounds.
pub proof fn lemma_inorder(t: Rbt, lo: Option<u64>, hi: Option<u64>)
    requires
        bst(t, lo, hi),
    ensures
        inorder(t).to_set() == keys(t),
        inorder(t).len() == keys(t).len(),
        inorder(t).no_duplicates(),
        forall|p: int, q: int|
            0 <= p < q < inorder(t).len() ==> #[trigger] inorder(t)[p] < #[trigger] inorder(t)[q],
        forall|p: int|
            0 <= p < inorder(t).len() ==> lo_ok(lo, #[trigger] inorder(t)[p]) && hi_ok(
                inorder(t)[p],
                hi,
            ),
    decreases t,
{
    match t {
        Rbt::Nil => {
            assert(inorder(t).to_set() =~= keys(t));
        },
        Rbt::Node { k, l, r, .. } => {
            lemma_inorder(*l, lo, Some(k));
            lemma_inorder(*r, Some(k), hi);
            let il = inorder(*l);
            let ir = inorder(*r);
            let s = inorder(t);
            assert(s == il + seq![k] + ir);
            assert(s.len() == il.len() + 1 + ir.len());
            assert forall|p: int| 0 <= p < s.len() implies lo_ok(lo, #[trigger] s[p]) && hi_ok(
                s[p],
                hi,
            ) by {
                if p < il.len() {
                    assert(s[p] == il[p]);
                } else if p == il.len() {
                    assert(s[p] == k);
                } else {
                    assert(s[p] == ir[p - il.len() - 1]);
                }
            }
            assert forall|p: int, q: int| 0 <= p < q < s.len() implies s[p] < s[q] by {
                let a = if p < il.len() {
                    il[p]
                } else if p == il.len() {
                    k
                } else {
                    ir[p - il.len() - 1]
                };
                assert(s[p] == a);
                let b = if q < il.len() {
                    il[q]
                } else if q == il.len() {
                    k
                } else {
                    ir[q - il.len() - 1]
                };
                assert(s[q] == b);
            }
            assert(s.to_set() =~= keys(t)) by {
                assert forall|q: u64| #[trigger] s.to_set().contains(q) implies keys(t).contains(
                    q,
                ) by {
                    let p = choose|p: int| 0 <= p < s.len() && s[p] == q;
                    if p < il.len() {
                        assert(il[p] == q);
                        assert(il.to_set().contains(q));
                    } else if p == il.len() {
                        assert(q == k);
                    } else {
                        assert(ir[p - il.len() - 1] == q);
                        assert(ir.to_set().contains(q));
                    }
                }
                assert forall|q: u64| #[trigger] keys(t).contains(q) implies s.to_set().contains(
                    q,
                ) by {
                    if keys(*l).contains(q) {
                        let p = choose|p: int| 0 <= p < il.len() && il[p] == q;
                        assert(s[p] == q);
                    } else if keys(*r).contains(q) {
                        let p = choose|p: int| 0 <= p < ir.len() && ir[p] == q;
                        assert(s[il.len() + 1 + p] == q);
                    } else {
                        assert(s[il.len() as int] == k);
                    }
                }
            }
            assert(s.no_duplicates());
            s.unique_seq_to_set();
        },
    }
}

/// The first in-order key of a nonempty bounded search tree is its least key.
pub proof fn lemma_inorder_min(t: Rbt, lo: Option<u64>, hi: Option<u64>)
    requires
        bst(t, lo, hi),
        t is Node,
    ensures
        inorder(t).len() > 0,
        keys(t).contains(inorder(t)[0]),
        forall|q: u64| #[trigger] keys(t).contains(q) ==> inorder(t)[0] <= q,
{
    lemma_inorder(t, lo, hi);
    match t {
        Rbt::Nil => {},
        Rbt::Node { k, l, r, .. } => {
            assert(inorder(t).len() == inorder(*l).len() + 1 + inorder(*r).len());
        },
    }
    assert(inorder(t).to_set().contains(inorder(t)[0]));
    assert forall|q: u64| #[trigger] keys(t).contains(q) implies inorder(t)[0] <= q by {
        assert(inorder(t).to_set().contains(q));
        let p = choose|p: int| 0 <= p < inorder(t).len() && inorder(t)[p] == q;
        if p > 0 {
            assert(inorder(t)[0] < inorder(t)[p]);
        }
    }
}

/// The last in-order key of a nonempty bounded search tree is its greatest
/// key.
pub proof fn lemma_inorder_max(t: Rbt, lo: Option<u64>, hi: Option<u64>)
    requires
        bst(t, lo, hi),
        t is Node,
    ensures
        inorder(t).len() > 0,
        keys(t).contains(inorder(t).last()),
        forall|q: u64| #[trigger] keys(t).contains(q) ==> inorder(t).last() >= q,
{
    lemma_inorder(t, lo, hi);
    match t {
        Rbt::Nil => {},
        Rbt::Node { k, l, r, .. } => {
            assert(inorder(t).len() == inorder(*l).len() + 1 + inorder(*r).len());
        },
    }
    let e = inorder(t).len() - 1;
    assert(inorder(t).to_set().contains(inorder(t)[e]));
    assert forall|q: u64| #[trigger] keys(t).contains(q) implies inorder(t)[e] >= q by {
        assert(inorder(t).to_set().contains(q));
        let p = choose|p: int| 0 <= p < inorder(t).len() && inorder(t)[p] == q;
        if p < e {
            assert(inorder(t)[p] < inorder(t)[e]);
        }
    }
}

// ---------------------------------------------------------------------------
// Path contexts.
//
// Insertion and removal walk down from the root recording the visited nodes,
// then rebuild the tree bottom-up.  A `Frame` is the ghost record of one
// visited node: its index and key, which side the walk descended to, and the
// subtree on the other side.  `plug` rebuilds the whole shape from a stack of
// frames and the subtree currently in the hole.
// ---------------------------------------------------------------------------

/// One level of a root-to-leaf path: the walk went to the left (`left`) or
/// right child of the node at arena index `i` with key `k`, leaving `other`
/// on the side it did not take.
pub struct Frame {
    pub left: bool,
    pub i: nat,
    pub k: u64,
    pub other: Rbt,
}

/// Rebuilds one level: puts `t` back into the side the walk took.
pub open spec fn plug1(f: Frame, t: Rbt) -> Rbt {
    if f.left {
        Rbt::Node { i: f.i, k: f.k, l: Box::new(t), r: Box::new(f.other) }
    } else {
        Rbt::Node { i: f.i, k: f.k, l: Box::new(f.other), r: Box::new(t) }
    }
}

/// Rebuilds the whole shape from a path (outermost frame first) and the
/// subtree in the hole.
pub open spec fn plug(fs: Seq<Frame>, t: Rbt) -> Rbt
    decreases fs.len(),
{
    if fs.len() == 0 {
        t
    } else {
        plug(fs.drop_last(), plug1(fs.last(), t))
    }
}

/// The lower bound the path imposes on every key in the hole, starting from
/// the outer bound `lo0` above the path.
pub open spec fn ctx_lo(fs: Seq<Frame>, lo0: Option<u64>) -> Option<u64>
    decreases fs.len(),
{
    if fs.len() == 0 {
        lo0
    } else if fs.last().left {
        ctx_lo(fs.drop_last(), lo0)
    } else {
        Some(fs.last().k)
    }
}

/// The upper bound the path imposes on every key in the hole, starting from
/// the outer bound `hi0` above the path.
pub open spec fn ctx_hi(fs: Seq<Frame>, hi0: Option<u64>) -> Option<u64>
    decreases fs.len(),
{
    if fs.len() == 0 {
        hi0
    } else if fs.last().left {
        Some(fs.last().k)
    } else {
        ctx_hi(fs.drop_last(), hi0)
    }
}

/// All keys stored on the path, outside the hole.
pub open spec fn ctx_keys(fs: Seq<Frame>) -> Set<u64>
    decreases fs.len(),
{
    if fs.len() == 0 {
        Set::empty()
    } else {
        ctx_keys(fs.drop_last()).union(keys(fs.last().other)).insert(fs.last().k)
    }
}

/// All arena indices used on the path, outside the hole.
pub open spec fn ctx_idxs(fs: Seq<Frame>) -> Set<nat>
    decreases fs.len(),
{
    if fs.len() == 0 {
        Set::empty()
    } else {
        ctx_idxs(fs.drop_last()).union(idxs(fs.last().other)).insert(fs.last().i)
    }
}

/// Index discipline of a path: all indices distinct, none the sentinel's.
pub open spec fn ctx_uniq(fs: Seq<Frame>) -> bool
    decreases fs.len(),
{
    if fs.len() == 0 {
        true
    } else {
        let f = fs.last();
        let fs0 = fs.drop_last();
        ctx_uniq(fs0) && uniq(f.other) && f.i >= 1 && !ctx_idxs(fs0).contains(f.i) && ctx_idxs(
            fs0,
        ).disjoint(idxs(f.other)) && !idxs(f.other).contains(f.i)
    }
}

/// Ordering discipline of a path under outer bounds: each frame's key and
/// off-side subtree obey the bounds the frames above impose.
pub open spec fn ctx_bst(fs: Seq<Frame>, lo0: Option<u64>, hi0: Option<u64>) -> bool
    decreases fs.len(),
{
    if fs.len() == 0 {
        true
    } else {
        let f = fs.last();
        let fs0 = fs.drop_last();
        ctx_bst(fs0, lo0, hi0) && lo_ok(ctx_lo(fs0, lo0), f.k) && hi_ok(f.k, ctx_hi(fs0, hi0)) && (
        if f.left {
            bst(f.other, Some(f.k), ctx_hi(fs0, hi0))
        } else {
            bst(f.other, ctx_lo(fs0, lo0), Some(f.k))
        })
    }
}

/// The shape after rotating left at the root: the right child becomes the
/// root, the old root becomes its left child, keeping the in-order order.
pub open spec fn rot_left(t: Rbt) -> Rbt {
    Rbt::Node {
        i: ridx(sub_r(t)),
        k: key_of(sub_r(t)),
        l: Box::new(
            Rbt::Node {
                i: ridx(t),
                k: key_of(t),
                l: Box::new(sub_l(t)),
                r: Box::new(sub_l(sub_r(t))),
            },
        ),
        r: Box::new(sub_r(sub_r(t))),
    }
}

/// The shape after rotating right at the root: the mirror of `rot_left`.
pub open spec fn rot_right(t: Rbt) -> Rbt {
    Rbt::Node {
        i: ridx(sub_l(t)),
        k: key_of(sub_l(t)),
        l: Box::new(sub_l(sub_l(t))),
        r: Box::new(
            Rbt::Node {
                i: ridx(t),
                k: key_of(t),
                l: Box::new(sub_r(sub_l(t))),
                r: Box::new(sub_r(t)),
            },
        ),
    }
}

/// A left rotation keeps the keys, the indices, the index discipline and the
/// search-tree ordering.
pub proof fn lemma_rot_left(t: Rbt, lo: Option<u64>, hi: Option<u64>)
    requires
        t is Node,
        sub_r(t) is Node,
    ensures
        keys(rot_left(t)) == keys(t),
        idxs(rot_left(t)) == idxs(t),
        uniq(t) ==> uniq(rot_left(t)),
        bst(t, lo, hi) ==> bst(rot_left(t), lo, hi),
{
    let u = rot_left(t);
    let a = sub_l(t);
    let b = sub_l(sub_r(t));
    let c = sub_r(sub_r(t));
    let inner = Rbt::Node { i: ridx(t), k: key_of(t), l: Box::new(a), r: Box::new(b) };
    assert(keys(sub_r(t)) == keys(b).union(keys(c)).insert(key_of(sub_r(t))));
    assert(keys(t) == keys(a).union(keys(sub_r(t))).insert(key_of(t)));
    assert(keys(inner) == keys(a).union(keys(b)).insert(key_of(t)));
    assert(keys(u) == keys(inner).union(keys(c)).insert(key_of(sub_r(t))));
    assert(keys(u) =~= keys(t));
    assert(idxs(sub_r(t)) == idxs(b).union(idxs(c)).insert(ridx(sub_r(t))));
    assert(idxs(t) == idxs(a).union(idxs(sub_r(t))).insert(ridx(t)));
    assert(idxs(inner) == idxs(a).union(idxs(b)).insert(ridx(t)));
    assert(idxs(u) == idxs(inner).union(idxs(c)).insert(ridx(sub_r(t))));
    assert(idxs(u) =~= idxs(t));
    if uniq(t) {
        assert(uniq(a) && uniq(sub_r(t)));
        assert(uniq(b) && uniq(c));
        assert(idxs(inner) =~= idxs(a).union(idxs(b)).insert(ridx(t)));
        assert(uniq(inner));
        assert(uniq(u));
    }
    if bst(t, lo, hi) {
        assert(bst(a, lo, Some(key_of(t))));
        assert(bst(sub_r(t), Some(key_of(t)), hi));
        assert(bst(b, Some(key_of(t)), Some(key_of(sub_r(t)))));
        assert(bst(c, Some(key_of(sub_r(t))), hi));
        assert(bst(inner, lo, Some(key_of(sub_r(t)))));
        assert(bst(u, lo, hi));
    }
}

/// A right rotation keeps the keys, the indices, the index discipline and
/// the search-tree ordering.
pub proof fn lemma_rot_right(t: Rbt, lo: Option<u64>, hi: Option<u64>)
    requires
        t is Node,
        sub_l(t) is Node,
    ensures
        keys(rot_right(t)) == keys(t),
        idxs(rot_right(t)) == idxs(t),
        uniq(t) ==> uniq(rot_right(t)),
        bst(t, lo, hi) ==> bst(rot_right(t), lo, hi),
{
    let u = rot_right(t);
    let a = sub_l(sub_l(t));
    let b = sub_r(sub_l(t));
    let c = sub_r(t);
    let inner = Rbt::Node { i: ridx(t), k: key_of(t), l: Box::new(b), r: Box::new(c) };
    assert(keys(sub_l(t)) == keys(a).union(keys(b)).insert(key_of(sub_l(t))));
    assert(keys(t) == keys(sub_l(t)).union(keys(c)).insert(key_of(t)));
    assert(keys(inner) == keys(b).union(keys(c)).insert(key_of(t)));
    assert(keys(u) == keys(a).union(keys(inner)).insert(key_of(sub_l(t))));
    assert(keys(u) =~= keys(t));
    assert(idxs(sub_l(t)) == idxs(a).union(idxs(b)).insert(ridx(sub_l(t))));
    assert(idxs(t) == idxs(sub_l(t)).union(idxs(c)).insert(ridx(t)));
    assert(idxs(inner) == idxs(b).union(idxs(c)).insert(ridx(t)));
    assert(idxs(u) == idxs(a).union(idxs(inner)).insert(ridx(sub_l(t))));
    assert(idxs(u) =~= idxs(t));
    if uniq(t) {
        assert(uniq(sub_l(t)) && uniq(c));
        assert(uniq(a) && uniq(b));
        assert(uniq(inner));
        assert(uniq(u));
    }
    if bst(t, lo, hi) {
        assert(bst(sub_l(t), lo, Some(key_of(t))));
        assert(bst(a, lo, Some(key_of(sub_l(t)))));
        assert(bst(b, Some(key_of(sub_l(t))), Some(key_of(t))));
        assert(bst(c, Some(key_of(t)), hi));
        assert(bst(inner, Some(key_of(sub_l(t))), hi));
        assert(bst(u, lo, hi));
    }
}

/// The right-left double rotation: the right child is first rotated right,
/// then the whole subtree is rotated left, bringing the right child's left
/// child to the top.
pub open spec fn drl(t: Rbt) -> Rbt {
    rot_left(
        Rbt::Node {
            i: ridx(t),
            k: key_of(t),
            l: Box::new(sub_l(t)),
            r: Box::new(rot_right(sub_r(t))),
        },
    )
}

/// The left-right double rotation: the mirror of `drl`.
pub open spec fn dlr(t: Rbt) -> Rbt {
    rot_right(
        Rbt::Node {
            i: ridx(t),
            k: key_of(t),
            l: Box::new(rot_left(sub_l(t))),
            r: Box::new(sub_r(t)),
        },
    )
}

/// A right-left double rotation keeps the keys, the indices, the index
/// discipline and the search-tree ordering.
pub proof fn lemma_drl(t: Rbt, lo: Option<u64>, hi: Option<u64>)
    requires
        t is Node,
        sub_r(t) is Node,
        sub_l(sub_r(t)) is Node,
    ensures
        keys(drl(t)) == keys(t),
        idxs(drl(t)) == idxs(t),
        uniq(t) ==> uniq(drl(t)),
        bst(t, lo, hi) ==> bst(drl(t), lo, hi),
        drl(t) is Node,
        ridx(drl(t)) == ridx(sub_l(sub_r(t))),
{
    let k = key_of(t);
    lemma_rot_right(sub_r(t), Some(k), hi);
    let mid = Rbt::Node {
        i: ridx(t),
        k: k,
        l: Box::new(sub_l(t)),
        r: Box::new(rot_right(sub_r(t))),
    };
    assert(keys(mid) == keys(sub_l(t)).union(keys(rot_right(sub_r(t)))).insert(k));
    assert(keys(t) == keys(sub_l(t)).union(keys(sub_r(t))).insert(k));
    assert(keys(mid) =~= keys(t));
    assert(idxs(mid) == idxs(sub_l(t)).union(idxs(rot_right(sub_r(t)))).insert(ridx(t)));
    assert(idxs(t) == idxs(sub_l(t)).union(idxs(sub_r(t))).insert(ridx(t)));
    assert(idxs(mid) =~= idxs(t));
    if uniq(t) {
        assert(uniq(mid));
    }
    if bst(t, lo, hi) {
        assert(bst(mid, lo, hi));
    }
    assert(sub_r(mid) == rot_right(sub_r(t)));
    assert(sub_r(mid) is Node);
    lemma_rot_left(mid, lo, hi);
    assert(drl(t) == rot_left(mid));
}

/// A left-right double rotation keeps the keys, the indices, the index
/// discipline and the search-tree ordering.
pub proof fn lemma_dlr(t: Rbt, lo: Option<u64>, hi: Option<u64>)
    requires
        t is Node,
        sub_l(t) is Node,
        sub_r(sub_l(t)) is Node,
    ensures
        keys(dlr(t)) == keys(t),
        idxs(dlr(t)) == idxs(t),
        uniq(t) ==> uniq(dlr(t)),
        bst(t, lo, hi) ==> bst(dlr(t), lo, hi),
        dlr(t) is Node,
        ridx(dlr(t)) == ridx(sub_r(sub_l(t))),
{
    let k = key_of(t);
    lemma_rot_left(sub_l(t), lo, Some(k));
    let mid = Rbt::Node {
        i: ridx(t),
        k: k,
        l: Box::new(rot_left(sub_l(t))),
        r: Box::new(sub_r(t)),
    };
    assert(keys(mid) == keys(rot_left(sub_l(t))).union(keys(sub_r(t))).insert(k));
    assert(keys(t) == keys(sub_l(t)).union(keys(sub_r(t))).insert(k));
    assert(keys(mid) =~= keys(t));
    assert(idxs(mid) == idxs(rot_left(sub_l(t))).union(idxs(sub_r(t))).insert(ridx(t)));
    assert(idxs(t) == idxs(sub_l(t)).union(idxs(sub_r(t))).insert(ridx(t)));
    assert(idxs(mid) =~= idxs(t));
    if uniq(t) {
        assert(uniq(mid));
    }
    if bst(t, lo, hi) {
        assert(bst(mid, lo, hi));
    }
    assert(sub_l(mid) == rot_left(sub_l(t)));
    assert(sub_l(mid) is Node);
    lemma_rot_right(mid, lo, hi);
    assert(dlr(t) == rot_right(mid));
}

/// Pushing a frame drops back off: the basic sequence facts the recursive
/// context functions need.
pub proof fn lemma_push(fs: Seq<Frame>, f: Frame)
    ensures
        fs.push(f).drop_last() == fs,
        fs.push(f).last() == f,
        fs.push(f).len() == fs.len() + 1,
{
    assert(fs.push(f).drop_last() =~= fs);
}

/// The keys of a rebuilt shape: the path's keys plus the hole's.
pub proof fn lemma_plug_keys(fs: Seq<Frame>, t: Rbt)
    ensures
        keys(plug(fs, t)) == ctx_keys(fs).union(keys(t)),
    decreases fs.len(),
{
    if fs.len() == 0 {
        assert(keys(plug(fs, t)) =~= ctx_keys(fs).union(keys(t)));
    } else {
        let f = fs.last();
        lemma_plug_keys(fs.drop_last(), plug1(f, t));
        assert(keys(plug1(f, t)) =~= keys(f.other).union(keys(t)).insert(f.k));
        assert(keys(plug(fs, t)) =~= ctx_keys(fs).union(keys(t)));
    }
}

/// The indices of a rebuilt shape: the path's indices plus the hole's.
pub proof fn lemma_plug_idxs(fs: Seq<Frame>, t: Rbt)
    ensures
        idxs(plug(fs, t)) == ctx_idxs(fs).union(idxs(t)),
    decreases fs.len(),
{
    if fs.len() == 0 {
        assert(idxs(plug(fs, t)) =~= ctx_idxs(fs).union(idxs(t)));
    } else {
        let f = fs.last();
        lemma_plug_idxs(fs.drop_last(), plug1(f, t));
        assert(idxs(plug1(f, t)) =~= idxs(f.other).union(idxs(t)).insert(f.i));
        assert(idxs(plug(fs, t)) =~= ctx_idxs(fs).union(idxs(t)));
    }
}

/// A rebuilt shape keeps the index discipline.
pub proof fn lemma_plug_uniq(fs: Seq<Frame>, t: Rbt)
    requires
        ctx_uniq(fs),
        uniq(t),
        ctx_idxs(fs).disjoint(idxs(t)),
    ensures
        uniq(plug(fs, t)),
    decreases fs.len(),
{
    if fs.len() == 0 {
    } else {
        let f = fs.last();
        let fs0 = fs.drop_last();
        assert(uniq(plug1(f, t)));
        lemma_plug_idxs(Seq::empty(), t);
        assert(idxs(plug1(f, t)) =~= idxs(f.other).union(idxs(t)).insert(f.i));
        lemma_plug_uniq(fs0, plug1(f, t));
    }
}

/// A rebuilt shape keeps the search-tree ordering.
pub proof fn lemma_plug_bst(fs: Seq<Frame>, t: Rbt, lo0: Option<u64>, hi0: Option<u64>)
    requires
        ctx_bst(fs, lo0, hi0),
        bst(t, ctx_lo(fs, lo0), ctx_hi(fs, hi0)),
    ensures
        bst(plug(fs, t), lo0, hi0),
    decreases fs.len(),
{
    if fs.len() == 0 {
    } else {
        let f = fs.last();
        let fs0 = fs.drop_last();
        assert(bst(plug1(f, t), ctx_lo(fs0, lo0), ctx_hi(fs0, hi0)));
        lemma_plug_bst(fs0, plug1(f, t), lo0, hi0);
    }
}

/// Every key stored on a path lies inside the outer bounds but outside the
/// open interval the path imposes on its hole, and the hole's bounds only
/// tighten the outer ones.
pub proof fn lemma_ctx_keys_range(fs: Seq<Frame>, lo0: Option<u64>, hi0: Option<u64>)
    requires
        ctx_bst(fs, lo0, hi0),
    ensures
        lo_wider(lo0, ctx_lo(fs, lo0)),
        hi_wider(hi0, ctx_hi(fs, hi0)),
        forall|q: u64|
            #[trigger] ctx_keys(fs).contains(q) ==> lo_ok(lo0, q) && hi_ok(q, hi0) && !(lo_ok(
                ctx_lo(fs, lo0),
                q,
            ) && hi_ok(q, ctx_hi(fs, hi0))),
    decreases fs.len(),
{
    if fs.len() == 0 {
        assert(ctx_keys(fs) =~= Set::<u64>::empty());
    } else {
        let f = fs.last();
        let fs0 = fs.drop_last();
        lemma_ctx_keys_range(fs0, lo0, hi0);
        if f.left {
            lemma_bst_range(f.other, Some(f.k), ctx_hi(fs0, hi0));
        } else {
            lemma_bst_range(f.other, ctx_lo(fs0, lo0), Some(f.k));
        }
        assert(lo_ok(ctx_lo(fs0, lo0), f.k) && hi_ok(f.k, ctx_hi(fs0, hi0)));
        assert(lo_ok(lo0, f.k) && hi_ok(f.k, hi0));
        assert(ctx_keys(fs) == ctx_keys(fs0).union(keys(f.other)).insert(f.k));
        assert forall|q: u64| #[trigger] ctx_keys(fs).contains(q) implies lo_ok(lo0, q) && hi_ok(
            q,
            hi0,
        ) && !(lo_ok(ctx_lo(fs, lo0), q) && hi_ok(q, ctx_hi(fs, hi0))) by {
            if ctx_keys(fs0).contains(q) {
                if f.left {
                    assert(ctx_lo(fs, lo0) == ctx_lo(fs0, lo0));
                    assert(ctx_hi(fs, hi0) == Some(f.k));
                    if lo_ok(ctx_lo(fs, lo0), q) && hi_ok(q, ctx_hi(fs, hi0)) {
                        assert(q < f.k);
                        assert(lo_ok(ctx_lo(fs0, lo0), q) && hi_ok(q, ctx_hi(fs0, hi0)));
                    }
                } else {
                    assert(ctx_hi(fs, hi0) == ctx_hi(fs0, hi0));
                    assert(ctx_lo(fs, lo0) == Some(f.k));
                    if lo_ok(ctx_lo(fs, lo0), q) && hi_ok(q, ctx_hi(fs, hi0)) {
                        assert(q > f.k);
                        assert(lo_ok(ctx_lo(fs0, lo0), q) && hi_ok(q, ctx_hi(fs0, hi0)));
                    }
                }
            } else if keys(f.other).contains(q) {
                if f.left {
                    assert(q > f.k);
                    assert(hi_ok(q, ctx_hi(fs0, hi0)));
                } else {
                    assert(q < f.k);
                    assert(lo_ok(ctx_lo(fs0, lo0), q));
                }
            } else {
                assert(q == f.k);
            }
        }
    }
}

/// In a path of left turns only, the hole's lower bound is the outer one,
/// and it may be tightened to any value every path key exceeds.
pub proof fn lemma_ctx_all_left_lower(
    fs: Seq<Frame>,
    lo1: Option<u64>,
    lo2: Option<u64>,
    hi0: Option<u64>,
)
    requires
        ctx_bst(fs, lo1, hi0),
        forall|p: int| 0 <= p < fs.len() ==> (#[trigger] fs[p]).left,
        forall|q: u64| #[trigger] ctx_keys(fs).contains(q) ==> lo_ok(lo2, q),
    ensures
        ctx_lo(fs, lo1) == lo1,
        ctx_lo(fs, lo2) == lo2,
        ctx_bst(fs, lo2, hi0),
    decreases fs.len(),
{
    if fs.len() == 0 {
    } else {
        let f = fs.last();
        let fs0 = fs.drop_last();
        assert(f == fs[fs.len() - 1]);
        assert(f.left);
        assert(ctx_keys(fs) == ctx_keys(fs0).union(keys(f.other)).insert(f.k));
        assert(ctx_keys(fs).contains(f.k));
        assert forall|p: int| 0 <= p < fs0.len() implies (#[trigger] fs0[p]).left by {
            assert(fs0[p] == fs[p]);
        }
        assert forall|q: u64| #[trigger] ctx_keys(fs0).contains(q) implies lo_ok(lo2, q) by {
            assert(ctx_keys(fs).contains(q));
        }
        lemma_ctx_all_left_lower(fs0, lo1, lo2, hi0);
        assert(ctx_lo(fs0, lo2) == lo2);
        assert(ctx_bst(fs, lo2, hi0));
    }
}

/// Tearing a path apart at a seam: the context functions of a concatenation
/// in terms of those of the parts.
pub proof fn lemma_ctx_concat(
    fs: Seq<Frame>,
    gs: Seq<Frame>,
    lo0: Option<u64>,
    hi0: Option<u64>,
)
    ensures
        ctx_lo(fs + gs, lo0) == ctx_lo(gs, ctx_lo(fs, lo0)),
        ctx_hi(fs + gs, hi0) == ctx_hi(gs, ctx_hi(fs, hi0)),
        ctx_keys(fs + gs) == ctx_keys(fs).union(ctx_keys(gs)),
        ctx_idxs(fs + gs) == ctx_idxs(fs).union(ctx_idxs(gs)),
        ctx_uniq(fs) && ctx_uniq(gs) && ctx_idxs(fs).disjoint(ctx_idxs(gs)) ==> ctx_uniq(fs + gs),
        ctx_bst(fs, lo0, hi0) && ctx_bst(gs, ctx_lo(fs, lo0), ctx_hi(fs, hi0)) ==> ctx_bst(
            fs + gs,
            lo0,
            hi0,
        ),
    decreases gs.len(),
{
    if gs.len() == 0 {
        assert(fs + gs =~= fs);
        assert(ctx_keys(fs + gs) =~= ctx_keys(fs).union(ctx_keys(gs)));
        assert(ctx_idxs(fs + gs) =~= ctx_idxs(fs).union(ctx_idxs(gs)));
    } else {
        let g = gs.last();
        let gs0 = gs.drop_last();
        assert((fs + gs).last() == g);
        assert((fs + gs).drop_last() =~= fs + gs0);
        lemma_ctx_concat(fs, gs0, lo0, hi0);
        assert(ctx_keys(fs + gs) =~= ctx_keys(fs).union(ctx_keys(gs)));
        assert(ctx_idxs(fs + gs) =~= ctx_idxs(fs).union(ctx_idxs(gs)));
        if ctx_uniq(fs) && ctx_uniq(gs) && ctx_idxs(fs).disjoint(ctx_idxs(gs)) {
            assert(ctx_idxs(gs) == ctx_idxs(gs0).union(idxs(g.other)).insert(g.i));
            assert(ctx_idxs(gs).contains(g.i));
            assert(ctx_uniq(fs + gs));
        }
        if ctx_bst(fs, lo0, hi0) && ctx_bst(gs, ctx_lo(fs, lo0), ctx_hi(fs, hi0)) {
            assert(ctx_bst(fs + gs, lo0, hi0));
        }
    }
}

/// The realization of a concatenated path from its parts.
pub open spec fn seam(gs: Seq<Frame>, ir: nat) -> nat {
    if gs.len() == 0 {
        ir
    } else {
        gs[0].i
    }
}

/// The root index of a rebuilt shape: the outermost frame's, or the hole's
/// when the path is empty.
pub proof fn lemma_plug_ridx(fs: Seq<Frame>, t: Rbt)
    ensures
        ridx(plug(fs, t)) == if fs.len() == 0 {
            ridx(t)
        } else {
            fs[0].i
        },
    decreases fs.len(),
{
    if fs.len() == 0 {
    } else {
        lemma_plug_ridx(fs.drop_last(), plug1(fs.last(), t));
        if fs.len() == 1 {
            assert(fs[0] == fs.last());
        } else {
            assert(fs.drop_last()[0] == fs[0]);
        }
    }
}

} // verus!
