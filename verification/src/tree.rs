use vstd::prelude::*;
use vstd::arithmetic::power2::{pow2, lemma_pow2_unfold, lemma_pow2_pos, lemma_pow2_adds};
use crate::allocator::Node;

verus! {

// The buddy tree is an implicit complete binary tree stored in a sequence of
// node states: node `i` has the children `2i + 1` and `2i + 2`. A node at level
// `lvl` stands for a block of `2^lvl` units that starts at offset `lo`; its left
// child stands for the lower half and its right child for the upper half.

/// `2^n` as an integer.
pub open spec fn p2(n: int) -> int {
    pow2(n as nat) as int
}

/// The node is allocated through and through.
pub open spec fn is_full(n: Node) -> bool {
    n == Node::Used || n == Node::Full
}

/// The node is split into two halves.
pub open spec fn is_inner(n: Node) -> bool {
    n == Node::Split || n == Node::Full
}

/// Index of the parent of node `i`.
pub open spec fn parent(i: int) -> int {
    (i - 1) / 2
}

/// Index of the other child of `i`'s parent.
pub open spec fn sibling(i: int) -> int {
    if i % 2 == 1 {
        i + 1
    } else {
        i - 1
    }
}

/// Start of the parent's block, for node `i` at level `lvl` starting at `lo`.
pub open spec fn parent_lo(i: int, lvl: int, lo: int) -> int {
    if i % 2 == 1 {
        lo
    } else {
        lo - p2(lvl)
    }
}

/// Start of the sibling's block, for node `i` at level `lvl` starting at `lo`.
pub open spec fn sibling_lo(i: int, lvl: int, lo: int) -> int {
    if i % 2 == 1 {
        lo + p2(lvl)
    } else {
        lo - p2(lvl)
    }
}

/// Node `k` lies in the subtree rooted at node `i` (`i` itself included).
pub open spec fn sub_at(i: int, k: int) -> bool
    decreases k,
{
    if k == i {
        true
    } else if k > i && k > 0 {
        sub_at(i, parent(k))
    } else {
        false
    }
}

/// The allocated blocks, as (offset, length) pairs, in the subtree of node `i`
/// at level `lvl` whose block starts at `lo`.
pub open spec fn sub_blocks(t: Seq<Node>, i: int, lvl: int, lo: int) -> Set<(int, int)>
    decreases lvl,
{
    if i < 0 || i >= t.len() || lvl < 0 {
        Set::empty()
    } else if t[i] == Node::Used {
        set![(lo, p2(lvl))]
    } else if is_inner(t[i]) && lvl > 0 {
        sub_blocks(t, 2 * i + 1, lvl - 1, lo) + sub_blocks(t, 2 * i + 2, lvl - 1, lo + p2(lvl - 1))
    } else {
        Set::empty()
    }
}

/// The allocated blocks of a tree of order `order`.
pub open spec fn blocks(t: Seq<Node>, order: int) -> Set<(int, int)> {
    sub_blocks(t, 0, order, 0)
}

/// Node `i` at level `lvl` with block start `lo` is reached from the root through
/// split nodes only.
pub open spec fn path_ok(t: Seq<Node>, i: int, lvl: int, lo: int, order: int) -> bool
    decreases order - lvl,
{
    if lvl >= order {
        i == 0 && lvl == order && lo == 0
    } else {
        &&& lvl >= 0
        &&& i > 0
        &&& 0 <= parent(i) < t.len()
        &&& is_inner(t[parent(i)])
        &&& path_ok(t, parent(i), lvl + 1, parent_lo(i, lvl, lo), order)
    }
}

/// The allocated blocks of the whole tree that lie outside the subtree of node `i`.
pub open spec fn ctx(t: Seq<Node>, i: int, lvl: int, lo: int, order: int) -> Set<(int, int)>
    decreases order - lvl,
{
    if lvl >= order {
        Set::empty()
    } else {
        ctx(t, parent(i), lvl + 1, parent_lo(i, lvl, lo), order) + sub_blocks(
            t,
            sibling(i),
            lvl,
            sibling_lo(i, lvl, lo),
        )
    }
}

/// The local shape rules of a reachable node: a split node has a non-empty half,
/// and a full node has two fully allocated halves.
pub open spec fn node_ok(t: Seq<Node>, i: int, lvl: int) -> bool {
    &&& 0 <= i < t.len()
    &&& is_inner(t[i]) ==> lvl > 0 && 2 * i + 2 < t.len()
    &&& t[i] == Node::Split ==> !(t[2 * i + 1] == Node::Unused && t[2 * i + 2] == Node::Unused)
    &&& t[i] == Node::Full ==> is_full(t[2 * i + 1]) && is_full(t[2 * i + 2])
}

/// Every node reachable from the root keeps the local shape rules.
pub open spec fn tree_wf(t: Seq<Node>, order: int) -> bool {
    &&& order >= 0
    &&& forall|i: int, lvl: int, lo: int| #[trigger]
        path_ok(t, i, lvl, lo, order) ==> node_ok(t, i, lvl)
}

/// Block `b` and the segment `[s, s + len)` share a unit.
pub open spec fn overlaps(b: (int, int), s: int, len: int) -> bool {
    b.0 < s + len && s < b.0 + b.1
}

/// No block of `bs` shares a unit with `[s, s + len)`.
pub open spec fn seg_free(bs: Set<(int, int)>, s: int, len: int) -> bool {
    forall|b: (int, int)| #[trigger] bs.contains(b) ==> !overlaps(b, s, len)
}

/// Unit `x` lies in a block of `bs`.
pub open spec fn covered(bs: Set<(int, int)>, x: int) -> bool {
    exists|b: (int, int)| #[trigger] bs.contains(b) && b.0 <= x < b.0 + b.1
}

/// Some unit of `[0, cap)` lies in no block of `bs`.
pub open spec fn has_room(bs: Set<(int, int)>, cap: int) -> bool {
    exists|x: int| 0 <= x < cap && !#[trigger] covered(bs, x)
}

/// Whichever free aligned segment of `sz` units in `[0, cap)` is taken, a unit
/// outside it that no block of `bs` holds is left.
pub open spec fn leaves_room(bs: Set<(int, int)>, cap: int, sz: int) -> bool {
    forall|s: int|
        0 <= s && s + sz <= cap && s % sz == 0 && #[trigger] seg_free(bs, s, sz) ==> exists|
            x: int,
        |
            0 <= x < cap && !(s <= x < s + sz) && !#[trigger] covered(bs, x)
}

pub(crate) proof fn lemma_p2(n: int)
    requires
        n >= 0,
    ensures
        p2(n + 1) == 2 * p2(n),
        p2(n) >= 1,
        p2(0) == 1,
{
    lemma_pow2_unfold((n + 1) as nat);
    lemma_pow2_pos(n as nat);
    vstd::arithmetic::power2::lemma2_to64();
}

pub(crate) proof fn lemma_sub_at_child(i: int, k: int)
    requires
        i >= 0,
        sub_at(2 * i + 1, k) || sub_at(2 * i + 2, k),
    ensures
        sub_at(i, k),
    decreases k,
{
    if k == 2 * i + 1 || k == 2 * i + 2 {
        assert(parent(k) == i);
        assert(sub_at(i, i));
    } else {
        lemma_sub_at_child(i, parent(k));
    }
}

pub(crate) proof fn lemma_sub_at_split(i: int, k: int)
    requires
        i >= 0,
        sub_at(i, k),
        k != i,
    ensures
        sub_at(2 * i + 1, k) || sub_at(2 * i + 2, k),
    decreases k,
{
    if parent(k) == i {
        assert(k == 2 * i + 1 || k == 2 * i + 2);
    } else {
        lemma_sub_at_split(i, parent(k));
    }
}

pub(crate) proof fn lemma_sub_at_disjoint(i: int, k: int)
    requires
        i >= 0,
    ensures
        !(sub_at(2 * i + 1, k) && sub_at(2 * i + 2, k)),
    decreases k,
{
    if k > 2 * i + 2 {
        lemma_sub_at_disjoint(i, parent(k));
    } else if k == 2 * i + 2 {
        assert(parent(k) == i);
        assert(!sub_at(2 * i + 1, i));
    }
}

pub(crate) proof fn lemma_sub_at_ge(i: int, k: int)
    requires
        sub_at(i, k),
    ensures
        k >= i,
{
}

pub(crate) proof fn lemma_sub_frame(t: Seq<Node>, j: int, x: Node, i: int, lvl: int, lo: int)
    requires
        0 <= j < t.len(),
        !sub_at(i, j),
    ensures
        sub_blocks(t.update(j, x), i, lvl, lo) == sub_blocks(t, i, lvl, lo),
    decreases lvl,
{
    let t2 = t.update(j, x);
    if i < 0 || i >= t.len() || lvl < 0 {
    } else {
        assert(i != j);
        if lvl > 0 {
            if sub_at(2 * i + 1, j) || sub_at(2 * i + 2, j) {
                lemma_sub_at_child(i, j);
            }
            lemma_sub_frame(t, j, x, 2 * i + 1, lvl - 1, lo);
            lemma_sub_frame(t, j, x, 2 * i + 2, lvl - 1, lo + p2(lvl - 1));
        }
    }
}

pub(crate) proof fn lemma_sub_range(t: Seq<Node>, i: int, lvl: int, lo: int)
    ensures
        forall|b: (int, int)| #[trigger]
            sub_blocks(t, i, lvl, lo).contains(b) ==> lo <= b.0 && 1 <= b.1 && b.0 + b.1 <= lo
                + p2(lvl),
    decreases lvl,
{
    if i < 0 || i >= t.len() || lvl < 0 {
    } else {
        lemma_p2(lvl);
        if t[i] == Node::Used {
        } else if is_inner(t[i]) && lvl > 0 {
            lemma_p2(lvl - 1);
            lemma_sub_range(t, 2 * i + 1, lvl - 1, lo);
            lemma_sub_range(t, 2 * i + 2, lvl - 1, lo + p2(lvl - 1));
            let l = sub_blocks(t, 2 * i + 1, lvl - 1, lo);
            let r = sub_blocks(t, 2 * i + 2, lvl - 1, lo + p2(lvl - 1));
            assert forall|b: (int, int)| #[trigger]
                sub_blocks(t, i, lvl, lo).contains(b) implies lo <= b.0 && 1 <= b.1 && b.0 + b.1
                <= lo + p2(lvl) by {
                if l.contains(b) {
                } else {
                    assert(r.contains(b));
                }
            }
        }
    }
}

pub(crate) proof fn lemma_sub_disjoint(t: Seq<Node>, i: int, lvl: int, lo: int)
    ensures
        forall|b1: (int, int), b2: (int, int)|
            #![trigger sub_blocks(t, i, lvl, lo).contains(b1), sub_blocks(t, i, lvl, lo).contains(b2)]
            sub_blocks(t, i, lvl, lo).contains(b1) && sub_blocks(t, i, lvl, lo).contains(b2) && b1
                != b2 ==> !overlaps(b1, b2.0, b2.1),
    decreases lvl,
{
    if i < 0 || i >= t.len() || lvl < 0 {
    } else if t[i] == Node::Used {
    } else if is_inner(t[i]) && lvl > 0 {
        let l = sub_blocks(t, 2 * i + 1, lvl - 1, lo);
        let r = sub_blocks(t, 2 * i + 2, lvl - 1, lo + p2(lvl - 1));
        lemma_sub_disjoint(t, 2 * i + 1, lvl - 1, lo);
        lemma_sub_disjoint(t, 2 * i + 2, lvl - 1, lo + p2(lvl - 1));
        lemma_sub_range(t, 2 * i + 1, lvl - 1, lo);
        lemma_sub_range(t, 2 * i + 2, lvl - 1, lo + p2(lvl - 1));
    }
}


/// The blocks of the whole tree are those outside the subtree of a reachable node
/// together with those inside it, and the outside ones miss the node's block.
pub(crate) proof fn lemma_decompose(t: Seq<Node>, i: int, lvl: int, lo: int, order: int)
    requires
        path_ok(t, i, lvl, lo, order),
    ensures
        blocks(t, order) == ctx(t, i, lvl, lo, order) + sub_blocks(t, i, lvl, lo),
        forall|b: (int, int)| #[trigger]
            ctx(t, i, lvl, lo, order).contains(b) ==> !overlaps(b, lo, p2(lvl)),
    decreases order - lvl,
{
    if lvl >= order {
        assert(blocks(t, order) =~= ctx(t, i, lvl, lo, order) + sub_blocks(t, i, lvl, lo));
    } else {
        let p = parent(i);
        let plo = parent_lo(i, lvl, lo);
        lemma_decompose(t, p, lvl + 1, plo, order);
        lemma_p2(lvl);
        let sib = sibling(i);
        let slo = sibling_lo(i, lvl, lo);
        assert(sub_blocks(t, p, lvl + 1, plo) == sub_blocks(t, 2 * p + 1, lvl, plo) + sub_blocks(
            t,
            2 * p + 2,
            lvl,
            plo + p2(lvl),
        ));
        if i % 2 == 1 {
            assert(i == 2 * p + 1);
            assert(sib == 2 * p + 2);
        } else {
            assert(i == 2 * p + 2);
            assert(sib == 2 * p + 1);
        }
        assert(blocks(t, order) =~= ctx(t, i, lvl, lo, order) + sub_blocks(t, i, lvl, lo));
        lemma_sub_range(t, sib, lvl, slo);
        assert forall|b: (int, int)| #[trigger]
            ctx(t, i, lvl, lo, order).contains(b) implies !overlaps(b, lo, p2(lvl)) by {
            if ctx(t, p, lvl + 1, plo, order).contains(b) {
            } else {
                assert(sub_blocks(t, sib, lvl, slo).contains(b));
            }
        }
    }
}

/// Writing a node of the subtree of a reachable node `i` keeps `i` reachable and
/// leaves the blocks outside that subtree as they were.
pub(crate) proof fn lemma_ctx_frame(
    t: Seq<Node>,
    j: int,
    x: Node,
    i: int,
    lvl: int,
    lo: int,
    order: int,
)
    requires
        path_ok(t, i, lvl, lo, order),
        0 <= j < t.len(),
        sub_at(i, j),
    ensures
        path_ok(t.update(j, x), i, lvl, lo, order),
        ctx(t.update(j, x), i, lvl, lo, order) == ctx(t, i, lvl, lo, order),
    decreases order - lvl,
{
    if lvl < order {
        let p = parent(i);
        let plo = parent_lo(i, lvl, lo);
        if i % 2 == 1 {
            assert(i == 2 * p + 1);
        } else {
            assert(i == 2 * p + 2);
        }
        lemma_sub_at_child(p, j);
        lemma_ctx_frame(t, j, x, p, lvl + 1, plo, order);
        lemma_sub_at_ge(i, j);
        lemma_sub_at_disjoint(p, j);
        lemma_sub_frame(t, j, x, sibling(i), lvl, sibling_lo(i, lvl, lo));
    }
}

/// Facts about the position of a reachable node: its level, its index range at
/// that depth, and where its block starts.
pub(crate) proof fn lemma_path_facts(t: Seq<Node>, i: int, lvl: int, lo: int, order: int)
    requires
        path_ok(t, i, lvl, lo, order),
        order >= 0,
    ensures
        0 <= lvl <= order,
        p2(order - lvl) <= i + 1 < 2 * p2(order - lvl),
        lo == (i + 1 - p2(order - lvl)) * p2(lvl),
        p2(order - lvl) * p2(lvl) == p2(order),
        0 <= lo,
        lo + p2(lvl) <= p2(order),
    decreases order - lvl,
{
    assert(0 <= lvl <= order);
    lemma_p2(lvl);
    lemma_p2(order - lvl);
    lemma_pow2_adds((order - lvl) as nat, lvl as nat);
    if lvl >= order {
        assert(p2(0) == 1);
        assert(i + 1 - p2(order - lvl) == 0);
        assert(0 * p2(lvl) == 0);
    } else {
        let p = parent(i);
        let plo = parent_lo(i, lvl, lo);
        lemma_path_facts(t, p, lvl + 1, plo, order);
        let d = order - lvl;
        lemma_p2(d - 1);
        let q = p + 1 - p2(d - 1);
        assert(plo == q * p2(lvl + 1));
        assert(p2(lvl + 1) == 2 * p2(lvl));
        assert(q * (2 * p2(lvl)) == (2 * q) * p2(lvl)) by (nonlinear_arith);
        assert((2 * q + 1) * p2(lvl) == (2 * q) * p2(lvl) + p2(lvl)) by (nonlinear_arith);
        if i % 2 == 1 {
            assert(i == 2 * p + 1);
            assert(i + 1 - p2(d) == 2 * q);
            assert(lo == (2 * q) * p2(lvl));
            assert(lo == (i + 1 - p2(d)) * p2(lvl));
        } else {
            assert(i == 2 * p + 2);
            assert(i + 1 - p2(d) == 2 * q + 1);
            assert(lo == (2 * q + 1) * p2(lvl));
            assert(lo == (i + 1 - p2(d)) * p2(lvl));
        }
        let r = i + 1 - p2(d);
        assert(0 <= r < p2(d));
        assert(0 <= r * p2(lvl)) by (nonlinear_arith)
            requires
                0 <= r,
                0 <= p2(lvl),
        ;
        assert(r * p2(lvl) + p2(lvl) <= p2(d) * p2(lvl)) by (nonlinear_arith)
            requires
                r < p2(d),
                0 <= p2(lvl),
        ;
    }
}

/// Every strict ancestor of a reachable node is split.
pub(crate) proof fn lemma_anc_inner(t: Seq<Node>, a: int, k: int, lvl: int, lo: int, order: int)
    requires
        path_ok(t, k, lvl, lo, order),
        sub_at(a, k),
        a != k,
    ensures
        0 <= a < t.len(),
        is_inner(t[a]),
    decreases order - lvl,
{
    if lvl >= order {
        lemma_sub_at_ge(a, k);
    } else if parent(k) != a {
        lemma_anc_inner(t, a, parent(k), lvl + 1, parent_lo(k, lvl, lo), order);
    }
}

/// Writing node `j` changes which nodes are reachable only below `j`, and not at all
/// when `j` stays split.
pub(crate) proof fn lemma_path_update(
    t: Seq<Node>,
    j: int,
    x: Node,
    k: int,
    lvl: int,
    lo: int,
    order: int,
)
    requires
        0 <= j < t.len(),
        !(sub_at(j, k) && j != k) || (is_inner(t[j]) && is_inner(x)),
    ensures
        path_ok(t.update(j, x), k, lvl, lo, order) == path_ok(t, k, lvl, lo, order),
    decreases order - lvl,
{
    if lvl < order {
        let p = parent(k);
        if k > 0 && sub_at(j, p) && j != p {
            assert(sub_at(j, k));
        }
        if k > 0 && j == p {
            assert(sub_at(j, j));
            assert(sub_at(j, k));
        }
        if lvl >= 0 {
            lemma_path_update(t, j, x, p, lvl + 1, parent_lo(k, lvl, lo), order);
        }
    }
}


/// The children of a reachable split node are reachable.
pub(crate) proof fn lemma_child_path(t: Seq<Node>, i: int, lvl: int, lo: int, order: int)
    requires
        path_ok(t, i, lvl, lo, order),
        order >= 0,
        0 <= i < t.len(),
        is_inner(t[i]),
        lvl > 0,
    ensures
        path_ok(t, 2 * i + 1, lvl - 1, lo, order),
        path_ok(t, 2 * i + 2, lvl - 1, lo + p2(lvl - 1), order),
{
    lemma_path_facts(t, i, lvl, lo, order);
    assert(parent(2 * i + 1) == i);
    assert(parent(2 * i + 2) == i);
    assert(parent_lo(2 * i + 2, lvl - 1, lo + p2(lvl - 1)) == lo);
}

/// Every unit of the block of a reachable fully allocated node lies in one of the
/// node's allocated blocks.
pub(crate) proof fn lemma_covers(t: Seq<Node>, i: int, lvl: int, lo: int, order: int, x: int) -> (b: (
    int,
    int,
))
    requires
        tree_wf(t, order),
        path_ok(t, i, lvl, lo, order),
        0 <= i < t.len(),
        is_full(t[i]),
        lo <= x < lo + p2(lvl),
    ensures
        sub_blocks(t, i, lvl, lo).contains(b),
        b.0 <= x < b.0 + b.1,
    decreases lvl,
{
    assert(node_ok(t, i, lvl));
    lemma_path_facts(t, i, lvl, lo, order);
    if t[i] == Node::Used {
        (lo, p2(lvl))
    } else {
        lemma_child_path(t, i, lvl, lo, order);
        lemma_p2(lvl - 1);
        if x < lo + p2(lvl - 1) {
            lemma_covers(t, 2 * i + 1, lvl - 1, lo, order, x)
        } else {
            lemma_covers(t, 2 * i + 2, lvl - 1, lo + p2(lvl - 1), order, x)
        }
    }
}

/// A reachable node that is not unused holds at least one allocated block.
pub(crate) proof fn lemma_nonempty(t: Seq<Node>, i: int, lvl: int, lo: int, order: int) -> (b: (
    int,
    int,
))
    requires
        tree_wf(t, order),
        path_ok(t, i, lvl, lo, order),
        0 <= i < t.len(),
        t[i] != Node::Unused,
    ensures
        sub_blocks(t, i, lvl, lo).contains(b),
    decreases lvl,
{
    assert(node_ok(t, i, lvl));
    lemma_path_facts(t, i, lvl, lo, order);
    if t[i] == Node::Used {
        (lo, p2(lvl))
    } else {
        lemma_child_path(t, i, lvl, lo, order);
        assert(node_ok(t, 2 * i + 1, lvl - 1));
        if t[2 * i + 1] != Node::Unused {
            lemma_nonempty(t, 2 * i + 1, lvl - 1, lo, order)
        } else {
            lemma_nonempty(t, 2 * i + 2, lvl - 1, lo + p2(lvl - 1), order)
        }
    }
}

/// The parent of a reachable node that is not fully allocated is split, not full.
pub(crate) proof fn lemma_parent_split(t: Seq<Node>, k: int, lvl: int, lo: int, order: int)
    requires
        tree_wf(t, order),
        path_ok(t, k, lvl, lo, order),
        k > 0,
        0 <= k < t.len(),
        !is_full(t[k]),
    ensures
        t[parent(k)] == Node::Split,
{
    lemma_path_facts(t, k, lvl, lo, order);
    let p = parent(k);
    assert(path_ok(t, p, lvl + 1, parent_lo(k, lvl, lo), order));
    assert(node_ok(t, p, lvl + 1));
    if k % 2 == 1 {
        assert(k == 2 * p + 1);
    } else {
        assert(k == 2 * p + 2);
    }
}


pub(crate) proof fn lemma_p2_mono(a: int, b: int)
    requires
        0 <= a <= b,
    ensures
        p2(a) <= p2(b),
{
    if a < b {
        vstd::arithmetic::power2::lemma_pow2_strictly_increases(a as nat, b as nat);
    }
}

/// A node index is reached at one level and one block start only.
pub(crate) proof fn lemma_path_unique(
    t1: Seq<Node>,
    t2: Seq<Node>,
    k: int,
    lv1: int,
    lo1: int,
    lv2: int,
    lo2: int,
    order: int,
)
    requires
        order >= 0,
        path_ok(t1, k, lv1, lo1, order),
        path_ok(t2, k, lv2, lo2, order),
    ensures
        lv1 == lv2,
        lo1 == lo2,
{
    lemma_path_facts(t1, k, lv1, lo1, order);
    lemma_path_facts(t2, k, lv2, lo2, order);
    let d1 = order - lv1;
    let d2 = order - lv2;
    lemma_p2(d1);
    lemma_p2(d2);
    if d1 < d2 {
        lemma_p2_mono(d1 + 1, d2);
    } else if d2 < d1 {
        lemma_p2_mono(d2 + 1, d1);
    }
}

/// Indices of reachable nodes, and of the children of reachable nodes above the
/// leaves, fit a tree of order at most 17 stored in `2^18` entries.
pub(crate) proof fn lemma_index_bound(t: Seq<Node>, i: int, lvl: int, lo: int, order: int)
    requires
        0 <= order <= 17,
        path_ok(t, i, lvl, lo, order),
    ensures
        0 <= i < 262143,
        lvl >= 1 ==> 2 * i + 2 < 262143,
        0 <= lvl <= order,
{
    lemma_path_facts(t, i, lvl, lo, order);
    vstd::arithmetic::power2::lemma2_to64();
    lemma_p2_mono(order - lvl, 17);
    if lvl >= 1 {
        lemma_p2_mono(order - lvl, 16);
    }
}

/// Two multiples of `m` less than `m` apart are equal.
pub(crate) proof fn lemma_aligned_eq(a: int, b: int, m: int)
    requires
        m > 0,
        a % m == 0,
        b % m == 0,
        a <= b < a + m,
    ensures
        a == b,
{
    vstd::arithmetic::div_mod::lemma_fundamental_div_mod(a, m);
    vstd::arithmetic::div_mod::lemma_fundamental_div_mod(b, m);
    let qa = a / m;
    let qb = b / m;
    assert(qa == qb) by (nonlinear_arith)
        requires
            m > 0,
            a == m * qa,
            b == m * qb,
            a <= b < a + m,
    ;
}

/// The least `k` with `2^k >= n` (zero for `n <= 1`).
pub open spec fn log2_ceil(n: nat) -> nat
    decreases n,
{
    if n <= 1 {
        0
    } else {
        log2_ceil(((n + 1) / 2) as nat) + 1
    }
}

/// The block length handed out for a request of `size` units: the least power of
/// two that is at least `size` (and at least one).
pub open spec fn request_size(size: nat) -> int {
    p2(log2_ceil(size) as int)
}

/// `log2_ceil(n)` is the exponent of the least power of two that is at least `n`.
pub(crate) proof fn lemma_log2_ceil(n: nat)
    ensures
        n <= p2(log2_ceil(n) as int),
        log2_ceil(n) > 0 ==> p2(log2_ceil(n) - 1) < n,
    decreases n,
{
    lemma_p2(0);
    if n > 1 {
        let m = ((n + 1) / 2) as nat;
        lemma_log2_ceil(m);
        let lm = log2_ceil(m) as int;
        lemma_p2(lm);
        if lm > 0 {
            lemma_p2(lm - 1);
        }
    }
}

/// An exponent `k` with `2^(k-1) < n <= 2^k` (or `k == 0` and `n <= 1`) is `log2_ceil(n)`.
pub(crate) proof fn lemma_log2_ceil_unique(n: nat, k: int)
    requires
        k >= 0,
        n <= p2(k),
        k > 0 ==> p2(k - 1) < n,
    ensures
        k == log2_ceil(n),
{
    lemma_log2_ceil(n);
    let l = log2_ceil(n) as int;
    if k < l {
        lemma_p2_mono(k, l - 1);
    } else if l < k {
        lemma_p2_mono(l, k - 1);
    }
}


/// A split node on the chain being carved out above node `cur`: its left half
/// leads to `cur`, and it is allowed to have no allocation below it yet.
pub open spec fn chain_node(t: Seq<Node>, k: int, lv: int, cur: int) -> bool {
    &&& 0 <= k
    &&& 2 * k + 2 < t.len()
    &&& t[k] == Node::Split
    &&& lv > 0
    &&& sub_at(2 * k + 1, cur)
}

/// The shape rules hold at every reachable node but the chain above `cur`.
pub open spec fn chain_wf(t: Seq<Node>, order: int, cur: int) -> bool {
    &&& order >= 0
    &&& forall|k: int, lv: int, l: int| #[trigger]
        path_ok(t, k, lv, l, order) ==> node_ok(t, k, lv) || chain_node(t, k, lv, cur)
}

/// Splitting the unused node `i` into two unused halves moves the chain one
/// level down, and allocates nothing.
pub(crate) proof fn lemma_split_step(t: Seq<Node>, i: int, lvl: int, lo: int, order: int)
    requires
        chain_wf(t, order, i),
        path_ok(t, i, lvl, lo, order),
        0 <= i,
        2 * i + 2 < t.len(),
        t[i] == Node::Unused,
        lvl >= 1,
        i > 0 ==> t[parent(i)] == Node::Split,
    ensures
        ({
            let t3 = t.update(i, Node::Split).update(2 * i + 1, Node::Unused).update(
                2 * i + 2,
                Node::Unused,
            );
            &&& chain_wf(t3, order, 2 * i + 1)
            &&& path_ok(t3, 2 * i + 1, lvl - 1, lo, order)
            &&& t3[2 * i + 1] == Node::Unused
            &&& t3[i] == Node::Split
            &&& ctx(t3, 2 * i + 1, lvl - 1, lo, order) == ctx(t, i, lvl, lo, order)
            &&& blocks(t3, order) == blocks(t, order)
        }),
{
    let l = 2 * i + 1;
    let r = 2 * i + 2;
    let t1 = t.update(i, Node::Split);
    let t2 = t1.update(l, Node::Unused);
    let t3 = t2.update(r, Node::Unused);
    lemma_path_facts(t, i, lvl, lo, order);
    assert(sub_at(i, i));
    assert(sub_at(l, l));
    assert(sub_at(r, r));
    lemma_sub_at_child(i, l);
    lemma_sub_at_child(i, r);
    lemma_ctx_frame(t, i, Node::Split, i, lvl, lo, order);
    lemma_ctx_frame(t1, l, Node::Unused, i, lvl, lo, order);
    lemma_ctx_frame(t2, r, Node::Unused, i, lvl, lo, order);
    lemma_child_path(t3, i, lvl, lo, order);
    assert(parent(l) == i);
    assert(parent(r) == i);
    assert(sibling(l) == r);
    assert(ctx(t3, l, lvl - 1, lo, order) =~= ctx(t, i, lvl, lo, order));
    lemma_decompose(t, i, lvl, lo, order);
    lemma_decompose(t3, i, lvl, lo, order);
    assert(t3[i] == Node::Split);
    assert(t3[l] == Node::Unused);
    assert(t3[r] == Node::Unused);
    assert(sub_blocks(t3, l, lvl - 1, lo) =~= Set::<(int, int)>::empty());
    assert(sub_blocks(t3, r, lvl - 1, lo + p2(lvl - 1)) =~= Set::<(int, int)>::empty());
    assert(sub_blocks(t3, i, lvl, lo) =~= Set::<(int, int)>::empty());
    assert(blocks(t3, order) =~= blocks(t, order));
    assert forall|k: int, lv: int, lk: int| #[trigger]
        path_ok(t3, k, lv, lk, order) implies node_ok(t3, k, lv) || chain_node(t3, k, lv, l) by {
        if sub_at(l, k) && k != l {
            lemma_anc_inner(t3, l, k, lv, lk, order);
        } else if sub_at(r, k) && k != r {
            lemma_anc_inner(t3, r, k, lv, lk, order);
        } else if k == l || k == r {
        } else if k == i {
            lemma_path_unique(t3, t3, i, lv, lk, lvl, lo, order);
        } else {
            if sub_at(i, k) {
                lemma_sub_at_split(i, k);
            }
            assert(!sub_at(i, k));
            lemma_path_update(t2, r, Node::Unused, k, lv, lk, order);
            lemma_path_update(t1, l, Node::Unused, k, lv, lk, order);
            lemma_path_update(t, i, Node::Split, k, lv, lk, order);
            assert(path_ok(t, k, lv, lk, order));
            assert(node_ok(t, k, lv) || chain_node(t, k, lv, i));
            if i > 0 && k == parent(i) {
                assert(i == 2 * k + 1 || i == 2 * k + 2);
                assert(node_ok(t3, k, lv));
            } else {
                assert(2 * k + 1 != i && 2 * k + 2 != i);
                if chain_node(t, k, lv, i) {
                    assert(sub_at(2 * k + 1, l));
                    assert(chain_node(t3, k, lv, l));
                }
            }
        }
    }
}

/// Marking the unused end `i` of the chain as allocated restores the shape rules
/// and adds its block.
pub(crate) proof fn lemma_mark_used(t: Seq<Node>, i: int, lvl: int, lo: int, order: int)
    requires
        chain_wf(t, order, i),
        path_ok(t, i, lvl, lo, order),
        0 <= i < t.len(),
        t[i] == Node::Unused,
        i > 0 ==> t[parent(i)] == Node::Split,
    ensures
        ({
            let t4 = t.update(i, Node::Used);
            &&& tree_wf(t4, order)
            &&& path_ok(t4, i, lvl, lo, order)
            &&& blocks(t4, order) == blocks(t, order).insert((lo, p2(lvl)))
        }),
{
    let t4 = t.update(i, Node::Used);
    assert(sub_at(i, i));
    lemma_ctx_frame(t, i, Node::Used, i, lvl, lo, order);
    lemma_decompose(t, i, lvl, lo, order);
    lemma_decompose(t4, i, lvl, lo, order);
    assert(blocks(t4, order) =~= blocks(t, order).insert((lo, p2(lvl))));
    assert forall|k: int, lv: int, lk: int| #[trigger]
        path_ok(t4, k, lv, lk, order) implies node_ok(t4, k, lv) by {
        if sub_at(i, k) && k != i {
            lemma_anc_inner(t4, i, k, lv, lk, order);
        } else if k == i {
        } else {
            lemma_path_update(t, i, Node::Used, k, lv, lk, order);
            assert(node_ok(t, k, lv) || chain_node(t, k, lv, i));
            if i > 0 && k == parent(i) {
                assert(i == 2 * k + 1 || i == 2 * k + 2);
            } else {
                assert(2 * k + 1 != i && 2 * k + 2 != i);
                if chain_node(t, k, lv, i) {
                    lemma_anc_inner(t4, 2 * k + 1, i, lvl, lo, order);
                }
            }
        }
    }
}

/// Marking the split parent of two fully allocated siblings as full keeps the
/// shape rules and the blocks.
pub(crate) proof fn lemma_full_step(t: Seq<Node>, c: int, lvl: int, lo: int, order: int)
    requires
        tree_wf(t, order),
        path_ok(t, c, lvl, lo, order),
        0 < c < t.len(),
        0 <= sibling(c) < t.len(),
        is_full(t[c]),
        is_full(t[sibling(c)]),
        t[parent(c)] == Node::Split,
    ensures
        ({
            let p = parent(c);
            let t2 = t.update(p, Node::Full);
            &&& tree_wf(t2, order)
            &&& blocks(t2, order) == blocks(t, order)
            &&& path_ok(t2, p, lvl + 1, parent_lo(c, lvl, lo), order)
            &&& is_full(t2[p])
            &&& p > 0 ==> t2[parent(p)] == Node::Split
        }),
{
    let p = parent(c);
    let plo = parent_lo(c, lvl, lo);
    let t2 = t.update(p, Node::Full);
    lemma_path_facts(t, c, lvl, lo, order);
    assert(path_ok(t, p, lvl + 1, plo, order));
    assert(sub_at(p, p));
    lemma_ctx_frame(t, p, Node::Full, p, lvl + 1, plo, order);
    lemma_p2(lvl);
    if sub_at(2 * p + 1, p) {
        lemma_sub_at_ge(2 * p + 1, p);
    }
    if sub_at(2 * p + 2, p) {
        lemma_sub_at_ge(2 * p + 2, p);
    }
    lemma_sub_frame(t, p, Node::Full, 2 * p + 1, lvl, plo);
    lemma_sub_frame(t, p, Node::Full, 2 * p + 2, lvl, plo + p2(lvl));
    assert(sub_blocks(t2, p, lvl + 1, plo) == sub_blocks(t, p, lvl + 1, plo));
    lemma_decompose(t, p, lvl + 1, plo, order);
    lemma_decompose(t2, p, lvl + 1, plo, order);
    assert(node_ok(t, p, lvl + 1));
    if p > 0 {
        lemma_parent_split(t, p, lvl + 1, plo, order);
    }
    if c % 2 == 1 {
        assert(c == 2 * p + 1 && sibling(c) == 2 * p + 2);
    } else {
        assert(c == 2 * p + 2 && sibling(c) == 2 * p + 1);
    }
    assert forall|k: int, lv: int, lk: int| #[trigger]
        path_ok(t2, k, lv, lk, order) implies node_ok(t2, k, lv) by {
        lemma_path_update(t, p, Node::Full, k, lv, lk, order);
        assert(node_ok(t, k, lv));
        if k == p {
        } else if p > 0 && k == parent(p) {
            assert(p == 2 * k + 1 || p == 2 * k + 2);
        } else {
            assert(2 * k + 1 != p && 2 * k + 2 != p);
        }
    }
}


/// The start of a reachable node's block is a multiple of `2^L` for every `L` up
/// to the node's level.
pub(crate) proof fn lemma_lo_aligned(t: Seq<Node>, i: int, lvl: int, lo: int, order: int, l: int)
    requires
        order >= 0,
        path_ok(t, i, lvl, lo, order),
        0 <= l <= lvl,
    ensures
        lo % p2(l) == 0,
{
    lemma_path_facts(t, i, lvl, lo, order);
    lemma_p2(l);
    vstd::arithmetic::power2::lemma_pow2_adds((lvl - l) as nat, l as nat);
    let r = i + 1 - p2(order - lvl);
    assert(lo == (r * p2(lvl - l)) * p2(l)) by (nonlinear_arith)
        requires
            lo == r * p2(lvl),
            p2(lvl) == p2(lvl - l) * p2(l),
    ;
    vstd::arithmetic::div_mod::lemma_mod_multiples_basic(r * p2(lvl - l), p2(l));
}

/// No aligned segment of length `2^l` inside the block of a reachable node is
/// free when the node is fully allocated, or when it is split at level `l`.
pub(crate) proof fn lemma_skip(t: Seq<Node>, i: int, lvl: int, lo: int, order: int, l: int, s: int)
    requires
        tree_wf(t, order),
        path_ok(t, i, lvl, lo, order),
        0 <= l <= lvl,
        0 <= i < t.len(),
        is_full(t[i]) || (t[i] == Node::Split && lvl == l),
        lo <= s < lo + p2(lvl),
        s % p2(l) == 0,
    ensures
        !seg_free(blocks(t, order), s, p2(l)),
{
    lemma_decompose(t, i, lvl, lo, order);
    lemma_p2(l);
    if is_full(t[i]) {
        let b = lemma_covers(t, i, lvl, lo, order, s);
        assert(blocks(t, order).contains(b));
        assert(overlaps(b, s, p2(l)));
    } else {
        let b = lemma_nonempty(t, i, lvl, lo, order);
        lemma_sub_range(t, i, lvl, lo);
        lemma_lo_aligned(t, i, lvl, lo, order, l);
        lemma_aligned_eq(lo, s, p2(l));
        assert(blocks(t, order).contains(b));
        assert(overlaps(b, s, p2(l)));
    }
}

/// The block of a reachable unused node at level at least `l` starts with a free
/// aligned segment of length `2^l`, and all blocks lie outside that node.
pub(crate) proof fn lemma_found(t: Seq<Node>, i: int, lvl: int, lo: int, order: int, l: int)
    requires
        order >= 0,
        path_ok(t, i, lvl, lo, order),
        0 <= l <= lvl,
        0 <= i < t.len(),
        t[i] == Node::Unused,
    ensures
        seg_free(blocks(t, order), lo, p2(l)),
        lo % p2(l) == 0,
        blocks(t, order) == ctx(t, i, lvl, lo, order),
        0 <= lo,
        lo + p2(l) <= p2(order),
{
    lemma_decompose(t, i, lvl, lo, order);
    lemma_lo_aligned(t, i, lvl, lo, order, l);
    lemma_path_facts(t, i, lvl, lo, order);
    lemma_p2_mono(l, lvl);
    assert(sub_blocks(t, i, lvl, lo) =~= Set::<(int, int)>::empty());
    assert(blocks(t, order) =~= ctx(t, i, lvl, lo, order));
}


/// Every node lies in the subtree of the root.
pub(crate) proof fn lemma_sub_at_root(k: int)
    requires
        k >= 0,
    ensures
        sub_at(0, k),
    decreases k,
{
    if k > 0 {
        lemma_sub_at_root(parent(k));
    }
}

/// Whether a node is reachable depends only on the nodes with smaller indices.
pub(crate) proof fn lemma_path_agree(t1: Seq<Node>, t2: Seq<Node>, k: int, lvl: int, lo: int, order: int)
    requires
        t1.len() == t2.len(),
        forall|a: int| 0 <= a < k && a < t1.len() ==> t1[a] == t2[a],
    ensures
        path_ok(t1, k, lvl, lo, order) == path_ok(t2, k, lvl, lo, order),
    decreases order - lvl,
{
    if lvl < order && k > 0 {
        lemma_path_agree(t1, t2, parent(k), lvl + 1, parent_lo(k, lvl, lo), order);
    }
}

/// When the block of a reachable unused node holds `x`, no allocated block holds `x`.
pub(crate) proof fn lemma_free_miss(t: Seq<Node>, i: int, lvl: int, lo: int, order: int, x: int)
    requires
        path_ok(t, i, lvl, lo, order),
        0 <= i < t.len(),
        t[i] == Node::Unused,
        lo <= x < lo + p2(lvl),
    ensures
        forall|b: (int, int)| #[trigger] blocks(t, order).contains(b) ==> !(b.0 <= x < b.0 + b.1),
{
    lemma_decompose(t, i, lvl, lo, order);
    assert(sub_blocks(t, i, lvl, lo) =~= Set::<(int, int)>::empty());
}

/// When a reachable node is allocated as a whole and its block holds `x`, that
/// block is the one allocated block that holds `x`.
pub(crate) proof fn lemma_free_hit(t: Seq<Node>, i: int, lvl: int, lo: int, order: int, x: int)
    requires
        path_ok(t, i, lvl, lo, order),
        0 <= i < t.len(),
        t[i] == Node::Used,
        lo <= x < lo + p2(lvl),
        order >= 0,
    ensures
        blocks(t, order).contains((lo, p2(lvl))),
        forall|b: (int, int)| #[trigger]
            blocks(t, order).contains(b) && b.0 <= x < b.0 + b.1 ==> b == (lo, p2(lvl)),
{
    lemma_decompose(t, i, lvl, lo, order);
    lemma_path_facts(t, i, lvl, lo, order);
    lemma_sub_disjoint(t, 0, order, 0);
    assert(sub_blocks(t, i, lvl, lo).contains((lo, p2(lvl))));
    assert forall|b: (int, int)| #[trigger]
        blocks(t, order).contains(b) && b.0 <= x < b.0 + b.1 implies b == (lo, p2(lvl)) by {
        if b != (lo, p2(lvl)) {
            assert(sub_blocks(t, 0, order, 0).contains(b));
            assert(sub_blocks(t, 0, order, 0).contains((lo, p2(lvl))));
            assert(overlaps(b, lo, p2(lvl)));
        }
    }
}

/// The parent of a reachable node whose sibling is unused holds the same blocks.
pub(crate) proof fn lemma_free_up(t: Seq<Node>, i: int, lvl: int, lo: int, order: int)
    requires
        path_ok(t, i, lvl, lo, order),
        i > 0,
        0 <= sibling(i) < t.len(),
        t[sibling(i)] == Node::Unused,
    ensures
        path_ok(t, parent(i), lvl + 1, parent_lo(i, lvl, lo), order),
        sub_blocks(t, parent(i), lvl + 1, parent_lo(i, lvl, lo)) == sub_blocks(t, i, lvl, lo),
{
    let p = parent(i);
    let plo = parent_lo(i, lvl, lo);
    lemma_p2(lvl);
    assert(sub_blocks(t, sibling(i), lvl, sibling_lo(i, lvl, lo)) =~= Set::<(int, int)>::empty());
    if i % 2 == 1 {
        assert(i == 2 * p + 1 && sibling(i) == 2 * p + 2);
    } else {
        assert(i == 2 * p + 2 && sibling(i) == 2 * p + 1);
    }
    assert(sub_blocks(t, p, lvl + 1, plo) =~= sub_blocks(t, i, lvl, lo));
}

/// The state while the parents of a freed node are turned from full back to
/// split: `t` differs from the well-formed `t0` only in the subtree of `idx`, and
/// the shape rules hold everywhere but at the parent of `idx`.
pub open spec fn fix_inv(t: Seq<Node>, t0: Seq<Node>, order: int, idx: int, ilvl: int, ilo: int) -> bool {
    &&& order >= 0
    &&& tree_wf(t0, order)
    &&& t.len() == t0.len()
    &&& path_ok(t, idx, ilvl, ilo, order)
    &&& 0 <= idx < t.len()
    &&& forall|k: int| 0 <= k < t.len() && !sub_at(idx, k) ==> #[trigger] t[k] == t0[k]
    &&& (t[idx] == Node::Unused || t[idx] == Node::Split)
    &&& t[idx] == Node::Unused ==> idx > 0 && 0 <= sibling(idx) < t.len() && t[sibling(idx)]
        != Node::Unused
    &&& t[idx] == Node::Split ==> node_ok(t, idx, ilvl)
    &&& forall|k: int, lv: int, l: int| #[trigger]
        path_ok(t, k, lv, l, order) ==> (idx > 0 && k == parent(idx)) || node_ok(t, k, lv)
}

/// Freeing the single block `b` below node `a` by marking `a` unused; `a` is the
/// root or has a sibling that is not unused.
pub(crate) proof fn lemma_free_cut(t0: Seq<Node>, a: int, lvl: int, lo: int, order: int, b: (int, int))
    requires
        tree_wf(t0, order),
        path_ok(t0, a, lvl, lo, order),
        0 <= a < t0.len(),
        sub_blocks(t0, a, lvl, lo) == set![b],
        a == 0 || (0 <= sibling(a) < t0.len() && t0[sibling(a)] != Node::Unused),
    ensures
        blocks(t0.update(a, Node::Unused), order) == blocks(t0, order).remove(b),
        a == 0 ==> tree_wf(t0.update(a, Node::Unused), order),
        a > 0 ==> fix_inv(t0.update(a, Node::Unused), t0, order, a, lvl, lo),
{
    let t1 = t0.update(a, Node::Unused);
    assert(sub_at(a, a));
    lemma_ctx_frame(t0, a, Node::Unused, a, lvl, lo, order);
    lemma_decompose(t0, a, lvl, lo, order);
    lemma_decompose(t1, a, lvl, lo, order);
    lemma_sub_range(t0, a, lvl, lo);
    assert(sub_blocks(t0, a, lvl, lo).contains(b));
    assert(!ctx(t0, a, lvl, lo, order).contains(b)) by {
        if ctx(t0, a, lvl, lo, order).contains(b) {
            assert(!overlaps(b, lo, p2(lvl)));
        }
    }
    assert(sub_blocks(t1, a, lvl, lo) =~= Set::<(int, int)>::empty());
    assert(blocks(t1, order) =~= blocks(t0, order).remove(b));
    if a == 0 {
        assert forall|k: int, lv: int, lk: int| #[trigger]
            path_ok(t1, k, lv, lk, order) implies node_ok(t1, k, lv) by {
            if k != 0 {
                lemma_path_facts(t1, k, lv, lk, order);
                lemma_sub_at_root(k);
                lemma_anc_inner(t1, 0, k, lv, lk, order);
            }
        }
    } else {
        assert forall|k: int, lv: int, lk: int| #[trigger]
            path_ok(t1, k, lv, lk, order) implies (a > 0 && k == parent(a)) || node_ok(t1, k, lv) by {
            if sub_at(a, k) && k != a {
                lemma_anc_inner(t1, a, k, lv, lk, order);
            } else if k == a {
            } else {
                lemma_path_update(t0, a, Node::Unused, k, lv, lk, order);
                assert(node_ok(t0, k, lv));
                if k != parent(a) {
                    assert(2 * k + 1 != a && 2 * k + 2 != a);
                }
            }
        }
        assert forall|k: int| 0 <= k < t1.len() && !sub_at(a, k) implies #[trigger] t1[k]
            == t0[k] by {
        }
    }
}

/// One step up: the full parent of `idx` becomes split.
pub(crate) proof fn lemma_fix_step(t: Seq<Node>, t0: Seq<Node>, order: int, idx: int, ilvl: int, ilo: int)
    requires
        fix_inv(t, t0, order, idx, ilvl, ilo),
        idx > 0,
        t[parent(idx)] == Node::Full,
    ensures
        fix_inv(
            t.update(parent(idx), Node::Split),
            t0,
            order,
            parent(idx),
            ilvl + 1,
            parent_lo(idx, ilvl, ilo),
        ),
        blocks(t.update(parent(idx), Node::Split), order) == blocks(t, order),
{
    let p = parent(idx);
    let plo = parent_lo(idx, ilvl, ilo);
    let t2 = t.update(p, Node::Split);
    lemma_path_facts(t, idx, ilvl, ilo, order);
    assert(path_ok(t, p, ilvl + 1, plo, order));
    assert(sub_at(p, p));
    lemma_ctx_frame(t, p, Node::Split, p, ilvl + 1, plo, order);
    lemma_p2(ilvl);
    if sub_at(2 * p + 1, p) {
        lemma_sub_at_ge(2 * p + 1, p);
    }
    if sub_at(2 * p + 2, p) {
        lemma_sub_at_ge(2 * p + 2, p);
    }
    lemma_sub_frame(t, p, Node::Split, 2 * p + 1, ilvl, plo);
    lemma_sub_frame(t, p, Node::Split, 2 * p + 2, ilvl, plo + p2(ilvl));
    assert(sub_blocks(t2, p, ilvl + 1, plo) == sub_blocks(t, p, ilvl + 1, plo));
    lemma_decompose(t, p, ilvl + 1, plo, order);
    lemma_decompose(t2, p, ilvl + 1, plo, order);
    // what the untouched tree says about p
    assert forall|a: int| 0 <= a < p && a < t.len() implies t[a] == t0[a] by {
        if sub_at(idx, a) {
            lemma_sub_at_ge(idx, a);
        }
    }
    lemma_path_agree(t, t0, p, ilvl + 1, plo, order);
    assert(!sub_at(idx, p)) by {
        if sub_at(idx, p) {
            lemma_sub_at_ge(idx, p);
        }
    }
    assert(t[p] == t0[p]);
    assert(node_ok(t0, p, ilvl + 1));
    let sib = sibling(idx);
    if idx % 2 == 1 {
        assert(idx == 2 * p + 1 && sib == 2 * p + 2);
    } else {
        assert(idx == 2 * p + 2 && sib == 2 * p + 1);
    }
    lemma_sub_at_disjoint(p, sib);
    assert(sub_at(sib, sib));
    assert(t[sib] == t0[sib]);
    assert(node_ok(t2, p, ilvl + 1));
    assert forall|k: int, lv: int, lk: int| #[trigger]
        path_ok(t2, k, lv, lk, order) implies (p > 0 && k == parent(p)) || node_ok(t2, k, lv) by {
        lemma_path_update(t, p, Node::Split, k, lv, lk, order);
        if k == p {
            lemma_path_unique(t2, t2, p, lv, lk, ilvl + 1, plo, order);
        } else if p > 0 && k == parent(p) {
        } else {
            assert(2 * k + 1 != p && 2 * k + 2 != p);
            assert(node_ok(t, k, lv));
        }
    }
    assert forall|k: int| 0 <= k < t2.len() && !sub_at(p, k) implies #[trigger] t2[k] == t0[k] by {
        if sub_at(idx, k) {
            lemma_sub_at_child(p, k);
        }
        assert(t[k] == t0[k]);
    }
}

/// The walk up stops at the root or below a parent that is not full; the tree is
/// then well formed again.
pub(crate) proof fn lemma_fix_done(t: Seq<Node>, t0: Seq<Node>, order: int, idx: int, ilvl: int, ilo: int)
    requires
        fix_inv(t, t0, order, idx, ilvl, ilo),
        idx == 0 || t[parent(idx)] != Node::Full,
    ensures
        tree_wf(t, order),
{
    assert forall|k: int, lv: int, lk: int| #[trigger]
        path_ok(t, k, lv, lk, order) implies node_ok(t, k, lv) by {
        if idx > 0 && k == parent(idx) {
            lemma_path_facts(t, idx, ilvl, ilo, order);
            assert(is_inner(t[k]));
            assert forall|a: int| 0 <= a < k && a < t.len() implies t[a] == t0[a] by {
                if sub_at(idx, a) {
                    lemma_sub_at_ge(idx, a);
                }
            }
            lemma_path_agree(t, t0, k, lv, lk, order);
            assert(!sub_at(idx, k)) by {
                if sub_at(idx, k) {
                    lemma_sub_at_ge(idx, k);
                }
            }
            assert(t[k] == t0[k]);
            assert(node_ok(t0, k, lv));
            if idx % 2 == 1 {
                assert(idx == 2 * k + 1 && sibling(idx) == 2 * k + 2);
            } else {
                assert(idx == 2 * k + 2 && sibling(idx) == 2 * k + 1);
            }
        }
    }
}


/// Block `b` is `2^k` units long for some `k <= lvl` and starts a multiple of its
/// length after `lo`.
pub open spec fn is_buddy_block(b: (int, int), lo: int, lvl: int) -> bool {
    exists|k: int| 0 <= k <= lvl && #[trigger] p2(k) == b.1 && (b.0 - lo) % p2(k) == 0
}

pub(crate) proof fn lemma_sub_aligned(t: Seq<Node>, i: int, lvl: int, lo: int)
    ensures
        forall|b: (int, int)| #[trigger]
            sub_blocks(t, i, lvl, lo).contains(b) ==> is_buddy_block(b, lo, lvl),
    decreases lvl,
{
    if i < 0 || i >= t.len() || lvl < 0 {
    } else if t[i] == Node::Used {
        assert forall|b: (int, int)| #[trigger]
            sub_blocks(t, i, lvl, lo).contains(b) implies is_buddy_block(b, lo, lvl) by {
            lemma_p2(lvl);
            vstd::arithmetic::div_mod::lemma_small_mod(0, p2(lvl) as nat);
            assert(p2(lvl) == b.1 && (b.0 - lo) % p2(lvl) == 0);
        }
    } else if is_inner(t[i]) && lvl > 0 {
        let half = p2(lvl - 1);
        lemma_sub_aligned(t, 2 * i + 1, lvl - 1, lo);
        lemma_sub_aligned(t, 2 * i + 2, lvl - 1, lo + half);
        assert forall|b: (int, int)| #[trigger]
            sub_blocks(t, i, lvl, lo).contains(b) implies is_buddy_block(b, lo, lvl) by {
            if sub_blocks(t, 2 * i + 1, lvl - 1, lo).contains(b) {
                let k = choose|k: int|
                    0 <= k <= lvl - 1 && #[trigger] p2(k) == b.1 && (b.0 - lo) % p2(k) == 0;
                assert(0 <= k <= lvl && p2(k) == b.1 && (b.0 - lo) % p2(k) == 0);
            } else {
                assert(sub_blocks(t, 2 * i + 2, lvl - 1, lo + half).contains(b));
                let k = choose|k: int|
                    0 <= k <= lvl - 1 && #[trigger] p2(k) == b.1 && (b.0 - (lo + half)) % p2(k)
                        == 0;
                lemma_p2(k);
                lemma_pow2_adds((lvl - 1 - k) as nat, k as nat);
                assert(half == p2(lvl - 1 - k) * p2(k));
                vstd::arithmetic::div_mod::lemma_mod_multiples_basic(p2(lvl - 1 - k), p2(k));
                vstd::arithmetic::div_mod::lemma_add_mod_noop(b.0 - (lo + half), half, p2(k));
                vstd::arithmetic::div_mod::lemma_small_mod(0, p2(k) as nat);
                assert((b.0 - (lo + half)) + half == b.0 - lo);
                assert((b.0 - lo) % p2(k) == 0);
            }
        }
    }
}

/// A reachable fully allocated root leaves no unit of the tree free.
pub(crate) proof fn lemma_root_covers(t: Seq<Node>, order: int, x: int)
    requires
        tree_wf(t, order),
        0 < t.len(),
        is_full(t[0]),
        0 <= x < p2(order),
    ensures
        covered(blocks(t, order), x),
{
    assert(path_ok(t, 0, order, 0, order));
    let b = lemma_covers(t, 0, order, 0, order, x);
    assert(blocks(t, order).contains(b));
}

/// Adding the free aligned segment `[lo, lo + sz)` to `v` leaves a unit free when
/// `v` leaves room for such a request.
pub(crate) proof fn lemma_room_left(v: Set<(int, int)>, cap: int, lo: int, sz: int)
    requires
        leaves_room(v, cap, sz),
        seg_free(v, lo, sz),
        0 <= lo,
        lo + sz <= cap,
        lo % sz == 0,
    ensures
        has_room(v.insert((lo, sz)), cap),
{
    let y = choose|y: int| 0 <= y < cap && !(lo <= y < lo + sz) && !#[trigger] covered(v, y);
    assert(!covered(v.insert((lo, sz)), y)) by {
        if covered(v.insert((lo, sz)), y) {
            let b = choose|b: (int, int)| #[trigger]
                v.insert((lo, sz)).contains(b) && b.0 <= y < b.0 + b.1;
            if b != (lo, sz) {
                assert(v.contains(b));
            }
        }
    }
}

/// A unit of a free segment lies in no block.
pub(crate) proof fn lemma_free_uncovered(v: Set<(int, int)>, s: int, sz: int, x: int)
    requires
        seg_free(v, s, sz),
        s <= x < s + sz,
    ensures
        !covered(v, x),
{
    if covered(v, x) {
        let b = choose|b: (int, int)| #[trigger] v.contains(b) && b.0 <= x < b.0 + b.1;
        assert(overlaps(b, s, sz));
    }
}

/// Within the block of a split node, a unit is covered exactly when it is covered
/// in the half that holds it.
pub(crate) proof fn lemma_covered_halves(t: Seq<Node>, i: int, lvl: int, lo: int, x: int)
    requires
        0 <= i < t.len(),
        is_inner(t[i]),
        lvl > 0,
        lo <= x < lo + p2(lvl),
    ensures
        x < lo + p2(lvl - 1) ==> (covered(sub_blocks(t, i, lvl, lo), x) <==> covered(
            sub_blocks(t, 2 * i + 1, lvl - 1, lo),
            x,
        )),
        x >= lo + p2(lvl - 1) ==> (covered(sub_blocks(t, i, lvl, lo), x) <==> covered(
            sub_blocks(t, 2 * i + 2, lvl - 1, lo + p2(lvl - 1)),
            x,
        )),
{
    lemma_p2(lvl - 1);
    let l = sub_blocks(t, 2 * i + 1, lvl - 1, lo);
    let r = sub_blocks(t, 2 * i + 2, lvl - 1, lo + p2(lvl - 1));
    let a = sub_blocks(t, i, lvl, lo);
    assert(a == l + r);
    lemma_sub_range(t, 2 * i + 1, lvl - 1, lo);
    lemma_sub_range(t, 2 * i + 2, lvl - 1, lo + p2(lvl - 1));
    if covered(a, x) {
        let b = choose|b: (int, int)| #[trigger] a.contains(b) && b.0 <= x < b.0 + b.1;
        if l.contains(b) {
            assert(covered(l, x));
        } else {
            assert(r.contains(b));
            assert(covered(r, x));
        }
    }
    if covered(l, x) {
        let b = choose|b: (int, int)| #[trigger] l.contains(b) && b.0 <= x < b.0 + b.1;
        assert(a.contains(b));
    }
    if covered(r, x) {
        let b = choose|b: (int, int)| #[trigger] r.contains(b) && b.0 <= x < b.0 + b.1;
        assert(a.contains(b));
    }
}

/// Taking a block away keeps every free unit free.
pub(crate) proof fn lemma_room_remove(v: Set<(int, int)>, b: (int, int), cap: int)
    requires
        has_room(v, cap),
    ensures
        has_room(v.remove(b), cap),
{
    let x = choose|x: int| 0 <= x < cap && !#[trigger] covered(v, x);
    if covered(v.remove(b), x) {
        let c = choose|c: (int, int)| #[trigger] v.remove(b).contains(c) && c.0 <= x < c.0 + c.1;
        assert(v.contains(c));
    }
}

/// A reachable node, and the children of one above level 0, lie below index
/// `2^(order+1) - 1`.
pub(crate) proof fn lemma_node_below(t: Seq<Node>, i: int, lvl: int, lo: int, order: int)
    requires
        path_ok(t, i, lvl, lo, order),
        order >= 0,
    ensures
        i < p2(order + 1) - 1,
        lvl >= 1 ==> 2 * i + 2 < p2(order + 1) - 1,
{
    lemma_path_facts(t, i, lvl, lo, order);
    lemma_p2(order);
    lemma_p2_mono(order - lvl, order);
    if lvl >= 1 {
        lemma_p2(order - lvl);
        lemma_p2_mono(order - lvl + 1, order);
    }
}

/// `t` agrees with `t0` from index `n` on, and has its length.
pub open spec fn same_from(t: Seq<Node>, t0: Seq<Node>, n: int) -> bool {
    &&& t.len() == t0.len()
    &&& forall|k: int| n <= k < t0.len() ==> #[trigger] t[k] == t0[k]
}

} // verus!
