use vstd::prelude::*;
use crate::rt::lemma_bit_length;
use crate::tree::{
    p2,
    is_full,
    parent,
    sibling,
    parent_lo,
    sub_blocks,
    blocks,
    path_ok,
    ctx,
    node_ok,
    tree_wf,
    overlaps,
    seg_free,
    covered,
    has_room,
    leaves_room,
    lemma_root_covers,
    lemma_room_remove,
    lemma_room_left,
    lemma_free_uncovered,
    lemma_covered_halves,
    lemma_node_below,
    same_from,
    sub_at,
    lemma_sub_at_ge,
    lemma_p2,
    lemma_sub_range,
    lemma_sub_disjoint,
    lemma_path_facts,
    lemma_path_update,
    lemma_child_path,
    lemma_parent_split,
    lemma_p2_mono,
    lemma_index_bound,
    log2_ceil,
    request_size,
    lemma_log2_ceil_unique,
    chain_wf,
    lemma_split_step,
    lemma_mark_used,
    lemma_full_step,
    lemma_skip,
    lemma_found,
    lemma_free_miss,
    lemma_free_hit,
    lemma_free_up,
    fix_inv,
    lemma_free_cut,
    lemma_fix_step,
    lemma_fix_done,
    is_buddy_block,
    lemma_sub_aligned,
};

verus! {

/// The state of one node of the buddy tree, stored in two bits.
#[derive(PartialEq, Eq, Structural, Clone, Copy, Debug)]
pub enum Node {
    /// The node's whole block is free.
    Unused,
    /// The node's whole block is handed out as one allocation.
    Used,
    /// The block is split in two halves described by the children.
    Split,
    /// The block is split and both halves are fully allocated.
    Full,
}

/// The node state that a two-bit code stands for.
pub open spec fn node_of(bits: u32) -> Node {
    if bits == 0 {
        Node::Unused
    } else if bits == 1 {
        Node::Used
    } else if bits == 2 {
        Node::Split
    } else {
        Node::Full
    }
}

/// Size in bytes of the storage behind a `Bitv`.
pub const BITV_SIZE: usize = 0x10000;

/// Number of 32-bit words behind a `Bitv`.
pub const BITV_WORDS: usize = 0x4000;

/// A vector of two-bit node states, sixteen to a 32-bit word.
pub struct Bitv {
    storage: Vec<u32>,
}

/// The two-bit field at even bit position `b` of `w`.
pub open spec fn field(w: u32, b: u32) -> u32 {
    (w >> b) & 3
}

proof fn lemma_field_update(w: u32, b: u32, b2: u32, x: u32)
    by (bit_vector)
    requires
        b < 32,
        b2 < 32,
        b % 2 == 0,
        b2 % 2 == 0,
        x < 4,
    ensures
        (((w & !(3u32 << b)) | (x << b)) >> b2) & 3 == if b == b2 {
            x
        } else {
            (w >> b2) & 3
        },
{
}

/// The node states that `words` hold, sixteen to a word, the first in the low bits.
pub open spec fn decode(words: Seq<u32>) -> Seq<Node> {
    Seq::new(
        (words.len() * 16) as nat,
        |i: int| node_of(field(words[i / 16], ((i % 16) * 2) as u32)),
    )
}

impl View for Bitv {
    type V = Seq<Node>;

    closed spec fn view(&self) -> Seq<Node> {
        decode(self.storage@)
    }
}

impl Bitv {
    /// The number of words behind the vector is fixed.
    pub closed spec fn wf(&self) -> bool {
        self.storage@.len() == BITV_WORDS
    }

    /// Takes the words that back the vector; their current contents are kept.
    pub fn from_storage(storage: Vec<u32>) -> (res: Bitv)
        requires
            storage@.len() == BITV_WORDS,
        ensures
            res.wf(),
            res@ == decode(storage@),
    {
        Bitv { storage }
    }

    /// A vector whose entries are all `Unused`.
    pub fn zeroed() -> (res: Bitv)
        ensures
            res.wf(),
            res@.len() == BITV_WORDS * 16,
            forall|i: int| 0 <= i < res@.len() ==> res@[i] == Node::Unused,
    {
        let mut storage: Vec<u32> = Vec::new();
        let mut k: usize = 0;
        while k < BITV_WORDS
            invariant
                k <= BITV_WORDS,
                storage@.len() == k,
                forall|j: int| 0 <= j < k ==> storage@[j] == 0,
            decreases BITV_WORDS - k,
        {
            storage.push(0);
            k += 1;
        }
        let res = Bitv { storage };
        assert forall|i: int| 0 <= i < res@.len() implies res@[i] == Node::Unused by {
            let b = ((i % 16) * 2) as u32;
            assert(field(0, b) == 0) by (bit_vector);
        }
        res
    }

    /// A well-formed vector holds `BITV_WORDS * 16` states.
    pub proof fn lemma_len(&self)
        requires
            self.wf(),
        ensures
            self@.len() == BITV_WORDS * 16,
    {
    }

    /// The state at position `i`.
    pub fn get(&self, i: usize) -> (res: Node)
        requires
            self.wf(),
            i < self@.len(),
        ensures
            res == self@[i as int],
    {
        let w = i / 16;
        let b = ((i % 16) * 2) as u32;
        let bits = (self.storage[w] >> b) & 3;
        if bits == 0 {
            Node::Unused
        } else if bits == 1 {
            Node::Used
        } else if bits == 2 {
            Node::Split
        } else {
            Node::Full
        }
    }

    /// Writes state `x` at position `i`; every other position keeps its state.
    pub fn set(&mut self, i: usize, x: Node)
        requires
            old(self).wf(),
            i < old(self)@.len(),
        ensures
            final(self).wf(),
            final(self)@ == old(self)@.update(i as int, x),
    {
        let w = i / 16;
        let b = ((i % 16) * 2) as u32;
        let code: u32 = match x {
            Node::Unused => 0,
            Node::Used => 1,
            Node::Split => 2,
            Node::Full => 3,
        };
        let old_word = self.storage[w];
        let new_word = (old_word & !(3u32 << b)) | (code << b);
        self.storage.set(w, new_word);
        proof {
            let o = old(self)@;
            let n = self@;
            assert forall|k: int| 0 <= k < n.len() implies n[k] == o.update(i as int, x)[k] by {
                let b2 = ((k % 16) * 2) as u32;
                if k / 16 == w as int {
                    lemma_field_update(old_word, b, b2, code);
                    if k != i as int {
                        assert(b2 != b);
                    }
                }
            }
            assert(n =~= o.update(i as int, x));
        }
    }

    /// Marks every position `Unused`.
    pub fn clear(&mut self)
        requires
            old(self).wf(),
        ensures
            final(self).wf(),
            final(self)@.len() == BITV_WORDS * 16,
            forall|i: int| 0 <= i < final(self)@.len() ==> final(self)@[i] == Node::Unused,
    {
        let mut k: usize = 0;
        while k < self.storage.len()
            invariant
                self.storage@.len() == BITV_WORDS,
                k <= BITV_WORDS,
                forall|j: int| 0 <= j < k ==> self.storage@[j] == 0,
            decreases BITV_WORDS - k,
        {
            self.storage.set(k, 0);
            k += 1;
        }
        assert forall|i: int| 0 <= i < self@.len() implies self@[i] == Node::Unused by {
            let b = ((i % 16) * 2) as u32;
            assert(field(0, b) == 0) by (bit_vector);
        }
    }

    /// Size in bytes of the storage behind the vector.
    pub fn size(&self) -> (res: usize)
        ensures
            res == BITV_SIZE,
    {
        BITV_SIZE
    }
}

/// What allocating `size` units does to the blocks `before` of an allocator of
/// `cap` units, giving `after` and the answer `res`: the lowest free block of
/// `request_size(size)` units that starts at a multiple of its length is added and
/// returned as `(offset, length)`; when there is none, nothing changes and the
/// answer is `(0, 0)`.
pub open spec fn allocated(
    before: Set<(int, int)>,
    after: Set<(int, int)>,
    cap: int,
    size: nat,
    res: (usize, usize),
) -> bool {
    let sz = request_size(size);
    &&& res.1 == 0 ==> {
        &&& res.0 == 0
        &&& after == before
        &&& forall|s: int|
            0 <= s && s + sz <= cap && s % sz == 0 ==> !#[trigger] seg_free(before, s, sz)
    }
    &&& res.1 != 0 ==> {
        &&& res.1 == sz
        &&& (res.0 as int) % sz == 0
        &&& res.0 + sz <= cap
        &&& seg_free(before, res.0 as int, sz)
        &&& forall|s: int| 0 <= s < res.0 && s % sz == 0 ==> !#[trigger] seg_free(before, s, sz)
        &&& after == before.insert((res.0 as int, sz))
    }
}

/// What freeing unit `offset` does to the blocks `before`, giving `after`: the
/// block that holds the unit is removed; when no block holds it, nothing changes.
pub open spec fn freed(before: Set<(int, int)>, after: Set<(int, int)>, offset: int) -> bool {
    &&& forall|b: (int, int)|
        #[trigger] before.contains(b) && b.0 <= offset < b.0 + b.1 ==> after == before.remove(b)
    &&& (forall|b: (int, int)| #[trigger] before.contains(b) ==> !(b.0 <= offset < b.0 + b.1))
        ==> after == before
}

/// A binary buddy allocator over `2^order` units. Node `i` of the tree stands for
/// one block; the root is the whole range.
pub struct BuddyAlloc {
    order: usize,
    tree: Bitv,
}

impl View for BuddyAlloc {
    type V = Set<(int, int)>;

    /// The allocated blocks, as (offset, length) pairs in units.
    closed spec fn view(&self) -> Set<(int, int)> {
        blocks(self.tree@, self.order as int)
    }
}

impl BuddyAlloc {
    /// The tree fits its storage and keeps the shape rules, and some unit is free:
    /// the root is never fully allocated.
    pub closed spec fn wf(&self) -> bool {
        &&& self.order <= 17
        &&& self.tree.wf()
        &&& tree_wf(self.tree@, self.order as int)
        &&& has_room(self@, p2(self.order as int))
    }

    /// The allocator manages `2^order_of()` units.
    pub closed spec fn order_of(&self) -> nat {
        self.order as nat
    }

    /// The states of the tree's nodes, one per cell of the storage.
    pub closed spec fn cells(&self) -> Seq<Node> {
        self.tree@
    }

    /// The number of units managed.
    pub open spec fn capacity(&self) -> int {
        p2(self.order_of() as int)
    }

    /// An allocator of `2^order` units over `storage`, which is cleared: nothing is
    /// allocated.
    pub fn new(order: usize, storage: Bitv) -> (res: BuddyAlloc)
        requires
            order <= 17,
            storage.wf(),
        ensures
            res.wf(),
            res.order_of() == order,
            res@ == Set::<(int, int)>::empty(),
            res.cells().len() == BITV_WORDS * 16,
            forall|i: int| 0 <= i < res.cells().len() ==> #[trigger] res.cells()[i] == Node::Unused,
    {
        let mut storage = storage;
        storage.clear();
        let res = BuddyAlloc { order, tree: storage };
        proof {
            let t = res.tree@;
            res.tree.lemma_len();
            assert forall|i: int, lvl: int, lo: int| #[trigger]
                path_ok(t, i, lvl, lo, order as int) implies node_ok(t, i, lvl) by {
                lemma_index_bound(t, i, lvl, lo, order as int);
            }
            assert(t[0] == Node::Unused);
            assert(res@ =~= Set::<(int, int)>::empty());
            lemma_p2(order as int);
            assert(!covered(res@, 0));
        }
        res
    }

    /// Start of the block of node `index`, one of the nodes at height `level`.
    fn offset(&self, index: usize, level: usize) -> (res: usize)
        requires
            self.order <= 17,
            level <= self.order,
            p2(self.order - level) - 1 <= index < 2 * p2(self.order - level) - 1,
        ensures
            res == (index + 1 - p2(self.order - level)) * p2(level as int),
            (res as int) % p2(level as int) == 0,
            res + p2(level as int) <= p2(self.order as int),
    {
        proof {
            let d = (self.order - level) as int;
            lemma_p2(d);
            lemma_p2(level as int);
            vstd::arithmetic::power2::lemma_pow2_adds(d as nat, level as nat);
            let r0 = index + 1 - p2(d);
            assert(r0 * p2(level as int) + p2(level as int) <= p2(d) * p2(level as int))
                by (nonlinear_arith)
                requires
                    0 <= r0 < p2(d),
                    0 <= p2(level as int),
            ;
            vstd::arithmetic::div_mod::lemma_mod_multiples_basic(r0, p2(level as int));
            vstd::arithmetic::power2::lemma2_to64();
            lemma_p2_mono(d, 17);
            lemma_p2_mono(level as int, 17);
            lemma_p2_mono(self.order as int, 17);
            vstd::bits::lemma_usize_shl_is_mul(1, d as usize);
            vstd::bits::lemma_usize_shl_is_mul(r0 as usize, level as usize);
        }
        (index + 1 - (1 << (self.order - level))) << level
    }

    /// The first unit of the block of reachable node `i` (at level `lvl`, starting at
    /// `lo`) that no block holds, or `None` when all of them are allocated.
    fn first_gap(&self, i: usize, lvl: usize, lo: usize) -> (res: Option<usize>)
        requires
            self.wf(),
            path_ok(self.tree@, i as int, lvl as int, lo as int, self.order as int),
        ensures
            res is None ==> forall|x: int|
                lo <= x < lo + p2(lvl as int) ==> #[trigger] covered(
                    sub_blocks(self.tree@, i as int, lvl as int, lo as int),
                    x,
                ),
            res matches Some(g) ==> {
                &&& lo <= g < lo + p2(lvl as int)
                &&& !covered(sub_blocks(self.tree@, i as int, lvl as int, lo as int), g as int)
                &&& forall|x: int|
                    lo <= x < g ==> #[trigger] covered(
                        sub_blocks(self.tree@, i as int, lvl as int, lo as int),
                        x,
                    )
            },
        decreases lvl,
    {
        let ghost t = self.tree@;
        let ghost ord = self.order as int;
        let ghost sb = sub_blocks(t, i as int, lvl as int, lo as int);
        proof {
            self.tree.lemma_len();
            lemma_index_bound(t, i as int, lvl as int, lo as int, ord);
            lemma_path_facts(t, i as int, lvl as int, lo as int, ord);
            lemma_p2(lvl as int);
            vstd::arithmetic::power2::lemma2_to64();
            lemma_p2_mono(ord, 17);
        }
        let st = self.tree.get(i);
        if st == Node::Used {
            proof {
                assert(sb.contains((lo as int, p2(lvl as int))));
                assert forall|x: int| lo <= x < lo + p2(lvl as int) implies #[trigger] covered(
                    sb,
                    x,
                ) by {
                    assert(sb.contains((lo as int, p2(lvl as int))));
                }
            }
            None
        } else if st == Node::Unused {
            proof {
                assert(sb =~= Set::<(int, int)>::empty());
                assert(!covered(sb, lo as int));
            }
            Some(lo)
        } else {
            proof {
                assert(node_ok(t, i as int, lvl as int));
                lemma_child_path(t, i as int, lvl as int, lo as int, ord);
                lemma_p2(lvl - 1);
                vstd::bits::lemma_usize_shl_is_mul(1, (lvl - 1) as usize);
            }
            let half: usize = 1usize << (lvl - 1);
            let left = self.first_gap(2 * i + 1, lvl - 1, lo);
            match left {
                Some(g) => {
                    proof {
                        lemma_covered_halves(t, i as int, lvl as int, lo as int, g as int);
                        assert forall|x: int| lo <= x < g implies #[trigger] covered(sb, x) by {
                            lemma_covered_halves(t, i as int, lvl as int, lo as int, x);
                        }
                    }
                    Some(g)
                },
                None => {
                    let right = self.first_gap(2 * i + 2, lvl - 1, lo + half);
                    proof {
                        assert forall|x: int| lo <= x < lo + half implies #[trigger] covered(
                            sb,
                            x,
                        ) by {
                            lemma_covered_halves(t, i as int, lvl as int, lo as int, x);
                        }
                        match right {
                            Some(g) => {
                                lemma_covered_halves(t, i as int, lvl as int, lo as int, g as int);
                                assert forall|x: int| lo <= x < g implies #[trigger] covered(
                                    sb,
                                    x,
                                ) by {
                                    lemma_covered_halves(t, i as int, lvl as int, lo as int, x);
                                }
                            },
                            None => {
                                assert forall|x: int|
                                    lo <= x < lo + p2(lvl as int) implies #[trigger] covered(
                                    sb,
                                    x,
                                ) by {
                                    lemma_covered_halves(t, i as int, lvl as int, lo as int, x);
                                }
                            },
                        }
                    }
                    right
                },
            }
        }
    }

    /// Whether, in the block of reachable node `i` (at level `lvl`, starting at
    /// `lo`), the units that no block holds are exactly those in `[s, e)`.
    fn gap_is(&self, i: usize, lvl: usize, lo: usize, s: usize, e: usize) -> (res: bool)
        requires
            self.wf(),
            path_ok(self.tree@, i as int, lvl as int, lo as int, self.order as int),
        ensures
            res == forall|x: int|
                lo <= x < lo + p2(lvl as int) ==> (#[trigger] covered(
                    sub_blocks(self.tree@, i as int, lvl as int, lo as int),
                    x,
                ) <==> !(s <= x < e)),
        decreases lvl,
    {
        let ghost t = self.tree@;
        let ghost ord = self.order as int;
        let ghost sb = sub_blocks(t, i as int, lvl as int, lo as int);
        proof {
            self.tree.lemma_len();
            lemma_index_bound(t, i as int, lvl as int, lo as int, ord);
            lemma_path_facts(t, i as int, lvl as int, lo as int, ord);
            lemma_p2(lvl as int);
            vstd::arithmetic::power2::lemma2_to64();
            lemma_p2_mono(ord, 17);
            vstd::bits::lemma_usize_shl_is_mul(1, lvl);
        }
        let hi: usize = lo + (1usize << lvl);
        let st = self.tree.get(i);
        if st == Node::Used {
            let res = e <= lo || hi <= s || e <= s;
            proof {
                assert(sb.contains((lo as int, p2(lvl as int))));
                if res {
                    assert forall|x: int| lo <= x < hi implies (#[trigger] covered(sb, x) <==> !(s
                        <= x < e)) by {
                        assert(sb.contains((lo as int, p2(lvl as int))));
                    }
                } else {
                    let x: int = if lo > s {
                        lo as int
                    } else {
                        s as int
                    };
                    assert(covered(sb, x));
                }
            }
            res
        } else if st == Node::Unused {
            let res = s <= lo && hi <= e;
            proof {
                assert(sb =~= Set::<(int, int)>::empty());
                if !res {
                    let x: int = if lo < s {
                        lo as int
                    } else {
                        (hi - 1) as int
                    };
                    assert(!covered(sb, x));
                }
            }
            res
        } else {
            proof {
                assert(node_ok(t, i as int, lvl as int));
                lemma_child_path(t, i as int, lvl as int, lo as int, ord);
                lemma_p2(lvl - 1);
                vstd::bits::lemma_usize_shl_is_mul(1, (lvl - 1) as usize);
            }
            let half: usize = 1usize << (lvl - 1);
            let a = self.gap_is(2 * i + 1, lvl - 1, lo, s, e);
            let b = self.gap_is(2 * i + 2, lvl - 1, lo + half, s, e);
            proof {
                let l = sub_blocks(t, 2 * i + 1, lvl - 1, lo as int);
                let r = sub_blocks(t, 2 * i + 2, lvl - 1, lo + half);
                if a && b {
                    assert forall|x: int| lo <= x < hi implies (#[trigger] covered(sb, x) <==> !(s
                        <= x < e)) by {
                        lemma_covered_halves(t, i as int, lvl as int, lo as int, x);
                    }
                } else if !a {
                    let x = choose|x: int|
                        lo <= x < lo + half && !(#[trigger] covered(l, x) <==> !(s <= x < e));
                    lemma_covered_halves(t, i as int, lvl as int, lo as int, x);
                } else {
                    let x = choose|x: int|
                        lo + half <= x < lo + half + half && !(#[trigger] covered(r, x) <==> !(s
                            <= x < e));
                    lemma_covered_halves(t, i as int, lvl as int, lo as int, x);
                }
            }
            a && b
        }
    }

    /// Whether serving a request for `size` units would leave no unit free: the
    /// units that no block holds then form exactly the first free aligned segment
    /// of `request_size(size)` units. `allocate` takes only requests for which this
    /// is false.
    pub fn would_fill(&self, size: usize) -> (res: bool)
        requires
            self.wf(),
            size <= self.capacity(),
        ensures
            res == !leaves_room(self@, self.capacity(), request_size(size as nat)),
    {
        let ghost t = self.tree@;
        let ghost ord = self.order as int;
        let ghost v = self@;
        let l = size_class(size, Ghost(ord));
        proof {
            vstd::arithmetic::power2::lemma2_to64();
            lemma_p2_mono(ord, 17);
            lemma_p2_mono(l as int, 17);
            lemma_p2(l as int);
            vstd::bits::lemma_usize_shl_is_mul(1, l);
            vstd::bits::lemma_usize_shl_is_mul(1, self.order);
            assert(path_ok(t, 0, ord, 0, ord));
        }
        let ghost sz = request_size(size as nat);
        let ghost cap = p2(ord);
        let unit: usize = 1usize << l;
        let cap_units: usize = 1usize << self.order;
        let gap = self.first_gap(0, self.order, 0);
        match gap {
            None => {
                proof {
                    assert forall|s: int|
                        0 <= s && s + sz <= cap && s % sz == 0 && #[trigger] seg_free(
                            v,
                            s,
                            sz,
                        ) implies exists|x: int|
                        0 <= x < cap && !(s <= x < s + sz) && !#[trigger] covered(v, x) by {
                        lemma_free_uncovered(v, s, sz, s);
                        assert(covered(v, s));
                    }
                }
                false
            },
            Some(g) => {
                if g % unit == 0 && g + unit <= cap_units {
                    let r = self.gap_is(0, self.order, 0, g, g + unit);
                    proof {
                        if r {
                            assert(seg_free(v, g as int, sz)) by {
                                assert forall|b: (int, int)| #[trigger]
                                    v.contains(b) implies !overlaps(b, g as int, sz) by {
                                    lemma_sub_range(t, 0, ord, 0);
                                    if overlaps(b, g as int, sz) {
                                        let x: int = if b.0 > g {
                                            b.0
                                        } else {
                                            g as int
                                        };
                                        assert(covered(v, x));
                                    }
                                }
                            }
                            if leaves_room(v, cap, sz) {
                                let x = choose|x: int|
                                    0 <= x < cap && !(g <= x < g + sz) && !#[trigger] covered(
                                        v,
                                        x,
                                    );
                            }
                        } else {
                            let x0 = choose|x: int|
                                0 <= x < cap && !(#[trigger] covered(v, x) <==> !(g <= x < g
                                    + sz));
                            assert forall|s: int|
                                0 <= s && s + sz <= cap && s % sz == 0 && #[trigger] seg_free(
                                    v,
                                    s,
                                    sz,
                                ) implies exists|x: int|
                                0 <= x < cap && !(s <= x < s + sz) && !#[trigger] covered(
                                    v,
                                    x,
                                ) by {
                                lemma_free_uncovered(v, s, sz, s);
                                if s == g {
                                    if g <= x0 < g + sz {
                                        lemma_free_uncovered(v, s, sz, x0);
                                    }
                                    assert(!covered(v, x0));
                                } else {
                                    assert(s > g);
                                    lemma_aligned_gap(g as int, s, sz);
                                    assert(!covered(v, g as int));
                                }
                            }
                        }
                    }
                    r
                } else {
                    proof {
                        assert forall|s: int|
                            0 <= s && s + sz <= cap && s % sz == 0 && #[trigger] seg_free(
                                v,
                                s,
                                sz,
                            ) implies exists|x: int|
                            0 <= x < cap && !(s <= x < s + sz) && !#[trigger] covered(v, x) by {
                            lemma_free_uncovered(v, s, sz, s);
                            assert(s >= g);
                            assert(s != g);
                            assert(!covered(v, g as int));
                        }
                    }
                    false
                }
            },
        }
    }

    /// Hands out the lowest-addressed free block of `request_size(size)` units that
    /// is aligned to its length, as `(offset, length)`; `(0, 0)` when there is none.
    /// A request whose block would be the last free space (`would_fill`) is not
    /// taken: marking the root fully allocated has no parent to go on to.
    pub fn allocate(&mut self, size: usize) -> (res: (usize, usize))
        requires
            old(self).wf(),
            size <= old(self).capacity(),
            leaves_room(old(self)@, old(self).capacity(), request_size(size as nat)),
        ensures
            final(self).wf(),
            final(self).order_of() == old(self).order_of(),
            allocated(old(self)@, final(self)@, old(self).capacity(), size as nat, res),
            same_from(final(self).cells(), old(self).cells(), p2(old(self).order_of() as int + 1) - 1),
    {
        let ghost t0 = self.tree@;
        let ghost ord = self.order as int;
        let ghost v0 = blocks(t0, ord);
        proof {
            self.tree.lemma_len();
            vstd::arithmetic::power2::lemma2_to64();
            lemma_p2_mono(ord, 17);
        }
        // smallest power of two no less than `size`
        let lg2_size = size_class(size, Ghost(ord));
        let ghost l = lg2_size as int;
        proof {
            lemma_p2(l);
        }
        let ghost sz = p2(l);
        let mut index: usize = 0;
        let mut level: usize = self.order;
        let ghost mut lo: int = 0;
        loop
            invariant_except_break
                l == lg2_size as int,
                sz == request_size(size as nat),
                sz >= 1,
                v0 == blocks(t0, ord),
                old(self)@ == v0,
                old(self).capacity() == p2(ord),
                old(self).order_of() == ord,
                self.tree@ == t0,
                t0.len() == BITV_WORDS * 16,
                self.order as int == ord,
                self.wf(),
                0 <= l <= level <= ord <= 17,
                sz == p2(l),
                path_ok(t0, index as int, level as int, lo, ord),
                forall|s: int| 0 <= s < lo && s % sz == 0 ==> !#[trigger] seg_free(v0, s, sz),
            ensures
                l == lg2_size as int,
                sz == request_size(size as nat),
                sz >= 1,
                v0 == blocks(t0, ord),
                old(self)@ == v0,
                old(self).capacity() == p2(ord),
                old(self).order_of() == ord,
                sz == p2(l),
                self.tree@ == t0,
                self.order as int == ord,
                self.wf(),
                0 <= l <= level <= ord <= 17,
                path_ok(t0, index as int, level as int, lo, ord),
                forall|s: int| 0 <= s < lo && s % sz == 0 ==> !#[trigger] seg_free(v0, s, sz),
                t0[index as int] == Node::Unused,
            decreases (p2(ord) - lo) * 32 + level,
        {
            proof {
                lemma_index_bound(t0, index as int, level as int, lo, ord);
                lemma_path_facts(t0, index as int, level as int, lo, ord);
            }
            let st = self.tree.get(index);
            if st == Node::Unused {
                break;
            }
            if st == Node::Split && level != lg2_size {
                proof {
                    assert(node_ok(t0, index as int, level as int));
                    lemma_child_path(t0, index as int, level as int, lo, ord);
                }
                index = index * 2 + 1;
                level -= 1;
            } else {
                let ghost lo_start = lo;
                proof {
                    lemma_p2(level as int);
                    assert forall|s: int|
                        0 <= s < lo + p2(level as int) && s % sz == 0 implies !#[trigger] seg_free(
                        v0,
                        s,
                        sz,
                    ) by {
                        if s >= lo {
                            lemma_skip(t0, index as int, level as int, lo, ord, l, s);
                        }
                    }
                }
                loop
                    invariant_except_break
                        l == lg2_size as int,
                        sz == request_size(size as nat),
                        sz >= 1,
                        v0 == blocks(t0, ord),
                        old(self)@ == v0,
                        old(self).capacity() == p2(ord),
                        old(self).order_of() == ord,
                        self.tree@ == t0,
                        t0.len() == BITV_WORDS * 16,
                        self.order as int == ord,
                        self.wf(),
                        0 <= l <= level <= ord <= 17,
                        sz == p2(l),
                        path_ok(t0, index as int, level as int, lo, ord),
                        lo + p2(level as int) > lo_start,
                        forall|s: int|
                            0 <= s < lo + p2(level as int) && s % sz == 0 ==> !#[trigger] seg_free(
                                v0,
                                s,
                                sz,
                            ),
                    ensures
                        l == lg2_size as int,
                        sz == request_size(size as nat),
                        sz >= 1,
                        v0 == blocks(t0, ord),
                        old(self)@ == v0,
                        old(self).capacity() == p2(ord),
                        old(self).order_of() == ord,
                        self.tree@ == t0,
                        self.order as int == ord,
                        self.wf(),
                        0 <= l <= level <= ord <= 17,
                        path_ok(t0, index as int, level as int, lo, ord),
                        forall|s: int|
                            0 <= s < lo && s % sz == 0 ==> !#[trigger] seg_free(v0, s, sz),
                        lo > lo_start,
                    decreases ord - level,
                {
                    proof {
                        lemma_index_bound(t0, index as int, level as int, lo, ord);
                        lemma_path_facts(t0, index as int, level as int, lo, ord);
                        assert(index & 1 == index % 2) by (bit_vector);
                    }
                    if index & 1 == 1 {
                        proof {
                            lemma_p2(level as int);
                            assert(parent(index + 1) == parent(index as int));
                        }
                        index += 1;
                        proof {
                            lo = lo + p2(level as int);
                        }
                        break;
                    }
                    if index == 0 {
                        proof {
                            assert(level as int == ord);
                            assert(lo == 0);
                            assert forall|s: int|
                                0 <= s && s + sz <= p2(ord) && s % sz == 0 implies !#[trigger] seg_free(
                                old(self)@,
                                s,
                                sz,
                            ) by {
                                assert(s < lo + p2(level as int));
                            }
                        }
                        return (0, 0);
                    }
                    proof {
                        lemma_p2(level as int);
                    }
                    level += 1;
                    index = (index + 1) / 2 - 1;
                    proof {
                        lo = lo - p2(level - 1);
                    }
                }
                proof {
                    lemma_path_facts(t0, index as int, level as int, lo, ord);
                    lemma_p2_mono(level as int, ord);
                }
            }
        }
        proof {
            lemma_found(t0, index as int, level as int, lo, ord, l);
            lemma_path_facts(t0, index as int, level as int, lo, ord);
            assert(leaves_room(v0, p2(ord), sz));
            if index > 0 {
                lemma_parent_split(t0, index as int, level as int, lo, ord);
            }
        }
        let ghost ctx0 = ctx(t0, index as int, level as int, lo, ord);
        while level != lg2_size
            invariant
                l == lg2_size as int,
                sz == request_size(size as nat),
                sz >= 1,
                v0 == blocks(t0, ord),
                old(self)@ == v0,
                old(self).capacity() == p2(ord),
                old(self).order_of() == ord,
                sz == p2(l),
                self.order as int == ord,
                self.tree.wf(),
                self.tree@.len() == t0.len(),
                t0.len() == BITV_WORDS * 16,
                0 <= l <= level <= ord <= 17,
                chain_wf(self.tree@, ord, index as int),
                path_ok(self.tree@, index as int, level as int, lo, ord),
                self.tree@[index as int] == Node::Unused,
                index > 0 ==> self.tree@[parent(index as int)] == Node::Split,
                ctx(self.tree@, index as int, level as int, lo, ord) == ctx0,
                blocks(self.tree@, ord) == v0,
                leaves_room(v0, p2(ord), sz),
                seg_free(v0, lo, sz),
                0 <= lo,
                lo + sz <= p2(ord),
                lo % sz == 0,
                same_from(self.tree@, t0, p2(ord + 1) - 1),
            decreases level,
        {
            proof {
                self.tree.lemma_len();
                lemma_index_bound(self.tree@, index as int, level as int, lo, ord);
                lemma_node_below(self.tree@, index as int, level as int, lo, ord);
                lemma_split_step(self.tree@, index as int, level as int, lo, ord);
            }
            self.tree.set(index, Node::Split);
            self.tree.set(index * 2 + 1, Node::Unused);
            self.tree.set(index * 2 + 2, Node::Unused);
            index = index * 2 + 1;
            level -= 1;
        }
        proof {
            self.tree.lemma_len();
            lemma_index_bound(self.tree@, index as int, level as int, lo, ord);
            lemma_mark_used(self.tree@, index as int, level as int, lo, ord);
            lemma_node_below(self.tree@, index as int, level as int, lo, ord);
        }
        self.tree.set(index, Node::Used);
        proof {
            if index == 0 {
                lemma_room_left(v0, p2(ord), lo, sz);
                let y = choose|y: int| 0 <= y < p2(ord) && !#[trigger] covered(v0.insert((lo, sz)), y);
                lemma_root_covers(self.tree@, ord, y);
            }
        }
        let ghost mut plvl: int = level as int;
        let ghost mut plo: int = lo;
        let mut cur: usize = index;
        // Walk up while the sibling is fully allocated, marking the parent full.
        loop
            invariant
                l == lg2_size as int,
                sz == request_size(size as nat),
                sz >= 1,
                v0 == blocks(t0, ord),
                old(self)@ == v0,
                old(self).capacity() == p2(ord),
                old(self).order_of() == ord,
                sz == p2(l),
                self.order as int == ord,
                self.tree.wf(),
                self.tree@.len() == t0.len(),
                t0.len() == BITV_WORDS * 16,
                0 <= l <= level <= ord <= 17,
                tree_wf(self.tree@, ord),
                blocks(self.tree@, ord) == v0.insert((lo, sz)),
                path_ok(self.tree@, index as int, level as int, lo, ord),
                path_ok(self.tree@, cur as int, plvl, plo, ord),
                is_full(self.tree@[cur as int]),
                cur > 0,
                self.tree@[parent(cur as int)] == Node::Split,
                leaves_room(v0, p2(ord), sz),
                seg_free(v0, lo, sz),
                0 <= lo,
                lo + sz <= p2(ord),
                lo % sz == 0,
                same_from(self.tree@, t0, p2(ord + 1) - 1),
            decreases cur,
        {
            proof {
                self.tree.lemma_len();
                lemma_index_bound(self.tree@, cur as int, plvl, plo, ord);
                lemma_path_facts(self.tree@, cur as int, plvl, plo, ord);
                lemma_node_below(self.tree@, cur as int, plvl, plo, ord);
                assert(cur & 1 == cur % 2) by (bit_vector);
                assert(node_ok(self.tree@, parent(cur as int), plvl + 1));
            }
            let buddy = cur - 1 + (cur & 1) * 2;
            assert(buddy == sibling(cur as int));
            let bst = self.tree.get(buddy);
            if bst == Node::Used || bst == Node::Full {
                proof {
                    lemma_full_step(self.tree@, cur as int, plvl, plo, ord);
                    lemma_path_update(
                        self.tree@,
                        parent(cur as int),
                        Node::Full,
                        index as int,
                        level as int,
                        lo,
                        ord,
                    );
                    plo = parent_lo(cur as int, plvl, plo);
                    plvl = plvl + 1;
                }
                cur = (cur + 1) / 2 - 1;
                self.tree.set(cur, Node::Full);
                proof {
                    if cur == 0 {
                        lemma_room_left(v0, p2(ord), lo, sz);
                        let y = choose|y: int|
                            0 <= y < p2(ord) && !#[trigger] covered(v0.insert((lo, sz)), y);
                        lemma_root_covers(self.tree@, ord, y);
                    }
                }
            } else {
                break;
            }
        }
        proof {
            lemma_p2(l);
            vstd::bits::lemma_usize_shl_is_mul(1, lg2_size);
        }
        proof {
            lemma_path_facts(self.tree@, index as int, level as int, lo, ord);
            lemma_room_left(v0, p2(ord), lo, sz);
        }
        let off = self.offset(index, level);
        (off, 1usize << lg2_size)
    }

    /// Frees the allocated block that holds unit `offset`; does nothing when no
    /// block holds it.
    pub fn free(&mut self, offset: usize)
        requires
            old(self).wf(),
            offset < old(self).capacity(),
        ensures
            final(self).wf(),
            final(self).order_of() == old(self).order_of(),
            freed(old(self)@, final(self)@, offset as int),
            same_from(final(self).cells(), old(self).cells(), p2(old(self).order_of() as int + 1) - 1),
    {
        let ghost t0 = self.tree@;
        let ghost ord = self.order as int;
        let ghost v0 = blocks(t0, ord);
        proof {
            self.tree.lemma_len();
            vstd::arithmetic::power2::lemma2_to64();
            lemma_p2_mono(ord, 17);
            vstd::bits::lemma_usize_shl_is_mul(1, self.order);
        }
        let mut length: usize = 1 << self.order;
        let mut left: usize = 0;
        let mut index: usize = 0;
        let ghost mut level: int = ord;
        loop
            invariant_except_break
                self.tree@ == t0,
                t0.len() == BITV_WORDS * 16,
                self.order as int == ord,
                self.wf(),
                old(self)@ == v0,
                v0 == blocks(t0, ord),
                old(self).order_of() == ord,
                0 <= ord <= 17,
                p2(ord) <= 131072,
                path_ok(t0, index as int, level, left as int, ord),
                length == p2(level),
                left <= offset < left + length,
                has_room(v0, p2(ord)),
            ensures
                self.tree@ == t0,
                t0.len() == BITV_WORDS * 16,
                self.order as int == ord,
                self.wf(),
                old(self)@ == v0,
                v0 == blocks(t0, ord),
                old(self).order_of() == ord,
                0 <= ord <= 17,
                p2(ord) <= 131072,
                path_ok(t0, index as int, level, left as int, ord),
                length == p2(level),
                left <= offset < left + length,
                has_room(v0, p2(ord)),
                t0[index as int] == Node::Used,
            decreases level,
        {
            proof {
                lemma_index_bound(t0, index as int, level, left as int, ord);
                lemma_path_facts(t0, index as int, level, left as int, ord);
            }
            let st = self.tree.get(index);
            if st == Node::Unused {
                proof {
                    lemma_free_miss(t0, index as int, level, left as int, ord, offset as int);
                }
                return;
            }
            if st == Node::Used {
                break;
            }
            proof {
                assert(node_ok(t0, index as int, level));
                lemma_child_path(t0, index as int, level, left as int, ord);
                lemma_p2(level - 1);
            }
            length = length / 2;
            if offset < left + length {
                index = index * 2 + 1;
            } else {
                left = left + length;
                index = index * 2 + 2;
            }
            proof {
                level = level - 1;
            }
        }
        let ghost b = (left as int, length as int);
        proof {
            lemma_free_hit(t0, index as int, level, left as int, ord, offset as int);
            lemma_path_facts(t0, index as int, level, left as int, ord);
            assert(sub_blocks(t0, index as int, level, left as int) =~= set![b]);
        }
        let ghost mut ilvl: int = level;
        let ghost mut ilo: int = left as int;
        loop
            invariant
                self.tree@ == t0,
                t0.len() == BITV_WORDS * 16,
                self.order as int == ord,
                self.wf(),
                old(self)@ == v0,
                v0 == blocks(t0, ord),
                old(self).order_of() == ord,
                0 <= ord <= 17,
                v0.contains(b),
                b.0 <= offset < b.0 + b.1,
                forall|b2: (int, int)| #[trigger]
                    v0.contains(b2) && b2.0 <= offset < b2.0 + b2.1 ==> b2 == b,
                path_ok(t0, index as int, ilvl, ilo, ord),
                sub_blocks(t0, index as int, ilvl, ilo) == set![b],
                has_room(v0, p2(ord)),
                old(self).cells() == t0,
            decreases index,
        {
            proof {
                lemma_index_bound(t0, index as int, ilvl, ilo, ord);
                lemma_path_facts(t0, index as int, ilvl, ilo, ord);
            }
            if index == 0 {
                proof {
                    lemma_free_cut(t0, 0, ilvl, ilo, ord, b);
                    lemma_p2(ord);
                }
                self.tree.set(0, Node::Unused);
                proof {
                    lemma_room_remove(v0, b, p2(ord));
                }
                return;
            }
            proof {
                assert(index & 1 == index % 2) by (bit_vector);
            }
            let buddy = index - 1 + (index & 1) * 2;
            assert(buddy == sibling(index as int));
            if self.tree.get(buddy) != Node::Unused {
                proof {
                    lemma_free_cut(t0, index as int, ilvl, ilo, ord, b);
                    lemma_node_below(t0, index as int, ilvl, ilo, ord);
                }
                self.tree.set(index, Node::Unused);
                loop
                    invariant
                        self.order as int == ord,
                        self.tree.wf(),
                        t0.len() == BITV_WORDS * 16,
                        old(self)@ == v0,
                        v0 == blocks(t0, ord),
                        old(self).order_of() == ord,
                        0 <= ord <= 17,
                        v0.contains(b),
                        b.0 <= offset < b.0 + b.1,
                        forall|b2: (int, int)| #[trigger]
                            v0.contains(b2) && b2.0 <= offset < b2.0 + b2.1 ==> b2 == b,
                        fix_inv(self.tree@, t0, ord, index as int, ilvl, ilo),
                        blocks(self.tree@, ord) == v0.remove(b),
                        index > 0,
                        has_room(v0, p2(ord)),
                        same_from(self.tree@, t0, p2(ord + 1) - 1),
                        index < p2(ord + 1) - 1,
                        old(self).cells() == t0,
                    decreases index,
                {
                    proof {
                        self.tree.lemma_len();
                        lemma_index_bound(self.tree@, index as int, ilvl, ilo, ord);
                    }
                    let parent = (index + 1) / 2 - 1;
                    if self.tree.get(parent) == Node::Full {
                        proof {
                            if parent == 0 {
                                // the root was full before, so no unit was free
                                if sub_at(index as int, 0) {
                                    lemma_sub_at_ge(index as int, 0);
                                }
                                assert(t0[0] == Node::Full);
                                let x = choose|x: int| 0 <= x < p2(ord) && !#[trigger] covered(v0, x);
                                lemma_root_covers(t0, ord, x);
                            }
                            lemma_fix_step(self.tree@, t0, ord, index as int, ilvl, ilo);
                            ilo = parent_lo(index as int, ilvl, ilo);
                            ilvl = ilvl + 1;
                        }
                        self.tree.set(parent, Node::Split);
                    } else {
                        proof {
                            lemma_fix_done(self.tree@, t0, ord, index as int, ilvl, ilo);
                            lemma_room_remove(v0, b, p2(ord));
                        }
                        return;
                    }
                    index = parent;
                }
            }
            proof {
                lemma_free_up(t0, index as int, ilvl, ilo, ord);
                ilo = parent_lo(index as int, ilvl, ilo);
                ilvl = ilvl + 1;
            }
            index = (index + 1) / 2 - 1;
        }
    }
}


/// The exponent `l` with `2^l == request_size(size)`.
fn size_class(size: usize, Ghost(ord): Ghost<int>) -> (l: usize)
    requires
        0 <= ord <= 17,
        size <= p2(ord),
    ensures
        l <= ord,
        p2(l as int) == request_size(size as nat),
        l as int == log2_ceil(size as nat),
{
    proof {
        vstd::arithmetic::power2::lemma2_to64();
        lemma_p2_mono(ord, 17);
    }
    let mut req = size;
    if req == 0 {
        req = 1;
    }
    let lz = ((req - 1) as u32).leading_zeros();
    let l: usize = (32 - lz) as usize;
    proof {
        lemma_bit_length((req - 1) as u32);
        lemma_log2_ceil_unique(req as nat, l as int);
        if req <= 1 {
            assert(log2_ceil(req as nat) == 0);
            assert(log2_ceil(size as nat) == 0);
        }
        assert(log2_ceil(req as nat) == log2_ceil(size as nat));
        if l > ord {
            lemma_p2_mono(ord, l - 1);
        }
    }
    l
}

/// Two different multiples of `sz` are at least `sz` apart.
proof fn lemma_aligned_gap(g: int, s: int, sz: int)
    requires
        sz >= 1,
        0 <= g < s,
        g % sz == 0,
        s % sz == 0,
    ensures
        g + sz <= s,
{
    vstd::arithmetic::div_mod::lemma_fundamental_div_mod(g, sz);
    vstd::arithmetic::div_mod::lemma_fundamental_div_mod(s, sz);
    let qg = g / sz;
    let qs = s / sz;
    assert(qg < qs) by (nonlinear_arith)
        requires
            g == sz * qg,
            s == sz * qs,
            g < s,
            sz >= 1,
    ;
    assert(sz * qg + sz <= sz * qs) by (nonlinear_arith)
        requires
            qg < qs,
            sz >= 1,
    ;
}

/// An allocator of memory: hands out `(address, length)` pairs and takes back
/// addresses.
pub trait Allocator {
    /// The allocator is in a state in which it can serve requests.
    spec fn ready(&self) -> bool;

    /// The allocated blocks, in units, as (offset, length) pairs.
    spec fn units(&self) -> Set<(int, int)>;

    /// Address of unit 0.
    spec fn base_of(&self) -> int;

    /// Bytes per unit.
    spec fn unit_bytes(&self) -> int;

    /// Number of units managed.
    spec fn unit_count(&self) -> int;

    /// Hands out the lowest free aligned block of `request_size(size)` units as
    /// `(address, length in bytes)`; the length is 0 when no block is free. A
    /// request is taken when it is no larger than the allocator and serving it
    /// leaves some unit free.
    fn allocate(&mut self, size: usize) -> (res: (usize, usize))
        requires
            old(self).ready(),
            size <= old(self).unit_count(),
            leaves_room(old(self).units(), old(self).unit_count(), request_size(size as nat)),
        ensures
            final(self).ready(),
            final(self).base_of() == old(self).base_of(),
            final(self).unit_bytes() == old(self).unit_bytes(),
            final(self).unit_count() == old(self).unit_count(),
            allocated_at(
                old(self).units(),
                final(self).units(),
                old(self).base_of(),
                old(self).unit_bytes(),
                old(self).unit_count(),
                size as nat,
                res,
            ),
    ;

    /// Takes back the block that holds address `ptr`; addresses outside the
    /// managed range, and addresses that no block holds, change nothing.
    fn free(&mut self, ptr: usize)
        requires
            old(self).ready(),
        ensures
            final(self).ready(),
            final(self).base_of() == old(self).base_of(),
            final(self).unit_bytes() == old(self).unit_bytes(),
            final(self).unit_count() == old(self).unit_count(),
            freed_at(
                old(self).units(),
                final(self).units(),
                old(self).base_of(),
                old(self).unit_bytes(),
                old(self).unit_count(),
                ptr as int,
            ),
    ;
}

/// `allocated` seen through addresses: unit 0 is at `base` and a unit is `e`
/// bytes, so the answer is the block's address and its length in bytes, and
/// `(base, 0)` when no block is free.
pub open spec fn allocated_at(
    before: Set<(int, int)>,
    after: Set<(int, int)>,
    base: int,
    e: int,
    cap: int,
    size: nat,
    res: (usize, usize),
) -> bool {
    let sz = request_size(size);
    let off = (res.0 - base) / e;
    &&& res.1 == 0 ==> {
        &&& res.0 == base
        &&& after == before
        &&& forall|s: int|
            0 <= s && s + sz <= cap && s % sz == 0 ==> !#[trigger] seg_free(before, s, sz)
    }
    &&& res.1 != 0 ==> {
        &&& res.1 == sz * e
        &&& res.0 >= base
        &&& (res.0 - base) % e == 0
        &&& off % sz == 0
        &&& off + sz <= cap
        &&& seg_free(before, off, sz)
        &&& forall|s: int| 0 <= s < off && s % sz == 0 ==> !#[trigger] seg_free(before, s, sz)
        &&& after == before.insert((off, sz))
    }
}

/// `freed` seen through addresses: address `ptr` inside the `cap` units of `e`
/// bytes from `base` frees the unit that holds it; any other address changes
/// nothing.
pub open spec fn freed_at(
    before: Set<(int, int)>,
    after: Set<(int, int)>,
    base: int,
    e: int,
    cap: int,
    ptr: int,
) -> bool {
    &&& !(base <= ptr < base + cap * e) ==> after == before
    &&& base <= ptr < base + cap * e ==> freed(before, after, (ptr - base) / e)
}

/// A buddy allocator placed at address `base`, whose units are `2^el_size` bytes.
pub struct Alloc {
    parent: BuddyAlloc,
    base: usize,
    el_size: usize,
}

impl Alloc {
    /// The allocator below is well formed and every unit's address fits a `usize`.
    pub closed spec fn wf(&self) -> bool {
        &&& self.parent.wf()
        &&& self.el_size < 32
        &&& self.base + self.parent.capacity() * p2(self.el_size as int) <= usize::MAX
    }

    /// An allocator at `base` over `parent`, with units of `2^el_size` bytes.
    pub fn new(parent: BuddyAlloc, base: usize, el_size: usize) -> (res: Alloc)
        requires
            parent.wf(),
            el_size < 32,
            base + parent.capacity() * p2(el_size as int) <= usize::MAX,
        ensures
            res.wf(),
            res.units() == parent@,
            res.base_of() == base,
            res.unit_bytes() == p2(el_size as int),
            res.unit_count() == parent.capacity(),
    {
        Alloc { parent, base, el_size }
    }

    /// Whether serving a request for `size` units would leave no unit free; see
    /// `BuddyAlloc::would_fill`.
    pub fn would_fill(&self, size: usize) -> (res: bool)
        requires
            self.wf(),
            size <= self.unit_count(),
        ensures
            res == !leaves_room(self.units(), self.unit_count(), request_size(size as nat)),
    {
        self.parent.would_fill(size)
    }
}

impl Allocator for Alloc {
    open spec fn ready(&self) -> bool {
        self.wf()
    }

    closed spec fn units(&self) -> Set<(int, int)> {
        self.parent@
    }

    closed spec fn base_of(&self) -> int {
        self.base as int
    }

    closed spec fn unit_bytes(&self) -> int {
        p2(self.el_size as int)
    }

    closed spec fn unit_count(&self) -> int {
        self.parent.capacity()
    }

    fn allocate(&mut self, size: usize) -> (res: (usize, usize)) {
        let (offset, size) = self.parent.allocate(size);
        proof {
            let e = p2(self.el_size as int);
            vstd::arithmetic::power2::lemma2_to64();
            lemma_p2_mono(self.parent.order_of() as int, 17);
            lemma_p2(self.el_size as int);
            assert(offset * e <= self.parent.capacity() * e) by (nonlinear_arith)
                requires
                    offset <= self.parent.capacity(),
                    e >= 1,
            ;
            assert(size * e <= self.parent.capacity() * e) by (nonlinear_arith)
                requires
                    size <= self.parent.capacity(),
                    e >= 1,
            ;
            vstd::bits::lemma_usize_shl_is_mul(offset, self.el_size);
            vstd::bits::lemma_usize_shl_is_mul(size, self.el_size);
            vstd::arithmetic::div_mod::lemma_div_multiples_vanish(offset as int, e);
            vstd::arithmetic::div_mod::lemma_mod_multiples_basic(offset as int, e);
            assert(offset * e == e * offset) by (nonlinear_arith);
            assert(size * e == 0 ==> size == 0) by (nonlinear_arith)
                requires
                    e >= 1,
            ;
        }
        (self.base + (offset << self.el_size), size << self.el_size)
    }

    fn free(&mut self, ptr: usize) {
        proof {
            vstd::arithmetic::power2::lemma2_to64();
            lemma_p2_mono(self.parent.order_of() as int, 17);
            lemma_p2(self.el_size as int);
            vstd::bits::lemma_usize_shl_is_mul(1, self.parent.order);
            vstd::bits::lemma_usize_shl_is_mul(
                (1usize << self.parent.order),
                self.el_size,
            );
        }
        let length = 1usize << self.parent.order << self.el_size;
        if ptr < self.base || ptr >= self.base + length {
            return;
        }
        let offset = (ptr - self.base) >> self.el_size;
        proof {
            vstd::bits::lemma_usize_shr_is_div((ptr - self.base) as usize, self.el_size);
            let e = p2(self.el_size as int);
            let c = self.parent.capacity();
            vstd::arithmetic::div_mod::lemma_div_is_ordered_by_denominator(0, 1, e);
            assert((ptr - self.base) / e < c) by {
                vstd::arithmetic::div_mod::lemma_div_by_multiple(c, e);
                vstd::arithmetic::div_mod::lemma_div_by_multiple_is_strongly_ordered(
                    (ptr - self.base) as int,
                    c * e,
                    c,
                    e,
                );
            }
        }
        self.parent.free(offset);
    }
}


/// Law: the blocks of a well-formed buddy allocator lie inside its range, are a
/// power of two long and start at a multiple of their length, no two of them
/// share a unit, and some unit is in none of them.
pub proof fn lemma_blocks_layout(a: BuddyAlloc)
    requires
        a.wf(),
    ensures
        has_room(a@, a.capacity()),
        forall|b: (int, int)| #[trigger]
            a@.contains(b) ==> 0 <= b.0 && 1 <= b.1 && b.0 + b.1 <= a.capacity(),
        forall|b: (int, int)| #[trigger]
            a@.contains(b) ==> is_buddy_block(b, 0, a.order_of() as int),
        forall|b1: (int, int), b2: (int, int)|
            #![trigger a@.contains(b1), a@.contains(b2)]
            a@.contains(b1) && a@.contains(b2) && b1 != b2 ==> !overlaps(b1, b2.0, b2.1),
{
    lemma_sub_range(a.tree@, 0, a.order as int, 0);
    lemma_sub_disjoint(a.tree@, 0, a.order as int, 0);
    lemma_sub_aligned(a.tree@, 0, a.order as int, 0);
}

/// Law: freeing the offset that `allocate` returned undoes that allocation: when
/// the block `(o, s)` was free in `before` and `mid` is `before` with it added, the
/// state that `free(o)` leaves, as its contract describes it, is `before` again.
pub proof fn lemma_free_undoes_allocate(
    before: Set<(int, int)>,
    mid: Set<(int, int)>,
    after: Set<(int, int)>,
    o: int,
    s: int,
)
    requires
        s >= 1,
        seg_free(before, o, s),
        mid == before.insert((o, s)),
        forall|b: (int, int)|
            #[trigger] mid.contains(b) && b.0 <= o < b.0 + b.1 ==> after == mid.remove(b),
    ensures
        after == before,
{
    assert(mid.contains((o, s)));
    assert(!before.contains((o, s))) by {
        if before.contains((o, s)) {
            assert(overlaps((o, s), o, s));
        }
    }
    assert(mid.remove((o, s)) =~= before);
}


/// Law: what `allocate` answers is fixed by the blocks before the call: two
/// answers to the same request from the same blocks are equal, and so are the
/// blocks after them.
pub proof fn lemma_allocate_determined(
    before: Set<(int, int)>,
    a1: Set<(int, int)>,
    a2: Set<(int, int)>,
    cap: int,
    size: nat,
    r1: (usize, usize),
    r2: (usize, usize),
)
    requires
        allocated(before, a1, cap, size, r1),
        allocated(before, a2, cap, size, r2),
    ensures
        r1 == r2,
        a1 == a2,
{
    let sz = request_size(size);
    if r1.1 != 0 && r2.1 != 0 {
        if r1.0 < r2.0 {
            assert(!seg_free(before, r1.0 as int, sz));
        } else if r2.0 < r1.0 {
            assert(!seg_free(before, r2.0 as int, sz));
        }
    } else if r1.1 != 0 {
        assert(!seg_free(before, r1.0 as int, sz));
    } else if r2.1 != 0 {
        assert(!seg_free(before, r2.0 as int, sz));
    }
}

/// Law: freeing the block that `allocate` handed out gives back the blocks from
/// before, and the same request then gets the same block again.
pub proof fn lemma_free_then_allocate_again(
    before: Set<(int, int)>,
    mid: Set<(int, int)>,
    after: Set<(int, int)>,
    again: Set<(int, int)>,
    cap: int,
    size: nat,
    r1: (usize, usize),
    r2: (usize, usize),
)
    requires
        allocated(before, mid, cap, size, r1),
        r1.1 != 0,
        freed(mid, after, r1.0 as int),
        allocated(after, again, cap, size, r2),
    ensures
        after == before,
        r2 == r1,
        again == mid,
{
    let sz = request_size(size);
    lemma_request_size_pos(size);
    lemma_free_undoes_allocate(before, mid, after, r1.0 as int, sz);
    lemma_allocate_determined(before, mid, again, cap, size, r1, r2);
}

/// Law: the same at the level of addresses: freeing the address that `allocate`
/// handed out gives back the blocks from before, and the same request then gets
/// the same address and length again.
pub proof fn lemma_free_then_allocate_again_at(
    before: Set<(int, int)>,
    mid: Set<(int, int)>,
    after: Set<(int, int)>,
    again: Set<(int, int)>,
    base: int,
    e: int,
    cap: int,
    size: nat,
    r1: (usize, usize),
    r2: (usize, usize),
)
    requires
        e >= 1,
        allocated_at(before, mid, base, e, cap, size, r1),
        r1.1 != 0,
        freed_at(mid, after, base, e, cap, r1.0 as int),
        allocated_at(after, again, base, e, cap, size, r2),
    ensures
        after == before,
        r2 == r1,
        again == mid,
{
    let sz = request_size(size);
    lemma_request_size_pos(size);
    let d = r1.0 - base;
    let off = d / e;
    vstd::arithmetic::div_mod::lemma_fundamental_div_mod(d, e);
    assert(d == e * off);
    assert(d < cap * e) by (nonlinear_arith)
        requires
            d == e * off,
            off + sz <= cap,
            sz >= 1,
            e >= 1,
    ;
    lemma_free_undoes_allocate(before, mid, after, off, sz);
    assert(after == before);
    if r2.1 == 0 {
        assert(!seg_free(before, off, sz));
    } else {
        let d2 = r2.0 - base;
        let off2 = d2 / e;
        vstd::arithmetic::div_mod::lemma_fundamental_div_mod(d2, e);
        vstd::arithmetic::div_mod::lemma_div_pos_is_pos(d2, e);
        vstd::arithmetic::div_mod::lemma_div_pos_is_pos(d, e);
        if off < off2 {
            assert(!seg_free(before, off, sz));
        } else if off2 < off {
            assert(!seg_free(before, off2, sz));
        }
        assert(off2 == off);
        assert(d2 == e * off2);
    }
}

/// A request is served by at least one unit.
proof fn lemma_request_size_pos(size: nat)
    ensures
        request_size(size) >= 1,
{
    lemma_p2(log2_ceil(size) as int);
}

/// Address of the kernel heap.
pub const HEAP_START: usize = 0x100_000;

/// The kernel heap spans `2^HEAP_ORDER` bytes.
pub const HEAP_ORDER: usize = 17;

/// Address of the first physical frame handed out by the frame allocator.
pub const FRAMES_START: usize = 0x200_000;

/// The frame allocator manages `2^FRAMES_ORDER` frames.
pub const FRAMES_ORDER: usize = 13;

/// A frame is `2^FRAME_SHIFT` bytes.
pub const FRAME_SHIFT: usize = 12;

/// The kernel heap: byte units from `HEAP_START`, with an empty tree in `storage`.
pub fn heap_allocator(storage: Bitv) -> (res: Alloc)
    requires
        storage.wf(),
    ensures
        res.wf(),
        res.units() == Set::<(int, int)>::empty(),
        res.base_of() == HEAP_START,
        res.unit_bytes() == 1,
        res.unit_count() == p2(HEAP_ORDER as int),
{
    proof {
        vstd::arithmetic::power2::lemma2_to64();
    }
    let parent = BuddyAlloc::new(HEAP_ORDER, storage);
    assert(parent.capacity() == 0x20000);
    assert(p2(0) == 1);
    Alloc::new(parent, HEAP_START, 0)
}

/// The physical frame allocator: 4 KiB frames from `FRAMES_START`, with an empty
/// tree in `storage`.
pub fn frame_allocator(storage: Bitv) -> (res: Alloc)
    requires
        storage.wf(),
    ensures
        res.wf(),
        res.units() == Set::<(int, int)>::empty(),
        res.base_of() == FRAMES_START,
        res.unit_bytes() == p2(FRAME_SHIFT as int),
        res.unit_count() == p2(FRAMES_ORDER as int),
{
    proof {
        vstd::arithmetic::power2::lemma2_to64();
    }
    let parent = BuddyAlloc::new(FRAMES_ORDER, storage);
    assert(parent.capacity() == 0x2000);
    assert(p2(12) == 0x1000);
    assert(0x2000 * 0x1000 == 0x200_0000) by (nonlinear_arith);
    Alloc::new(parent, FRAMES_START, FRAME_SHIFT)
}

/// The address of `count` fresh frames, or `None` when no block is free.
pub fn alloc_frames(frames: &mut Alloc, count: usize) -> (res: Option<usize>)
    requires
        old(frames).wf(),
        count <= old(frames).unit_count(),
        leaves_room(old(frames).units(), old(frames).unit_count(), request_size(count as nat)),
    ensures
        final(frames).wf(),
        final(frames).base_of() == old(frames).base_of(),
        final(frames).unit_bytes() == old(frames).unit_bytes(),
        final(frames).unit_count() == old(frames).unit_count(),
        ({
            let sz = request_size(count as nat);
            let e = old(frames).unit_bytes();
            let base = old(frames).base_of();
            &&& res is None ==> {
                &&& final(frames).units() == old(frames).units()
                &&& forall|s: int|
                    0 <= s && s + sz <= old(frames).unit_count() && s % sz == 0
                        ==> !#[trigger] seg_free(old(frames).units(), s, sz)
            }
            &&& res matches Some(ptr) ==> {
                let off = (ptr - base) / e;
                &&& ptr >= base
                &&& (ptr - base) % e == 0
                &&& off % sz == 0
                &&& off + sz <= old(frames).unit_count()
                &&& seg_free(old(frames).units(), off, sz)
                &&& forall|s: int|
                    0 <= s < off && s % sz == 0 ==> !#[trigger] seg_free(
                        old(frames).units(),
                        s,
                        sz,
                    )
                &&& final(frames).units() == old(frames).units().insert((off, sz))
            }
        }),
{
    let (ptr, size) = frames.allocate(count);
    if size == 0 {
        None
    } else {
        Some(ptr)
    }
}

} // verus!
