use vstd::prelude::*;

verus! {

// An in-memory file tree: every node is a directory or a file (a leaf), with a
// name, the indices of its children and, for a file, its contents. Paths are
// names separated by `/`.

/// One file or directory.
pub struct FsNode {
    pub name: Vec<u8>,
    pub is_leaf: bool,
    pub children: Vec<usize>,
    pub contents: Vec<u8>,
}

/// The nodes of a file tree; node 0 is the root directory.
pub struct FileTree {
    pub nodes: Vec<FsNode>,
}

/// The byte `/`.
pub open spec fn slash() -> u8 {
    47u8
}

/// Index of the first `/` of `p` at or after `i`, or `p.len()` when there is none.
pub open spec fn first_slash(p: Seq<u8>, i: int) -> int
    decreases p.len() - i,
{
    if i >= p.len() {
        p.len() as int
    } else if p[i] == slash() {
        i
    } else {
        first_slash(p, i + 1)
    }
}

/// The first of `ch[k..]` whose node is named `name`.
pub open spec fn find_from(t: Seq<FsNode>, ch: Seq<usize>, name: Seq<u8>, k: int) -> Option<int>
    decreases ch.len() - k,
{
    if k < 0 || k >= ch.len() {
        None
    } else if ch[k] < t.len() && t[ch[k] as int].name@ == name {
        Some(ch[k] as int)
    } else {
        find_from(t, ch, name, k + 1)
    }
}

/// The node that path `p`, read from position `s` on, leads to from `node`:
/// the walk stops at a file or at the end of the path. The result tells the node,
/// whether it is a file, and whether the whole path was used; `None` when a name
/// on the way is missing.
pub open spec fn open_at(t: Seq<FsNode>, node: int, p: Seq<u8>, s: int) -> Option<(int, bool, bool)>
    decreases p.len() - s,
{
    if node < 0 || node >= t.len() {
        None
    } else if t[node].is_leaf || s >= p.len() {
        Some((node, t[node].is_leaf, s >= p.len()))
    } else {
        let e = first_slash(p, s);
        let next = if e < p.len() {
            e + 1
        } else {
            e
        };
        match find_from(t, t[node].children@, p.subrange(s, e), 0) {
            Some(c) => if s < next <= p.len() {
                open_at(t, c, p, next)
            } else {
                None
            },
            None => None,
        }
    }
}

proof fn lemma_first_slash(p: Seq<u8>, i: int)
    requires
        0 <= i <= p.len(),
    ensures
        i <= first_slash(p, i) <= p.len(),
        first_slash(p, i) < p.len() ==> p[first_slash(p, i)] == slash(),
        forall|j: int| i <= j < first_slash(p, i) ==> p[j] != slash(),
    decreases p.len() - i,
{
    if i < p.len() && p[i] != slash() {
        lemma_first_slash(p, i + 1);
    }
}

/// The node that a walk ends at is a node of the tree.
proof fn lemma_open_in_range(t: Seq<FsNode>, node: int, p: Seq<u8>, s: int)
    requires
        open_at(t, node, p, s) is Some,
    ensures
        ({
            let r = open_at(t, node, p, s)->0;
            0 <= r.0 < t.len() && r.1 == t[r.0].is_leaf
        }),
    decreases p.len() - s,
{
    if 0 <= node < t.len() && !(t[node].is_leaf || s >= p.len()) {
        let e = first_slash(p, s);
        let next = if e < p.len() {
            e + 1
        } else {
            e
        };
        match find_from(t, t[node].children@, p.subrange(s, e), 0) {
            Some(c) => {
                if s < next <= p.len() {
                    lemma_open_in_range(t, c, p, next);
                }
            },
            None => {},
        }
    }
}

impl FileTree {
    /// Every child index names a node.
    pub open spec fn wf(&self) -> bool {
        forall|i: int, k: int|
            0 <= i < self.nodes@.len() && 0 <= k < self.nodes@[i].children@.len()
                ==> #[trigger] self.nodes@[i].children@[k] < self.nodes@.len()
    }

    /// A tree with an empty root directory only.
    pub fn new() -> (res: FileTree)
        ensures
            res.wf(),
            res.nodes@.len() == 1,
            res.nodes@[0].name@ == Seq::<u8>::empty(),
            !res.nodes@[0].is_leaf,
            res.nodes@[0].children@ == Seq::<usize>::empty(),
            res.nodes@[0].contents@ == Seq::<u8>::empty(),
    {
        let root = FsNode {
            name: Vec::new(),
            is_leaf: false,
            children: Vec::new(),
            contents: Vec::new(),
        };
        let mut nodes: Vec<FsNode> = Vec::new();
        nodes.push(root);
        FileTree { nodes }
    }
}

/// Whether `name` equals `p[s..e]`.
fn name_eq(name: &Vec<u8>, p: &[u8], s: usize, e: usize) -> (res: bool)
    requires
        s <= e <= p@.len(),
    ensures
        res == (name@ == p@.subrange(s as int, e as int)),
{
    if name.len() != e - s {
        return false;
    }
    let mut k: usize = 0;
    while k < name.len()
        invariant
            name@.len() == e - s,
            s <= e <= p@.len(),
            k <= name@.len(),
            forall|j: int| 0 <= j < k ==> name@[j] == p@[s + j],
        decreases name@.len() - k,
    {
        if name[k] != p[s + k] {
            return false;
        }
        k += 1;
    }
    assert(name@ =~= p@.subrange(s as int, e as int));
    true
}

/// The node that `path` leads to from `node`, whether it is a file, and
/// whether the whole path was used; `None` when a name on the way is missing.
pub fn open(tree: &FileTree, node: usize, path: &[u8]) -> (res: Option<(usize, bool, bool)>)
    requires
        tree.wf(),
        node < tree.nodes@.len(),
    ensures
        match res {
            Some(r) => open_at(tree.nodes@, node as int, path@, 0) == Some(
                (r.0 as int, r.1, r.2),
            ),
            None => open_at(tree.nodes@, node as int, path@, 0) is None,
        },
{
    let ghost t = tree.nodes@;
    let mut cur: usize = node;
    let mut start: usize = 0;
    loop
        invariant
            tree.wf(),
            t == tree.nodes@,
            cur < t.len(),
            start <= path@.len(),
            open_at(t, node as int, path@, 0) == open_at(t, cur as int, path@, start as int),
        decreases path@.len() - start,
    {
        let leaf = tree.nodes[cur].is_leaf;
        if leaf || start == path.len() {
            return Some((cur, leaf, start == path.len()));
        }
        let mut e: usize = start;
        while e < path.len() && path[e] != 47u8
            invariant
                start <= e <= path@.len(),
                first_slash(path@, start as int) == first_slash(path@, e as int),
            decreases path@.len() - e,
        {
            e += 1;
        }
        let next: usize = if e < path.len() {
            e + 1
        } else {
            e
        };
        let ghost name = path@.subrange(start as int, e as int);
        let ghost ch = t[cur as int].children@;
        let mut k: usize = 0;
        let mut found: Option<usize> = None;
        while k < tree.nodes[cur].children.len()
            invariant_except_break
                tree.wf(),
                t == tree.nodes@,
                cur < t.len(),
                ch == t[cur as int].children@,
                k <= ch.len(),
                start <= e <= path@.len(),
                name == path@.subrange(start as int, e as int),
                found is None,
                find_from(t, ch, name, 0) == find_from(t, ch, name, k as int),
            ensures
                tree.wf(),
                t == tree.nodes@,
                cur < t.len(),
                start <= e <= path@.len(),
                match found {
                    Some(c) => c < t.len() && find_from(t, ch, name, 0) == Some(c as int),
                    None => find_from(t, ch, name, 0) is None,
                },
            decreases ch.len() - k,
        {
            let c = tree.nodes[cur].children[k];
            assert(c < t.len());
            if name_eq(&tree.nodes[c].name, path, start, e) {
                found = Some(c);
                break;
            }
            k += 1;
        }
        proof {
            assert(first_slash(path@, start as int) == e);
        }
        match found {
            None => {
                return None;
            },
            Some(c) => {
                cur = c;
                start = next;
            },
        }
    }
}

/// Appends `content` to the contents of the node that `file` leads to from
/// `node`; `false`, and nothing changed, when a name on the way is missing.
pub fn append(tree: &mut FileTree, node: usize, file: &[u8], content: &[u8]) -> (res: bool)
    requires
        old(tree).wf(),
        node < old(tree).nodes@.len(),
    ensures
        final(tree).wf(),
        match open_at(old(tree).nodes@, node as int, file@, 0) {
            Some(r) => {
                &&& res
                &&& final(tree).nodes@.len() == old(tree).nodes@.len()
                &&& forall|k: int|
                    0 <= k < old(tree).nodes@.len() && k != r.0 ==> #[trigger] final(tree).nodes@[k] == old(tree).nodes@[k]
                &&& final(tree).nodes@[r.0].name@ == old(tree).nodes@[r.0].name@
                &&& final(tree).nodes@[r.0].is_leaf == old(tree).nodes@[r.0].is_leaf
                &&& final(tree).nodes@[r.0].children@ == old(tree).nodes@[r.0].children@
                &&& final(tree).nodes@[r.0].contents@ == old(tree).nodes@[r.0].contents@
                    + content@
            },
            None => !res && final(tree).nodes@ == old(tree).nodes@,
        },
{
    let f = match open(tree, node, file) {
        None => {
            return false;
        },
        Some((f, _, _)) => f,
    };
    proof {
        lemma_open_in_range(tree.nodes@, node as int, file@, 0);
    }
    let ghost t0 = tree.nodes@;
    let mut n = tree.nodes.remove(f);
    let ghost c0 = n.contents@;
    let ghost ch0 = n.children@;
    assert(ch0 == t0[f as int].children@);
    let mut x: usize = 0;
    while x < content.len()
        invariant
            x <= content@.len(),
            n.contents@ == c0 + content@.subrange(0, x as int),
            n.children@ == ch0,
            n.name@ == t0[f as int].name@,
            n.is_leaf == t0[f as int].is_leaf,
        decreases content@.len() - x,
    {
        n.contents.push(content[x]);
        x += 1;
        assert(n.contents@ =~= c0 + content@.subrange(0, x as int));
    }
    assert(content@.subrange(0, content@.len() as int) =~= content@);
    tree.nodes.insert(f, n);
    proof {
        assert forall|k: int| 0 <= k < t0.len() && k != f implies #[trigger] tree.nodes@[k]
            == t0[k] by {
            if k < f {
            } else {
            }
        }
        assert forall|i: int, k: int|
            0 <= i < tree.nodes@.len() && 0 <= k < tree.nodes@[i].children@.len()
                implies #[trigger] tree.nodes@[i].children@[k] < tree.nodes@.len() by {
            if i != f {
                assert(tree.nodes@[i] == t0[i]);
                assert(t0[i].children@[k] < t0.len());
            } else {
                assert(t0[i].children@[k] < t0.len());
            }
        }
    }
    true
}

/// Creates an empty file named `name` in the directory that `dir` leads to
/// from `node`, as the new last node; `false`, and nothing changed, when the
/// path does not lead to a directory.
pub fn new(tree: &mut FileTree, node: usize, dir: &[u8], name: &[u8]) -> (res: bool)
    requires
        old(tree).wf(),
        node < old(tree).nodes@.len(),
        old(tree).nodes@.len() < usize::MAX,
    ensures
        final(tree).wf(),
        match open_at(old(tree).nodes@, node as int, dir@, 0) {
            Some(r) if !r.1 => {
                let n = old(tree).nodes@.len() as int;
                &&& res
                &&& final(tree).nodes@.len() == n + 1
                &&& forall|k: int|
                    0 <= k < n && k != r.0 ==> #[trigger] final(tree).nodes@[k] == old(tree).nodes@[k]
                &&& final(tree).nodes@[r.0].name@ == old(tree).nodes@[r.0].name@
                &&& final(tree).nodes@[r.0].is_leaf == old(tree).nodes@[r.0].is_leaf
                &&& final(tree).nodes@[r.0].contents@ == old(tree).nodes@[r.0].contents@
                &&& final(tree).nodes@[r.0].children@ == old(tree).nodes@[r.0].children@.push(
                    n as usize,
                )
                &&& final(tree).nodes@[n].name@ == name@
                &&& final(tree).nodes@[n].is_leaf
                &&& final(tree).nodes@[n].children@ == Seq::<usize>::empty()
                &&& final(tree).nodes@[n].contents@ == Seq::<u8>::empty()
            },
            _ => !res && final(tree).nodes@ == old(tree).nodes@,
        },
{
    let d = match open(tree, node, dir) {
        None => {
            return false;
        },
        Some((d, leaf, _)) => {
            if leaf {
                return false;
            }
            d
        },
    };
    proof {
        lemma_open_in_range(tree.nodes@, node as int, dir@, 0);
    }
    let ghost t0 = tree.nodes@;
    let idx = tree.nodes.len();
    let mut nm: Vec<u8> = Vec::new();
    let mut x: usize = 0;
    while x < name.len()
        invariant
            x <= name@.len(),
            nm@ == name@.subrange(0, x as int),
        decreases name@.len() - x,
    {
        nm.push(name[x]);
        x += 1;
        assert(nm@ =~= name@.subrange(0, x as int));
    }
    assert(name@.subrange(0, name@.len() as int) =~= name@);
    let mut dn = tree.nodes.remove(d);
    dn.children.push(idx);
    tree.nodes.insert(d, dn);
    tree.nodes.push(FsNode { name: nm, is_leaf: true, children: Vec::new(), contents: Vec::new() });
    proof {
        assert forall|k: int| 0 <= k < t0.len() && k != d implies #[trigger] tree.nodes@[k]
            == t0[k] by {
            if k < d {
            } else {
            }
        }
        assert forall|i: int, k: int|
            0 <= i < tree.nodes@.len() && 0 <= k < tree.nodes@[i].children@.len()
                implies #[trigger] tree.nodes@[i].children@[k] < tree.nodes@.len() by {
            if i == idx {
            } else if i != d {
                assert(tree.nodes@[i] == t0[i]);
                assert(t0[i].children@[k] < t0.len());
            } else if k < t0[i].children@.len() {
                assert(t0[i].children@[k] < t0.len());
            }
        }
    }
    true
}



/// The nodes `t1` has in common with `t0`: `t1` is `t0` with node `n` added at
/// the end and `n` appended to the children of directory `d`.
pub open spec fn grown_by(t0: Seq<FsNode>, t1: Seq<FsNode>, d: int, n: int) -> bool {
    &&& n == t0.len()
    &&& t1.len() == n + 1
    &&& 0 <= d < n
    &&& forall|k: int| 0 <= k < n && k != d ==> #[trigger] t1[k] == t0[k]
    &&& t1[d].name@ == t0[d].name@
    &&& t1[d].is_leaf == t0[d].is_leaf
    &&& t1[d].children@ == t0[d].children@.push(n as usize)
}

proof fn lemma_find_names(t0: Seq<FsNode>, t1: Seq<FsNode>, ch: Seq<usize>, name: Seq<u8>, k: int)
    requires
        t0.len() <= t1.len(),
        forall|i: int| 0 <= i < t0.len() ==> #[trigger] t1[i].name@ == t0[i].name@,
        forall|i: int| 0 <= i < ch.len() ==> #[trigger] ch[i] < t0.len(),
    ensures
        find_from(t1, ch, name, k) == find_from(t0, ch, name, k),
    decreases ch.len() - k,
{
    if 0 <= k < ch.len() {
        lemma_find_names(t0, t1, ch, name, k + 1);
    }
}

proof fn lemma_find_push(t: Seq<FsNode>, ch: Seq<usize>, x: usize, name: Seq<u8>, k: int)
    requires
        0 <= k <= ch.len(),
    ensures
        find_from(t, ch.push(x), name, k) == match find_from(t, ch, name, k) {
            Some(c) => Some(c),
            None => if x < t.len() && t[x as int].name@ == name {
                Some(x as int)
            } else {
                None
            },
        },
    decreases ch.len() - k,
{
    if k < ch.len() {
        assert(ch.push(x)[k] == ch[k]);
        lemma_find_push(t, ch, x, name, k + 1);
    } else {
        assert(ch.push(x)[k] == x);
        assert(find_from(t, ch.push(x), name, k + 1) is None);
    }
}

/// A walk that succeeds in `t0` goes the same way in the grown tree `t1`.
proof fn lemma_walk_grown(
    t0: Seq<FsNode>,
    t1: Seq<FsNode>,
    d: int,
    n: int,
    node: int,
    p: Seq<u8>,
    s: int,
)
    requires
        grown_by(t0, t1, d, n),
        forall|i: int, k: int|
            0 <= i < t0.len() && 0 <= k < t0[i].children@.len() ==> #[trigger] t0[i].children@[k]
                < t0.len(),
        open_at(t0, node, p, s) is Some,
    ensures
        open_at(t1, node, p, s) == open_at(t0, node, p, s),
    decreases p.len() - s,
{
    if 0 <= node < t0.len() && !(t0[node].is_leaf || s >= p.len()) {
        assert forall|i: int| 0 <= i < t0.len() implies #[trigger] t1[i].name@ == t0[i].name@ by {
            if i != d {
                assert(t1[i] == t0[i]);
            }
        }
        let e = first_slash(p, s);
        let next = if e < p.len() {
            e + 1
        } else {
            e
        };
        let comp = p.subrange(s, e);
        let ch0 = t0[node].children@;
        assert forall|i: int| 0 <= i < ch0.len() implies #[trigger] ch0[i] < t0.len() by {
        }
        lemma_find_names(t0, t1, ch0, comp, 0);
        if node == d {
            lemma_find_push(t1, ch0, n as usize, comp, 0);
        } else {
            assert(t1[node] == t0[node]);
        }
        match find_from(t0, ch0, comp, 0) {
            Some(c) => {
                if s < next <= p.len() {
                    lemma_walk_grown(t0, t1, d, n, c, p, next);
                }
            },
            None => {},
        }
    }
}

/// `/` positions of `q` and of `q + "/" + name` agree inside `q`.
proof fn lemma_slash_prefix(q: Seq<u8>, name: Seq<u8>, i: int)
    requires
        0 <= i <= q.len(),
    ensures
        ({
            let p = q + seq![slash()] + name;
            first_slash(p, i) == first_slash(q, i)
        }),
    decreases q.len() - i,
{
    let p = q + seq![slash()] + name;
    if i < q.len() {
        assert(p[i] == q[i]);
        lemma_slash_prefix(q, name, i + 1);
    } else {
        assert(p[i] == slash());
    }
}

/// A walk along `q` that ends at directory `d` with all of `q` used continues
/// along `q + "/" + name` from `d`, just past the separating `/`.
proof fn lemma_walk_prefix(t: Seq<FsNode>, node: int, q: Seq<u8>, name: Seq<u8>, s: int, d: int)
    requires
        0 <= s < q.len(),
        q[q.len() - 1] != slash(),
        open_at(t, node, q, s) == Some((d, false, true)),
    ensures
        open_at(t, node, q + seq![slash()] + name, s) == open_at(
            t,
            d,
            q + seq![slash()] + name,
            q.len() + 1 as int,
        ),
    decreases q.len() - s,
{
    let p = q + seq![slash()] + name;
    lemma_slash_prefix(q, name, s);
    lemma_first_slash(q, s);
    let e = first_slash(q, s);
    assert(p.subrange(s, e) =~= q.subrange(s, e));
    let c_opt = find_from(t, t[node].children@, q.subrange(s, e), 0);
    if e < q.len() {
        assert(e + 1 < q.len()) by {
            if e + 1 == q.len() {
                assert(q[e] == slash());
            }
        }
        match c_opt {
            Some(c) => {
                lemma_walk_prefix(t, c, q, name, e + 1, d);
            },
            None => {},
        }
    } else {
        match c_opt {
            Some(c) => {
                assert(open_at(t, c, q, q.len() as int) == Some((c, t[c].is_leaf, true)));
            },
            None => {},
        }
    }
}

/// Law: the file that `new` makes is where `open` looks for it. When `t1` is `t0`
/// after `new(t0, node, dir, name)` created node `n` in directory `d`, the path
/// `dir + "/" + name` leads from `node` to the new file, provided `dir` does not
/// end in `/`, `name` is a non-empty name without `/`, and no entry of `d` had
/// that name already.
pub proof fn lemma_new_then_open(
    t0: FileTree,
    t1: FileTree,
    node: usize,
    dir: Seq<u8>,
    name: Seq<u8>,
    d: int,
)
    requires
        t0.wf(),
        node < t0.nodes@.len(),
        t0.nodes@.len() < usize::MAX,
        dir.len() > 0,
        dir[dir.len() - 1] != slash(),
        name.len() > 0,
        forall|i: int| 0 <= i < name.len() ==> #[trigger] name[i] != slash(),
        open_at(t0.nodes@, node as int, dir, 0) == Some((d, false, true)),
        grown_by(t0.nodes@, t1.nodes@, d, t0.nodes@.len() as int),
        find_from(t0.nodes@, t0.nodes@[d].children@, name, 0) is None,
        t1.nodes@[t0.nodes@.len() as int].name@ == name,
        t1.nodes@[t0.nodes@.len() as int].is_leaf,
    ensures
        open_at(t1.nodes@, node as int, dir + seq![slash()] + name, 0) == Some(
            (t0.nodes@.len() as int, true, true),
        ),
{
    let a = t0.nodes@;
    let b = t1.nodes@;
    let n = a.len() as int;
    let p = dir + seq![slash()] + name;
    lemma_walk_grown(a, b, d, n, node as int, dir, 0);
    lemma_walk_prefix(b, node as int, dir, name, 0, d);
    let s = dir.len() + 1 as int;
    assert(first_slash(p, s) == p.len()) by {
        assert forall|i: int| s <= i < p.len() implies p[i] != slash() by {
            assert(p[i] == name[i - s]);
        }
        lemma_no_slash(p, s);
    }
    assert(p.subrange(s, p.len() as int) =~= name);
    assert(b[d].children@ == a[d].children@.push(n as usize));
    lemma_find_push(b, a[d].children@, n as usize, name, 0);
    assert forall|i: int| 0 <= i < a.len() implies #[trigger] b[i].name@ == a[i].name@ by {
        if i != d {
            assert(b[i] == a[i]);
        }
    }
    assert forall|i: int| 0 <= i < a[d].children@.len() implies #[trigger] a[d].children@[i]
        < a.len() by {
    }
    lemma_find_names(a, b, a[d].children@, name, 0);
    lemma_open_in_range(a, node as int, dir, 0);
    assert(!b[d].is_leaf);
    assert((n as usize) as int == n);
    assert(find_from(b, a[d].children@, name, 0) is None);
    assert(p.subrange(s, p.len() as int) == name);
    assert(find_from(b, b[d].children@, p.subrange(s, p.len() as int), 0) == Some(n));
    assert(open_at(b, n, p, p.len() as int) == Some((n, true, true)));
    assert(open_at(b, d, p, s) == Some((n, true, true)));
}

proof fn lemma_no_slash(p: Seq<u8>, s: int)
    requires
        0 <= s <= p.len(),
        forall|i: int| s <= i < p.len() ==> p[i] != slash(),
    ensures
        first_slash(p, s) == p.len(),
    decreases p.len() - s,
{
    if s < p.len() {
        lemma_no_slash(p, s + 1);
    }
}

} // verus!
