//! The tree model: node type, builder, and the laws the builder obeys.

use vstd::prelude::*;

use crate::paths::{
    base_name, dir_flag, has_extension, is_cut, known_dir, lemma_lex_asym, lemma_lex_connected,
    lemma_lex_trans, lex_lt, no_slash, node_path,
};
use vstd::string::StrSliceExecFns;

verus! {

broadcast use vstd::std_specs::vec::group_vec_axioms, vstd::seq::group_seq_axioms;

/// A node of the reconstructed tree: its full path relative to the root,
/// its directory flag, and its exclusively owned children.
#[derive(Debug)]
pub struct TreeNode {
    pub path: String,
    pub is_dir: bool,
    pub children: Vec<TreeNode>,
}

/// The mathematical shape of a tree node.
#[verifier::ext_equal]
pub struct Tree {
    pub path: Seq<char>,
    pub is_dir: bool,
    pub children: Seq<Tree>,
}

/// The abstraction of an executable node: paths become character sequences.
pub open spec fn tree_view(node: TreeNode) -> Tree
    decreases node,
{
    Tree {
        path: node.path@,
        is_dir: node.is_dir,
        children: Seq::new(
            node.children@.len(),
            |i: int|
                if 0 <= i < node.children@.len() {
                    tree_view(node.children@[i])
                } else {
                    Tree { path: Seq::empty(), is_dir: false, children: Seq::empty() }
                },
        ),
    }
}

impl View for TreeNode {
    type V = Tree;

    open spec fn view(&self) -> Tree {
        tree_view(*self)
    }
}

impl TreeNode {
    /// A fresh node with no children.
    pub fn new(path: String, is_dir: bool) -> (node: Self)
        ensures
            node@.path == path@,
            node@.is_dir == is_dir,
            node@.children.len() == 0,
    {
        TreeNode { path, is_dir, children: Vec::new() }
    }
}

/// The sibling order: directories before files, ties broken by the full
/// path, lexicographically.
pub open spec fn node_lt(a: Tree, b: Tree) -> bool {
    (a.is_dir && !b.is_dir) || (a.is_dir == b.is_dir && lex_lt(a.path, b.path))
}

/// `q` can stand as a child path under a node with path `r`: it extends `r`
/// by a separator and one further segment. Children of the root carry their
/// single segment as the whole path.
pub open spec fn child_path(r: Seq<char>, q: Seq<char>) -> bool {
    &&& r.len() < q.len()
    &&& q.take(r.len() as int) == r
    &&& q[r.len() as int] == '/'
    &&& no_slash(q.skip(r.len() as int + 1))
}

/// The child-path shape under a node, with the root's special case.
pub open spec fn child_slot(r: Seq<char>, is_root: bool, q: Seq<char>) -> bool {
    if is_root {
        no_slash(q)
    } else {
        child_path(r, q)
    }
}

/// Some element of `cs` has path `q`.
pub open spec fn seq_has_path(cs: Seq<Tree>, q: Seq<char>) -> bool {
    exists|i: int| 0 <= i < cs.len() && (#[trigger] cs[i]).path == q
}

/// Some direct child of `t` has path `q`.
pub open spec fn has_child(t: Tree, q: Seq<char>) -> bool {
    seq_has_path(t.children, q)
}

/// The tree below `t` holds exactly the nodes that the paths of `ins`
/// contribute, with directory flags drawn from the full input set `all`,
/// every level sorted. `build_tree` establishes it with `ins == all`; during
/// construction `ins` is the part of the input already inserted.
pub open spec fn repr(t: Tree, ins: Set<Seq<char>>, all: Set<Seq<char>>, is_root: bool) -> bool
    decreases t,
{
    &&& if is_root {
        t.path == Seq::<char>::empty() && t.is_dir
    } else {
        t.is_dir == dir_flag(all, t.path)
    }
    &&& forall|i: int|
        0 <= i < t.children.len() ==> node_path(ins, (#[trigger] t.children[i]).path)
            && child_slot(t.path, is_root, t.children[i].path)
    &&& forall|q: Seq<char>|
        node_path(ins, q) && #[trigger] child_slot(t.path, is_root, q) ==> has_child(t, q)
    &&& forall|i: int, j: int|
        0 <= i < j < t.children.len() ==> (#[trigger] t.children[i]).path != (
        #[trigger] t.children[j]).path
    &&& forall|i: int, j: int|
        0 <= i < j < t.children.len() ==> node_lt(t.children[i], t.children[j])
    &&& forall|i: int| 0 <= i < t.children.len() ==> repr(#[trigger] t.children[i], ins, all, false)
}

/// The views of a sequence of path strings, as a set: the input to the
/// builder, with order and duplication forgotten.
pub open spec fn path_set(ss: Seq<String>) -> Set<Seq<char>> {
    Set::new(|q: Seq<char>| exists|i: int| 0 <= i < ss.len() && (#[trigger] ss[i])@ == q)
}

/// The tree a path list determines: the root is a directory with an empty
/// path, and below it stand exactly the contributed nodes, sorted.
pub open spec fn canonical(t: Tree, pset: Set<Seq<char>>) -> bool {
    repr(t, pset, pset, true)
}

/// Some element of `ds` views to `q`.
pub open spec fn vec_has(ds: Seq<String>, q: Seq<char>) -> bool {
    exists|i: int| 0 <= i < ds.len() && (#[trigger] ds[i])@ == q
}

/// `ds` lists exactly the known directories of the input set.
pub open spec fn dirs_ok(ds: Seq<String>, all: Set<Seq<char>>) -> bool {
    forall|q: Seq<char>| #[trigger] vec_has(ds, q) <==> known_dir(all, q)
}

/// A view of an executable node agrees with the views of its child vector.
proof fn lemma_view_children(node: TreeNode)
    ensures
        node@.children.len() == node.children@.len(),
        forall|i: int|
            0 <= i < node.children@.len() ==> node@.children[i] == (
            #[trigger] node.children@[i])@,
{
}

/// Adding one path to the input set adds exactly its cut prefixes to the
/// node paths.
proof fn lemma_node_path_insert(ins: Set<Seq<char>>, p: Seq<char>, q: Seq<char>)
    ensures
        node_path(ins.insert(p), q) <==> (node_path(ins, q) || exists|k: int|
            #[trigger] is_cut(p, k) && q == p.take(k)),
{
    if node_path(ins.insert(p), q) {
        let (p0, k0): (Seq<char>, int) = choose|p0: Seq<char>, k0: int|
            ins.insert(p).contains(p0) && #[trigger] is_cut(p0, k0) && q == p0.take(k0);
        if p0 == p {
            assert(is_cut(p, k0) && q == p.take(k0));
        } else {
            assert(ins.contains(p0));
            assert(node_path(ins, q));
        }
    }
    if node_path(ins, q) {
        let (p0, k0): (Seq<char>, int) = choose|p0: Seq<char>, k0: int|
            ins.contains(p0) && #[trigger] is_cut(p0, k0) && q == p0.take(k0);
        assert(ins.insert(p).contains(p0));
        assert(node_path(ins.insert(p), q));
    }
    if exists|k: int| #[trigger] is_cut(p, k) && q == p.take(k) {
        let k0: int = choose|k0: int| #[trigger] is_cut(p, k0) && q == p.take(k0);
        assert(ins.insert(p).contains(p));
        assert(node_path(ins.insert(p), q));
    }
}

/// The parent of a cut prefix is the previous cut: whoever holds a cut
/// prefix as a child sits on the path's chain itself.
proof fn lemma_chain_parent(p: Seq<char>, k: int, r: Seq<char>)
    requires
        is_cut(p, k),
        child_path(r, p.take(k)),
    ensures
        r.len() < k,
        is_cut(p, r.len() as int),
        r == p.take(r.len() as int),
        forall|m: int| r.len() < m < k ==> !is_cut(p, m),
{
    let q = p.take(k);
    let rl = r.len() as int;
    assert(q.len() == k);
    assert(q.take(rl) =~= p.take(rl));
    assert(p[rl] == q[rl]);
    assert forall|m: int| rl < m < k implies !is_cut(p, m) by {
        assert(q.skip(rl + 1)[m - rl - 1] == q[m]);
        assert(p[m] == q[m]);
    }
}

/// Among the cuts of `p`, only one yields a child path of the node at the
/// cut `start - 1` (or of the root, for `start == 0`): the next cut.
proof fn lemma_cut_slot_unique(p: Seq<char>, start: int, k: int, k0: int)
    requires
        0 <= start <= k <= p.len(),
        is_cut(p, k),
        forall|m: int| start <= m < k ==> p[m] != '/',
        is_cut(p, k0),
        child_slot(if start == 0 {
            Seq::empty()
        } else {
            p.take(start - 1)
        }, start == 0, p.take(k0)),
    ensures
        k0 == k,
{
    let q = p.take(k0);
    assert(q.len() == k0);
    if start == 0 {
        if k0 > k {
            assert(q[k] == p[k]);
            assert(false);
        }
        if k0 < k {
            assert(q[k0] == p[k0]);
            assert(p[k0] != '/');
            assert(false);
        }
    } else {
        let r = p.take(start - 1);
        lemma_chain_parent(p, k0, r);
        assert(r.len() == start - 1);
        assert(k0 >= start);
        if k0 > k {
            assert(is_cut(p, k));
            assert(false);
        }
        if k0 < k {
            assert(p[k0] != '/');
            assert(k0 < p.len());
            assert(false);
        }
    }
}

/// Growing the inserted set by a path whose chain does not pass through a
/// subtree leaves that subtree's description intact.
proof fn lemma_repr_grow(t: Tree, ins: Set<Seq<char>>, all: Set<Seq<char>>, p: Seq<char>)
    requires
        repr(t, ins, all, false),
        (forall|k: int| #[trigger] is_cut(p, k) ==> p.take(k) != t.path) || (forall|k: int|
            #[trigger] is_cut(p, k) ==> k <= t.path.len()),
    ensures
        repr(t, ins.insert(p), all, false),
    decreases t,
{
    let ins2 = ins.insert(p);
    assert forall|i: int| 0 <= i < t.children.len() implies node_path(
        ins2,
        (#[trigger] t.children[i]).path,
    ) && child_slot(t.path, false, t.children[i].path) by {
        lemma_node_path_insert(ins, p, t.children[i].path);
    }
    assert forall|q: Seq<char>|
        node_path(ins2, q) && #[trigger] child_slot(t.path, false, q) implies has_child(t, q) by {
        lemma_node_path_insert(ins, p, q);
        if !node_path(ins, q) {
            let k0: int = choose|k0: int| #[trigger] is_cut(p, k0) && q == p.take(k0);
            lemma_chain_parent(p, k0, t.path);
            if forall|k: int| #[trigger] is_cut(p, k) ==> p.take(k) != t.path {
                assert(is_cut(p, t.path.len() as int) && p.take(t.path.len() as int) == t.path);
                assert(false);
            } else {
                assert(k0 <= t.path.len());
                assert(q.len() == k0);
                assert(false);
            }
        }
    }
    assert forall|i: int| 0 <= i < t.children.len() implies repr(
        #[trigger] t.children[i],
        ins2,
        all,
        false,
    ) by {
        let c = t.children[i];
        assert(child_slot(t.path, false, c.path));
        assert forall|k: int| #[trigger] is_cut(p, k) implies p.take(k) != c.path by {
            if p.take(k) == c.path {
                lemma_chain_parent(p, k, t.path);
                if forall|k2: int| #[trigger] is_cut(p, k2) ==> p.take(k2) != t.path {
                    assert(is_cut(p, t.path.len() as int) && p.take(t.path.len() as int)
                        == t.path);
                    assert(false);
                } else {
                    assert(k <= t.path.len());
                    assert(p.take(k).len() == k);
                    assert(c.path.len() > t.path.len());
                    assert(false);
                }
            }
        }
        lemma_repr_grow(c, ins, all, p);
    }
}

/// Irreflexivity and asymmetry of the sibling order.
proof fn lemma_node_lt_asym(a: Tree, b: Tree)
    requires
        node_lt(a, b),
    ensures
        !node_lt(b, a),
        !(a.is_dir == b.is_dir && a.path == b.path),
{
    if a.is_dir == b.is_dir {
        lemma_lex_asym(a.path, b.path);
    }
}

/// Totality of the sibling order on distinct paths with settled flags.
proof fn lemma_node_lt_total(a: Tree, b: Tree)
    requires
        a.path != b.path,
    ensures
        node_lt(a, b) || node_lt(b, a),
{
    if a.is_dir == b.is_dir {
        lemma_lex_connected(a.path, b.path);
    }
}

/// Transitivity of the sibling order.
proof fn lemma_node_lt_trans(a: Tree, b: Tree, c: Tree)
    requires
        node_lt(a, b),
        node_lt(b, c),
    ensures
        node_lt(a, c),
{
    if a.is_dir == b.is_dir && b.is_dir == c.is_dir {
        lemma_lex_trans(a.path, b.path, c.path);
    }
}

/// Membership in a string vector, by character-wise comparison.
fn contains_str(ds: &Vec<String>, s: &str) -> (r: bool)
    ensures
        r == vec_has(ds@, s@),
{
    let mut i: usize = 0;
    while i < ds.len()
        invariant
            0 <= i <= ds@.len(),
            forall|m: int| 0 <= m < i ==> (#[trigger] ds@[m])@ != s@,
        decreases ds@.len() - i,
    {
        if crate::paths::str_eq(ds[i].as_str(), s) {
            return true;
        }
        i = i + 1;
    }
    false
}

/// The exec form of the sibling order, on a node's two sort keys.
fn key_lt(a_dir: bool, a_path: &str, b_dir: bool, b_path: &str) -> (r: bool)
    ensures
        r == ((a_dir && !b_dir) || (a_dir == b_dir && lex_lt(a_path@, b_path@))),
{
    if a_dir != b_dir {
        a_dir
    } else {
        crate::paths::str_lt(a_path, b_path)
    }
}

/// First pass of the builder: collect every non-empty strict ancestor
/// prefix of every input path. Duplicates are harmless; only membership
/// matters.
fn collect_dirs(paths: &[String]) -> (ds: Vec<String>)
    ensures
        dirs_ok(ds@, path_set(paths@)),
{
    let mut ds: Vec<String> = Vec::new();
    let mut idx: usize = 0;
    proof {
        assert forall|q: Seq<char>| #[trigger] vec_has(ds@, q) implies known_dir(
            path_set(paths@.take(0)),
            q,
        ) by {}
        assert forall|q: Seq<char>| #[trigger] known_dir(path_set(paths@.take(0)), q) implies false by {
            let (p0, k0): (Seq<char>, int) = choose|p0: Seq<char>, k0: int|
                path_set(paths@.take(0)).contains(p0) && #[trigger] is_cut(p0, k0) && 0 < k0
                    < p0.len() && q == p0.take(k0);
        }
    }
    while idx < paths.len()
        invariant
            0 <= idx <= paths@.len(),
            forall|q: Seq<char>| #[trigger] vec_has(ds@, q) <==> known_dir(
                path_set(paths@.take(idx as int)),
                q,
            ),
        decreases paths@.len() - idx,
    {
        let p: &str = paths[idx].as_str();
        let len = p.unicode_len();
        let ghost prev = path_set(paths@.take(idx as int));
        let mut k: usize = 0;
        while k < len
            invariant
                0 <= k <= len,
                len == p@.len(),
                p@ == paths@[idx as int]@,
                idx < paths@.len(),
                forall|q: Seq<char>| #[trigger] vec_has(ds@, q) <==> (known_dir(prev, q) || (
                exists|m: int| 0 < m < k && p@[m] == '/' && q == #[trigger] p@.take(m))),
            decreases len - k,
        {
            if k > 0 && p.get_char(k) == '/' {
                let pre = p.substring_char(0, k).to_owned();
                let ghost ds0 = ds@;
                ds.push(pre);
                proof {
                    assert(ds@ == ds0.push(pre));
                    assert forall|q: Seq<char>| #[trigger] vec_has(ds@, q) implies (known_dir(
                        prev,
                        q,
                    ) || (exists|m: int|
                        0 < m < k + 1 && p@[m] == '/' && q == #[trigger] p@.take(m))) by {
                        let i0: int = choose|i0: int| 0 <= i0 < ds@.len() && (#[trigger] ds@[i0])@
                            == q;
                        if i0 < ds0.len() {
                            assert(vec_has(ds0, q));
                        } else {
                            assert(q == p@.take(k as int));
                            assert(0 < (k as int) && (k as int) < k + 1 && p@[k as int] == '/');
                        }
                    }
                    assert forall|q: Seq<char>|
                        (known_dir(prev, q) || (exists|m: int|
                            0 < m < k + 1 && p@[m] == '/' && q == #[trigger] p@.take(
                                m,
                            ))) implies vec_has(ds@, q) by {
                        if known_dir(prev, q) || (exists|m: int|
                            0 < m < k && p@[m] == '/' && q == #[trigger] p@.take(m)) {
                            assert(vec_has(ds0, q));
                            let i0: int = choose|i0: int|
                                0 <= i0 < ds0.len() && (#[trigger] ds0[i0])@ == q;
                            assert(ds@[i0]@ == q);
                            assert(vec_has(ds@, q));
                        } else {
                            let m: int = choose|m: int|
                                0 < m < k + 1 && p@[m] == '/' && q == #[trigger] p@.take(m);
                            assert(m == k as int);
                            assert((ds@[ds0.len() as int])@ == q);
                            assert(vec_has(ds@, q));
                        }
                    }
                }
            }
            k = k + 1;
        }
        proof {
            let ghost cur = path_set(paths@.take(idx as int + 1));
            assert forall|q: Seq<char>| #[trigger] vec_has(ds@, q) implies known_dir(cur, q) by {
                if known_dir(prev, q) {
                    let (p0, k0): (Seq<char>, int) = choose|p0: Seq<char>, k0: int|
                        prev.contains(p0) && #[trigger] is_cut(p0, k0) && 0 < k0 < p0.len() && q
                            == p0.take(k0);
                    let j0: int = choose|j0: int|
                        0 <= j0 < paths@.take(idx as int).len() && (#[trigger] paths@.take(
                            idx as int,
                        )[j0])@ == p0;
                    assert((paths@.take(idx as int + 1)[j0])@ == p0);
                    assert(cur.contains(p0));
                    assert(known_dir(cur, q));
                } else {
                    let m: int = choose|m: int|
                        0 < m < len && p@[m] == '/' && q == #[trigger] p@.take(m);
                    assert((paths@.take(idx as int + 1)[idx as int])@ == p@);
                    assert(cur.contains(p@));
                    assert(is_cut(p@, m) && 0 < m < p@.len() && q == p@.take(m));
                    assert(known_dir(cur, q));
                }
            }
            assert forall|q: Seq<char>| #[trigger] known_dir(cur, q) implies vec_has(ds@, q) by {
                let (p0, k0): (Seq<char>, int) = choose|p0: Seq<char>, k0: int|
                    cur.contains(p0) && #[trigger] is_cut(p0, k0) && 0 < k0 < p0.len() && q
                        == p0.take(k0);
                let j0: int = choose|j0: int|
                    0 <= j0 < paths@.take(idx as int + 1).len() && (#[trigger] paths@.take(
                        idx as int + 1,
                    )[j0])@ == p0;
                if j0 < idx as int {
                    assert((paths@.take(idx as int)[j0])@ == p0);
                    assert(prev.contains(p0));
                    assert(known_dir(prev, q));
                } else {
                    assert(p0 == p@);
                    assert(0 < k0 < len && p@[k0] == '/' && q == p@.take(k0));
                }
            }
        }
        idx = idx + 1;
    }
    proof {
        assert(paths@.take(paths@.len() as int) =~= paths@);
    }
    ds
}

/// The sort key of a prospective sibling, as a childless tree: `node_lt`
/// reads nothing else of it.
pub open spec fn key_node(d: bool, q: Seq<char>) -> Tree {
    Tree { path: q, is_dir: d, children: Seq::empty() }
}

/// The sibling order reads only the flag and the path.
proof fn lemma_node_lt_key(a: Tree, b: Tree, a2: Tree, b2: Tree)
    requires
        a.path == a2.path,
        a.is_dir == a2.is_dir,
        b.path == b2.path,
        b.is_dir == b2.is_dir,
    ensures
        node_lt(a, b) == node_lt(a2, b2),
{
}

/// A sibling whose path is not the next cut prefix lies off the chain of
/// `p` entirely.
proof fn lemma_sibling_off_chain(
    t0: Tree,
    c: Tree,
    ins: Set<Seq<char>>,
    all: Set<Seq<char>>,
    is_root: bool,
    p: Seq<char>,
    start: int,
    k: int,
    cq: Seq<char>,
)
    requires
        0 <= start <= k <= p.len(),
        is_cut(p, k),
        forall|m: int| start <= m < k ==> p[m] != '/',
        is_root == (start == 0),
        start == 0 ==> t0.path == Seq::<char>::empty(),
        start >= 1 ==> t0.path == p.take(start - 1),
        cq == p.take(k),
        child_slot(t0.path, is_root, c.path),
        c.path != cq,
    ensures
        forall|k0: int| #[trigger] is_cut(p, k0) ==> p.take(k0) != c.path,
{
    assert forall|k0: int| #[trigger] is_cut(p, k0) implies p.take(k0) != c.path by {
        if p.take(k0) == c.path {
            lemma_cut_slot_unique(p, start, k, k0);
        }
    }
}

/// Reassembling a node after one child changed in place, the change keeping
/// that child's path (the next cut prefix) and flag, yields the description
/// over the grown input set.
proof fn lemma_assemble(
    t: Tree,
    t0: Tree,
    ins: Set<Seq<char>>,
    all: Set<Seq<char>>,
    is_root: bool,
    p: Seq<char>,
    start: int,
    k: int,
    cq: Seq<char>,
    pos: int,
)
    requires
        repr(t0, ins, all, is_root),
        0 <= start <= k <= p.len(),
        is_cut(p, k),
        forall|m: int| start <= m < k ==> p[m] != '/',
        is_root == (start == 0),
        start == 0 ==> t0.path == Seq::<char>::empty(),
        start >= 1 ==> t0.path == p.take(start - 1),
        cq == p.take(k),
        child_slot(t0.path, is_root, cq),
        t.path == t0.path,
        t.is_dir == t0.is_dir,
        t.children.len() == t0.children.len(),
        0 <= pos < t0.children.len(),
        t0.children[pos].path == cq,
        forall|i: int|
            0 <= i < t.children.len() && i != pos ==> #[trigger] t.children[i]
                == t0.children[i],
        t.children[pos].path == cq,
        t.children[pos].is_dir == t0.children[pos].is_dir,
        repr(t.children[pos], ins.insert(p), all, false),
    ensures
        repr(t, ins.insert(p), all, is_root),
{
    let ins2 = ins.insert(p);
    let cs = t0.children;
    let ncs = t.children;
    assert forall|i: int| 0 <= i < ncs.len() implies (#[trigger] ncs[i]).path == cs[i].path
        && ncs[i].is_dir == cs[i].is_dir by {}
    assert forall|i: int| 0 <= i < ncs.len() implies node_path(ins2, (#[trigger] ncs[i]).path)
        && child_slot(t.path, is_root, ncs[i].path) by {
        lemma_node_path_insert(ins, p, ncs[i].path);
        assert(node_path(ins, cs[i].path) && child_slot(t0.path, is_root, cs[i].path));
    }
    assert forall|q: Seq<char>|
        node_path(ins2, q) && #[trigger] child_slot(t.path, is_root, q) implies has_child(
        t,
        q,
    ) by {
        lemma_node_path_insert(ins, p, q);
        if node_path(ins, q) {
            assert(has_child(t0, q));
            let m: int = choose|m: int| 0 <= m < cs.len() && (#[trigger] cs[m]).path == q;
            assert(ncs[m].path == q);
        } else {
            let k0: int = choose|k0: int| #[trigger] is_cut(p, k0) && q == p.take(k0);
            lemma_cut_slot_unique(p, start, k, k0);
            assert(q == cq);
            assert(ncs[pos].path == cq);
        }
    }
    assert forall|i: int, j: int| 0 <= i < j < ncs.len() implies node_lt(
        #[trigger] ncs[i],
        #[trigger] ncs[j],
    ) by {
        assert(node_lt(cs[i], cs[j]));
        lemma_node_lt_key(cs[i], cs[j], ncs[i], ncs[j]);
    }
    assert forall|i: int| 0 <= i < ncs.len() implies repr(#[trigger] ncs[i], ins2, all, false) by {
        if i != pos {
            assert(repr(cs[i], ins, all, false));
            if cs[i].path == cq {
                if i < pos {
                    assert(cs[i].path != cs[pos].path);
                } else {
                    assert(cs[pos].path != cs[i].path);
                }
                assert(false);
            }
            lemma_sibling_off_chain(t0, cs[i], ins, all, is_root, p, start, k, cq);
            lemma_repr_grow(cs[i], ins, all, p);
        }
    }
}

/// Splicing a fresh node for the next cut prefix into its sorted place
/// yields the description over the grown input set.
proof fn lemma_assemble_fresh(
    t: Tree,
    t0: Tree,
    nn: Tree,
    ins: Set<Seq<char>>,
    all: Set<Seq<char>>,
    is_root: bool,
    p: Seq<char>,
    start: int,
    k: int,
    cq: Seq<char>,
    pos: int,
)
    requires
        repr(t0, ins, all, is_root),
        0 <= start <= k <= p.len(),
        is_cut(p, k),
        forall|m: int| start <= m < k ==> p[m] != '/',
        is_root == (start == 0),
        start == 0 ==> t0.path == Seq::<char>::empty(),
        start >= 1 ==> t0.path == p.take(start - 1),
        cq == p.take(k),
        child_slot(t0.path, is_root, cq),
        t.path == t0.path,
        t.is_dir == t0.is_dir,
        0 <= pos <= t0.children.len(),
        t.children.len() == t0.children.len() + 1,
        forall|i: int| 0 <= i < pos ==> #[trigger] t.children[i] == t0.children[i],
        t.children[pos] == nn,
        forall|i: int|
            pos < i < t.children.len() ==> #[trigger] t.children[i] == t0.children[i - 1],
        nn.path == cq,
        repr(nn, ins.insert(p), all, false),
        forall|m: int| 0 <= m < t0.children.len() ==> (#[trigger] t0.children[m]).path != cq,
        forall|m: int|
            0 <= m < pos ==> node_lt(#[trigger] t0.children[m], key_node(nn.is_dir, cq)),
        forall|m: int|
            pos <= m < t0.children.len() ==> node_lt(
                key_node(nn.is_dir, cq),
                #[trigger] t0.children[m],
            ),
    ensures
        repr(t, ins.insert(p), all, is_root),
{
    let ins2 = ins.insert(p);
    let cs = t0.children;
    let ncs = t.children;
    let nk = key_node(nn.is_dir, cq);
    assert(node_path(ins2, cq)) by {
        assert(ins2.contains(p));
        assert(is_cut(p, k) && cq == p.take(k));
    }
    assert forall|i: int| 0 <= i < ncs.len() implies node_path(ins2, (#[trigger] ncs[i]).path)
        && child_slot(t.path, is_root, ncs[i].path) by {
        if i < pos {
            lemma_node_path_insert(ins, p, cs[i].path);
            assert(node_path(ins, cs[i].path) && child_slot(t0.path, is_root, cs[i].path));
        } else if i > pos {
            lemma_node_path_insert(ins, p, cs[i - 1].path);
            assert(node_path(ins, cs[i - 1].path) && child_slot(t0.path, is_root, cs[i - 1].path));
        }
    }
    assert forall|q: Seq<char>|
        node_path(ins2, q) && #[trigger] child_slot(t.path, is_root, q) implies has_child(
        t,
        q,
    ) by {
        lemma_node_path_insert(ins, p, q);
        if node_path(ins, q) {
            assert(has_child(t0, q));
            let m: int = choose|m: int| 0 <= m < cs.len() && (#[trigger] cs[m]).path == q;
            if m < pos {
                assert(ncs[m].path == q);
            } else {
                assert(ncs[m + 1].path == q);
            }
        } else {
            let k0: int = choose|k0: int| #[trigger] is_cut(p, k0) && q == p.take(k0);
            lemma_cut_slot_unique(p, start, k, k0);
            assert(ncs[pos].path == cq);
        }
    }
    assert forall|i: int, j: int| 0 <= i < j < ncs.len() implies node_lt(
        #[trigger] ncs[i],
        #[trigger] ncs[j],
    ) by {
        if i < pos && j < pos {
            assert(node_lt(cs[i], cs[j]));
        } else if i < pos && j == pos {
            assert(node_lt(cs[i], nk));
            lemma_node_lt_key(cs[i], nk, ncs[i], ncs[j]);
        } else if i < pos && j > pos {
            assert(node_lt(cs[i], cs[j - 1]));
        } else if i == pos {
            assert(node_lt(nk, cs[j - 1]));
            lemma_node_lt_key(nk, cs[j - 1], ncs[i], ncs[j]);
        } else {
            assert(node_lt(cs[i - 1], cs[j - 1]));
        }
    }
    assert forall|i: int, j: int| 0 <= i < j < ncs.len() implies (#[trigger] ncs[i]).path != (
    #[trigger] ncs[j]).path by {
        if i < pos && j < pos {
            assert(cs[i].path != cs[j].path);
        } else if i < pos && j == pos {
            assert(cs[i].path != cq);
        } else if i < pos && j > pos {
            assert(cs[i].path != cs[j - 1].path);
        } else if i == pos {
            assert(cs[j - 1].path != cq);
        } else {
            assert(cs[i - 1].path != cs[j - 1].path);
        }
    }
    assert forall|i: int| 0 <= i < ncs.len() implies repr(#[trigger] ncs[i], ins2, all, false) by {
        if i != pos {
            let c = if i < pos {
                cs[i]
            } else {
                cs[i - 1]
            };
            assert(repr(c, ins, all, false));
            assert(child_slot(t0.path, is_root, c.path));
            lemma_sibling_off_chain(t0, c, ins, all, is_root, p, start, k, cq);
            lemma_repr_grow(c, ins, all, p);
        }
    }
}

/// Second pass of the builder, one path at a time: descend along the cuts
/// of `p` from position `start`, reusing the child that already carries the
/// next cut prefix and splicing a fresh node into its sorted place
/// otherwise.
fn insert_from(
    node: TreeNode,
    p: &str,
    start: usize,
    dirs: &Vec<String>,
    Ghost(ins): Ghost<Set<Seq<char>>>,
    Ghost(all): Ghost<Set<Seq<char>>>,
) -> (r: TreeNode)
    requires
        all.contains(p@),
        dirs_ok(dirs@, all),
        start <= p@.len(),
        start == 0 ==> node@.path == Seq::<char>::empty(),
        start >= 1 ==> is_cut(p@, start as int - 1) && node@.path == p@.take(start as int - 1),
        repr(node@, ins, all, start == 0),
    ensures
        r@.path == node@.path,
        r@.is_dir == node@.is_dir,
        repr(r@, ins.insert(p@), all, start == 0),
    decreases p@.len() - start,
{
    let ghost t0 = node@;
    let ghost ins2 = ins.insert(p@);
    let is_root = start == 0;
    let len = p.unicode_len();
    let k = crate::paths::next_cut(p, start);
    let is_last = k == len;
    let cum: String = p.substring_char(0, k).to_owned();
    let ghost cq = cum@;
    proof {
        assert(cq =~= p@.take(k as int));
        lemma_view_children(node);
    }
    let node_is_dir: bool = if is_last {
        contains_str(dirs, p) || !crate::paths::name_has_extension(p)
    } else {
        true
    };
    proof {
        // The computed flag is the one the full input set dictates for `cq`.
        if is_last {
            assert(p@.take(k as int) =~= p@);
            assert(vec_has(dirs@, p@) == known_dir(all, p@));
        } else {
            if k == 0 {
                assert(cq.len() == 0);
                assert(base_name(cq) =~= Seq::<char>::empty());
                assert(!has_extension(base_name(cq)));
            } else {
                assert(is_cut(p@, k as int) && 0 < k < p@.len() && cq == p@.take(k as int));
                assert(known_dir(all, cq));
            }
        }
        assert(node_is_dir == dir_flag(all, cq));
        // `cq` stands as a child slot of this node.
        if is_root {
            assert forall|m: int| 0 <= m < cq.len() implies cq[m] != '/' by {
                assert(cq[m] == p@[m]);
            }
            assert(child_slot(t0.path, true, cq));
        } else {
            let rl = start as int - 1;
            assert(cq.len() == k as int);
            assert(rl < p@.len());
            assert(p@[rl] == '/');
            assert(cq.take(rl) =~= p@.take(rl));
            assert(cq[rl] == p@[rl]);
            assert forall|m: int| 0 <= m < cq.skip(rl + 1).len() implies #[trigger] cq.skip(
                rl + 1,
            )[m] != '/' by {
                assert(cq.skip(rl + 1)[m] == p@[m + rl + 1]);
            }
            assert(child_path(t0.path, cq));
            assert(child_slot(t0.path, false, cq));
        }
    }
    let TreeNode { path, is_dir, mut children } = node;
    let ghost cs = t0.children;
    let mut pos: usize = 0;
    while pos < children.len() && key_lt(
        children[pos].is_dir,
        children[pos].path.as_str(),
        node_is_dir,
        cum.as_str(),
    )
        invariant
            0 <= pos <= children@.len(),
            children@.len() == cs.len(),
            forall|i: int| 0 <= i < cs.len() ==> cs[i] == (#[trigger] children@[i])@,
            forall|m: int|
                0 <= m < pos ==> node_lt(#[trigger] cs[m], key_node(node_is_dir, cq)),
            cum@ == cq,
        decreases children@.len() - pos,
    {
        proof {
            assert(cs[pos as int] == children@[pos as int]@);
        }
        pos = pos + 1;
    }
    let ghost newk = key_node(node_is_dir, cq);
    proof {
        assert(pos == cs.len() || !node_lt(cs[pos as int], newk));
    }
    let found = pos < children.len() && crate::paths::str_eq(
        children[pos].path.as_str(),
        cum.as_str(),
    );
    proof {
        if !found {
            // No existing child carries `cq`: below its sorted place every
            // key is smaller, at and past it every key is larger.
            assert forall|m: int| 0 <= m < cs.len() implies (#[trigger] cs[m]).path != cq by {
                if cs[m].path == cq {
                    assert(repr(cs[m], ins, all, false));
                    assert(cs[m].is_dir == dir_flag(all, cq));
                    assert(cs[m].is_dir == node_is_dir);
                    if m < pos {
                        lemma_node_lt_asym(cs[m], newk);
                        assert(false);
                    } else if m == pos {
                        assert(cs[m].path == children@[m]@.path);
                        assert(false);
                    } else {
                        assert(node_lt(cs[pos as int], cs[m]));
                        lemma_node_lt_key(cs[pos as int], cs[m], cs[pos as int], newk);
                        assert(false);
                    }
                }
            }
            assert forall|m: int| pos <= m < cs.len() implies node_lt(
                newk,
                #[trigger] cs[m],
            ) by {
                lemma_node_lt_total(newk, cs[pos as int]);
                if m > pos {
                    assert(node_lt(cs[pos as int], cs[m]));
                    lemma_node_lt_trans(newk, cs[pos as int], cs[m]);
                }
            }
        } else {
            assert(cs[pos as int].path == cq);
        }
    }
    let ghost ce0 = children@;
    if found {
        if !is_last {
            let child = children.remove(pos);
            proof {
                ce0.remove_ensures(pos as int);
                assert(child@ == cs[pos as int]);
                assert(child@.path == cq);
                assert(is_cut(p@, (k + 1) as int - 1));
            }
            let child2 = insert_from(child, p, k + 1, dirs, Ghost(ins), Ghost(all));
            children.insert(pos, child2);
            let r = TreeNode { path, is_dir, children };
            proof {
                ce0.remove(pos as int).insert_ensures(pos as int, child2);
                lemma_view_children(r);
                let ncs = r@.children;
                assert(children@.len() == ce0.len());
                assert forall|i: int| 0 <= i < ncs.len() implies #[trigger] ncs[i] == (if i
                    == pos as int {
                    child2@
                } else {
                    cs[i]
                }) by {
                    if i < pos as int {
                        assert(children@[i] == ce0.remove(pos as int)[i]);
                        assert(children@[i] == ce0[i]);
                    } else if i > pos as int {
                        assert(children@[i] == ce0.remove(pos as int)[i - 1]);
                        assert(children@[i] == ce0[i]);
                    }
                }
                lemma_assemble(
                    r@,
                    t0,
                    ins,
                    all,
                    is_root,
                    p@,
                    start as int,
                    k as int,
                    cq,
                    pos as int,
                );
            }
            return r;
        } else {
            let r = TreeNode { path, is_dir, children };
            proof {
                lemma_view_children(r);
                let ncs = r@.children;
                assert forall|i: int| 0 <= i < ncs.len() implies #[trigger] ncs[i] == cs[i] by {}
                // The found child already closes the whole chain of `p`.
                assert(cs[pos as int].path.len() == p@.len());
                assert forall|k0: int| #[trigger] is_cut(p@, k0) implies k0 <= cs[
                    pos as int
                ].path.len() by {}
                lemma_repr_grow(cs[pos as int], ins, all, p@);
                lemma_assemble(
                    r@,
                    t0,
                    ins,
                    all,
                    is_root,
                    p@,
                    start as int,
                    k as int,
                    cq,
                    pos as int,
                );
            }
            return r;
        }
    } else {
        let nn = TreeNode::new(cum, node_is_dir);
        proof {
            // Nothing already inserted descends through `cq`: otherwise `cq`
            // itself would be a node path, hence a present child.
            assert(nn@.children.len() == 0);
            assert forall|q: Seq<char>|
                node_path(ins, q) && #[trigger] child_slot(nn@.path, false, q) implies has_child(
                nn@,
                q,
            ) by {
                let (p0, k0): (Seq<char>, int) = choose|p0: Seq<char>, k0: int|
                    ins.contains(p0) && #[trigger] is_cut(p0, k0) && q == p0.take(k0);
                lemma_chain_parent(p0, k0, cq);
                assert(node_path(ins, cq));
                assert(has_child(t0, cq));
                assert(false);
            }
            assert(repr(nn@, ins, all, false));
            assert(is_cut(p@, (k + 1) as int - 1));
        }
        let nn2 = if !is_last {
            insert_from(nn, p, k + 1, dirs, Ghost(ins), Ghost(all))
        } else {
            proof {
                // A leaf: no cut of `p` extends past its end, and nothing
                // inserted descends through it.
                assert(cq.len() == p@.len());
                assert(cq =~= p@);
                assert forall|q: Seq<char>|
                    node_path(ins2, q) && #[trigger] child_slot(nn@.path, false, q) implies false by {
                    lemma_node_path_insert(ins, p@, q);
                    if node_path(ins, q) {
                        let (p0, k0): (Seq<char>, int) = choose|p0: Seq<char>, k0: int|
                            ins.contains(p0) && #[trigger] is_cut(p0, k0) && q == p0.take(k0);
                        lemma_chain_parent(p0, k0, cq);
                        assert(node_path(ins, cq));
                        assert(has_child(t0, cq));
                    } else {
                        let k0: int = choose|k0: int| #[trigger] is_cut(p@, k0) && q == p@.take(
                            k0,
                        );
                        assert(q.len() == k0 <= p@.len());
                        assert(q.len() > cq.len());
                    }
                }
                assert(repr(nn@, ins2, all, false));
            }
            nn
        };
        children.insert(pos, nn2);
        let r = TreeNode { path, is_dir, children };
        proof {
            ce0.insert_ensures(pos as int, nn2);
            lemma_view_children(r);
            let ncs = r@.children;
            assert(children@.len() == ce0.len() + 1);
            assert forall|i: int| 0 <= i < ncs.len() implies #[trigger] ncs[i] == (if i
                < pos as int {
                cs[i]
            } else if i == pos as int {
                nn2@
            } else {
                cs[i - 1]
            }) by {
                if i < pos as int {
                    assert(children@[i] == ce0[i]);
                } else if i > pos as int {
                    assert(children@[(i - 1) + 1] == ce0[i - 1]);
                }
            }
            lemma_assemble_fresh(
                r@,
                t0,
                nn2@,
                ins,
                all,
                is_root,
                p@,
                start as int,
                k as int,
                cq,
                pos as int,
            );
        }
        return r;
    }
}

/// Build the tree of a flat path listing: infer the known directories,
/// insert every path's chain of cut prefixes, each child in its sorted
/// place, and return the root. The result is the one tree the set of input
/// paths determines (`canonical`), whatever their order or duplication.
pub fn build_tree(paths: &[String]) -> (root: TreeNode)
    ensures
        canonical(root@, path_set(paths@)),
{
    let ghost all = path_set(paths@);
    let dirs = collect_dirs(paths);
    let mut root = TreeNode::new(String::new(), true);
    proof {
        lemma_view_children(root);
        assert forall|q: Seq<char>| #[trigger] node_path(path_set(paths@.take(0)), q) implies false by {
            let (p0, k0): (Seq<char>, int) = choose|p0: Seq<char>, k0: int|
                path_set(paths@.take(0)).contains(p0) && #[trigger] is_cut(p0, k0) && q
                    == p0.take(k0);
        }
        assert(repr(root@, path_set(paths@.take(0)), all, true));
    }
    let mut idx: usize = 0;
    while idx < paths.len()
        invariant
            0 <= idx <= paths@.len(),
            dirs_ok(dirs@, all),
            all == path_set(paths@),
            repr(root@, path_set(paths@.take(idx as int)), all, true),
            root@.path == Seq::<char>::empty(),
        decreases paths@.len() - idx,
    {
        let ghost prev = path_set(paths@.take(idx as int));
        let p: &str = paths[idx].as_str();
        proof {
            assert((paths@.take(paths@.len() as int)[idx as int])@ == p@);
            assert(paths@[idx as int]@ == p@);
            assert(all.contains(p@));
        }
        root = insert_from(root, p, 0, &dirs, Ghost(prev), Ghost(all));
        proof {
            let cur = path_set(paths@.take(idx as int + 1));
            assert forall|q: Seq<char>| #[trigger] prev.insert(p@).contains(q) implies cur.contains(
                q,
            ) by {
                if prev.contains(q) {
                    let j0: int = choose|j0: int|
                        0 <= j0 < paths@.take(idx as int).len() && (#[trigger] paths@.take(
                            idx as int,
                        )[j0])@ == q;
                    assert((paths@.take(idx as int + 1)[j0])@ == q);
                } else {
                    assert((paths@.take(idx as int + 1)[idx as int])@ == q);
                }
            }
            assert forall|q: Seq<char>| #[trigger] cur.contains(q) implies prev.insert(p@).contains(
                q,
            ) by {
                let j0: int = choose|j0: int|
                    0 <= j0 < paths@.take(idx as int + 1).len() && (#[trigger] paths@.take(
                        idx as int + 1,
                    )[j0])@ == q;
                if j0 < idx as int {
                    assert((paths@.take(idx as int)[j0])@ == q);
                    assert(prev.contains(q));
                }
            }
            assert(prev.insert(p@) =~= cur);
        }
        idx = idx + 1;
    }
    proof {
        assert(paths@.take(paths@.len() as int) =~= paths@);
    }
    root
}

/// Two trees that describe the same input at the same place are equal: a
/// node's path settles its flag, its children and, recursively, everything
/// below it.
proof fn lemma_repr_unique(
    a: Tree,
    b: Tree,
    ins: Set<Seq<char>>,
    all: Set<Seq<char>>,
    is_root: bool,
)
    requires
        repr(a, ins, all, is_root),
        repr(b, ins, all, is_root),
        !is_root ==> a.path == b.path,
    ensures
        a == b,
    decreases a, 0int,
{
    assert(a.path == b.path);
    assert forall|q: Seq<char>| #[trigger] seq_has_path(a.children, q) implies seq_has_path(
        b.children,
        q,
    ) by {
        let i: int = choose|i: int| 0 <= i < a.children.len() && (#[trigger] a.children[i]).path
            == q;
        assert(node_path(ins, q) && child_slot(a.path, is_root, q));
        assert(child_slot(b.path, is_root, q));
        assert(has_child(b, q));
    }
    assert forall|q: Seq<char>| #[trigger] seq_has_path(b.children, q) implies seq_has_path(
        a.children,
        q,
    ) by {
        let i: int = choose|i: int| 0 <= i < b.children.len() && (#[trigger] b.children[i]).path
            == q;
        assert(node_path(ins, q) && child_slot(b.path, is_root, q));
        assert(child_slot(a.path, is_root, q));
        assert(has_child(a, q));
    }
    lemma_children_unique(a.children, b.children, ins, all);
    assert(a =~= b);
}

/// Two sorted, duplicate-free child lists over the same set of paths, each
/// child described by the input, are equal.
proof fn lemma_children_unique(
    xs: Seq<Tree>,
    ys: Seq<Tree>,
    ins: Set<Seq<char>>,
    all: Set<Seq<char>>,
)
    requires
        forall|i: int| 0 <= i < xs.len() ==> repr(#[trigger] xs[i], ins, all, false),
        forall|i: int| 0 <= i < ys.len() ==> repr(#[trigger] ys[i], ins, all, false),
        forall|i: int, j: int| 0 <= i < j < xs.len() ==> node_lt(xs[i], xs[j]),
        forall|i: int, j: int| 0 <= i < j < ys.len() ==> node_lt(ys[i], ys[j]),
        forall|i: int, j: int|
            0 <= i < j < xs.len() ==> (#[trigger] xs[i]).path != (#[trigger] xs[j]).path,
        forall|i: int, j: int|
            0 <= i < j < ys.len() ==> (#[trigger] ys[i]).path != (#[trigger] ys[j]).path,
        forall|q: Seq<char>|
            #![trigger seq_has_path(xs, q)]
            #![trigger seq_has_path(ys, q)]
            seq_has_path(xs, q) <==> seq_has_path(ys, q),
    ensures
        xs == ys,
    decreases xs, 1int,
{
    if xs.len() == 0 {
        if ys.len() > 0 {
            assert(seq_has_path(ys, ys[0].path));
            assert(seq_has_path(xs, ys[0].path));
            assert(false);
        }
        assert(xs =~= ys);
    } else {
        if ys.len() == 0 {
            assert(seq_has_path(xs, xs[0].path));
            assert(seq_has_path(ys, xs[0].path));
            assert(false);
        }
        assert(seq_has_path(xs, xs[0].path));
        assert(seq_has_path(ys, xs[0].path));
        let j0: int = choose|j0: int| 0 <= j0 < ys.len() && (#[trigger] ys[j0]).path == xs[0].path;
        lemma_repr_unique(xs[0], ys[j0], ins, all, false);
        assert(seq_has_path(ys, ys[0].path));
        assert(seq_has_path(xs, ys[0].path));
        let i0: int = choose|i0: int| 0 <= i0 < xs.len() && (#[trigger] xs[i0]).path == ys[0].path;
        lemma_repr_unique(xs[i0], ys[0], ins, all, false);
        if j0 > 0 {
            assert(node_lt(ys[0], ys[j0]));
            assert(node_lt(xs[i0], xs[0]));
            if i0 == 0 {
                lemma_node_lt_asym(xs[0], xs[0]);
            } else {
                assert(node_lt(xs[0], xs[i0]));
                lemma_node_lt_asym(xs[0], xs[i0]);
            }
            assert(false);
        }
        assert(ys[0] == xs[0]);
        let xt = xs.drop_first();
        let yt = ys.drop_first();
        assert forall|q: Seq<char>| #[trigger] seq_has_path(xt, q) implies seq_has_path(yt, q) by {
            let i: int = choose|i: int| 0 <= i < xt.len() && (#[trigger] xt[i]).path == q;
            assert(xt[i] == xs[i + 1]);
            assert(seq_has_path(xs, q));
            assert(seq_has_path(ys, q));
            let j: int = choose|j: int| 0 <= j < ys.len() && (#[trigger] ys[j]).path == q;
            if j == 0 {
                assert(xs[i + 1].path != xs[0].path);
                assert(false);
            }
            assert(yt[j - 1] == ys[j]);
            assert(seq_has_path(yt, q));
        }
        assert forall|q: Seq<char>| #[trigger] seq_has_path(yt, q) implies seq_has_path(xt, q) by {
            let j: int = choose|j: int| 0 <= j < yt.len() && (#[trigger] yt[j]).path == q;
            assert(yt[j] == ys[j + 1]);
            assert(seq_has_path(ys, q));
            assert(seq_has_path(xs, q));
            let i: int = choose|i: int| 0 <= i < xs.len() && (#[trigger] xs[i]).path == q;
            if i == 0 {
                assert(ys[j + 1].path != ys[0].path);
                assert(false);
            }
            assert(xt[i - 1] == xs[i]);
            assert(seq_has_path(xt, q));
        }
        assert forall|i: int| 0 <= i < xt.len() implies #[trigger] xt[i] == xs[i + 1] by {}
        assert forall|i: int| 0 <= i < yt.len() implies #[trigger] yt[i] == ys[i + 1] by {}
        lemma_children_unique(xt, yt, ins, all);
        assert(xs.len() == ys.len());
        assert forall|i: int| 0 <= i < xs.len() implies xs[i] == ys[i] by {
            if i > 0 {
                assert(xs[i] == xt[i - 1]);
                assert(ys[i] == yt[i - 1]);
            }
        }
        assert(xs =~= ys);
    }
}

/// Inputs listing the same set of paths build the same tree, whatever their
/// order and however often each path repeats.
pub proof fn lemma_build_same_set(a: Tree, b: Tree, pa: Seq<String>, pb: Seq<String>)
    requires
        canonical(a, path_set(pa)),
        canonical(b, path_set(pb)),
        path_set(pa) == path_set(pb),
    ensures
        a == b,
{
    lemma_repr_unique(a, b, path_set(pa), path_set(pa), true);
}

/// Idempotent insertion: a listing and the same listing with every path
/// repeated build identical trees.
pub proof fn lemma_build_idempotent(a: Tree, b: Tree, ps: Seq<String>)
    requires
        canonical(a, path_set(ps)),
        canonical(b, path_set(ps + ps)),
    ensures
        a == b,
{
    assert forall|q: Seq<char>| #[trigger] path_set(ps + ps).contains(q) implies path_set(
        ps,
    ).contains(q) by {
        let i: int = choose|i: int| 0 <= i < (ps + ps).len() && (#[trigger] (ps + ps)[i])@ == q;
        if i < ps.len() {
            assert(ps[i]@ == q);
        } else {
            assert(ps[i - ps.len()]@ == q);
        }
    }
    assert forall|q: Seq<char>| #[trigger] path_set(ps).contains(q) implies path_set(
        ps + ps,
    ).contains(q) by {
        let i: int = choose|i: int| 0 <= i < ps.len() && (#[trigger] ps[i])@ == q;
        assert((ps + ps)[i]@ == q);
    }
    assert(path_set(ps + ps) =~= path_set(ps));
    lemma_build_same_set(a, b, ps, ps + ps);
}

/// Order-independence: a listing and any permutation of it build identical
/// trees.
pub proof fn lemma_build_order_independent(a: Tree, b: Tree, pa: Seq<String>, pb: Seq<String>)
    requires
        canonical(a, path_set(pa)),
        canonical(b, path_set(pb)),
        pa.to_multiset() == pb.to_multiset(),
    ensures
        a == b,
{
    pa.to_multiset_ensures();
    pb.to_multiset_ensures();
    assert forall|q: Seq<char>| #[trigger] path_set(pa).contains(q) implies path_set(pb).contains(
        q,
    ) by {
        let i: int = choose|i: int| 0 <= i < pa.len() && (#[trigger] pa[i])@ == q;
        assert(pa.contains(pa[i]));
        assert(pa.to_multiset().count(pa[i]) > 0);
        assert(pb.to_multiset().count(pa[i]) > 0);
        assert(pb.contains(pa[i]));
        let j: int = choose|j: int| 0 <= j < pb.len() && pb[j] == pa[i];
        assert(pb[j]@ == q);
    }
    assert forall|q: Seq<char>| #[trigger] path_set(pb).contains(q) implies path_set(pa).contains(
        q,
    ) by {
        let i: int = choose|i: int| 0 <= i < pb.len() && (#[trigger] pb[i])@ == q;
        assert(pb.contains(pb[i]));
        assert(pb.to_multiset().count(pb[i]) > 0);
        assert(pa.to_multiset().count(pb[i]) > 0);
        assert(pa.contains(pb[i]));
        let j: int = choose|j: int| 0 <= j < pa.len() && pa[j] == pb[i];
        assert(pa[j]@ == q);
    }
    assert(path_set(pa) =~= path_set(pb));
    lemma_build_same_set(a, b, pa, pb);
}

} // verus!
