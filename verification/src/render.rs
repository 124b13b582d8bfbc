//! Depth-first rendering of a tree into indented text lines with
//! box-drawing connectors.

use vstd::prelude::*;
use vstd::string::{StrSliceExecFns, StringExecFns};

use crate::model::{Tree, TreeNode};
use crate::paths::{base_name, lemma_base_name_at};

verus! {

broadcast use vstd::std_specs::vec::group_vec_axioms, vstd::seq::group_seq_axioms;

/// The three-glyph connector that opens a node's line.
pub open spec fn connector(is_last: bool) -> Seq<char> {
    if is_last {
        "└──"@
    } else {
        "├──"@
    }
}

/// The line a non-root node emits.
pub open spec fn line_of(path: Seq<char>, prefix: Seq<char>, is_last: bool) -> Seq<char> {
    prefix + connector(is_last) + " "@ + base_name(path)
}

/// The prefix handed down to a node's children.
pub open spec fn child_prefix(path: Seq<char>, prefix: Seq<char>, is_last: bool) -> Seq<char> {
    if path.len() == 0 {
        Seq::empty()
    } else if is_last {
        prefix + "    "@
    } else {
        prefix + "│   "@
    }
}

/// All lines a node emits: its own line (none for a node with an empty
/// path, the root included), then its children in order, each marked last
/// exactly when it closes the child list.
pub open spec fn render_node(t: Tree, prefix: Seq<char>, is_last: bool) -> Seq<Seq<char>>
    decreases t, 0int,
{
    let rest = render_children(t.children, child_prefix(t.path, prefix, is_last), 0);
    if t.path.len() == 0 {
        rest
    } else {
        seq![line_of(t.path, prefix, is_last)] + rest
    }
}

/// The lines of the children from position `i` on.
pub open spec fn render_children(cs: Seq<Tree>, prefix: Seq<char>, i: int) -> Seq<Seq<char>>
    decreases cs, cs.len() - i,
{
    if 0 <= i < cs.len() {
        render_node(cs[i], prefix, i == cs.len() - 1) + render_children(cs, prefix, i + 1)
    } else {
        Seq::empty()
    }
}

/// The base name of a path string: everything after its last separator.
fn basename_of(p: &str) -> (r: String)
    ensures
        r@ == base_name(p@),
{
    let len = p.unicode_len();
    let mut s: usize = 0;
    let mut i: usize = 0;
    while i < len
        invariant
            0 <= s <= i <= len,
            len == p@.len(),
            s > 0 ==> p@[s as int - 1] == '/',
            forall|m: int| s <= m < i ==> p@[m] != '/',
        decreases len - i,
    {
        if p.get_char(i) == '/' {
            s = i + 1;
        }
        i = i + 1;
    }
    proof {
        lemma_base_name_at(p@, s as int);
        assert(p@.subrange(s as int, len as int) =~= p@.skip(s as int));
    }
    p.substring_char(s, len).to_owned()
}

/// Render a tree into its lines: none for a node with an empty path (the
/// root), one per node below it, each child list in its stored order.
pub fn render_tree(node: &TreeNode, prefix: &str, is_last: bool) -> (lines: Vec<String>)
    ensures
        lines.deep_view() == render_node(node@, prefix@, is_last),
    decreases *node,
{
    let mut lines: Vec<String> = Vec::new();
    let own_empty = node.path.as_str().is_empty();
    proof {
        assert(own_empty == (node@.path.len() == 0));
    }
    if !own_empty {
        let name = basename_of(node.path.as_str());
        let mut line = String::from_str(prefix);
        let marker: &str = if is_last {
            "└──"
        } else {
            "├──"
        };
        line.append(marker);
        line.append(" ");
        line.append(name.as_str());
        proof {
            assert(line@ =~= line_of(node@.path, prefix@, is_last));
        }
        lines.push(line);
    }
    let new_prefix: String = if own_empty {
        String::new()
    } else if is_last {
        String::from_str(prefix).concat("    ")
    } else {
        String::from_str(prefix).concat("│   ")
    };
    proof {
        assert(new_prefix@ == child_prefix(node@.path, prefix@, is_last));
        assert(lines.deep_view() =~= render_node(node@, prefix@, is_last).take(
            lines.deep_view().len() as int,
        ));
    }
    let n = node.children.len();
    let ghost head = lines.deep_view();
    let mut i: usize = 0;
    proof {
        assert(head + render_children(node@.children, new_prefix@, 0) =~= render_node(
            node@,
            prefix@,
            is_last,
        ));
    }
    while i < n
        invariant
            0 <= i <= n,
            n == node.children@.len(),
            n == node@.children.len(),
            new_prefix@ == child_prefix(node@.path, prefix@, is_last),
            forall|m: int|
                0 <= m < n ==> node@.children[m] == (#[trigger] node.children@[m])@,
            lines.deep_view() + render_children(node@.children, new_prefix@, i as int)
                == render_node(node@, prefix@, is_last),
        decreases n - i,
    {
        let mut child_lines = render_tree(&node.children[i], new_prefix.as_str(), i == n - 1);
        let ghost before = lines.deep_view();
        let ghost mid = child_lines.deep_view();
        lines.append(&mut child_lines);
        proof {
            assert(lines.deep_view() =~= before + mid);
            assert(render_children(node@.children, new_prefix@, i as int) == render_node(
                node@.children[i as int],
                new_prefix@,
                i as int == n - 1,
            ) + render_children(node@.children, new_prefix@, i as int + 1));
            assert((before + mid) + render_children(node@.children, new_prefix@, i as int + 1)
                =~= before + (mid + render_children(node@.children, new_prefix@, i as int + 1)));
        }
        i = i + 1;
    }
    lines
}

} // verus!
