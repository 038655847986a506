//! Drawing a tree as lines of text, one line for the root and one for every
//! node below it.

use vstd::prelude::*;
use vstd::string::StringExecFns;
use crate::tree::FileTreeNode;
use crate::tree_model::Tree;

verus! {

/// The line that stands for the root.
pub open spec fn root_marker() -> Seq<char> {
    seq!['.']
}

/// What joins a child to its parent: one glyph for the last of the siblings,
/// another for those before it.
pub open spec fn connector(last: bool) -> Seq<char> {
    if last {
        seq!['└', '─', '─', ' ']
    } else {
        seq!['├', '─', '─', ' ']
    }
}

/// What a child adds to the prefix of the lines below it: blanks under the
/// last of the siblings, a bar under those before it.
pub open spec fn continuation(last: bool) -> Seq<char> {
    if last {
        seq![' ', ' ', ' ', ' ']
    } else {
        seq!['│', ' ', ' ', ' ']
    }
}

/// The lines for the children of `t` from index `from` on, each followed by
/// the lines of its own subtree.
pub open spec fn render_children(t: Tree, from: int, prefix: Seq<char>) -> Seq<Seq<char>>
    decreases t, t.children.len() - from,
{
    if from < 0 || from >= t.children.len() {
        Seq::empty()
    } else {
        let last = from == t.children.len() - 1;
        let own = prefix + connector(last) + t.children[from].0;
        let below = render_children(t.children[from].1, 0, prefix + continuation(last));
        seq![own] + below + render_children(t, from + 1, prefix)
    }
}

/// The whole drawing: the root marker, then the lines of the tree.
pub open spec fn render(t: Tree) -> Seq<Seq<char>> {
    seq![root_marker()] + render_children(t, 0, Seq::empty())
}

/// The number of nodes below the root of `t`.
pub open spec fn node_count(t: Tree) -> nat
    decreases t,
{
    count_from(t, 0)
}

/// The number of nodes in the subtrees of the children of `t` from index
/// `from` on, the children themselves included.
pub open spec fn count_from(t: Tree, from: int) -> nat
    decreases t, t.children.len() - from,
{
    if from < 0 || from >= t.children.len() {
        0
    } else {
        1 + count_from(t.children[from].1, 0) + count_from(t, from + 1)
    }
}

/// The drawing has one line for each node below the root, whatever the
/// prefix.
pub proof fn lemma_render_children_len(t: Tree, from: int, prefix: Seq<char>)
    ensures
        render_children(t, from, prefix).len() == count_from(t, from),
    decreases t, t.children.len() - from,
{
    if 0 <= from < t.children.len() {
        let last = from == t.children.len() - 1;
        lemma_render_children_len(t.children[from].1, 0, prefix + continuation(last));
        lemma_render_children_len(t, from + 1, prefix);
    }
}

/// A drawing has one line for the root and one for every node below it.
pub proof fn lemma_render_len(t: Tree)
    ensures
        render(t).len() == 1 + node_count(t),
{
    lemma_render_children_len(t, 0, Seq::empty());
}

fn connector_text(last: bool) -> (text: &'static str)
    ensures
        text@ == connector(last),
{
    proof {
        reveal_strlit("└── ");
        reveal_strlit("├── ");
    }
    let text = if last { "└── " } else { "├── " };
    assert(text@ =~= connector(last));
    text
}

fn continuation_text(last: bool) -> (text: &'static str)
    ensures
        text@ == continuation(last),
{
    proof {
        reveal_strlit("    ");
        reveal_strlit("│   ");
    }
    let text = if last { "    " } else { "│   " };
    assert(text@ =~= continuation(last));
    text
}

/// Appends the lines of the subtree below `node` to `out`.
fn render_into(node: &FileTreeNode, prefix: &str, out: &mut Vec<String>)
    ensures
        final(out).deep_view() == old(out).deep_view() + render_children(node@, 0, prefix@),
    decreases node@,
{
    let n: usize = node.child_count();
    let mut k: usize = 0;
    while k < n
        invariant
            n == node@.children.len(),
            k <= n,
            out.deep_view() + render_children(node@, k as int, prefix@) == old(out).deep_view()
                + render_children(node@, 0, prefix@),
        decreases n - k,
    {
        let last = k + 1 == n;
        let ghost before = out.deep_view();
        let mut line = String::from_str(prefix);
        line.append(connector_text(last));
        line.append(node.child_name(k));
        out.push(line);
        assert(out.deep_view() =~= before.push(line@));
        let child = node.child_at(k);
        if child.child_count() > 0 {
            let mut deeper = String::from_str(prefix);
            deeper.append(continuation_text(last));
            render_into(child, deeper.as_str(), out);
        }
        proof {
            let below = render_children(node@.children[k as int].1, 0, prefix@ + continuation(last));
            assert(out.deep_view() =~= before.push(line@) + below);
            assert(before.push(line@) + below + render_children(node@, k + 1, prefix@) =~= before
                + render_children(node@, k as int, prefix@));
        }
        k += 1;
    }
    assert(out.deep_view() + render_children(node@, n as int, prefix@) =~= out.deep_view());
}

/// Draws the tree: the root marker first, then every node below the root in
/// the order of the names at each level.
pub fn render_tree(node: &FileTreeNode) -> (lines: Vec<String>)
    ensures
        lines.deep_view() == render(node@),
{
    proof {
        reveal_strlit(".");
    }
    let mut lines: Vec<String> = Vec::new();
    let root = String::from_str(".");
    assert(root@ =~= root_marker());
    lines.push(root);
    assert(lines.deep_view() =~= seq![root_marker()]);
    render_into(node, "", &mut lines);
    proof {
        reveal_strlit("");
        assert(""@ =~= Seq::<char>::empty());
    }
    lines
}

} // verus!
