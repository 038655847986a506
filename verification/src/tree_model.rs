//! The mathematical model of the file tree, and what holds of it.
//!
//! A tree is the sequence of its children, each with its name; in a
//! well-formed tree the names of the children of every node rise strictly.
//! Such a tree is known by the paths it holds.

use vstd::prelude::*;
use crate::name_order::lemma_name_less_asymmetric;
use crate::name_order::lemma_name_less_irreflexive;
use crate::name_order::lemma_name_less_total;
use crate::name_order::lemma_name_less_transitive;
use crate::name_order::name_less;

verus! {

/// The mathematical tree: the children of a node, each with its name, in the
/// order in which they are kept.
pub ghost struct Tree {
    pub children: Seq<(Seq<char>, Tree)>,
}

impl Tree {
    /// The tree without children.
    pub open spec fn empty() -> Tree {
        Tree { children: Seq::empty() }
    }

    /// The names of the children rise strictly from each child to the next.
    pub open spec fn sorted(self) -> bool {
        forall|i: int, j: int|
            0 <= i < j < self.children.len() ==> name_less(
                #[trigger] self.children[i].0,
                #[trigger] self.children[j].0,
            )
    }

    /// Whether a child bears `name`.
    pub open spec fn has_child(self, name: Seq<char>) -> bool {
        let i = slot(self.children, name);
        i < self.children.len() && self.children[i].0 == name
    }

    /// The child that bears `name`, where there is one.
    pub open spec fn child(self, name: Seq<char>) -> Tree {
        self.children[slot(self.children, name)].1
    }

    /// The tree after one path was entered: from the root down, each
    /// component finds the child of its name or makes it in its place.
    pub open spec fn insert(self, path: Seq<Seq<char>>) -> Tree
        decreases path.len(),
    {
        if path.len() == 0 {
            self
        } else {
            let name = path[0];
            let i = slot(self.children, name);
            if self.has_child(name) {
                Tree {
                    children: self.children.update(
                        i,
                        (name, self.children[i].1.insert(path.drop_first())),
                    ),
                }
            } else {
                Tree {
                    children: self.children.insert(
                        i,
                        (name, Tree::empty().insert(path.drop_first())),
                    ),
                }
            }
        }
    }

    /// The tree after the paths were entered one after the other.
    pub open spec fn insert_all(self, paths: Seq<Seq<Seq<char>>>) -> Tree
        decreases paths.len(),
    {
        if paths.len() == 0 {
            self
        } else {
            self.insert_all(paths.drop_last()).insert(paths.last())
        }
    }

    /// Whether the tree holds a node at the end of `path`; the empty path
    /// ends at the root.
    pub open spec fn contains(self, path: Seq<Seq<char>>) -> bool
        decreases path.len(),
    {
        path.len() == 0 || (self.has_child(path[0]) && self.child(path[0]).contains(
            path.drop_first(),
        ))
    }

    /// Every node of the tree keeps its children sorted.
    pub open spec fn wf(self) -> bool
        decreases self,
    {
        &&& self.sorted()
        &&& forall|i: int|
            0 <= i < self.children.len() ==> (#[trigger] self.children[i]).1.wf()
    }
}

/// The place of `name` among `children`: the index of the first child whose
/// name does not come before `name`, or the number of children if all do.
pub open spec fn slot(children: Seq<(Seq<char>, Tree)>, name: Seq<char>) -> int
    decreases children.len(),
{
    if children.len() == 0 || !name_less(children[0].0, name) {
        0
    } else {
        1 + slot(children.drop_first(), name)
    }
}

/// `slot` lies within bounds, every child before it has a smaller name, and
/// the child at it, if there is one, has not.
pub proof fn lemma_slot_bounds(children: Seq<(Seq<char>, Tree)>, name: Seq<char>)
    ensures
        0 <= slot(children, name) <= children.len(),
        forall|k: int| 0 <= k < slot(children, name) ==> name_less(#[trigger] children[k].0, name),
        slot(children, name) < children.len() ==> !name_less(
            children[slot(children, name)].0,
            name,
        ),
    decreases children.len(),
{
    if children.len() == 0 || !name_less(children[0].0, name) {
    } else {
        let rest = children.drop_first();
        lemma_slot_bounds(rest, name);
        assert forall|k: int| 0 <= k < slot(children, name) implies name_less(
            #[trigger] children[k].0,
            name,
        ) by {
            if k > 0 {
                assert(children[k] == rest[k - 1]);
            }
        }
    }
}

/// An index with only smaller names before it, and none at it, is the slot.
pub proof fn lemma_slot_is(children: Seq<(Seq<char>, Tree)>, name: Seq<char>, i: int)
    requires
        0 <= i <= children.len(),
        forall|k: int| 0 <= k < i ==> name_less(#[trigger] children[k].0, name),
        i < children.len() ==> !name_less(children[i].0, name),
    ensures
        slot(children, name) == i,
    decreases children.len(),
{
    if i > 0 {
        let rest = children.drop_first();
        assert(name_less(children[0].0, name));
        assert forall|k: int| 0 <= k < i - 1 implies name_less(#[trigger] rest[k].0, name) by {
            assert(rest[k] == children[k + 1]);
        }
        lemma_slot_is(rest, name, i - 1);
    }
}

/// Among sorted children, no child from the slot on has a smaller name, and
/// a child that bears the name stands at the slot.
pub proof fn lemma_slot_sorted(t: Tree, name: Seq<char>)
    requires
        t.sorted(),
    ensures
        forall|k: int|
            slot(t.children, name) <= k < t.children.len() ==> !name_less(
                #[trigger] t.children[k].0,
                name,
            ),
        forall|k: int|
            0 <= k < t.children.len() && #[trigger] t.children[k].0 == name ==> k == slot(
                t.children,
                name,
            ),
{
    let i = slot(t.children, name);
    lemma_slot_bounds(t.children, name);
    assert forall|k: int| i <= k < t.children.len() implies !name_less(
        #[trigger] t.children[k].0,
        name,
    ) by {
        if k > i && name_less(t.children[k].0, name) {
            assert(name_less(t.children[i].0, t.children[k].0));
            lemma_name_less_transitive(t.children[i].0, t.children[k].0, name);
        }
    }
    assert forall|k: int| 0 <= k < t.children.len() && #[trigger] t.children[k].0
        == name implies k == i by {
        lemma_name_less_irreflexive(name);
        if k < i {
            assert(name_less(t.children[k].0, name));
        } else if k > i {
            assert(name_less(t.children[i].0, t.children[k].0));
        }
    }
}

/// Among sorted children, a child bears `name` exactly if `name` is the name
/// of one of them.
pub proof fn lemma_has_child(t: Tree, name: Seq<char>)
    requires
        t.sorted(),
    ensures
        t.has_child(name) <==> exists|k: int|
            0 <= k < t.children.len() && #[trigger] t.children[k].0 == name,
{
    lemma_slot_bounds(t.children, name);
    lemma_slot_sorted(t, name);
}

/// Entering a path keeps every node's children sorted.
pub proof fn lemma_insert_wf(t: Tree, path: Seq<Seq<char>>)
    requires
        t.wf(),
    ensures
        t.insert(path).wf(),
    decreases path.len(),
{
    if path.len() > 0 {
        let name = path[0];
        let rest = path.drop_first();
        let i = slot(t.children, name);
        let after = t.insert(path);
        lemma_slot_bounds(t.children, name);
        lemma_slot_sorted(t, name);
        if t.has_child(name) {
            lemma_insert_wf(t.children[i].1, rest);
            assert forall|a: int, b: int| 0 <= a < b < after.children.len() implies name_less(
                #[trigger] after.children[a].0,
                #[trigger] after.children[b].0,
            ) by {
                assert(after.children[a].0 == t.children[a].0);
                assert(after.children[b].0 == t.children[b].0);
            }
            assert forall|k: int| 0 <= k < after.children.len() implies (
            #[trigger] after.children[k]).1.wf() by {
                if k != i {
                    assert(after.children[k] == t.children[k]);
                }
            }
        } else {
            assert(Tree::empty().wf());
            lemma_insert_wf(Tree::empty(), rest);
            assert forall|a: int, b: int| 0 <= a < b < after.children.len() implies name_less(
                #[trigger] after.children[a].0,
                #[trigger] after.children[b].0,
            ) by {
                if b == i {
                    assert(after.children[a] == t.children[a]);
                } else if a == i {
                    assert(after.children[b] == t.children[b - 1]);
                    lemma_name_less_total(name, t.children[b - 1].0);
                } else {
                    let a0 = if a < i { a } else { a - 1 };
                    let b0 = if b < i { b } else { b - 1 };
                    assert(after.children[a] == t.children[a0]);
                    assert(after.children[b] == t.children[b0]);
                }
            }
            assert forall|k: int| 0 <= k < after.children.len() implies (
            #[trigger] after.children[k]).1.wf() by {
                if k < i {
                    assert(after.children[k] == t.children[k]);
                } else if k > i {
                    assert(after.children[k] == t.children[k - 1]);
                }
            }
        }
    }
}


/// The tree in which the rest of a path goes on after its first component
/// `name`: the child of that name, or an empty tree where there is none.
pub open spec fn descent(t: Tree, name: Seq<char>) -> Tree {
    if t.has_child(name) {
        t.child(name)
    } else {
        Tree::empty()
    }
}

/// A path begins with another one if its first component is the other's and
/// what follows begins with what follows in the other.
pub proof fn lemma_prefix_step(q: Seq<Seq<char>>, p: Seq<Seq<char>>)
    requires
        q.len() > 0,
        p.len() > 0,
    ensures
        q.is_prefix_of(p) <==> q[0] == p[0] && q.drop_first().is_prefix_of(p.drop_first()),
{
    let q_rest = q.drop_first();
    let p_rest = p.drop_first();
    if q.is_prefix_of(p) {
        assert(q[0] == p.subrange(0, q.len() as int)[0]);
        assert forall|k: int| 0 <= k < q_rest.len() implies q_rest[k] == p_rest.subrange(0, q_rest.len() as int)[k] by {
            assert(q[k + 1] == p.subrange(0, q.len() as int)[k + 1]);
        }
        assert(q_rest =~= p_rest.subrange(0, q_rest.len() as int));
    }
    if q[0] == p[0] && q_rest.is_prefix_of(p_rest) {
        assert forall|k: int| 0 <= k < q.len() implies q[k] == p.subrange(0, q.len() as int)[k] by {
            if k > 0 {
                assert(q_rest[k - 1] == p_rest.subrange(0, q_rest.len() as int)[k - 1]);
            }
        }
        assert(q =~= p.subrange(0, q.len() as int));
    }
}

/// After a path was entered, its first component names a child, below which
/// the rest of the path was entered; every other name finds what it found
/// before.
pub proof fn lemma_lookup_after_insert(t: Tree, path: Seq<Seq<char>>, name: Seq<char>)
    requires
        t.wf(),
        path.len() > 0,
    ensures
        name == path[0] ==> t.insert(path).has_child(name) && t.insert(path).child(name) == descent(
            t,
            name,
        ).insert(path.drop_first()),
        name != path[0] ==> t.insert(path).has_child(name) == t.has_child(name),
        name != path[0] && t.has_child(name) ==> t.insert(path).child(name) == t.child(name),
{
    let first = path[0];
    let i = slot(t.children, first);
    let j = slot(t.children, name);
    let after = t.insert(path);
    lemma_slot_bounds(t.children, first);
    lemma_slot_bounds(t.children, name);
    lemma_slot_sorted(t, first);
    lemma_name_less_irreflexive(first);
    if t.has_child(first) {
        assert forall|k: int| 0 <= k < j implies name_less(#[trigger] after.children[k].0, name) by {
            assert(after.children[k].0 == t.children[k].0);
        }
        lemma_slot_is(after.children, name, j);
    } else if name == first {
        assert forall|k: int| 0 <= k < i implies name_less(#[trigger] after.children[k].0, name) by {
            assert(after.children[k] == t.children[k]);
        }
        lemma_slot_is(after.children, name, i);
    } else {
        lemma_name_less_total(first, name);
        if name_less(first, name) {
            if j < i {
                assert(name_less(t.children[j].0, first));
                lemma_name_less_transitive(t.children[j].0, first, name);
            }
            assert forall|k: int| 0 <= k < j + 1 implies name_less(
                #[trigger] after.children[k].0,
                name,
            ) by {
                if k < i {
                    assert(after.children[k] == t.children[k]);
                } else if k > i {
                    assert(after.children[k] == t.children[k - 1]);
                }
            }
            if j < t.children.len() {
                assert(after.children[j + 1] == t.children[j]);
            }
            lemma_slot_is(after.children, name, j + 1);
        } else {
            lemma_name_less_asymmetric(name, first);
            if j > i {
                assert(name_less(t.children[i].0, name));
                lemma_name_less_transitive(t.children[i].0, name, first);
            }
            assert forall|k: int| 0 <= k < j implies name_less(
                #[trigger] after.children[k].0,
                name,
            ) by {
                assert(after.children[k] == t.children[k]);
            }
            if j < i {
                assert(after.children[j] == t.children[j]);
            }
            lemma_slot_is(after.children, name, j);
        }
    }
}

/// A tree without children holds the empty path only.
pub proof fn lemma_empty_contains(path: Seq<Seq<char>>)
    ensures
        Tree::empty().contains(path) <==> path.len() == 0,
{
}

/// What a tree holds after a path was entered: what it held before, and
/// every beginning of the path.
pub proof fn lemma_insert_contains(t: Tree, path: Seq<Seq<char>>, q: Seq<Seq<char>>)
    requires
        t.wf(),
    ensures
        t.insert(path).contains(q) <==> t.contains(q) || q.is_prefix_of(path),
    decreases q.len(),
{
    if q.len() == 0 {
        assert(q =~= path.subrange(0, 0));
    } else if path.len() == 0 {
    } else {
        let name = q[0];
        lemma_lookup_after_insert(t, path, name);
        lemma_prefix_step(q, path);
        if name == path[0] {
            let base = descent(t, name);
            lemma_slot_bounds(t.children, name);
            assert(base.wf());
            lemma_insert_contains(base, path.drop_first(), q.drop_first());
            lemma_empty_contains(q.drop_first());
            if q.drop_first().len() == 0 {
                assert(q.drop_first() =~= path.drop_first().subrange(0, 0));
            }
        }
    }
}

/// Entering a path that the tree holds leaves the tree as it is.
pub proof fn lemma_insert_present(t: Tree, path: Seq<Seq<char>>)
    requires
        t.contains(path),
    ensures
        t.insert(path) == t,
    decreases path.len(),
{
    if path.len() > 0 {
        let i = slot(t.children, path[0]);
        lemma_slot_bounds(t.children, path[0]);
        lemma_insert_present(t.children[i].1, path.drop_first());
        assert(t.insert(path).children =~= t.children);
    }
}

/// Entering a path a second time leaves the tree as it is.
pub proof fn lemma_insert_idempotent(t: Tree, path: Seq<Seq<char>>)
    requires
        t.wf(),
    ensures
        t.insert(path).insert(path) == t.insert(path),
{
    lemma_insert_contains(t, path, path);
    assert(path =~= path.subrange(0, path.len() as int));
    lemma_insert_present(t.insert(path), path);
}

/// Entering paths keeps every node's children sorted.
pub proof fn lemma_insert_all_wf(t: Tree, paths: Seq<Seq<Seq<char>>>)
    requires
        t.wf(),
    ensures
        t.insert_all(paths).wf(),
    decreases paths.len(),
{
    if paths.len() > 0 {
        lemma_insert_all_wf(t, paths.drop_last());
        lemma_insert_wf(t.insert_all(paths.drop_last()), paths.last());
    }
}

/// What a tree holds after paths were entered: what it held before, and
/// every beginning of every one of the paths.
pub proof fn lemma_insert_all_contains(t: Tree, paths: Seq<Seq<Seq<char>>>, q: Seq<Seq<char>>)
    requires
        t.wf(),
    ensures
        t.insert_all(paths).contains(q) <==> t.contains(q) || exists|k: int|
            0 <= k < paths.len() && q.is_prefix_of(#[trigger] paths[k]),
    decreases paths.len(),
{
    if paths.len() > 0 {
        let front = paths.drop_last();
        lemma_insert_all_contains(t, front, q);
        lemma_insert_all_wf(t, front);
        lemma_insert_contains(t.insert_all(front), paths.last(), q);
        if exists|k: int| 0 <= k < front.len() && q.is_prefix_of(#[trigger] front[k]) {
            let k = choose|k: int| 0 <= k < front.len() && q.is_prefix_of(#[trigger] front[k]);
            assert(q.is_prefix_of(paths[k]));
        }
        if q.is_prefix_of(paths.last()) {
            assert(q.is_prefix_of(paths[paths.len() - 1]));
        }
        if exists|k: int| 0 <= k < paths.len() && q.is_prefix_of(#[trigger] paths[k]) {
            let k = choose|k: int| 0 <= k < paths.len() && q.is_prefix_of(#[trigger] paths[k]);
            if k < front.len() {
                assert(q.is_prefix_of(front[k]));
            }
        }
    }
}

/// Entering paths that the tree holds already leaves the tree as it is.
pub proof fn lemma_insert_all_present(t: Tree, paths: Seq<Seq<Seq<char>>>)
    requires
        forall|k: int| 0 <= k < paths.len() ==> t.contains(#[trigger] paths[k]),
    ensures
        t.insert_all(paths) == t,
    decreases paths.len(),
{
    if paths.len() > 0 {
        let front = paths.drop_last();
        assert forall|k: int| 0 <= k < front.len() implies t.contains(#[trigger] front[k]) by {
            assert(front[k] == paths[k]);
        }
        lemma_insert_all_present(t, front);
        assert(t.contains(paths[paths.len() - 1]));
        lemma_insert_present(t, paths.last());
    }
}

/// Entering a collection of paths, and then the same collection again, gives
/// the tree that entering it once gives.
pub proof fn lemma_insert_all_idempotent(t: Tree, paths: Seq<Seq<Seq<char>>>)
    requires
        t.wf(),
    ensures
        t.insert_all(paths).insert_all(paths) == t.insert_all(paths),
{
    let once = t.insert_all(paths);
    assert forall|k: int| 0 <= k < paths.len() implies once.contains(#[trigger] paths[k]) by {
        lemma_insert_all_contains(t, paths, paths[k]);
        assert(paths[k] =~= paths[k].subrange(0, paths[k].len() as int));
        assert(paths[k].is_prefix_of(paths[k]));
    }
    lemma_insert_all_present(once, paths);
}

/// Sorted children that bear the same names bear them at the same places, as
/// far as the first `n` children of `a` go.
proof fn lemma_same_names_upto(a: Tree, b: Tree, n: int)
    requires
        a.sorted(),
        b.sorted(),
        forall|name: Seq<char>| a.has_child(name) == b.has_child(name),
        0 <= n <= a.children.len(),
    ensures
        n <= b.children.len(),
        forall|k: int| 0 <= k < n ==> (#[trigger] a.children[k]).0 == b.children[k].0,
    decreases n,
{
    if n > 0 {
        lemma_same_names_upto(a, b, n - 1);
        let at = n - 1;
        let name = a.children[at].0;
        lemma_slot_sorted(a, name);
        assert(a.has_child(name));
        assert(b.has_child(name));
        let j = slot(b.children, name);
        lemma_slot_bounds(b.children, name);
        lemma_name_less_irreflexive(name);
        if j < at {
            assert(a.children[j].0 == b.children[j].0);
            assert(name_less(a.children[j].0, a.children[at].0));
        }
        let other = b.children[at].0;
        lemma_slot_sorted(b, other);
        assert(b.has_child(other));
        assert(a.has_child(other));
        let i = slot(a.children, other);
        lemma_slot_bounds(a.children, other);
        lemma_name_less_irreflexive(other);
        if i < at {
            assert(a.children[i].0 == b.children[i].0);
            assert(name_less(b.children[i].0, b.children[at].0));
        }
        if j > at {
            assert(name_less(b.children[at].0, b.children[j].0));
            if i > at {
                assert(name_less(a.children[at].0, a.children[i].0));
                lemma_name_less_asymmetric(name, other);
            }
        }
    }
}

/// A sorted tree is known by what it holds: two sorted trees that hold the
/// same paths are the same tree.
pub proof fn lemma_same_paths_same_tree(a: Tree, b: Tree)
    requires
        a.wf(),
        b.wf(),
        forall|path: Seq<Seq<char>>| a.contains(path) == b.contains(path),
    ensures
        a == b,
    decreases a,
{
    assert forall|name: Seq<char>| a.has_child(name) == b.has_child(name) by {
        let path = seq![name];
        assert(path[0] == name);
        assert(path.drop_first().len() == 0);
        assert(a.child(name).contains(path.drop_first()));
        assert(b.child(name).contains(path.drop_first()));
        assert(a.contains(path) == b.contains(path));
    }
    lemma_same_names_upto(a, b, a.children.len() as int);
    lemma_same_names_upto(b, a, b.children.len() as int);
    assert forall|k: int| 0 <= k < a.children.len() implies a.children[k] == b.children[k] by {
        let name = a.children[k].0;
        let below_a = a.children[k].1;
        let below_b = b.children[k].1;
        lemma_slot_sorted(a, name);
        lemma_slot_sorted(b, name);
        assert forall|path: Seq<Seq<char>>| below_a.contains(path) == below_b.contains(path) by {
            let whole = seq![name] + path;
            assert(whole.drop_first() =~= path);
            assert(whole[0] == name);
            assert(a.contains(whole) == below_a.contains(path));
            assert(b.contains(whole) == below_b.contains(path));
        }
        lemma_same_paths_same_tree(below_a, below_b);
    }
    assert(a.children =~= b.children);
}

/// The tree of a collection of paths does not depend on the order of the
/// paths, nor on how often each occurs: collections that hold the same paths
/// give the same tree.
pub proof fn lemma_insert_all_order_free(
    t: Tree,
    first: Seq<Seq<Seq<char>>>,
    second: Seq<Seq<Seq<char>>>,
)
    requires
        t.wf(),
        forall|path: Seq<Seq<char>>| first.contains(path) <==> second.contains(path),
    ensures
        t.insert_all(first) == t.insert_all(second),
{
    let a = t.insert_all(first);
    let b = t.insert_all(second);
    lemma_insert_all_wf(t, first);
    lemma_insert_all_wf(t, second);
    assert forall|q: Seq<Seq<char>>| a.contains(q) == b.contains(q) by {
        lemma_insert_all_contains(t, first, q);
        lemma_insert_all_contains(t, second, q);
        if exists|k: int| 0 <= k < first.len() && q.is_prefix_of(#[trigger] first[k]) {
            let k = choose|k: int| 0 <= k < first.len() && q.is_prefix_of(#[trigger] first[k]);
            assert(first.contains(first[k]));
            assert(second.contains(first[k]));
            let j = choose|j: int| 0 <= j < second.len() && second[j] == first[k];
            assert(q.is_prefix_of(second[j]));
        }
        if exists|k: int| 0 <= k < second.len() && q.is_prefix_of(#[trigger] second[k]) {
            let k = choose|k: int| 0 <= k < second.len() && q.is_prefix_of(#[trigger] second[k]);
            assert(second.contains(second[k]));
            assert(first.contains(second[k]));
            let j = choose|j: int| 0 <= j < first.len() && first[j] == second[k];
            assert(q.is_prefix_of(first[j]));
        }
    }
    lemma_same_paths_same_tree(a, b);
}

} // verus!
