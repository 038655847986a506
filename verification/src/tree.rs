//! The tree of the files of a package: every node holds its children by
//! name, in the order of their names.

use vstd::prelude::*;
use crate::name_order::compare_names;
use crate::name_order::lemma_name_less_transitive;
use crate::name_order::name_less;
use crate::name_order::NameOrder;
use crate::tree_model::lemma_insert_all_contains;
use crate::tree_model::lemma_insert_contains;
use crate::tree_model::lemma_insert_wf;
use crate::tree_model::lemma_slot_is;
use crate::tree_model::slot;
use crate::tree_model::Tree;

verus! {

/// A child of a node: its name and the node itself.
struct FileTreeEntry {
    name: String,
    node: FileTreeNode,
}

/// A node of the file tree. A node without children is a file or an empty
/// directory. The children of every node are kept sorted by name, and no two
/// of them bear the same name.
pub struct FileTreeNode {
    children: Vec<FileTreeEntry>,
}

/// The children that a sequence of entries stands for.
spec fn entries_model(entries: Seq<FileTreeEntry>) -> Seq<(Seq<char>, Tree)> {
    Seq::new(entries.len(), |i: int| (entries[i].name@, entries[i].node.model()))
}

impl View for FileTreeNode {
    type V = Tree;

    closed spec fn view(&self) -> Tree {
        self.model()
    }
}

impl FileTreeNode {
    spec fn model(&self) -> Tree
        decreases self,
    {
        Tree {
            children: Seq::new(
                self.children.len() as nat,
                |i: int|
                    if 0 <= i < self.children.len() {
                        (self.children[i].name@, self.children[i].node.model())
                    } else {
                        (Seq::empty(), Tree::empty())
                    },
            ),
        }
    }

    #[verifier::type_invariant]
    spec fn well_formed(self) -> bool {
        self.model().wf()
    }

    proof fn lemma_model_children(self)
        ensures
            self.model().children == entries_model(self.children@),
    {
        assert(self.model().children =~= entries_model(self.children@));
    }
}

impl Default for FileTreeNode {
    /// A node without children.
    fn default() -> (node: FileTreeNode)
        ensures
            node@ == Tree::empty(),
            node@.wf(),
    {
        FileTreeNode::new()
    }
}

impl FileTreeNode {
    /// A node without children.
    pub fn new() -> (node: FileTreeNode)
        ensures
            node@ == Tree::empty(),
            node@.wf(),
    {
        let children: Vec<FileTreeEntry> = Vec::new();
        proof {
            let made = FileTreeNode { children };
            assert(made.model().children =~= Seq::empty());
        }
        FileTreeNode { children }
    }

    /// The number of children.
    pub fn child_count(&self) -> (count: usize)
        ensures
            count == self@.children.len(),
    {
        self.children.len()
    }

    /// The name of the child at index `i`.
    pub fn child_name(&self, i: usize) -> (name: &str)
        requires
            i < self@.children.len(),
        ensures
            name@ == self@.children[i as int].0,
    {
        self.children[i].name.as_str()
    }

    /// The child at index `i`.
    pub fn child_at(&self, i: usize) -> (node: &FileTreeNode)
        requires
            i < self@.children.len(),
        ensures
            node@ == self@.children[i as int].1,
            node@.wf(),
    {
        proof {
            use_type_invariant(self);
            assert(self@.children[i as int].1 == self.children[i as int].node@);
        }
        &self.children[i].node
    }

    /// Looks up the child that bears `name`.
    pub fn child(&self, name: &str) -> (found: Option<&FileTreeNode>)
        ensures
            found is Some <==> self@.has_child(name@),
            found matches Some(node) ==> node@ == self@.child(name@) && node@.wf(),
    {
        proof {
            use_type_invariant(self);
            self.lemma_model_children();
        }
        let i: usize = find_slot(&self.children, name);
        if i < self.children.len() {
            match compare_names(self.children[i].name.as_str(), name) {
                NameOrder::Same => Some(&self.children[i].node),
                _ => None,
            }
        } else {
            None
        }
    }

    /// Enters one path: each component finds the child of its name or makes
    /// it, and the next component goes on from there. Afterwards the tree
    /// holds what it held before and every beginning of the path.
    pub fn insert(&mut self, path: &Vec<String>)
        ensures
            final(self)@ == old(self)@.insert(path.deep_view()),
            old(self)@.wf(),
            final(self)@.wf(),
            forall|q: Seq<Seq<char>>| #[trigger]
                final(self)@.contains(q) <==> old(self)@.contains(q) || q.is_prefix_of(
                    path.deep_view(),
                ),
    {
        proof {
            use_type_invariant(&*self);
            lemma_insert_wf(self@, path.deep_view());
            assert(path.deep_view().skip(0) =~= path.deep_view());
        }
        self.insert_from(path, 0);
        proof {
            assert forall|q: Seq<Seq<char>>| #[trigger]
                self@.contains(q) <==> old(self)@.contains(q) || q.is_prefix_of(
                    path.deep_view(),
                ) by {
                lemma_insert_contains(old(self)@, path.deep_view(), q);
            }
        }
    }

    /// Builds the tree of a collection of paths, entered in the order given.
    /// The tree holds the beginnings of the paths and nothing else.
    pub fn build(paths: &Vec<Vec<String>>) -> (tree: FileTreeNode)
        ensures
            tree@ == Tree::empty().insert_all(paths.deep_view()),
            tree@.wf(),
            forall|q: Seq<Seq<char>>| #[trigger]
                tree@.contains(q) <==> q.len() == 0 || exists|k: int|
                    0 <= k < paths.len() && q.is_prefix_of(#[trigger] paths.deep_view()[k]),
    {
        let mut tree = FileTreeNode::new();
        let mut k: usize = 0;
        while k < paths.len()
            invariant
                k <= paths.len(),
                tree@ == Tree::empty().insert_all(paths.deep_view().take(k as int)),
                tree@.wf(),
            decreases paths.len() - k,
        {
            proof {
                let next = paths.deep_view().take(k + 1);
                assert(next.drop_last() =~= paths.deep_view().take(k as int));
                assert(next.last() == paths[k as int].deep_view());
            }
            tree.insert(&paths[k]);
            k += 1;
        }
        proof {
            assert(paths.deep_view().take(k as int) =~= paths.deep_view());
            assert forall|q: Seq<Seq<char>>| #[trigger]
                tree@.contains(q) <==> q.len() == 0 || exists|k: int|
                    0 <= k < paths.len() && q.is_prefix_of(#[trigger] paths.deep_view()[k]) by {
                lemma_insert_all_contains(Tree::empty(), paths.deep_view(), q);
            }
        }
        tree
    }

    /// Enters the components of `path` from index `start` on.
    fn insert_from(&mut self, path: &Vec<String>, start: usize)
        requires
            start <= path.len(),
        ensures
            final(self)@ == old(self)@.insert(path.deep_view().skip(start as int)),
        decreases path.len() - start,
    {
        let ghost rest = path.deep_view().skip(start as int);
        proof {
            use_type_invariant(&*self);
            self.lemma_model_children();
            lemma_insert_wf(self@, rest);
        }
        if start < path.len() {
            let name = &path[start];
            let mut children: Vec<FileTreeEntry> = Vec::new();
            proof {
                assert(rest[0] == name@);
                assert(rest.drop_first() =~= path.deep_view().skip(start + 1));
                assert(entries_model(children@) =~= Seq::empty());
            }
            std::mem::swap(&mut children, &mut self.children);
            let i: usize = find_slot(&children, name.as_str());
            let present = i < children.len() && compare_names(
                children[i].name.as_str(),
                name.as_str(),
            ) == NameOrder::Same;
            if !present {
                children.insert(i, FileTreeEntry { name: name.clone(), node: FileTreeNode::new() });
                assert(entries_model(children@) =~= old(self)@.children.insert(
                    i as int,
                    (name@, Tree::empty()),
                ));
            }
            let ghost before = entries_model(children@);
            children[i].node.insert_from(path, start + 1);
            proof {
                assert(entries_model(children@) =~= before.update(
                    i as int,
                    (name@, before[i as int].1.insert(rest.drop_first())),
                ));
                assert(entries_model(children@) =~= old(self)@.insert(rest).children);
                let made = FileTreeNode { children };
                made.lemma_model_children();
                assert(made.model() == old(self)@.insert(rest));
            }
            self.children = children;
        }
    }
}

/// The place of `name` among sorted entries, by bisection.
fn find_slot(entries: &Vec<FileTreeEntry>, name: &str) -> (i: usize)
    requires
        (Tree { children: entries_model(entries@) }).sorted(),
    ensures
        i == slot(entries_model(entries@), name@),
        i <= entries.len(),
{
    let ghost t = Tree { children: entries_model(entries@) };
    let mut lo: usize = 0;
    let mut hi: usize = entries.len();
    while lo < hi
        invariant
            t.children == entries_model(entries@),
            t.sorted(),
            lo <= hi <= entries.len(),
            forall|k: int| 0 <= k < lo ==> name_less(#[trigger] t.children[k].0, name@),
            forall|k: int|
                hi <= k < t.children.len() ==> !name_less(#[trigger] t.children[k].0, name@),
        decreases hi - lo,
    {
        let mid: usize = lo + (hi - lo) / 2;
        match compare_names(entries[mid].name.as_str(), name) {
            NameOrder::Before => {
                proof {
                    assert forall|k: int| 0 <= k < mid + 1 implies name_less(
                        #[trigger] t.children[k].0,
                        name@,
                    ) by {
                        if k < mid {
                            assert(name_less(t.children[k].0, t.children[mid as int].0));
                            lemma_name_less_transitive(
                                t.children[k].0,
                                t.children[mid as int].0,
                                name@,
                            );
                        }
                    }
                }
                lo = mid + 1;
            },
            _ => {
                proof {
                    assert forall|k: int| mid <= k < t.children.len() implies !name_less(
                        #[trigger] t.children[k].0,
                        name@,
                    ) by {
                        if k > mid && name_less(t.children[k].0, name@) {
                            assert(name_less(t.children[mid as int].0, t.children[k].0));
                            lemma_name_less_transitive(
                                t.children[mid as int].0,
                                t.children[k].0,
                                name@,
                            );
                        }
                    }
                }
                hi = mid;
            },
        }
    }
    proof {
        lemma_slot_is(t.children, name@, lo as int);
    }
    lo
}

} // verus!
