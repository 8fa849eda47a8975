//! The prefix trie over selected file paths, and its rendering as an ASCII
//! directory-tree diagram.

use vstd::prelude::*;
use crate::text::{lex_lt, lex_lt_str, str_eq};
use crate::paths::{rel_of, components_of, relative_to, split_components};
use crate::FileNodeInput;

verus! {

broadcast use vstd::std_specs::vec::axiom_vec_index_decreases;

/// The mathematical shape of a trie node: the children as name/subtree
/// pairs ordered by name, and a mark on nodes that stand for a selected
/// file rather than for a directory implied by some deeper selection.
#[verifier::ext_equal]
pub struct SpecTree {
    pub children: Seq<(Seq<char>, SpecTree)>,
    pub is_file: bool,
}

/// A trie node with no children and no file mark.
pub open spec fn empty_tree() -> SpecTree {
    SpecTree { children: Seq::empty(), is_file: false }
}

/// A child edge of the trie: a path-component name and its subtree.
#[verifier::ext_equal]
pub struct TreeEdge {
    pub name: String,
    pub node: TreeNode,
}

/// A node of the path trie. The children are kept ordered by name, so a
/// plain left-to-right traversal visits them lexicographically.
#[verifier::ext_equal]
pub struct TreeNode {
    pub children: Vec<TreeEdge>,
    pub is_file: bool,
}

/// The views of a sequence of child edges, in order.
pub open spec fn edges_view(edges: Seq<TreeEdge>) -> Seq<(Seq<char>, SpecTree)>
    decreases edges,
{
    if edges.len() == 0 {
        Seq::empty()
    } else {
        proof {
            assert(edges.skip(1) == edges.subrange(1, edges.len() as int));
        }
        seq![(edges[0].name@, tree_view(edges[0].node))] + edges_view(edges.skip(1))
    }
}

/// The mathematical shape of a trie node.
pub open spec fn tree_view(n: TreeNode) -> SpecTree
    decreases n,
{
    SpecTree { children: edges_view(n.children@), is_file: n.is_file }
}

impl View for TreeNode {
    type V = SpecTree;

    open spec fn view(&self) -> SpecTree {
        tree_view(*self)
    }
}

/// The view of a node lines its children up with the edges of the node.
pub proof fn lemma_view_children(n: TreeNode)
    ensures
        n@.children.len() == n.children@.len(),
        forall|j: int| 0 <= j < n.children@.len()
            ==> (#[trigger] n@.children[j]).0 == n.children@[j].name@
                && n@.children[j].1 == n.children@[j].node@,
{
    lemma_edges_view(n.children@);
}

/// Indexes the view of an edge sequence.
pub proof fn lemma_edges_view(edges: Seq<TreeEdge>)
    ensures
        edges_view(edges).len() == edges.len(),
        forall|j: int| 0 <= j < edges.len()
            ==> #[trigger] edges_view(edges)[j] == (edges[j].name@, tree_view(edges[j].node)),
    decreases edges.len(),
{
    if edges.len() > 0 {
        lemma_edges_view(edges.skip(1));
        assert forall|j: int| 0 <= j < edges.len()
            implies #[trigger] edges_view(edges)[j]
                == (edges[j].name@, tree_view(edges[j].node)) by {
            if j > 0 {
                assert(edges_view(edges)[j] == edges_view(edges.skip(1))[j - 1]);
                assert(edges.skip(1)[j - 1] == edges[j]);
            }
        }
    }
}

/// Where a child of the given name stands, or belongs, in a name-ordered
/// child sequence: the count of leading children whose names come strictly
/// first.
pub open spec fn insert_pos(children: Seq<(Seq<char>, SpecTree)>, name: Seq<char>) -> int
    decreases children.len(),
{
    if children.len() == 0 {
        0
    } else if lex_lt(children[0].0, name) {
        1 + insert_pos(children.skip(1), name)
    } else {
        0
    }
}

/// Characterizes the insertion position: it is the index reached by walking
/// past exactly the children whose names come strictly first.
pub proof fn lemma_insert_pos_is(children: Seq<(Seq<char>, SpecTree)>, name: Seq<char>, k: int)
    requires
        0 <= k <= children.len(),
        forall|j: int| 0 <= j < k ==> lex_lt(#[trigger] children[j].0, name),
        k < children.len() ==> !lex_lt(children[k].0, name),
    ensures
        insert_pos(children, name) == k,
    decreases children.len(),
{
    if children.len() == 0 {
    } else if lex_lt(children[0].0, name) {
        assert(k >= 1) by {
            assert(k < children.len() ==> !lex_lt(children[k].0, name));
        }
        assert(forall|j: int|
            0 <= j < k - 1 ==> lex_lt(#[trigger] children.skip(1)[j].0, name)) by {
            assert(forall|j: int| 0 <= j < k - 1 ==> children.skip(1)[j] == children[j + 1]);
        }
        assert(k - 1 < children.skip(1).len() ==> !lex_lt(children.skip(1)[k - 1].0, name));
        lemma_insert_pos_is(children.skip(1), name, k - 1);
    } else {
        assert(k == 0) by {
            if k > 0 {
                assert(lex_lt(children[0].0, name));
            }
        }
    }
}

/// The trie after inserting one path, given as its component sequence. An
/// existing child of the leading name is reused, a missing one is created
/// at its ordered position; the node for the last component is marked as a
/// file. Inserting an empty component sequence changes nothing.
pub open spec fn stree_insert(t: SpecTree, parts: Seq<Seq<char>>) -> SpecTree
    decreases parts.len(),
{
    if parts.len() == 0 {
        t
    } else {
        let head = parts[0];
        let p = insert_pos(t.children, head);
        if 0 <= p < t.children.len() && t.children[p].0 == head {
            let sub = t.children[p].1;
            let sub2 = if parts.len() == 1 {
                SpecTree { children: sub.children, is_file: true }
            } else {
                stree_insert(sub, parts.skip(1))
            };
            SpecTree { children: t.children.update(p, (head, sub2)), is_file: t.is_file }
        } else {
            let sub2 = if parts.len() == 1 {
                SpecTree { children: Seq::empty(), is_file: true }
            } else {
                stree_insert(empty_tree(), parts.skip(1))
            };
            SpecTree { children: t.children.insert(p, (head, sub2)), is_file: t.is_file }
        }
    }
}


/// The connector drawn before a child that has later siblings.
pub open spec fn tee_connector() -> Seq<char> {
    seq!['├', '─', '─', ' ']
}

/// The connector drawn before the last child of its parent.
pub open spec fn elbow_connector() -> Seq<char> {
    seq!['└', '─', '─', ' ']
}

/// The indentation guide below a child that has later siblings.
pub open spec fn bar_guide() -> Seq<char> {
    seq!['│', ' ', ' ', ' ']
}

/// The indentation guide below the last child of its parent.
pub open spec fn blank_guide() -> Seq<char> {
    seq![' ', ' ', ' ', ' ']
}

/// The rendering of the children of `t` from index `i` on, each line
/// prefixed by `prefix`, a tee connector before every child but the last
/// and an elbow before the last, and each child's own children indented by
/// the matching guide.
pub open spec fn spec_render_from(t: SpecTree, prefix: Seq<char>, i: int) -> Seq<char>
    decreases t, t.children.len() - i,
{
    if i < 0 || i >= t.children.len() {
        Seq::empty()
    } else {
        let name = t.children[i].0;
        let child = t.children[i].1;
        let last = i + 1 == t.children.len();
        let connector = if last {
            elbow_connector()
        } else {
            tee_connector()
        };
        let guide = if last {
            blank_guide()
        } else {
            bar_guide()
        };
        prefix + connector + name + seq!['\n'] + spec_render(child, prefix + guide)
            + spec_render_from(t, prefix, i + 1)
    }
}

/// The rendering of the whole subtree below `t`.
pub open spec fn spec_render(t: SpecTree, prefix: Seq<char>) -> Seq<char>
    decreases t, t.children.len() + 1,
{
    spec_render_from(t, prefix, 0)
}

impl TreeNode {
    /// Creates an empty trie node.
    pub fn new() -> (r: TreeNode)
        ensures
            r@ == empty_tree(),
    {
        let r = TreeNode { children: Vec::new(), is_file: false };
        proof {
            lemma_view_children(r);
            assert(r@.children =~= empty_tree().children);
            assert(r@ =~= empty_tree());
        }
        r
    }

    /// Inserts a path, given as its component sequence, into the trie.
    pub fn insert(&mut self, parts: &[String])
        ensures
            final(self)@ == stree_insert(old(self)@, parts@.map_values(|s: String| s@)),
    {
        proof {
            assert(parts@.map_values(|s: String| s@).skip(0)
                =~= parts@.map_values(|s: String| s@));
        }
        self.insert_from(parts, 0);
    }

    /// Inserts the components of `parts` from index `i` on.
    fn insert_from(&mut self, parts: &[String], i: usize)
        requires
            i <= parts@.len(),
        ensures
            final(self)@ == stree_insert(old(self)@, parts@.map_values(|s: String| s@).skip(i as int)),
        decreases parts@.len() - i,
    {
        let ghost tail = parts@.map_values(|s: String| s@).skip(i as int);
        if i == parts.len() {
            return;
        }
        let head: &String = &parts[i];
        proof {
            assert(tail[0] == head@);
        }
        let mut p: usize = 0;
        while p < self.children.len()
            && lex_lt_str(self.children[p].name.as_str(), head.as_str())
            invariant
                0 <= p <= self.children@.len(),
                forall|j: int| 0 <= j < p ==> lex_lt(#[trigger] self.children@[j].name@, head@),
                *self == *old(self),
            decreases self.children@.len() - p,
        {
            p = p + 1;
        }
        proof {
            lemma_view_children(*self);
            assert(forall|j: int| 0 <= j < p ==> lex_lt((#[trigger] self@.children[j]).0, head@));
            assert(p < self@.children.len() ==> !lex_lt(self@.children[p as int].0, head@));
            lemma_insert_pos_is(self@.children, head@, p as int);
        }
        let found = p < self.children.len() && str_eq(self.children[p].name.as_str(), head.as_str());
        if found {
            let edge = &mut self.children[p];
            if i + 1 == parts.len() {
                edge.node.is_file = true;
                proof {
                    assert(tail.len() == 1);
                    lemma_view_children(*old(self));
                    lemma_view_children(*self);
                    let sub = old(self)@.children[p as int].1;
                    let sub2 = SpecTree { children: sub.children, is_file: true };
                    assert(self.children@[p as int].node@.children =~= sub.children);
                    assert(self.children@[p as int].node@ =~= sub2);
                    assert(self@.children =~= stree_insert(old(self)@, tail).children);
                    assert(self@ =~= stree_insert(old(self)@, tail));
                }
            } else {
                proof {
                    assert(tail.skip(1) =~= parts@.map_values(|s: String| s@).skip(i + 1));
                }
                edge.node.insert_from(parts, i + 1);
                proof {
                    lemma_view_children(*old(self));
                    lemma_view_children(*self);
                    let sub = old(self)@.children[p as int].1;
                    let sub2 = stree_insert(sub, tail.skip(1));
                    assert(self.children@[p as int].node@ == sub2);
                    assert(self@.children =~= stree_insert(old(self)@, tail).children);
                    assert(self@ =~= stree_insert(old(self)@, tail));
                }
            }
        } else {
            let mut fresh = TreeNode::new();
            if i + 1 == parts.len() {
                fresh.is_file = true;
                let e = TreeEdge { name: head.clone(), node: fresh };
                self.children.insert(p, e);
                proof {
                    assert(tail.len() == 1);
                    lemma_view_children(*old(self));
                    lemma_view_children(*self);
                    let sub2 = SpecTree { children: Seq::empty(), is_file: true };
                    assert(self.children@[p as int].node@.children =~= sub2.children);
                    assert(self.children@[p as int].node@ =~= sub2);
                    assert(self@.children =~= stree_insert(old(self)@, tail).children);
                    assert(self@ =~= stree_insert(old(self)@, tail));
                }
            } else {
                proof {
                    assert(tail.skip(1) =~= parts@.map_values(|s: String| s@).skip(i + 1));
                }
                fresh.insert_from(parts, i + 1);
                let e = TreeEdge { name: head.clone(), node: fresh };
                self.children.insert(p, e);
                proof {
                    lemma_view_children(*old(self));
                    lemma_view_children(*self);
                    let sub2 = stree_insert(empty_tree(), tail.skip(1));
                    assert(self.children@[p as int].node@ == sub2);
                    assert(self@.children =~= stree_insert(old(self)@, tail).children);
                    assert(self@ =~= stree_insert(old(self)@, tail));
                }
            }
        }
    }

    /// Renders the subtree below this node as an ASCII tree diagram, each
    /// line indented by `prefix`.
    pub fn to_string_tree(&self, prefix: &str) -> (r: String)
        ensures
            r@ == spec_render(self@, prefix@),
        decreases *self,
    {
        let tee = "├── ";
        let elbow = "└── ";
        let bar = "│   ";
        let blank = "    ";
        let nl = "\n";
        proof {
            reveal_strlit("├── ");
            reveal_strlit("└── ");
            reveal_strlit("│   ");
            reveal_strlit("    ");
            reveal_strlit("\n");
            assert(tee@ =~= tee_connector());
            assert(elbow@ =~= elbow_connector());
            assert(bar@ =~= bar_guide());
            assert(blank@ =~= blank_guide());
            assert(nl@ =~= seq!['\n']);
            lemma_view_children(*self);
        }
        let mut out = String::new();
        let mut i: usize = 0;
        while i < self.children.len()
            invariant
                0 <= i <= self.children@.len(),
                tee@ == tee_connector(),
                elbow@ == elbow_connector(),
                bar@ == bar_guide(),
                blank@ == blank_guide(),
                nl@ == seq!['\n'],
                spec_render(self@, prefix@) == out@ + spec_render_from(self@, prefix@, i as int),
            decreases self.children@.len() - i,
        {
            proof {
                lemma_view_children(*self);
                assert(decreases_to!(self.children@ => self.children@[i as int]));
                assert(decreases_to!(*self => self.children@[i as int].node));
            }
            let ghost out0 = out@;
            let last = i + 1 == self.children.len();
            out.append(prefix);
            out.append(if last { elbow } else { tee });
            out.append(self.children[i].name.as_str());
            out.append(nl);
            let mut child_prefix = String::from_str(prefix);
            child_prefix.append(if last { blank } else { bar });
            let sub = self.children[i].node.to_string_tree(child_prefix.as_str());
            out.append(sub.as_str());
            proof {
                let tv = self@;
                let connector = if last { elbow_connector() } else { tee_connector() };
                let guide = if last { blank_guide() } else { bar_guide() };
                assert(tv.children[i as int].0 == self.children@[i as int].name@);
                assert(tv.children[i as int].1 == self.children@[i as int].node@);
                assert(sub@ == spec_render(tv.children[i as int].1, prefix@ + guide));
                assert(out@ =~= out0 + (prefix@ + connector + tv.children[i as int].0
                    + seq!['\n'] + spec_render(tv.children[i as int].1, prefix@ + guide)));
                assert(spec_render_from(tv, prefix@, i as int)
                    =~= prefix@ + connector + tv.children[i as int].0 + seq!['\n']
                        + spec_render(tv.children[i as int].1, prefix@ + guide)
                        + spec_render_from(tv, prefix@, i + 1));
                assert(spec_render(tv, prefix@) =~= out@ + spec_render_from(tv, prefix@, i + 1));
            }
            i = i + 1;
        }
        proof {
            assert(spec_render_from(self@, prefix@, i as int) =~= Seq::<char>::empty());
            assert(out@ =~= spec_render(self@, prefix@));
        }
        out
    }
}

/// The components a selected path contributes to the tree: its path
/// relative to the base directory, split at separators.
pub open spec fn parts_of(folder: Seq<char>, path: Seq<char>) -> Seq<Seq<char>> {
    components_of(rel_of(folder, path))
}

/// The trie holding every selected path, built left to right.
pub open spec fn tree_of(folder: Seq<char>, paths: Seq<Seq<char>>) -> SpecTree
    decreases paths.len(),
{
    if paths.len() == 0 {
        empty_tree()
    } else {
        stree_insert(tree_of(folder, paths.drop_last()), parts_of(folder, paths.last()))
    }
}

/// Builds the ASCII tree diagram over the selected files' paths, each taken
/// relative to the base directory.
pub fn build_filetree(folder_path: &str, files: &Vec<FileNodeInput>) -> (r: String)
    ensures
        r@ == spec_render(
            tree_of(folder_path@, files@.map_values(|f: FileNodeInput| f.path@)),
            Seq::empty(),
        ),
{
    let ghost paths = files@.map_values(|f: FileNodeInput| f.path@);
    let mut root = TreeNode::new();
    let mut k: usize = 0;
    while k < files.len()
        invariant
            0 <= k <= files@.len(),
            paths == files@.map_values(|f: FileNodeInput| f.path@),
            root@ == tree_of(folder_path@, paths.take(k as int)),
        decreases files@.len() - k,
    {
        let rel = relative_to(folder_path, files[k].path.as_str());
        let parts = split_components(rel.as_str());
        root.insert(parts.as_slice());
        proof {
            assert(parts@.map_values(|s: String| s@) == parts_of(folder_path@, paths[k as int]));
            assert(paths.take(k + 1).drop_last() =~= paths.take(k as int));
            assert(paths.take(k + 1).last() == paths[k as int]);
        }
        k = k + 1;
    }
    proof {
        assert(paths.take(files@.len() as int) =~= paths);
    }
    let empty_prefix = "";
    proof {
        reveal_strlit("");
        assert(empty_prefix@ =~= Seq::<char>::empty());
    }
    root.to_string_tree(empty_prefix)
}

/// Everything `insert_pos` guarantees about its own result.
pub proof fn lemma_insert_pos_props(children: Seq<(Seq<char>, SpecTree)>, name: Seq<char>)
    ensures
        0 <= insert_pos(children, name) <= children.len(),
        forall|j: int| 0 <= j < insert_pos(children, name)
            ==> lex_lt(#[trigger] children[j].0, name),
        insert_pos(children, name) < children.len()
            ==> !lex_lt(children[insert_pos(children, name)].0, name),
    decreases children.len(),
{
    if children.len() != 0 && lex_lt(children[0].0, name) {
        lemma_insert_pos_props(children.skip(1), name);
        assert forall|j: int| 0 <= j < insert_pos(children, name)
            implies lex_lt(#[trigger] children[j].0, name) by {
            if j > 0 {
                assert(children.skip(1)[j - 1] == children[j]);
                assert(lex_lt(children.skip(1)[j - 1].0, name));
            }
        }
        if insert_pos(children, name) < children.len() {
            assert(children.skip(1)[insert_pos(children, name) - 1]
                == children[insert_pos(children, name)]);
        }
    }
}

/// Inserting the same component sequence twice yields the same trie as
/// inserting it once.
pub proof fn lemma_insert_idempotent(t: SpecTree, parts: Seq<Seq<char>>)
    ensures
        stree_insert(stree_insert(t, parts), parts) == stree_insert(t, parts),
    decreases parts.len(),
{
    if parts.len() == 0 {
        return;
    }
    let head = parts[0];
    let p = insert_pos(t.children, head);
    lemma_insert_pos_props(t.children, head);
    let t1 = stree_insert(t, parts);
    if 0 <= p < t.children.len() && t.children[p].0 == head {
        let sub = t.children[p].1;
        let sub2 = if parts.len() == 1 {
            SpecTree { children: sub.children, is_file: true }
        } else {
            stree_insert(sub, parts.skip(1))
        };
        assert(t1.children =~= t.children.update(p, (head, sub2)));
        assert(forall|j: int| 0 <= j < t1.children.len()
            ==> (#[trigger] t1.children[j]).0 == t.children[j].0);
        lemma_insert_pos_is(t1.children, head, p);
        if parts.len() == 1 {
            assert(stree_insert(t1, parts).children
                =~= t1.children.update(p, (head, SpecTree { children: sub2.children, is_file: true })));
            assert(SpecTree { children: sub2.children, is_file: true } =~= sub2);
            assert(stree_insert(t1, parts).children =~= t1.children);
            assert(stree_insert(t1, parts) =~= t1);
        } else {
            lemma_insert_idempotent(sub, parts.skip(1));
            assert(stree_insert(t1, parts).children =~= t1.children);
            assert(stree_insert(t1, parts) =~= t1);
        }
    } else {
        let sub2 = if parts.len() == 1 {
            SpecTree { children: Seq::empty(), is_file: true }
        } else {
            stree_insert(empty_tree(), parts.skip(1))
        };
        assert(t1.children =~= t.children.insert(p, (head, sub2)));
        assert(forall|j: int| 0 <= j < p ==> #[trigger] t1.children[j] == t.children[j]);
        assert(t1.children[p] == (head, sub2));
        assert(!lex_lt(t1.children[p].0, head));
        lemma_insert_pos_is(t1.children, head, p);
        assert(t1.children[p].0 == head);
        if parts.len() == 1 {
            assert(SpecTree { children: sub2.children, is_file: true } =~= sub2);
        } else {
            lemma_insert_idempotent(empty_tree(), parts.skip(1));
        }
        assert(stree_insert(t1, parts).children =~= t1.children.update(p, (head, sub2)));
        assert(stree_insert(t1, parts).children =~= t1.children);
        assert(stree_insert(t1, parts) =~= t1);
    }
}

/// Selecting the same path a second time leaves the trie, and therefore its
/// rendering, exactly as selecting it once left them.
pub proof fn lemma_duplicate_path_render(folder: Seq<char>, paths: Seq<Seq<char>>, p: Seq<char>)
    ensures
        tree_of(folder, paths.push(p).push(p)) == tree_of(folder, paths.push(p)),
        spec_render(tree_of(folder, paths.push(p).push(p)), Seq::empty())
            == spec_render(tree_of(folder, paths.push(p)), Seq::empty()),
{
    assert(paths.push(p).push(p).drop_last() =~= paths.push(p));
    assert(paths.push(p).push(p).last() == p);
    assert(paths.push(p).drop_last() =~= paths);
    assert(paths.push(p).last() == p);
    lemma_insert_idempotent(tree_of(folder, paths), parts_of(folder, p));
}

} // verus!
