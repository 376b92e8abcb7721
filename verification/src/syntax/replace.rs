//! Rebuilding a tree with one element exchanged: every node on the path to
//! the element is copied with the new child, everything else is shared.

use vstd::prelude::*;

use crate::green::{
    forest_bytes, lemma_element_is_node, lemma_forest_split, tree_bytes, tree_children, tree_kind, GreenElement, GreenNode, GreenToken,
    GreenTree,
};
use crate::kind::Syntax;
use crate::syntax::node::{elem_at, lemma_elem_within, lemma_path_prefix, valid_path, walk, SyntaxNode};
use crate::syntax::token::SyntaxToken;

verus! {

/// `t` with the element at `path` replaced by `new`: every node on the path
/// keeps its kind and its other children.
pub open spec fn replace_at(t: GreenTree, path: Seq<usize>, new: GreenTree) -> GreenTree
    decreases path.len(),
{
    if path.len() == 0 {
        new
    } else {
        let parent = elem_at(t, path.drop_last());
        replace_at(
            t,
            path.drop_last(),
            GreenTree::Node {
                kind: tree_kind(parent),
                children: tree_children(parent).update(path.last() as int, new),
            },
        )
    }
}

/// Exchanging a child changes the bytes of a forest by the difference of
/// the two children's lengths.
pub proof fn lemma_forest_update_len(cs: Seq<GreenTree>, i: int, new: GreenTree)
    requires
        0 <= i < cs.len(),
    ensures
        forest_bytes(cs.update(i, new)).len() == forest_bytes(cs).len() - tree_bytes(cs[i]).len()
            + tree_bytes(new).len(),
{
    let us = cs.update(i, new);
    lemma_forest_split(cs, i);
    lemma_forest_split(us, i);
    assert(us.take(i) =~= cs.take(i));
    assert(us.skip(i + 1) =~= cs.skip(i + 1));
}

/// Replacing an element changes the bytes of the whole tree by the difference
/// of the two elements' lengths.
pub proof fn lemma_replace_len(t: GreenTree, path: Seq<usize>, new: GreenTree)
    requires
        valid_path(t, path),
    ensures
        tree_bytes(replace_at(t, path, new)).len() == tree_bytes(t).len() - tree_bytes(elem_at(t, path)).len()
            + tree_bytes(new).len(),
    decreases path.len(),
{
    if path.len() > 0 {
        let p = path.drop_last();
        let parent = elem_at(t, p);
        let i = path.last() as int;
        let w = GreenTree::Node { kind: tree_kind(parent), children: tree_children(parent).update(i, new) };
        lemma_forest_update_len(tree_children(parent), i, new);
        lemma_replace_len(t, p, w);
    }
}

/// Putting back the element that is already there gives the same tree.
pub proof fn lemma_replace_same(t: GreenTree, path: Seq<usize>)
    requires
        valid_path(t, path),
    ensures
        replace_at(t, path, elem_at(t, path)) == t,
    decreases path.len(),
{
    if path.len() > 0 {
        let p = path.drop_last();
        let parent = elem_at(t, p);
        let i = path.last() as int;
        assert(tree_children(parent).update(i, elem_at(t, path)) =~= tree_children(parent));
        assert(parent == GreenTree::Node { kind: tree_kind(parent), children: tree_children(parent) });
        lemma_replace_same(t, p);
    }
}

/// After replacing the element at `path`, the path still leads to an element,
/// and that element is the replacement.
pub proof fn lemma_replace_reads_back(t: GreenTree, path: Seq<usize>, new: GreenTree)
    requires
        valid_path(t, path),
    ensures
        valid_path(replace_at(t, path, new), path),
        elem_at(replace_at(t, path, new), path) == new,
    decreases path.len(),
{
    if path.len() > 0 {
        let p = path.drop_last();
        let parent = elem_at(t, p);
        let i = path.last() as int;
        let w = GreenTree::Node { kind: tree_kind(parent), children: tree_children(parent).update(i, new) };
        lemma_replace_reads_back(t, p, w);
    }
}

/// Builds the tree `root` with the element at `path` replaced by `replacement`.
pub(crate) fn replace_in_tree(root: &GreenNode, path: &Vec<usize>, replacement: GreenElement) -> (r: GreenNode)
    requires
        valid_path(root@, path@),
        path@.len() > 0,
        tree_bytes(root@).len() - tree_bytes(elem_at(root@, path@)).len() + tree_bytes(replacement@).len()
            <= u32::MAX,
    ensures
        r@ == replace_at(root@, path@, replacement@),
{
    let ghost target = replace_at(root@, path@, replacement@);
    let ghost delta = tree_bytes(replacement@).len() - tree_bytes(elem_at(root@, path@)).len();
    let mut k = path.len();
    let mut cur = replacement;
    proof {
        assert(path@.take(k as int) =~= path@);
    }
    while k > 0
        invariant
            valid_path(root@, path@),
            k <= path@.len(),
            path@.len() > 0,
            target == replace_at(root@, path@.take(k as int), cur@),
            delta == tree_bytes(replacement@).len() - tree_bytes(elem_at(root@, path@)).len(),
            tree_bytes(cur@).len() == tree_bytes(elem_at(root@, path@.take(k as int))).len() + delta,
            tree_bytes(root@).len() + delta <= u32::MAX,
            k < path@.len() ==> cur@ is Node,
        decreases k,
    {
        let ghost before = cur@;
        proof {
            lemma_path_prefix(root@, path@, k - 1);
            lemma_elem_within(root@, path@.take(k - 1));
            assert(path@.take(k as int).drop_last() =~= path@.take(k - 1));
            assert(path@.take(k as int).last() == path@[k - 1]);
            lemma_forest_update_len(tree_children(elem_at(root@, path@.take(k - 1))), path@[k - 1] as int, cur@);
        }
        let parent = walk(root, path, k - 1);
        let idx = path[k - 1];
        let node = parent.with_child_replaced(idx, cur);
        cur = GreenElement::Node(node);
        k = k - 1;
    }
    proof {
        assert(path@.take(0) =~= Seq::<usize>::empty());
        assert(target == cur@);
        lemma_element_is_node(cur);
    }
    match cur {
        GreenElement::Node(n) => n,
        GreenElement::Token(_) => vstd::pervasive::unreached(),
    }
}

impl<S: Syntax> SyntaxNode<S> {
    /// The green tree this node belongs to, with this node exchanged for
    /// `replacement`. Only the nodes on the path to this node are rebuilt.
    pub fn replace_with(&self, replacement: GreenNode) -> (r: GreenNode)
        requires
            tree_bytes(self@.root).len() - tree_bytes(elem_at(self@.root, self@.path)).len()
                + tree_bytes(replacement@).len() <= u32::MAX,
        ensures
            r@ == replace_at(self@.root, self@.path, replacement@),
    {
        let root = self.root_green();
        let path = self.path_ref();
        if path.len() == 0 {
            replacement
        } else {
            replace_in_tree(root, path, GreenElement::Node(replacement))
        }
    }
}

impl<S: Syntax> SyntaxToken<S> {
    /// The green tree this token belongs to, with this token exchanged for
    /// `replacement`, which must have the same kind. Only the nodes on the path
    /// to the token are rebuilt.
    pub fn replace_with(&self, replacement: GreenToken) -> (r: GreenNode)
        requires
            tree_kind(replacement@) == tree_kind(elem_at(self@.root, self@.path)),
            tree_bytes(self@.root).len() - tree_bytes(elem_at(self@.root, self@.path)).len()
                + tree_bytes(replacement@).len() <= u32::MAX,
        ensures
            r@ == replace_at(self@.root, self@.path, replacement@),
    {
        let _ = self.green();
        let parent = self.parent();
        let root = parent.root_green();
        let mut path = vstd::slice::slice_to_vec(parent.path_ref().as_slice());
        path.push(self.index());
        proof {
            assert(path@ =~= self@.path);
        }
        replace_in_tree(root, &path, GreenElement::Token(replacement))
    }
}

} // verus!
