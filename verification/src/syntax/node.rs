//! Syntax nodes: positions of green nodes inside a shared root.

use std::marker::PhantomData;
use std::sync::Arc;

use vstd::prelude::*;

use crate::green::{
    elements_view, forest_bytes, lemma_element_is_node, lemma_elements_view_len, lemma_forest_split,
    tree_bytes, tree_children, tree_kind, GreenElement, GreenNode, GreenTree,
};
use crate::kind::{RawSyntaxKind, Syntax};
use crate::text::{TextRange, TextSize};

verus! {

/// The element reached from `root` by following the child indices of `path`.
pub open spec fn elem_at(root: GreenTree, path: Seq<usize>) -> GreenTree
    decreases path.len(),
{
    if path.len() == 0 {
        root
    } else {
        tree_children(elem_at(root, path.drop_last()))[path.last() as int]
    }
}

/// Every step of `path` goes from a node to one of its children.
pub open spec fn valid_path(root: GreenTree, path: Seq<usize>) -> bool
    decreases path.len(),
{
    path.len() == 0 || {
        &&& valid_path(root, path.drop_last())
        &&& elem_at(root, path.drop_last()) is Node
        &&& path.last() < tree_children(elem_at(root, path.drop_last())).len()
    }
}

/// The offset of the element at `path`, relative to the start of `root`: the
/// length of everything before it.
pub open spec fn offset_of(root: GreenTree, path: Seq<usize>) -> nat
    decreases path.len(),
{
    if path.len() == 0 {
        0
    } else {
        offset_of(root, path.drop_last()) + forest_bytes(
            tree_children(elem_at(root, path.drop_last())).take(path.last() as int),
        ).len()
    }
}

/// Each prefix of a valid path is valid and ends at a node holding the next step.
pub proof fn lemma_path_prefix(root: GreenTree, p: Seq<usize>, k: int)
    requires
        valid_path(root, p),
        0 <= k < p.len(),
    ensures
        valid_path(root, p.take(k)),
        valid_path(root, p.take(k + 1)),
        elem_at(root, p.take(k)) is Node,
        p[k] < tree_children(elem_at(root, p.take(k))).len(),
        elem_at(root, p.take(k + 1)) == tree_children(elem_at(root, p.take(k)))[p[k] as int],
        offset_of(root, p.take(k + 1)) == offset_of(root, p.take(k)) + forest_bytes(
            tree_children(elem_at(root, p.take(k))).take(p[k] as int),
        ).len(),
    decreases p.len(),
{
    if k == p.len() - 1 {
        assert(p.take(k + 1) =~= p);
        assert(p.take(k) =~= p.drop_last());
    } else {
        lemma_path_prefix(root, p.drop_last(), k);
        assert(p.drop_last().take(k) =~= p.take(k));
        assert(p.drop_last().take(k + 1) =~= p.take(k + 1));
    }
}

/// The element at a valid path covers exactly its stretch of the root's bytes.
pub proof fn lemma_elem_within(root: GreenTree, path: Seq<usize>)
    requires
        valid_path(root, path),
    ensures
        offset_of(root, path) + tree_bytes(elem_at(root, path)).len() <= tree_bytes(root).len(),
        tree_bytes(elem_at(root, path)) == tree_bytes(root).subrange(
            offset_of(root, path) as int,
            (offset_of(root, path) + tree_bytes(elem_at(root, path)).len()) as int,
        ),
    decreases path.len(),
{
    if path.len() == 0 {
        assert(tree_bytes(root).subrange(0, tree_bytes(root).len() as int) =~= tree_bytes(root));
    } else {
        let p = path.drop_last();
        let i = path.last() as int;
        lemma_elem_within(root, p);
        let e = elem_at(root, p);
        let cs = tree_children(e);
        lemma_forest_split(cs, i);
        let a = forest_bytes(cs.take(i)).len();
        let child = cs[i];
        assert(tree_bytes(e) == forest_bytes(cs));
        let op = offset_of(root, p);
        let whole = tree_bytes(root);
        assert(tree_bytes(child) =~= tree_bytes(e).subrange(a as int, (a + tree_bytes(child).len()) as int));
        assert(tree_bytes(child) =~= whole.subrange((op + a) as int, (op + a + tree_bytes(child).len()) as int));
    }
}

/// Where an element stands: the root of its tree and the path to it.
pub struct Position {
    pub root: GreenTree,
    pub path: Seq<usize>,
}

/// The byte range a position covers in its root.
pub open spec fn position_range(p: Position) -> (nat, nat) {
    (offset_of(p.root, p.path), offset_of(p.root, p.path) + tree_bytes(elem_at(p.root, p.path)).len())
}

/// A node of a syntax tree, at its place in the tree.
#[derive(Debug)]
pub struct SyntaxNode<S: Syntax> {
    root: Arc<GreenNode>,
    path: Vec<usize>,
    offset: TextSize,
    _syntax: PhantomData<S>,
}

impl<S: Syntax> View for SyntaxNode<S> {
    type V = Position;

    closed spec fn view(&self) -> Position {
        Position { root: self.root@, path: self.path@ }
    }
}

impl<S: Syntax> SyntaxNode<S> {
    #[verifier::type_invariant]
    spec fn inv(self) -> bool {
        &&& valid_path(self.root@, self.path@)
        &&& elem_at(self.root@, self.path@) is Node
        &&& self.offset == offset_of(self.root@, self.path@)
        &&& tree_bytes(self.root@).len() <= u32::MAX
    }

    pub(crate) fn from_parts(root: Arc<GreenNode>, path: Vec<usize>, offset: TextSize) -> (n: Self)
        requires
            valid_path(root@, path@),
            elem_at(root@, path@) is Node,
            offset == offset_of(root@, path@),
            tree_bytes(root@).len() <= u32::MAX,
        ensures
            n@ == (Position { root: root@, path: path@ }),
    {
        SyntaxNode { root, path, offset, _syntax: PhantomData }
    }

    /// The path from the root to this node: at each step, the index of the
    /// next node among its parent's children.
    pub(crate) fn path(&self) -> (p: &Vec<usize>)
        ensures
            p@ == self@.path,
    {
        &self.path
    }

    /// Creates the root of a syntax tree over `green`.
    pub fn new_root(green: GreenNode) -> (n: Self)
        ensures
            n@ == (Position { root: green@, path: Seq::empty() }),
    {
        let _len = green.text_len();
        proof {
            green.lemma_view();
        }
        let path: Vec<usize> = Vec::new();
        proof {
            assert(path@ =~= Seq::<usize>::empty());
        }
        SyntaxNode { root: Arc::new(green), path, offset: 0, _syntax: PhantomData }
    }

    /// The green node at this position.
    pub fn green(&self) -> (g: &GreenNode)
        ensures
            g@ == elem_at(self@.root, self@.path),
            valid_path(self@.root, self@.path),
            g@ is Node,
            tree_bytes(self@.root).len() <= u32::MAX,
            position_range(self@).1 <= tree_bytes(self@.root).len(),
    {
        proof {
            use_type_invariant(self);
            lemma_elem_within(self@.root, self@.path);
            assert(self.path@.take(self.path@.len() as int) =~= self.path@);
        }
        walk(&*self.root, &self.path, self.path.len())
    }

    /// The number of children of this node.
    pub fn arity(&self) -> (n: usize)
        ensures
            n == tree_children(elem_at(self@.root, self@.path)).len(),
    {
        let g = self.green();
        proof {
            g.lemma_view();
            lemma_elements_view_len(g.spec_children());
        }
        g.arity()
    }

    /// The offset at which this node starts.
    pub(crate) fn offset(&self) -> (r: TextSize)
        ensures
            r == offset_of(self@.root, self@.path),
    {
        proof {
            use_type_invariant(self);
        }
        self.offset
    }

    /// The node at child `index` of this one, which must be a node.
    pub(crate) fn child_node(&self, index: usize, offset: TextSize) -> (n: Self)
        requires
            index < tree_children(elem_at(self@.root, self@.path)).len(),
            tree_children(elem_at(self@.root, self@.path))[index as int] is Node,
            offset == offset_of(self@.root, self@.path.push(index)),
        ensures
            n@ == (Position { root: self@.root, path: self@.path.push(index) }),
    {
        proof {
            use_type_invariant(self);
        }
        let mut path = vstd::slice::slice_to_vec(self.path.as_slice());
        path.push(index);
        proof {
            assert(path@.drop_last() =~= self.path@);
        }
        SyntaxNode::from_parts(arc_clone(&self.root), path, offset)
    }

    /// The green root of the tree this node belongs to.
    pub(crate) fn root_green(&self) -> (g: &GreenNode)
        ensures
            g@ == self@.root,
            valid_path(self@.root, self@.path),
            elem_at(self@.root, self@.path) is Node,
            tree_bytes(self@.root).len() <= u32::MAX,
    {
        proof {
            use_type_invariant(self);
        }
        &*self.root
    }

    /// The path from the root to this node.
    pub(crate) fn path_ref(&self) -> (p: &Vec<usize>)
        ensures
            p@ == self@.path,
    {
        &self.path
    }

    /// The last step of the path to this node, which must not be the root.
    pub(crate) fn path_last(&self) -> (i: usize)
        requires
            self@.path.len() > 0,
        ensures
            i == self@.path.last(),
    {
        self.path[self.path.len() - 1]
    }

    /// The parent of this node, unless it is the root.
    pub fn parent(&self) -> (p: Option<Self>)
        ensures
            p is None <==> self@.path.len() == 0,
            p matches Some(p) ==> p@ == (Position { root: self@.root, path: self@.path.drop_last() }),
    {
        proof {
            use_type_invariant(self);
        }
        let len = self.path.len();
        if len == 0 {
            return None;
        }
        let k = len - 1;
        proof {
            lemma_path_prefix(self.root@, self.path@, k as int);
            assert(self.path@.take(k + 1) =~= self.path@);
            assert(self.path@.take(k as int) =~= self.path@.drop_last());
            lemma_elem_within(self.root@, self.path@.take(k as int));
        }
        let parent_green = walk(&*self.root, &self.path, k);
        let idx = self.path[k];
        proof {
            parent_green.lemma_view();
            lemma_elements_view_len(parent_green.spec_children());
        }
        let before = parent_green.child_offset(idx);
        let path = vstd::slice::slice_to_vec(vstd::slice::slice_subrange(self.path.as_slice(), 0, k));
        Some(SyntaxNode::from_parts(arc_clone(&self.root), path, self.offset - before))
    }

    /// The raw kind of this node.
    pub fn syntax_kind(&self) -> (k: RawSyntaxKind)
        ensures
            k.0 == tree_kind(elem_at(self@.root, self@.path)),
    {
        self.green().kind()
    }

    /// The kind of this node in terms of the user's syntax.
    pub fn kind(&self) -> (k: S)
        ensures
            k == S::spec_from_raw(tree_kind(elem_at(self@.root, self@.path))),
            crate::kind::raw_is_kind::<S>(tree_kind(elem_at(self@.root, self@.path))) ==> k.spec_into_raw()
                == tree_kind(elem_at(self@.root, self@.path)),
    {
        S::from_raw(self.syntax_kind())
    }

    /// The range this node covers in the source, in bytes.
    pub fn text_range(&self) -> (r: TextRange)
        ensures
            r.spec_start() == position_range(self@).0,
            r.spec_end() == position_range(self@).1,
            r.wf(),
    {
        proof {
            use_type_invariant(self);
        }
        let len = self.green().text_len();
        TextRange::at(self.offset, len)
    }
}

impl<S: Syntax> Clone for SyntaxNode<S> {
    fn clone(&self) -> (r: Self)
        ensures
            r@ == self@,
    {
        proof {
            use_type_invariant(self);
        }
        SyntaxNode::from_parts(arc_clone(&self.root), vstd::slice::slice_to_vec(self.path.as_slice()), self.offset)
    }
}

/// The node reached from `root` after the first `k` steps of `path`.
pub(crate) fn walk<'a>(root: &'a GreenNode, path: &Vec<usize>, k: usize) -> (g: &'a GreenNode)
    requires
        valid_path(root@, path@),
        k <= path@.len(),
        elem_at(root@, path@.take(k as int)) is Node,
    ensures
        g@ == elem_at(root@, path@.take(k as int)),
{
    let mut cur: &GreenNode = root;
    let mut i: usize = 0;
    proof {
        assert(path@.take(0) =~= Seq::<usize>::empty());
        root.lemma_view();
    }
    while i < k
        invariant
            i <= k <= path@.len(),
            valid_path(root@, path@),
            elem_at(root@, path@.take(k as int)) is Node,
            cur@ == elem_at(root@, path@.take(i as int)),
        decreases k - i,
    {
        let idx = path[i];
        proof {
            lemma_path_prefix(root@, path@, i as int);
            cur.lemma_view();
            lemma_elements_view_len(cur.spec_children());
            if i + 1 < path@.len() {
                lemma_path_prefix(root@, path@, i + 1);
            }
            lemma_element_is_node(cur.spec_children()[idx as int]);
        }
        let children = cur.children();
        match &children[idx] {
            GreenElement::Node(n) => {
                cur = n;
            },
            GreenElement::Token(_) => {
                proof {
                    assert(false);
                }
            },
        }
        i = i + 1;
    }
    cur
}

/// Calls `Arc::clone`: the new handle shares the same value.
#[verifier::external_body]
pub(crate) fn arc_clone<T>(a: &Arc<T>) -> (r: Arc<T>)
    ensures
        r == *a,
{
    Arc::clone(a)
}

} // verus!
