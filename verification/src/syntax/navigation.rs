//! Moving around a syntax tree: first and last tokens, siblings, ancestors,
//! and the tokens before and after a token.

use vstd::prelude::*;

use crate::green::{
    arities_fit, elements_view, lemma_forest_arities_fit, forest_bytes, lemma_element_is_node, lemma_elements_view_len, lemma_forest_bytes_append,
    lemma_forest_split, tree_bytes, tree_children, GreenElement, GreenTree,
};
use crate::kind::Syntax;
use crate::syntax::iter::{child_element, child_position};
use crate::syntax::node::{
    elem_at, lemma_elem_within, lemma_path_prefix, offset_of, position_range, valid_path, Position, SyntaxNode,
};
use crate::syntax::token::{is_token_position, SyntaxElement, SyntaxToken};
use crate::util::NodeOrToken;

verus! {

/// The direction in which to walk along siblings.
#[derive(Debug, Clone, Copy, PartialEq, Eq)]
pub enum Direction {
    /// Towards the end of the parent.
    Next,
    /// Towards the start of the parent.
    Prev,
}

/// The depth of a tree: a token has depth 0, a node one more than its deepest child.
pub open spec fn tree_depth(t: GreenTree) -> nat
    decreases t,
{
    match t {
        GreenTree::Token { .. } => 0,
        GreenTree::Node { children, .. } => 1 + forest_depth(children),
    }
}

/// The depth of the deepest tree of `cs`.
pub open spec fn forest_depth(cs: Seq<GreenTree>) -> nat
    decreases cs,
{
    if cs.len() == 0 {
        0
    } else {
        let a = forest_depth(cs.drop_last());
        let b = tree_depth(cs.last());
        if a >= b {
            a
        } else {
            b
        }
    }
}

/// No tree of a forest is deeper than the forest.
pub proof fn lemma_forest_depth(cs: Seq<GreenTree>, i: int)
    requires
        0 <= i < cs.len(),
    ensures
        tree_depth(cs[i]) <= forest_depth(cs),
    decreases cs.len(),
{
    if i < cs.len() - 1 {
        lemma_forest_depth(cs.drop_last(), i);
    }
}

/// The path, relative to `t`, of the token reached by always taking the first
/// child; none where that walk ends at a node without children.
pub open spec fn first_token_path(t: GreenTree) -> Option<Seq<usize>>
    decreases t,
{
    match t {
        GreenTree::Token { .. } => Some(Seq::empty()),
        GreenTree::Node { children, .. } => {
            if children.len() == 0 {
                None
            } else {
                match first_token_path(children[0]) {
                    Some(q) => Some(seq![0usize] + q),
                    None => None,
                }
            }
        },
    }
}

/// The path, relative to `t`, of the token reached by always taking the last
/// child; none where that walk ends at a node without children.
pub open spec fn last_token_path(t: GreenTree) -> Option<Seq<usize>>
    decreases t,
{
    match t {
        GreenTree::Token { .. } => Some(Seq::empty()),
        GreenTree::Node { children, .. } => {
            if children.len() == 0 {
                None
            } else {
                match last_token_path(children[children.len() - 1]) {
                    Some(q) => Some(seq![(children.len() - 1) as usize] + q),
                    None => None,
                }
            }
        },
    }
}

/// The token after the element at `p`: the first token of the nearest next
/// sibling of the element or of one of its ancestors.
pub open spec fn next_token_path(root: GreenTree, p: Seq<usize>) -> Option<Seq<usize>>
    decreases p.len(),
{
    if p.len() == 0 {
        None
    } else {
        let parent = p.drop_last();
        let i = p.last() as int;
        let siblings = tree_children(elem_at(root, parent));
        if i + 1 < siblings.len() {
            match first_token_path(siblings[i + 1]) {
                Some(q) => Some(parent.push((i + 1) as usize) + q),
                None => None,
            }
        } else {
            next_token_path(root, parent)
        }
    }
}

/// The token before the element at `p`: the last token of the nearest
/// previous sibling of the element or of one of its ancestors.
pub open spec fn prev_token_path(root: GreenTree, p: Seq<usize>) -> Option<Seq<usize>>
    decreases p.len(),
{
    if p.len() == 0 {
        None
    } else {
        let parent = p.drop_last();
        let i = p.last() as int;
        let siblings = tree_children(elem_at(root, parent));
        if i > 0 {
            match last_token_path(siblings[i - 1]) {
                Some(q) => Some(parent.push((i - 1) as usize) + q),
                None => None,
            }
        } else {
            prev_token_path(root, parent)
        }
    }
}

/// A position that lies further down a path.
pub open spec fn extend_position(p: Position, q: Option<Seq<usize>>) -> Option<Position> {
    match q {
        Some(q) => Some(Position { root: p.root, path: p.path + q }),
        None => None,
    }
}

/// The sibling just after the element at `p`, if any.
pub open spec fn sibling_after(p: Position) -> Option<NodeOrToken<Position, Position>> {
    if p.path.len() > 0 && p.path.last() + 1 < tree_children(
        elem_at(p.root, p.path.drop_last()),
    ).len() {
        Some(child_element(Position { root: p.root, path: p.path.drop_last() }, p.path.last() + 1))
    } else {
        None
    }
}

/// The sibling just before the element at `p`, if any.
pub open spec fn sibling_before(p: Position) -> Option<NodeOrToken<Position, Position>> {
    if p.path.len() > 0 && p.path.last() > 0 {
        Some(child_element(Position { root: p.root, path: p.path.drop_last() }, p.path.last() - 1))
    } else {
        None
    }
}

impl<S: Syntax> SyntaxNode<S> {
    /// The child at `index`, node or token.
    pub fn child_or_token(&self, index: usize) -> (e: SyntaxElement<S>)
        requires
            index < tree_children(elem_at(self@.root, self@.path)).len(),
        ensures
            e@ == child_element(self@, index as int),
    {
        let green = self.green();
        let ghost p = self@;
        let ghost cs = tree_children(elem_at(p.root, p.path));
        proof {
            green.lemma_view();
            lemma_elements_view_len(green.spec_children());
            lemma_elem_within(p.root, p.path);
            lemma_forest_split(cs, index as int);
            lemma_element_is_node(green.spec_children()[index as int]);
            assert(child_position(p, index as int).path.drop_last() =~= p.path);
            assert(forest_bytes(cs.take(index as int)).len() <= forest_bytes(cs).len());
        }
        let off = self.offset() + green.child_offset(index);
        match &green.children()[index] {
            GreenElement::Node(_) => NodeOrToken::Node(self.child_node(index, off)),
            GreenElement::Token(_) => NodeOrToken::Token(SyntaxToken::new(self.clone(), index, off)),
        }
    }

    /// The first child, node or token, if there is one.
    pub fn first_child_or_token(&self) -> (e: Option<SyntaxElement<S>>)
        ensures
            e is None <==> tree_children(elem_at(self@.root, self@.path)).len() == 0,
            e matches Some(e) ==> e@ == child_element(self@, 0),
    {
        let n = self.arity();
        if n == 0 {
            None
        } else {
            Some(self.child_or_token(0))
        }
    }

    /// The last child, node or token, if there is one.
    pub fn last_child_or_token(&self) -> (e: Option<SyntaxElement<S>>)
        ensures
            e is None <==> tree_children(elem_at(self@.root, self@.path)).len() == 0,
            e matches Some(e) ==> e@ == child_element(
                self@,
                tree_children(elem_at(self@.root, self@.path)).len() - 1,
            ),
    {
        let n = self.arity();
        if n == 0 {
            None
        } else {
            Some(self.child_or_token(n - 1))
        }
    }

    /// The first token below this node, found by always taking the first child.
    pub fn first_token(&self) -> (t: Option<SyntaxToken<S>>)
        ensures
            t is Some <==> first_token_path(elem_at(self@.root, self@.path)) is Some,
            t matches Some(t) ==> Some(t@) == extend_position(self@, first_token_path(elem_at(self@.root, self@.path))),
    {
        self.edge_token(true)
    }

    /// The last token below this node, found by always taking the last child.
    pub fn last_token(&self) -> (t: Option<SyntaxToken<S>>)
        ensures
            t is Some <==> last_token_path(elem_at(self@.root, self@.path)) is Some,
            t matches Some(t) ==> Some(t@) == extend_position(self@, last_token_path(elem_at(self@.root, self@.path))),
    {
        self.edge_token(false)
    }

    /// The first token (`first`) or the last token below this node.
    fn edge_token(&self, first: bool) -> (t: Option<SyntaxToken<S>>)
        ensures
            ({
                let q = if first {
                    first_token_path(elem_at(self@.root, self@.path))
                } else {
                    last_token_path(elem_at(self@.root, self@.path))
                };
                &&& t is Some <==> q is Some
                &&& t matches Some(t) ==> Some(t@) == extend_position(self@, q)
            }),
    {
        let ghost root = self@.root;
        let ghost start = self@.path;
        let ghost want = if first {
            first_token_path(elem_at(root, start))
        } else {
            last_token_path(elem_at(root, start))
        };
        let mut cur = self.clone();
        let ghost mut acc: Seq<usize> = Seq::empty();
        let _ = self.green();
        proof {
            assert(start + acc =~= start);
        }
        loop
            invariant
                root == self@.root,
                start == self@.path,
                cur@.root == root,
                cur@.path == start + acc,
                valid_path(root, cur@.path),
                elem_at(root, cur@.path) is Node,
                want == (if first {
                    first_token_path(elem_at(root, start))
                } else {
                    last_token_path(elem_at(root, start))
                }),
                want == (match (if first {
                    first_token_path(elem_at(root, cur@.path))
                } else {
                    last_token_path(elem_at(root, cur@.path))
                }) {
                    Some(q) => Some(acc + q),
                    None => None,
                }),
            decreases tree_depth(elem_at(root, cur@.path)),
        {
            let g = cur.green();
            let n = cur.arity();
            let ghost e = elem_at(root, cur@.path);
            let ghost cs = tree_children(e);
            if n == 0 {
                proof {
                    assert(first_token_path(e) is None);
                    assert(last_token_path(e) is None);
                }
                return None;
            }
            let index = if first {
                0
            } else {
                n - 1
            };
            proof {
                lemma_forest_depth(cs, index as int);
                assert(cur@.path.push(index).drop_last() =~= cur@.path);
            }
            match cur.child_or_token(index) {
                NodeOrToken::Token(t) => {
                    proof {
                        assert(cs[index as int] is Token);
                        assert(first_token_path(cs[index as int]) == Some(Seq::<usize>::empty()));
                        assert(last_token_path(cs[index as int]) == Some(Seq::<usize>::empty()));
                        let q = seq![index] + Seq::<usize>::empty();
                        if first {
                            assert(first_token_path(e) == Some(q));
                        } else {
                            assert(last_token_path(e) == Some(q));
                        }
                        assert(acc + q =~= acc.push(index));
                        assert(start + acc.push(index) =~= cur@.path.push(index));
                    }
                    return Some(t);
                },
                NodeOrToken::Node(child) => {
                    proof {
                        assert(start + acc.push(index) =~= cur@.path.push(index));
                        assert forall|q: Seq<usize>| #[trigger] (acc + (seq![index] + q)) == acc.push(index) + q by {
                            assert(acc + (seq![index] + q) =~= acc.push(index) + q);
                        }
                        acc = acc.push(index);
                    }
                    cur = child;
                },
            }
        }
    }

    /// The element right after this node among its parent's children.
    pub fn next_sibling_or_token(&self) -> (e: Option<SyntaxElement<S>>)
        ensures
            e is Some <==> sibling_after(self@) is Some,
            e matches Some(e) ==> Some(e@) == sibling_after(self@),
            self@.path.len() > 0 ==> tree_children(elem_at(self@.root, self@.path.drop_last())).len() <= usize::MAX,
    {
        let _ = self.green();
        match self.parent() {
            None => None,
            Some(parent) => {
                let index = self.index_in_parent();
                let n = parent.arity();
                if index + 1 < n {
                    Some(parent.child_or_token(index + 1))
                } else {
                    None
                }
            },
        }
    }

    /// The element right before this node among its parent's children.
    pub fn prev_sibling_or_token(&self) -> (e: Option<SyntaxElement<S>>)
        ensures
            e is Some <==> sibling_before(self@) is Some,
            e matches Some(e) ==> Some(e@) == sibling_before(self@),
            self@.path.len() > 0 ==> tree_children(elem_at(self@.root, self@.path.drop_last())).len() <= usize::MAX,
    {
        let _ = self.green();
        match self.parent() {
            None => None,
            Some(parent) => {
                let index = self.index_in_parent();
                let _ = parent.arity();
                if index > 0 {
                    proof {
                        lemma_path_prefix(self@.root, self@.path, self@.path.len() - 1);
                        assert(self@.path.take(self@.path.len() - 1) =~= self@.path.drop_last());
                    }
                    Some(parent.child_or_token(index - 1))
                } else {
                    None
                }
            },
        }
    }

    /// This node and its ancestors, innermost first, up to the root.
    pub fn ancestors(&self) -> (r: Vec<SyntaxNode<S>>)
        ensures
            r@.len() == self@.path.len() + 1,
            forall|i: int|
                0 <= i < r@.len() ==> #[trigger] r@[i]@ == (Position {
                    root: self@.root,
                    path: self@.path.take(self@.path.len() - i),
                }),
    {
        let mut out: Vec<SyntaxNode<S>> = Vec::new();
        let mut cur = self.clone();
        proof {
            assert(self@.path.take(self@.path.len() as int) =~= self@.path);
        }
        loop
            invariant
                cur@.root == self@.root,
                cur@.path.len() + out@.len() == self@.path.len(),
                cur@.path == self@.path.take(cur@.path.len() as int),
                forall|i: int|
                    0 <= i < out@.len() ==> #[trigger] out@[i]@ == (Position {
                        root: self@.root,
                        path: self@.path.take(self@.path.len() - i),
                    }),
            decreases cur@.path.len(),
        {
            let next = cur.parent();
            let ghost before = out@;
            out.push(cur);
            match next {
                None => {
                    return out;
                },
                Some(p) => {
                    proof {
                        assert(p@.path =~= self@.path.take(p@.path.len() as int));
                    }
                    cur = p;
                },
            }
        }
    }
}

impl<S: Syntax> SyntaxNode<S> {
    /// The index of this node among its parent's children; this node must
    /// not be the root.
    fn index_in_parent(&self) -> (i: usize)
        requires
            self@.path.len() > 0,
        ensures
            i == self@.path.last(),
            i < tree_children(elem_at(self@.root, self@.path.drop_last())).len(),
    {
        let _ = self.green();
        proof {
            lemma_path_prefix(self@.root, self@.path, self@.path.len() - 1);
            assert(self@.path.take(self@.path.len() - 1) =~= self@.path.drop_last());
        }
        self.path_last()
    }
}

/// The first token of an element: the token itself, or the first token below the node.
pub fn element_first_token<S: Syntax>(e: &SyntaxElement<S>) -> (t: Option<SyntaxToken<S>>)
    ensures
        ({
            let p = match e@ {
                NodeOrToken::Node(p) => p,
                NodeOrToken::Token(p) => p,
            };
            &&& t is Some <==> first_token_path(elem_at(p.root, p.path)) is Some
            &&& t matches Some(t) ==> Some(t@) == extend_position(p, first_token_path(elem_at(p.root, p.path)))
        }),
{
    match e {
        NodeOrToken::Node(n) => n.first_token(),
        NodeOrToken::Token(t) => {
            let _ = t.green();
            proof {
                assert(t@.path + Seq::<usize>::empty() =~= t@.path);
            }
            Some(t.clone())
        },
    }
}

/// The last token of an element: the token itself, or the last token below the node.
pub fn element_last_token<S: Syntax>(e: &SyntaxElement<S>) -> (t: Option<SyntaxToken<S>>)
    ensures
        ({
            let p = match e@ {
                NodeOrToken::Node(p) => p,
                NodeOrToken::Token(p) => p,
            };
            &&& t is Some <==> last_token_path(elem_at(p.root, p.path)) is Some
            &&& t matches Some(t) ==> Some(t@) == extend_position(p, last_token_path(elem_at(p.root, p.path)))
        }),
{
    match e {
        NodeOrToken::Node(n) => n.last_token(),
        NodeOrToken::Token(t) => {
            let _ = t.green();
            proof {
                assert(t@.path + Seq::<usize>::empty() =~= t@.path);
            }
            Some(t.clone())
        },
    }
}

/// The index of the `k`-th element when walking from child `i` in `direction`.
pub open spec fn step_index(i: int, k: int, direction: Direction) -> int {
    match direction {
        Direction::Next => i + k,
        Direction::Prev => i - k,
    }
}

/// The number of elements met when walking from child `i` of `n` in `direction`.
pub open spec fn walk_len(i: int, n: int, direction: Direction) -> int {
    match direction {
        Direction::Next => n - i,
        Direction::Prev => i + 1,
    }
}

impl<S: Syntax> SyntaxToken<S> {
    /// The element right after this token among its parent's children.
    pub fn next_sibling_or_token(&self) -> (e: Option<SyntaxElement<S>>)
        ensures
            e is Some <==> sibling_after(self@) is Some,
            e matches Some(e) ==> Some(e@) == sibling_after(self@),
            self@.path.len() > 0 ==> tree_children(elem_at(self@.root, self@.path.drop_last())).len() <= usize::MAX,
    {
        let _ = self.green();
        let parent = self.parent();
        let index = self.index();
        let n = parent.arity();
        if index + 1 < n {
            Some(parent.child_or_token(index + 1))
        } else {
            None
        }
    }

    /// The element right before this token among its parent's children.
    pub fn prev_sibling_or_token(&self) -> (e: Option<SyntaxElement<S>>)
        ensures
            e is Some <==> sibling_before(self@) is Some,
            e matches Some(e) ==> Some(e@) == sibling_before(self@),
            self@.path.len() > 0 ==> tree_children(elem_at(self@.root, self@.path.drop_last())).len() <= usize::MAX,
    {
        let _ = self.green();
        let parent = self.parent();
        let index = self.index();
        let _ = parent.arity();
        if index > 0 {
            Some(parent.child_or_token(index - 1))
        } else {
            None
        }
    }

    /// The ancestors of this token, innermost first, up to the root.
    pub fn ancestors(&self) -> (r: Vec<SyntaxNode<S>>)
        ensures
            r@.len() == self@.path.len(),
            forall|i: int|
                0 <= i < r@.len() ==> #[trigger] r@[i]@ == (Position {
                    root: self@.root,
                    path: self@.path.take(self@.path.len() - 1 - i),
                }),
    {
        let _ = self.green();
        let r = self.parent().ancestors();
        proof {
            assert forall|i: int| 0 <= i < r@.len() implies #[trigger] r@[i]@ == (Position {
                root: self@.root,
                path: self@.path.take(self@.path.len() - 1 - i),
            }) by {
                assert(self@.path.drop_last().take(self@.path.len() - 1 - i) =~= self@.path.take(self@.path.len() - 1 - i));
            }
        }
        r
    }

    /// This token and the siblings after it (`Next`) or before it (`Prev`),
    /// in the order of walking away from it.
    pub fn siblings_with_tokens(&self, direction: Direction) -> (r: Vec<SyntaxElement<S>>)
        ensures
            ({
                let parent = Position { root: self@.root, path: self@.path.drop_last() };
                let i = self@.path.last() as int;
                let n = tree_children(elem_at(self@.root, self@.path.drop_last())).len() as int;
                &&& r@.len() == walk_len(i, n, direction)
                &&& forall|k: int| 0 <= k < r@.len() ==> #[trigger] r@[k]@ == child_element(parent, step_index(i, k, direction))
            }),
            r@.len() > 0,
            r@[0]@ == NodeOrToken::<Position, Position>::Token(self@),
    {
        let _ = self.green();
        let parent = self.parent();
        let index = self.index();
        let n = parent.arity();
        let mut out: Vec<SyntaxElement<S>> = Vec::new();
        let mut k: usize = 0;
        let count: usize = match direction {
            Direction::Next => n - index,
            Direction::Prev => index + 1,
        };
        while k < count
            invariant
                parent@ == (Position { root: self@.root, path: self@.path.drop_last() }),
                index == self@.path.last(),
                n == tree_children(elem_at(self@.root, self@.path.drop_last())).len(),
                index < n,
                count == walk_len(index as int, n as int, direction),
                k <= count,
                out@.len() == k,
                forall|j: int| 0 <= j < k ==> #[trigger] out@[j]@ == child_element(parent@, step_index(index as int, j, direction)),
            decreases count - k,
        {
            let at = match direction {
                Direction::Next => index + k,
                Direction::Prev => index - k,
            };
            out.push(parent.child_or_token(at));
            k = k + 1;
        }
        proof {
            assert(parent@.path.push(index) =~= self@.path);
            assert(out@[0]@ == child_element(parent@, index as int));
        }
        out
    }

    /// The token after this one: the first token of the nearest next sibling
    /// of this token or of one of its ancestors.
    pub fn next_token(&self) -> (r: Option<SyntaxToken<S>>)
        ensures
            r is Some <==> next_token_path(self@.root, self@.path) is Some,
            r matches Some(t) ==> t@ == (Position {
                root: self@.root,
                path: next_token_path(self@.root, self@.path)->0,
            }),
    {
        self.adjacent_token(true)
    }

    /// The token before this one: the last token of the nearest previous
    /// sibling of this token or of one of its ancestors.
    pub fn prev_token(&self) -> (r: Option<SyntaxToken<S>>)
        ensures
            r is Some <==> prev_token_path(self@.root, self@.path) is Some,
            r matches Some(t) ==> t@ == (Position {
                root: self@.root,
                path: prev_token_path(self@.root, self@.path)->0,
            }),
    {
        self.adjacent_token(false)
    }

    /// The token after (`forward`) or before this one.
    fn adjacent_token(&self, forward: bool) -> (r: Option<SyntaxToken<S>>)
        ensures
            ({
                let want = if forward {
                    next_token_path(self@.root, self@.path)
                } else {
                    prev_token_path(self@.root, self@.path)
                };
                &&& r is Some <==> want is Some
                &&& r matches Some(t) ==> t@ == (Position { root: self@.root, path: want->0 })
            }),
    {
        let _ = self.green();
        let ghost root = self@.root;
        let ghost want = if forward {
            next_token_path(root, self@.path)
        } else {
            prev_token_path(root, self@.path)
        };
        let sibling = if forward {
            self.next_sibling_or_token()
        } else {
            self.prev_sibling_or_token()
        };
        if let Some(e) = sibling {
            return Self::edge_of_element(&e, forward, Ghost(self@.path));
        }
        let mut cur = self.parent().clone();
        let _ = cur.green();
        loop
            invariant
                root == self@.root,
                cur@.root == root,
                valid_path(root, cur@.path),
                want == (if forward {
                    next_token_path(root, self@.path)
                } else {
                    prev_token_path(root, self@.path)
                }),
                want == (if forward {
                    next_token_path(root, cur@.path)
                } else {
                    prev_token_path(root, cur@.path)
                }),
            decreases cur@.path.len(),
        {
            let sibling = if forward {
                cur.next_sibling_or_token()
            } else {
                cur.prev_sibling_or_token()
            };
            if let Some(e) = sibling {
                return Self::edge_of_element(&e, forward, Ghost(cur@.path));
            }
            match cur.parent() {
                None => {
                    return None;
                },
                Some(p) => {
                    let _ = p.green();
                    cur = p;
                },
            }
        }
    }

    /// The first (`forward`) or last token of `e`, the sibling after or
    /// before the element at `from`.
    fn edge_of_element(e: &SyntaxElement<S>, forward: bool, Ghost(from): Ghost<Seq<usize>>) -> (r: Option<SyntaxToken<S>>)
        requires
            from.len() > 0,
            valid_path(e_root(e@), from),
            tree_children(elem_at(e_root(e@), from.drop_last())).len() <= usize::MAX,
            forward ==> Some(e@) == sibling_after(Position { root: e_root(e@), path: from }),
            !forward ==> Some(e@) == sibling_before(Position { root: e_root(e@), path: from }),
        ensures
            ({
                let want = if forward {
                    next_token_path(e_root(e@), from)
                } else {
                    prev_token_path(e_root(e@), from)
                };
                &&& r is Some <==> want is Some
                &&& r matches Some(t) ==> t@ == (Position { root: e_root(e@), path: want->0 })
            }),
    {
        let ghost root = e_root(e@);
        let ghost parent = from.drop_last();
        let ghost i = from.last() as int;
        let ghost j = if forward {
            i + 1
        } else {
            i - 1
        };
        proof {
            assert(parent.push(j as usize).drop_last() =~= parent);
        }
        let r = if forward {
            element_first_token(e)
        } else {
            element_last_token(e)
        };
        proof {
            let pp = Position { root, path: parent };
            let siblings = tree_children(elem_at(root, parent));
            if forward {
                assert(sibling_after(Position { root, path: from }) == Some(child_element(pp, j)));
            } else {
                assert(sibling_before(Position { root, path: from }) == Some(child_element(pp, j)));
            }
            assert(0 <= j < siblings.len());
            assert(e@ == child_element(pp, j));
            let ep = child_position(pp, j);
            assert(ep.path == parent.push(j as usize));
            assert(ep.path.drop_last() =~= parent);
            assert(ep.path.last() as int == j);
            assert(elem_at(root, ep.path) == tree_children(elem_at(root, ep.path.drop_last()))[ep.path.last() as int]);
            assert(elem_at(root, ep.path) == siblings[j]);
            if forward {
                assert(next_token_path(root, from) == (match first_token_path(siblings[j]) {
                    Some(q) => Some(parent.push(j as usize) + q),
                    None => None,
                }));
            } else {
                assert(prev_token_path(root, from) == (match last_token_path(siblings[j]) {
                    Some(q) => Some(parent.push(j as usize) + q),
                    None => None,
                }));
            }
        }
        r
    }
}

/// The root of the tree an element belongs to.
pub open spec fn e_root(e: NodeOrToken<Position, Position>) -> GreenTree {
    match e {
        NodeOrToken::Node(p) => p.root,
        NodeOrToken::Token(p) => p.root,
    }
}

/// Following `b` from the element at `a` is following `a + b` from the root,
/// and offsets add up along the way.
pub proof fn lemma_path_append(root: GreenTree, a: Seq<usize>, b: Seq<usize>)
    requires
        valid_path(root, a),
    ensures
        elem_at(root, a + b) == elem_at(elem_at(root, a), b),
        valid_path(root, a + b) == valid_path(elem_at(root, a), b),
        offset_of(root, a + b) == offset_of(root, a) + offset_of(elem_at(root, a), b),
    decreases b.len(),
{
    if b.len() == 0 {
        assert(a + b =~= a);
    } else {
        lemma_path_append(root, a, b.drop_last());
        assert((a + b).drop_last() =~= a + b.drop_last());
        assert((a + b).last() == b.last());
    }
}

/// The first token of a tree, where there is one, is a token inside it that
/// starts where the tree starts.
pub proof fn lemma_first_token_path(t: GreenTree)
    ensures
        first_token_path(t) matches Some(r) ==> valid_path(t, r) && elem_at(t, r) is Token && offset_of(t, r)
            == 0,
    decreases t,
{
    if let GreenTree::Node { children, .. } = t {
        if children.len() > 0 {
            lemma_first_token_path(children[0]);
            if let Some(r0) = first_token_path(children[0]) {
                let head = seq![0usize];
                assert(head.drop_last() =~= Seq::<usize>::empty());
                assert(valid_path(t, Seq::<usize>::empty()));
                assert(elem_at(t, Seq::<usize>::empty()) == t);
                assert(offset_of(t, Seq::<usize>::empty()) == 0);
                assert(valid_path(t, head));
                assert(elem_at(t, head) == children[0]);
                assert(children.take(0) =~= Seq::<GreenTree>::empty());
                assert(offset_of(t, head) == 0);
                lemma_path_append(t, head, r0);
            }
        }
    }
}

/// The last token of a tree, where there is one, is a token inside it that
/// ends where the tree ends.
pub proof fn lemma_last_token_path(t: GreenTree)
    requires
        arities_fit(t),
    ensures
        last_token_path(t) matches Some(r) ==> valid_path(t, r) && elem_at(t, r) is Token && offset_of(t, r)
            + tree_bytes(elem_at(t, r)).len() == tree_bytes(t).len(),
    decreases t,
{
    if let GreenTree::Node { children, .. } = t {
        if children.len() > 0 {
            let n = children.len() - 1;
            lemma_forest_arities_fit(children, n);
            lemma_last_token_path(children[n]);
            if let Some(r0) = last_token_path(children[n]) {
                let head = seq![n as usize];
                assert(head.drop_last() =~= Seq::<usize>::empty());
                assert(valid_path(t, Seq::<usize>::empty()));
                assert(elem_at(t, Seq::<usize>::empty()) == t);
                assert(offset_of(t, Seq::<usize>::empty()) == 0);
                assert(valid_path(t, head));
                assert(elem_at(t, head) == children[n]);
                lemma_forest_split(children, n);
                assert(children.skip(n + 1) =~= Seq::<GreenTree>::empty());
                lemma_path_append(t, head, r0);
            }
        }
    }
}

/// Every element of a tree whose nodes have at most `usize::MAX` children
/// has the same property.
pub proof fn lemma_elem_arities(root: GreenTree, p: Seq<usize>)
    requires
        arities_fit(root),
        valid_path(root, p),
    ensures
        arities_fit(elem_at(root, p)),
    decreases p.len(),
{
    if p.len() > 0 {
        lemma_elem_arities(root, p.drop_last());
        lemma_forest_arities_fit(tree_children(elem_at(root, p.drop_last())), p.last() as int);
    }
}

/// A child lies inside its parent: it starts no earlier and ends no later.
proof fn lemma_child_within(root: GreenTree, p: Seq<usize>)
    requires
        valid_path(root, p),
        p.len() > 0,
    ensures
        valid_path(root, p.drop_last()),
        offset_of(root, p.drop_last()) <= offset_of(root, p),
        offset_of(root, p) + tree_bytes(elem_at(root, p)).len() <= offset_of(root, p.drop_last()) + tree_bytes(
            elem_at(root, p.drop_last()),
        ).len(),
{
    let cs = tree_children(elem_at(root, p.drop_last()));
    let i = p.last() as int;
    lemma_forest_split(cs, i);
}

/// The token after an element, where there is one, starts no earlier than
/// the element ends: it lies further right in the tree.
pub proof fn lemma_next_token_after(root: GreenTree, p: Seq<usize>)
    requires
        valid_path(root, p),
        arities_fit(root),
    ensures
        next_token_path(root, p) matches Some(q) ==> {
            &&& valid_path(root, q)
            &&& elem_at(root, q) is Token
            &&& offset_of(root, q) >= offset_of(root, p) + tree_bytes(elem_at(root, p)).len()
        },
    decreases p.len(),
{
    if p.len() > 0 {
        let parent = p.drop_last();
        let i = p.last() as int;
        let cs = tree_children(elem_at(root, parent));
        lemma_child_within(root, p);
        lemma_elem_arities(root, parent);
        if i + 1 < cs.len() {
            let sib = parent.push((i + 1) as usize);
            assert(sib.drop_last() =~= parent);
            assert(valid_path(root, sib));
            assert(elem_at(root, sib) == cs[i + 1]);
            lemma_forest_split(cs, i);
            assert(offset_of(root, sib) == offset_of(root, p) + tree_bytes(cs[i]).len());
            lemma_first_token_path(cs[i + 1]);
            if let Some(r) = first_token_path(cs[i + 1]) {
                lemma_path_append(root, sib, r);
            }
        } else {
            lemma_next_token_after(root, parent);
        }
    }
}

/// The token before an element, where there is one, ends no later than the
/// element starts: it lies further left in the tree.
pub proof fn lemma_prev_token_before(root: GreenTree, p: Seq<usize>)
    requires
        valid_path(root, p),
        arities_fit(root),
    ensures
        prev_token_path(root, p) matches Some(q) ==> {
            &&& valid_path(root, q)
            &&& elem_at(root, q) is Token
            &&& offset_of(root, q) + tree_bytes(elem_at(root, q)).len() <= offset_of(root, p)
        },
    decreases p.len(),
{
    if p.len() > 0 {
        let parent = p.drop_last();
        let i = p.last() as int;
        let cs = tree_children(elem_at(root, parent));
        lemma_child_within(root, p);
        lemma_elem_arities(root, parent);
        if i > 0 {
            let sib = parent.push((i - 1) as usize);
            assert(sib.drop_last() =~= parent);
            assert(valid_path(root, sib));
            assert(elem_at(root, sib) == cs[i - 1]);
            lemma_forest_split(cs, i - 1);
            assert(offset_of(root, sib) + tree_bytes(cs[i - 1]).len() == offset_of(root, p));
            lemma_forest_arities_fit(cs, i - 1);
            lemma_last_token_path(cs[i - 1]);
            if let Some(r) = last_token_path(cs[i - 1]) {
                lemma_path_append(root, sib, r);
            }
        } else {
            lemma_prev_token_before(root, parent);
        }
    }
}


/// Walking back from a first token of the element at `base` leaves that
/// element the way it came in: the token before it is the token before the
/// element.
proof fn lemma_prev_of_first_token(root: GreenTree, base: Seq<usize>, r: Seq<usize>)
    requires
        first_token_path(elem_at(root, base)) == Some(r),
    ensures
        prev_token_path(root, base + r) == prev_token_path(root, base),
    decreases r.len(),
{
    let e = elem_at(root, base);
    if r.len() == 0 {
        assert(base + r =~= base);
    } else {
        if let GreenTree::Node { children, .. } = e {
            let r0 = first_token_path(children[0])->0;
            assert(r == seq![0usize] + r0);
            let b0 = base.push(0usize);
            assert(b0.drop_last() =~= base);
            assert(elem_at(root, b0) == children[0]);
            lemma_prev_of_first_token(root, b0, r0);
            assert(base + r =~= b0 + r0);
        }
    }
}

/// Where the element at `p` has the last token `t` (a path below it), the
/// token after the element, where there is one, has that token as the token
/// before it.
proof fn lemma_next_then_prev(root: GreenTree, p: Seq<usize>, t: Seq<usize>)
    requires
        valid_path(root, p),
        arities_fit(root),
        last_token_path(elem_at(root, p)) == Some(t),
    ensures
        next_token_path(root, p) matches Some(q) ==> prev_token_path(root, q) == Some(p + t),
    decreases p.len(),
{
    if p.len() > 0 {
        let parent = p.drop_last();
        let i = p.last() as int;
        let cs = tree_children(elem_at(root, parent));
        lemma_elem_arities(root, parent);
        assert(parent.push(i as usize) =~= p);
        if i + 1 < cs.len() {
            if let Some(r) = first_token_path(cs[i + 1]) {
                let sib = parent.push((i + 1) as usize);
                assert(sib.drop_last() =~= parent);
                assert(elem_at(root, sib) == cs[i + 1]);
                lemma_prev_of_first_token(root, sib, r);
                assert(elem_at(root, p) == cs[i]);
            }
        } else {
            let tp = seq![i as usize] + t;
            assert(elem_at(root, p) == cs[i]);
            assert(last_token_path(elem_at(root, parent)) == Some(tp));
            lemma_next_then_prev(root, parent, tp);
            assert(parent + tp =~= p + t);
        }
    }
}

/// The token before the token after a token `p` is `p` again: stepping to
/// the next token and back returns to where it started.
pub proof fn lemma_prev_of_next_token(root: GreenTree, p: Seq<usize>)
    requires
        valid_path(root, p),
        arities_fit(root),
        elem_at(root, p) is Token,
    ensures
        next_token_path(root, p) matches Some(q) ==> prev_token_path(root, q) == Some(p),
{
    assert(p + Seq::<usize>::empty() =~= p);
    lemma_next_then_prev(root, p, Seq::empty());
}


/// Walking on from a last token of the element at `base` leaves that element
/// the way it came in: the token after it is the token after the element.
proof fn lemma_next_of_last_token(root: GreenTree, base: Seq<usize>, r: Seq<usize>)
    requires
        valid_path(root, base),
        arities_fit(root),
        last_token_path(elem_at(root, base)) == Some(r),
    ensures
        next_token_path(root, base + r) == next_token_path(root, base),
    decreases r.len(),
{
    let e = elem_at(root, base);
    if r.len() == 0 {
        assert(base + r =~= base);
    } else {
        if let GreenTree::Node { children, .. } = e {
            lemma_elem_arities(root, base);
            let n = children.len() - 1;
            let r0 = last_token_path(children[n])->0;
            assert(r == seq![n as usize] + r0);
            let b0 = base.push(n as usize);
            assert(b0.drop_last() =~= base);
            assert(valid_path(root, b0));
            assert(elem_at(root, b0) == children[n]);
            lemma_next_of_last_token(root, b0, r0);
            assert(base + r =~= b0 + r0);
        }
    }
}

/// Where the element at `p` has the first token `t` (a path below it), the
/// token before the element, where there is one, has that token as the token
/// after it.
proof fn lemma_prev_then_next(root: GreenTree, p: Seq<usize>, t: Seq<usize>)
    requires
        valid_path(root, p),
        arities_fit(root),
        first_token_path(elem_at(root, p)) == Some(t),
    ensures
        prev_token_path(root, p) matches Some(q) ==> next_token_path(root, q) == Some(p + t),
    decreases p.len(),
{
    if p.len() > 0 {
        let parent = p.drop_last();
        let i = p.last() as int;
        let cs = tree_children(elem_at(root, parent));
        lemma_elem_arities(root, parent);
        assert(parent.push(i as usize) =~= p);
        assert(elem_at(root, p) == cs[i]);
        if i > 0 {
            if let Some(r) = last_token_path(cs[i - 1]) {
                let sib = parent.push((i - 1) as usize);
                assert(sib.drop_last() =~= parent);
                assert(valid_path(root, sib));
                assert(elem_at(root, sib) == cs[i - 1]);
                lemma_next_of_last_token(root, sib, r);
            }
        } else {
            let tp = seq![0usize] + t;
            assert(first_token_path(elem_at(root, parent)) == Some(tp));
            lemma_prev_then_next(root, parent, tp);
            assert(parent + tp =~= p + t);
        }
    }
}

/// The token after the token before a token `p` is `p` again: stepping to
/// the previous token and back returns to where it started.
pub proof fn lemma_next_of_prev_token(root: GreenTree, p: Seq<usize>)
    requires
        valid_path(root, p),
        arities_fit(root),
        elem_at(root, p) is Token,
    ensures
        prev_token_path(root, p) matches Some(q) ==> next_token_path(root, q) == Some(p),
{
    assert(p + Seq::<usize>::empty() =~= p);
    lemma_prev_then_next(root, p, Seq::empty());
}

} // verus!
