//! The children of a syntax node, as nodes only or as nodes and tokens.

use vstd::prelude::*;

use crate::green::{
    elements_view, forest_bytes, lemma_element_is_node, lemma_elements_view_len, lemma_forest_split,
    tree_bytes, tree_children, GreenElement,
};
use crate::kind::Syntax;
use crate::syntax::node::{elem_at, offset_of, position_range, valid_path, Position, SyntaxNode};
use crate::syntax::token::{clone_element, SyntaxElement, SyntaxToken};
use crate::text::TextSize;
use crate::util::NodeOrToken;

verus! {

/// The position of child `i` of the element at `p`.
pub open spec fn child_position(p: Position, i: int) -> Position {
    Position { root: p.root, path: p.path.push(i as usize) }
}

/// The child `i` of the element at `p`, as a node or a token position.
pub open spec fn child_element(p: Position, i: int) -> NodeOrToken<Position, Position> {
    if tree_children(elem_at(p.root, p.path))[i] is Node {
        NodeOrToken::Node(child_position(p, i))
    } else {
        NodeOrToken::Token(child_position(p, i))
    }
}

/// The positions of the first `n` children of the element at `p` that are nodes, in order.
pub open spec fn node_children(p: Position, n: int) -> Seq<Position>
    decreases n,
{
    if n <= 0 {
        Seq::empty()
    } else if tree_children(elem_at(p.root, p.path))[n - 1] is Node {
        node_children(p, n - 1).push(child_position(p, n - 1))
    } else {
        node_children(p, n - 1)
    }
}

/// All children of the element at `p`, in order.
pub open spec fn element_children(p: Position) -> Seq<NodeOrToken<Position, Position>> {
    Seq::new(tree_children(elem_at(p.root, p.path)).len(), |i: int| child_element(p, i))
}

/// The remaining child nodes of a syntax node.
#[derive(Debug)]
pub struct SyntaxNodeChildren<S: Syntax> {
    items: Vec<SyntaxNode<S>>,
    next: usize,
}

/// The remaining children of a syntax node, nodes and tokens.
#[derive(Debug)]
pub struct SyntaxElementChildren<S: Syntax> {
    items: Vec<SyntaxElement<S>>,
    next: usize,
}

impl<S: Syntax> SyntaxNodeChildren<S> {
    /// The positions still to come, in order.
    pub closed spec fn spec_remaining(&self) -> Seq<Position> {
        self.items@.map_values(|n: SyntaxNode<S>| n@).skip(self.next as int)
    }

    #[verifier::type_invariant]
    spec fn inv(self) -> bool {
        self.next <= self.items@.len()
    }

    /// The child nodes of `parent`.
    pub fn new(parent: &SyntaxNode<S>) -> (c: Self)
        ensures
            c.spec_remaining() == node_children(parent@, tree_children(elem_at(parent@.root, parent@.path)).len() as int),
    {
        let green = parent.green();
        let children = green.children();
        let ghost p = parent@;
        let ghost cs = tree_children(elem_at(p.root, p.path));
        proof {
            green.lemma_view();
            lemma_elements_view_len(green.spec_children());
            crate::syntax::node::lemma_elem_within(p.root, p.path);
        }
        let mut items: Vec<SyntaxNode<S>> = Vec::with_capacity(children.len());
        let mut off: TextSize = parent.offset();
        let mut i: usize = 0;
        proof {
            assert(cs.take(0) =~= Seq::<crate::green::GreenTree>::empty());
            assert(items@.map_values(|n: SyntaxNode<S>| n@) =~= node_children(p, 0));
        }
        while i < children.len()
            invariant
                p == parent@,
                cs == tree_children(elem_at(p.root, p.path)),
                children@ == green.spec_children(),
                elements_view(children@) == cs,
                cs.len() == children@.len(),
                i <= children@.len(),
                elem_at(p.root, p.path) is Node,
                valid_path(p.root, p.path),
                tree_bytes(elem_at(p.root, p.path)) == forest_bytes(cs),
                position_range(p).1 <= tree_bytes(p.root).len() <= u32::MAX,
                off == offset_of(p.root, p.path) + forest_bytes(cs.take(i as int)).len(),
                items@.map_values(|n: SyntaxNode<S>| n@) == node_children(p, i as int),
                forall|k: int| 0 <= k < children@.len() ==> #[trigger] elements_view(children@)[k] == children@[k]@,
            decreases children@.len() - i,
        {
            proof {
                lemma_forest_split(cs, i as int);
                assert(cs =~= cs.take(i + 1) + cs.skip(i + 1));
                crate::green::lemma_forest_bytes_append(cs.take(i + 1), cs.skip(i + 1));
                lemma_element_is_node(children@[i as int]);
                assert(child_position(p, i as int).path.drop_last() =~= p.path);
            }
            let ghost before = items@.map_values(|n: SyntaxNode<S>| n@);
            match &children[i] {
                GreenElement::Node(_) => {
                    let child = parent.child_node(i, off);
                    items.push(child);
                    proof {
                        assert(items@.map_values(|n: SyntaxNode<S>| n@) =~= before.push(child_position(p, i as int)));
                    }
                },
                GreenElement::Token(_) => {},
            }
            off = off + children[i].text_len();
            i = i + 1;
        }
        proof {
            assert(items@.map_values(|n: SyntaxNode<S>| n@).skip(0) =~= items@.map_values(|n: SyntaxNode<S>| n@));
        }
        SyntaxNodeChildren { items, next: 0 }
    }

    /// The next child node, if any.
    pub fn next(&mut self) -> (r: Option<SyntaxNode<S>>)
        ensures
            old(self).spec_remaining().len() == 0 ==> r is None && final(self).spec_remaining().len() == 0,
            old(self).spec_remaining().len() > 0 ==> (r matches Some(n) && n@ == old(self).spec_remaining()[0]
                && final(self).spec_remaining() == old(self).spec_remaining().drop_first()),
    {
        proof {
            use_type_invariant(&*self);
        }
        if self.next < self.items.len() {
            let n = self.items[self.next].clone();
            self.next = self.next + 1;
            proof {
                assert(self.spec_remaining() =~= old(self).spec_remaining().drop_first());
            }
            Some(n)
        } else {
            None
        }
    }

    /// The number of child nodes still to come.
    pub fn len(&self) -> (n: usize)
        ensures
            n == self.spec_remaining().len(),
    {
        proof {
            use_type_invariant(self);
        }
        self.items.len() - self.next
    }

    /// Bounds on the number of child nodes still to come; both are exact.
    pub fn size_hint(&self) -> (r: (usize, Option<usize>))
        ensures
            r.0 == self.spec_remaining().len(),
            r.1 == Some(r.0),
    {
        let n = self.len();
        (n, Some(n))
    }

    /// The number of child nodes still to come.
    pub fn count(self) -> (n: usize)
        ensures
            n == self.spec_remaining().len(),
    {
        self.len()
    }
}

impl<S: Syntax> SyntaxElementChildren<S> {
    /// The elements still to come, in order.
    pub closed spec fn spec_remaining(&self) -> Seq<NodeOrToken<Position, Position>> {
        self.items@.map_values(|e: SyntaxElement<S>| e@).skip(self.next as int)
    }

    #[verifier::type_invariant]
    spec fn inv(self) -> bool {
        self.next <= self.items@.len()
    }

    /// The children of `parent`, nodes and tokens.
    pub fn new(parent: &SyntaxNode<S>) -> (c: Self)
        ensures
            c.spec_remaining() == element_children(parent@),
    {
        let green = parent.green();
        let children = green.children();
        let ghost p = parent@;
        let ghost cs = tree_children(elem_at(p.root, p.path));
        proof {
            green.lemma_view();
            lemma_elements_view_len(green.spec_children());
            crate::syntax::node::lemma_elem_within(p.root, p.path);
        }
        let mut items: Vec<SyntaxElement<S>> = Vec::with_capacity(children.len());
        let mut off: TextSize = parent.offset();
        let mut i: usize = 0;
        proof {
            assert(items@.map_values(|e: SyntaxElement<S>| e@) =~= element_children(p).take(0));
        }
        while i < children.len()
            invariant
                p == parent@,
                cs == tree_children(elem_at(p.root, p.path)),
                children@ == green.spec_children(),
                elements_view(children@) == cs,
                cs.len() == children@.len(),
                i <= children@.len(),
                elem_at(p.root, p.path) is Node,
                valid_path(p.root, p.path),
                tree_bytes(elem_at(p.root, p.path)) == forest_bytes(cs),
                position_range(p).1 <= tree_bytes(p.root).len() <= u32::MAX,
                off == offset_of(p.root, p.path) + forest_bytes(cs.take(i as int)).len(),
                items@.map_values(|e: SyntaxElement<S>| e@) == element_children(p).take(i as int),
                forall|k: int| 0 <= k < children@.len() ==> #[trigger] elements_view(children@)[k] == children@[k]@,
            decreases children@.len() - i,
        {
            proof {
                lemma_forest_split(cs, i as int);
                assert(cs =~= cs.take(i + 1) + cs.skip(i + 1));
                crate::green::lemma_forest_bytes_append(cs.take(i + 1), cs.skip(i + 1));
                lemma_element_is_node(children@[i as int]);
                assert(child_position(p, i as int).path.drop_last() =~= p.path);
                assert(valid_path(p.root, child_position(p, i as int).path));
            }
            let ghost before = items@.map_values(|e: SyntaxElement<S>| e@);
            let element: SyntaxElement<S> = match &children[i] {
                GreenElement::Node(_) => NodeOrToken::Node(parent.child_node(i, off)),
                GreenElement::Token(_) => NodeOrToken::Token(SyntaxToken::new(parent.clone(), i, off)),
            };
            items.push(element);
            proof {
                assert(items@.map_values(|e: SyntaxElement<S>| e@) =~= before.push(child_element(p, i as int)));
                assert(element_children(p).take(i + 1) =~= element_children(p).take(i as int).push(child_element(p, i as int)));
            }
            off = off + children[i].text_len();
            i = i + 1;
        }
        proof {
            assert(items@.map_values(|e: SyntaxElement<S>| e@).skip(0) =~= element_children(p));
        }
        SyntaxElementChildren { items, next: 0 }
    }

    /// The next child, if any.
    pub fn next(&mut self) -> (r: Option<SyntaxElement<S>>)
        ensures
            old(self).spec_remaining().len() == 0 ==> r is None && final(self).spec_remaining().len() == 0,
            old(self).spec_remaining().len() > 0 ==> (r matches Some(e) && e@ == old(self).spec_remaining()[0]
                && final(self).spec_remaining() == old(self).spec_remaining().drop_first()),
    {
        proof {
            use_type_invariant(&*self);
        }
        if self.next < self.items.len() {
            let e = clone_element(&self.items[self.next]);
            self.next = self.next + 1;
            proof {
                assert(self.spec_remaining() =~= old(self).spec_remaining().drop_first());
            }
            Some(e)
        } else {
            None
        }
    }

    /// The number of children still to come.
    pub fn len(&self) -> (n: usize)
        ensures
            n == self.spec_remaining().len(),
    {
        proof {
            use_type_invariant(self);
        }
        self.items.len() - self.next
    }

    /// Bounds on the number of children still to come; both are exact.
    pub fn size_hint(&self) -> (r: (usize, Option<usize>))
        ensures
            r.0 == self.spec_remaining().len(),
            r.1 == Some(r.0),
    {
        let n = self.len();
        (n, Some(n))
    }

    /// The number of children still to come.
    pub fn count(self) -> (n: usize)
        ensures
            n == self.spec_remaining().len(),
    {
        self.len()
    }
}

impl<S: Syntax> SyntaxNode<S> {
    /// The child nodes of this node, in order.
    pub fn children(&self) -> (c: SyntaxNodeChildren<S>)
        ensures
            c.spec_remaining() == node_children(self@, tree_children(elem_at(self@.root, self@.path)).len() as int),
    {
        SyntaxNodeChildren::new(self)
    }

    /// The children of this node, nodes and tokens, in order.
    pub fn children_with_tokens(&self) -> (c: SyntaxElementChildren<S>)
        ensures
            c.spec_remaining() == element_children(self@),
    {
        SyntaxElementChildren::new(self)
    }
}

impl<S: Syntax> Clone for SyntaxNodeChildren<S> {
    /// A copy that yields the same nodes as this one.
    fn clone(&self) -> (r: Self)
        ensures
            r.spec_remaining() == self.spec_remaining(),
    {
        proof {
            use_type_invariant(self);
        }
        let mut items: Vec<SyntaxNode<S>> = Vec::with_capacity(self.items.len());
        let mut i: usize = 0;
        while i < self.items.len()
            invariant
                i <= self.items@.len(),
                items@.len() == i,
                forall|k: int| 0 <= k < i ==> #[trigger] items@[k]@ == self.items@[k]@,
            decreases self.items@.len() - i,
        {
            items.push(self.items[i].clone());
            i = i + 1;
        }
        let r = SyntaxNodeChildren { items, next: self.next };
        proof {
            assert(r.spec_remaining() =~= self.spec_remaining());
        }
        r
    }
}

impl<S: Syntax> Clone for SyntaxElementChildren<S> {
    /// A copy that yields the same elements as this one.
    fn clone(&self) -> (r: Self)
        ensures
            r.spec_remaining() == self.spec_remaining(),
    {
        proof {
            use_type_invariant(self);
        }
        let mut items: Vec<SyntaxElement<S>> = Vec::with_capacity(self.items.len());
        let mut i: usize = 0;
        while i < self.items.len()
            invariant
                i <= self.items@.len(),
                items@.len() == i,
                forall|k: int| 0 <= k < i ==> #[trigger] items@[k]@ == self.items@[k]@,
            decreases self.items@.len() - i,
        {
            items.push(clone_element(&self.items[i]));
            i = i + 1;
        }
        let r = SyntaxElementChildren { items, next: self.next };
        proof {
            assert(r.spec_remaining() =~= self.spec_remaining());
        }
        r
    }
}

} // verus!
