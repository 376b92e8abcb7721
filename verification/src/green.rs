//! Green trees: immutable, position-independent syntax trees.

use vstd::prelude::*;
use vstd::seq_lib::lemma_flatten_alt_concat;
use vstd::string::StringSliceAdditionalSpecFns;
use vstd::utf8::valid_utf8;

use std::hash::Hasher;

use rustc_hash::FxHasher;

use crate::events::{events_view, forest_events, tree_events, Event, EventModel};
use crate::kind::RawSyntaxKind;
use crate::text::TextSize;
use crate::tree_debug::{forest_lines, lines_view, tree_lines, DebugLine, LineModel};
use crate::utf8::str_from_utf8;

verus! {

/// The mathematical model of a green element: a token with its kind and bytes,
/// or a node with its kind and its children in order.
pub enum GreenTree {
    Token { kind: u32, data: Seq<u8> },
    Node { kind: u32, children: Seq<GreenTree> },
}

/// Leaf of a green tree: a kind and the bytes it covers.
#[derive(Debug, PartialEq, Eq, Hash)]
pub struct GreenToken {
    kind: RawSyntaxKind,
    data: Vec<u8>,
}

/// Inner node of a green tree: a kind, its children, and the cached length and
/// hash of the children.
#[derive(Debug, PartialEq, Eq, Hash)]
pub struct GreenNode {
    kind: RawSyntaxKind,
    text_len: TextSize,
    child_hash: u32,
    children: Vec<GreenElement>,
}

/// A child of a green node.
#[derive(Debug, PartialEq, Eq, Hash)]
pub enum GreenElement {
    Node(GreenNode),
    Token(GreenToken),
}

impl View for GreenToken {
    type V = GreenTree;

    closed spec fn view(&self) -> GreenTree {
        GreenTree::Token { kind: self.kind.0, data: self.data@ }
    }
}

impl View for GreenNode {
    type V = GreenTree;

    closed spec fn view(&self) -> GreenTree
        decreases self,
    {
        GreenTree::Node { kind: self.kind.0, children: elements_view(self.children@) }
    }
}

impl View for GreenElement {
    type V = GreenTree;

    open spec fn view(&self) -> GreenTree
        decreases self,
    {
        match self {
            GreenElement::Node(n) => n.view(),
            GreenElement::Token(t) => t.view(),
        }
    }
}

/// The models of a sequence of green elements.
pub open spec fn elements_view(cs: Seq<GreenElement>) -> Seq<GreenTree>
    decreases cs,
{
    if cs.len() == 0 {
        Seq::empty()
    } else {
        elements_view(cs.drop_last()).push(cs.last().view())
    }
}

/// All bytes covered by a green tree, in order.
pub open spec fn tree_bytes(t: GreenTree) -> Seq<u8>
    decreases t,
{
    match t {
        GreenTree::Token { data, .. } => data,
        GreenTree::Node { children, .. } => forest_bytes(children),
    }
}

/// All bytes covered by a sequence of green trees, in order.
pub open spec fn forest_bytes(cs: Seq<GreenTree>) -> Seq<u8>
    decreases cs,
{
    if cs.len() == 0 {
        Seq::empty()
    } else {
        forest_bytes(cs.drop_last()) + tree_bytes(cs.last())
    }
}

/// The kind of a green tree.
pub open spec fn tree_kind(t: GreenTree) -> u32 {
    match t {
        GreenTree::Token { kind, .. } => kind,
        GreenTree::Node { kind, .. } => kind,
    }
}

pub proof fn lemma_elements_view_len(cs: Seq<GreenElement>)
    ensures
        elements_view(cs).len() == cs.len(),
        forall|i: int| 0 <= i < cs.len() ==> #[trigger] elements_view(cs)[i] == cs[i]@,
    decreases cs.len(),
{
    if cs.len() > 0 {
        lemma_elements_view_len(cs.drop_last());
        let ev = elements_view(cs);
        assert(ev == elements_view(cs.drop_last()).push(cs.last().view()));
        assert forall|i: int| 0 <= i < cs.len() implies #[trigger] ev[i] == cs[i]@ by {
            if i < cs.len() - 1 {
                assert(cs.drop_last()[i] == cs[i]);
            }
        }
    }
}

/// An element is a node exactly when its model is a node.
pub proof fn lemma_element_is_node(e: GreenElement)
    ensures
        (e@ is Node) <==> (e is Node),
{
}

pub proof fn lemma_elements_view_push(cs: Seq<GreenElement>, e: GreenElement)
    ensures
        elements_view(cs.push(e)) == elements_view(cs).push(e@),
{
    assert(cs.push(e).drop_last() =~= cs);
}

pub proof fn lemma_elements_view_subrange(cs: Seq<GreenElement>, i: int, j: int)
    requires
        0 <= i <= j <= cs.len(),
    ensures
        elements_view(cs.subrange(i, j)) == elements_view(cs).subrange(i, j),
{
    lemma_elements_view_len(cs);
    lemma_elements_view_len(cs.subrange(i, j));
    assert(elements_view(cs.subrange(i, j)) =~= elements_view(cs).subrange(i, j));
}

pub proof fn lemma_forest_bytes_push(cs: Seq<GreenTree>, t: GreenTree)
    ensures
        forest_bytes(cs.push(t)) == forest_bytes(cs) + tree_bytes(t),
{
    assert(cs.push(t).drop_last() =~= cs);
}

pub proof fn lemma_forest_bytes_append(a: Seq<GreenTree>, b: Seq<GreenTree>)
    ensures
        forest_bytes(a + b) == forest_bytes(a) + forest_bytes(b),
    decreases b.len(),
{
    if b.len() == 0 {
        assert(a + b =~= a);
        assert(forest_bytes(a) + forest_bytes(b) =~= forest_bytes(a));
    } else {
        lemma_forest_bytes_append(a, b.drop_last());
        assert((a + b).drop_last() =~= a + b.drop_last());
        assert((a + b).last() == b.last());
        assert(forest_bytes(a) + forest_bytes(b.drop_last()) + tree_bytes(b.last())
            =~= forest_bytes(a) + (forest_bytes(b.drop_last()) + tree_bytes(b.last())));
    }
}

/// The bytes of a forest split around its `i`-th tree.
pub proof fn lemma_forest_split(cs: Seq<GreenTree>, i: int)
    requires
        0 <= i < cs.len(),
    ensures
        forest_bytes(cs) == forest_bytes(cs.take(i)) + tree_bytes(cs[i]) + forest_bytes(cs.skip(i + 1)),
        forest_bytes(cs.take(i + 1)) == forest_bytes(cs.take(i)) + tree_bytes(cs[i]),
{
    assert(cs =~= cs.take(i).push(cs[i]) + cs.skip(i + 1));
    assert(cs.take(i + 1) =~= cs.take(i).push(cs[i]));
    lemma_forest_bytes_append(cs.take(i).push(cs[i]), cs.skip(i + 1));
    lemma_forest_bytes_push(cs.take(i), cs[i]);
}

/// The bytes of each token of a green tree, in order.
pub open spec fn tree_leaves(t: GreenTree) -> Seq<Seq<u8>>
    decreases t,
{
    match t {
        GreenTree::Token { data, .. } => seq![data],
        GreenTree::Node { children, .. } => forest_leaves(children),
    }
}

/// The bytes of each token of a sequence of green trees, in order.
pub open spec fn forest_leaves(cs: Seq<GreenTree>) -> Seq<Seq<u8>>
    decreases cs,
{
    if cs.len() == 0 {
        Seq::empty()
    } else {
        forest_leaves(cs.drop_last()) + tree_leaves(cs.last())
    }
}

/// The byte strings that a sequence of byte slices holds.
pub open spec fn chunk_views(cs: Seq<&[u8]>) -> Seq<Seq<u8>> {
    cs.map_values(|b: &[u8]| b@)
}

/// The tokens of a tree, concatenated, are the tree's bytes.
pub proof fn lemma_leaves_bytes(t: GreenTree)
    ensures
        tree_leaves(t).flatten_alt() == tree_bytes(t),
    decreases t,
{
    match t {
        GreenTree::Token { data, .. } => {
            assert(seq![data].drop_last() =~= Seq::<Seq<u8>>::empty());
            assert(Seq::<Seq<u8>>::empty().flatten_alt() + data =~= data);
        },
        GreenTree::Node { children, .. } => {
            lemma_forest_leaves_bytes(children);
        },
    }
}

/// The tokens of a forest, concatenated, are the forest's bytes.
pub proof fn lemma_forest_leaves_bytes(cs: Seq<GreenTree>)
    ensures
        forest_leaves(cs).flatten_alt() == forest_bytes(cs),
    decreases cs,
{
    if cs.len() > 0 {
        lemma_forest_leaves_bytes(cs.drop_last());
        lemma_leaves_bytes(cs.last());
        lemma_flatten_alt_concat(forest_leaves(cs.drop_last()), tree_leaves(cs.last()));
    }
}

/// Every node of `t` has at most `usize::MAX` children, as nodes built in
/// memory do.
pub open spec fn arities_fit(t: GreenTree) -> bool
    decreases t,
{
    match t {
        GreenTree::Token { .. } => true,
        GreenTree::Node { children, .. } => children.len() <= usize::MAX && forest_arities_fit(children),
    }
}

/// Every node of the trees of `cs` has at most `usize::MAX` children.
pub open spec fn forest_arities_fit(cs: Seq<GreenTree>) -> bool
    decreases cs,
{
    cs.len() == 0 || (forest_arities_fit(cs.drop_last()) && arities_fit(cs.last()))
}

pub proof fn lemma_forest_arities_fit(cs: Seq<GreenTree>, i: int)
    requires
        forest_arities_fit(cs),
        0 <= i < cs.len(),
    ensures
        arities_fit(cs[i]),
    decreases cs.len(),
{
    if i < cs.len() - 1 {
        lemma_forest_arities_fit(cs.drop_last(), i);
    }
}

/// The children of a green tree; a token has none.
pub open spec fn tree_children(t: GreenTree) -> Seq<GreenTree> {
    match t {
        GreenTree::Node { children, .. } => children,
        GreenTree::Token { .. } => Seq::empty(),
    }
}

impl GreenToken {
    #[verifier::type_invariant]
    spec fn inv(self) -> bool {
        self.data@.len() <= u32::MAX
    }

    /// Creates a token of the given kind covering `data`.
    pub fn new(kind: RawSyntaxKind, data: &[u8]) -> (t: GreenToken)
        requires
            data@.len() <= u32::MAX,
        ensures
            t@ == (GreenTree::Token { kind: kind.0, data: data@ }),
    {
        GreenToken { kind, data: vstd::slice::slice_to_vec(data) }
    }

    /// The raw kind of this token.
    pub fn kind(&self) -> (k: RawSyntaxKind)
        ensures
            k.0 == tree_kind(self@),
    {
        self.kind
    }

    /// The source bytes of this token.
    pub fn data(&self) -> (d: &[u8])
        ensures
            d@ == tree_bytes(self@),
    {
        self.data.as_slice()
    }

    /// The source text of this token, where its bytes are valid UTF-8.
    pub fn text(&self) -> (t: Option<&str>)
        ensures
            t is Some <==> valid_utf8(tree_bytes(self@)),
            t matches Some(s) ==> s.spec_bytes() == tree_bytes(self@),
    {
        str_from_utf8(self.data.as_slice())
    }

    /// The number of bytes this token covers.
    pub fn data_len(&self) -> (n: TextSize)
        ensures
            n == tree_bytes(self@).len(),
    {
        proof {
            use_type_invariant(self);
        }
        self.data.len() as u32
    }

    /// The number of bytes of text this token covers.
    pub fn text_len(&self) -> (n: TextSize)
        ensures
            n == tree_bytes(self@).len(),
    {
        self.data_len()
    }
}

impl GreenNode {
    #[verifier::type_invariant]
    spec fn inv(self) -> bool {
        self.text_len == tree_bytes(self@).len()
    }

    /// The children of this node, in order.
    pub closed spec fn spec_children(self) -> Seq<GreenElement> {
        self.children@
    }

    pub proof fn lemma_view(self)
        ensures
            self@ == (GreenTree::Node { kind: tree_kind(self@), children: elements_view(self.spec_children()) }),
    {
    }

    /// Creates a node from its children, whose length and hash were computed by the caller.
    pub(crate) fn new_with_len_and_hash(
        kind: RawSyntaxKind,
        children: Vec<GreenElement>,
        text_len: TextSize,
        child_hash: ChildHash,
    ) -> (n: GreenNode)
        requires
            text_len == forest_bytes(elements_view(children@)).len(),
        ensures
            n@ == (GreenTree::Node { kind: kind.0, children: elements_view(children@) }),
            n.spec_children() == children@,
            n.spec_child_hash() == child_hash.spec_value(),
    {
        GreenNode { kind, text_len, child_hash: child_hash.value, children }
    }

    /// Creates a node of the given kind with the given children.
    pub fn new(kind: RawSyntaxKind, children: Vec<GreenElement>) -> (n: GreenNode)
        requires
            forest_bytes(elements_view(children@)).len() <= u32::MAX,
        ensures
            n@ == (GreenTree::Node { kind: kind.0, children: elements_view(children@) }),
            n.spec_children() == children@,
    {
        let (text_len, child_hash) = measure_elements(children.as_slice());
        GreenNode { kind, text_len, child_hash: child_hash.value, children }
    }

    /// The offset of child `index` relative to the start of this node: the
    /// length of all children before it.
    pub fn child_offset(&self, index: usize) -> (r: TextSize)
        requires
            index <= self.spec_children().len(),
        ensures
            r == forest_bytes(tree_children(self@).take(index as int)).len(),
    {
        proof {
            use_type_invariant(self);
            let cs = elements_view(self.children@);
            lemma_elements_view_len(self.children@);
            lemma_elements_view_subrange(self.children@, 0, index as int);
            assert(cs.take(index as int) =~= cs.subrange(0, index as int));
            assert(self.children@.subrange(0, index as int) =~= self.children@.take(index as int));
            assert(cs =~= cs.take(index as int) + cs.skip(index as int));
            lemma_forest_bytes_append(cs.take(index as int), cs.skip(index as int));
        }
        let mut sum: TextSize = 0;
        let mut i: usize = 0;
        while i < index
            invariant
                i <= index <= self.children@.len(),
                index <= elements_view(self.children@).len(),
                elements_view(self.children@).len() == self.children@.len(),
                forest_bytes(elements_view(self.children@).take(index as int)).len() <= u32::MAX,
                sum == forest_bytes(elements_view(self.children@).take(i as int)).len(),
                forall|k: int| 0 <= k < self.children@.len() ==> #[trigger] elements_view(self.children@)[k] == self.children@[k]@,
            decreases index - i,
        {
            proof {
                let cs = elements_view(self.children@);
                lemma_forest_split(cs, i as int);
                let t = cs.take(index as int);
                assert(t.take(i + 1) =~= cs.take(i + 1));
                assert(t =~= t.take(i + 1) + t.skip(i + 1));
                lemma_forest_bytes_append(t.take(i + 1), t.skip(i + 1));
            }
            sum = sum + self.children[i].text_len();
            i = i + 1;
        }
        proof {
            lemma_elements_view_len(self.children@);
        }
        sum
    }

    /// Appends the bytes of every token of this node to `out`, in order.
    pub(crate) fn push_leaves<'a>(&'a self, out: &mut Vec<&'a [u8]>)
        ensures
            chunk_views(final(out)@) == chunk_views(old(out)@) + tree_leaves(self@),
        decreases self,
    {
        let ghost start = chunk_views(old(out)@);
        let mut i: usize = 0;
        proof {
            lemma_elements_view_len(self.children@);
            assert(elements_view(self.children@).take(0) =~= Seq::<GreenTree>::empty());
            assert(start + Seq::<Seq<u8>>::empty() =~= start);
        }
        while i < self.children.len()
            invariant
                i <= self.children@.len(),
                elements_view(self.children@).len() == self.children@.len(),
                forall|k: int| 0 <= k < self.children@.len() ==> #[trigger] elements_view(self.children@)[k] == self.children@[k]@,
                chunk_views(out@) == start + forest_leaves(elements_view(self.children@).take(i as int)),
            decreases self.children@.len() - i,
        {
            let ghost before = chunk_views(out@);
            match &self.children[i] {
                GreenElement::Node(n) => {
                    n.push_leaves(out);
                },
                GreenElement::Token(t) => {
                    out.push(t.data());
                    proof {
                        assert(chunk_views(out@) =~= before.push(t.data@));
                        assert(before.push(t.data@) =~= before + seq![t.data@]);
                    }
                },
            }
            proof {
                let cs = elements_view(self.children@);
                assert(cs.take(i + 1).drop_last() =~= cs.take(i as int));
                assert(cs.take(i + 1).last() == cs[i as int]);
                assert(start + forest_leaves(cs.take(i as int)) + tree_leaves(cs[i as int]) =~= start + (forest_leaves(cs.take(i as int)) + tree_leaves(cs[i as int])));
            }
            i = i + 1;
        }
        proof {
            assert(elements_view(self.children@).take(self.children@.len() as int) =~= elements_view(self.children@));
        }
    }

    /// The raw kind of this node.
    pub fn kind(&self) -> (k: RawSyntaxKind)
        ensures
            k.0 == tree_kind(self@),
    {
        self.kind
    }

    /// The number of bytes this node covers.
    pub fn text_len(&self) -> (n: TextSize)
        ensures
            n == tree_bytes(self@).len(),
    {
        proof {
            use_type_invariant(self);
        }
        self.text_len
    }

    /// The children of this node.
    pub fn children(&self) -> (c: &[GreenElement])
        ensures
            c@ == self.spec_children(),
    {
        self.children.as_slice()
    }

    /// The number of children of this node.
    pub fn arity(&self) -> (n: usize)
        ensures
            n == self.spec_children().len(),
    {
        self.children.len()
    }
}

impl GreenElement {
    /// The number of bytes this element covers.
    pub fn text_len(&self) -> (n: TextSize)
        ensures
            n == tree_bytes(self@).len(),
    {
        match self {
            GreenElement::Node(n) => n.text_len(),
            GreenElement::Token(t) => t.text_len(),
        }
    }

    /// The raw kind of this element.
    pub fn kind(&self) -> (k: RawSyntaxKind)
        ensures
            k.0 == tree_kind(self@),
    {
        match self {
            GreenElement::Node(n) => n.kind(),
            GreenElement::Token(t) => t.kind(),
        }
    }

    /// Feeds this element into `hasher`: its kind and either its bytes or its
    /// cached length and child hash.
    fn hash_into(&self, hasher: &mut ChildHasher)
        ensures
            final(hasher).spec_fed() == old(hasher).spec_fed() + hash_inputs(*self),
    {
        proof {
            if let GreenElement::Node(n) = self {
                use_type_invariant(n);
            }
        }
        let ghost start = hasher.spec_fed();
        match self {
            GreenElement::Node(n) => {
                hasher.write_u32(0);
                hasher.write_u32(n.kind.0);
                hasher.write_u32(n.text_len);
                hasher.write_u32(n.child_hash);
            },
            GreenElement::Token(t) => {
                hasher.write_u32(1);
                hasher.write_u32(t.kind.0);
                hasher.write(t.data.as_slice());
            },
        }
        proof {
            assert(hasher.spec_fed() =~= start + hash_inputs(*self));
        }
    }
}

impl Clone for GreenToken {
    fn clone(&self) -> (r: GreenToken)
        ensures
            r@ == self@,
    {
        proof {
            use_type_invariant(self);
        }
        GreenToken { kind: self.kind, data: vstd::slice::slice_to_vec(self.data.as_slice()) }
    }
}

impl Clone for GreenNode {
    fn clone(&self) -> (r: GreenNode)
        ensures
            r@ == self@,
        decreases self,
    {
        proof {
            use_type_invariant(self);
        }
        let children = clone_elements(&self.children);
        GreenNode { kind: self.kind, text_len: self.text_len, child_hash: self.child_hash, children }
    }
}

impl Clone for GreenElement {
    fn clone(&self) -> (r: GreenElement)
        ensures
            r@ == self@,
        decreases self,
    {
        match self {
            GreenElement::Node(n) => GreenElement::Node(n.clone()),
            GreenElement::Token(t) => GreenElement::Token(t.clone()),
        }
    }
}

impl GreenNode {
    /// A node in memory, and every node below it, has at most `usize::MAX` children.
    pub proof fn lemma_arities_fit(&self)
        ensures
            arities_fit(self@),
        decreases self,
    {
        lemma_elements_view_len(self.children@);
        assert(self.children@.len() == self.children.len());
        lemma_elements_arities_fit(self.children@);
    }
}

impl GreenElement {
    /// An element in memory, and every node below it, has at most `usize::MAX` children.
    pub proof fn lemma_arities_fit(&self)
        ensures
            arities_fit(self@),
        decreases self,
    {
        match self {
            GreenElement::Node(n) => n.lemma_arities_fit(),
            GreenElement::Token(_) => {},
        }
    }
}

/// Elements in memory have at most `usize::MAX` children at every node.
proof fn lemma_elements_arities_fit(cs: Seq<GreenElement>)
    ensures
        forest_arities_fit(elements_view(cs)),
    decreases cs,
{
    if cs.len() > 0 {
        lemma_elements_arities_fit(cs.drop_last());
        cs.last().lemma_arities_fit();
        let ev = elements_view(cs);
        assert(ev.drop_last() =~= elements_view(cs.drop_last()));
        assert(ev.last() == cs.last()@);
    }
}

impl GreenNode {
    /// Appends the events of a preorder walk over this node to `out`.
    pub(crate) fn push_events(&self, out: &mut Vec<Event>)
        ensures
            events_view(final(out)@) == events_view(old(out)@) + tree_events(self@),
        decreases self,
    {
        let ghost start = events_view(out@);
        out.push(Event::EnterNode(self.kind, false));
        proof {
            assert(events_view(out@) =~= start.push(EventModel::Enter(self.kind.0, false)));
        }
        push_forest_events(&self.children, out);
        let ghost mid = events_view(out@);
        out.push(Event::LeaveNode);
        proof {
            assert(events_view(out@) =~= mid.push(EventModel::Leave));
            assert(events_view(out@) =~= start + tree_events(self@));
        }
    }
}

impl GreenElement {
    /// Appends the events of a preorder walk over this element to `out`.
    pub(crate) fn push_events(&self, out: &mut Vec<Event>)
        ensures
            events_view(final(out)@) == events_view(old(out)@) + tree_events(self@),
        decreases self,
    {
        match self {
            GreenElement::Node(n) => n.push_events(out),
            GreenElement::Token(t) => {
                let ghost start = events_view(out@);
                out.push(Event::Token(t.kind, vstd::slice::slice_to_vec(t.data.as_slice())));
                proof {
                    assert(events_view(out@) =~= start + tree_events(self@));
                }
            },
        }
    }
}

/// Appends the events of the elements of `cs`, in order, to `out`.
fn push_forest_events(cs: &Vec<GreenElement>, out: &mut Vec<Event>)
    ensures
        events_view(final(out)@) == events_view(old(out)@) + forest_events(elements_view(cs@)),
    decreases cs,
{
    let ghost start = events_view(out@);
    let mut i: usize = 0;
    proof {
        assert(cs@.subrange(0, 0) =~= Seq::<GreenElement>::empty());
        assert(events_view(out@) =~= start + forest_events(elements_view(cs@.subrange(0, 0))));
    }
    while i < cs.len()
        invariant
            i <= cs@.len(),
            events_view(out@) == start + forest_events(elements_view(cs@.subrange(0, i as int))),
        decreases cs@.len() - i,
    {
        let ghost before = events_view(out@);
        cs[i].push_events(out);
        proof {
            let pre = cs@.subrange(0, i as int);
            assert(cs@.subrange(0, i + 1) =~= pre.push(cs@[i as int]));
            lemma_elements_view_push(pre, cs@[i as int]);
            assert(elements_view(pre.push(cs@[i as int])).drop_last() =~= elements_view(pre));
            assert(events_view(out@) =~= start + forest_events(elements_view(cs@.subrange(0, i + 1))));
        }
        i = i + 1;
    }
    proof {
        assert(cs@.subrange(0, cs@.len() as int) =~= cs@);
    }
}

impl GreenNode {
    /// Appends the debug lines of this node, starting at `offset` and lying at
    /// `depth`, and of everything below it to `out`.
    pub(crate) fn push_lines(&self, offset: u32, depth: usize, out: &mut Vec<DebugLine>)
        requires
            offset + tree_bytes(self@).len() <= u32::MAX,
        ensures
            lines_view(final(out)@) == lines_view(old(out)@) + tree_lines(self@, offset as nat, depth as nat),
        decreases self,
    {
        let ghost start = lines_view(out@);
        let len = self.text_len();
        let line = DebugLine { depth, kind: self.kind, start: offset, end: offset + len, data: None };
        out.push(line);
        proof {
            assert(lines_view(out@) =~= start.push(line@));
        }
        let next = if depth < usize::MAX {
            depth + 1
        } else {
            depth
        };
        push_forest_lines(&self.children, offset, next, out);
        proof {
            assert(lines_view(out@) =~= start + tree_lines(self@, offset as nat, depth as nat));
        }
    }
}

impl GreenElement {
    /// Appends the debug lines of this element, starting at `offset` and lying
    /// at `depth`, and of everything below it to `out`.
    pub(crate) fn push_lines(&self, offset: u32, depth: usize, out: &mut Vec<DebugLine>)
        requires
            offset + tree_bytes(self@).len() <= u32::MAX,
        ensures
            lines_view(final(out)@) == lines_view(old(out)@) + tree_lines(self@, offset as nat, depth as nat),
        decreases self,
    {
        match self {
            GreenElement::Node(n) => n.push_lines(offset, depth, out),
            GreenElement::Token(t) => {
                let ghost start = lines_view(out@);
                let len = t.text_len();
                let line = DebugLine {
                    depth,
                    kind: t.kind,
                    start: offset,
                    end: offset + len,
                    data: Some(vstd::slice::slice_to_vec(t.data.as_slice())),
                };
                out.push(line);
                proof {
                    assert(lines_view(out@) =~= start + tree_lines(self@, offset as nat, depth as nat));
                }
            },
        }
    }
}

/// Appends the debug lines of the elements of `cs`, laid out from `offset`
/// at `depth`, in order, to `out`.
fn push_forest_lines(cs: &Vec<GreenElement>, offset: u32, depth: usize, out: &mut Vec<DebugLine>)
    requires
        offset + forest_bytes(elements_view(cs@)).len() <= u32::MAX,
    ensures
        lines_view(final(out)@) == lines_view(old(out)@) + forest_lines(elements_view(cs@), offset as nat, depth as nat),
    decreases cs,
{
    let ghost start = lines_view(out@);
    let ghost ts = elements_view(cs@);
    proof {
        lemma_elements_view_len(cs@);
        assert(ts.take(0) =~= Seq::<GreenTree>::empty());
        assert(lines_view(out@) =~= start + forest_lines(ts.take(0), offset as nat, depth as nat));
    }
    let mut off: u32 = offset;
    let mut i: usize = 0;
    while i < cs.len()
        invariant
            i <= cs@.len(),
            ts == elements_view(cs@),
            ts.len() == cs@.len(),
            forall|k: int| 0 <= k < cs@.len() ==> #[trigger] ts[k] == cs@[k]@,
            offset + forest_bytes(ts).len() <= u32::MAX,
            off == offset + forest_bytes(ts.take(i as int)).len(),
            lines_view(out@) == start + forest_lines(ts.take(i as int), offset as nat, depth as nat),
        decreases cs@.len() - i,
    {
        proof {
            lemma_forest_split(ts, i as int);
            assert(ts.take(i + 1).drop_last() =~= ts.take(i as int));
            assert(ts.take(i + 1).last() == cs@[i as int]@);
        }
        cs[i].push_lines(off, depth, out);
        let len = cs[i].text_len();
        off = off + len;
        proof {
            assert(lines_view(out@) =~= start + forest_lines(ts.take(i + 1), offset as nat, depth as nat));
        }
        i = i + 1;
    }
    proof {
        assert(ts.take(cs@.len() as int) =~= ts);
    }
}

impl GreenNode {
    /// A copy of this node with child `index` replaced by `child`.
    pub fn with_child_replaced(&self, index: usize, child: GreenElement) -> (n: GreenNode)
        requires
            index < tree_children(self@).len(),
            forest_bytes(tree_children(self@).update(index as int, child@)).len() <= u32::MAX,
        ensures
            n@ == (GreenTree::Node { kind: tree_kind(self@), children: tree_children(self@).update(index as int, child@) }),
    {
        proof {
            lemma_elements_view_len(self.children@);
        }
        let mut children = clone_elements(&self.children);
        proof {
            lemma_elements_view_len(children@);
        }
        children.set(index, child);
        proof {
            lemma_elements_view_len(children@);
            assert(elements_view(children@) =~= tree_children(self@).update(index as int, child@));
        }
        GreenNode::new(self.kind, children)
    }
}

/// Clones every element of `cs`.
fn clone_elements(cs: &Vec<GreenElement>) -> (r: Vec<GreenElement>)
    ensures
        elements_view(r@) == elements_view(cs@),
    decreases cs,
{
    let mut out: Vec<GreenElement> = Vec::new();
    let mut i: usize = 0;
    while i < cs.len()
        invariant
            i <= cs@.len(),
            elements_view(out@) == elements_view(cs@.subrange(0, i as int)),
        decreases cs@.len() - i,
    {
        let c = cs[i].clone();
        proof {
            lemma_elements_view_push(out@, c);
            lemma_elements_view_push(cs@.subrange(0, i as int), cs@[i as int]);
            assert(cs@.subrange(0, i + 1) =~= cs@.subrange(0, i as int).push(cs@[i as int]));
        }
        out.push(c);
        i = i + 1;
    }
    proof {
        assert(cs@.subrange(0, cs@.len() as int) =~= cs@);
    }
    out
}

/// Computes the total length of `children` and the hash of their heads.
pub(crate) fn measure_elements(children: &[GreenElement]) -> (r: (TextSize, ChildHash))
    requires
        forest_bytes(elements_view(children@)).len() <= u32::MAX,
    ensures
        r.0 == forest_bytes(elements_view(children@)).len(),
        r.1.spec_fed() == elements_hash_inputs(children@),
{
    proof {
        assert(children@.subrange(0, children@.len() as int) =~= children@);
    }
    measure_elements_from(children, 0)
}

/// Computes the total length of `children[offset..]` and the hash of their heads.
pub(crate) fn measure_elements_from(children: &[GreenElement], offset: usize) -> (r: (TextSize, ChildHash))
    requires
        offset <= children@.len(),
        forest_bytes(elements_view(children@.subrange(offset as int, children@.len() as int))).len() <= u32::MAX,
    ensures
        r.0 == forest_bytes(elements_view(children@.subrange(offset as int, children@.len() as int))).len(),
        r.1.spec_fed() == elements_hash_inputs(children@.subrange(offset as int, children@.len() as int)),
{
    let mut hasher = ChildHasher::new();
    let mut text_len: TextSize = 0;
    let mut i = offset;
    let ghost total = forest_bytes(elements_view(children@.subrange(offset as int, children@.len() as int))).len();
    while i < children.len()
        invariant
            offset <= i <= children@.len(),
            total == forest_bytes(elements_view(children@.subrange(offset as int, children@.len() as int))).len(),
            total <= u32::MAX,
            text_len == forest_bytes(elements_view(children@.subrange(offset as int, i as int))).len(),
            hasher.spec_fed() == elements_hash_inputs(children@.subrange(offset as int, i as int)),
        decreases children@.len() - i,
    {
        let child = &children[i];
        proof {
            let cs = children@;
            assert(cs.subrange(offset as int, i + 1) =~= cs.subrange(offset as int, i as int).push(cs[i as int]));
            lemma_elements_view_push(cs.subrange(offset as int, i as int), cs[i as int]);
            lemma_forest_bytes_push(elements_view(cs.subrange(offset as int, i as int)), cs[i as int]@);
            let rest = cs.subrange(i + 1, cs.len() as int);
            assert(cs.subrange(offset as int, cs.len() as int) =~= cs.subrange(offset as int, i + 1) + rest);
            lemma_elements_view_len(cs.subrange(offset as int, i + 1));
            lemma_elements_view_len(rest);
            lemma_elements_view_len(cs.subrange(offset as int, cs.len() as int));
            assert(elements_view(cs.subrange(offset as int, cs.len() as int)) =~= elements_view(cs.subrange(offset as int, i + 1)) + elements_view(rest));
            lemma_forest_bytes_append(elements_view(cs.subrange(offset as int, i + 1)), elements_view(rest));
        }
        text_len = text_len + child.text_len();
        child.hash_into(&mut hasher);
        proof {
            let cs = children@;
            assert(cs.subrange(offset as int, i + 1).drop_last() =~= cs.subrange(offset as int, i as int));
        }
        i = i + 1;
    }
    proof {
        assert(children@.subrange(offset as int, offset as int) =~= Seq::<GreenElement>::empty());
    }
    (text_len, hasher.finish())
}

/// What the elements `cs` feed into the hasher of child hashes, in order.
pub open spec fn elements_hash_inputs(cs: Seq<GreenElement>) -> Seq<HashInput>
    decreases cs.len(),
{
    if cs.len() == 0 {
        Seq::empty()
    } else {
        elements_hash_inputs(cs.drop_last()) + hash_inputs(cs.last())
    }
}

/// A child hash, with the values fed to the hasher it was taken from.
pub struct ChildHash {
    value: u32,
    fed: Ghost<Seq<HashInput>>,
}

impl ChildHash {
    /// The values fed to the hasher, in order.
    pub closed spec fn spec_fed(&self) -> Seq<HashInput> {
        self.fed@
    }

    /// The hash itself.
    pub closed spec fn spec_value(&self) -> u32 {
        self.value
    }
}

/// One value fed to the hasher of child hashes.
pub enum HashInput {
    Word(u32),
    Bytes(Seq<u8>),
}

/// What an element feeds into the hasher of child hashes: a tag, its kind,
/// and then its bytes (a token) or its length and cached child hash (a node).
pub open spec fn hash_inputs(e: GreenElement) -> Seq<HashInput> {
    match e {
        GreenElement::Node(n) => seq![
            HashInput::Word(0),
            HashInput::Word(tree_kind(n@)),
            HashInput::Word(tree_bytes(n@).len() as u32),
            HashInput::Word(n.spec_child_hash()),
        ],
        GreenElement::Token(t) => seq![
            HashInput::Word(1),
            HashInput::Word(tree_kind(t@)),
            HashInput::Bytes(tree_bytes(t@)),
        ],
    }
}

impl GreenNode {
    /// The cached hash of this node's children.
    pub closed spec fn spec_child_hash(&self) -> u32 {
        self.child_hash
    }
}

/// The hasher of child hashes, with the values fed to it so far.
pub struct ChildHasher {
    inner: FxHasher,
    fed: Ghost<Seq<HashInput>>,
}

impl ChildHasher {
    /// The values fed to this hasher, in order.
    pub closed spec fn spec_fed(&self) -> Seq<HashInput> {
        self.fed@
    }

    /// A hasher that has been fed nothing.
    fn new() -> (h: ChildHasher)
        ensures
            h.spec_fed() == Seq::<HashInput>::empty(),
    {
        ChildHasher { inner: fx_hasher_new(), fed: Ghost(Seq::empty()) }
    }

    /// Feeds a 32-bit word.
    fn write_u32(&mut self, x: u32)
        ensures
            final(self).spec_fed() == old(self).spec_fed().push(HashInput::Word(x)),
    {
        fx_write_u32(&mut self.inner, x);
        self.fed = Ghost(self.fed@.push(HashInput::Word(x)));
    }

    /// Feeds a byte string.
    fn write(&mut self, bytes: &[u8])
        ensures
            final(self).spec_fed() == old(self).spec_fed().push(HashInput::Bytes(bytes@)),
    {
        fx_write(&mut self.inner, bytes);
        self.fed = Ghost(self.fed@.push(HashInput::Bytes(bytes@)));
    }

    /// The hash of what was fed, cut to 32 bits; its value depends on the
    /// machine.
    fn finish(&self) -> (r: ChildHash)
        ensures
            r.spec_fed() == self.spec_fed(),
    {
        ChildHash { value: fx_finish(&self.inner) as u32, fed: Ghost(self.fed@) }
    }
}

/// The hasher of `rustc_hash`, used for the cached child hash of green nodes.
#[verifier::external_type_specification]
#[verifier::external_body]
pub struct ExFxHasher(FxHasher);

/// Calls `FxHasher::default`; nothing is stated of the fresh hasher's state.
#[verifier::external_body]
fn fx_hasher_new() -> FxHasher {
    FxHasher::default()
}

/// Calls `Hasher::write_u32` on an `FxHasher`; nothing is stated of the new state.
#[verifier::external_body]
fn fx_write_u32(hasher: &mut FxHasher, x: u32) {
    hasher.write_u32(x)
}

/// Calls `Hasher::write` on an `FxHasher`; nothing is stated of the new state.
#[verifier::external_body]
fn fx_write(hasher: &mut FxHasher, bytes: &[u8]) {
    hasher.write(bytes)
}

/// Calls `Hasher::finish` on an `FxHasher`. The value depends on the width of
/// the machine's pointers, so nothing is stated of it.
#[verifier::external_body]
fn fx_finish(hasher: &FxHasher) -> u64 {
    hasher.finish()
}

} // verus!
