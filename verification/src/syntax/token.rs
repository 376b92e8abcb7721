//! Syntax tokens: leaves of a syntax tree, at their place in the tree.

use vstd::prelude::*;
use vstd::string::{StringExecFns, StringSliceAdditionalSpecFns};
use vstd::utf8::valid_utf8;

use crate::green::{
    elements_view, forest_bytes, lemma_element_is_node, lemma_elements_view_len, lemma_forest_split,
    tree_bytes, tree_children, tree_kind, GreenElement, GreenToken, GreenTree,
};
use crate::display::{data_debug, data_display, decimal, fmt_data_debug, fmt_data_display, push_decimal};
use crate::interning::traits::TokenData;
use crate::kind::{data_decodes, RawSyntaxKind, Syntax};
use crate::syntax::node::{
    elem_at, lemma_elem_within, lemma_path_prefix, offset_of, position_range, valid_path, Position,
    SyntaxNode,
};
use crate::text::{TextRange, TextSize};
use crate::util::NodeOrToken;
use crate::utf8::str_from_utf8;

verus! {

/// A token as shown for debugging, given how its kind is shown, its range and
/// its data.
pub open spec fn token_debug(kind: Seq<char>, start: nat, end: nat, data: Seq<u8>) -> Seq<char> {
    kind + seq!['@'] + decimal(start) + seq!['.', '.'] + decimal(end) + seq![' '] + data_debug(data)
}

/// A node or a token of a syntax tree.
pub type SyntaxElement<S> = NodeOrToken<SyntaxNode<S>, SyntaxToken<S>>;

/// A token of a syntax tree, at its place in the tree.
#[derive(Debug)]
pub struct SyntaxToken<S: Syntax> {
    parent: SyntaxNode<S>,
    index: usize,
    offset: TextSize,
}

impl<S: Syntax> View for SyntaxToken<S> {
    type V = Position;

    closed spec fn view(&self) -> Position {
        Position { root: self.parent@.root, path: self.parent@.path.push(self.index) }
    }
}

/// The position holds a token.
pub open spec fn is_token_position(p: Position) -> bool {
    &&& p.path.len() > 0
    &&& valid_path(p.root, p.path)
    &&& elem_at(p.root, p.path) is Token
}

/// The bytes of a token position.
pub open spec fn token_data(p: Position) -> Seq<u8> {
    tree_bytes(elem_at(p.root, p.path))
}

/// Byte-wise equality of two slices.
pub(crate) fn bytes_eq(a: &[u8], b: &[u8]) -> (r: bool)
    ensures
        r == (a@ == b@),
{
    if a.len() != b.len() {
        return false;
    }
    let mut i: usize = 0;
    while i < a.len()
        invariant
            a@.len() == b@.len(),
            i <= a@.len(),
            forall|k: int| 0 <= k < i ==> a@[k] == b@[k],
        decreases a@.len() - i,
    {
        if a[i] != b[i] {
            return false;
        }
        i = i + 1;
    }
    proof {
        assert(a@ =~= b@);
    }
    true
}

/// A token's bytes are the bytes of the whole tree over the token's range.
pub proof fn lemma_token_data_at_range(p: Position)
    requires
        is_token_position(p),
    ensures
        position_range(p).1 <= tree_bytes(p.root).len(),
        token_data(p) == tree_bytes(p.root).subrange(position_range(p).0 as int, position_range(p).1 as int),
{
    lemma_elem_within(p.root, p.path);
}

impl<S: Syntax> SyntaxToken<S> {
    #[verifier::type_invariant]
    spec fn inv(self) -> bool {
        &&& is_token_position(self@)
        &&& self.offset == offset_of(self@.root, self@.path)
        &&& tree_bytes(self@.root).len() <= u32::MAX
    }

    pub(crate) fn new(parent: SyntaxNode<S>, index: usize, offset: TextSize) -> (t: Self)
        requires
            is_token_position(Position { root: parent@.root, path: parent@.path.push(index) }),
            offset == offset_of(parent@.root, parent@.path.push(index)),
            tree_bytes(parent@.root).len() <= u32::MAX,
        ensures
            t@ == (Position { root: parent@.root, path: parent@.path.push(index) }),
    {
        SyntaxToken { parent, index, offset }
    }

    /// The green token underlying this token.
    pub fn green(&self) -> (g: &GreenToken)
        ensures
            g@ == elem_at(self@.root, self@.path),
            is_token_position(self@),
            position_range(self@).1 <= tree_bytes(self@.root).len() <= u32::MAX,
    {
        proof {
            use_type_invariant(self);
            lemma_elem_within(self@.root, self@.path);
            assert(self@.path.drop_last() =~= self.parent@.path);
        }
        let node = self.parent.green();
        proof {
            node.lemma_view();
            lemma_elements_view_len(node.spec_children());
            lemma_element_is_node(node.spec_children()[self.index as int]);
        }
        match &node.children()[self.index] {
            GreenElement::Token(t) => t,
            GreenElement::Node(_) => vstd::pervasive::unreached(),
        }
    }

    /// The raw kind of this token.
    pub fn syntax_kind(&self) -> (k: RawSyntaxKind)
        ensures
            k.0 == tree_kind(elem_at(self@.root, self@.path)),
    {
        self.green().kind()
    }

    /// The kind of this token in terms of the user's syntax.
    pub fn kind(&self) -> (k: S)
        ensures
            k == S::spec_from_raw(tree_kind(elem_at(self@.root, self@.path))),
            crate::kind::raw_is_kind::<S>(tree_kind(elem_at(self@.root, self@.path))) ==> k.spec_into_raw()
                == tree_kind(elem_at(self@.root, self@.path)),
    {
        S::from_raw(self.syntax_kind())
    }

    /// The range this token covers in the source, in bytes.
    pub fn text_range(&self) -> (r: TextRange)
        ensures
            r.spec_start() == position_range(self@).0,
            r.spec_end() == position_range(self@).1,
            r.wf(),
    {
        let len = self.green().text_len();
        proof {
            use_type_invariant(self);
        }
        TextRange::at(self.offset, len)
    }

    /// The payload of this token, as the syntax's data type; its bytes must
    /// decode as one.
    pub fn data(&self) -> (d: &S::Data)
        requires
            data_decodes::<S>(token_data(self@)),
        ensures
            d.spec_data_bytes() == token_data(self@),
    {
        match S::data_from_bytes(self.green().data()) {
            Some(d) => d,
            None => vstd::pervasive::unreached(),
        }
    }

    /// The source bytes of this token.
    pub fn data_bytes(&self) -> (d: &[u8])
        ensures
            d@ == token_data(self@),
    {
        self.green().data()
    }

    /// The source text of this token, if its bytes are valid UTF-8.
    pub fn text(&self) -> (t: Option<&str>)
        ensures
            t is Some <==> valid_utf8(token_data(self@)),
            t matches Some(s) ==> s.spec_bytes() == token_data(self@),
    {
        str_from_utf8(self.data_bytes())
    }

    /// The payload that this token's kind always stands for, if any.
    pub fn static_data(&self) -> (r: Option<&'static S::Data>)
        ensures
            r is Some <==> self.spec_kind().spec_static_data() is Some,
            r matches Some(d) ==> self.spec_kind().spec_static_data() == Some(d.spec_data_bytes()),
    {
        let k = self.kind();
        k.static_data()
    }

    /// The bytes that this token's kind always stands for, if any.
    pub fn static_data_bytes(&self) -> (r: Option<&'static [u8]>)
        ensures
            r is Some <==> self.spec_kind().spec_static_data() is Some,
            r matches Some(d) ==> self.spec_kind().spec_static_data() == Some(d@),
    {
        let k = self.kind();
        k.static_bytes()
    }

    /// The text that this token's kind always stands for, if any.
    pub fn static_text(&self) -> (r: Option<&'static str>)
        ensures
            r is Some <==> (self.spec_kind().spec_static_data() matches Some(d) && valid_utf8(d)),
            r matches Some(s) ==> self.spec_kind().spec_static_data() == Some(s.spec_bytes()),
    {
        let k = self.kind();
        k.static_text()
    }

    /// The user's kind of this token.
    pub open spec fn spec_kind(&self) -> S {
        S::spec_from_raw(tree_kind(elem_at(self@.root, self@.path)))
    }

    /// Whether `self` and `other` cover equal bytes, wherever they stand.
    pub fn data_eq(&self, other: &Self) -> (r: bool)
        ensures
            r == (token_data(self@) == token_data(other@)),
    {
        bytes_eq(self.data_bytes(), other.data_bytes())
    }

    /// Whether `self` and `other` cover equal text, wherever they stand.
    pub fn text_eq(&self, other: &Self) -> (r: bool)
        ensures
            r == (token_data(self@) == token_data(other@)),
    {
        self.data_eq(other)
    }

    /// This token's data as displayed: its text where it is UTF-8, else the
    /// values of its bytes.
    pub fn display(&self) -> (r: String)
        ensures
            r@ == data_display(token_data(self@)),
    {
        fmt_data_display(self.data_bytes())
    }

    /// This token's data as shown for debugging: its quoted text where it is
    /// UTF-8, else the values of its bytes.
    pub fn debug_data(&self) -> (r: String)
        ensures
            r@ == data_debug(token_data(self@)),
    {
        fmt_data_debug(self.data_bytes())
    }

    /// This token as shown for debugging, given how its kind is shown: the
    /// kind, `@`, its range as `start..end`, a space, and its data as
    /// `debug_data` shows it.
    pub fn debug_with_kind(&self, kind: &str) -> (r: String)
        ensures
            r@ == token_debug(kind@, position_range(self@).0, position_range(self@).1, token_data(self@)),
    {
        let range = self.text_range();
        let mut out = String::new();
        proof {
            reveal_strlit("@");
            reveal_strlit("..");
            reveal_strlit(" ");
        }
        out.append(kind);
        out.append("@");
        push_decimal(&mut out, range.start() as u64);
        out.append("..");
        push_decimal(&mut out, range.end() as u64);
        out.append(" ");
        let data = self.debug_data();
        out.append(data.as_str());
        proof {
            assert(out@ =~= token_debug(kind@, position_range(self@).0, position_range(self@).1, token_data(self@)));
        }
        out
    }

    /// The index of this token among its parent's children.
    pub(crate) fn index(&self) -> (i: usize)
        ensures
            i == self@.path.last(),
            i < tree_children(elem_at(self@.root, self@.path.drop_last())).len(),
    {
        proof {
            use_type_invariant(self);
            assert(self@.path.drop_last() =~= self.parent@.path);
        }
        self.index
    }

    /// The node this token is a child of.
    pub fn parent(&self) -> (p: &SyntaxNode<S>)
        ensures
            p@ == (Position { root: self@.root, path: self@.path.drop_last() }),
    {
        proof {
            assert(self@.path.drop_last() =~= self.parent@.path);
        }
        &self.parent
    }
}

impl<S: Syntax> Clone for SyntaxToken<S> {
    fn clone(&self) -> (r: Self)
        ensures
            r@ == self@,
    {
        proof {
            use_type_invariant(self);
        }
        SyntaxToken { parent: self.parent.clone(), index: self.index, offset: self.offset }
    }
}

/// A copy of an element at the same position.
pub fn clone_element<S: Syntax>(e: &SyntaxElement<S>) -> (r: SyntaxElement<S>)
    ensures
        r@ == e@,
{
    match e {
        NodeOrToken::Node(n) => NodeOrToken::Node(n.clone()),
        NodeOrToken::Token(t) => NodeOrToken::Token(t.clone()),
    }
}

} // verus!
