//! Small helper types.

use vstd::prelude::*;

verus! {

/// Either a node or a token.
#[derive(Debug, Clone, Copy, PartialEq, Eq, Hash)]
pub enum NodeOrToken<N, T> {
    Node(N),
    Token(T),
}

impl<N: View, T: View> View for NodeOrToken<N, T> {
    type V = NodeOrToken<N::V, T::V>;

    open spec fn view(&self) -> NodeOrToken<N::V, T::V> {
        match self {
            NodeOrToken::Node(n) => NodeOrToken::Node(n@),
            NodeOrToken::Token(t) => NodeOrToken::Token(t@),
        }
    }
}

impl<N, T> NodeOrToken<N, T> {
    /// The node, if this is one.
    pub fn into_node(self) -> (r: Option<N>)
        ensures
            r == (match self {
                NodeOrToken::Node(n) => Some(n),
                NodeOrToken::Token(_) => None::<N>,
            }),
    {
        match self {
            NodeOrToken::Node(n) => Some(n),
            NodeOrToken::Token(_) => None,
        }
    }

    /// The token, if this is one.
    pub fn into_token(self) -> (r: Option<T>)
        ensures
            r == (match self {
                NodeOrToken::Node(_) => None::<T>,
                NodeOrToken::Token(t) => Some(t),
            }),
    {
        match self {
            NodeOrToken::Node(_) => None,
            NodeOrToken::Token(t) => Some(t),
        }
    }

    /// A reference to the node, if this is one.
    pub fn as_node(&self) -> (r: Option<&N>)
        ensures
            r == (match self {
                NodeOrToken::Node(n) => Some(n),
                NodeOrToken::Token(_) => None::<&N>,
            }),
    {
        match self {
            NodeOrToken::Node(n) => Some(n),
            NodeOrToken::Token(_) => None,
        }
    }

    /// A reference to the token, if this is one.
    pub fn as_token(&self) -> (r: Option<&T>)
        ensures
            r == (match self {
                NodeOrToken::Node(_) => None::<&T>,
                NodeOrToken::Token(t) => Some(t),
            }),
    {
        match self {
            NodeOrToken::Node(_) => None,
            NodeOrToken::Token(t) => Some(t),
        }
    }
}

} // verus!
