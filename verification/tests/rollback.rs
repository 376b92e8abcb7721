use cstree::builder::GreenNodeBuilder as Builder;
use cstree::syntax::SyntaxNode as Node;
use cstree::util::NodeOrToken;
use cstree::{RawSyntaxKind, Syntax};

#[derive(Debug, Clone, Copy, PartialEq, Eq)]
pub struct SyntaxKind(u32);

impl Syntax for SyntaxKind {
    type Data = str;

    fn data_to_bytes(data: &Self::Data) -> &[u8] {
        data.as_bytes()
    }

    fn data_from_bytes(data: &[u8]) -> Option<&Self::Data> {
        std::str::from_utf8(data).ok()
    }

    fn from_raw(raw: RawSyntaxKind) -> Self {
        Self(raw.0)
    }

    fn into_raw(self) -> RawSyntaxKind {
        RawSyntaxKind(self.0)
    }

    fn static_data(self) -> Option<&'static Self::Data> {
        None
    }
}

type GreenNodeBuilder = Builder<SyntaxKind>;
type SyntaxNode = Node<SyntaxKind>;

fn with_builder(f: impl FnOnce(&mut GreenNodeBuilder)) -> SyntaxNode {
    let mut builder = GreenNodeBuilder::new();
    f(&mut builder);
    SyntaxNode::new_root(builder.finish())
}

fn assert_tree_eq(left: &SyntaxNode, right: &SyntaxNode) {
    if left.green() == right.green() {
        return;
    }
    if left.kind() != right.kind() || left.children_with_tokens().len() != right.children_with_tokens().len() {
        panic!("{:?} != {:?}", left.green(), right.green());
    }
    let mut lefts = left.children_with_tokens();
    let mut rights = right.children_with_tokens();
    while let (Some(l), Some(r)) = (lefts.next(), rights.next()) {
        match (l, r) {
            (NodeOrToken::Node(ln), NodeOrToken::Node(rn)) => assert_tree_eq(&ln, &rn),
            (NodeOrToken::Token(lt), NodeOrToken::Token(rt)) => {
                if lt.syntax_kind() != rt.syntax_kind() || lt.data() != rt.data() {
                    panic!("{:?} != {:?}", lt.green(), rt.green());
                }
            }
            (l, r) => panic!("{:?} != {:?}", l.as_node().map(|n| n.green()), r.as_node().map(|n| n.green())),
        }
    }
}

#[test]
fn no_rollback_token() {
    let first = with_builder(|builder| {
        builder.start_node(SyntaxKind(0));
        builder.token(SyntaxKind(1), b"hi");
        builder.finish_node();
    });
    let second = with_builder(|builder| {
        let checkpoint = builder.checkpoint();
        builder.token(SyntaxKind(1), b"hi");
        builder.start_node_at(checkpoint, SyntaxKind(0));
        builder.finish_node();
    });
    assert_tree_eq(&first, &second);
}

#[test]
fn no_rollback_node() {
    let first = with_builder(|builder| {
        builder.start_node(SyntaxKind(2));
        builder.start_node(SyntaxKind(0));
        builder.token(SyntaxKind(1), b"hi");
        builder.finish_node();
        builder.finish_node();
    });
    let second = with_builder(|builder| {
        let checkpoint = builder.checkpoint();
        builder.start_node(SyntaxKind(0));
        builder.token(SyntaxKind(1), b"hi");
        builder.finish_node();
        builder.start_node_at(checkpoint, SyntaxKind(2));
        builder.finish_node();
    });
    assert_tree_eq(&first, &second);
}

#[test]
fn simple() {
    let first = with_builder(|builder| {
        builder.start_node(SyntaxKind(0));
        builder.finish_node();
    });
    let second = with_builder(|builder| {
        builder.start_node(SyntaxKind(0));

        // Add a token, then remove it.
        let initial = builder.checkpoint();
        builder.token(SyntaxKind(1), b"hi");
        builder.revert_to(initial);

        builder.finish_node();
    });
    assert_tree_eq(&first, &second);
}

#[test]
fn nested() {
    let first = with_builder(|builder| {
        builder.start_node(SyntaxKind(0));
        builder.finish_node();
    });

    let second = with_builder(|builder| {
        builder.start_node(SyntaxKind(0));
        // Add two tokens, then remove both.
        let initial = builder.checkpoint();
        builder.token(SyntaxKind(1), b"hi");
        builder.token(SyntaxKind(2), b"hello");
        builder.revert_to(initial);

        builder.finish_node();
    });

    let third = with_builder(|builder| {
        builder.start_node(SyntaxKind(0));

        // Add two tokens, then remove one after the other.
        let initial = builder.checkpoint();
        builder.token(SyntaxKind(1), b"hi");
        let second = builder.checkpoint();
        builder.token(SyntaxKind(2), b"hello");
        builder.revert_to(second);
        builder.revert_to(initial);

        builder.finish_node();
    });

    assert_tree_eq(&first, &second);
    assert_tree_eq(&first, &third);
}

#[test]
fn unfinished_node() {
    let first = with_builder(|builder| {
        builder.start_node(SyntaxKind(2));
        builder.finish_node();
    });
    let second = with_builder(|builder| {
        builder.start_node(SyntaxKind(2));
        let checkpoint = builder.checkpoint();
        builder.start_node(SyntaxKind(0));
        builder.token(SyntaxKind(1), b"hi");
        builder.revert_to(checkpoint);
        builder.finish_node();
    });
    assert_tree_eq(&first, &second);
}

#[test]
fn misuse3() {
    let first = with_builder(|builder| {
        builder.start_node(SyntaxKind(0));
        builder.token(SyntaxKind(3), b"no");
        builder.finish_node();
    });

    let second = with_builder(|builder| {
        builder.start_node(SyntaxKind(0));

        // Add two tokens, revert to the initial state, add three tokens, and try to revert to an earlier checkpoint.
        let initial = builder.checkpoint();
        builder.token(SyntaxKind(1), b"hi");
        let new = builder.checkpoint();
        builder.token(SyntaxKind(2), b"hello");
        builder.revert_to(initial);

        // This is wrong, but there's not a whole lot the library can do about it.
        builder.token(SyntaxKind(3), b"no");
        builder.token(SyntaxKind(4), b"bad");
        builder.token(SyntaxKind(4), b"wrong");
        builder.revert_to(new);

        builder.finish_node();
    });

    assert_tree_eq(&first, &second);
}

#[test]
fn revert_then_start() {
    let first = with_builder(|builder| {
        builder.start_node(SyntaxKind(0));
        builder.start_node(SyntaxKind(3));
        builder.token(SyntaxKind(2), b"hello");
        builder.finish_node();
        builder.finish_node();
    });
    let second = with_builder(|builder| {
        builder.start_node(SyntaxKind(0));

        // Take two snapshots with only tokens between them, revert to the earlier one but then try to start a node at
        // the later one.
        let initial = builder.checkpoint();
        builder.token(SyntaxKind(1), b"hi");
        builder.revert_to(initial);
        builder.start_node_at(initial, SyntaxKind(3));
        builder.token(SyntaxKind(2), b"hello");
        builder.finish_node();

        builder.finish_node();
    });
    assert_tree_eq(&first, &second);
}

#[test]
fn start_then_revert() {
    let first = with_builder(|builder| {
        builder.start_node(SyntaxKind(0));
        builder.token(SyntaxKind(2), b"hello");
        builder.finish_node();
    });
    let second = with_builder(|builder| {
        builder.start_node(SyntaxKind(0));

        // Take two snapshots with only tokens between them, revert to the earlier one but then try to start a node at
        // the later one.
        let initial = builder.checkpoint();
        builder.token(SyntaxKind(1), b"hi");
        builder.start_node_at(initial, SyntaxKind(3));
        builder.revert_to(initial);
        builder.token(SyntaxKind(2), b"hello");

        builder.finish_node();
    });
    assert_tree_eq(&first, &second);
}
