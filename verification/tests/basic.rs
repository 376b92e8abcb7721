use cstree::builder::GreenNodeBuilder;
use cstree::events::{check_events, to_events, Event};
use cstree::green::GreenNode;
use cstree::node_data::NodeDataMap;
use cstree::syntax::SyntaxNode as Node;
use cstree::text::TextRange;
use cstree::{RawSyntaxKind, Syntax};

#[derive(Debug, Clone, Copy, PartialEq, Eq)]
pub struct SyntaxKind(u32);

impl Syntax for SyntaxKind {
    type Data = str;

    fn data_to_bytes(data: &Self::Data) -> &[u8] {
        data.as_bytes()
    }

    fn data_from_bytes(data: &[u8]) -> Option<&Self::Data> {
        std::str::from_utf8(data).ok()
    }

    fn from_raw(raw: RawSyntaxKind) -> Self {
        Self(raw.0)
    }

    fn into_raw(self) -> RawSyntaxKind {
        RawSyntaxKind(self.0)
    }

    fn static_data(self) -> Option<&'static Self::Data> {
        None
    }
}

type SyntaxNode = Node<SyntaxKind>;

#[derive(Debug)]
pub enum Element<'s> {
    Node(Vec<Element<'s>>),
    Token(&'s str),
}

fn build_tree(root: &Element<'_>) -> GreenNode {
    let mut builder = GreenNodeBuilder::new();
    build_recursive(root, &mut builder, 0);
    builder.finish()
}

fn build_recursive(root: &Element<'_>, builder: &mut GreenNodeBuilder<SyntaxKind>, mut from: u32) -> u32 {
    match root {
        Element::Node(children) => {
            builder.start_node(SyntaxKind(from));
            for child in children {
                from = build_recursive(child, builder, from + 1);
            }
            builder.finish_node();
        }
        Element::Token(text) => {
            builder.token(SyntaxKind(from), text.as_bytes());
        }
    }
    from
}

fn build_syntax_tree(root: &Element<'_>) -> SyntaxNode {
    SyntaxNode::new_root(build_tree(root))
}

fn two_level_tree() -> Element<'static> {
    Element::Node(vec![
        Element::Node(vec![Element::Token("0.0"), Element::Token("0.1")]),
        Element::Node(vec![Element::Token("1.0")]),
        Element::Node(vec![Element::Token("2.0"), Element::Token("2.1"), Element::Token("2.2")]),
    ])
}

fn tree_with_eq_tokens() -> Element<'static> {
    Element::Node(vec![
        Element::Node(vec![Element::Token("a"), Element::Token("b")]),
        Element::Node(vec![Element::Token("c")]),
        Element::Node(vec![Element::Token("a"), Element::Token("b"), Element::Token("c")]),
    ])
}

fn nth_child(tree: &SyntaxNode, n: usize) -> SyntaxNode {
    let mut children = tree.children();
    for _ in 0..n {
        children.next();
    }
    children.next().unwrap()
}

fn nth_token(node: &SyntaxNode, n: usize) -> cstree::syntax::SyntaxToken<SyntaxKind> {
    let mut elements = node.children_with_tokens();
    for _ in 0..n {
        elements.next();
    }
    elements.next().unwrap().into_token().unwrap()
}

#[test]
fn create() {
    let tree = two_level_tree();
    let tree = build_syntax_tree(&tree);
    assert_eq!(tree.syntax_kind(), RawSyntaxKind(0));
    assert_eq!(tree.kind(), SyntaxKind(0));
    {
        let leaf1_0 = nth_child(&tree, 1).children_with_tokens().next().unwrap();
        let leaf1_0 = leaf1_0.into_token().unwrap();
        assert_eq!(leaf1_0.syntax_kind(), RawSyntaxKind(5));
        assert_eq!(leaf1_0.kind(), SyntaxKind(5));
        assert_eq!(leaf1_0.text(), Some("1.0"));
        assert_eq!(leaf1_0.text_range(), TextRange::at(6, 3));
    }
    {
        let node2 = nth_child(&tree, 2);
        assert_eq!(node2.syntax_kind(), RawSyntaxKind(6));
        assert_eq!(node2.kind(), SyntaxKind(6));
        assert_eq!(node2.children_with_tokens().count(), 3);
        assert!(node2.text().unwrap() == "2.02.12.2");
    }
}

#[test]
fn token_text_eq() {
    let tree = tree_with_eq_tokens();
    let tree = build_syntax_tree(&tree);
    assert_eq!(tree.kind(), SyntaxKind(0));

    let leaf0_0 = nth_token(&nth_child(&tree, 0), 0);
    let leaf0_1 = nth_token(&nth_child(&tree, 0), 1);

    let leaf1_0 = nth_token(&nth_child(&tree, 1), 0);

    let leaf2_0 = nth_token(&nth_child(&tree, 2), 0);
    let leaf2_1 = nth_token(&nth_child(&tree, 2), 1);
    let leaf2_2 = nth_token(&nth_child(&tree, 2), 2);

    assert!(leaf0_0.text_eq(&leaf2_0));
    assert!(leaf0_1.text_eq(&leaf2_1));
    assert!(leaf1_0.text_eq(&leaf2_2));
    assert!(!leaf0_0.text_eq(&leaf0_1));
    assert!(!leaf2_1.text_eq(&leaf2_2));
    assert!(!leaf1_0.text_eq(&leaf2_0));
}

#[derive(Debug, Clone, Copy, PartialEq, Eq)]
enum ByteKind {
    Root,
    Bytes,
    Plus,
}

impl Syntax for ByteKind {
    type Data = [u8];

    fn data_to_bytes(data: &Self::Data) -> &[u8] {
        data
    }

    fn data_from_bytes(data: &[u8]) -> Option<&Self::Data> {
        Some(data)
    }

    fn from_raw(raw: RawSyntaxKind) -> Self {
        match raw.0 {
            0 => Self::Root,
            1 => Self::Bytes,
            2 => Self::Plus,
            _ => panic!("invalid byte kind"),
        }
    }

    fn into_raw(self) -> RawSyntaxKind {
        RawSyntaxKind(self as u32)
    }

    fn static_data(self) -> Option<&'static Self::Data> {
        match self {
            Self::Plus => Some(b"+"),
            _ => None,
        }
    }
}

#[test]
fn byte_token_data() {
    let mut builder = GreenNodeBuilder::<ByteKind>::new();
    builder.start_node(ByteKind::Root);
    builder.token(ByteKind::Bytes, b"\xff\x00abc".as_slice());
    builder.static_token(ByteKind::Plus);
    builder.token(ByteKind::Bytes, b"\xff\x00abc".as_slice());
    builder.finish_node();
    let green = builder.finish();
    let root = Node::<ByteKind>::new_root(green);

    let first = root.first_token().unwrap();
    let plus = first.next_token().unwrap();
    let second = plus.next_token().unwrap();

    assert_eq!(first.data(), b"\xff\x00abc");
    assert_eq!(plus.static_data(), Some(b"+".as_slice()));
    assert_eq!(root.data().len(), 11);
    assert_eq!(first.text(), None);
    assert!(first.data_eq(&second));

    let chunks = root.data().fold_chunks(Vec::new(), |mut chunks, chunk| {
        chunks.push(chunk.to_vec());
        chunks
    });
    assert_eq!(chunks, vec![b"\xff\x00abc".to_vec(), b"+".to_vec(), b"\xff\x00abc".to_vec()]);
}

/// The indented debug rendering of `node`, each kind shown through `Debug`.
fn pretty(node: &SyntaxNode) -> String {
    let names: Vec<String> = node
        .debug_lines()
        .iter()
        .map(|line| format!("{:?}", SyntaxKind::from_raw(line.kind)))
        .collect();
    node.debug_tree(&names).unwrap()
}

#[test]
fn inline_text() {
    let tree = two_level_tree();
    let tree: SyntaxNode = SyntaxNode::new_root(build_tree(&tree));
    {
        let leaf1_0 = nth_child(&tree, 1).children_with_tokens().next().unwrap();
        let leaf1_0 = leaf1_0.into_token().unwrap();
        assert_eq!(leaf1_0.text(), Some("1.0"));
        assert_eq!(leaf1_0.text_range(), TextRange::at(6, 3));
        assert_eq!(leaf1_0.display(), "1.0");
        assert_eq!(leaf1_0.debug_with_kind(&format!("{:?}", leaf1_0.kind())), "SyntaxKind(5)@6..9 \"1.0\"");
    }
    {
        let node2 = nth_child(&tree, 2);
        assert!(node2.text().unwrap() == "2.02.12.2");
        assert_eq!(node2.text().unwrap().to_string().as_str(), "2.02.12.2");
        assert_eq!(node2.debug_with_kind(&format!("{:?}", node2.kind())), "SyntaxKind(6)@9..18");
        assert_eq!(
            pretty(&node2),
            r#"SyntaxKind(6)@9..18
  SyntaxKind(7)@9..12 "2.0"
  SyntaxKind(8)@12..15 "2.1"
  SyntaxKind(9)@15..18 "2.2"
"#
        );
    }
}

#[test]
fn data() {
    let tree = two_level_tree();
    let tree = build_syntax_tree(&tree);
    let mut store: NodeDataMap<String> = NodeDataMap::new();
    {
        let node2 = nth_child(&tree, 2);
        assert!(store.try_set_data(&node2, "data".into()).is_ok());
        let data = store.get_data(&node2).unwrap();
        assert_eq!(data.as_str(), "data");
        store.set_data(&node2, "payload".into());
        let data = store.get_data(&node2).unwrap();
        assert_eq!(data.as_str(), "payload");
    }
    {
        let node2 = nth_child(&tree, 2);
        assert!(store.try_set_data(&node2, "already present".into()).is_err());
        let data = store.get_data(&node2).unwrap();
        assert_eq!(data.as_str(), "payload");
        store.set_data(&node2, "new data".into());
    }
    {
        let node2 = nth_child(&tree, 2);
        let data = store.get_data(&node2).unwrap().clone();
        assert_eq!(data.as_str(), "new data");
        store.clear_data(&node2);
        // re-use `data` after node data was cleared
        assert_eq!(data.as_str(), "new data");
    }
    {
        let node2 = nth_child(&tree, 2);
        assert_eq!(store.get_data(&node2), None);
        assert_eq!(store.get_data(&tree), None);
    }
}

#[test]
fn payloads_that_do_not_decode_are_refused() {
    let tree = build_syntax_tree(&two_level_tree());
    let events = to_events(&tree);
    assert!(check_events::<SyntaxKind>(&events));
    let bad = vec![
        Event::EnterNode(RawSyntaxKind(0), false),
        Event::Token(RawSyntaxKind(1), b"\xff".to_vec()),
        Event::LeaveNode,
    ];
    assert!(!check_events::<SyntaxKind>(&bad));
    assert!(check_events::<ByteKind>(&[
        Event::EnterNode(RawSyntaxKind(0), false),
        Event::Token(RawSyntaxKind(1), b"\xff".to_vec()),
        Event::LeaveNode,
    ]));
}

#[test]
fn typed_token_data() {
    let tree = build_syntax_tree(&two_level_tree());
    let leaf = tree.first_token().unwrap();
    let data: &str = leaf.data();
    assert_eq!(data, "0.0");
    assert_eq!(leaf.data_bytes(), b"0.0");
}
