use cstree::builder::GreenNodeBuilder;
use cstree::display::{fmt_data_debug, fmt_data_display};
use cstree::events::{check_events, from_events, to_events, Event};
use cstree::node_data::{enter_flags_of, flag_data, spread_node_data, DataError};
use cstree::green::{GreenElement, GreenNode, GreenToken};
use cstree::interning::default_interner::{InternerError, TokenInterner};
use cstree::interning::key::TokenKey;
use cstree::interning::traits::{InternKey, Interner, Resolver, TokenDataError};
use cstree::syntax::navigation::Direction;
use cstree::syntax::{SyntaxNode, SyntaxToken};
use cstree::text::TextRange;
use cstree::util::NodeOrToken;
use cstree::{RawSyntaxKind, Syntax};

#[derive(Debug, Clone, Copy, PartialEq, Eq)]
pub struct Kind(u32);

impl Syntax for Kind {
    type Data = [u8];

    fn data_to_bytes(data: &Self::Data) -> &[u8] {
        data
    }

    fn data_from_bytes(data: &[u8]) -> Option<&Self::Data> {
        Some(data)
    }

    fn from_raw(raw: RawSyntaxKind) -> Self {
        Self(raw.0)
    }

    fn into_raw(self) -> RawSyntaxKind {
        RawSyntaxKind(self.0)
    }

    fn static_data(self) -> Option<&'static Self::Data> {
        if self.0 == 9 {
            Some(b"+")
        } else {
            None
        }
    }
}

/// Root(0) [ Inner(1) [ "ab" "c" ] Empty(2) [] "+" Inner(1) [ "d" ] ]
fn sample() -> SyntaxNode<Kind> {
    let mut b = GreenNodeBuilder::<Kind>::new();
    b.start_node(Kind(0));
    b.start_node(Kind(1));
    b.token(Kind(3), b"ab");
    b.token(Kind(3), b"c");
    b.finish_node();
    b.start_node(Kind(2));
    b.finish_node();
    b.static_token(Kind(9));
    b.start_node(Kind(1));
    b.token(Kind(3), b"d");
    b.finish_node();
    b.finish_node();
    SyntaxNode::new_root(b.finish())
}

fn split_differently() -> SyntaxNode<Kind> {
    let mut b = GreenNodeBuilder::<Kind>::new();
    b.start_node(Kind(0));
    b.token(Kind(3), b"a");
    b.token(Kind(3), b"bc+");
    b.token(Kind(3), b"d");
    b.finish_node();
    SyntaxNode::new_root(b.finish())
}

fn texts(tokens: &[SyntaxToken<Kind>]) -> Vec<Vec<u8>> {
    tokens.iter().map(|t| t.data().to_vec()).collect()
}

#[test]
fn checkpoint_then_revert_changes_nothing() {
    let mut b = GreenNodeBuilder::<Kind>::new();
    b.start_node(Kind(0));
    b.token(Kind(3), b"x");
    let cp = b.checkpoint();
    b.revert_to(cp);
    b.finish_node();
    let mut c = GreenNodeBuilder::<Kind>::new();
    c.start_node(Kind(0));
    c.token(Kind(3), b"x");
    c.finish_node();
    assert_eq!(b.finish(), c.finish());
}

#[test]
fn start_node_at_wraps_added_elements() {
    let mut b = GreenNodeBuilder::<Kind>::new();
    b.start_node(Kind(0));
    let cp = b.checkpoint();
    b.token(Kind(3), b"x");
    b.token(Kind(3), b"y");
    b.start_node_at(cp, Kind(5));
    b.finish_node();
    b.finish_node();
    let root = b.finish();
    assert_eq!(root.arity(), 1);
    match &root.children()[0] {
        GreenElement::Node(n) => {
            assert_eq!(n.kind(), RawSyntaxKind(5));
            assert_eq!(n.arity(), 2);
            assert_eq!(n.text_len(), 2);
        }
        GreenElement::Token(_) => panic!("expected a node"),
    }
}

#[test]
fn empty_node_has_no_children() {
    let mut b = GreenNodeBuilder::<Kind>::new();
    b.start_node(Kind(4));
    b.finish_node();
    let root = b.finish();
    assert_eq!(root.arity(), 0);
    assert_eq!(root.text_len(), 0);
    assert_eq!(root.kind(), RawSyntaxKind(4));
}

#[test]
fn green_node_lengths_and_offsets() {
    let a = GreenElement::Token(GreenToken::new(RawSyntaxKind(1), b"abc"));
    let b = GreenElement::Token(GreenToken::new(RawSyntaxKind(1), b"de"));
    let node = GreenNode::new(RawSyntaxKind(0), vec![a, b]);
    assert_eq!(node.text_len(), 5);
    assert_eq!(node.child_offset(0), 0);
    assert_eq!(node.child_offset(1), 3);
    assert_eq!(node.child_offset(2), 5);
    let replaced = node.with_child_replaced(1, GreenElement::Token(GreenToken::new(RawSyntaxKind(1), b"xyz!")));
    assert_eq!(replaced.text_len(), 7);
}

#[test]
fn interning_twice_gives_the_same_key() {
    let mut interner = TokenInterner::<str>::new();
    let a = interner.try_get_or_intern("alpha").unwrap();
    let b = interner.try_get_or_intern("beta").unwrap();
    let a2 = interner.try_get_or_intern("alpha").unwrap();
    assert_eq!(a, a2);
    assert_ne!(a, b);
    assert_eq!(interner.len(), 2);
    assert_eq!(interner.resolve(a), "alpha");
    assert_eq!(interner.resolve(b), "beta");
    assert_eq!(a.into_u32(), 0);
    assert_eq!(b.into_u32(), 1);
}

#[test]
fn interning_bytes_and_resolving() {
    let mut interner = TokenInterner::<[u8]>::new();
    assert!(interner.is_empty());
    let k = interner.get_or_intern_bytes(b"\xff\x00");
    let other = interner.get_or_intern_bytes(b"\x01");
    assert_ne!(k, other);
    assert_eq!(interner.get_or_intern_bytes(b"\xff\x00"), k);
    assert_eq!(interner.len(), 2);
    assert_eq!(interner.try_resolve(k), Some(b"\xff\x00".as_slice()));
    let unknown = TokenKey::try_from_u32(7).unwrap();
    assert_eq!(interner.try_resolve(unknown), None);
}

#[test]
fn interning_invalid_utf8_is_refused() {
    let mut interner = TokenInterner::<str>::new();
    let r = interner.try_get_or_intern_bytes(b"\xff");
    assert_eq!(r, Err(InternerError::InvalidData(TokenDataError::InvalidUtf8)));
    assert!(interner.is_empty());
    let ok = interner.try_get_or_intern_bytes("é".as_bytes()).unwrap();
    assert_eq!(interner.resolve(ok), "é");
}

#[test]
fn token_keys_round_trip_through_u32() {
    let k = TokenKey::try_from_u32(41).unwrap();
    assert_eq!(k.into_u32(), 41);
    assert_eq!(TokenKey::try_from_u32(u32::MAX), None);
}

#[test]
fn error_messages() {
    assert_eq!(InternerError::KeySpaceExhausted.message(), "key space exhausted");
    assert_eq!(TokenDataError::InvalidUtf8.message(), "invalid UTF-8 token data");
    assert_eq!(
        TokenDataError::InvalidSize { expected: 4, actual: 3 }.message(),
        "invalid token data size: expected 4 bytes, got 3"
    );
    assert_eq!(
        InternerError::InvalidData(TokenDataError::InvalidSize { expected: 120, actual: 0 }).message(),
        "invalid token data size: expected 120 bytes, got 0"
    );
}

#[test]
fn events_round_trip() {
    let root = sample();
    let events = to_events(&root);
    assert_eq!(events.len(), 12);
    assert_eq!(events[0], Event::EnterNode(RawSyntaxKind(0), false));
    assert_eq!(events[2], Event::Token(RawSyntaxKind(3), b"ab".to_vec()));
    assert_eq!(events[11], Event::LeaveNode);
    assert!(check_events::<Kind>(&events));
    let back: SyntaxNode<Kind> = from_events(&events);
    assert_eq!(back.green(), root.green());
}

#[test]
fn malformed_event_streams_are_detected() {
    assert!(!check_events::<Kind>(&[]));
    assert!(!check_events::<Kind>(&[Event::LeaveNode]));
    assert!(!check_events::<Kind>(&[Event::Token(RawSyntaxKind(3), b"x".to_vec())]));
    assert!(!check_events::<Kind>(&[Event::EnterNode(RawSyntaxKind(0), false)]
        .into_iter()
        .chain([Event::LeaveNode, Event::EnterNode(RawSyntaxKind(0), false), Event::LeaveNode])
        .collect::<Vec<_>>()));
    // A token whose kind has static data must carry that data.
    assert!(!check_events::<Kind>(&[
        Event::EnterNode(RawSyntaxKind(0), false),
        Event::Token(RawSyntaxKind(9), b"-".to_vec()),
        Event::LeaveNode,
    ]));
    assert!(check_events::<Kind>(&[
        Event::EnterNode(RawSyntaxKind(0), false),
        Event::Token(RawSyntaxKind(9), b"+".to_vec()),
        Event::LeaveNode,
    ]));
}

#[test]
fn first_last_and_adjacent_tokens() {
    let root = sample();
    let first = root.first_token().unwrap();
    assert_eq!(first.data(), b"ab");
    let last = root.last_token().unwrap();
    assert_eq!(last.data(), b"d");
    let second = first.next_token().unwrap();
    assert_eq!(second.data(), b"c");
    // After "c" comes the empty node, whose first token does not exist.
    assert!(second.next_token().is_none());
    assert!(first.prev_token().is_none());
    let before_last = last.prev_token().unwrap();
    assert_eq!(before_last.data(), b"+");
    let plus = before_last;
    // Before "+" is the empty node, which has no last token.
    assert!(plus.prev_token().is_none());
    assert_eq!(plus.next_token().unwrap().data(), b"d");
}

#[test]
fn siblings_and_ancestors() {
    let root = sample();
    let first = root.first_token().unwrap();
    let forward = first.siblings_with_tokens(Direction::Next);
    assert_eq!(forward.len(), 2);
    let backward = first.siblings_with_tokens(Direction::Prev);
    assert_eq!(backward.len(), 1);
    assert!(first.prev_sibling_or_token().is_none());
    match first.next_sibling_or_token().unwrap() {
        NodeOrToken::Token(t) => assert_eq!(t.data(), b"c"),
        NodeOrToken::Node(_) => panic!("expected a token"),
    }
    let ancestors = first.ancestors();
    assert_eq!(ancestors.len(), 2);
    assert_eq!(ancestors[0].kind(), Kind(1));
    assert_eq!(ancestors[1].kind(), Kind(0));
    let inner = first.parent();
    match inner.next_sibling_or_token().unwrap() {
        NodeOrToken::Node(n) => assert_eq!(n.kind(), Kind(2)),
        NodeOrToken::Token(_) => panic!("expected a node"),
    }
    assert!(inner.prev_sibling_or_token().is_none());
    assert!(root.next_sibling_or_token().is_none());
    assert!(root.parent().is_none());
    assert_eq!(root.ancestors().len(), 1);
}

#[test]
fn replacing_a_token() {
    let root = sample();
    let first = root.first_token().unwrap();
    let new_root = first.replace_with(GreenToken::new(RawSyntaxKind(3), b"xyz"));
    assert_eq!(new_root.text_len(), root.green().text_len() + 1);
    let new_tree = SyntaxNode::<Kind>::new_root(new_root);
    let t = new_tree.first_token().unwrap();
    assert_eq!(t.data(), b"xyz");
    assert_eq!(t.next_token().unwrap().data(), b"c");
    let same = first.replace_with(GreenToken::new(RawSyntaxKind(3), b"ab"));
    assert_eq!(&same, root.green());
}

#[test]
fn texts_compare_across_token_boundaries() {
    let a = sample();
    let b = split_differently();
    let ta = a.text().unwrap();
    let tb = b.text().unwrap();
    assert!(ta == tb);
    assert!(ta == "abc+d");
    assert!("abc+d" == ta);
    assert!(ta != "abc+e");
    assert!(ta.slice(..) == "abc+d");
    assert!(ta.slice(1..4) == tb.slice(1..4));
    assert!(ta.slice(1..4) == "bc+");
    assert!(ta.slice(0..2) != tb.slice(1..3));
    assert_eq!(ta.to_string(), "abc+d");
    assert_eq!(ta.to_debug_string(), "\"abc+d\"");
}

#[test]
fn text_queries() {
    let root = sample();
    let text = root.text().unwrap();
    assert_eq!(text.len(), 5);
    assert!(!text.is_empty());
    assert!(text.contains_char('+'));
    assert!(!text.contains_char('z'));
    assert_eq!(text.find_char('c'), Some(2));
    assert_eq!(text.char_at(text.find_char('+').unwrap()), Some('+'));
    assert_eq!(text.find_char('z'), None);
    assert_eq!(text.char_at(3), Some('+'));
    assert_eq!(text.char_at(5), None);
}

#[test]
fn data_debug_lists_chunks() {
    let root = sample();
    assert_eq!(root.data().to_debug_string(), "[[97, 98], [99], [43], [100]]");
    assert_eq!(root.data().slice(1..3).to_debug_string(), "[[98], [99], []]");
}

#[test]
fn data_renderings() {
    assert_eq!(fmt_data_display(b"hi"), "hi");
    assert_eq!(fmt_data_debug(b"hi"), "\"hi\"");
    assert_eq!(fmt_data_debug(b"a\"b"), "\"a\\\"b\"");
    assert_eq!(fmt_data_display(b"\xff\x00"), "[255, 0]");
    assert_eq!(fmt_data_debug(b"\xff\x00"), "[255, 0]");
    let long: Vec<u8> = std::iter::repeat(0xffu8).take(30).collect();
    let mut expected = String::from("[");
    for i in 0..24 {
        if i > 0 {
            expected.push_str(", ");
        }
        expected.push_str("255");
    }
    expected.push_str("] ...");
    assert_eq!(fmt_data_display(&long), expected);
    let root = sample();
    assert_eq!(root.first_token().unwrap().display(), "ab");
    assert_eq!(root.first_token().unwrap().debug_data(), "\"ab\"");
}

#[test]
fn ranges() {
    let r = TextRange::new(2, 7);
    assert_eq!(r.len(), 5);
    assert_eq!(TextRange::at(2, 5), r);
    assert!(TextRange::empty(3).is_empty());
    assert!(r.contains_range(TextRange::new(3, 7)));
    assert!(!r.contains_range(TextRange::new(1, 3)));
    assert_eq!(r.intersect(TextRange::new(5, 9)), Some(TextRange::new(5, 7)));
    assert_eq!(r.intersect(TextRange::new(7, 9)), Some(TextRange::new(7, 7)));
    assert_eq!(r.intersect(TextRange::new(8, 9)), None);
    assert_eq!(r.checked_sub(2), Some(TextRange::new(0, 5)));
    assert_eq!(r.checked_sub(3), None);
}

#[test]
fn token_positions() {
    let root = sample();
    let c = root.first_token().unwrap().next_token().unwrap();
    assert_eq!(c.text_range(), TextRange::new(2, 3));
    let first = root.first_token().unwrap();
    let siblings = first.siblings_with_tokens(Direction::Next);
    match &siblings[0] {
        NodeOrToken::Token(t) => assert_eq!(t.text_range(), first.text_range()),
        NodeOrToken::Node(_) => panic!("expected the token itself"),
    }
    let plus = root.last_token().unwrap().prev_token().unwrap();
    assert_eq!(plus.text_range(), TextRange::new(3, 4));
    assert_eq!(plus.static_data(), Some(b"+".as_slice()));
    assert_eq!(plus.static_text(), Some("+"));
    assert_eq!(plus.text(), Some("+"));
    let tokens = vec![root.first_token().unwrap(), root.last_token().unwrap()];
    assert_eq!(texts(&tokens), vec![b"ab".to_vec(), b"d".to_vec()]);
}

#[test]
fn tokens_with_ranges_clip_to_the_range() {
    let root = sample();
    let data = root.data();
    let part = data.slice(1..3);
    let found: Vec<(Vec<u8>, u32, u32)> = part
        .tokens_with_ranges()
        .iter()
        .map(|(t, r)| (t.data().to_vec(), r.start(), r.end()))
        .collect();
    assert_eq!(found, vec![(b"ab".to_vec(), 1, 2), (b"c".to_vec(), 0, 1), (b"+".to_vec(), 0, 0)]);
    let text = root.text().unwrap();
    assert_eq!(text.tokens_with_ranges().len(), 4);
}

#[test]
fn children_iterators_count_and_clone() {
    let root = sample();
    let mut nodes = root.children();
    assert_eq!(nodes.size_hint(), (3, Some(3)));
    nodes.next();
    let copy = nodes.clone();
    assert_eq!(copy.len(), 2);
    assert_eq!(nodes.next().unwrap().kind(), Kind(2));
    let mut elements = root.children_with_tokens();
    assert_eq!(elements.size_hint(), (4, Some(4)));
    elements.next();
    elements.next();
    let rest = elements.clone();
    assert_eq!(rest.count(), 2);
    match elements.next().unwrap() {
        NodeOrToken::Token(t) => assert_eq!(t.data(), b"+"),
        NodeOrToken::Node(_) => panic!("expected the plus token"),
    }
}

#[test]
fn revert_drops_nodes_opened_after_added_elements() {
    let mut b = GreenNodeBuilder::<Kind>::new();
    b.start_node(Kind(0));
    let cp = b.checkpoint();
    b.token(Kind(1), b"hi");
    b.start_node(Kind(3));
    b.revert_to(cp);
    b.finish_node();
    let root = b.finish();
    assert_eq!(root.kind(), RawSyntaxKind(0));
    assert_eq!(root.arity(), 0);
}

#[test]
fn node_data_travels_with_the_events() {
    let root = sample();
    let events = to_events(&root);
    assert_eq!(enter_flags_of(&events), vec![false; 4]);
    let node_data = vec![Some("root"), None, Some("empty"), None];
    let (flagged, list) = flag_data(events.clone(), node_data.clone());
    assert_eq!(enter_flags_of(&flagged), vec![true, false, true, false]);
    assert_eq!(list, vec!["root", "empty"]);
    assert!(check_events::<Kind>(&flagged));
    let back: SyntaxNode<Kind> = from_events(&flagged);
    assert_eq!(back.green(), root.green());
    assert_eq!(spread_node_data(&flagged, list.clone()), Ok(node_data));
    assert_eq!(spread_node_data(&flagged, vec!["root"]), Err(DataError::MissingData));
    assert_eq!(spread_node_data(&flagged, vec!["a", "b", "c"]), Err(DataError::TooMuchData));
    assert_eq!(DataError::MissingData.message(), "invalid serialized tree");
    assert_eq!(DataError::TooMuchData.message(), "serialized SyntaxNode contained too many data elements");
}

#[test]
fn token_of_a_static_kind_keeps_its_static_text() {
    let mut b = GreenNodeBuilder::<Kind>::new();
    b.start_node(Kind(0));
    b.token(Kind(9), b"-");
    b.token_from_bytes(Kind(9), b"*");
    b.token(Kind(3), b"-");
    b.finish_node();
    let root = SyntaxNode::new_root(b.finish());
    let mut elements = root.children_with_tokens();
    let mut tokens: Vec<SyntaxToken<Kind>> = Vec::new();
    while let Some(e) = elements.next() {
        if let NodeOrToken::Token(t) = e {
            tokens.push(t);
        }
    }
    assert_eq!(texts(&tokens), vec![b"+".to_vec(), b"+".to_vec(), b"-".to_vec()]);
}

#[test]
fn token_debug_layout() {
    let root = sample();
    let first = root.first_token().unwrap();
    assert_eq!(first.debug_with_kind("Kind(3)"), "Kind(3)@0..2 \"ab\"");
    let last = root.last_token().unwrap();
    assert_eq!(last.debug_with_kind("D"), "D@4..5 \"d\"");
}

#[test]
fn slices_at_character_boundaries_stay_readable() {
    let mut b = GreenNodeBuilder::<Kind>::new();
    b.start_node(Kind(0));
    b.token(Kind(3), "aé".as_bytes());
    b.token(Kind(3), "ü!".as_bytes());
    b.finish_node();
    let root: SyntaxNode<Kind> = SyntaxNode::new_root(b.finish());
    let text = root.text().unwrap();
    assert!(text.is_valid());
    let inner = text.slice(1..5);
    assert!(inner.is_valid());
    assert_eq!(inner.to_string(), "éü");
    assert!(inner.contains_char('ü'));
    let cut = text.slice(2..5);
    assert!(!cut.is_valid());
    let again = text.slice(1..6).slice(2..4);
    assert!(again == text.slice(3..5));
    assert_eq!(again.to_string(), "ü");
}

#[derive(Debug, Clone, Copy, PartialEq, Eq)]
enum Small {
    Root,
    Word,
}

impl Syntax for Small {
    type Data = [u8];

    fn data_to_bytes(data: &Self::Data) -> &[u8] {
        data
    }

    fn data_from_bytes(data: &[u8]) -> Option<&Self::Data> {
        Some(data)
    }

    fn from_raw(raw: RawSyntaxKind) -> Self {
        if raw.0 == 0 {
            Small::Root
        } else {
            Small::Word
        }
    }

    fn into_raw(self) -> RawSyntaxKind {
        match self {
            Small::Root => RawSyntaxKind(0),
            Small::Word => RawSyntaxKind(1),
        }
    }

    fn static_data(self) -> Option<&'static Self::Data> {
        None
    }
}

#[test]
fn events_with_kinds_outside_the_syntax_are_refused() {
    let good = vec![
        Event::EnterNode(RawSyntaxKind(0), false),
        Event::Token(RawSyntaxKind(1), b"w".to_vec()),
        Event::LeaveNode,
    ];
    assert!(check_events::<Small>(&good));
    let tree = from_events::<Small>(&good);
    assert_eq!(tree.kind(), Small::Root);
    let bad_node = vec![Event::EnterNode(RawSyntaxKind(7), false), Event::LeaveNode];
    assert!(!check_events::<Small>(&bad_node));
    let bad_token = vec![
        Event::EnterNode(RawSyntaxKind(0), false),
        Event::Token(RawSyntaxKind(2), b"w".to_vec()),
        Event::LeaveNode,
    ];
    assert!(!check_events::<Small>(&bad_token));
}

#[test]
fn slices_from_a_start_and_up_to_an_end() {
    let root = sample();
    let text = root.text().unwrap();
    assert!(text.slice(2..) == "c+d");
    assert!(text.slice(..3) == "abc");
    assert!(text.slice(..3).slice(1..) == "bc");
    assert_eq!(root.data().slice(3..).to_debug_string(), "[[], [43], [100]]");
}
