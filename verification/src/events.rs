//! Trees as event streams: a preorder walk that enters nodes, emits tokens and
//! leaves nodes, and the rebuilding of a tree from such a stream. This is the
//! form in which trees are written out and read back.

use vstd::prelude::*;

use crate::builder::{
    empty_model, finish_node_allowed, lemma_operations_keep_wf, lemma_start_node_at_wraps, model_extend,
    model_finish_node, model_push, model_start_node, model_wf, BuilderModel, GreenNodeBuilder,
};
use crate::green::{forest_bytes, lemma_forest_bytes_append, lemma_forest_bytes_push, tree_bytes, GreenTree};
use crate::kind::{data_decodes, raw_is_kind, RawSyntaxKind, Syntax};
use crate::syntax::node::{Position, SyntaxNode};
use crate::syntax::token::bytes_eq;

verus! {

/// One step of a preorder walk over a tree.
#[derive(Debug, Clone, PartialEq, Eq)]
pub enum Event {
    /// A node starts; the flag says whether data is attached to it.
    EnterNode(RawSyntaxKind, bool),
    /// A token with its bytes.
    Token(RawSyntaxKind, Vec<u8>),
    /// The innermost open node ends.
    LeaveNode,
}

/// The model of an event.
pub enum EventModel {
    Enter(u32, bool),
    Token(u32, Seq<u8>),
    Leave,
}

impl View for Event {
    type V = EventModel;

    open spec fn view(&self) -> EventModel {
        match self {
            Event::EnterNode(kind, has_data) => EventModel::Enter(kind.0, *has_data),
            Event::Token(kind, data) => EventModel::Token(kind.0, data@),
            Event::LeaveNode => EventModel::Leave,
        }
    }
}

/// The models of a sequence of events.
pub open spec fn events_view(es: Seq<Event>) -> Seq<EventModel> {
    es.map_values(|e: Event| e@)
}

/// The events of a preorder walk over `t`: entering each node, each token,
/// and leaving each node after its children.
pub open spec fn tree_events(t: GreenTree) -> Seq<EventModel>
    decreases t,
{
    match t {
        GreenTree::Token { kind, data } => seq![EventModel::Token(kind, data)],
        GreenTree::Node { kind, children } => seq![EventModel::Enter(kind, false)] + forest_events(children)
            + seq![EventModel::Leave],
    }
}

/// The events of the trees of `cs`, one after the other.
pub open spec fn forest_events(cs: Seq<GreenTree>) -> Seq<EventModel>
    decreases cs,
{
    if cs.len() == 0 {
        Seq::empty()
    } else {
        forest_events(cs.drop_last()) + tree_events(cs.last())
    }
}

/// What an event does to a builder: open a node, add a token, or close the
/// innermost node.
pub open spec fn apply_event(m: BuilderModel, e: EventModel) -> BuilderModel {
    match e {
        EventModel::Enter(kind, _) => model_start_node(m, kind),
        EventModel::Token(kind, data) => model_push(m, GreenTree::Token { kind, data }),
        EventModel::Leave => model_finish_node(m),
    }
}

/// Whether the builder may take the event: a node's or token's raw kind must
/// be the raw form of a kind of `S`, a token's bytes must decode as a payload
/// of `S`, fit, and agree with the static data of its kind, and a node must be
/// open to close.
pub open spec fn event_allowed<S: Syntax>(m: BuilderModel, e: EventModel) -> bool {
    match e {
        EventModel::Enter(kind, _) => raw_is_kind::<S>(kind),
        EventModel::Token(kind, data) => {
            &&& raw_is_kind::<S>(kind)
            &&& data_decodes::<S>(data)
            &&& data.len() <= u32::MAX
            &&& S::spec_from_raw(kind).spec_static_data() matches Some(d) ==> d == data
        },
        EventModel::Leave => finish_node_allowed(m),
    }
}

/// The builder after taking the events in order.
pub open spec fn run_events(m: BuilderModel, es: Seq<EventModel>) -> BuilderModel
    decreases es.len(),
{
    if es.len() == 0 {
        m
    } else {
        apply_event(run_events(m, es.drop_last()), es.last())
    }
}

/// Whether the builder may take each event in turn.
pub open spec fn events_allowed<S: Syntax>(m: BuilderModel, es: Seq<EventModel>) -> bool
    decreases es.len(),
{
    if es.len() == 0 {
        true
    } else {
        events_allowed::<S>(m, es.drop_last()) && event_allowed::<S>(run_events(m, es.drop_last()), es.last())
    }
}

/// Whether a fresh builder may take the events and is then left with a single
/// node as its only element.
pub open spec fn events_buildable<S: Syntax>(es: Seq<EventModel>) -> bool {
    &&& events_allowed::<S>(empty_model(), es)
    &&& run_events(empty_model(), es).children.len() == 1
    &&& run_events(empty_model(), es).children[0] is Node
}

/// The tree that a buildable event stream describes.
pub open spec fn events_tree(es: Seq<EventModel>) -> GreenTree {
    run_events(empty_model(), es).children[0]
}

/// Whether every kind in `t` is the raw form of a kind of `S`, and every
/// token's bytes decode as a payload of `S` and agree with the static data of
/// its kind.
pub open spec fn tree_fits_syntax<S: Syntax>(t: GreenTree) -> bool
    decreases t,
{
    match t {
        GreenTree::Token { kind, data } => {
            &&& raw_is_kind::<S>(kind)
            &&& data_decodes::<S>(data)
            &&& S::spec_from_raw(kind).spec_static_data() matches Some(d) ==> d == data
        },
        GreenTree::Node { kind, children } => raw_is_kind::<S>(kind) && forest_fits_syntax::<S>(children),
    }
}

/// Whether every tree of `cs` fits `S`, as `tree_fits_syntax` says.
pub open spec fn forest_fits_syntax<S: Syntax>(cs: Seq<GreenTree>) -> bool
    decreases cs,
{
    if cs.len() == 0 {
        true
    } else {
        forest_fits_syntax::<S>(cs.drop_last()) && tree_fits_syntax::<S>(cs.last())
    }
}

/// Taking two streams one after the other is taking their concatenation.
pub proof fn lemma_run_events_append<S: Syntax>(m: BuilderModel, a: Seq<EventModel>, b: Seq<EventModel>)
    ensures
        run_events(m, a + b) == run_events(run_events(m, a), b),
        events_allowed::<S>(m, a + b) == (events_allowed::<S>(m, a) && events_allowed::<S>(run_events(m, a), b)),
    decreases b.len(),
{
    if b.len() == 0 {
        assert(a + b =~= a);
    } else {
        assert((a + b).drop_last() =~= a + b.drop_last());
        assert((a + b).last() == b.last());
        lemma_run_events_append::<S>(m, a, b.drop_last());
    }
}

/// Every prefix of an allowed stream is allowed, and the builder may take
/// the event that follows it.
pub proof fn lemma_events_allowed_prefix<S: Syntax>(m: BuilderModel, es: Seq<EventModel>, i: int)
    requires
        events_allowed::<S>(m, es),
        0 <= i < es.len(),
    ensures
        events_allowed::<S>(m, es.take(i)),
        event_allowed::<S>(run_events(m, es.take(i)), es[i]),
        run_events(m, es.take(i + 1)) == apply_event(run_events(m, es.take(i)), es[i]),
        events_allowed::<S>(m, es.take(i + 1)),
    decreases es.len(),
{
    assert(es.take(i + 1).drop_last() =~= es.take(i));
    if i == es.len() - 1 {
        assert(es.drop_last() =~= es.take(i));
    } else {
        lemma_events_allowed_prefix::<S>(m, es.drop_last(), i);
        assert(es.drop_last().take(i) =~= es.take(i));
        assert(es.drop_last().take(i + 1) =~= es.take(i + 1));
    }
}

/// A stream of one event is that event.
pub proof fn lemma_run_single<S: Syntax>(m: BuilderModel, e: EventModel)
    ensures
        run_events(m, seq![e]) == apply_event(m, e),
        events_allowed::<S>(m, seq![e]) == event_allowed::<S>(m, e),
{
    let es = seq![e];
    assert(es.drop_last() =~= Seq::<EventModel>::empty());
    assert(run_events(m, es.drop_last()) == m);
    assert(events_allowed::<S>(m, es.drop_last()));
    assert(es.last() == e);
}

/// Adding elements keeps the builder's invariant.
proof fn lemma_extend_wf(m: BuilderModel, added: Seq<GreenTree>)
    requires
        model_wf(m),
    ensures
        model_wf(model_extend(m, added)),
{
}

/// The events of a tree whose bytes fit and that fits `S` are taken by any builder, which ends up with that tree added.
pub proof fn lemma_tree_events_run<S: Syntax>(m: BuilderModel, t: GreenTree)
    requires
        model_wf(m),
        tree_bytes(t).len() <= u32::MAX,
        tree_fits_syntax::<S>(t),
    ensures
        events_allowed::<S>(m, tree_events(t)),
        run_events(m, tree_events(t)) == model_push(m, t),
    decreases t,
{
    match t {
        GreenTree::Token { kind, data } => {
            lemma_run_single::<S>(m, EventModel::Token(kind, data));
        },
        GreenTree::Node { kind, children } => {
            let enter = seq![EventModel::Enter(kind, false)];
            let body = forest_events(children);
            let leave = seq![EventModel::Leave];
            let m1 = model_start_node(m, kind);
            lemma_operations_keep_wf(m, t, kind, (0, 0));
            lemma_run_single::<S>(m, EventModel::Enter(kind, false));
            lemma_forest_events_run::<S>(m1, children);
            let m2 = model_extend(m1, children);
            lemma_run_events_append::<S>(m, enter, body);
            lemma_run_events_append::<S>(m, enter + body, leave);
            let n = m.children.len() as int;
            assert(m2.children.skip(n) =~= children);
            assert(m2.parents.last().1 == n);
            assert(finish_node_allowed(m2));
            lemma_run_single::<S>(m2, EventModel::Leave);
            lemma_start_node_at_wraps(m, children, kind);
            assert(tree_events(t) == enter + body + leave);
        },
    }
}

/// The events of a forest whose bytes fit and that fits `S` are taken by any builder, which ends up with the trees added.
pub proof fn lemma_forest_events_run<S: Syntax>(m: BuilderModel, cs: Seq<GreenTree>)
    requires
        model_wf(m),
        forest_bytes(cs).len() <= u32::MAX,
        forest_fits_syntax::<S>(cs),
    ensures
        events_allowed::<S>(m, forest_events(cs)),
        run_events(m, forest_events(cs)) == model_extend(m, cs),
    decreases cs,
{
    if cs.len() == 0 {
        assert(model_extend(m, cs).children =~= m.children);
    } else {
        let init = cs.drop_last();
        let last = cs.last();
        assert(cs =~= init.push(last));
        lemma_forest_bytes_push(init, last);
        lemma_forest_events_run::<S>(m, init);
        let m1 = model_extend(m, init);
        lemma_extend_wf(m, init);
        lemma_tree_events_run::<S>(m1, last);
        lemma_run_events_append::<S>(m, forest_events(init), tree_events(last));
        assert(model_push(m1, last).children =~= model_extend(m, cs).children);
    }
}

/// Writing a tree out as events and reading it back gives the same tree: the
/// events of a node whose bytes fit, whose kinds are raw forms of kinds of
/// `S` and whose tokens decode as payloads of `S` and agree with the static
/// data of their kinds can be built, and describe that node.
pub proof fn lemma_events_roundtrip<S: Syntax>(t: GreenTree)
    requires
        t is Node,
        tree_bytes(t).len() <= u32::MAX,
        tree_fits_syntax::<S>(t),
    ensures
        events_buildable::<S>(tree_events(t)),
        events_tree(tree_events(t)) == t,
{
    lemma_tree_events_run::<S>(empty_model(), t);
    assert(model_push(empty_model(), t).children =~= seq![t]);
}

/// The events of a preorder walk over `node` and everything below it.
pub fn to_events<S: Syntax>(node: &SyntaxNode<S>) -> (r: Vec<Event>)
    ensures
        events_view(r@) == tree_events(crate::syntax::node::elem_at(node@.root, node@.path)),
{
    let green = node.green();
    let mut out: Vec<Event> = Vec::new();
    proof {
        assert(events_view(out@) =~= Seq::<EventModel>::empty());
    }
    green.push_events(&mut out);
    proof {
        assert(events_view(out@) =~= Seq::<EventModel>::empty() + tree_events(green@));
    }
    out
}

/// Whether `events` can be built into a tree: each event is taken by the
/// builder in turn, and a single node is left at the end.
pub fn check_events<S: Syntax>(events: &[Event]) -> (r: bool)
    ensures
        r == events_buildable::<S>(events_view(events@)),
{
    let ghost es = events_view(events@);
    // The first child of each open node, and the byte length and shape of each
    // pending element, as the builder would hold them.
    let mut starts: Vec<usize> = Vec::new();
    let mut lens: Vec<u32> = Vec::new();
    let mut nodes: Vec<bool> = Vec::new();
    let mut i: usize = 0;
    proof {
        assert(es.take(0) =~= Seq::<EventModel>::empty());
    }
    while i < events.len()
        invariant
            es == events_view(events@),
            es.len() == events@.len(),
            i <= es.len(),
            events_allowed::<S>(empty_model(), es.take(i as int)),
            ({
                let m = run_events(empty_model(), es.take(i as int));
                &&& model_wf(m)
                &&& starts@.len() == m.parents.len()
                &&& forall|p: int| 0 <= p < starts@.len() ==> #[trigger] starts@[p] == m.parents[p].1
                &&& lens@.len() == m.children.len()
                &&& nodes@.len() == m.children.len()
                &&& forall|c: int| 0 <= c < lens@.len() ==> #[trigger] lens@[c] == tree_bytes(m.children[c]).len()
                &&& forall|c: int| 0 <= c < nodes@.len() ==> #[trigger] nodes@[c] == (m.children[c] is Node)
            }),
        decreases es.len() - i,
    {
        let ghost m = run_events(empty_model(), es.take(i as int));
        proof {
            assert(es[i as int] == events@[i as int]@);
            assert(es.take(i + 1).drop_last() =~= es.take(i as int));
        }
        match &events[i] {
            Event::EnterNode(kind, _) => {
                if S::from_raw(*kind).into_raw().0 != kind.0 {
                    proof {
                        lemma_prefix_disallowed::<S>(es, i as int);
                    }
                    return false;
                }
                starts.push(lens.len());
            },
            Event::Token(kind, data) => {
                let k = S::from_raw(*kind);
                if k.into_raw().0 != kind.0 {
                    proof {
                        lemma_prefix_disallowed::<S>(es, i as int);
                    }
                    return false;
                }
                if S::data_from_bytes(data.as_slice()).is_none() {
                    proof {
                        lemma_prefix_disallowed::<S>(es, i as int);
                    }
                    return false;
                }
                if data.len() > 0xffff_ffff {
                    proof {
                        lemma_prefix_disallowed::<S>(es, i as int);
                    }
                    return false;
                }
                match k.static_bytes() {
                    Some(d) => {
                        if !bytes_eq(d, data.as_slice()) {
                            proof {
                                lemma_prefix_disallowed::<S>(es, i as int);
                            }
                            return false;
                        }
                    },
                    None => {},
                }
                lens.push(data.len() as u32);
                nodes.push(false);
            },
            Event::LeaveNode => {
                if starts.len() == 0 {
                    proof {
                        lemma_prefix_disallowed::<S>(es, i as int);
                    }
                    return false;
                }
                let first = starts[starts.len() - 1];
                proof {
                    assert(starts@[starts@.len() - 1] == m.parents[m.parents.len() - 1].1);
                }
                let ghost tail = m.children.skip(first as int);
                let mut sum: u64 = 0;
                let mut c = first;
                proof {
                    assert(m.children.subrange(first as int, first as int) =~= Seq::<GreenTree>::empty());
                }
                while c < lens.len()
                    invariant
                        first <= c <= lens@.len(),
                        lens@.len() == m.children.len(),
                        forall|x: int| 0 <= x < lens@.len() ==> #[trigger] lens@[x] == tree_bytes(m.children[x]).len(),
                        sum == forest_bytes(m.children.subrange(first as int, c as int)).len(),
                        sum <= 0xffff_ffff,
                        i < es.len(),
                        es == events_view(events@),
                        m == run_events(empty_model(), es.take(i as int)),
                        es[i as int] == EventModel::Leave,
                        m.parents.len() > 0,
                        first == m.parents.last().1,
                    decreases lens@.len() - c,
                {
                    proof {
                        assert(m.children.subrange(first as int, c + 1) =~= m.children.subrange(first as int, c as int).push(m.children[c as int]));
                        lemma_forest_bytes_push(m.children.subrange(first as int, c as int), m.children[c as int]);
                    }
                    sum = sum + lens[c] as u64;
                    if sum > 0xffff_ffff {
                        proof {
                            let done = m.children.subrange(first as int, c + 1);
                            let rest = m.children.subrange(c + 1, m.children.len() as int);
                            assert(m.children.skip(first as int) =~= done + rest);
                            lemma_forest_bytes_append(done, rest);
                            assert(!finish_node_allowed(m));
                            lemma_prefix_disallowed::<S>(es, i as int);
                        }
                        return false;
                    }
                    c = c + 1;
                }
                proof {
                    assert(m.children.subrange(first as int, lens@.len() as int) =~= tail);
                }
                starts.pop();
                lens.truncate(first);
                nodes.truncate(first);
                lens.push(sum as u32);
                nodes.push(true);
                proof {
                    let m2 = model_finish_node(m);
                    assert(m2.children == m.children.take(first as int).push(
                        GreenTree::Node { kind: m.parents.last().0, children: tail },
                    ));
                }
            },
        }
        proof {
            let m2 = run_events(empty_model(), es.take(i + 1));
            assert(m2 == apply_event(m, es[i as int]));
            assert(event_allowed::<S>(m, es[i as int]));
            lemma_operations_keep_wf(m, GreenTree::Token { kind: 0, data: Seq::empty() }, 0, (0, 0));
            assert forall|p: int| 0 <= p < starts@.len() implies #[trigger] starts@[p] == m2.parents[p].1 by {
            }
            assert forall|c: int| 0 <= c < lens@.len() implies #[trigger] lens@[c] == tree_bytes(m2.children[c]).len() by {
            }
            assert forall|c: int| 0 <= c < nodes@.len() implies #[trigger] nodes@[c] == (m2.children[c] is Node) by {
            }
        }
        i = i + 1;
    }
    proof {
        assert(es.take(es.len() as int) =~= es);
    }
    lens.len() == 1 && nodes[0]
}

/// When the builder cannot take event `i` after the events before it, the
/// stream is not buildable.
proof fn lemma_prefix_disallowed<S: Syntax>(es: Seq<EventModel>, i: int)
    requires
        0 <= i < es.len(),
        !event_allowed::<S>(run_events(empty_model(), es.take(i)), es[i]),
    ensures
        !events_buildable::<S>(es),
{
    if events_allowed::<S>(empty_model(), es) {
        lemma_events_allowed_prefix::<S>(empty_model(), es, i);
    }
}

/// Builds the tree that a buildable event stream describes and returns its root.
pub fn from_events<S: Syntax>(events: &[Event]) -> (n: SyntaxNode<S>)
    requires
        events_buildable::<S>(events_view(events@)),
    ensures
        n@ == (Position { root: events_tree(events_view(events@)), path: Seq::empty() }),
{
    let ghost es = events_view(events@);
    let mut builder: GreenNodeBuilder<S> = GreenNodeBuilder::new();
    let mut i: usize = 0;
    proof {
        assert(es.take(0) =~= Seq::<EventModel>::empty());
    }
    while i < events.len()
        invariant
            es == events_view(events@),
            es.len() == events@.len(),
            i <= es.len(),
            events_allowed::<S>(empty_model(), es),
            builder.wf(),
            builder@ == run_events(empty_model(), es.take(i as int)),
        decreases es.len() - i,
    {
        proof {
            lemma_events_allowed_prefix::<S>(empty_model(), es, i as int);
            assert(es[i as int] == events@[i as int]@);
        }
        match &events[i] {
            Event::EnterNode(kind, _) => {
                builder.start_node(S::from_raw(*kind));
            },
            Event::Token(kind, data) => {
                builder.token(S::from_raw(*kind), data.as_slice());
            },
            Event::LeaveNode => {
                builder.finish_node();
            },
        }
        i = i + 1;
    }
    proof {
        assert(es.take(es.len() as int) =~= es);
    }
    SyntaxNode::new_root(builder.finish())
}

} // verus!
