//! Building green trees bottom-up, with checkpoints for wrapping and backtracking.

use vstd::prelude::*;

use crate::green::{
    elements_view, forest_bytes, lemma_element_is_node, lemma_elements_view_len, lemma_elements_view_push,
    lemma_elements_view_subrange, measure_elements_from, GreenElement, GreenNode, GreenToken, GreenTree,
};
use crate::kind::Syntax;

verus! {

/// A snapshot of a builder's state: the number of open nodes and of pending
/// children. See [`GreenNodeBuilder::checkpoint`].
#[derive(Clone, Copy, Debug)]
pub struct Checkpoint {
    parent_idx: usize,
    child_idx: usize,
}

impl View for Checkpoint {
    /// The number of open nodes and the number of pending children.
    type V = (nat, nat);

    closed spec fn view(&self) -> (nat, nat) {
        (self.parent_idx as nat, self.child_idx as nat)
    }
}

/// The model of a builder: the open nodes, each with its kind and the index
/// of its first child, and the pending children, oldest first.
pub struct BuilderModel {
    pub parents: Seq<(u32, nat)>,
    pub children: Seq<GreenTree>,
}

/// The open nodes start at pending children, in increasing order.
pub open spec fn model_wf(m: BuilderModel) -> bool {
    &&& forall|i: int| 0 <= i < m.parents.len() ==> #[trigger] m.parents[i].1 <= m.children.len()
    &&& forall|i: int, j: int|
        0 <= i <= j < m.parents.len() ==> #[trigger] m.parents[i].1 <= #[trigger] m.parents[j].1
}

/// The empty builder.
pub open spec fn empty_model() -> BuilderModel {
    BuilderModel { parents: Seq::empty(), children: Seq::empty() }
}

/// Adds a finished element to the current node.
pub open spec fn model_push(m: BuilderModel, t: GreenTree) -> BuilderModel {
    BuilderModel { parents: m.parents, children: m.children.push(t) }
}

/// Opens a node of kind `kind` whose children start after the pending ones.
pub open spec fn model_start_node(m: BuilderModel, kind: u32) -> BuilderModel {
    BuilderModel { parents: m.parents.push((kind, m.children.len())), children: m.children }
}

/// Closes the innermost open node: its children become a node of its kind.
pub open spec fn model_finish_node(m: BuilderModel) -> BuilderModel {
    let (kind, first) = m.parents.last();
    BuilderModel {
        parents: m.parents.drop_last(),
        children: m.children.take(first as int).push(
            GreenTree::Node { kind, children: m.children.skip(first as int) },
        ),
    }
}

/// Closing a node is possible when one is open and its children's length fits.
pub open spec fn finish_node_allowed(m: BuilderModel) -> bool {
    &&& m.parents.len() > 0
    &&& forest_bytes(m.children.skip(m.parents.last().1 as int)).len() <= u32::MAX
}

/// The bytes a token gets: the static data of its kind where there is some,
/// else the given bytes.
pub open spec fn token_bytes(static_data: Option<Seq<u8>>, data: Seq<u8>) -> Seq<u8> {
    match static_data {
        Some(d) => d,
        None => data,
    }
}

/// The checkpoint of a state.
pub open spec fn model_checkpoint(m: BuilderModel) -> (nat, nat) {
    (m.parents.len(), m.children.len())
}

/// Reverting is possible to a checkpoint that lies within the current state
/// and not before the start of the node that is innermost once the nodes
/// opened after the checkpoint are dropped.
pub open spec fn revert_allowed(m: BuilderModel, cp: (nat, nat)) -> bool {
    &&& cp.0 <= m.parents.len()
    &&& cp.1 <= m.children.len()
    &&& cp.0 > 0 ==> cp.1 >= m.parents[cp.0 - 1].1
}

/// Forgets the open nodes and pending children added after the checkpoint.
pub open spec fn model_revert(m: BuilderModel, cp: (nat, nat)) -> BuilderModel {
    BuilderModel { parents: m.parents.take(cp.0 as int), children: m.children.take(cp.1 as int) }
}

/// Opening a node at a checkpoint is possible when no node opened since the
/// checkpoint is still open and the checkpoint's children are still pending.
pub open spec fn start_node_at_allowed(m: BuilderModel, cp: (nat, nat)) -> bool {
    &&& cp.0 == m.parents.len()
    &&& cp.1 <= m.children.len()
    &&& m.parents.len() > 0 ==> cp.1 >= m.parents.last().1
}

/// Opens a node of kind `kind` whose children start at the checkpoint.
pub open spec fn model_start_node_at(m: BuilderModel, cp: (nat, nat), kind: u32) -> BuilderModel {
    BuilderModel { parents: m.parents.push((kind, cp.1)), children: m.children }
}

/// Adds finished elements to the current node, in order.
pub open spec fn model_extend(m: BuilderModel, added: Seq<GreenTree>) -> BuilderModel {
    BuilderModel { parents: m.parents, children: m.children + added }
}

/// Backtracking: after only opening nodes and adding elements since an
/// earlier valid state, reverting to that state's checkpoint is possible and
/// gives back that state exactly.
pub proof fn lemma_revert_restores(earlier: BuilderModel, later: BuilderModel)
    requires
        model_wf(earlier),
        earlier.parents.len() <= later.parents.len(),
        earlier.parents == later.parents.take(earlier.parents.len() as int),
        earlier.children.len() <= later.children.len(),
        earlier.children == later.children.take(earlier.children.len() as int),
    ensures
        revert_allowed(later, model_checkpoint(earlier)),
        model_revert(later, model_checkpoint(earlier)) == earlier,
{
    let n = earlier.parents.len() as int;
    if n > 0 {
        assert(later.parents[n - 1] == earlier.parents[n - 1]);
    }
    assert(model_revert(later, model_checkpoint(earlier)).parents =~= earlier.parents);
    assert(model_revert(later, model_checkpoint(earlier)).children =~= earlier.children);
}

/// Reverting to a checkpoint right after taking it changes nothing.
pub proof fn lemma_checkpoint_revert_identity(m: BuilderModel)
    requires
        model_wf(m),
    ensures
        revert_allowed(m, model_checkpoint(m)),
        model_revert(m, model_checkpoint(m)) == m,
{
    assert(m.parents.take(m.parents.len() as int) =~= m.parents);
    assert(m.children.take(m.children.len() as int) =~= m.children);
    lemma_revert_restores(m, m);
}

/// Wrapping: opening a node at a checkpoint after some elements were added,
/// and closing it, gives the same state as opening the node before adding
/// them and closing it after: one new node of that kind holding exactly the
/// added elements.
pub proof fn lemma_start_node_at_wraps(m: BuilderModel, added: Seq<GreenTree>, kind: u32)
    requires
        model_wf(m),
    ensures
        start_node_at_allowed(model_extend(m, added), model_checkpoint(m)),
        model_finish_node(model_start_node_at(model_extend(m, added), model_checkpoint(m), kind))
            == model_finish_node(model_extend(model_start_node(m, kind), added)),
        model_finish_node(model_extend(model_start_node(m, kind), added)) == (BuilderModel {
            parents: m.parents,
            children: m.children.push(GreenTree::Node { kind, children: added }),
        }),
{
    let a = model_finish_node(model_start_node_at(model_extend(m, added), model_checkpoint(m), kind));
    let b = model_finish_node(model_extend(model_start_node(m, kind), added));
    let n = m.children.len() as int;
    assert((m.children + added).take(n) =~= m.children);
    assert((m.children + added).skip(n) =~= added);
    assert(m.parents.push((kind, m.children.len())).drop_last() =~= m.parents);
    assert(a.parents =~= m.parents);
    assert(b.parents =~= m.parents);
    if m.parents.len() > 0 {
        assert(m.parents.last().1 <= m.children.len());
    }
}

/// One call on a builder, as it changes the builder's model: adding a
/// finished element (a token), opening a node, closing the innermost node, or
/// opening a node at a checkpoint.
pub enum BuildOp {
    Add(GreenTree),
    Start(u32),
    Finish,
    StartAt((nat, nat), u32),
}

/// Whether the builder in state `m` may take the call.
pub open spec fn op_allowed(m: BuilderModel, op: BuildOp) -> bool {
    match op {
        BuildOp::Finish => finish_node_allowed(m),
        BuildOp::StartAt(cp, _) => start_node_at_allowed(m, cp),
        _ => true,
    }
}

/// The builder after the call.
pub open spec fn apply_op(m: BuilderModel, op: BuildOp) -> BuilderModel {
    match op {
        BuildOp::Add(t) => model_push(m, t),
        BuildOp::Start(kind) => model_start_node(m, kind),
        BuildOp::Finish => model_finish_node(m),
        BuildOp::StartAt(cp, kind) => model_start_node_at(m, cp, kind),
    }
}

/// The builder after the calls in order.
pub open spec fn run_ops(m: BuilderModel, ops: Seq<BuildOp>) -> BuilderModel
    decreases ops.len(),
{
    if ops.len() == 0 {
        m
    } else {
        apply_op(run_ops(m, ops.drop_last()), ops.last())
    }
}

/// Whether the builder may take each call in turn.
pub open spec fn ops_allowed(m: BuilderModel, ops: Seq<BuildOp>) -> bool
    decreases ops.len(),
{
    if ops.len() == 0 {
        true
    } else {
        ops_allowed(m, ops.drop_last()) && op_allowed(run_ops(m, ops.drop_last()), ops.last())
    }
}

/// Whether, taken on `m`, no call closes a node that was open at the
/// checkpoint `cp`, and every node opened at a checkpoint starts no earlier
/// than the children pending at `cp`.
pub open spec fn ops_keep(m: BuilderModel, ops: Seq<BuildOp>, cp: (nat, nat)) -> bool
    decreases ops.len(),
{
    if ops.len() == 0 {
        true
    } else {
        &&& ops_keep(m, ops.drop_last(), cp)
        &&& match ops.last() {
            BuildOp::Finish => run_ops(m, ops.drop_last()).parents.len() > cp.0,
            BuildOp::StartAt(cp2, _) => cp2.1 >= cp.1,
            _ => true,
        }
    }
}

/// The state `later` still holds the state `earlier` at its start, and every
/// node opened since starts within what was added.
pub open spec fn extends_state(earlier: BuilderModel, later: BuilderModel) -> bool {
    &&& earlier.parents.len() <= later.parents.len()
    &&& earlier.parents == later.parents.take(earlier.parents.len() as int)
    &&& earlier.children.len() <= later.children.len()
    &&& earlier.children == later.children.take(earlier.children.len() as int)
    &&& forall|i: int|
        earlier.parents.len() <= i < later.parents.len() ==> #[trigger] later.parents[i].1 >= earlier.children.len()
}

/// One call that keeps to the terms of `ops_keep` keeps the earlier state.
proof fn lemma_op_extends(earlier: BuilderModel, later: BuilderModel, op: BuildOp)
    requires
        model_wf(later),
        extends_state(earlier, later),
        op_allowed(later, op),
        match op {
            BuildOp::Finish => later.parents.len() > earlier.parents.len(),
            BuildOp::StartAt(cp2, _) => cp2.1 >= earlier.children.len(),
            _ => true,
        },
    ensures
        extends_state(earlier, apply_op(later, op)),
{
    let n = earlier.parents.len() as int;
    let c = earlier.children.len() as int;
    let next = apply_op(later, op);
    match op {
        BuildOp::Add(t) => {
            assert(next.children.take(c) =~= later.children.take(c));
        },
        BuildOp::Start(kind) => {
            assert(next.parents.take(n) =~= later.parents.take(n));
            assert forall|i: int| n <= i < next.parents.len() implies #[trigger] next.parents[i].1 >= c by {
                if i < later.parents.len() {
                    assert(next.parents[i] == later.parents[i]);
                }
            }
        },
        BuildOp::Finish => {
            let first = later.parents.last().1;
            assert(first >= c);
            assert(next.parents.take(n) =~= later.parents.take(n));
            assert(next.children.take(c) =~= later.children.take(c));
            assert forall|i: int| n <= i < next.parents.len() implies #[trigger] next.parents[i].1 >= c by {
                assert(next.parents[i] == later.parents[i]);
            }
        },
        BuildOp::StartAt(cp2, kind) => {
            assert(next.parents.take(n) =~= later.parents.take(n));
            assert forall|i: int| n <= i < next.parents.len() implies #[trigger] next.parents[i].1 >= c by {
                if i < later.parents.len() {
                    assert(next.parents[i] == later.parents[i]);
                }
            }
        },
    }
}

/// Every allowed call keeps the builder's invariant.
proof fn lemma_op_keeps_wf(m: BuilderModel, op: BuildOp)
    requires
        model_wf(m),
        op_allowed(m, op),
    ensures
        model_wf(apply_op(m, op)),
{
    match op {
        BuildOp::Add(t) => lemma_operations_keep_wf(m, t, 0, (0, 0)),
        BuildOp::Start(kind) => lemma_operations_keep_wf(m, GreenTree::Token { kind: 0, data: Seq::empty() }, kind, (0, 0)),
        BuildOp::Finish => lemma_operations_keep_wf(m, GreenTree::Token { kind: 0, data: Seq::empty() }, 0, (0, 0)),
        BuildOp::StartAt(cp, kind) => lemma_operations_keep_wf(m, GreenTree::Token { kind: 0, data: Seq::empty() }, kind, cp),
    }
}

/// Allowed calls keep the builder's invariant.
pub proof fn lemma_ops_keep_wf(m: BuilderModel, ops: Seq<BuildOp>)
    requires
        model_wf(m),
        ops_allowed(m, ops),
    ensures
        model_wf(run_ops(m, ops)),
    decreases ops.len(),
{
    if ops.len() > 0 {
        lemma_ops_keep_wf(m, ops.drop_last());
        lemma_op_keeps_wf(run_ops(m, ops.drop_last()), ops.last());
    }
}

/// Calls that keep to the terms of `ops_keep` keep the state at the checkpoint.
proof fn lemma_ops_extend(m: BuilderModel, ops: Seq<BuildOp>)
    requires
        model_wf(m),
        ops_allowed(m, ops),
        ops_keep(m, ops, model_checkpoint(m)),
    ensures
        extends_state(m, run_ops(m, ops)),
    decreases ops.len(),
{
    if ops.len() == 0 {
        assert(m.parents.take(m.parents.len() as int) =~= m.parents);
        assert(m.children.take(m.children.len() as int) =~= m.children);
    } else {
        lemma_ops_extend(m, ops.drop_last());
        lemma_ops_keep_wf(m, ops.drop_last());
        lemma_op_extends(m, run_ops(m, ops.drop_last()), ops.last());
    }
}

/// Backtracking over any calls: after a run of allowed calls from a valid
/// state, none of which closes a node open at that state's checkpoint and each
/// of which opens a node at a checkpoint only from the children pending at it
/// on, reverting to the checkpoint is possible and gives that state back.
pub proof fn lemma_ops_revert_restores(m: BuilderModel, ops: Seq<BuildOp>)
    requires
        model_wf(m),
        ops_allowed(m, ops),
        ops_keep(m, ops, model_checkpoint(m)),
    ensures
        revert_allowed(run_ops(m, ops), model_checkpoint(m)),
        model_revert(run_ops(m, ops), model_checkpoint(m)) == m,
{
    lemma_ops_extend(m, ops);
    lemma_revert_restores(m, run_ops(m, ops));
}

/// Whether the calls only add tokens and open and close nodes, never closing
/// a node open in `m`, and leave as many nodes open as `m` has.
pub open spec fn ops_balanced(m: BuilderModel, ops: Seq<BuildOp>) -> bool {
    &&& forall|i: int| 0 <= i < ops.len() ==> !(#[trigger] ops[i] is StartAt)
    &&& ops_keep(m, ops, model_checkpoint(m))
    &&& run_ops(m, ops).parents.len() == m.parents.len()
}

/// Running calls after opening a node of kind `kind` leaves that node as an
/// extra open node just above those of `m`, with the same pending children.
proof fn lemma_ops_under_node(m: BuilderModel, ops: Seq<BuildOp>, kind: u32)
    requires
        model_wf(m),
        ops_allowed(m, ops),
        forall|i: int| 0 <= i < ops.len() ==> !(#[trigger] ops[i] is StartAt),
        ops_keep(m, ops, model_checkpoint(m)),
    ensures
        ops_allowed(model_start_node(m, kind), ops),
        run_ops(model_start_node(m, kind), ops).children == run_ops(m, ops).children,
        run_ops(model_start_node(m, kind), ops).parents == m.parents.push((kind, m.children.len())) + run_ops(
            m,
            ops,
        ).parents.skip(m.parents.len() as int),
    decreases ops.len(),
{
    let n = m.parents.len() as int;
    let s = model_start_node(m, kind);
    if ops.len() == 0 {
        assert(m.parents.skip(n) =~= Seq::<(u32, nat)>::empty());
        assert(s.parents =~= m.parents.push((kind, m.children.len())) + m.parents.skip(n));
    } else {
        let init = ops.drop_last();
        assert forall|i: int| 0 <= i < init.len() implies !(#[trigger] init[i] is StartAt) by {
            assert(init[i] == ops[i]);
        }
        lemma_ops_under_node(m, init, kind);
        lemma_ops_extend(m, init);
        let a = run_ops(m, init);
        let b = run_ops(s, init);
        let top = m.parents.push((kind, m.children.len()));
        assert(ops[ops.len() - 1] == ops.last());
        assert(b.parents.len() == a.parents.len() + 1);
        match ops.last() {
            BuildOp::Add(t) => {},
            BuildOp::Start(k) => {
                assert(a.parents.push((k, a.children.len())).skip(n) =~= a.parents.skip(n).push((k, a.children.len())));
                assert(b.parents.push((k, b.children.len())) =~= top + a.parents.push((k, a.children.len())).skip(n));
            },
            BuildOp::Finish => {
                assert(a.parents.len() > n);
                assert(b.parents.last() == a.parents.last());
                assert(a.parents.drop_last().skip(n) =~= a.parents.skip(n).drop_last());
                assert(b.parents.drop_last() =~= top + a.parents.drop_last().skip(n));
            },
            BuildOp::StartAt(_, _) => {},
        }
    }
}

/// Wrapping over any calls: opening a node of kind `kind` at a checkpoint
/// after calls that only add tokens and open and close their own nodes gives
/// the same state as opening the node before the calls; the calls only added
/// elements, which a following close wraps into one node of that kind.
pub proof fn lemma_ops_start_node_at_wraps(m: BuilderModel, ops: Seq<BuildOp>, kind: u32)
    requires
        model_wf(m),
        ops_allowed(m, ops),
        ops_balanced(m, ops),
    ensures
        run_ops(m, ops) == model_extend(m, run_ops(m, ops).children.skip(m.children.len() as int)),
        ops_allowed(model_start_node(m, kind), ops),
        start_node_at_allowed(run_ops(m, ops), model_checkpoint(m)),
        model_start_node_at(run_ops(m, ops), model_checkpoint(m), kind) == run_ops(model_start_node(m, kind), ops),
{
    let n = m.parents.len() as int;
    let c = m.children.len() as int;
    lemma_ops_extend(m, ops);
    lemma_ops_under_node(m, ops, kind);
    let a = run_ops(m, ops);
    assert(a.parents =~= m.parents);
    assert(a.children =~= m.children + a.children.skip(c));
    assert(a.parents.skip(n) =~= Seq::<(u32, nat)>::empty());
    assert(m.parents.push((kind, m.children.len())) + a.parents.skip(n) =~= m.parents.push((kind, m.children.len())));
    if n > 0 {
        assert(m.parents.last().1 <= m.children.len());
    }
}

/// Closing a node right after opening it adds an empty node of its kind.
pub proof fn lemma_empty_node(m: BuilderModel, kind: u32)
    requires
        model_wf(m),
    ensures
        finish_node_allowed(model_start_node(m, kind)),
        model_finish_node(model_start_node(m, kind)) == model_push(
            m,
            GreenTree::Node { kind, children: Seq::empty() },
        ),
{
    let s = model_start_node(m, kind);
    assert(s.children.skip(m.children.len() as int) =~= Seq::<GreenTree>::empty());
    assert(s.children.take(m.children.len() as int) =~= m.children);
    assert(s.parents.drop_last() =~= m.parents);
}

/// Every operation keeps the builder's invariant.
pub proof fn lemma_operations_keep_wf(m: BuilderModel, t: GreenTree, kind: u32, cp: (nat, nat))
    requires
        model_wf(m),
    ensures
        model_wf(model_push(m, t)),
        model_wf(model_start_node(m, kind)),
        m.parents.len() > 0 ==> model_wf(model_finish_node(m)),
        revert_allowed(m, cp) ==> model_wf(model_revert(m, cp)),
        start_node_at_allowed(m, cp) ==> model_wf(model_start_node_at(m, cp, kind)),
{
    let p = model_start_node(m, kind);
    assert forall|i: int| 0 <= i < p.parents.len() implies #[trigger] p.parents[i].1 <= p.children.len() by {
        if i < m.parents.len() {
            assert(p.parents[i] == m.parents[i]);
        }
    }
    assert forall|i: int, j: int| 0 <= i <= j < p.parents.len() implies #[trigger] p.parents[i].1 <= #[trigger] p.parents[j].1 by {
        if j < m.parents.len() {
            assert(p.parents[i] == m.parents[i]);
            assert(p.parents[j] == m.parents[j]);
        } else if i < m.parents.len() {
            assert(p.parents[i] == m.parents[i]);
        }
    }
    if m.parents.len() > 0 {
        let f = model_finish_node(m);
        let first = m.parents.last().1;
        assert forall|i: int| 0 <= i < f.parents.len() implies #[trigger] f.parents[i].1 <= f.children.len() by {
            assert(f.parents[i] == m.parents[i]);
            assert(m.parents[i].1 <= m.parents[m.parents.len() - 1].1);
        }
        assert forall|i: int, j: int| 0 <= i <= j < f.parents.len() implies #[trigger] f.parents[i].1 <= #[trigger] f.parents[j].1 by {
            assert(f.parents[i] == m.parents[i]);
            assert(f.parents[j] == m.parents[j]);
        }
    }
    if revert_allowed(m, cp) {
        let r = model_revert(m, cp);
        assert forall|i: int| 0 <= i < r.parents.len() implies #[trigger] r.parents[i].1 <= r.children.len() by {
            assert(r.parents[i] == m.parents[i]);
            assert(m.parents[i].1 <= m.parents[cp.0 - 1].1);
        }
        assert forall|i: int, j: int| 0 <= i <= j < r.parents.len() implies #[trigger] r.parents[i].1 <= #[trigger] r.parents[j].1 by {
            assert(r.parents[i] == m.parents[i]);
            assert(r.parents[j] == m.parents[j]);
        }
    }
    if start_node_at_allowed(m, cp) {
        let q = model_start_node_at(m, cp, kind);
        assert forall|i: int| 0 <= i < q.parents.len() implies #[trigger] q.parents[i].1 <= q.children.len() by {
            if i < m.parents.len() {
                assert(q.parents[i] == m.parents[i]);
            }
        }
        assert forall|i: int, j: int| 0 <= i <= j < q.parents.len() implies #[trigger] q.parents[i].1 <= #[trigger] q.parents[j].1 by {
            if j < m.parents.len() {
                assert(q.parents[i] == m.parents[i]);
                assert(q.parents[j] == m.parents[j]);
            } else if i < m.parents.len() {
                assert(q.parents[i] == m.parents[i]);
                assert(m.parents[i].1 <= m.parents[m.parents.len() - 1].1);
            }
        }
    }
}

/// A builder for green trees.
///
/// Start nodes with [`start_node`](GreenNodeBuilder::start_node), add tokens with
/// [`token`](GreenNodeBuilder::token), close nodes with
/// [`finish_node`](GreenNodeBuilder::finish_node), and take the root with
/// [`finish`](GreenNodeBuilder::finish).
#[derive(Debug)]
pub struct GreenNodeBuilder<S: Syntax> {
    parents: Vec<(S, usize)>,
    children: Vec<GreenElement>,
}

impl<S: Syntax> View for GreenNodeBuilder<S> {
    type V = BuilderModel;

    closed spec fn view(&self) -> BuilderModel {
        BuilderModel {
            parents: Seq::new(
                self.parents@.len(),
                |i: int| (self.parents@[i].0.spec_into_raw(), self.parents@[i].1 as nat),
            ),
            children: elements_view(self.children@),
        }
    }
}

impl<S: Syntax> GreenNodeBuilder<S> {
    /// The builder's invariant.
    pub open spec fn wf(&self) -> bool {
        model_wf(self@)
    }

    proof fn lemma_view_lens(&self)
        ensures
            self@.parents.len() == self.parents@.len(),
            self@.children.len() == self.children@.len(),
            forall|i: int| 0 <= i < self.parents@.len() ==> #[trigger] self@.parents[i] == (self.parents@[i].0.spec_into_raw(), self.parents@[i].1 as nat),
    {
        lemma_elements_view_len(self.children@);
    }

    /// Creates a new builder.
    pub fn new() -> (b: Self)
        ensures
            b@ == empty_model(),
            b.wf(),
    {
        let b = GreenNodeBuilder { parents: Vec::with_capacity(8), children: Vec::with_capacity(8) };
        proof {
            assert(b@.parents =~= Seq::<(u32, nat)>::empty());
            assert(b@.children =~= Seq::<GreenTree>::empty());
        }
        b
    }

    /// Closes the node that starts at child `offset`: its children become a new node.
    fn node(&mut self, kind: S, offset: usize) -> (n: GreenNode)
        requires
            offset <= old(self).children@.len(),
            forest_bytes(old(self)@.children.skip(offset as int)).len() <= u32::MAX,
        ensures
            n@ == (GreenTree::Node { kind: kind.spec_into_raw(), children: old(self)@.children.skip(offset as int) }),
            final(self).children@ == old(self).children@.take(offset as int),
            final(self).parents@ == old(self).parents@,
    {
        let raw = kind.into_raw();
        proof {
            let cs = self.children@;
            lemma_elements_view_subrange(cs, offset as int, cs.len() as int);
            lemma_elements_view_len(cs);
            assert(elements_view(cs).skip(offset as int) =~= elements_view(cs).subrange(offset as int, cs.len() as int));
        }
        let (text_len, child_hash) = measure_elements_from(self.children.as_slice(), offset);
        let tail = self.children.split_off(offset);
        proof {
            assert(old(self).children@.take(offset as int) =~= old(self).children@.subrange(0, offset as int));
        }
        GreenNode::new_with_len_and_hash(raw, tail, text_len, child_hash)
    }

    fn make_token(kind: S, data: &[u8]) -> (t: GreenToken)
        requires
            data@.len() <= u32::MAX,
        ensures
            t@ == (GreenTree::Token { kind: kind.spec_into_raw(), data: data@ }),
    {
        GreenToken::new(kind.into_raw(), data)
    }

    /// Adds a token of kind `kind` covering `data` to the current node. A kind
    /// with static data takes its static data instead.
    pub fn token(&mut self, kind: S, data: &[u8])
        requires
            old(self).wf(),
            kind.spec_static_data() is None ==> data@.len() <= u32::MAX,
            kind.spec_static_data() matches Some(d) ==> d.len() <= u32::MAX,
        ensures
            final(self)@ == model_push(
                old(self)@,
                GreenTree::Token { kind: kind.spec_into_raw(), data: token_bytes(kind.spec_static_data(), data@) },
            ),
            final(self).wf(),
    {
        let token = match kind.static_bytes() {
            Some(static_data) => Self::make_token(kind, static_data),
            None => Self::make_token(kind, data),
        };
        self.push_element(GreenElement::Token(token));
    }

    /// Adds a token of kind `kind` covering `bytes` to the current node; the
    /// same as [`token`](GreenNodeBuilder::token).
    pub fn token_from_bytes(&mut self, kind: S, bytes: &[u8])
        requires
            old(self).wf(),
            kind.spec_static_data() is None ==> bytes@.len() <= u32::MAX,
            kind.spec_static_data() matches Some(d) ==> d.len() <= u32::MAX,
        ensures
            final(self)@ == model_push(
                old(self)@,
                GreenTree::Token { kind: kind.spec_into_raw(), data: token_bytes(kind.spec_static_data(), bytes@) },
            ),
            final(self).wf(),
    {
        self.token(kind, bytes);
    }

    /// Adds a token of kind `kind` covering its static data to the current node.
    pub fn static_token(&mut self, kind: S)
        requires
            old(self).wf(),
            kind.spec_static_data() matches Some(d) && d.len() <= u32::MAX,
        ensures
            final(self)@ == model_push(
                old(self)@,
                GreenTree::Token { kind: kind.spec_into_raw(), data: kind.spec_static_data()->0 },
            ),
            final(self).wf(),
    {
        let static_data = kind.static_bytes().unwrap();
        let token = Self::make_token(kind, static_data);
        self.push_element(GreenElement::Token(token));
    }

    fn push_element(&mut self, e: GreenElement)
        requires
            old(self).wf(),
        ensures
            final(self)@ == model_push(old(self)@, e@),
            final(self).wf(),
    {
        self.children.push(e);
        proof {
            lemma_elements_view_push(old(self).children@, e);
            assert(self@.parents =~= old(self)@.parents);
            self.lemma_view_lens();
            old(self).lemma_view_lens();
        }
    }

    /// Opens a node of kind `kind` and makes it current.
    pub fn start_node(&mut self, kind: S)
        requires
            old(self).wf(),
        ensures
            final(self)@ == model_start_node(old(self)@, kind.spec_into_raw()),
            final(self).wf(),
    {
        let len = self.children.len();
        self.parents.push((kind, len));
        proof {
            old(self).lemma_view_lens();
            self.lemma_view_lens();
            assert(self@.parents =~= old(self)@.parents.push((kind.spec_into_raw(), len as nat)));
        }
    }

    /// Closes the current node and makes its parent current again.
    pub fn finish_node(&mut self)
        requires
            old(self).wf(),
            finish_node_allowed(old(self)@),
        ensures
            final(self)@ == model_finish_node(old(self)@),
            final(self).wf(),
    {
        proof {
            old(self).lemma_view_lens();
        }
        let (kind, first_child) = self.parents.pop().unwrap();
        let ghost mid_parents = self.parents@;
        let node = self.node(kind, first_child);
        self.children.push(GreenElement::Node(node));
        proof {
            let m = old(self)@;
            let first = first_child as int;
            self.lemma_view_lens();
            lemma_elements_view_push(old(self).children@.take(first), GreenElement::Node(node));
            lemma_elements_view_subrange(old(self).children@, 0, first);
            lemma_elements_view_len(old(self).children@);
            assert(old(self).children@.take(first) =~= old(self).children@.subrange(0, first));
            assert(m.children.take(first) =~= m.children.subrange(0, first));
            assert(self@.children =~= model_finish_node(m).children);
            assert(self@.parents =~= model_finish_node(m).parents);
            assert forall|i: int| 0 <= i < self@.parents.len() implies #[trigger] self@.parents[i].1 <= self@.children.len() by {
                assert(self@.parents[i] == m.parents[i]);
                assert(m.parents[i].1 <= m.parents[m.parents.len() - 1].1);
            }
            assert forall|i: int, j: int| 0 <= i <= j < self@.parents.len() implies #[trigger] self@.parents[i].1 <= #[trigger] self@.parents[j].1 by {
                assert(self@.parents[i] == m.parents[i]);
                assert(self@.parents[j] == m.parents[j]);
            }
        }
    }

    /// Takes a snapshot of the builder's state, for wrapping the elements added
    /// after it in a node ([`start_node_at`](GreenNodeBuilder::start_node_at)) or
    /// for backtracking to it ([`revert_to`](GreenNodeBuilder::revert_to)).
    pub fn checkpoint(&self) -> (cp: Checkpoint)
        requires
            self.wf(),
        ensures
            cp@ == model_checkpoint(self@),
            revert_allowed(self@, cp@),
            start_node_at_allowed(self@, cp@),
    {
        proof {
            self.lemma_view_lens();
        }
        Checkpoint { parent_idx: self.parents.len(), child_idx: self.children.len() }
    }

    /// Restores the builder's state to when `checkpoint` was taken.
    pub fn revert_to(&mut self, checkpoint: Checkpoint)
        requires
            old(self).wf(),
            revert_allowed(old(self)@, checkpoint@),
        ensures
            final(self)@ == model_revert(old(self)@, checkpoint@),
            final(self).wf(),
    {
        let Checkpoint { parent_idx, child_idx } = checkpoint;
        self.parents.truncate(parent_idx);
        self.children.truncate(child_idx);
        proof {
            let m = old(self)@;
            old(self).lemma_view_lens();
            self.lemma_view_lens();
            lemma_elements_view_subrange(old(self).children@, 0, child_idx as int);
            assert(self@.children =~= m.children.take(child_idx as int));
            assert(self@.parents =~= m.parents.take(parent_idx as int));
            assert forall|i: int| 0 <= i < self@.parents.len() implies #[trigger] self@.parents[i].1 <= self@.children.len() by {
                assert(self@.parents[i] == m.parents[i]);
                assert(m.parents[i].1 <= m.parents[parent_idx - 1].1);
            }
            assert forall|i: int, j: int| 0 <= i <= j < self@.parents.len() implies #[trigger] self@.parents[i].1 <= #[trigger] self@.parents[j].1 by {
                assert(self@.parents[i] == m.parents[i]);
                assert(self@.parents[j] == m.parents[j]);
            }
        }
    }

    /// Opens a node of kind `kind` at `checkpoint`, wrapping all elements
    /// added since the checkpoint was taken.
    pub fn start_node_at(&mut self, checkpoint: Checkpoint, kind: S)
        requires
            old(self).wf(),
            start_node_at_allowed(old(self)@, checkpoint@),
        ensures
            final(self)@ == model_start_node_at(old(self)@, checkpoint@, kind.spec_into_raw()),
            final(self).wf(),
    {
        let Checkpoint { parent_idx: _, child_idx } = checkpoint;
        self.parents.push((kind, child_idx));
        proof {
            old(self).lemma_view_lens();
            self.lemma_view_lens();
            assert(self@.parents =~= old(self)@.parents.push((kind.spec_into_raw(), child_idx as nat)));
        }
    }

    /// Completes the tree and returns its root, the single node that was built.
    pub fn finish(self) -> (root: GreenNode)
        requires
            self@.children.len() == 1,
            self@.children[0] is Node,
        ensures
            root@ == self@.children[0],
    {
        proof {
            lemma_elements_view_len(self.children@);
            lemma_element_is_node(self.children@[0]);
        }
        let mut children = self.children;
        match children.pop() {
            Some(GreenElement::Node(node)) => node,
            _ => vstd::pervasive::unreached(),
        }
    }
}

impl<S: Syntax> Default for GreenNodeBuilder<S> {
    fn default() -> (b: Self)
        ensures
            b@ == empty_model(),
            b.wf(),
    {
        Self::new()
    }
}

} // verus!
