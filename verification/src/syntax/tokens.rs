//! The tokens below a node, in order, and the parts of a range they cover.

use vstd::prelude::*;

use crate::green::{arities_fit, forest_arities_fit, lemma_forest_arities_fit, forest_bytes, forest_leaves, lemma_forest_leaves_bytes, tree_bytes, tree_children, tree_leaves, GreenTree};
use crate::kind::Syntax;
use crate::syntax::iter::child_element;
use crate::syntax::navigation::{lemma_elem_arities, lemma_forest_depth, lemma_path_append, tree_depth};
use crate::syntax::node::{elem_at, offset_of, position_range, valid_path, Position, SyntaxNode};
use crate::syntax::text::{clip_chunks, node_chunks, SyntaxData, SyntaxText};
use crate::syntax::token::{token_data, SyntaxToken};
use crate::text::{max_nat, min_nat, TextRange};
use crate::util::NodeOrToken;

verus! {

/// The paths, relative to `t`, of its tokens in order.
pub open spec fn tree_token_paths(t: GreenTree) -> Seq<Seq<usize>>
    decreases t,
{
    match t {
        GreenTree::Token { .. } => seq![Seq::empty()],
        GreenTree::Node { children, .. } => forest_token_paths(children),
    }
}

/// The paths, relative to a node with children `cs`, of the tokens below those
/// children in order.
pub open spec fn forest_token_paths(cs: Seq<GreenTree>) -> Seq<Seq<usize>>
    decreases cs,
{
    if cs.len() == 0 {
        Seq::empty()
    } else {
        forest_token_paths(cs.drop_last()) + prefixed(tree_token_paths(cs.last()), seq![(cs.len() - 1) as usize])
    }
}

/// Each path of `qs` with `pre` in front.
pub open spec fn prefixed(qs: Seq<Seq<usize>>, pre: Seq<usize>) -> Seq<Seq<usize>> {
    qs.map_values(|q: Seq<usize>| pre + q)
}

/// The positions of the paths `qs` below `p`.
pub open spec fn positions_below(p: Position, qs: Seq<Seq<usize>>) -> Seq<Position> {
    qs.map_values(|q: Seq<usize>| Position { root: p.root, path: p.path + q })
}

/// The tokens below the node at `p`, in order.
pub open spec fn token_positions(p: Position) -> Seq<Position> {
    positions_below(p, tree_token_paths(elem_at(p.root, p.path)))
}

/// For each token of `ts`, in order, whose range overlaps or touches
/// `lo..hi`: the token, and the part of `lo..hi` it covers, relative to the
/// token's start.
pub open spec fn clip_tokens(ts: Seq<Position>, lo: int, hi: int) -> Seq<(Position, int, int)>
    decreases ts.len(),
{
    if ts.len() == 0 {
        Seq::empty()
    } else {
        let prev = clip_tokens(ts.drop_last(), lo, hi);
        let t = ts.last();
        let ts0 = position_range(t).0 as int;
        let te0 = position_range(t).1 as int;
        let s = max_nat(lo, ts0);
        let e = min_nat(hi, te0);
        if s <= e {
            prev.push((t, s - ts0, e - ts0))
        } else {
            prev
        }
    }
}

/// The positions of tokens paired with ranges, as numbers.
pub open spec fn token_ranges_view<S: Syntax>(r: Seq<(SyntaxToken<S>, TextRange)>) -> Seq<(Position, int, int)> {
    r.map_values(|x: (SyntaxToken<S>, TextRange)| (x.0@, x.1.spec_start() as int, x.1.spec_end() as int))
}

/// The positions of a sequence of tokens.
pub open spec fn tokens_view<S: Syntax>(ts: Seq<SyntaxToken<S>>) -> Seq<Position> {
    ts.map_values(|t: SyntaxToken<S>| t@)
}

/// Appends the tokens below `node`, in order, to `out`.
fn push_tokens<S: Syntax>(node: &SyntaxNode<S>, out: &mut Vec<SyntaxToken<S>>)
    ensures
        tokens_view(final(out)@) == tokens_view(old(out)@) + token_positions(node@),
    decreases tree_depth(elem_at(node@.root, node@.path)),
{
    let _ = node.green();
    let ghost p = node@;
    let ghost e = elem_at(p.root, p.path);
    let ghost cs = tree_children(e);
    let ghost start = tokens_view(out@);
    let n = node.arity();
    let mut i: usize = 0;
    proof {
        assert(cs.take(0) =~= Seq::<GreenTree>::empty());
        assert(positions_below(p, forest_token_paths(cs.take(0))) =~= Seq::<Position>::empty());
        assert(tokens_view(out@) =~= start + positions_below(p, forest_token_paths(cs.take(0))));
    }
    while i < n
        invariant
            p == node@,
            e == elem_at(p.root, p.path),
            e is Node,
            valid_path(p.root, p.path),
            cs == tree_children(e),
            n == cs.len(),
            i <= n,
            tokens_view(out@) == start + positions_below(p, forest_token_paths(cs.take(i as int))),
        decreases n - i,
    {
        let ghost before = tokens_view(out@);
        let ghost child_path = p.path.push(i);
        proof {
            assert(child_path.drop_last() =~= p.path);
            assert(elem_at(p.root, child_path) == cs[i as int]);
            lemma_forest_depth(cs, i as int);
        }
        let ghost pre = cs.take(i as int);
        let ghost next = cs.take(i + 1);
        let ghost added = prefixed(tree_token_paths(cs[i as int]), seq![i]);
        let ghost below = positions_below(p, added);
        proof {
            assert(next.drop_last() =~= pre);
            assert(next.last() == cs[i as int]);
            assert(forest_token_paths(next) == forest_token_paths(pre) + added);
            assert(positions_below(p, forest_token_paths(pre) + added) =~= positions_below(
                p,
                forest_token_paths(pre),
            ) + below);
        }
        match node.child_or_token(i) {
            NodeOrToken::Token(t) => {
                out.push(t);
                proof {
                    assert(cs[i as int] is Token);
                    assert(tree_token_paths(cs[i as int]) == seq![Seq::<usize>::empty()]);
                    assert(p.path + (seq![i] + Seq::<usize>::empty()) =~= child_path);
                    assert(below =~= seq![Position { root: p.root, path: child_path }]);
                    assert(tokens_view(out@) =~= before.push(t@));
                    assert(tokens_view(out@) =~= start + positions_below(p, forest_token_paths(next)));
                }
            },
            NodeOrToken::Node(child) => {
                push_tokens(&child, out);
                proof {
                    assert(below =~= token_positions(Position { root: p.root, path: child_path })) by {
                        assert forall|k: int| 0 <= k < below.len() implies below[k] == token_positions(
                            Position { root: p.root, path: child_path },
                        )[k] by {
                            let q = tree_token_paths(cs[i as int])[k];
                            assert(p.path + (seq![i] + q) =~= child_path + q);
                        }
                    }
                    assert(tokens_view(out@) =~= start + positions_below(p, forest_token_paths(next)));
                }
            },
        }
        i = i + 1;
    }
    proof {
        assert(cs.take(n as int) =~= cs);
        assert(tree_token_paths(e) == forest_token_paths(cs));
    }
}

/// The tokens below `node` that overlap or touch `range`, each with the part
/// of `range` it covers, relative to the token's start.
fn clip_node_tokens<S: Syntax>(node: &SyntaxNode<S>, range: TextRange) -> (r: Vec<(SyntaxToken<S>, TextRange)>)
    requires
        range.wf(),
    ensures
        token_ranges_view(r@) == clip_tokens(
            token_positions(node@),
            range.spec_start() as int,
            range.spec_end() as int,
        ),
{
    let mut tokens: Vec<SyntaxToken<S>> = Vec::new();
    push_tokens(node, &mut tokens);
    proof {
        assert(tokens_view(Seq::<SyntaxToken<S>>::empty()) =~= Seq::<Position>::empty());
        assert(tokens_view(tokens@) =~= token_positions(node@));
    }
    let ghost ts = tokens_view(tokens@);
    let ghost lo = range.spec_start() as int;
    let ghost hi = range.spec_end() as int;
    let mut out: Vec<(SyntaxToken<S>, TextRange)> = Vec::new();
    let mut i: usize = 0;
    proof {
        assert(ts.take(0) =~= Seq::<Position>::empty());
        assert(token_ranges_view(out@) =~= Seq::<(Position, int, int)>::empty());
    }
    while i < tokens.len()
        invariant
            ts == tokens_view(tokens@),
            ts.len() == tokens@.len(),
            i <= tokens@.len(),
            lo == range.spec_start(),
            hi == range.spec_end(),
            token_ranges_view(out@) == clip_tokens(ts.take(i as int), lo, hi),
        decreases tokens@.len() - i,
    {
        let t = tokens[i].clone();
        let tr = t.text_range();
        let ghost before = token_ranges_view(out@);
        proof {
            assert(ts.take(i + 1).drop_last() =~= ts.take(i as int));
            assert(ts.take(i + 1).last() == t@);
        }
        match range.intersect(tr) {
            Some(hit) => {
                let rel = TextRange::new(hit.start() - tr.start(), hit.end() - tr.start());
                out.push((t, rel));
                proof {
                    assert(token_ranges_view(out@) =~= before.push(
                        (ts[i as int], rel.spec_start() as int, rel.spec_end() as int),
                    ));
                }
            },
            None => {},
        }
        i = i + 1;
    }
    proof {
        assert(ts.take(tokens@.len() as int) =~= ts);
    }
    out
}

impl<'n, S: Syntax> SyntaxData<'n, S> {
    /// The tokens below the node that overlap or touch the range of this
    /// data, in order, each with the part of the range it covers, relative to
    /// the token's start.
    pub fn tokens_with_ranges(&self) -> (r: Vec<(SyntaxToken<S>, TextRange)>)
        ensures
            token_ranges_view(r@) == clip_tokens(
                token_positions(self.spec_node()),
                self.spec_lo() as int,
                self.spec_hi() as int,
            ),
    {
        let (node, range) = self.parts();
        clip_node_tokens(node, range)
    }
}

impl<'n, S: Syntax> SyntaxText<'n, S> {
    /// The tokens below the node that overlap or touch the range of this
    /// text, in order, each with the part of the range it covers, relative to
    /// the token's start.
    pub fn tokens_with_ranges(&self) -> (r: Vec<(SyntaxToken<S>, TextRange)>)
        ensures
            token_ranges_view(r@) == clip_tokens(
                token_positions(self.spec_node()),
                self.spec_lo() as int,
                self.spec_hi() as int,
            ),
    {
        let (node, range) = self.parts();
        clip_node_tokens(node, range)
    }
}

/// The `k`-th token path of `t` leads to a token whose bytes are the `k`-th
/// leaf of `t`, and which starts after the leaves before it.
pub proof fn lemma_tree_token_paths(t: GreenTree)
    requires
        arities_fit(t),
    ensures
        tree_token_paths(t).len() == tree_leaves(t).len(),
        forall|k: int|
            0 <= k < tree_token_paths(t).len() ==> {
                let q = #[trigger] tree_token_paths(t)[k];
                &&& valid_path(t, q)
                &&& elem_at(t, q) is Token
                &&& tree_bytes(elem_at(t, q)) == tree_leaves(t)[k]
                &&& offset_of(t, q) == tree_leaves(t).take(k).flatten_alt().len()
            },
    decreases t,
{
    match t {
        GreenTree::Token { data, .. } => {
            let q = Seq::<usize>::empty();
            assert(tree_token_paths(t)[0] == q);
            assert(tree_leaves(t).take(0) =~= Seq::<Seq<u8>>::empty());
            assert(elem_at(t, q) == t);
            assert(valid_path(t, q));
        },
        GreenTree::Node { children, .. } => {
            lemma_forest_token_paths(children);
            assert forall|k: int| 0 <= k < tree_token_paths(t).len() implies {
                let q = #[trigger] tree_token_paths(t)[k];
                &&& valid_path(t, q)
                &&& elem_at(t, q) is Token
                &&& tree_bytes(elem_at(t, q)) == tree_leaves(t)[k]
                &&& offset_of(t, q) == tree_leaves(t).take(k).flatten_alt().len()
            } by {
                let q = forest_token_paths(children)[k];
                let j = q[0] as int;
                let r = q.skip(1);
                let head = seq![q[0]];
                assert(q =~= head + r);
                assert(head.drop_last() =~= Seq::<usize>::empty());
                assert(valid_path(t, Seq::<usize>::empty()));
                assert(elem_at(t, Seq::<usize>::empty()) == t);
                assert(offset_of(t, Seq::<usize>::empty()) == 0);
                assert(valid_path(t, head));
                assert(elem_at(t, head) == children[j]);
                lemma_path_append(t, head, r);
            }
        },
    }
}

/// The token paths of the trees of `cs`, each starting with the index of its
/// tree: every one leads inside its tree to a token whose bytes are the
/// matching leaf, after the leaves before it.
pub proof fn lemma_forest_token_paths(cs: Seq<GreenTree>)
    requires
        cs.len() <= usize::MAX,
        forest_arities_fit(cs),
    ensures
        forest_token_paths(cs).len() == forest_leaves(cs).len(),
        forall|k: int|
            0 <= k < forest_token_paths(cs).len() ==> {
                let q = #[trigger] forest_token_paths(cs)[k];
                let j = q[0] as int;
                let r = q.skip(1);
                &&& q.len() > 0
                &&& 0 <= j < cs.len()
                &&& valid_path(cs[j], r)
                &&& elem_at(cs[j], r) is Token
                &&& tree_bytes(elem_at(cs[j], r)) == forest_leaves(cs)[k]
                &&& forest_bytes(cs.take(j)).len() + offset_of(cs[j], r) == forest_leaves(cs).take(k).flatten_alt().len()
            },
    decreases cs,
{
    if cs.len() > 0 {
        let init = cs.drop_last();
        let last = cs.last();
        let n = cs.len() - 1;
        lemma_forest_arities_fit(cs, n);
        lemma_forest_token_paths(init);
        lemma_tree_token_paths(last);
        lemma_forest_leaves_bytes(init);
        let a = forest_token_paths(init);
        let b = prefixed(tree_token_paths(last), seq![n as usize]);
        let la = forest_leaves(init);
        let lb = tree_leaves(last);
        assert(forest_leaves(cs) == la + lb);
        assert(cs.take(n) =~= init);
        assert forall|k: int| 0 <= k < forest_token_paths(cs).len() implies {
            let q = #[trigger] forest_token_paths(cs)[k];
            let j = q[0] as int;
            let r = q.skip(1);
            &&& q.len() > 0
            &&& 0 <= j < cs.len()
            &&& valid_path(cs[j], r)
            &&& elem_at(cs[j], r) is Token
            &&& tree_bytes(elem_at(cs[j], r)) == forest_leaves(cs)[k]
            &&& forest_bytes(cs.take(j)).len() + offset_of(cs[j], r) == forest_leaves(cs).take(k).flatten_alt().len()
        } by {
            let q = forest_token_paths(cs)[k];
            if k < a.len() {
                assert(q == a[k]);
                let j = q[0] as int;
                assert(cs[j] == init[j]);
                assert(cs.take(j) =~= init.take(j));
                assert((la + lb).take(k) =~= la.take(k));
            } else {
                let k2 = k - a.len();
                let r0 = tree_token_paths(last)[k2];
                assert(q == b[k2]);
                assert(q =~= seq![n as usize] + r0);
                assert(q.skip(1) =~= r0);
                assert((la + lb).take(k) =~= la + lb.take(k2));
                vstd::seq_lib::lemma_flatten_alt_concat(la, lb.take(k2));
            }
        }
    }
}

/// The chunks of tokens clipped to `lo..hi`, as data, follow from the tokens
/// and their clipped ranges: laid out from `base`, tokens with the bytes of
/// `leaves` clip to the same chunks.
proof fn lemma_clip_tokens_chunks(ts: Seq<Position>, leaves: Seq<Seq<u8>>, base: int, lo: int, hi: int)
    requires
        ts.len() == leaves.len(),
        forall|k: int| 0 <= k < ts.len() ==> #[trigger] token_data(ts[k]) == leaves[k],
        forall|k: int|
            0 <= k < ts.len() ==> #[trigger] position_range(ts[k]).0 == base + leaves.take(k).flatten_alt().len(),
        forall|k: int|
            0 <= k < ts.len() ==> #[trigger] position_range(ts[k]).1 == position_range(ts[k]).0 + token_data(ts[k]).len(),
    ensures
        token_slices(clip_tokens(ts, lo, hi)) == clip_chunks(leaves, base, lo, hi),
    decreases ts.len(),
{
    if ts.len() > 0 {
        let n = ts.len() - 1;
        assert forall|k: int| 0 <= k < n implies #[trigger] position_range(ts.drop_last()[k]).0 == base
            + leaves.drop_last().take(k).flatten_alt().len() by {
            assert(leaves.drop_last().take(k) =~= leaves.take(k));
            assert(ts.drop_last()[k] == ts[k]);
        }
        assert forall|k: int| 0 <= k < n implies #[trigger] token_data(ts.drop_last()[k]) == leaves.drop_last()[k] by {
            assert(ts.drop_last()[k] == ts[k]);
        }
        assert forall|k: int| 0 <= k < n implies #[trigger] position_range(ts.drop_last()[k]).1 == position_range(
            ts.drop_last()[k],
        ).0 + token_data(ts.drop_last()[k]).len() by {
            assert(ts.drop_last()[k] == ts[k]);
        }
        lemma_clip_tokens_chunks(ts.drop_last(), leaves.drop_last(), base, lo, hi);
        assert(leaves.take(n) =~= leaves.drop_last());
        assert(token_data(ts[n]) == leaves[n]);
        let prev = clip_tokens(ts.drop_last(), lo, hi);
        let t = ts.last();
        let ts0 = position_range(t).0 as int;
        let te0 = position_range(t).1 as int;
        let s = max_nat(lo, ts0);
        let e = min_nat(hi, te0);
        if s <= e {
            assert(token_slices(prev.push((t, s - ts0, e - ts0))) =~= token_slices(prev).push(
                token_data(t).subrange(s - ts0, e - ts0),
            ));
        }
    }
}

/// The data of tokens with clipped ranges: each token's bytes within its range.
pub open spec fn token_slices(xs: Seq<(Position, int, int)>) -> Seq<Seq<u8>> {
    xs.map_values(|x: (Position, int, int)| token_data(x.0).subrange(x.1, x.2))
}

/// The chunks of a node's data are the bytes of its tokens within their
/// clipped ranges, as `tokens_with_ranges` gives them.
pub proof fn lemma_chunks_are_token_slices(p: Position, lo: int, hi: int)
    requires
        valid_path(p.root, p.path),
        arities_fit(p.root),
    ensures
        token_slices(clip_tokens(token_positions(p), lo, hi)) == node_chunks(p, lo, hi),
{
    let e = elem_at(p.root, p.path);
    let base = offset_of(p.root, p.path) as int;
    let ts = token_positions(p);
    let leaves = tree_leaves(e);
    lemma_elem_arities(p.root, p.path);
    lemma_tree_token_paths(e);
    assert forall|k: int| #![trigger ts[k]] 0 <= k < ts.len() implies {
        &&& token_data(ts[k]) == leaves[k]
        &&& position_range(ts[k]).0 == base + leaves.take(k).flatten_alt().len()
        &&& position_range(ts[k]).1 == position_range(ts[k]).0 + token_data(ts[k]).len()
    } by {
        let q = tree_token_paths(e)[k];
        lemma_path_append(p.root, p.path, q);
    }
    lemma_clip_tokens_chunks(ts, leaves, base, lo, hi);
}

} // verus!
