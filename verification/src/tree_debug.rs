//! The indented rendering of a tree for debugging: one line for each node and
//! token below and including a node, in preorder.

use vstd::prelude::*;
use vstd::string::{StringExecFns, StringSliceAdditionalSpecFns};

use crate::display::{data_debug, decimal, fmt_data_debug, push_decimal};
use crate::green::{forest_bytes, tree_bytes, tree_kind, GreenTree};
use crate::kind::{RawSyntaxKind, Syntax};
use crate::syntax::navigation::lemma_path_append;
use crate::syntax::node::{elem_at, offset_of, position_range, valid_path, SyntaxNode};

verus! {

/// One line of the rendering: how deep an element lies below the rendered
/// node, its raw kind, its range, and, for a token, its bytes.
pub struct DebugLine {
    pub depth: usize,
    pub kind: RawSyntaxKind,
    pub start: u32,
    pub end: u32,
    pub data: Option<Vec<u8>>,
}

/// A line as plain values.
pub struct LineModel {
    pub depth: nat,
    pub kind: u32,
    pub start: nat,
    pub end: nat,
    pub data: Option<Seq<u8>>,
}

impl View for DebugLine {
    type V = LineModel;

    open spec fn view(&self) -> LineModel {
        LineModel {
            depth: self.depth as nat,
            kind: self.kind.0,
            start: self.start as nat,
            end: self.end as nat,
            data: match self.data {
                Some(d) => Some(d@),
                None => None,
            },
        }
    }
}

pub open spec fn lines_view(ls: Seq<DebugLine>) -> Seq<LineModel> {
    ls.map_values(|l: DebugLine| l@)
}

/// The depth of the children of an element at `depth` (which stays put at
/// the largest depth a `usize` holds).
pub open spec fn deeper(depth: nat) -> nat {
    if depth < usize::MAX {
        depth + 1
    } else {
        depth
    }
}

/// The lines of `t`, which starts at `offset` and lies at `depth`: its own
/// line, then those of its children one level deeper.
pub open spec fn tree_lines(t: GreenTree, offset: nat, depth: nat) -> Seq<LineModel>
    decreases t,
{
    match t {
        GreenTree::Token { kind, data } => seq![
            LineModel { depth, kind, start: offset, end: offset + data.len(), data: Some(data) },
        ],
        GreenTree::Node { kind, children } => seq![
            LineModel { depth, kind, start: offset, end: offset + forest_bytes(children).len(), data: None },
        ] + forest_lines(children, offset, deeper(depth)),
    }
}

/// The lines of the trees of `cs`, laid out one after the other from `offset`.
pub open spec fn forest_lines(cs: Seq<GreenTree>, offset: nat, depth: nat) -> Seq<LineModel>
    decreases cs,
{
    if cs.len() == 0 {
        Seq::empty()
    } else {
        forest_lines(cs.drop_last(), offset, depth) + tree_lines(
            cs.last(),
            offset + forest_bytes(cs.drop_last()).len(),
            depth,
        )
    }
}

/// Two spaces for each level of depth.
pub open spec fn indent(depth: nat) -> Seq<char> {
    Seq::new(2 * depth, |i: int| ' ')
}

/// A line as text, given how its kind is shown: the indentation, the kind,
/// `@`, the range as `start..end`, for a token a space and its data as shown
/// for debugging, and a line break.
pub open spec fn line_text(l: LineModel, name: Seq<char>) -> Seq<char> {
    indent(l.depth) + name + seq!['@'] + decimal(l.start) + seq!['.', '.'] + decimal(l.end) + match l.data {
        Some(d) => seq![' '] + data_debug(d),
        None => Seq::empty(),
    } + seq!['\n']
}

/// The text of the lines `ls`, the `i`-th with its kind shown as `names[i]`.
pub open spec fn lines_text(ls: Seq<LineModel>, names: Seq<Seq<char>>) -> Seq<char>
    decreases ls.len(),
{
    if ls.len() == 0 {
        Seq::empty()
    } else {
        lines_text(ls.drop_last(), names) + line_text(ls.last(), names[ls.len() - 1])
    }
}

pub open spec fn names_view(names: Seq<String>) -> Seq<Seq<char>> {
    names.map_values(|s: String| s@)
}

/// Appends `indent(depth)` to `out`.
fn push_indent(out: &mut String, depth: usize)
    ensures
        final(out)@ == old(out)@ + indent(depth as nat),
{
    let ghost start = out@;
    let mut i: usize = 0;
    proof {
        reveal_strlit("  ");
        assert(out@ =~= start + indent(0));
    }
    while i < depth
        invariant
            i <= depth,
            out@ == start + indent(i as nat),
        decreases depth - i,
    {
        proof {
            reveal_strlit("  ");
        }
        out.append("  ");
        proof {
            assert(indent((i + 1) as nat) =~= indent(i as nat) + seq![' ', ' ']);
            assert(out@ =~= start + indent((i + 1) as nat));
        }
        i = i + 1;
    }
}

/// Appends the text of one line to `out`.
fn push_line(out: &mut String, line: &DebugLine, name: &String)
    ensures
        final(out)@ == old(out)@ + line_text(line@, name@),
{
    let ghost start = out@;
    push_indent(out, line.depth);
    proof {
        reveal_strlit("@");
        reveal_strlit("..");
        reveal_strlit(" ");
        reveal_strlit("\n");
    }
    out.append(name.as_str());
    out.append("@");
    push_decimal(out, line.start as u64);
    out.append("..");
    push_decimal(out, line.end as u64);
    match &line.data {
        Some(d) => {
            out.append(" ");
            let shown = fmt_data_debug(d.as_slice());
            out.append(shown.as_str());
        },
        None => {},
    }
    out.append("\n");
    proof {
        assert(out@ =~= start + line_text(line@, name@));
    }
}

/// The text of `lines`, the `i`-th with its kind shown as `names[i]`.
pub fn render_debug_lines(lines: &[DebugLine], names: &[String]) -> (r: String)
    requires
        lines@.len() == names@.len(),
    ensures
        r@ == lines_text(lines_view(lines@), names_view(names@)),
{
    let mut out = String::new();
    let mut i: usize = 0;
    proof {
        assert(lines_view(lines@).take(0) =~= Seq::<LineModel>::empty());
        assert(out@ =~= lines_text(lines_view(lines@).take(0), names_view(names@)));
    }
    while i < lines.len()
        invariant
            i <= lines@.len(),
            lines@.len() == names@.len(),
            out@ == lines_text(lines_view(lines@).take(i as int), names_view(names@)),
        decreases lines@.len() - i,
    {
        push_line(&mut out, &lines[i], &names[i]);
        proof {
            let ls = lines_view(lines@);
            assert(ls.take(i + 1).drop_last() =~= ls.take(i as int));
            assert(ls.take(i + 1).last() == lines@[i as int]@);
            assert(names_view(names@)[i as int] == names@[i as int]@);
        }
        i = i + 1;
    }
    proof {
        assert(lines_view(lines@).take(lines@.len() as int) =~= lines_view(lines@));
    }
    out
}

impl<S: Syntax> SyntaxNode<S> {
    /// This node as shown for debugging, given how its kind is shown: the
    /// kind, `@`, and its range as `start..end`.
    pub fn debug_with_kind(&self, kind: &str) -> (r: String)
        ensures
            r@ == kind@ + seq!['@'] + decimal(position_range(self@).0) + seq!['.', '.'] + decimal(
                position_range(self@).1,
            ),
    {
        let range = self.text_range();
        let mut out = String::new();
        proof {
            reveal_strlit("@");
            reveal_strlit("..");
        }
        out.append(kind);
        out.append("@");
        push_decimal(&mut out, range.start() as u64);
        out.append("..");
        push_decimal(&mut out, range.end() as u64);
        proof {
            assert(out@ =~= kind@ + seq!['@'] + decimal(position_range(self@).0) + seq!['.', '.'] + decimal(
                position_range(self@).1,
            ));
        }
        out
    }

    /// The lines of this node and everything below it, in preorder, each with
    /// its depth below this node and its absolute range.
    pub fn debug_lines(&self) -> (r: Vec<DebugLine>)
        ensures
            lines_view(r@) == tree_lines(elem_at(self@.root, self@.path), position_range(self@).0, 0),
    {
        let range = self.text_range();
        let green = self.green();
        let mut out: Vec<DebugLine> = Vec::new();
        proof {
            assert(lines_view(out@) =~= Seq::<LineModel>::empty());
        }
        green.push_lines(range.start(), 0, &mut out);
        proof {
            assert(lines_view(out@) =~= Seq::<LineModel>::empty() + tree_lines(
                elem_at(self@.root, self@.path),
                position_range(self@).0,
                0,
            ));
        }
        out
    }

    /// This node and everything below it as shown for debugging, one line
    /// each, given how the kind of each line of `debug_lines` is shown.
    pub fn debug_tree(&self, names: &[String]) -> (r: Option<String>)
        ensures
            r is Some <==> names@.len() == tree_lines(elem_at(self@.root, self@.path), position_range(self@).0, 0).len(),
            r matches Some(s) ==> s@ == lines_text(
                tree_lines(elem_at(self@.root, self@.path), position_range(self@).0, 0),
                names_view(names@),
            ),
    {
        let lines = self.debug_lines();
        if lines.len() != names.len() {
            return None;
        }
        Some(render_debug_lines(lines.as_slice(), names))
    }
}


/// The paths, relative to `t`, of `t` and every element below it, in
/// preorder: each node before its children, children in order.
pub open spec fn tree_paths(t: GreenTree) -> Seq<Seq<usize>>
    decreases t,
{
    match t {
        GreenTree::Token { .. } => seq![Seq::empty()],
        GreenTree::Node { children, .. } => seq![Seq::<usize>::empty()] + forest_paths(children),
    }
}

/// The paths, relative to a node with children `cs`, of every element below
/// it, in preorder.
pub open spec fn forest_paths(cs: Seq<GreenTree>) -> Seq<Seq<usize>>
    decreases cs,
{
    if cs.len() == 0 {
        Seq::empty()
    } else {
        forest_paths(cs.drop_last()) + tree_paths(cs.last()).map_values(
            |p: Seq<usize>| seq![(cs.len() - 1) as usize] + p,
        )
    }
}

/// Whether `l` is the line of `e`, an element at `start` lying at `depth`:
/// its kind, its range, and its bytes where it is a token.
pub open spec fn line_of(l: LineModel, e: GreenTree, start: nat, depth: int) -> bool {
    &&& l.depth == depth
    &&& l.kind == tree_kind(e)
    &&& l.start == start
    &&& l.end == start + tree_bytes(e).len()
    &&& l.data == match e {
        GreenTree::Token { data, .. } => Some(data),
        GreenTree::Node { .. } => None::<Seq<u8>>,
    }
}

/// Going down to child `j` of a node and then along `q` is going along the
/// path `j` followed by `q`.
proof fn lemma_child_path(kind: u32, cs: Seq<GreenTree>, j: int, q: Seq<usize>)
    requires
        0 <= j < cs.len(),
        j <= usize::MAX,
    ensures
        elem_at(GreenTree::Node { kind, children: cs }, seq![j as usize] + q) == elem_at(cs[j], q),
        offset_of(GreenTree::Node { kind, children: cs }, seq![j as usize] + q) == forest_bytes(cs.take(j)).len()
            + offset_of(cs[j], q),
{
    let root = GreenTree::Node { kind, children: cs };
    let a = seq![j as usize];
    assert(a.drop_last() =~= Seq::<usize>::empty());
    assert(valid_path(root, Seq::<usize>::empty()));
    assert(elem_at(root, Seq::<usize>::empty()) == root);
    assert(offset_of(root, Seq::<usize>::empty()) == 0);
    assert(valid_path(root, a));
    assert(elem_at(root, a) == cs[j]);
    lemma_path_append(root, a, q);
}

/// The rendering of a tree has one line for each element, in preorder: the
/// line of the element at path `p` shows that element's kind, its range (from
/// `offset` on) and its bytes where it is a token, and lies as deep as `p` is
/// long below `depth`, one level below the line of its parent.
pub proof fn lemma_tree_lines_are_elements(t: GreenTree, offset: nat, depth: nat)
    requires
        depth + tree_paths(t).len() <= usize::MAX,
    ensures
        tree_lines(t, offset, depth).len() == tree_paths(t).len(),
        forall|i: int|
            0 <= i < tree_paths(t).len() ==> line_of(
                #[trigger] tree_lines(t, offset, depth)[i],
                elem_at(t, tree_paths(t)[i]),
                offset + offset_of(t, tree_paths(t)[i]),
                depth + tree_paths(t)[i].len() as int,
            ),
    decreases t,
{
    let e0 = Seq::<usize>::empty();
    assert(elem_at(t, e0) == t);
    assert(offset_of(t, e0) == 0);
    match t {
        GreenTree::Token { .. } => {},
        GreenTree::Node { kind, children } => {
            lemma_forest_lines_are_elements(kind, children, offset, depth + 1);
            let fl = forest_lines(children, offset, depth + 1);
            let fp = forest_paths(children);
            assert(deeper(depth) == depth + 1);
            let head = seq![LineModel { depth, kind, start: offset, end: offset + forest_bytes(children).len(), data: None }];
            assert(tree_lines(t, offset, depth) == head + fl);
            assert(tree_paths(t) == seq![e0] + fp);
            assert forall|i: int| 0 <= i < tree_paths(t).len() implies line_of(
                #[trigger] tree_lines(t, offset, depth)[i],
                elem_at(t, tree_paths(t)[i]),
                offset + offset_of(t, tree_paths(t)[i]),
                depth + tree_paths(t)[i].len() as int,
            ) by {
                if i > 0 {
                    assert(tree_lines(t, offset, depth)[i] == fl[i - 1]);
                    assert(tree_paths(t)[i] == fp[i - 1]);
                } else {
                    assert(tree_paths(t)[0] == e0);
                    assert(tree_lines(t, offset, depth)[0] == head[0]);
                }
            }
        },
    }
}

/// The lines of the children `cs` of a node of kind `kind`, at `depth`, are
/// those of the elements below the node, in preorder, one level less deep
/// than their paths from the node are long.
proof fn lemma_forest_lines_are_elements(kind: u32, cs: Seq<GreenTree>, offset: nat, depth: nat)
    requires
        depth + forest_paths(cs).len() <= usize::MAX,
    ensures
        forest_paths(cs).len() >= cs.len(),
        forest_lines(cs, offset, depth).len() == forest_paths(cs).len(),
        forall|i: int|
            0 <= i < forest_paths(cs).len() ==> line_of(
                #[trigger] forest_lines(cs, offset, depth)[i],
                elem_at(GreenTree::Node { kind, children: cs }, forest_paths(cs)[i]),
                offset + offset_of(GreenTree::Node { kind, children: cs }, forest_paths(cs)[i]),
                depth + forest_paths(cs)[i].len() - 1,
            ),
    decreases cs,
{
    if cs.len() > 0 {
        let init = cs.drop_last();
        let last = cs.last();
        let j = cs.len() - 1;
        let a = forest_paths(init);
        let tp = tree_paths(last);
        let b = tp.map_values(|p: Seq<usize>| seq![j as usize] + p);
        assert(forest_paths(cs) == a + b);
        lemma_forest_lines_are_elements(kind, init, offset, depth);
        let o2 = offset + forest_bytes(init).len();
        lemma_tree_lines_are_elements(last, o2, depth);
        let la = forest_lines(init, offset, depth);
        let lb = tree_lines(last, o2, depth);
        assert(forest_lines(cs, offset, depth) == la + lb);
        let root = GreenTree::Node { kind, children: cs };
        let root0 = GreenTree::Node { kind, children: init };
        assert(init =~= cs.take(j));
        assert forall|i: int| 0 <= i < forest_paths(cs).len() implies line_of(
            #[trigger] forest_lines(cs, offset, depth)[i],
            elem_at(root, forest_paths(cs)[i]),
            offset + offset_of(root, forest_paths(cs)[i]),
            depth + forest_paths(cs)[i].len() - 1,
        ) by {
            if i < a.len() {
                assert(forest_lines(cs, offset, depth)[i] == la[i]);
                assert(forest_paths(cs)[i] == a[i]);
                let (k, q) = lemma_forest_paths_split(init, i);
                lemma_child_path(kind, init, k, q);
                lemma_child_path(kind, cs, k, q);
                assert(init[k] == cs[k]);
                assert(init.take(k) =~= cs.take(k));
            } else {
                let m = i - a.len();
                assert(forest_lines(cs, offset, depth)[i] == lb[m]);
                assert(forest_paths(cs)[i] == b[m]);
                assert(b[m] == seq![j as usize] + tp[m]);
                lemma_child_path(kind, cs, j, tp[m]);
            }
        }
    }
}

/// Every path of the elements below a node with children `cs` starts at one
/// of its children: the child's index and the rest of the path.
proof fn lemma_forest_paths_split(cs: Seq<GreenTree>, i: int) -> (r: (int, Seq<usize>))
    requires
        0 <= i < forest_paths(cs).len(),
    ensures
        0 <= r.0 < cs.len(),
        forest_paths(cs)[i] == seq![r.0 as usize] + r.1,
    decreases cs,
{
    let init = cs.drop_last();
    let j = cs.len() - 1;
    let a = forest_paths(init);
    let b = tree_paths(cs.last()).map_values(|p: Seq<usize>| seq![j as usize] + p);
    assert(forest_paths(cs) == a + b);
    if i < a.len() {
        let r = lemma_forest_paths_split(init, i);
        assert(forest_paths(cs)[i] == a[i]);
        r
    } else {
        let q = tree_paths(cs.last())[i - a.len()];
        assert(forest_paths(cs)[i] == seq![j as usize] + q);
        (j, q)
    }
}

} // verus!
