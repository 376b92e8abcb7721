//! The bytes and the UTF-8 text covered by a syntax node, as chunks of its tokens.

use vstd::prelude::*;
use vstd::std_specs::cmp::PartialEqSpecImpl;
use vstd::string::{StrSliceExecFns, StringExecFns, StringSliceAdditionalSpecFns};
use vstd::utf8::{
    decode_utf8, decode_utf8_encode_utf8, encode_utf8, encode_utf8_decode_utf8, encode_utf8_valid_utf8, is_char_boundary,
    is_char_boundary_iff_not_is_continuation_byte, is_char_boundary_start_end_of_seq, is_continuation_byte, valid_utf8,
    valid_utf8_split,
};

use crate::display::{bytes_debug, push_bytes_debug, str_debug, str_debug_chars};
use crate::green::{chunk_views, lemma_leaves_bytes, tree_bytes, tree_leaves};
use crate::kind::Syntax;
use crate::syntax::node::{elem_at, lemma_elem_within, offset_of, position_range, Position, SyntaxNode};
use crate::syntax::zip::zip_chunks;
use crate::text::{TextRange, TextSize};
use crate::utf8::{char_len_utf8, lemma_encode_append, lemma_str_chars, str_contains_char, str_find_char, str_from_utf8};

verus! {

pub open spec fn max_int(a: int, b: int) -> int {
    if a >= b { a } else { b }
}

pub open spec fn min_int(a: int, b: int) -> int {
    if a <= b { a } else { b }
}

/// `x` limited to `0..=n`.
pub open spec fn clamp(x: int, n: int) -> int {
    min_int(max_int(x, 0), n)
}

/// The parts of the token byte strings `leaves`, laid out from offset `base`,
/// that fall inside `lo..hi`: one chunk for every token whose range overlaps
/// or touches `lo..hi`, in order.
pub open spec fn clip_chunks(leaves: Seq<Seq<u8>>, base: int, lo: int, hi: int) -> Seq<Seq<u8>>
    decreases leaves.len(),
{
    if leaves.len() == 0 {
        Seq::empty()
    } else {
        let prev = clip_chunks(leaves.drop_last(), base, lo, hi);
        let ts = base + leaves.drop_last().flatten_alt().len();
        let te = ts + leaves.last().len();
        let s = max_int(lo, ts);
        let e = min_int(hi, te);
        if s <= e {
            prev.push(leaves.last().subrange(s - ts, e - ts))
        } else {
            prev
        }
    }
}

/// Slicing a concatenation at `a..b` slices each part.
proof fn lemma_subrange_of_append(t: Seq<u8>, x: Seq<u8>, a: int, b: int)
    requires
        0 <= a <= b <= t.len() + x.len(),
    ensures
        (t + x).subrange(a, b) == t.subrange(min_int(a, t.len() as int), min_int(b, t.len() as int)) + x.subrange(
            max_int(a, t.len() as int) - t.len(),
            max_int(b, t.len() as int) - t.len(),
        ),
{
    assert((t + x).subrange(a, b) =~= t.subrange(min_int(a, t.len() as int), min_int(b, t.len() as int)) + x.subrange(
        max_int(a, t.len() as int) - t.len(),
        max_int(b, t.len() as int) - t.len(),
    ));
}

/// The chunks of the tokens inside `lo..hi`, concatenated, are exactly the
/// bytes of `lo..hi` (clamped to the bytes the tokens cover).
pub proof fn lemma_clip_chunks_concat(leaves: Seq<Seq<u8>>, base: int, lo: int, hi: int)
    requires
        lo <= hi,
    ensures
        clip_chunks(leaves, base, lo, hi).flatten_alt() == leaves.flatten_alt().subrange(
            clamp(lo - base, leaves.flatten_alt().len() as int),
            clamp(hi - base, leaves.flatten_alt().len() as int),
        ),
    decreases leaves.len(),
{
    if leaves.len() == 0 {
        assert(leaves.flatten_alt().subrange(0, 0) =~= Seq::<u8>::empty());
    } else {
        let d = leaves.drop_last();
        let x = leaves.last();
        let t = d.flatten_alt();
        let n = t.len() as int;
        lemma_clip_chunks_concat(d, base, lo, hi);
        let total = n + x.len();
        assert(leaves.flatten_alt() == t + x);
        let a = clamp(lo - base, total);
        let b = clamp(hi - base, total);
        lemma_subrange_of_append(t, x, a, b);
        let prev = clip_chunks(d, base, lo, hi);
        let ts = base + n;
        let te = ts + x.len();
        let s = max_int(lo, ts);
        let e = min_int(hi, te);
        if s <= e {
            let c = x.subrange(s - ts, e - ts);
            assert(prev.push(c).drop_last() =~= prev);
            assert(x.subrange(max_int(a, n) - n, max_int(b, n) - n) =~= c);
        } else {
            assert(x.subrange(max_int(a, n) - n, max_int(b, n) - n) =~= Seq::<u8>::empty());
        }
        assert(t.subrange(min_int(a, n), min_int(b, n)) =~= t.subrange(clamp(lo - base, n), clamp(hi - base, n)));
    }
}

/// The chunks of the node at `p` that fall inside `lo..hi`.
pub open spec fn node_chunks(p: Position, lo: int, hi: int) -> Seq<Seq<u8>> {
    clip_chunks(tree_leaves(elem_at(p.root, p.path)), offset_of(p.root, p.path) as int, lo, hi)
}

/// The bytes of the root at `lo..hi`.
pub open spec fn root_bytes(p: Position, lo: int, hi: int) -> Seq<u8> {
    tree_bytes(p.root).subrange(lo, hi)
}

/// Within a node's range, its chunks concatenate to the root's bytes there.
pub proof fn lemma_node_chunks_bytes(p: Position, lo: int, hi: int)
    requires
        crate::syntax::node::valid_path(p.root, p.path),
        position_range(p).0 <= lo <= hi <= position_range(p).1,
    ensures
        node_chunks(p, lo, hi).flatten_alt() == root_bytes(p, lo, hi),
{
    let e = elem_at(p.root, p.path);
    let base = offset_of(p.root, p.path) as int;
    lemma_leaves_bytes(e);
    lemma_clip_chunks_concat(tree_leaves(e), base, lo, hi);
    lemma_elem_within(p.root, p.path);
    assert(tree_bytes(e).subrange(lo - base, hi - base) =~= tree_bytes(p.root).subrange(lo, hi));
}

/// Cutting the chunks of `lo..hi` again at `lo2..hi2` keeps them valid UTF-8
/// where neither new cut falls on a continuation byte.
proof fn lemma_clip_valid(leaves: Seq<Seq<u8>>, base: int, lo: int, hi: int, lo2: int, hi2: int)
    requires
        base <= lo <= lo2 <= hi2 <= hi,
        all_valid_utf8(clip_chunks(leaves, base, lo, hi)),
        lo2 < hi && lo2 - base < leaves.flatten_alt().len() ==> !is_continuation_byte(
            leaves.flatten_alt()[lo2 - base],
        ),
        hi2 < hi && hi2 - base < leaves.flatten_alt().len() ==> !is_continuation_byte(
            leaves.flatten_alt()[hi2 - base],
        ),
    ensures
        all_valid_utf8(clip_chunks(leaves, base, lo2, hi2)),
    decreases leaves.len(),
{
    if leaves.len() > 0 {
        let d = leaves.drop_last();
        let x = leaves.last();
        let fd = d.flatten_alt();
        let fl = leaves.flatten_alt();
        assert(fl == fd + x);
        let whole = clip_chunks(leaves, base, lo, hi);
        let old_prev = clip_chunks(d, base, lo, hi);
        let ts = base + fd.len();
        let te = ts + x.len();
        let s = max_int(lo, ts);
        let e = min_int(hi, te);
        assert(all_valid_utf8(old_prev)) by {
            assert forall|i: int| 0 <= i < old_prev.len() implies valid_utf8(#[trigger] old_prev[i]) by {
                assert(whole[i] == old_prev[i]);
            }
        }
        assert(lo2 < hi && lo2 - base < fd.len() ==> !is_continuation_byte(fd[lo2 - base])) by {
            if lo2 < hi && lo2 - base < fd.len() {
                assert(fl[lo2 - base] == fd[lo2 - base]);
            }
        }
        assert(hi2 < hi && hi2 - base < fd.len() ==> !is_continuation_byte(fd[hi2 - base])) by {
            if hi2 < hi && hi2 - base < fd.len() {
                assert(fl[hi2 - base] == fd[hi2 - base]);
            }
        }
        lemma_clip_valid(d, base, lo, hi, lo2, hi2);
        let new_prev = clip_chunks(d, base, lo2, hi2);
        let s2 = max_int(lo2, ts);
        let e2 = min_int(hi2, te);
        if s2 <= e2 {
            let c = x.subrange(s - ts, e - ts);
            assert(whole == old_prev.push(c));
            assert(valid_utf8(c)) by {
                assert(whole[old_prev.len() as int] == c);
            }
            let j = e2 - s;
            assert(is_char_boundary(c, j)) by {
                is_char_boundary_start_end_of_seq(c);
                if j < c.len() {
                    assert(c[j] == fl[hi2 - base]);
                    is_char_boundary_iff_not_is_continuation_byte(c, j);
                }
            }
            valid_utf8_split(c, j);
            let c1 = c.subrange(0, j);
            let i = s2 - s;
            assert(is_char_boundary(c1, i)) by {
                is_char_boundary_start_end_of_seq(c1);
                if 0 < i < c1.len() {
                    assert(c1[i] == fl[lo2 - base]);
                    is_char_boundary_iff_not_is_continuation_byte(c1, i);
                }
            }
            valid_utf8_split(c1, i);
            let n = x.subrange(s2 - ts, e2 - ts);
            assert(n =~= c1.subrange(i, c1.len() as int));
            let now = clip_chunks(leaves, base, lo2, hi2);
            assert(now == new_prev.push(n));
            assert forall|k: int| 0 <= k < now.len() implies valid_utf8(#[trigger] now[k]) by {
                if k < new_prev.len() {
                    assert(now[k] == new_prev[k]);
                }
            }
        }
    }
}

/// Clips the token byte strings `leaves`, laid out from `base`, to `range`.
fn clip_leaves<'n>(leaves: &Vec<&'n [u8]>, base: TextSize, range: TextRange) -> (r: Vec<&'n [u8]>)
    requires
        range.wf(),
        base + chunk_views(leaves@).flatten_alt().len() <= u32::MAX,
    ensures
        chunk_views(r@) == clip_chunks(
            chunk_views(leaves@),
            base as int,
            range.spec_start() as int,
            range.spec_end() as int,
        ),
{
    let ghost ls = chunk_views(leaves@);
    let mut out: Vec<&'n [u8]> = Vec::new();
    let mut ts: TextSize = base;
    let mut i: usize = 0;
    proof {
        assert(ls.take(0) =~= Seq::<Seq<u8>>::empty());
        assert(chunk_views(out@) =~= Seq::<Seq<u8>>::empty());
    }
    while i < leaves.len()
        invariant
            i <= leaves@.len(),
            range.wf(),
            ls == chunk_views(leaves@),
            base + ls.flatten_alt().len() <= u32::MAX,
            ts == base + ls.take(i as int).flatten_alt().len(),
            chunk_views(out@) == clip_chunks(ls.take(i as int), base as int, range.spec_start() as int, range.spec_end() as int),
        decreases leaves@.len() - i,
    {
        let leaf = leaves[i];
        proof {
            assert(ls.take(i + 1).drop_last() =~= ls.take(i as int));
            assert(ls.take(i + 1).last() == leaf@);
            assert(ls =~= ls.take(i + 1) + ls.skip(i + 1));
            vstd::seq_lib::lemma_flatten_alt_concat(ls.take(i + 1), ls.skip(i + 1));
        }
        let te_len = leaf.len() as u32;
        let token_range = TextRange::at(ts, te_len);
        let ghost before = chunk_views(out@);
        match range.intersect(token_range) {
            Some(hit) => {
                let s = (hit.start() - ts) as usize;
                let e = (hit.end() - ts) as usize;
                let chunk = vstd::slice::slice_subrange(leaf, s, e);
                out.push(chunk);
                proof {
                    assert(chunk_views(out@) =~= before.push(chunk@));
                }
            },
            None => {},
        }
        ts = ts + te_len;
        i = i + 1;
    }
    proof {
        assert(ls.take(leaves@.len() as int) =~= ls);
    }
    out
}

/// The chunks of `node` inside `range`: for every token of the node whose
/// range overlaps or touches `range`, its bytes inside `range`.
fn node_chunk_slices<'n, S: Syntax>(node: &'n SyntaxNode<S>, range: TextRange) -> (r: Vec<&'n [u8]>)
    requires
        range.wf(),
    ensures
        chunk_views(r@) == node_chunks(node@, range.spec_start() as int, range.spec_end() as int),
{
    let green = node.green();
    let base = node.text_range().start();
    let mut leaves: Vec<&'n [u8]> = Vec::new();
    green.push_leaves(&mut leaves);
    proof {
        assert(chunk_views(Seq::<&[u8]>::empty()) =~= Seq::<Seq<u8>>::empty());
        assert(chunk_views(leaves@) =~= tree_leaves(green@));
        lemma_leaves_bytes(green@);
        lemma_elem_within(node@.root, node@.path);
    }
    clip_leaves(&leaves, base, range)
}

/// Every chunk is valid UTF-8.
pub open spec fn all_valid_utf8(cs: Seq<Seq<u8>>) -> bool {
    forall|i: int| 0 <= i < cs.len() ==> valid_utf8(#[trigger] cs[i])
}

/// The characters of UTF-8 chunks, decoded chunk by chunk and concatenated.
pub open spec fn text_chars(cs: Seq<Seq<u8>>) -> Seq<char>
    decreases cs.len(),
{
    if cs.len() == 0 {
        Seq::empty()
    } else {
        text_chars(cs.drop_last()) + decode_utf8(cs.last())
    }
}

/// The byte strings that a sequence of string slices holds.
pub open spec fn str_views(ss: Seq<&str>) -> Seq<Seq<u8>> {
    ss.map_values(|s: &str| s.spec_bytes())
}

pub proof fn lemma_text_chars_push(cs: Seq<Seq<u8>>, c: Seq<u8>)
    ensures
        text_chars(cs.push(c)) == text_chars(cs) + decode_utf8(c),
{
    assert(cs.push(c).drop_last() =~= cs);
}

pub proof fn lemma_text_chars_append(a: Seq<Seq<u8>>, b: Seq<Seq<u8>>)
    ensures
        text_chars(a + b) == text_chars(a) + text_chars(b),
    decreases b.len(),
{
    if b.len() == 0 {
        assert(a + b =~= a);
        assert(text_chars(a) + text_chars(b) =~= text_chars(a));
    } else {
        lemma_text_chars_append(a, b.drop_last());
        assert((a + b).drop_last() =~= a + b.drop_last());
        assert(text_chars(a) + text_chars(b.drop_last()) + decode_utf8(b.last()) =~= text_chars(a) + (text_chars(b.drop_last()) + decode_utf8(b.last())));
    }
}

/// The characters of valid chunks encode back to their bytes.
pub proof fn lemma_text_chars_encode(cs: Seq<Seq<u8>>)
    requires
        all_valid_utf8(cs),
    ensures
        encode_utf8(text_chars(cs)) == cs.flatten_alt(),
    decreases cs.len(),
{
    if cs.len() > 0 {
        assert(all_valid_utf8(cs.drop_last())) by {
            assert forall|i: int| 0 <= i < cs.drop_last().len() implies valid_utf8(#[trigger] cs.drop_last()[i]) by {
                assert(cs.drop_last()[i] == cs[i]);
            }
        }
        lemma_text_chars_encode(cs.drop_last());
        assert(valid_utf8(cs[cs.len() - 1]));
        decode_utf8_encode_utf8(cs.last());
        lemma_encode_append(text_chars(cs.drop_last()), decode_utf8(cs.last()));
    }
}

/// The characters of a text's valid chunks are the UTF-8 decoding of all its bytes.
pub proof fn lemma_text_chars_decode(cs: Seq<Seq<u8>>)
    requires
        all_valid_utf8(cs),
    ensures
        valid_utf8(cs.flatten_alt()),
        text_chars(cs) == decode_utf8(cs.flatten_alt()),
{
    lemma_text_chars_encode(cs);
    encode_utf8_decode_utf8(text_chars(cs));
    encode_utf8_valid_utf8(text_chars(cs));
}

/// The byte offset at which the `k`-th character of `chars` starts.
pub open spec fn char_start(chars: Seq<char>, k: int) -> int {
    encode_utf8(chars.take(k)).len() as int
}

/// Each character takes at least one byte, so characters start at strictly
/// increasing offsets, and the last one starts before the end.
pub proof fn lemma_char_start_increases(chars: Seq<char>, j: int, k: int)
    requires
        0 <= j < k <= chars.len(),
    ensures
        char_start(chars, j) < char_start(chars, k),
    decreases k - j,
{
    let one = seq![chars[k - 1]];
    assert(chars.take(k) =~= chars.take(k - 1) + one);
    lemma_encode_append(chars.take(k - 1), one);
    assert(one.drop_first() =~= Seq::<char>::empty());
    assert(encode_utf8(one).len() >= 1);
    if j < k - 1 {
        lemma_char_start_increases(chars, j, k - 1);
    }
}

/// Where the first `c` of a text starts, as `find_char` reports it, the
/// character at or after that offset, as `char_at` reports it, is `c`.
pub proof fn lemma_found_char_is_at(chars: Seq<char>, c: char, k: int)
    requires
        0 <= k < chars.len(),
        chars[k] == c,
        forall|j: int| 0 <= j < k ==> chars[j] != c,
    ensures
        char_start(chars, k) < encode_utf8(chars).len(),
        forall|k2: int|
            0 <= k2 < chars.len() && char_start(chars, k2) >= char_start(chars, k) && (forall|j: int|
                0 <= j < k2 ==> char_start(chars, j) < char_start(chars, k)) ==> #[trigger] chars[k2] == c,
{
    lemma_char_start_increases(chars, k, chars.len() as int);
    assert(chars.take(chars.len() as int) =~= chars);
    assert forall|k2: int|
        0 <= k2 < chars.len() && char_start(chars, k2) >= char_start(chars, k) && (forall|j: int|
            0 <= j < k2 ==> char_start(chars, j) < char_start(chars, k)) implies #[trigger] chars[k2] == c by {
        if k2 < k {
            lemma_char_start_increases(chars, k2, k);
        } else if k2 > k {
            assert(char_start(chars, k) < char_start(chars, k));
        }
    }
}

/// A run of `f` over `chunks`, starting from `init`: `accs` holds the
/// accumulator before each call, each call returned the next accumulator, and
/// the run stopped at the first error or after the last chunk with `r`.
pub open spec fn try_fold_run<T, E, C, F: FnMut(T, C) -> Result<T, E>>(
    f: F,
    init: T,
    chunks: Seq<C>,
    accs: Seq<T>,
    r: Result<T, E>,
) -> bool {
    &&& 1 <= accs.len() <= chunks.len() + 1
    &&& accs[0] == init
    &&& forall|i: int| 0 <= i < accs.len() - 1 ==> call_ensures(f, (#[trigger] accs[i], chunks[i]), Ok::<T, E>(accs[i + 1]))
    &&& match r {
        Ok(v) => accs.len() == chunks.len() + 1 && v == accs.last(),
        Err(_) => accs.len() <= chunks.len() && call_ensures(f, (accs.last(), chunks[accs.len() - 1]), r),
    }
}

/// A run of `f` over all `chunks`, starting from `init`, ending with `r`.
pub open spec fn fold_run<T, C, F: FnMut(T, C) -> T>(f: F, init: T, chunks: Seq<C>, accs: Seq<T>, r: T) -> bool {
    &&& accs.len() == chunks.len() + 1
    &&& accs[0] == init
    &&& forall|i: int| 0 <= i < chunks.len() ==> call_ensures(f, (#[trigger] accs[i], chunks[i]), accs[i + 1])
    &&& r == accs.last()
}

/// A run of `f` over `chunks` in order, stopping at the first error, which is `r`.
pub open spec fn try_each_run<E, C, F: FnMut(C) -> Result<(), E>>(f: F, chunks: Seq<C>, n: int, r: Result<(), E>) -> bool {
    &&& 0 <= n <= chunks.len()
    &&& forall|i: int| 0 <= i < n ==> call_ensures(f, (#[trigger] chunks[i],), Ok::<(), E>(()))
    &&& match r {
        Ok(_) => n == chunks.len(),
        Err(_) => n < chunks.len() && call_ensures(f, (chunks[n],), r),
    }
}

/// A run of `f` over all `chunks` in order.
pub open spec fn each_run<C, F: FnMut(C)>(f: F, chunks: Seq<C>) -> bool {
    forall|i: int| 0 <= i < chunks.len() ==> call_ensures(f, (#[trigger] chunks[i],), ())
}

/// Where the requested sub-range of a text starts and ends, relative to the text.
pub trait SyntaxTextRange {
    /// The requested start, or `None` for the start of the text.
    spec fn spec_range_start(&self) -> Option<TextSize>;

    /// The requested end, or `None` for the end of the text.
    spec fn spec_range_end(&self) -> Option<TextSize>;

    fn start(&self) -> (r: Option<TextSize>)
        ensures
            r == self.spec_range_start(),
    ;

    fn end(&self) -> (r: Option<TextSize>)
        ensures
            r == self.spec_range_end(),
    ;
}

impl SyntaxTextRange for TextRange {
    open spec fn spec_range_start(&self) -> Option<TextSize> {
        Some(self.spec_start() as TextSize)
    }

    open spec fn spec_range_end(&self) -> Option<TextSize> {
        Some(self.spec_end() as TextSize)
    }

    fn start(&self) -> (r: Option<TextSize>) {
        Some(TextRange::start(self))
    }

    fn end(&self) -> (r: Option<TextSize>) {
        Some(TextRange::end(self))
    }
}

impl SyntaxTextRange for core::ops::Range<TextSize> {
    open spec fn spec_range_start(&self) -> Option<TextSize> {
        Some(self.start)
    }

    open spec fn spec_range_end(&self) -> Option<TextSize> {
        Some(self.end)
    }

    fn start(&self) -> (r: Option<TextSize>) {
        Some(self.start)
    }

    fn end(&self) -> (r: Option<TextSize>) {
        Some(self.end)
    }
}

/// The full range `..`, which std's `core::ops` defines.
#[verifier::external_type_specification]
#[verifier::external_body]
pub struct ExRangeFull(core::ops::RangeFull);

impl SyntaxTextRange for core::ops::RangeFull {
    open spec fn spec_range_start(&self) -> Option<TextSize> {
        None
    }

    open spec fn spec_range_end(&self) -> Option<TextSize> {
        None
    }

    fn start(&self) -> (r: Option<TextSize>) {
        None
    }

    fn end(&self) -> (r: Option<TextSize>) {
        None
    }
}

/// The range `a..`, which std's `core::ops` defines with its one field,
/// `start`, public.
#[verifier::external_type_specification]
#[verifier::reject_recursive_types(Idx)]
pub struct ExRangeFrom<Idx>(core::ops::RangeFrom<Idx>);

/// The range `..b`, which std's `core::ops` defines with its one field,
/// `end`, public.
#[verifier::external_type_specification]
#[verifier::reject_recursive_types(Idx)]
pub struct ExRangeTo<Idx>(core::ops::RangeTo<Idx>);

impl SyntaxTextRange for core::ops::RangeFrom<TextSize> {
    open spec fn spec_range_start(&self) -> Option<TextSize> {
        Some(self.start)
    }

    open spec fn spec_range_end(&self) -> Option<TextSize> {
        None
    }

    fn start(&self) -> (r: Option<TextSize>) {
        Some(self.start)
    }

    fn end(&self) -> (r: Option<TextSize>) {
        None
    }
}

impl SyntaxTextRange for core::ops::RangeTo<TextSize> {
    open spec fn spec_range_start(&self) -> Option<TextSize> {
        None
    }

    open spec fn spec_range_end(&self) -> Option<TextSize> {
        Some(self.end)
    }

    fn start(&self) -> (r: Option<TextSize>) {
        None
    }

    fn end(&self) -> (r: Option<TextSize>) {
        Some(self.end)
    }
}

/// The sub-range of `lo..hi` that a [`SyntaxTextRange`] names, as absolute offsets.
pub open spec fn sub_range<Ra: SyntaxTextRange>(lo: nat, hi: nat, range: Ra) -> (int, int) {
    let start = match range.spec_range_start() {
        Some(s) => s as int,
        None => 0,
    };
    let end = match range.spec_range_end() {
        Some(e) => e as int,
        None => hi - lo,
    };
    (lo + start, lo + end)
}

/// A sub-range may be taken when it runs forwards and stays inside `lo..hi`.
pub open spec fn sub_range_allowed<Ra: SyntaxTextRange>(lo: nat, hi: nat, range: Ra) -> bool {
    let (s, e) = sub_range(lo, hi, range);
    s <= e <= hi
}

/// Slices compose: where `u` is the slice `a..b` of `t` and `v` the slice
/// `c..d` of `u`, `v` is the slice `a + c..a + d` of `t`, which may be taken.
pub proof fn lemma_slices_compose<'n, S: Syntax>(
    t: SyntaxText<'n, S>,
    u: SyntaxText<'n, S>,
    v: SyntaxText<'n, S>,
    a: TextSize,
    b: TextSize,
    c: TextSize,
    d: TextSize,
)
    requires
        sub_range_allowed(t.spec_lo(), t.spec_hi(), (core::ops::Range { start: a, end: b })),
        u.spec_node() == t.spec_node(),
        (u.spec_lo() as int, u.spec_hi() as int) == sub_range(t.spec_lo(), t.spec_hi(), (core::ops::Range { start: a, end: b })),
        sub_range_allowed(u.spec_lo(), u.spec_hi(), (core::ops::Range { start: c, end: d })),
        v.spec_node() == u.spec_node(),
        (v.spec_lo() as int, v.spec_hi() as int) == sub_range(u.spec_lo(), u.spec_hi(), (core::ops::Range { start: c, end: d })),
        t.spec_hi() <= u32::MAX,
    ensures
        a + d <= u32::MAX,
        sub_range_allowed(
            t.spec_lo(),
            t.spec_hi(),
            (core::ops::Range { start: (a + c) as TextSize, end: (a + d) as TextSize }),
        ),
        v.spec_node() == t.spec_node(),
        (v.spec_lo() as int, v.spec_hi() as int) == sub_range(
            t.spec_lo(),
            t.spec_hi(),
            (core::ops::Range { start: (a + c) as TextSize, end: (a + d) as TextSize }),
        ),
{
}

/// The bytes covered by a [`SyntaxNode`], or by a range inside it.
pub struct SyntaxData<'n, S: Syntax> {
    node: &'n SyntaxNode<S>,
    range: TextRange,
}

impl<'n, S: Syntax> Clone for SyntaxData<'n, S> {
    fn clone(&self) -> (r: Self)
        ensures
            r.spec_node() == self.spec_node(),
            r.spec_lo() == self.spec_lo(),
            r.spec_hi() == self.spec_hi(),
    {
        proof {
            use_type_invariant(self);
        }
        SyntaxData { node: self.node, range: self.range }
    }
}

impl<'n, S: Syntax> Copy for SyntaxData<'n, S> {

}

impl<'n, S: Syntax> SyntaxData<'n, S> {
    /// The node and the absolute range.
    pub(crate) fn parts(&self) -> (r: (&'n SyntaxNode<S>, TextRange))
        ensures
            r.0@ == self.spec_node(),
            r.1.spec_start() == self.spec_lo(),
            r.1.spec_end() == self.spec_hi(),
            r.1.wf(),
    {
        proof {
            use_type_invariant(self);
        }
        (self.node, self.range)
    }
}

impl<'n, S: Syntax> SyntaxData<'n, S> {
    #[verifier::type_invariant]
    spec fn inv(self) -> bool {
        &&& self.range.wf()
        &&& position_range(self.node@).0 <= self.range.spec_start()
        &&& self.range.spec_end() <= position_range(self.node@).1
        &&& crate::syntax::node::valid_path(self.node@.root, self.node@.path)
        &&& tree_bytes(self.node@.root).len() <= u32::MAX
    }

    /// The node whose bytes these are.
    pub closed spec fn spec_node(&self) -> Position {
        self.node@
    }

    /// The absolute start of the range.
    pub closed spec fn spec_lo(&self) -> nat {
        self.range.spec_start() as nat
    }

    /// The absolute end of the range.
    pub closed spec fn spec_hi(&self) -> nat {
        self.range.spec_end() as nat
    }

    /// The chunks: for each token of the node overlapping or touching the range,
    /// its bytes inside the range.
    pub open spec fn spec_chunks(&self) -> Seq<Seq<u8>> {
        node_chunks(self.spec_node(), self.spec_lo() as int, self.spec_hi() as int)
    }

    /// The bytes of the root inside the range.
    pub open spec fn spec_bytes(&self) -> Seq<u8> {
        root_bytes(self.spec_node(), self.spec_lo() as int, self.spec_hi() as int)
    }

    /// The bytes of `node`.
    pub fn new(node: &'n SyntaxNode<S>) -> (d: Self)
        ensures
            d.spec_node() == node@,
            d.spec_lo() == position_range(node@).0,
            d.spec_hi() == position_range(node@).1,
    {
        let range = node.text_range();
        let _ = node.green();
        SyntaxData { node, range }
    }

    /// The chunks concatenate to the bytes of the range.
    pub fn lemma_chunks_are_bytes(&self)
        ensures
            self.spec_chunks().flatten_alt() == self.spec_bytes(),
            self.spec_bytes().len() == self.spec_hi() - self.spec_lo(),
    {
        proof {
            use_type_invariant(self);
            lemma_node_chunks_bytes(self.spec_node(), self.spec_lo() as int, self.spec_hi() as int);
            lemma_elem_within(self.spec_node().root, self.spec_node().path);
        }
    }

    /// The combined length of the data, in bytes.
    pub fn len(&self) -> (n: TextSize)
        ensures
            n == self.spec_hi() - self.spec_lo(),
    {
        proof {
            use_type_invariant(self);
        }
        self.range.len()
    }

    /// Whether the data is empty.
    pub fn is_empty(&self) -> (b: bool)
        ensures
            b == (self.spec_hi() == self.spec_lo()),
    {
        self.range.is_empty()
    }

    /// The data in the given byte range, relative to the start of this data.
    pub fn slice<Ra: SyntaxTextRange>(&self, range: Ra) -> (d: Self)
        requires
            sub_range_allowed(self.spec_lo(), self.spec_hi(), range),
        ensures
            d.spec_node() == self.spec_node(),
            d.spec_lo() == sub_range(self.spec_lo(), self.spec_hi(), range).0,
            d.spec_hi() == sub_range(self.spec_lo(), self.spec_hi(), range).1,
            d.spec_bytes() == self.spec_bytes().subrange(d.spec_lo() - self.spec_lo(), d.spec_hi() - self.spec_lo()),
    {
        proof {
            use_type_invariant(self);
            lemma_elem_within(self.spec_node().root, self.spec_node().path);
        }
        let start = match range.start() {
            Some(s) => s,
            None => 0,
        };
        let end = match range.end() {
            Some(e) => e,
            None => self.len(),
        };
        assert(self.range.spec_start() + end <= self.range.spec_end());
        let len = end - start;
        let start = self.range.start() + start;
        let end = start + len;
        let range = TextRange::new(start, end);
        let d = SyntaxData { node: self.node, range };
        proof {
            assert(d.spec_bytes() =~= self.spec_bytes().subrange(d.spec_lo() - self.spec_lo(), d.spec_hi() - self.spec_lo()));
        }
        d
    }

    fn chunk_slices(&self) -> (r: Vec<&'n [u8]>)
        ensures
            chunk_views(r@) == self.spec_chunks(),
    {
        proof {
            use_type_invariant(self);
        }
        node_chunk_slices(self.node, self.range)
    }

    /// Applies `f` to the byte chunks in order, threading an accumulator,
    /// until `f` fails.
    #[verifier::loop_isolation(false)]
    pub fn try_fold_chunks<T, F, E>(&self, init: T, mut f: F) -> (r: Result<T, E>)
        where
            F: FnMut(T, &[u8]) -> Result<T, E>,
        requires
            forall|acc: T, chunk: &[u8]| #[trigger] call_requires(f, (acc, chunk)),
        ensures
            exists|cs: Seq<&[u8]>, accs: Seq<T>|
                #![trigger try_fold_run(f, init, cs, accs, r)]
                chunk_views(cs) == self.spec_chunks() && try_fold_run(f, init, cs, accs, r),
    {
        let chunks = self.chunk_slices();
        let ghost f0 = f;
        let mut acc = init;
        let ghost accs: Seq<T> = seq![init];
        let mut i: usize = 0;
        while i < chunks.len()
            invariant
                i <= chunks@.len(),
                f == f0,
                chunk_views(chunks@) == self.spec_chunks(),
                forall|acc: T, chunk: &[u8]| #[trigger] call_requires(f, (acc, chunk)),
                accs.len() == i + 1,
                accs[0] == init,
                acc == accs.last(),
                forall|k: int| 0 <= k < i ==> call_ensures(f, (#[trigger] accs[k], chunks@[k]), Ok::<T, E>(accs[k + 1])),
            decreases chunks@.len() - i,
        {
            let res = f(acc, chunks[i]);
            match res {
                Ok(v) => {
                    proof {
                        accs = accs.push(v);
                    }
                    acc = v;
                },
                Err(e) => {
                    proof {
                        assert(try_fold_run(f, init, chunks@, accs, Err::<T, E>(e)));
                    }
                    return Err(e);
                },
            }
            i = i + 1;
        }
        proof {
            assert(try_fold_run(f, init, chunks@, accs, Ok::<T, E>(acc)));
        }
        Ok(acc)
    }

    /// Applies `f` to all byte chunks in order, threading an accumulator.
    pub fn fold_chunks<T, F>(&self, init: T, mut f: F) -> (r: T)
        where
            F: FnMut(T, &[u8]) -> T,
        requires
            forall|acc: T, chunk: &[u8]| #[trigger] call_requires(f, (acc, chunk)),
        ensures
            exists|cs: Seq<&[u8]>, accs: Seq<T>|
                #![trigger fold_run(f, init, cs, accs, r)]
                chunk_views(cs) == self.spec_chunks() && fold_run(f, init, cs, accs, r),
    {
        let chunks = self.chunk_slices();
        let ghost f0 = f;
        let mut acc = init;
        let ghost accs: Seq<T> = seq![init];
        let mut i: usize = 0;
        while i < chunks.len()
            invariant
                i <= chunks@.len(),
                f == f0,
                chunk_views(chunks@) == self.spec_chunks(),
                forall|acc: T, chunk: &[u8]| #[trigger] call_requires(f, (acc, chunk)),
                accs.len() == i + 1,
                accs[0] == init,
                acc == accs.last(),
                forall|k: int| 0 <= k < i ==> call_ensures(f, (#[trigger] accs[k], chunks@[k]), accs[k + 1]),
            decreases chunks@.len() - i,
        {
            let v = f(acc, chunks[i]);
            proof {
                accs = accs.push(v);
            }
            acc = v;
            i = i + 1;
        }
        proof {
            assert(fold_run(f, init, chunks@, accs, acc));
        }
        acc
    }

    /// Applies `f` to the byte chunks in order until it fails.
    #[verifier::loop_isolation(false)]
    pub fn try_for_each_chunk<F, E>(&self, mut f: F) -> (r: Result<(), E>)
        where
            F: FnMut(&[u8]) -> Result<(), E>,
        requires
            forall|chunk: &[u8]| #[trigger] call_requires(f, (chunk,)),
        ensures
            exists|cs: Seq<&[u8]>, n: int|
                #![trigger try_each_run(f, cs, n, r)]
                chunk_views(cs) == self.spec_chunks() && try_each_run(f, cs, n, r),
    {
        let chunks = self.chunk_slices();
        let ghost f0 = f;
        let mut i: usize = 0;
        while i < chunks.len()
            invariant
                i <= chunks@.len(),
                f == f0,
                chunk_views(chunks@) == self.spec_chunks(),
                forall|chunk: &[u8]| #[trigger] call_requires(f, (chunk,)),
                forall|k: int| 0 <= k < i ==> call_ensures(f, (#[trigger] chunks@[k],), Ok::<(), E>(())),
            decreases chunks@.len() - i,
        {
            let res = f(chunks[i]);
            match res {
                Ok(u) => {
                    proof {
                        assert(res == Ok::<(), E>(()));
                    }
                },
                Err(e) => {
                    proof {
                        assert(try_each_run(f, chunks@, i as int, Err::<(), E>(e)));
                    }
                    return Err(e);
                },
            }
            i = i + 1;
        }
        proof {
            assert(try_each_run(f, chunks@, i as int, Ok::<(), E>(())));
        }
        Ok(())
    }

    /// Applies `f` to all byte chunks in order.
    pub fn for_each_chunk<F>(&self, mut f: F)
        where
            F: FnMut(&[u8]),
        requires
            forall|chunk: &[u8]| #[trigger] call_requires(f, (chunk,)),
        ensures
            exists|cs: Seq<&[u8]>|
                #![trigger each_run(f, cs)]
                chunk_views(cs) == self.spec_chunks() && each_run(f, cs),
    {
        let chunks = self.chunk_slices();
        let ghost f0 = f;
        let mut i: usize = 0;
        while i < chunks.len()
            invariant
                i <= chunks@.len(),
                f == f0,
                chunk_views(chunks@) == self.spec_chunks(),
                forall|chunk: &[u8]| #[trigger] call_requires(f, (chunk,)),
                forall|k: int| 0 <= k < i ==> call_ensures(f, (#[trigger] chunks@[k],), ()),
            decreases chunks@.len() - i,
        {
            f(chunks[i]);
            i = i + 1;
        }
        proof {
            assert(each_run(f, chunks@));
        }
    }
}

/// The UTF-8 text covered by a [`SyntaxNode`], or by a range inside it.
pub struct SyntaxText<'n, S: Syntax> {
    node: &'n SyntaxNode<S>,
    range: TextRange,
}

impl<'n, S: Syntax> Clone for SyntaxText<'n, S> {
    fn clone(&self) -> (r: Self)
        ensures
            r.spec_node() == self.spec_node(),
            r.spec_lo() == self.spec_lo(),
            r.spec_hi() == self.spec_hi(),
    {
        proof {
            use_type_invariant(self);
        }
        SyntaxText { node: self.node, range: self.range }
    }
}

impl<'n, S: Syntax> Copy for SyntaxText<'n, S> {

}

impl<'n, S: Syntax> SyntaxText<'n, S> {
    /// The node and the absolute range.
    pub(crate) fn parts(&self) -> (r: (&'n SyntaxNode<S>, TextRange))
        ensures
            r.0@ == self.spec_node(),
            r.1.spec_start() == self.spec_lo(),
            r.1.spec_end() == self.spec_hi(),
            r.1.wf(),
    {
        proof {
            use_type_invariant(self);
        }
        (self.node, self.range)
    }
}

impl<'n, S: Syntax> SyntaxText<'n, S> {
    #[verifier::type_invariant]
    spec fn inv(self) -> bool {
        &&& self.range.wf()
        &&& position_range(self.node@).0 <= self.range.spec_start()
        &&& self.range.spec_end() <= position_range(self.node@).1
        &&& crate::syntax::node::valid_path(self.node@.root, self.node@.path)
        &&& tree_bytes(self.node@.root).len() <= u32::MAX
    }

    /// The node whose text this is.
    pub closed spec fn spec_node(&self) -> Position {
        self.node@
    }

    /// The absolute start of the range.
    pub closed spec fn spec_lo(&self) -> nat {
        self.range.spec_start() as nat
    }

    /// The absolute end of the range.
    pub closed spec fn spec_hi(&self) -> nat {
        self.range.spec_end() as nat
    }

    /// The chunks: for each token of the node overlapping or touching the range,
    /// its bytes inside the range.
    pub open spec fn spec_chunks(&self) -> Seq<Seq<u8>> {
        node_chunks(self.spec_node(), self.spec_lo() as int, self.spec_hi() as int)
    }

    /// The bytes of the root inside the range.
    pub open spec fn spec_bytes(&self) -> Seq<u8> {
        root_bytes(self.spec_node(), self.spec_lo() as int, self.spec_hi() as int)
    }

    /// Whether every chunk is valid UTF-8, so that the text can be read.
    pub open spec fn spec_valid(&self) -> bool {
        all_valid_utf8(self.spec_chunks())
    }

    /// The characters of the text.
    pub open spec fn spec_chars(&self) -> Seq<char> {
        text_chars(self.spec_chunks())
    }

    /// The text of `node`, where the bytes of each of its tokens are valid UTF-8.
    pub fn new(node: &'n SyntaxNode<S>) -> (t: Option<Self>)
        ensures
            t is Some <==> all_valid_utf8(node_chunks(node@, position_range(node@).0 as int, position_range(node@).1 as int)),
            t matches Some(t) ==> t.spec_node() == node@ && t.spec_lo() == position_range(node@).0
                && t.spec_hi() == position_range(node@).1,
    {
        let range = node.text_range();
        let _ = node.green();
        let chunks = node_chunk_slices(node, range);
        let mut i: usize = 0;
        while i < chunks.len()
            invariant
                i <= chunks@.len(),
                chunk_views(chunks@) == node_chunks(node@, range.spec_start() as int, range.spec_end() as int),
                range.spec_start() == position_range(node@).0,
                range.spec_end() == position_range(node@).1,
                forall|k: int| 0 <= k < i ==> valid_utf8(#[trigger] chunk_views(chunks@)[k]),
            decreases chunks@.len() - i,
        {
            if str_from_utf8(chunks[i]).is_none() {
                proof {
                    assert(!valid_utf8(chunk_views(chunks@)[i as int]));
                }
                return None;
            }
            i = i + 1;
        }
        Some(SyntaxText { node, range })
    }

    /// The chunks concatenate to the bytes of the range, and the characters of
    /// a readable text are the UTF-8 decoding of those bytes.
    pub fn lemma_chunks_are_text(&self)
        ensures
            self.spec_chunks().flatten_alt() == self.spec_bytes(),
            self.spec_bytes().len() == self.spec_hi() - self.spec_lo(),
            self.spec_valid() ==> valid_utf8(self.spec_bytes()) && self.spec_chars() == decode_utf8(self.spec_bytes()),
    {
        proof {
            use_type_invariant(self);
            lemma_node_chunks_bytes(self.spec_node(), self.spec_lo() as int, self.spec_hi() as int);
            lemma_elem_within(self.spec_node().root, self.spec_node().path);
            if self.spec_valid() {
                lemma_text_chars_decode(self.spec_chunks());
            }
        }
    }

    /// The combined length of the text, in bytes.
    pub fn len(&self) -> (n: TextSize)
        ensures
            n == self.spec_hi() - self.spec_lo(),
    {
        proof {
            use_type_invariant(self);
        }
        self.range.len()
    }

    /// Whether the text is empty.
    pub fn is_empty(&self) -> (b: bool)
        ensures
            b == (self.spec_hi() == self.spec_lo()),
    {
        self.range.is_empty()
    }

    /// The text in the given byte range, relative to the start of this text.
    pub fn slice<Ra: SyntaxTextRange>(&self, range: Ra) -> (t: Self)
        requires
            sub_range_allowed(self.spec_lo(), self.spec_hi(), range),
        ensures
            t.spec_node() == self.spec_node(),
            t.spec_lo() == sub_range(self.spec_lo(), self.spec_hi(), range).0,
            t.spec_hi() == sub_range(self.spec_lo(), self.spec_hi(), range).1,
            t.spec_bytes() == self.spec_bytes().subrange(t.spec_lo() - self.spec_lo(), t.spec_hi() - self.spec_lo()),
            self.spec_valid() && is_char_boundary(self.spec_bytes(), t.spec_lo() - self.spec_lo()) && is_char_boundary(
                self.spec_bytes(),
                t.spec_hi() - self.spec_lo(),
            ) ==> t.spec_valid(),
    {
        proof {
            use_type_invariant(self);
            lemma_elem_within(self.spec_node().root, self.spec_node().path);
        }
        let start = match range.start() {
            Some(s) => s,
            None => 0,
        };
        let end = match range.end() {
            Some(e) => e,
            None => self.len(),
        };
        assert(self.range.spec_start() + end <= self.range.spec_end());
        let len = end - start;
        let start = self.range.start() + start;
        let end = start + len;
        let range = TextRange::new(start, end);
        let t = SyntaxText { node: self.node, range };
        self.lemma_chunks_are_text();
        proof {
            assert(t.spec_bytes() =~= self.spec_bytes().subrange(t.spec_lo() - self.spec_lo(), t.spec_hi() - self.spec_lo()));
            let bytes = self.spec_bytes();
            let lo = self.spec_lo() as int;
            let hi = self.spec_hi() as int;
            let lo2 = t.spec_lo() as int;
            let hi2 = t.spec_hi() as int;
            if self.spec_valid() && is_char_boundary(bytes, lo2 - lo) && is_char_boundary(bytes, hi2 - lo) {
                let p = self.spec_node();
                let e = elem_at(p.root, p.path);
                let leaves = tree_leaves(e);
                let base = offset_of(p.root, p.path) as int;
                lemma_leaves_bytes(e);
                lemma_node_chunks_bytes(p, lo, hi);
                lemma_clip_chunks_concat(leaves, base, lo, hi);
                let flat = leaves.flatten_alt();
                assert(bytes == flat.subrange(lo - base, hi - base));
                if lo2 < hi {
                    assert(bytes[lo2 - lo] == flat[lo2 - base]);
                    is_char_boundary_iff_not_is_continuation_byte(bytes, lo2 - lo);
                }
                if hi2 < hi {
                    assert(bytes[hi2 - lo] == flat[hi2 - base]);
                    is_char_boundary_iff_not_is_continuation_byte(bytes, hi2 - lo);
                }
                lemma_clip_valid(leaves, base, lo, hi, lo2, hi2);
            }
        }
        t
    }

    fn str_chunks(&self) -> (r: Vec<&'n str>)
        requires
            self.spec_valid(),
        ensures
            str_views(r@) == self.spec_chunks(),
    {
        proof {
            use_type_invariant(self);
        }
        let chunks = node_chunk_slices(self.node, self.range);
        let mut out: Vec<&'n str> = Vec::new();
        let mut i: usize = 0;
        while i < chunks.len()
            invariant
                i <= chunks@.len(),
                chunk_views(chunks@) == self.spec_chunks(),
                all_valid_utf8(self.spec_chunks()),
                str_views(out@) == chunk_views(chunks@).take(i as int),
            decreases chunks@.len() - i,
        {
            proof {
                assert(valid_utf8(chunk_views(chunks@)[i as int]));
            }
            let s = str_from_utf8(chunks[i]).unwrap();
            let ghost before = out@;
            out.push(s);
            proof {
                assert(str_views(out@) =~= str_views(before).push(s.spec_bytes()));
                assert(chunk_views(chunks@).take(i + 1) =~= chunk_views(chunks@).take(i as int).push(chunks@[i as int]@));
            }
            i = i + 1;
        }
        proof {
            assert(chunk_views(chunks@).take(chunks@.len() as int) =~= chunk_views(chunks@));
        }
        out
    }

    /// Whether `c` appears anywhere in this text.
    pub fn contains_char(&self, c: char) -> (r: bool)
        requires
            self.spec_valid(),
        ensures
            r == self.spec_chars().contains(c),
    {
        let chunks = self.str_chunks();
        let ghost cs = self.spec_chunks();
        let mut i: usize = 0;
        proof {
            assert(cs.take(0) =~= Seq::<Seq<u8>>::empty());
        }
        while i < chunks.len()
            invariant
                i <= chunks@.len(),
                cs == self.spec_chunks(),
                str_views(chunks@) == cs,
                !text_chars(cs.take(i as int)).contains(c),
            decreases chunks@.len() - i,
        {
            let chunk = chunks[i];
            proof {
                lemma_str_chars(chunk);
                assert(cs[i as int] == chunk.spec_bytes());
                assert(cs.take(i + 1) =~= cs.take(i as int).push(cs[i as int]));
                lemma_text_chars_push(cs.take(i as int), cs[i as int]);
            }
            if str_contains_char(chunk, c) {
                proof {
                    let k = choose|k: int| 0 <= k < chunk@.len() && chunk@[k] == c;
                    let pre = text_chars(cs.take(i as int));
                    assert(cs =~= cs.take(i + 1) + cs.skip(i + 1));
                    lemma_text_chars_append(cs.take(i + 1), cs.skip(i + 1));
                    assert(text_chars(cs)[pre.len() + k] == c);
                }
                return true;
            }
            proof {
                let pre = text_chars(cs.take(i as int));
                let nxt = text_chars(cs.take(i + 1));
                assert forall|j: int| 0 <= j < nxt.len() implies #[trigger] nxt[j] != c by {
                    if j < pre.len() {
                        assert(nxt[j] == pre[j]);
                    } else {
                        assert(nxt[j] == chunk@[j - pre.len()]);
                    }
                }
            }
            i = i + 1;
        }
        proof {
            assert(cs.take(chunks@.len() as int) =~= cs);
        }
        false
    }

    /// The byte position of the first appearance of `c`, if it appears.
    pub fn find_char(&self, c: char) -> (r: Option<TextSize>)
        requires
            self.spec_valid(),
        ensures
            r is Some <==> self.spec_chars().contains(c),
            r matches Some(pos) ==> exists|k: int|
                0 <= k < self.spec_chars().len() && self.spec_chars()[k] == c
                    && (forall|j: int| 0 <= j < k ==> self.spec_chars()[j] != c)
                    && pos == encode_utf8(#[trigger] self.spec_chars().take(k)).len(),
    {
        self.lemma_chunks_are_text();
        let chunks = self.str_chunks();
        let ghost cs = self.spec_chunks();
        let mut acc: TextSize = 0;
        let mut i: usize = 0;
        proof {
            assert(cs.take(0) =~= Seq::<Seq<u8>>::empty());
            lemma_text_chars_encode(cs);
        }
        while i < chunks.len()
            invariant
                i <= chunks@.len(),
                cs == self.spec_chunks(),
                str_views(chunks@) == cs,
                all_valid_utf8(cs),
                cs.flatten_alt().len() <= u32::MAX,
                acc == cs.take(i as int).flatten_alt().len(),
                acc == encode_utf8(text_chars(cs.take(i as int))).len(),
                !text_chars(cs.take(i as int)).contains(c),
            decreases chunks@.len() - i,
        {
            let chunk = chunks[i];
            let ghost pre = text_chars(cs.take(i as int));
            proof {
                lemma_str_chars(chunk);
                assert(cs[i as int] == chunk.spec_bytes());
                assert(cs.take(i + 1) =~= cs.take(i as int).push(cs[i as int]));
                lemma_text_chars_push(cs.take(i as int), cs[i as int]);
                assert(cs =~= cs.take(i + 1) + cs.skip(i + 1));
                lemma_text_chars_append(cs.take(i + 1), cs.skip(i + 1));
                vstd::seq_lib::lemma_flatten_alt_concat(cs.take(i + 1), cs.skip(i + 1));
                assert(cs.take(i + 1).drop_last() =~= cs.take(i as int));
            }
            match str_find_char(chunk, c) {
                Some(pos) => {
                    proof {
                        let kk = choose|kk: int|
                            0 <= kk < chunk@.len() && chunk@[kk] == c && (forall|j: int| 0 <= j < kk ==> chunk@[j] != c)
                                && pos == encode_utf8(#[trigger] chunk@.take(kk)).len();
                        let k = pre.len() + kk;
                        let all = text_chars(cs);
                        assert(all.take(k) =~= pre + chunk@.take(kk));
                        lemma_encode_append(pre, chunk@.take(kk));
                        assert(chunk@ =~= chunk@.take(kk) + chunk@.skip(kk));
                        lemma_encode_append(chunk@.take(kk), chunk@.skip(kk));
                        assert(all[k] == c);
                        assert forall|j: int| 0 <= j < k implies all[j] != c by {
                            if j < pre.len() {
                                assert(all[j] == pre[j]);
                            } else {
                                assert(all[j] == chunk@[j - pre.len()]);
                            }
                        }
                        assert(all.take(k) == self.spec_chars().take(k));
                    }
                    return Some(acc + pos as u32);
                },
                None => {},
            }
            proof {
                let nxt = text_chars(cs.take(i + 1));
                assert forall|j: int| 0 <= j < nxt.len() implies #[trigger] nxt[j] != c by {
                    if j < pre.len() {
                        assert(nxt[j] == pre[j]);
                    } else {
                        assert(nxt[j] == chunk@[j - pre.len()]);
                    }
                }
                lemma_encode_append(pre, chunk@);
            }
            acc = acc + chunk.len() as u32;
            i = i + 1;
        }
        proof {
            assert(cs.take(chunks@.len() as int) =~= cs);
        }
        None
    }

    /// If `offset` lies inside the text, the first character that starts at or
    /// after `offset`.
    pub fn char_at(&self, offset: TextSize) -> (r: Option<char>)
        requires
            self.spec_valid(),
        ensures
            r is Some <==> offset < self.spec_hi() - self.spec_lo() && exists|k: int|
                0 <= k < self.spec_chars().len() && char_start(self.spec_chars(), k) >= offset,
            r matches Some(ch) ==> exists|k: int|
                0 <= k < self.spec_chars().len() && char_start(self.spec_chars(), k) >= offset
                    && (forall|j: int| 0 <= j < k ==> char_start(self.spec_chars(), j) < offset)
                    && #[trigger] self.spec_chars()[k] == ch,
    {
        self.lemma_chunks_are_text();
        if offset >= self.len() {
            return None;
        }
        let chunks = self.str_chunks();
        let ghost cs = self.spec_chunks();
        let ghost all = text_chars(cs);
        let mut pos: TextSize = 0;
        let mut i: usize = 0;
        proof {
            assert(cs.take(0) =~= Seq::<Seq<u8>>::empty());
            lemma_text_chars_encode(cs);
            assert(all.take(0) =~= Seq::<char>::empty());
        }
        while i < chunks.len()
            invariant
                i <= chunks@.len(),
                cs == self.spec_chunks(),
                offset < self.spec_hi() - self.spec_lo(),
                all == text_chars(cs),
                str_views(chunks@) == cs,
                all_valid_utf8(cs),
                encode_utf8(all).len() <= u32::MAX,
                text_chars(cs.take(i as int)).len() <= all.len(),
                all.take(text_chars(cs.take(i as int)).len() as int) == text_chars(cs.take(i as int)),
                pos == char_start(all, text_chars(cs.take(i as int)).len() as int),
                forall|k: int| 0 <= k < text_chars(cs.take(i as int)).len() ==> #[trigger] char_start(all, k) < offset,
            decreases chunks@.len() - i,
        {
            let chunk = chunks[i];
            let ghost g0 = text_chars(cs.take(i as int)).len() as int;
            proof {
                lemma_str_chars(chunk);
                assert(cs[i as int] == chunk.spec_bytes());
                assert(cs.take(i + 1) =~= cs.take(i as int).push(cs[i as int]));
                lemma_text_chars_push(cs.take(i as int), cs[i as int]);
                assert(cs =~= cs.take(i + 1) + cs.skip(i + 1));
                lemma_text_chars_append(cs.take(i + 1), cs.skip(i + 1));
                assert(all.take(g0 + chunk@.len()) =~= text_chars(cs.take(i + 1)));
            }
            let n = chunk.unicode_len();
            let mut j: usize = 0;
            while j < n
                invariant
                    j <= n == chunk@.len(),
                    0 <= g0,
                    cs == self.spec_chunks(),
                    offset < self.spec_hi() - self.spec_lo(),
                    all == text_chars(cs),
                    g0 + chunk@.len() <= all.len(),
                    all.take(g0 + chunk@.len()) == all.take(g0) + chunk@,
                    encode_utf8(all).len() <= u32::MAX,
                    pos == char_start(all, g0 + j),
                    forall|k: int| 0 <= k < g0 + j ==> #[trigger] char_start(all, k) < offset,
                decreases n - j,
            {
                let ch = chunk.get_char(j);
                proof {
                    assert(all[g0 + j] == ch) by {
                        let t = all.take(g0 + chunk@.len());
                        assert(all.take(g0).len() == g0);
                        assert(t[g0 + j] == (all.take(g0) + chunk@)[g0 + j]);
                        assert(t[g0 + j] == all[g0 + j]);
                    }
                    assert(all.take(g0 + j + 1) =~= all.take(g0 + j) + seq![ch]);
                    lemma_encode_append(all.take(g0 + j), seq![ch]);
                    assert(all =~= all.take(g0 + j + 1) + all.skip(g0 + j + 1));
                    lemma_encode_append(all.take(g0 + j + 1), all.skip(g0 + j + 1));
                }
                if pos >= offset {
                    proof {
                        assert(char_start(all, g0 + j) >= offset && all[g0 + j] == ch);
                        assert(self.spec_chars() == all);
                        assert(g0 + j < all.len());
                        assert(self.spec_chars()[g0 + j] == ch);
                        assert(forall|k: int| 0 <= k < g0 + j ==> char_start(self.spec_chars(), k) < offset);
                    }
                    return Some(ch);
                }
                let w = char_len_utf8(ch);
                pos = pos + w as u32;
                j = j + 1;
            }
            proof {
                assert(text_chars(cs.take(i + 1)).len() == g0 + chunk@.len());
            }
            i = i + 1;
        }
        proof {
            assert(cs.take(chunks@.len() as int) =~= cs);
            assert forall|k: int| 0 <= k < all.len() implies !(char_start(all, k) >= offset) by {
                assert(char_start(all, k) < offset);
            }
        }
        None
    }

    /// Applies `f` to the text chunks in order, threading an accumulator,
    /// until `f` fails.
    #[verifier::loop_isolation(false)]
    pub fn try_fold_chunks<T, F, E>(&self, init: T, mut f: F) -> (r: Result<T, E>)
        where
            F: FnMut(T, &str) -> Result<T, E>,
        requires
            self.spec_valid(),
            forall|acc: T, chunk: &str| #[trigger] call_requires(f, (acc, chunk)),
        ensures
            exists|cs: Seq<&str>, accs: Seq<T>|
                #![trigger try_fold_run(f, init, cs, accs, r)]
                str_views(cs) == self.spec_chunks() && try_fold_run(f, init, cs, accs, r),
    {
        let chunks = self.str_chunks();
        let ghost f0 = f;
        let mut acc = init;
        let ghost accs: Seq<T> = seq![init];
        let mut i: usize = 0;
        while i < chunks.len()
            invariant
                i <= chunks@.len(),
                f == f0,
                str_views(chunks@) == self.spec_chunks(),
                forall|acc: T, chunk: &str| #[trigger] call_requires(f, (acc, chunk)),
                accs.len() == i + 1,
                accs[0] == init,
                acc == accs.last(),
                forall|k: int| 0 <= k < i ==> call_ensures(f, (#[trigger] accs[k], chunks@[k]), Ok::<T, E>(accs[k + 1])),
            decreases chunks@.len() - i,
        {
            let res = f(acc, chunks[i]);
            match res {
                Ok(v) => {
                    proof {
                        accs = accs.push(v);
                    }
                    acc = v;
                },
                Err(e) => {
                    proof {
                        assert(try_fold_run(f, init, chunks@, accs, Err::<T, E>(e)));
                    }
                    return Err(e);
                },
            }
            i = i + 1;
        }
        proof {
            assert(try_fold_run(f, init, chunks@, accs, Ok::<T, E>(acc)));
        }
        Ok(acc)
    }

    /// Applies `f` to all text chunks in order, threading an accumulator.
    pub fn fold_chunks<T, F>(&self, init: T, mut f: F) -> (r: T)
        where
            F: FnMut(T, &str) -> T,
        requires
            self.spec_valid(),
            forall|acc: T, chunk: &str| #[trigger] call_requires(f, (acc, chunk)),
        ensures
            exists|cs: Seq<&str>, accs: Seq<T>|
                #![trigger fold_run(f, init, cs, accs, r)]
                str_views(cs) == self.spec_chunks() && fold_run(f, init, cs, accs, r),
    {
        let chunks = self.str_chunks();
        let ghost f0 = f;
        let mut acc = init;
        let ghost accs: Seq<T> = seq![init];
        let mut i: usize = 0;
        while i < chunks.len()
            invariant
                i <= chunks@.len(),
                f == f0,
                str_views(chunks@) == self.spec_chunks(),
                forall|acc: T, chunk: &str| #[trigger] call_requires(f, (acc, chunk)),
                accs.len() == i + 1,
                accs[0] == init,
                acc == accs.last(),
                forall|k: int| 0 <= k < i ==> call_ensures(f, (#[trigger] accs[k], chunks@[k]), accs[k + 1]),
            decreases chunks@.len() - i,
        {
            let v = f(acc, chunks[i]);
            proof {
                accs = accs.push(v);
            }
            acc = v;
            i = i + 1;
        }
        proof {
            assert(fold_run(f, init, chunks@, accs, acc));
        }
        acc
    }

    /// Applies `f` to the text chunks in order until it fails.
    #[verifier::loop_isolation(false)]
    pub fn try_for_each_chunk<F, E>(&self, mut f: F) -> (r: Result<(), E>)
        where
            F: FnMut(&str) -> Result<(), E>,
        requires
            self.spec_valid(),
            forall|chunk: &str| #[trigger] call_requires(f, (chunk,)),
        ensures
            exists|cs: Seq<&str>, n: int|
                #![trigger try_each_run(f, cs, n, r)]
                str_views(cs) == self.spec_chunks() && try_each_run(f, cs, n, r),
    {
        let chunks = self.str_chunks();
        let ghost f0 = f;
        let mut i: usize = 0;
        while i < chunks.len()
            invariant
                i <= chunks@.len(),
                f == f0,
                str_views(chunks@) == self.spec_chunks(),
                forall|chunk: &str| #[trigger] call_requires(f, (chunk,)),
                forall|k: int| 0 <= k < i ==> call_ensures(f, (#[trigger] chunks@[k],), Ok::<(), E>(())),
            decreases chunks@.len() - i,
        {
            let res = f(chunks[i]);
            match res {
                Ok(u) => {
                    proof {
                        assert(res == Ok::<(), E>(()));
                    }
                },
                Err(e) => {
                    proof {
                        assert(try_each_run(f, chunks@, i as int, Err::<(), E>(e)));
                    }
                    return Err(e);
                },
            }
            i = i + 1;
        }
        proof {
            assert(try_each_run(f, chunks@, i as int, Ok::<(), E>(())));
        }
        Ok(())
    }

    /// Applies `f` to all text chunks in order.
    pub fn for_each_chunk<F>(&self, mut f: F)
        where
            F: FnMut(&str),
        requires
            self.spec_valid(),
            forall|chunk: &str| #[trigger] call_requires(f, (chunk,)),
        ensures
            exists|cs: Seq<&str>|
                #![trigger each_run(f, cs)]
                str_views(cs) == self.spec_chunks() && each_run(f, cs),
    {
        let chunks = self.str_chunks();
        let ghost f0 = f;
        let mut i: usize = 0;
        while i < chunks.len()
            invariant
                i <= chunks@.len(),
                f == f0,
                str_views(chunks@) == self.spec_chunks(),
                forall|chunk: &str| #[trigger] call_requires(f, (chunk,)),
                forall|k: int| 0 <= k < i ==> call_ensures(f, (#[trigger] chunks@[k],), ()),
            decreases chunks@.len() - i,
        {
            f(chunks[i]);
            i = i + 1;
        }
        proof {
            assert(each_run(f, chunks@));
        }
    }
}

impl<'n, S: Syntax> SyntaxText<'n, S> {
    fn byte_chunks(&self) -> (r: Vec<&'n [u8]>)
        ensures
            chunk_views(r@) == self.spec_chunks(),
    {
        proof {
            use_type_invariant(self);
        }
        node_chunk_slices(self.node, self.range)
    }

    /// Whether every chunk of this text is valid UTF-8, so that it can be read
    /// as characters. The text of a node is; a slice cut inside a character
    /// is not.
    pub fn is_valid(&self) -> (r: bool)
        ensures
            r == self.spec_valid(),
    {
        let chunks = self.byte_chunks();
        let mut i: usize = 0;
        while i < chunks.len()
            invariant
                i <= chunks@.len(),
                chunk_views(chunks@) == self.spec_chunks(),
                forall|k: int| 0 <= k < i ==> valid_utf8(#[trigger] chunk_views(chunks@)[k]),
            decreases chunks@.len() - i,
        {
            if str_from_utf8(chunks[i]).is_none() {
                proof {
                    assert(!valid_utf8(chunk_views(chunks@)[i as int]));
                }
                return false;
            }
            i = i + 1;
        }
        true
    }

    /// Whether this text spells the same bytes as `other`, which may belong to
    /// another tree and be split into tokens elsewhere.
    pub fn text_eq<'m, S2: Syntax>(&self, other: &SyntaxText<'m, S2>) -> (r: bool)
        ensures
            r == (self.spec_bytes() == other.spec_bytes()),
    {
        self.lemma_chunks_are_text();
        other.lemma_chunks_are_text();
        if self.len() != other.len() {
            return false;
        }
        let xs = self.byte_chunks();
        let ys = other.byte_chunks();
        zip_chunks(&xs, &ys)
    }

    /// Whether this text spells the same bytes as `rhs`.
    pub fn str_eq(&self, rhs: &str) -> (r: bool)
        ensures
            r == (self.spec_bytes() == rhs.spec_bytes()),
    {
        self.lemma_chunks_are_text();
        let rhs_bytes = rhs.as_bytes();
        if self.len() as usize != rhs_bytes.len() {
            return false;
        }
        let xs = self.byte_chunks();
        let mut ys: Vec<&[u8]> = Vec::new();
        ys.push(rhs_bytes);
        proof {
            let cy = chunk_views(ys@);
            assert(cy.drop_last() =~= Seq::<Seq<u8>>::empty());
            assert(cy.drop_last().flatten_alt() =~= Seq::<u8>::empty());
            assert(cy.flatten_alt() =~= rhs.spec_bytes());
        }
        zip_chunks(&xs, &ys)
    }
}

impl<'n, S: Syntax> SyntaxText<'n, S> {
    /// The text as a string: its chunks one after the other.
    pub fn to_string(&self) -> (r: String)
        requires
            self.spec_valid(),
        ensures
            r@ == self.spec_chars(),
    {
        let chunks = self.str_chunks();
        let mut out = String::new();
        let mut i: usize = 0;
        proof {
            assert(str_views(chunks@).take(0) =~= Seq::<Seq<u8>>::empty());
            assert(out@ =~= text_chars(str_views(chunks@).take(0)));
        }
        while i < chunks.len()
            invariant
                i <= chunks@.len(),
                str_views(chunks@) == self.spec_chunks(),
                out@ == text_chars(str_views(chunks@).take(i as int)),
            decreases chunks@.len() - i,
        {
            let chunk = chunks[i];
            out.append(chunk);
            proof {
                lemma_str_chars(chunk);
                let pre = str_views(chunks@).take(i as int);
                assert(str_views(chunks@).take(i + 1) =~= pre.push(chunk.spec_bytes()));
                lemma_text_chars_push(pre, chunk.spec_bytes());
            }
            i = i + 1;
        }
        proof {
            assert(str_views(chunks@).take(chunks@.len() as int) =~= str_views(chunks@));
        }
        out
    }

    /// The text as shown for debugging: quoted, with special characters escaped.
    pub fn to_debug_string(&self) -> (r: String)
        requires
            self.spec_valid(),
        ensures
            r@ == str_debug_chars(self.spec_chars()),
    {
        let text = self.to_string();
        str_debug(text.as_str())
    }
}

/// The list rendering of each chunk, separated by `", "`.
pub open spec fn chunk_lists(cs: Seq<Seq<u8>>) -> Seq<char>
    decreases cs.len(),
{
    if cs.len() == 0 {
        Seq::empty()
    } else if cs.len() == 1 {
        bytes_debug(cs[0])
    } else {
        chunk_lists(cs.drop_last()) + seq![',', ' '] + bytes_debug(cs.last())
    }
}

impl<'n, S: Syntax> SyntaxData<'n, S> {
    /// The data as shown for debugging: the list of its chunks, each as the
    /// list of its byte values.
    pub fn to_debug_string(&self) -> (r: String)
        ensures
            r@ == seq!['['] + chunk_lists(self.spec_chunks()) + seq![']'],
    {
        let chunks = self.chunk_slices();
        let mut out = String::new();
        proof {
            reveal_strlit("[");
        }
        out.append("[");
        let ghost start = out@;
        let mut i: usize = 0;
        proof {
            assert(chunk_views(chunks@).take(0) =~= Seq::<Seq<u8>>::empty());
            assert(out@ =~= start + chunk_lists(chunk_views(chunks@).take(0)));
        }
        while i < chunks.len()
            invariant
                i <= chunks@.len(),
                chunk_views(chunks@) == self.spec_chunks(),
                start == seq!['['],
                out@ == start + chunk_lists(chunk_views(chunks@).take(i as int)),
            decreases chunks@.len() - i,
        {
            proof {
                reveal_strlit(", ");
            }
            if i > 0 {
                out.append(", ");
            }
            push_bytes_debug(&mut out, chunks[i]);
            proof {
                let pre = chunk_views(chunks@).take(i as int);
                let next = chunk_views(chunks@).take(i + 1);
                assert(next.drop_last() =~= pre);
                assert(next.last() == chunks@[i as int]@);
                if i == 0 {
                    assert(pre =~= Seq::<Seq<u8>>::empty());
                }
                assert(out@ =~= start + chunk_lists(next));
            }
            i = i + 1;
        }
        proof {
            reveal_strlit("]");
            assert(chunk_views(chunks@).take(chunks@.len() as int) =~= chunk_views(chunks@));
        }
        out.append("]");
        proof {
            assert(out@ =~= seq!['['] + chunk_lists(self.spec_chunks()) + seq![']']);
        }
        out
    }
}

impl<'n, 'm, S1: Syntax, S2: Syntax> PartialEq<SyntaxText<'m, S2>> for SyntaxText<'n, S1> {
    fn eq(&self, other: &SyntaxText<'m, S2>) -> (r: bool) {
        self.text_eq(other)
    }
}

impl<'n, 'm, S1: Syntax, S2: Syntax> PartialEqSpecImpl<SyntaxText<'m, S2>> for SyntaxText<'n, S1> {
    open spec fn obeys_eq_spec() -> bool {
        true
    }

    open spec fn eq_spec(&self, other: &SyntaxText<'m, S2>) -> bool {
        self.spec_bytes() == other.spec_bytes()
    }
}

impl<'n, S: Syntax> Eq for SyntaxText<'n, S> {

}

impl<'n, S: Syntax> PartialEq<str> for SyntaxText<'n, S> {
    fn eq(&self, rhs: &str) -> (r: bool) {
        self.str_eq(rhs)
    }
}

impl<'n, S: Syntax> PartialEqSpecImpl<str> for SyntaxText<'n, S> {
    open spec fn obeys_eq_spec() -> bool {
        true
    }

    open spec fn eq_spec(&self, rhs: &str) -> bool {
        self.spec_bytes() == rhs.spec_bytes()
    }
}

impl<'n, 's, S: Syntax> PartialEq<&'s str> for SyntaxText<'n, S> {
    fn eq(&self, rhs: &&'s str) -> (r: bool) {
        self.str_eq(*rhs)
    }
}

impl<'n, 's, S: Syntax> PartialEqSpecImpl<&'s str> for SyntaxText<'n, S> {
    open spec fn obeys_eq_spec() -> bool {
        true
    }

    open spec fn eq_spec(&self, rhs: &&'s str) -> bool {
        self.spec_bytes() == rhs.spec_bytes()
    }
}

impl<'n, S: Syntax> PartialEq<SyntaxText<'n, S>> for str {
    fn eq(&self, rhs: &SyntaxText<'n, S>) -> (r: bool) {
        rhs.str_eq(self)
    }
}

impl<'n, S: Syntax> PartialEqSpecImpl<SyntaxText<'n, S>> for str {
    open spec fn obeys_eq_spec() -> bool {
        true
    }

    open spec fn eq_spec(&self, rhs: &SyntaxText<'n, S>) -> bool {
        self.spec_bytes() == rhs.spec_bytes()
    }
}

impl<'n, 's, S: Syntax> PartialEq<SyntaxText<'n, S>> for &'s str {
    fn eq(&self, rhs: &SyntaxText<'n, S>) -> (r: bool) {
        rhs.str_eq(*self)
    }
}

impl<'n, 's, S: Syntax> PartialEqSpecImpl<SyntaxText<'n, S>> for &'s str {
    open spec fn obeys_eq_spec() -> bool {
        true
    }

    open spec fn eq_spec(&self, rhs: &SyntaxText<'n, S>) -> bool {
        self.spec_bytes() == rhs.spec_bytes()
    }
}

impl<S: Syntax> SyntaxNode<S> {
    /// The bytes this node covers.
    pub fn data(&self) -> (d: SyntaxData<'_, S>)
        ensures
            d.spec_node() == self@,
            d.spec_lo() == position_range(self@).0,
            d.spec_hi() == position_range(self@).1,
    {
        SyntaxData::new(self)
    }

    /// The text this node covers, if the bytes of each of its tokens are valid UTF-8.
    pub fn text(&self) -> (t: Option<SyntaxText<'_, S>>)
        ensures
            t is Some <==> all_valid_utf8(node_chunks(self@, position_range(self@).0 as int, position_range(self@).1 as int)),
            t matches Some(t) ==> t.spec_node() == self@ && t.spec_lo() == position_range(self@).0
                && t.spec_hi() == position_range(self@).1,
    {
        SyntaxText::new(self)
    }
}

} // verus!
