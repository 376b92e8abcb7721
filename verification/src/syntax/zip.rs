//! Comparing two texts that are split into chunks at different places,
//! walking both chunk lists at once without joining them.

use vstd::prelude::*;
use vstd::seq_lib::lemma_flatten_alt_concat;

use crate::green::chunk_views;

verus! {

/// Where chunk `i` starts in the concatenation of `cs`.
pub open spec fn chunk_start(cs: Seq<Seq<u8>>, i: int) -> int {
    cs.take(i).flatten_alt().len() as int
}

/// The start of the next chunk is the start of this one plus its length.
pub proof fn lemma_chunk_start_next(cs: Seq<Seq<u8>>, i: int)
    requires
        0 <= i < cs.len(),
    ensures
        chunk_start(cs, i + 1) == chunk_start(cs, i) + cs[i].len(),
{
    assert(cs.take(i + 1).drop_last() =~= cs.take(i));
    assert(cs.take(i + 1).last() == cs[i]);
}

/// After the last chunk comes the end of the concatenation.
pub proof fn lemma_chunk_start_end(cs: Seq<Seq<u8>>)
    ensures
        chunk_start(cs, cs.len() as int) == cs.flatten_alt().len(),
{
    assert(cs.take(cs.len() as int) =~= cs);
}

/// Byte `t` of chunk `i` is byte `chunk_start(cs, i) + t` of the concatenation.
pub proof fn lemma_flatten_alt_index(cs: Seq<Seq<u8>>, i: int, t: int)
    requires
        0 <= i < cs.len(),
        0 <= t < cs[i].len(),
    ensures
        chunk_start(cs, i) + t < cs.flatten_alt().len(),
        cs.flatten_alt()[chunk_start(cs, i) + t] == cs[i][t],
{
    let head = cs.take(i);
    let mid = seq![cs[i]];
    let tail = cs.skip(i + 1);
    assert(cs =~= head + mid + tail);
    lemma_flatten_alt_concat(head + mid, tail);
    lemma_flatten_alt_concat(head, mid);
    assert(mid.drop_last() =~= Seq::<Seq<u8>>::empty());
    assert(mid.drop_last().flatten_alt() =~= Seq::<u8>::empty());
    assert(mid.flatten_alt() =~= cs[i]);
}

/// Whether two chunk lists whose concatenations have equal length spell the
/// same bytes. The lists are walked side by side: at each step the shorter of
/// the two current remainders is compared with the front of the other.
pub fn zip_chunks(xs: &Vec<&[u8]>, ys: &Vec<&[u8]>) -> (r: bool)
    requires
        chunk_views(xs@).flatten_alt().len() == chunk_views(ys@).flatten_alt().len(),
    ensures
        r == (chunk_views(xs@).flatten_alt() == chunk_views(ys@).flatten_alt()),
{
    let ghost cx = chunk_views(xs@);
    let ghost cy = chunk_views(ys@);
    let ghost bx = cx.flatten_alt();
    let ghost by = cy.flatten_alt();
    let mut i: usize = 0;
    let mut a: usize = 0;
    let mut j: usize = 0;
    let mut b: usize = 0;
    let ghost mut k: int = 0;
    proof {
        assert(cx.take(0) =~= Seq::<Seq<u8>>::empty());
        assert(cy.take(0) =~= Seq::<Seq<u8>>::empty());
    }
    loop
        invariant
            cx == chunk_views(xs@),
            cy == chunk_views(ys@),
            bx == cx.flatten_alt(),
            by == cy.flatten_alt(),
            bx.len() == by.len(),
            cx.len() == xs@.len(),
            cy.len() == ys@.len(),
            i <= xs@.len(),
            j <= ys@.len(),
            i < xs@.len() ==> a <= cx[i as int].len(),
            i == xs@.len() ==> a == 0,
            j < ys@.len() ==> b <= cy[j as int].len(),
            j == ys@.len() ==> b == 0,
            k == chunk_start(cx, i as int) + a,
            k == chunk_start(cy, j as int) + b,
            0 <= k <= bx.len(),
            forall|u: int| 0 <= u < k ==> bx[u] == by[u],
        decreases bx.len() - k, xs@.len() - i + ys@.len() - j,
    {
        if i < xs.len() && a == xs[i].len() {
            proof {
                lemma_chunk_start_next(cx, i as int);
            }
            i = i + 1;
            a = 0;
            continue;
        }
        if j < ys.len() && b == ys[j].len() {
            proof {
                lemma_chunk_start_next(cy, j as int);
            }
            j = j + 1;
            b = 0;
            continue;
        }
        if i == xs.len() || j == ys.len() {
            proof {
                lemma_chunk_start_end(cx);
                lemma_chunk_start_end(cy);
                assert(bx =~= by);
            }
            return true;
        }
        let x = xs[i];
        let y = ys[j];
        let n: usize = if x.len() - a <= y.len() - b {
            x.len() - a
        } else {
            y.len() - b
        };
        let mut t: usize = 0;
        while t < n
            invariant
                x@ == cx[i as int],
                y@ == cy[j as int],
                cx.len() == xs@.len(),
                cy.len() == ys@.len(),
                i < xs@.len(),
                j < ys@.len(),
                a + n <= x.len(),
                b + n <= y.len(),
                cx == chunk_views(xs@),
                cy == chunk_views(ys@),
                t <= n,
                k == chunk_start(cx, i as int) + a,
                k == chunk_start(cy, j as int) + b,
                forall|u: int| 0 <= u < k + t ==> bx[u] == by[u],
                bx == cx.flatten_alt(),
                by == cy.flatten_alt(),
            decreases n - t,
        {
            proof {
                lemma_flatten_alt_index(cx, i as int, (a + t) as int);
                lemma_flatten_alt_index(cy, j as int, (b + t) as int);
            }
            if x[a + t] != y[b + t] {
                proof {
                    assert(bx[k + t] != by[k + t]);
                }
                return false;
            }
            t = t + 1;
        }
        proof {
            lemma_flatten_alt_index(cx, i as int, (a + n - 1) as int);
            k = k + n;
        }
        a = a + n;
        b = b + n;
    }
}

} // verus!
