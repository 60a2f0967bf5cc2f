//! Pairing of Start and End marker offsets into correctly nested spans.
//!
//! The matcher walks both ordered marker lists at once, like a merge. A Start
//! that comes no later than the next End is pushed on a stack of open Starts;
//! otherwise the next End closes the innermost open Start, or is skipped when
//! no open Start lies strictly before it. Starts that are still open when the
//! Ends run out are dropped.
use vstd::prelude::*;
use crate::pairing_lemmas::{lemma_empty_markers, lemma_spans_from_markers, lemma_spans_nested};

verus! {

/// A half-open byte range `[start, end)` of a source text.
#[derive(Clone, Copy, Debug, PartialEq, Eq, Structural)]
pub struct ByteRange {
    pub start: usize,
    pub end: usize,
}

/// The matcher's working state: the index of the next Start and of the next
/// End to look at, the indices of the open Starts (innermost last), and for
/// each Start the End that closed it, if any.
pub struct PairState {
    pub next_start: int,
    pub next_end: int,
    pub open: Seq<int>,
    pub closed: Seq<Option<usize>>,
}

pub open spec fn strictly_ascending(s: Seq<usize>) -> bool {
    forall|a: int, b: int| 0 <= a < b < s.len() ==> s[a] < s[b]
}

/// Marker lists as a left-to-right scan produces them: each strictly
/// ascending, and no offset holds both a Start and an End.
pub open spec fn markers_valid(starts: Seq<usize>, ends: Seq<usize>) -> bool {
    &&& strictly_ascending(starts)
    &&& strictly_ascending(ends)
    &&& forall|a: int, k: int|
        0 <= a < starts.len() && 0 <= k < ends.len() ==> starts[a] != ends[k]
}

/// Balanced, well-nested markers: as many Ends as Starts, and the k-th End
/// comes after the k-th Start, so that every End finds an open Start.
pub open spec fn well_nested(starts: Seq<usize>, ends: Seq<usize>) -> bool {
    &&& markers_valid(starts, ends)
    &&& starts.len() == ends.len()
    &&& forall|k: int| 0 <= k < starts.len() ==> starts[k] < ends[k]
}

pub open spec fn initial_state(n: nat) -> PairState {
    PairState { next_start: 0, next_end: 0, open: seq![], closed: Seq::new(n, |a: int| None) }
}

/// One move of the matcher; only meaningful while an End is left.
pub open spec fn step(starts: Seq<usize>, ends: Seq<usize>, st: PairState) -> PairState {
    let e = ends[st.next_end];
    if st.next_start < starts.len() && starts[st.next_start] <= e {
        PairState { next_start: st.next_start + 1, open: st.open.push(st.next_start), ..st }
    } else if st.open.len() > 0 && starts[st.open.last()] < e {
        PairState {
            next_end: st.next_end + 1,
            open: st.open.drop_last(),
            closed: st.closed.update(st.open.last(), Some(e)),
            ..st
        }
    } else {
        PairState { next_end: st.next_end + 1, ..st }
    }
}

/// Runs the matcher from `st` until the Ends are used up.
pub open spec fn run(starts: Seq<usize>, ends: Seq<usize>, st: PairState) -> PairState
    decreases starts.len() - st.next_start + ends.len() - st.next_end,
{
    if 0 <= st.next_end < ends.len() && 0 <= st.next_start <= starts.len() {
        run(starts, ends, step(starts, ends, st))
    } else {
        st
    }
}

/// The indices, in ascending order, of the first `k` Starts that were closed.
pub open spec fn matched_indices(closed: Seq<Option<usize>>, k: nat) -> Seq<int>
    decreases k,
{
    if k == 0 {
        seq![]
    } else {
        let prev = matched_indices(closed, (k - 1) as nat);
        if closed[k - 1] is Some {
            prev.push(k - 1)
        } else {
            prev
        }
    }
}

pub open spec fn span_of(starts: Seq<usize>, closed: Seq<Option<usize>>, a: int) -> ByteRange {
    ByteRange { start: starts[a], end: closed[a]->Some_0 }
}

/// The spans of the closed Starts, in the order of their Starts.
pub open spec fn spans_of(starts: Seq<usize>, closed: Seq<Option<usize>>) -> Seq<ByteRange> {
    matched_indices(closed, starts.len()).map_values(|a: int| span_of(starts, closed, a))
}

/// The matched spans for the given marker lists.
pub open spec fn pairing(starts: Seq<usize>, ends: Seq<usize>) -> Seq<ByteRange> {
    spans_of(starts, run(starts, ends, initial_state(starts.len())).closed)
}

/// Two spans are disjoint, or one lies strictly inside the other.
pub open spec fn laminar(x: ByteRange, y: ByteRange) -> bool {
    ||| x.end <= y.start
    ||| y.end <= x.start
    ||| (x.start < y.start && y.end < x.end)
    ||| (y.start < x.start && x.end < y.end)
}

pub open spec fn properly_nested(r: Seq<ByteRange>) -> bool {
    forall|x: int, y: int| 0 <= x < r.len() && 0 <= y < r.len() && x != y ==> laminar(r[x], r[y])
}

/// Every span is non-empty and runs from a Start offset to an End offset.
pub open spec fn spans_from_markers(r: Seq<ByteRange>, starts: Seq<usize>, ends: Seq<usize>) -> bool {
    forall|x: int|
        0 <= x < r.len() ==> {
            &&& r[x].start < r[x].end
            &&& starts.contains(r[x].start)
            &&& ends.contains(r[x].end)
        }
}

pub open spec fn open_indices(v: Seq<usize>) -> Seq<int> {
    v.map_values(|t: usize| t as int)
}

/// Pairs Start offsets with End offsets into nested spans, ordered by Start.
/// An End closes the innermost open Start before it; an End with no such
/// Start is skipped, and a Start that no End closes is left out.
pub fn pair_regions(starts: &Vec<usize>, ends: &Vec<usize>) -> (r: Vec<ByteRange>)
    ensures
        r@ == pairing(starts@, ends@),
        spans_from_markers(r@, starts@, ends@),
        starts@.len() == 0 || ends@.len() == 0 ==> r@.len() == 0,
        strictly_ascending(starts@) && strictly_ascending(ends@) ==> properly_nested(r@),
{
    let n = starts.len();
    let mut closed: Vec<Option<usize>> = Vec::new();
    let mut k: usize = 0;
    while k < n
        invariant
            k <= n,
            n == starts@.len(),
            closed@ == Seq::new(k as nat, |a: int| None::<usize>),
        decreases n - k,
    {
        closed.push(None);
        k += 1;
        assert(closed@ =~= Seq::new(k as nat, |a: int| None::<usize>));
    }
    let mut open: Vec<usize> = Vec::new();
    let mut i: usize = 0;
    let mut j: usize = 0;
    assert(open_indices(open@) =~= seq![]);
    while j < ends.len()
        invariant
            i <= n,
            j <= ends@.len(),
            n == starts@.len(),
            closed@.len() == n,
            forall|x: int| 0 <= x < open@.len() ==> open@[x] < n,
            run(
                starts@,
                ends@,
                PairState {
                    next_start: i as int,
                    next_end: j as int,
                    open: open_indices(open@),
                    closed: closed@,
                },
            ) == run(starts@, ends@, initial_state(n as nat)),
        decreases n - i + ends@.len() - j,
    {
        let ghost before = PairState {
            next_start: i as int,
            next_end: j as int,
            open: open_indices(open@),
            closed: closed@,
        };
        if i < n && starts[i] <= ends[j] {
            open.push(i);
            i += 1;
            assert(open_indices(open@) =~= before.open.push(before.next_start));
        } else {
            let e = ends[j];
            if open.len() > 0 && starts[open[open.len() - 1]] < e {
                let t = open.pop().unwrap();
                closed.set(t, Some(e));
                assert(open_indices(open@) =~= before.open.drop_last());
            }
            j += 1;
        }
        assert(step(starts@, ends@, before) == PairState {
            next_start: i as int,
            next_end: j as int,
            open: open_indices(open@),
            closed: closed@,
        });
    }
    let ghost fin = run(starts@, ends@, initial_state(n as nat));
    let mut r: Vec<ByteRange> = Vec::new();
    let mut k: usize = 0;
    while k < n
        invariant
            k <= n,
            n == starts@.len(),
            closed@ == fin.closed,
            closed@.len() == n,
            r@ == matched_indices(closed@, k as nat).map_values(|a: int| span_of(starts@, closed@, a)),
        decreases n - k,
    {
        let ghost prev = matched_indices(closed@, k as nat);
        match closed[k] {
            Some(e) => {
                r.push(ByteRange { start: starts[k], end: e });
                assert(matched_indices(closed@, (k + 1) as nat) == prev.push(k as int));
                assert(r@ =~= prev.push(k as int).map_values(|a: int| span_of(starts@, closed@, a)));
            },
            None => {},
        }
        k += 1;
    }
    proof {
        lemma_spans_from_markers(starts@, ends@);
        if starts@.len() == 0 || ends@.len() == 0 {
            lemma_empty_markers(starts@, ends@);
        }
        if strictly_ascending(starts@) && strictly_ascending(ends@) {
            lemma_spans_nested(starts@, ends@);
        }
    }
    r
}

} // verus!
