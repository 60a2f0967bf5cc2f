//! What holds of the matcher's runs, and the laws that follow for `pairing`.
use vstd::prelude::*;
use crate::pairing::{
    ByteRange, PairState, initial_state, laminar, markers_valid, matched_indices, pairing,
    properly_nested, run, span_of, spans_from_markers, spans_of, step, strictly_ascending,
    well_nested,
};

verus! {

// ---------------------------------------------------------------------------
// The closed Starts, in order
// ---------------------------------------------------------------------------
proof fn lemma_matched_indices(closed: Seq<Option<usize>>, k: nat)
    requires
        k <= closed.len(),
    ensures
        forall|x: int|
            #![trigger matched_indices(closed, k)[x]]
            0 <= x < matched_indices(closed, k).len() ==> 0 <= matched_indices(closed, k)[x] < k
                && closed[matched_indices(closed, k)[x]] is Some,
        forall|x: int, y: int|
            0 <= x < y < matched_indices(closed, k).len() ==> matched_indices(closed, k)[x]
                < matched_indices(closed, k)[y],
        (forall|a: int| 0 <= a < k ==> closed[a] is Some) ==> matched_indices(closed, k).len()
            == k,
        (forall|a: int| 0 <= a < k ==> closed[a] is None) ==> matched_indices(closed, k).len()
            == 0,
    decreases k,
{
    if k > 0 {
        lemma_matched_indices(closed, (k - 1) as nat);
    }
}

/// `matched_indices` looks only at the first `k` entries.
proof fn lemma_matched_indices_prefix(c1: Seq<Option<usize>>, c2: Seq<Option<usize>>, k: nat)
    requires
        k <= c1.len(),
        k <= c2.len(),
        forall|a: int| 0 <= a < k ==> c1[a] == c2[a],
    ensures
        matched_indices(c1, k) == matched_indices(c2, k),
    decreases k,
{
    if k > 0 {
        lemma_matched_indices_prefix(c1, c2, (k - 1) as nat);
    }
}

// ---------------------------------------------------------------------------
// Shape of a state, on any input
// ---------------------------------------------------------------------------
spec fn basic_inv(starts: Seq<usize>, ends: Seq<usize>, st: PairState) -> bool {
    &&& 0 <= st.next_start <= starts.len()
    &&& 0 <= st.next_end <= ends.len()
    &&& st.closed.len() == starts.len()
    &&& forall|x: int| 0 <= x < st.open.len() ==> 0 <= #[trigger] st.open[x] < starts.len()
    &&& forall|a: int|
        0 <= a < st.closed.len() && #[trigger] st.closed[a] is Some ==> starts[a]
            < st.closed[a]->Some_0 && ends.contains(st.closed[a]->Some_0)
}

proof fn lemma_step_basic(starts: Seq<usize>, ends: Seq<usize>, st: PairState)
    requires
        basic_inv(starts, ends, st),
        st.next_end < ends.len(),
    ensures
        basic_inv(starts, ends, step(starts, ends, st)),
{
    let nx = step(starts, ends, st);
    assert forall|a: int| 0 <= a < nx.closed.len() && #[trigger] nx.closed[a] is Some implies starts[a]
        < nx.closed[a]->Some_0 && ends.contains(nx.closed[a]->Some_0) by {
        if st.closed[a] != nx.closed[a] {
            assert(ends[st.next_end] == nx.closed[a]->Some_0);
        }
    }
}

proof fn lemma_run_basic(starts: Seq<usize>, ends: Seq<usize>, st: PairState)
    requires
        basic_inv(starts, ends, st),
    ensures
        basic_inv(starts, ends, run(starts, ends, st)),
    decreases starts.len() - st.next_start + ends.len() - st.next_end,
{
    if 0 <= st.next_end < ends.len() && 0 <= st.next_start <= starts.len() {
        lemma_step_basic(starts, ends, st);
        lemma_run_basic(starts, ends, step(starts, ends, st));
    }
}

// ---------------------------------------------------------------------------
// Nesting, on strictly ascending marker lists
// ---------------------------------------------------------------------------
spec fn nest_inv(starts: Seq<usize>, ends: Seq<usize>, st: PairState) -> bool {
    let n = starts.len();
    let m = ends.len();
    &&& basic_inv(starts, ends, st)
    &&& forall|x: int, y: int|
        0 <= x < y < st.open.len() ==> #[trigger] st.open[x] < #[trigger] st.open[y]
    &&& forall|x: int|
        0 <= x < st.open.len() ==> #[trigger] st.open[x] < st.next_start
            && st.closed[st.open[x]] is None
    &&& forall|a: int|
        0 <= a < n && #[trigger] st.closed[a] is Some ==> {
            &&& a < st.next_start
            &&& st.next_end < m ==> st.closed[a]->Some_0 < ends[st.next_end]
            &&& st.next_start < n ==> st.closed[a]->Some_0 < starts[st.next_start]
        }
    &&& forall|a: int, x: int|
        0 <= a < n && 0 <= x < st.open.len() && #[trigger] st.closed[a] is Some && a
            < #[trigger] st.open[x] ==> st.closed[a]->Some_0 < starts[st.open[x]]
    &&& forall|a: int, b: int|
        0 <= a < b < n && #[trigger] st.closed[a] is Some && #[trigger] st.closed[b] is Some
            ==> laminar(span_of(starts, st.closed, a), span_of(starts, st.closed, b))
}

proof fn lemma_step_nest(starts: Seq<usize>, ends: Seq<usize>, st: PairState)
    requires
        strictly_ascending(starts),
        strictly_ascending(ends),
        nest_inv(starts, ends, st),
        st.next_end < ends.len(),
    ensures
        nest_inv(starts, ends, step(starts, ends, st)),
{
    let n = starts.len();
    let m = ends.len();
    let i = st.next_start;
    let j = st.next_end;
    let e = ends[j];
    let nx = step(starts, ends, st);
    lemma_step_basic(starts, ends, st);
    if i < n && starts[i] <= e {
        assert forall|x: int, y: int| 0 <= x < y < nx.open.len() implies #[trigger] nx.open[x]
            < #[trigger] nx.open[y] by {
            if y == nx.open.len() - 1 {
                assert(st.open[x] < i);
            } else {
                assert(st.open[x] < st.open[y]);
            }
        }
        assert forall|a: int, x: int|
            0 <= a < n && 0 <= x < nx.open.len() && #[trigger] nx.closed[a] is Some && a
                < #[trigger] nx.open[x] implies nx.closed[a]->Some_0 < starts[nx.open[x]] by {
            if x == nx.open.len() - 1 {
                assert(nx.open[x] == i);
            } else {
                assert(nx.open[x] == st.open[x]);
            }
        }
        assert forall|a: int| 0 <= a < n && #[trigger] nx.closed[a] is Some implies {
            &&& a < nx.next_start
            &&& nx.next_end < m ==> nx.closed[a]->Some_0 < ends[nx.next_end]
            &&& nx.next_start < n ==> nx.closed[a]->Some_0 < starts[nx.next_start]
        } by {
            if i + 1 < n {
                assert(starts[i] < starts[i + 1]);
            }
        }
        assert forall|x: int| 0 <= x < nx.open.len() implies #[trigger] nx.open[x] < nx.next_start
            && nx.closed[nx.open[x]] is None by {
            if x == nx.open.len() - 1 {
                assert(nx.open[x] == i);
            } else {
                assert(nx.open[x] == st.open[x]);
            }
        }
    } else if st.open.len() > 0 && starts[st.open.last()] < e {
        let t = st.open.last();
        let top = st.open.len() - 1;
        assert(st.open[top] == t);
        assert(nx.closed[t] == Some(e));
        assert forall|a: int| 0 <= a < n && #[trigger] nx.closed[a] is Some implies {
            &&& a < nx.next_start
            &&& nx.next_end < m ==> nx.closed[a]->Some_0 < ends[nx.next_end]
            &&& nx.next_start < n ==> nx.closed[a]->Some_0 < starts[nx.next_start]
        } by {
            if j + 1 < m {
                assert(ends[j] < ends[j + 1]);
            }
            if a != t {
                assert(st.closed[a] is Some);
            }
        }
        assert forall|x: int| 0 <= x < nx.open.len() implies #[trigger] nx.open[x] < nx.next_start
            && nx.closed[nx.open[x]] is None by {
            assert(nx.open[x] == st.open[x]);
            assert(st.open[x] < st.open[top]);
        }
        assert forall|a: int, x: int|
            0 <= a < n && 0 <= x < nx.open.len() && #[trigger] nx.closed[a] is Some && a
                < #[trigger] nx.open[x] implies nx.closed[a]->Some_0 < starts[nx.open[x]] by {
            assert(nx.open[x] == st.open[x]);
            assert(st.open[x] < st.open[top]);
        }
        assert forall|a: int, b: int|
            0 <= a < b < n && #[trigger] nx.closed[a] is Some && #[trigger] nx.closed[b] is Some
                implies laminar(span_of(starts, nx.closed, a), span_of(starts, nx.closed, b)) by {
            if a == t {
                assert(st.closed[b] is Some);
                assert(starts[a] < starts[b]);
                assert(st.closed[b]->Some_0 < ends[j]);
            } else if b == t {
                assert(st.closed[a] is Some);
                assert(st.open[top] == b);
            } else {
                assert(st.closed[a] is Some);
                assert(st.closed[b] is Some);
            }
        }
    } else {
        assert forall|a: int| 0 <= a < n && #[trigger] nx.closed[a] is Some implies {
            &&& a < nx.next_start
            &&& nx.next_end < m ==> nx.closed[a]->Some_0 < ends[nx.next_end]
            &&& nx.next_start < n ==> nx.closed[a]->Some_0 < starts[nx.next_start]
        } by {
            if j + 1 < m {
                assert(ends[j] < ends[j + 1]);
            }
        }
    }
}

proof fn lemma_run_nest(starts: Seq<usize>, ends: Seq<usize>, st: PairState)
    requires
        strictly_ascending(starts),
        strictly_ascending(ends),
        nest_inv(starts, ends, st),
    ensures
        nest_inv(starts, ends, run(starts, ends, st)),
    decreases starts.len() - st.next_start + ends.len() - st.next_end,
{
    if 0 <= st.next_end < ends.len() && 0 <= st.next_start <= starts.len() {
        lemma_step_nest(starts, ends, st);
        lemma_run_nest(starts, ends, step(starts, ends, st));
    }
}

// ---------------------------------------------------------------------------
// Counting, on well-nested marker lists
// ---------------------------------------------------------------------------
spec fn count_inv(starts: Seq<usize>, ends: Seq<usize>, st: PairState) -> bool {
    &&& basic_inv(starts, ends, st)
    &&& st.open.len() + st.next_end == st.next_start
    &&& forall|x: int| 0 <= x < st.open.len() ==> #[trigger] st.open[x] < st.next_start
    &&& forall|a: int|
        0 <= a < st.next_start && #[trigger] st.closed[a] is None ==> st.open.contains(a)
    &&& forall|a: int|
        0 <= a < st.next_start && st.next_end < ends.len() ==> #[trigger] starts[a]
            <= ends[st.next_end]
}

proof fn lemma_step_count(starts: Seq<usize>, ends: Seq<usize>, st: PairState)
    requires
        well_nested(starts, ends),
        count_inv(starts, ends, st),
        st.next_end < ends.len(),
    ensures
        count_inv(starts, ends, step(starts, ends, st)),
        step(starts, ends, st).next_end == st.next_end ==> step(starts, ends, st).next_start
            == st.next_start + 1,
{
    let n = starts.len();
    let m = ends.len();
    let i = st.next_start;
    let j = st.next_end;
    let e = ends[j];
    let nx = step(starts, ends, st);
    lemma_step_basic(starts, ends, st);
    if i < n && starts[i] <= e {
        assert forall|a: int| 0 <= a < nx.next_start && #[trigger] nx.closed[a] is None implies nx.open.contains(a) by {
            if a == i {
                assert(nx.open[nx.open.len() - 1] == i);
            } else {
                let x = choose|x: int| 0 <= x < st.open.len() && st.open[x] == a;
                assert(nx.open[x] == a);
            }
        }
        assert forall|x: int| 0 <= x < nx.open.len() implies #[trigger] nx.open[x] < nx.next_start by {
            if x < st.open.len() {
                assert(nx.open[x] == st.open[x]);
            }
        }
    } else {
        // The next End closes the innermost open Start.
        if i <= j {
            assert(starts[i] <= starts[j]);
            assert(starts[j] < ends[j]);
        }
        let top = st.open.len() - 1;
        let t = st.open[top];
        assert(starts[t] <= e);
        assert(starts[t] != e);
        assert(nx.closed == st.closed.update(t, Some(e)));
        assert forall|a: int| 0 <= a < nx.next_start && #[trigger] nx.closed[a] is None implies nx.open.contains(a) by {
            assert(a != t);
            let x = choose|x: int| 0 <= x < st.open.len() && st.open[x] == a;
            assert(x != top);
            assert(nx.open[x] == a);
        }
        assert forall|x: int| 0 <= x < nx.open.len() implies #[trigger] nx.open[x] < nx.next_start by {
            assert(nx.open[x] == st.open[x]);
        }
        assert forall|a: int| 0 <= a < nx.next_start && nx.next_end < m implies #[trigger] starts[a]
            <= ends[nx.next_end] by {
            assert(ends[j] < ends[j + 1]);
        }
    }
}

proof fn lemma_run_count(starts: Seq<usize>, ends: Seq<usize>, st: PairState)
    requires
        well_nested(starts, ends),
        count_inv(starts, ends, st),
    ensures
        count_inv(starts, ends, run(starts, ends, st)),
        run(starts, ends, st).next_end >= ends.len(),
    decreases starts.len() - st.next_start + ends.len() - st.next_end,
{
    if 0 <= st.next_end < ends.len() && 0 <= st.next_start <= starts.len() {
        lemma_step_count(starts, ends, st);
        lemma_run_count(starts, ends, step(starts, ends, st));
    }
}

// ---------------------------------------------------------------------------
// Runs that differ by a marker nobody uses
// ---------------------------------------------------------------------------
spec fn with_trailing_none(st: PairState) -> PairState {
    PairState { closed: st.closed.push(None), ..st }
}

proof fn lemma_run_trailing_start(starts: Seq<usize>, ends: Seq<usize>, x: usize, st: PairState)
    requires
        basic_inv(starts, ends, st),
        forall|k: int| 0 <= k < ends.len() ==> ends[k] < x,
    ensures
        run(starts.push(x), ends, with_trailing_none(st)) == with_trailing_none(
            run(starts, ends, st),
        ),
    decreases starts.len() - st.next_start + ends.len() - st.next_end,
{
    let longer = starts.push(x);
    if 0 <= st.next_end < ends.len() && 0 <= st.next_start <= starts.len() {
        let nx = step(starts, ends, st);
        let e = ends[st.next_end];
        if st.open.len() > 0 {
            assert(longer[st.open.last()] == starts[st.open.last()]);
            assert(st.closed.push(None).update(st.open.last(), Some(e)) =~= st.closed.update(
                st.open.last(),
                Some(e),
            ).push(None));
        }
        assert(step(longer, ends, with_trailing_none(st)) == with_trailing_none(nx));
        lemma_step_basic(starts, ends, st);
        lemma_run_trailing_start(starts, ends, x, nx);
    }
}

spec fn with_end_skipped(st: PairState) -> PairState {
    PairState { next_end: st.next_end + 1, ..st }
}

/// Past index `q`, `longer` is `ends` with one more End at `q`: a run on
/// `longer` from a state that has already passed that End matches the run
/// on `ends`, one End ahead.
proof fn lemma_run_shifted(
    starts: Seq<usize>,
    ends: Seq<usize>,
    longer: Seq<usize>,
    q: int,
    st: PairState,
)
    requires
        longer.len() == ends.len() + 1,
        forall|j: int| q <= j < ends.len() ==> longer[j + 1] == ends[j],
        0 <= q <= st.next_end,
    ensures
        run(starts, longer, with_end_skipped(st)) == with_end_skipped(run(starts, ends, st)),
    decreases starts.len() - st.next_start + ends.len() - st.next_end,
{
    if 0 <= st.next_end < ends.len() && 0 <= st.next_start <= starts.len() {
        assert(longer[st.next_end + 1] == ends[st.next_end]);
        assert(step(starts, longer, with_end_skipped(st)) == with_end_skipped(
            step(starts, ends, st),
        ));
        lemma_run_shifted(starts, ends, longer, q, step(starts, ends, st));
    }
}

/// Before the extra End at index `q` comes up, the markers seen so far are
/// balanced: every pushed Start is below `k`, and each End so far closed one.
spec fn before_orphan_inv(
    starts: Seq<usize>,
    ends: Seq<usize>,
    q: int,
    k: int,
    st: PairState,
) -> bool {
    &&& 0 <= st.next_start <= k
    &&& 0 <= st.next_end <= q
    &&& st.open.len() + st.next_end == st.next_start
    &&& forall|x: int| 0 <= x < st.open.len() ==> 0 <= #[trigger] st.open[x] < st.next_start
    &&& forall|a: int|
        0 <= a < st.next_start && st.next_end < q ==> #[trigger] starts[a] <= ends[st.next_end]
}

proof fn lemma_run_before_orphan(
    starts: Seq<usize>,
    before: Seq<usize>,
    y: usize,
    after: Seq<usize>,
    k: int,
    st: PairState,
)
    requires
        markers_valid(starts, before + seq![y] + after),
        0 <= k <= starts.len(),
        well_nested(starts.subrange(0, k), before),
        forall|a: int| k <= a < starts.len() ==> y < starts[a],
        before_orphan_inv(starts, before + after, before.len() as int, k, st),
    ensures
        run(starts, before + seq![y] + after, st).closed == run(starts, before + after, st).closed,
    decreases starts.len() - st.next_start + before.len() + after.len() - st.next_end,
{
    let longer = before + seq![y] + after;
    let ends = before + after;
    let q = before.len() as int;
    let n = starts.len();
    let i = st.next_start;
    let j = st.next_end;
    let prefix = starts.subrange(0, k);
    assert forall|a: int| 0 <= a < q implies longer[a] == ends[a] && ends[a] == before[a] && before[a] < y by {
        assert(longer[a] < longer[q]);
    }
    if j < q {
        let e = ends[j];
        assert(longer[j] == e);
        assert(step(starts, longer, st) == step(starts, ends, st));
        let nx = step(starts, ends, st);
        if i < n && starts[i] <= e {
            assert(i < k);
            assert forall|x: int| 0 <= x < nx.open.len() implies 0 <= #[trigger] nx.open[x] < nx.next_start by {
                if x < st.open.len() {
                    assert(nx.open[x] == st.open[x]);
                }
            }
        } else {
            if i <= j {
                assert(prefix[i] == starts[i] && prefix[j] == starts[j]);
                assert(starts[i] <= starts[j]);
                assert(prefix[j] < before[j]);
            }
            let top = st.open.len() - 1;
            let t = st.open[top];
            assert(starts[t] <= e);
            assert(longer[j] == e);
            assert(starts[t] != e);
            assert forall|x: int| 0 <= x < nx.open.len() implies 0 <= #[trigger] nx.open[x] < nx.next_start by {
                assert(nx.open[x] == st.open[x]);
            }
            assert forall|a: int| 0 <= a < nx.next_start && nx.next_end < q implies #[trigger] starts[a]
                <= ends[nx.next_end] by {
                assert(longer[j] < longer[j + 1]);
            }
        }
        lemma_run_before_orphan(starts, before, y, after, k, nx);
    } else {
        // Every Start before the orphan End is closed, and the next Start comes after it.
        assert(st.open.len() == 0);
        assert(i == k);
        assert(longer[q] == y);
        assert(step(starts, longer, st) == with_end_skipped(st));
        assert forall|m: int| q <= m < ends.len() implies longer[m + 1] == ends[m] by {
            assert(ends[m] == after[m - q]);
            assert(longer[m + 1] == after[m - q]);
        }
        lemma_run_shifted(starts, ends, longer, q, st);
    }
}

// ---------------------------------------------------------------------------
// Laws
// ---------------------------------------------------------------------------
/// Every span that pairing emits is non-empty, starts at a Start offset and
/// ends at an End offset, whatever the marker lists.
pub proof fn lemma_spans_from_markers(starts: Seq<usize>, ends: Seq<usize>)
    ensures
        spans_from_markers(pairing(starts, ends), starts, ends),
{
    let init = initial_state(starts.len());
    lemma_run_basic(starts, ends, init);
    let c = run(starts, ends, init).closed;
    let mi = matched_indices(c, starts.len());
    lemma_matched_indices(c, starts.len());
    let r = pairing(starts, ends);
    assert forall|x: int| 0 <= x < r.len() implies {
        &&& r[x].start < r[x].end
        &&& starts.contains(r[x].start)
        &&& ends.contains(r[x].end)
    } by {
        let a = mi[x];
        assert(c[a] is Some);
        assert(starts[a] == r[x].start);
    }
}

/// With no Start or no End at all, pairing emits nothing.
pub proof fn lemma_empty_markers(starts: Seq<usize>, ends: Seq<usize>)
    requires
        starts.len() == 0 || ends.len() == 0,
    ensures
        pairing(starts, ends).len() == 0,
{
    let init = initial_state(starts.len());
    let c = run(starts, ends, init).closed;
    lemma_run_basic(starts, ends, init);
    lemma_matched_indices(c, starts.len());
    if ends.len() == 0 {
        assert(run(starts, ends, init) == init);
    }
}

/// On strictly ascending marker lists, any two emitted spans are disjoint or
/// one lies strictly inside the other: they never overlap partly.
pub proof fn lemma_spans_nested(starts: Seq<usize>, ends: Seq<usize>)
    requires
        strictly_ascending(starts),
        strictly_ascending(ends),
    ensures
        properly_nested(pairing(starts, ends)),
{
    let init = initial_state(starts.len());
    lemma_run_nest(starts, ends, init);
    let c = run(starts, ends, init).closed;
    let mi = matched_indices(c, starts.len());
    lemma_matched_indices(c, starts.len());
    let r = pairing(starts, ends);
    assert forall|x: int, y: int| 0 <= x < r.len() && 0 <= y < r.len() && x != y implies laminar(
        r[x],
        r[y],
    ) by {
        let a = mi[x];
        let b = mi[y];
        assert(c[a] is Some && c[b] is Some);
        if x < y {
            assert(a < b);
        } else {
            assert(b < a);
        }
    }
}

/// Pairing is a function of the two marker lists alone: two runs on the same
/// lists give the same spans.
pub proof fn lemma_pairing_deterministic(
    starts: Seq<usize>,
    ends: Seq<usize>,
    first: Seq<ByteRange>,
    second: Seq<ByteRange>,
)
    requires
        first == pairing(starts, ends),
        second == pairing(starts, ends),
    ensures
        first == second,
{
}

/// Balanced, well-nested markers all find their partner: pairing emits one
/// span for each Start.
pub proof fn lemma_balanced_all_matched(starts: Seq<usize>, ends: Seq<usize>)
    requires
        well_nested(starts, ends),
    ensures
        pairing(starts, ends).len() == starts.len(),
{
    let n = starts.len();
    let init = initial_state(n);
    assert(init.open.len() == 0);
    lemma_run_count(starts, ends, init);
    let fin = run(starts, ends, init);
    let c = fin.closed;
    assert forall|a: int| 0 <= a < n implies c[a] is Some by {
        if c[a] is None {
            assert(fin.open.contains(a));
        }
    }
    lemma_matched_indices(c, n);
}

/// A Start after the last End is dropped and changes nothing else: pairing
/// emits the same spans as without it.
pub proof fn lemma_trailing_start_dropped(starts: Seq<usize>, ends: Seq<usize>, x: usize)
    requires
        forall|k: int| 0 <= k < ends.len() ==> ends[k] < x,
    ensures
        pairing(starts.push(x), ends) == pairing(starts, ends),
        well_nested(starts, ends) ==> pairing(starts.push(x), ends).len() == starts.len(),
{
    let n = starts.len();
    let longer = starts.push(x);
    let init = initial_state(n);
    assert(initial_state(n + 1) == with_trailing_none(init)) by {
        assert(Seq::new(n + 1, |a: int| None::<usize>) =~= Seq::new(n, |a: int| None::<usize>).push(
            None,
        ));
    }
    lemma_run_trailing_start(starts, ends, x, init);
    lemma_run_basic(starts, ends, init);
    let c = run(starts, ends, init).closed;
    let c2 = c.push(None);
    lemma_matched_indices_prefix(c2, c, n);
    assert(matched_indices(c2, n + 1) == matched_indices(c, n));
    lemma_matched_indices(c, n);
    let mi = matched_indices(c, n);
    assert(spans_of(longer, c2) =~= spans_of(starts, c)) by {
        assert forall|k: int| 0 <= k < mi.len() implies span_of(longer, c2, mi[k]) == span_of(
            starts,
            c,
            mi[k],
        ) by {
            assert(mi[k] < n);
        }
    }
    if well_nested(starts, ends) {
        lemma_balanced_all_matched(starts, ends);
    }
}

/// An End before every Start closes nothing and is not held against any later
/// Start: pairing emits the same spans as without it.
pub proof fn lemma_leading_end_skipped(starts: Seq<usize>, ends: Seq<usize>, y: usize)
    requires
        forall|a: int| 0 <= a < starts.len() ==> y < starts[a],
    ensures
        pairing(starts, seq![y] + ends) == pairing(starts, ends),
{
    let longer = seq![y] + ends;
    let init = initial_state(starts.len());
    assert(longer[0] == y);
    assert(step(starts, longer, init) == with_end_skipped(init));
    assert forall|j: int| 0 <= j < ends.len() implies longer[j + 1] == ends[j] by {}
    lemma_run_shifted(starts, ends, longer, 0, init);
}

/// An End that comes when no Start is open closes nothing and is not held
/// against any later Start: when the markers before it are balanced and well
/// nested and every later Start comes after it, pairing emits the same spans
/// as without it, and none of them ends there.
pub proof fn lemma_orphan_end_skipped(
    starts: Seq<usize>,
    before: Seq<usize>,
    y: usize,
    after: Seq<usize>,
    k: int,
)
    requires
        markers_valid(starts, before + seq![y] + after),
        0 <= k <= starts.len(),
        well_nested(starts.subrange(0, k), before),
        forall|a: int| k <= a < starts.len() ==> y < starts[a],
    ensures
        pairing(starts, before + seq![y] + after) == pairing(starts, before + after),
        forall|x: int|
            0 <= x < pairing(starts, before + after).len() ==> pairing(starts, before + after)[x].end
                != y,
{
    let longer = before + seq![y] + after;
    let ends = before + after;
    let q = before.len() as int;
    let init = initial_state(starts.len());
    lemma_run_before_orphan(starts, before, y, after, k, init);
    lemma_spans_from_markers(starts, ends);
    let r = pairing(starts, ends);
    assert forall|x: int| 0 <= x < r.len() implies r[x].end != y by {
        let m = choose|m: int| 0 <= m < ends.len() && ends[m] == r[x].end;
        if m < q {
            assert(longer[m] == ends[m]);
            assert(longer[m] < longer[q]);
        } else {
            assert(longer[m + 1] == ends[m]);
            assert(longer[q] < longer[m + 1]);
        }
    }
}

} // verus!
