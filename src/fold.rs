//! Folds: matched spans marked with what kind of fold they are.
use vstd::prelude::*;
use vstd::string::*;
use vstd::utf8::*;
use crate::markers::{endregion_offsets, find_markers, region_offsets};
use crate::pairing::{ByteRange, pair_regions, pairing, properly_nested};
use crate::report::folds_on_boundaries;

verus! {

/// What a fold stands for.
#[derive(Clone, Copy, Debug, PartialEq, Eq, Structural)]
pub enum FoldKind {
    Region,
}

/// A foldable byte range of a source text.
#[derive(Clone, Copy, Debug, PartialEq, Eq, Structural)]
pub struct Fold {
    pub range: ByteRange,
    pub kind: FoldKind,
}

pub open spec fn fold_of(span: ByteRange) -> Fold {
    Fold { range: span, kind: FoldKind::Region }
}

pub open spec fn folds_of(spans: Seq<ByteRange>) -> Seq<Fold> {
    spans.map_values(|span: ByteRange| fold_of(span))
}

pub open spec fn ranges_of(folds: Seq<Fold>) -> Seq<ByteRange> {
    folds.map_values(|f: Fold| f.range)
}

/// Turns each matched span into a region fold, keeping the order.
pub fn folds_from_spans(spans: &Vec<ByteRange>) -> (r: Vec<Fold>)
    ensures
        r@ == folds_of(spans@),
{
    let mut r: Vec<Fold> = Vec::new();
    let mut k: usize = 0;
    while k < spans.len()
        invariant
            k <= spans@.len(),
            r@ == folds_of(spans@.subrange(0, k as int)),
        decreases spans@.len() - k,
    {
        r.push(Fold { range: spans[k], kind: FoldKind::Region });
        k += 1;
        assert(r@ =~= folds_of(spans@.subrange(0, k as int)));
    }
    assert(spans@.subrange(0, k as int) =~= spans@);
    r
}

/// The region folds of `code_text`: its marker lines paired into nested
/// spans, ordered by where they begin.
pub fn get_vec_of_fold(code_text: &str) -> (r: Vec<Fold>)
    ensures
        r@ == folds_of(pairing(region_offsets(code_text), endregion_offsets(code_text))),
        properly_nested(ranges_of(r@)),
        folds_on_boundaries(r@, code_text),
        forall|x: int| 0 <= x < r@.len() ==> r@[x].range.start < r@[x].range.end,
{
    let (starts, ends) = find_markers(code_text);
    let spans = pair_regions(&starts, &ends);
    let r = folds_from_spans(&spans);
    assert(ranges_of(r@) =~= spans@);
    assert forall|x: int| 0 <= x < r@.len() implies r@[x].range.start < r@[x].range.end
        && is_char_boundary(code_text.spec_bytes(), r@[x].range.start as int)
        && is_char_boundary(code_text.spec_bytes(), r@[x].range.end as int) by {
        let span = spans@[x];
        assert(starts@.contains(span.start));
        assert(ends@.contains(span.end));
    }
    r
}

} // verus!
