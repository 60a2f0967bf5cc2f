//! Finding the Start and End marker lines of a source text.
//!
//! A Start marker is a line that, after optional blanks (spaces or tabs),
//! holds `//`, an optional space, an optional `#` and then `region:`; an End
//! marker has `endregion` in place of `region:`. Each marker is reported as
//! the byte offset where its line begins.
use vstd::prelude::*;
use vstd::string::*;
use vstd::utf8::*;
use crate::pairing::strictly_ascending;

verus! {

#[verifier::external_type_specification]
#[verifier::external_body]
pub struct ExRegexError(regex::Error);

/// Lines that open a region.
pub const REGION_PATTERN: &'static str = r"(?m)^[ \t]*//[ ]?[#]?region:";

/// Lines that close a region.
pub const ENDREGION_PATTERN: &'static str = r"(?m)^[ \t]*//[ ]?[#]?endregion";

/// Offset `p` begins a line: it is the start of the text or follows a line
/// feed.
pub open spec fn is_line_start(b: Seq<u8>, p: int) -> bool {
    p == 0 || (0 < p <= b.len() && b[p - 1] == 10)
}

/// The first offset at or after `p` that does not hold a space or a tab.
pub open spec fn skip_blanks(b: Seq<u8>, p: int) -> int
    decreases b.len() - p,
{
    if 0 <= p < b.len() && (b[p] == 32 || b[p] == 9) {
        skip_blanks(b, p + 1)
    } else {
        p
    }
}

/// The bytes `w` stand in `b` from offset `q` on.
pub open spec fn holds_at(b: Seq<u8>, q: int, w: Seq<u8>) -> bool {
    0 <= q && q + w.len() <= b.len() && b.subrange(q, q + w.len()) == w
}

/// At `q` stand `//`, an optional space, an optional `#`, then `word`.
pub open spec fn comment_marker_at(b: Seq<u8>, q: int, word: Seq<u8>) -> bool {
    &&& holds_at(b, q, seq![47u8, 47u8])
    &&& {
        ||| holds_at(b, q + 2, word)
        ||| holds_at(b, q + 2, seq![32u8] + word)
        ||| holds_at(b, q + 2, seq![35u8] + word)
        ||| holds_at(b, q + 2, seq![32u8, 35u8] + word)
    }
}

/// A marker line for `word` begins at `p`.
pub open spec fn marker_line_at(b: Seq<u8>, p: int, word: Seq<u8>) -> bool {
    is_line_start(b, p) && comment_marker_at(b, skip_blanks(b, p), word)
}

/// The offsets below `n` where a marker line for `word` begins, ascending.
pub open spec fn marker_offsets(b: Seq<u8>, word: Seq<u8>, n: nat) -> Seq<usize>
    decreases n,
{
    if n == 0 {
        seq![]
    } else {
        let prev = marker_offsets(b, word, (n - 1) as nat);
        if marker_line_at(b, n - 1, word) {
            prev.push((n - 1) as usize)
        } else {
            prev
        }
    }
}

/// `region:` in ASCII.
pub open spec fn region_word() -> Seq<u8> {
    seq![114u8, 101u8, 103u8, 105u8, 111u8, 110u8, 58u8]
}

/// `endregion` in ASCII.
pub open spec fn endregion_word() -> Seq<u8> {
    seq![101u8, 110u8, 100u8, 114u8, 101u8, 103u8, 105u8, 111u8, 110u8]
}

/// Where the Start marker lines of `text` begin.
pub open spec fn region_offsets(text: &str) -> Seq<usize> {
    marker_offsets(text.spec_bytes(), region_word(), text.spec_bytes().len())
}

/// Where the End marker lines of `text` begin.
pub open spec fn endregion_offsets(text: &str) -> Seq<usize> {
    marker_offsets(text.spec_bytes(), endregion_word(), text.spec_bytes().len())
}

/// Offsets that a scan of `text` may report: strictly ascending, each on a
/// character boundary of the text.
pub open spec fn scan_offsets(offsets: Seq<usize>, text: &str) -> bool {
    &&& strictly_ascending(offsets)
    &&& forall|x: int|
        0 <= x < offsets.len() ==> offsets[x] <= text.spec_bytes().len() && is_char_boundary(
            text.spec_bytes(),
            offsets[x] as int,
        )
}

/// Relies on `regex::Regex::new`, `regex::Regex::find_iter` and
/// `regex::Match::start`: compiles `pattern` and gives the byte offsets at
/// which its successive non-overlapping matches in `text` begin.
/// - Each search resumes where the last match ended, one further after an
///   empty match, so the offsets ascend strictly; every offset of the `Regex`
///   API lies on a character boundary.
/// - Both marker patterns are valid and far below the size limit, so they
///   compile. In them `(?m)^` matches at the start of the text and after each
///   line feed, and no match reaches past its line, so the matches begin
///   exactly at the marker lines.
#[verifier::external_body]
fn find_match_starts(pattern: &str, text: &str) -> (r: Result<Vec<usize>, regex::Error>)
    ensures
        r is Ok ==> scan_offsets(r->Ok_0@, text),
        pattern@ == REGION_PATTERN@ ==> r is Ok && r->Ok_0@ == region_offsets(text),
        pattern@ == ENDREGION_PATTERN@ ==> r is Ok && r->Ok_0@ == endregion_offsets(text),
{
    let re = regex::Regex::new(pattern)?;
    Ok(re.find_iter(text).map(|m| m.start()).collect())
}

/// The offsets of the Start markers and of the End markers in `code_text`,
/// each list in text order.
pub fn find_markers(code_text: &str) -> (r: (Vec<usize>, Vec<usize>))
    ensures
        r.0@ == region_offsets(code_text),
        r.1@ == endregion_offsets(code_text),
        scan_offsets(r.0@, code_text),
        scan_offsets(r.1@, code_text),
{
    let starts = find_match_starts(REGION_PATTERN, code_text).unwrap();
    let ends = find_match_starts(ENDREGION_PATTERN, code_text).unwrap();
    (starts, ends)
}

} // verus!
