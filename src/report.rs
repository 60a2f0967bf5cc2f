//! Human-readable listing of folds: each fold's offsets beside the trimmed
//! text of the line where it opens and of the line where it closes.
use vstd::prelude::*;
use vstd::string::*;
use vstd::utf8::*;
use crate::fold::Fold;

verus! {

broadcast use vstd::utf8::encode_utf8_decode_utf8, vstd::utf8::encode_utf8_valid_utf8;

/// The index of the first line feed at or after `pos`, or the length of
/// `bytes` if there is none.
pub open spec fn line_end(bytes: Seq<u8>, pos: int) -> int
    decreases bytes.len() - pos,
{
    if pos >= bytes.len() {
        bytes.len() as int
    } else if bytes[pos] == 10 {
        pos
    } else {
        line_end(bytes, pos + 1)
    }
}

/// The bytes from `pos` up to the next line feed or the end of the text.
pub open spec fn line_bytes(bytes: Seq<u8>, pos: int) -> Seq<u8> {
    bytes.subrange(pos, line_end(bytes, pos))
}

/// The characters from `pos` up to the next line feed or the end of `text`.
pub open spec fn line_chars(text: &str, pos: int) -> Seq<char> {
    decode_utf8(line_bytes(text.spec_bytes(), pos))
}

proof fn lemma_line_end(bytes: Seq<u8>, pos: int, k: int)
    requires
        0 <= pos <= k <= bytes.len(),
        k == bytes.len() || bytes[k] == 10,
        forall|j: int| pos <= j < k ==> bytes[j] != 10,
    ensures
        line_end(bytes, pos) == k,
    decreases k - pos,
{
    if pos < k {
        lemma_line_end(bytes, pos + 1, k);
    }
}

/// The text from `pos` to the end of its line, without the line feed.
pub fn get_str_to_end_of_line(code_text: &str, pos: usize) -> (r: &str)
    requires
        is_char_boundary(code_text.spec_bytes(), pos as int),
    ensures
        r.spec_bytes() == line_bytes(code_text.spec_bytes(), pos as int),
        r@ == line_chars(code_text, pos as int),
{
    let ghost bytes = code_text.spec_bytes();
    proof {
        lemma_char_boundary_in_bounds(bytes, pos as int);
    }
    let (_, rest) = code_text.split_at(pos);
    let ghost rb = rest.spec_bytes();
    assert(rb =~= bytes.subrange(pos as int, bytes.len() as int));
    let rest_bytes = rest.as_bytes();
    let mut k: usize = 0;
    while k < rest_bytes.len() && rest_bytes[k] != 10
        invariant
            k <= rb.len(),
            rest_bytes@ == rb,
            forall|j: int| 0 <= j < k ==> rb[j] != 10,
        decreases rb.len() - k,
    {
        k += 1;
    }
    proof {
        assert forall|j: int| pos <= j < pos + k implies bytes[j] != 10 by {
            assert(rb[j - pos] == bytes[j]);
        }
        if k < rb.len() {
            assert(rb[k as int] == bytes[pos + k]);
        }
        lemma_line_end(bytes, pos as int, pos + k);
    }
    if k < rest_bytes.len() {
        proof {
            is_char_boundary_iff_not_is_continuation_byte(rb, k as int);
        }
        let (line, _) = rest.split_at(k);
        assert(line.spec_bytes() =~= line_bytes(bytes, pos as int));
        line
    } else {
        assert(rest.spec_bytes() =~= line_bytes(bytes, pos as int));
        rest
    }
}

proof fn lemma_char_boundary_in_bounds(bytes: Seq<u8>, pos: int)
    requires
        valid_utf8(bytes),
        is_char_boundary(bytes, pos),
    ensures
        0 <= pos <= bytes.len(),
{
}

/// White space as Unicode's White_Space property defines it.
pub open spec fn is_white_space(c: char) -> bool {
    let u = c as u32;
    ||| 0x9 <= u <= 0xd
    ||| u == 0x20 || u == 0x85 || u == 0xa0 || u == 0x1680
    ||| 0x2000 <= u <= 0x200a
    ||| u == 0x2028 || u == 0x2029 || u == 0x202f || u == 0x205f || u == 0x3000
}

/// `s` without its leading white space.
pub open spec fn trim_start_chars(s: Seq<char>) -> Seq<char>
    decreases s.len(),
{
    if s.len() > 0 && is_white_space(s[0]) {
        trim_start_chars(s.drop_first())
    } else {
        s
    }
}

/// `s` without its trailing white space.
pub open spec fn trim_end_chars(s: Seq<char>) -> Seq<char>
    decreases s.len(),
{
    if s.len() > 0 && is_white_space(s.last()) {
        trim_end_chars(s.drop_last())
    } else {
        s
    }
}

/// `s` without leading and trailing white space.
pub open spec fn trim_chars(s: Seq<char>) -> Seq<char> {
    trim_end_chars(trim_start_chars(s))
}

/// Relies on `str::trim`: `s` without the leading and trailing characters
/// that have Unicode's White_Space property.
#[verifier::external_body]
fn trimmed(s: &str) -> (r: &str)
    ensures
        r@ == trim_chars(s@),
{
    s.trim()
}

/// `n` in decimal digits.
pub open spec fn decimal(n: nat) -> Seq<char>
    decreases n,
{
    let digit = seq!['0', '1', '2', '3', '4', '5', '6', '7', '8', '9'][(n % 10) as int];
    if n < 10 {
        seq![digit]
    } else {
        decimal(n / 10).push(digit)
    }
}

pub open spec fn spaces(k: nat) -> Seq<char> {
    Seq::new(k, |i: int| ' ')
}

/// `s` behind enough spaces to fill `width` characters.
pub open spec fn pad_left(s: Seq<char>, width: nat) -> Seq<char> {
    if s.len() < width {
        spaces((width - s.len()) as nat) + s
    } else {
        s
    }
}

/// `s` followed by enough spaces to fill `width` characters.
pub open spec fn pad_right(s: Seq<char>, width: nat) -> Seq<char> {
    if s.len() < width {
        s + spaces((width - s.len()) as nat)
    } else {
        s
    }
}

/// Columns of a listing line: each offset, the opening line, the closing line.
pub const OFFSET_WIDTH: usize = 5;

pub const START_LINE_WIDTH: usize = 14;

pub const END_LINE_WIDTH: usize = 20;

/// One line of the listing: both offsets right-aligned, then the opening and
/// the closing line left-aligned, each in its column.
pub open spec fn row_text(start: nat, end: nat, first: Seq<char>, last: Seq<char>) -> Seq<char> {
    pad_left(decimal(start), OFFSET_WIDTH as nat) + seq![' '] + pad_left(
        decimal(end),
        OFFSET_WIDTH as nat,
    ) + seq![' ', ':', ' ', ' '] + pad_right(first, START_LINE_WIDTH as nat) + seq![' ', ' ', ' ']
        + pad_right(last, END_LINE_WIDTH as nat) + seq!['\n']
}

/// Relies on `format!` with `{:>w$}`: `n` in decimal, right-aligned and
/// padded with spaces to `width` characters.
#[verifier::external_body]
fn right_aligned(n: usize, width: usize) -> (r: String)
    ensures
        r@ == pad_left(decimal(n as nat), width as nat),
{
    format!("{:>w$}", n, w = width)
}

/// Relies on `format!` with `{:<w$}`: `s` left-aligned and padded with
/// spaces to `width` characters, counted in characters.
#[verifier::external_body]
fn left_aligned(s: &str, width: usize) -> (r: String)
    ensures
        r@ == pad_right(s@, width as nat),
{
    format!("{:<w$}", s, w = width)
}

/// The listing line of one fold of `text`.
pub open spec fn fold_row(fold: Fold, text: &str) -> Seq<char> {
    row_text(
        fold.range.start as nat,
        fold.range.end as nat,
        trim_chars(line_chars(text, fold.range.start as int)),
        trim_chars(line_chars(text, fold.range.end as int)),
    )
}

/// The listing lines of the first `k` folds.
pub open spec fn report_text(folds: Seq<Fold>, text: &str, k: nat) -> Seq<char>
    decreases k,
{
    if k == 0 {
        seq![]
    } else {
        report_text(folds, text, (k - 1) as nat) + fold_row(folds[k - 1], text)
    }
}

/// Both ends of every fold lie on character boundaries of `text`.
pub open spec fn folds_on_boundaries(folds: Seq<Fold>, text: &str) -> bool {
    forall|x: int|
        0 <= x < folds.len() ==> is_char_boundary(text.spec_bytes(), folds[x].range.start as int)
            && is_char_boundary(text.spec_bytes(), folds[x].range.end as int)
}

/// How many line feeds `s` holds.
pub open spec fn line_feed_count(s: Seq<char>) -> nat
    decreases s.len(),
{
    if s.len() == 0 {
        0
    } else {
        line_feed_count(s.drop_last()) + if s.last() == '\n' {
            1nat
        } else {
            0nat
        }
    }
}

pub open spec fn has_no_line_feed(s: Seq<char>) -> bool {
    forall|i: int| 0 <= i < s.len() ==> s[i] != '\n'
}

proof fn lemma_line_feed_count_add(a: Seq<char>, b: Seq<char>)
    ensures
        line_feed_count(a + b) == line_feed_count(a) + line_feed_count(b),
    decreases b.len(),
{
    if b.len() > 0 {
        assert((a + b).drop_last() =~= a + b.drop_last());
        lemma_line_feed_count_add(a, b.drop_last());
    } else {
        assert(a + b =~= a);
    }
}

proof fn lemma_no_line_feed_count(s: Seq<char>)
    requires
        has_no_line_feed(s),
    ensures
        line_feed_count(s) == 0,
    decreases s.len(),
{
    if s.len() > 0 {
        lemma_no_line_feed_count(s.drop_last());
    }
}

proof fn lemma_decimal_no_line_feed(n: nat)
    ensures
        has_no_line_feed(decimal(n)),
    decreases n,
{
    let digits = seq!['0', '1', '2', '3', '4', '5', '6', '7', '8', '9'];
    assert(digits[(n % 10) as int] != '\n');
    if n >= 10 {
        lemma_decimal_no_line_feed(n / 10);
    }
}

proof fn lemma_pad_no_line_feed(s: Seq<char>, width: nat)
    requires
        has_no_line_feed(s),
    ensures
        has_no_line_feed(pad_left(s, width)),
        has_no_line_feed(pad_right(s, width)),
{
    if s.len() < width {
        let pad = spaces((width - s.len()) as nat);
        assert forall|i: int| 0 <= i < (pad + s).len() implies (pad + s)[i] != '\n' by {
            if i >= pad.len() {
                assert((pad + s)[i] == s[i - pad.len()]);
            }
        }
        assert forall|i: int| 0 <= i < (s + pad).len() implies (s + pad)[i] != '\n' by {
            if i >= s.len() {
                assert((s + pad)[i] == pad[i - s.len()]);
            }
        }
    }
}

proof fn lemma_trim_no_line_feed(s: Seq<char>)
    requires
        has_no_line_feed(s),
    ensures
        has_no_line_feed(trim_start_chars(s)),
        has_no_line_feed(trim_end_chars(s)),
    decreases s.len(),
{
    if s.len() > 0 {
        assert(has_no_line_feed(s.drop_first()));
        assert(has_no_line_feed(s.drop_last()));
        lemma_trim_no_line_feed(s.drop_first());
        lemma_trim_no_line_feed(s.drop_last());
    }
}

/// A line feed among `chars` puts the byte 10 in their encoding.
proof fn lemma_encoding_shows_line_feed(chars: Seq<char>)
    requires
        forall|j: int| 0 <= j < encode_utf8(chars).len() ==> encode_utf8(chars)[j] != 10,
    ensures
        has_no_line_feed(chars),
    decreases chars.len(),
{
    if chars.len() > 0 {
        let head = encode_scalar(chars[0] as u32);
        let tail = encode_utf8(chars.drop_first());
        assert(encode_utf8(chars) == head + tail);
        assert forall|j: int| 0 <= j < tail.len() implies tail[j] != 10 by {
            assert((head + tail)[head.len() + j] == tail[j]);
        }
        lemma_encoding_shows_line_feed(chars.drop_first());
        if chars[0] == '\n' {
            assert((10u32 & 0x7fu32) == 10u32) by (bit_vector);
            assert(head[0] == 10);
            assert((head + tail)[0] == head[0]);
        }
        assert forall|i: int| 0 <= i < chars.len() implies chars[i] != '\n' by {
            if i > 0 {
                assert(chars[i] == chars.drop_first()[i - 1]);
            }
        }
    }
}

proof fn lemma_line_bytes_no_line_feed(bytes: Seq<u8>, pos: int)
    requires
        0 <= pos <= bytes.len(),
    ensures
        pos <= line_end(bytes, pos) <= bytes.len(),
        forall|j: int| pos <= j < line_end(bytes, pos) ==> bytes[j] != 10,
    decreases bytes.len() - pos,
{
    if pos < bytes.len() && bytes[pos] != 10 {
        lemma_line_bytes_no_line_feed(bytes, pos + 1);
    }
}

/// The trimmed preview of a line holds no line feed.
proof fn lemma_preview_no_line_feed(line: &str, text: &str, pos: int)
    requires
        0 <= pos <= text.spec_bytes().len(),
        line.spec_bytes() == line_bytes(text.spec_bytes(), pos),
    ensures
        has_no_line_feed(trim_chars(line@)),
{
    lemma_line_bytes_no_line_feed(text.spec_bytes(), pos);
    let lb = line_bytes(text.spec_bytes(), pos);
    assert forall|j: int| 0 <= j < encode_utf8(line@).len() implies encode_utf8(line@)[j] != 10 by {
        assert(lb[j] == text.spec_bytes()[pos + j]);
    }
    lemma_encoding_shows_line_feed(line@);
    lemma_trim_no_line_feed(line@);
    lemma_trim_no_line_feed(trim_start_chars(line@));
}

proof fn lemma_row_one_line_feed(fold: Fold, text: &str, first_line: &str, last_line: &str)
    requires
        is_char_boundary(text.spec_bytes(), fold.range.start as int),
        is_char_boundary(text.spec_bytes(), fold.range.end as int),
        first_line.spec_bytes() == line_bytes(text.spec_bytes(), fold.range.start as int),
        last_line.spec_bytes() == line_bytes(text.spec_bytes(), fold.range.end as int),
        first_line@ == line_chars(text, fold.range.start as int),
        last_line@ == line_chars(text, fold.range.end as int),
    ensures
        line_feed_count(fold_row(fold, text)) == 1,
{
    lemma_char_boundary_in_bounds(text.spec_bytes(), fold.range.start as int);
    lemma_char_boundary_in_bounds(text.spec_bytes(), fold.range.end as int);
    lemma_preview_no_line_feed(first_line, text, fold.range.start as int);
    lemma_preview_no_line_feed(last_line, text, fold.range.end as int);
    let a = pad_left(decimal(fold.range.start as nat), OFFSET_WIDTH as nat);
    let b = pad_left(decimal(fold.range.end as nat), OFFSET_WIDTH as nat);
    let c = pad_right(trim_chars(first_line@), START_LINE_WIDTH as nat);
    let d = pad_right(trim_chars(last_line@), END_LINE_WIDTH as nat);
    lemma_decimal_no_line_feed(fold.range.start as nat);
    lemma_decimal_no_line_feed(fold.range.end as nat);
    lemma_pad_no_line_feed(decimal(fold.range.start as nat), OFFSET_WIDTH as nat);
    lemma_pad_no_line_feed(decimal(fold.range.end as nat), OFFSET_WIDTH as nat);
    lemma_pad_no_line_feed(trim_chars(first_line@), START_LINE_WIDTH as nat);
    lemma_pad_no_line_feed(trim_chars(last_line@), END_LINE_WIDTH as nat);
    let s1 = seq![' '];
    let s2 = seq![' ', ':', ' ', ' '];
    let s3 = seq![' ', ' ', ' '];
    let s4 = seq!['\n'];
    lemma_no_line_feed_count(a);
    lemma_no_line_feed_count(b);
    lemma_no_line_feed_count(c);
    lemma_no_line_feed_count(d);
    lemma_no_line_feed_count(s1);
    lemma_no_line_feed_count(s2);
    lemma_no_line_feed_count(s3);
    assert(line_feed_count(s4) == 1) by {
        assert(s4.drop_last().len() == 0);
        assert(line_feed_count(s4.drop_last()) == 0);
        assert(s4.last() == '\n');
    }
    lemma_line_feed_count_add(a, s1);
    lemma_line_feed_count_add(a + s1, b);
    lemma_line_feed_count_add(a + s1 + b, s2);
    lemma_line_feed_count_add(a + s1 + b + s2, c);
    lemma_line_feed_count_add(a + s1 + b + s2 + c, s3);
    lemma_line_feed_count_add(a + s1 + b + s2 + c + s3, d);
    lemma_line_feed_count_add(a + s1 + b + s2 + c + s3 + d, s4);
}

/// Lists the folds of `code_text`, one line each.
#[verifier::rlimit(40)]
pub fn print_vec(vec_of_fold: Vec<Fold>, code_text: &str) -> (r: String)
    requires
        folds_on_boundaries(vec_of_fold@, code_text),
    ensures
        r@ == report_text(vec_of_fold@, code_text, vec_of_fold@.len()),
        line_feed_count(r@) == vec_of_fold@.len(),
{
    let mut ret_str = String::new();
    let mut k: usize = 0;
    while k < vec_of_fold.len()
        invariant
            k <= vec_of_fold@.len(),
            folds_on_boundaries(vec_of_fold@, code_text),
            ret_str@ == report_text(vec_of_fold@, code_text, k as nat),
            line_feed_count(ret_str@) == k,
        decreases vec_of_fold@.len() - k,
    {
        let fold = vec_of_fold[k];
        let ghost prev = ret_str@;
        let first_line = get_str_to_end_of_line(code_text, fold.range.start);
        let last_line = get_str_to_end_of_line(code_text, fold.range.end);
        let first = trimmed(first_line);
        let last = trimmed(last_line);
        let start_col = right_aligned(fold.range.start, OFFSET_WIDTH);
        let end_col = right_aligned(fold.range.end, OFFSET_WIDTH);
        let first_col = left_aligned(first, START_LINE_WIDTH);
        let last_col = left_aligned(last, END_LINE_WIDTH);
        ret_str.append(start_col.as_str());
        ret_str.append(" ");
        ret_str.append(end_col.as_str());
        ret_str.append(" :  ");
        ret_str.append(first_col.as_str());
        ret_str.append("   ");
        ret_str.append(last_col.as_str());
        ret_str.append("\n");
        proof {
            reveal_strlit(" ");
            reveal_strlit(" :  ");
            reveal_strlit("   ");
            reveal_strlit("\n");
            assert(ret_str@ =~= prev + fold_row(fold, code_text));
            lemma_row_one_line_feed(fold, code_text, first_line, last_line);
            lemma_line_feed_count_add(prev, fold_row(fold, code_text));
        }
        k += 1;
    }
    ret_str
}

} // verus!
