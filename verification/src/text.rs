//! Byte-offset text utilities.
//!
//! Positions are byte offsets into UTF-8 text. Every helper here is UTF-8 safe: an offset
//! handed back always sits on a char boundary.

use vstd::prelude::*;
use vstd::string::*;
use vstd::utf8::{decode_utf8, encode_utf8_decode_utf8, is_char_boundary, valid_utf8};

use crate::ascii::{NEWLINE, SPACE, TAB};
use crate::bytes::{
    char_at, char_at_offset, is_boundary, lemma_boundary, lemma_slice_valid, lemma_str_valid, slice,
};

verus! {

/// Offset of the start of the line that holds `pos`: just past the last newline before it.
pub open spec fn line_start_of(b: Seq<u8>, pos: int) -> int
    decreases pos,
{
    if pos <= 0 {
        0
    } else if b[pos - 1] == NEWLINE {
        pos
    } else {
        line_start_of(b, pos - 1)
    }
}

/// Offset of the first newline at or after `pos`, or the end of the text.
pub open spec fn line_end_of(b: Seq<u8>, pos: int) -> int
    decreases b.len() - pos,
{
    if pos >= b.len() {
        b.len() as int
    } else if b[pos] == NEWLINE {
        pos
    } else {
        line_end_of(b, pos + 1)
    }
}

/// How many newlines `b` holds.
pub open spec fn newlines(b: Seq<u8>) -> nat
    decreases b.len(),
{
    if b.len() == 0 {
        0
    } else {
        newlines(b.drop_last()) + if b.last() == NEWLINE {
            1nat
        } else {
            0nat
        }
    }
}

/// Zero-based index of the line that holds `pos`.
pub open spec fn line_index_of(b: Seq<u8>, pos: int) -> nat {
    newlines(b.subrange(0, pos))
}

/// Number of lines: one more than the newlines.
pub open spec fn line_count_of(b: Seq<u8>) -> nat {
    newlines(b) + 1
}

/// Byte range of the line `index` lines below the one that starts at `start`.
pub open spec fn line_range_from(b: Seq<u8>, start: int, index: nat) -> Option<(int, int)>
    decreases index,
{
    let end = line_end_of(b, start);
    if index == 0 {
        Some((start, end))
    } else if end < b.len() {
        line_range_from(b, end + 1, (index - 1) as nat)
    } else {
        None
    }
}

/// Byte range of line `index`, without its newline.
pub open spec fn line_range_of(b: Seq<u8>, index: nat) -> Option<(int, int)> {
    line_range_from(b, 0, index)
}

/// The largest char boundary at or below `i`.
pub open spec fn boundary_below(b: Seq<u8>, i: int) -> int
    decreases i,
{
    if i <= 0 {
        0
    } else if is_boundary(b, i) {
        i
    } else {
        boundary_below(b, i - 1)
    }
}

/// The smallest char boundary at or above `i`.
pub open spec fn boundary_above(b: Seq<u8>, i: int) -> int
    decreases b.len() - i,
{
    if i >= b.len() {
        b.len() as int
    } else if is_boundary(b, i) {
        i
    } else {
        boundary_above(b, i + 1)
    }
}

/// The boundary before `pos`, or the start of the text.
pub open spec fn prev_boundary_of(b: Seq<u8>, pos: int) -> int {
    boundary_below(b, pos - 1)
}

/// The boundary after `pos`, or the end of the text.
pub open spec fn next_boundary_of(b: Seq<u8>, pos: int) -> int {
    boundary_above(b, pos + 1)
}

/// The boundary at or below `pos`, taken no further than the end of the text.
pub open spec fn clamp_boundary_of(b: Seq<u8>, pos: int) -> int {
    boundary_below(b, if pos <= b.len() {
        pos
    } else {
        b.len() as int
    })
}

/// The chars with Unicode's `White_Space` property.
pub open spec fn white_space(c: char) -> bool {
    let u = c as u32;
    ||| 0x09 <= u <= 0x0d
    ||| u == 0x20
    ||| u == 0x85
    ||| u == 0xa0
    ||| u == 0x1680
    ||| 0x2000 <= u <= 0x200a
    ||| u == 0x2028
    ||| u == 0x2029
    ||| u == 0x202f
    ||| u == 0x205f
    ||| u == 0x3000
}

/// Steps back from `pos` over chars that are white space (`white`) or that are not.
pub open spec fn skip_back(b: Seq<u8>, pos: int, white: bool) -> int
    decreases pos,
{
    let p = prev_boundary_of(b, pos);
    if pos <= 0 || p >= pos || p < 0 {
        pos
    } else if white_space(char_at_offset(b, p)) == white {
        skip_back(b, p, white)
    } else {
        pos
    }
}

/// Steps forward from `pos` over chars that are white space (`white`) or that are not.
pub open spec fn skip_forward(b: Seq<u8>, pos: int, white: bool) -> int
    decreases b.len() - pos,
{
    let n = next_boundary_of(b, pos);
    if pos >= b.len() || n <= pos || n > b.len() {
        pos
    } else if white_space(char_at_offset(b, pos)) == white {
        skip_forward(b, n, white)
    } else {
        pos
    }
}

/// Start of the word before `pos`: back over white space, then back over the word.
pub open spec fn prev_word_of(b: Seq<u8>, pos: int) -> int {
    skip_back(b, skip_back(b, pos, true), false)
}

/// End of the word after `pos`: forward over white space, then forward over the word.
pub open spec fn next_word_of(b: Seq<u8>, pos: int) -> int {
    skip_forward(b, skip_forward(b, pos, true), false)
}

/// A space or a tab.
pub open spec fn is_blank(x: u8) -> bool {
    x == SPACE || x == TAB
}

/// How many spaces and tabs `b` starts with.
pub open spec fn indent_len(b: Seq<u8>) -> int
    decreases b.len(),
{
    if b.len() == 0 || !is_blank(b[0]) {
        0
    } else {
        1 + indent_len(b.drop_first())
    }
}

/// Column, in chars, of `pos` within its line.
pub open spec fn column_at(b: Seq<u8>, pos: int) -> nat {
    decode_utf8(b.subrange(line_start_of(b, pos), pos)).len()
}

/// Offset `col` chars past `start`, taken no further than `end`.
pub open spec fn advance(b: Seq<u8>, start: int, end: int, col: nat) -> int
    decreases col,
{
    if start >= end {
        end
    } else if col == 0 {
        start
    } else {
        advance(b, next_boundary_of(b, start), end, (col - 1) as nat)
    }
}

/// Offset of char column `col` on line `index`, clamped to the end of that line.
pub open spec fn column_offset(b: Seq<u8>, index: nat, col: nat) -> Option<int> {
    match line_range_of(b, index) {
        Some((start, end)) => Some(advance(b, start, end, col)),
        None => None,
    }
}

// ---- facts about those positions ------------------------------------------

/// The start of a line lies at or before the position it belongs to, no newline lies between
/// them, and it follows a newline unless it is the start of the text.
pub proof fn lemma_line_start(b: Seq<u8>, pos: int)
    requires
        0 <= pos <= b.len(),
    ensures
        0 <= line_start_of(b, pos) <= pos,
        forall|i: int| line_start_of(b, pos) <= i < pos ==> b[i] != NEWLINE,
        line_start_of(b, pos) == 0 || b[line_start_of(b, pos) - 1] == NEWLINE,
    decreases pos,
{
    if pos > 0 && b[pos - 1] != NEWLINE {
        lemma_line_start(b, pos - 1);
    }
}

/// The end of a line lies at or after the position it belongs to, no newline lies between
/// them, and a newline stands there unless it is the end of the text.
pub proof fn lemma_line_end(b: Seq<u8>, pos: int)
    requires
        0 <= pos <= b.len(),
    ensures
        pos <= line_end_of(b, pos) <= b.len(),
        forall|i: int| pos <= i < line_end_of(b, pos) ==> b[i] != NEWLINE,
        line_end_of(b, pos) == b.len() || b[line_end_of(b, pos)] == NEWLINE,
    decreases b.len() - pos,
{
    if pos < b.len() && b[pos] != NEWLINE {
        lemma_line_end(b, pos + 1);
    }
}

/// A line ends at the first newline, or at the end of the text.
pub proof fn lemma_line_end_is(b: Seq<u8>, pos: int, e: int)
    requires
        0 <= pos <= e <= b.len(),
        forall|i: int| pos <= i < e ==> #[trigger] b[i] != NEWLINE,
        e == b.len() || b[e] == NEWLINE,
    ensures
        line_end_of(b, pos) == e,
{
    lemma_line_end(b, pos);
    let r = line_end_of(b, pos);
    if r < e {
        assert(b[r] != NEWLINE);
    } else if r > e {
        assert(b[e] != NEWLINE);
    }
}

/// A line starts just past the last newline, or at the start of the text.
pub proof fn lemma_line_start_is(b: Seq<u8>, s: int, pos: int)
    requires
        0 <= s <= pos <= b.len(),
        forall|i: int| s <= i < pos ==> #[trigger] b[i] != NEWLINE,
        s == 0 || b[s - 1] == NEWLINE,
    ensures
        line_start_of(b, pos) == s,
{
    lemma_line_start(b, pos);
    let r = line_start_of(b, pos);
    if r < s {
        assert(b[s - 1] != NEWLINE);
    } else if r > s {
        assert(b[r - 1] != NEWLINE);
    }
}

/// Lines of valid text start and end on char boundaries.
pub proof fn lemma_line_is_bounded(b: Seq<u8>, pos: int)
    requires
        valid_utf8(b),
        0 <= pos <= b.len(),
    ensures
        is_boundary(b, line_end_of(b, pos)),
        is_boundary(b, pos) ==> is_boundary(b, line_start_of(b, pos)),
{
    lemma_line_start(b, pos);
    lemma_line_end(b, pos);
    crate::bytes::lemma_start_is_boundary(b);
    let ls = line_start_of(b, pos);
    if ls > 0 && ls < b.len() {
        lemma_after_newline(b, ls - 1);
    }
}

/// What follows an ASCII byte of valid text is a boundary.
pub proof fn lemma_after_ascii(b: Seq<u8>, i: int)
    requires
        valid_utf8(b),
        0 <= i < b.len(),
        b[i] < 0x80,
    ensures
        is_boundary(b, i),
        is_boundary(b, i + 1),
{
    lemma_boundary(b, i);
    lemma_boundary(b, i + 1);
    vstd::utf8::valid_utf8_split(b, i);
    let rest = b.subrange(i, b.len() as int);
    assert(rest[0] == b[i]);
    assert(vstd::utf8::valid_first_scalar(rest));
    assert(vstd::utf8::length_of_first_scalar(rest) == 1);
    let tail = vstd::utf8::pop_first_scalar(rest);
    assert(valid_utf8(tail));
    if i + 1 < b.len() {
        crate::bytes::lemma_start_is_boundary(tail);
        assert(tail[0] == b[i + 1]);
    }
}

/// What follows a newline of valid text is a boundary.
pub proof fn lemma_after_newline(b: Seq<u8>, i: int)
    requires
        valid_utf8(b),
        0 <= i < b.len(),
        b[i] == NEWLINE,
    ensures
        is_boundary(b, i + 1),
{
    lemma_after_ascii(b, i);
}

/// The boundary found below an offset is a boundary, and no other lies between the two.
pub proof fn lemma_boundary_below(b: Seq<u8>, i: int)
    requires
        valid_utf8(b),
        0 <= i,
    ensures
        is_boundary(b, boundary_below(b, i)),
        0 <= boundary_below(b, i) <= i,
        forall|k: int| boundary_below(b, i) < k <= i ==> !is_boundary(b, k),
    decreases i,
{
    crate::bytes::lemma_start_is_boundary(b);
    if i > 0 && !is_boundary(b, i) {
        lemma_boundary_below(b, i - 1);
    }
}

/// The boundary found above an offset is a boundary, and no other lies between the two.
pub proof fn lemma_boundary_above(b: Seq<u8>, i: int)
    requires
        valid_utf8(b),
        0 <= i <= b.len(),
    ensures
        is_boundary(b, boundary_above(b, i)),
        i <= boundary_above(b, i) <= b.len(),
        forall|k: int| i <= k < boundary_above(b, i) ==> !is_boundary(b, k),
    decreases b.len() - i,
{
    if i < b.len() && !is_boundary(b, i) {
        lemma_boundary_above(b, i + 1);
    }
}

/// Word steps land on boundaries, never past where they started from.
pub proof fn lemma_skip_back(b: Seq<u8>, pos: int, white: bool)
    requires
        valid_utf8(b),
        is_boundary(b, pos),
    ensures
        is_boundary(b, skip_back(b, pos, white)),
        0 <= skip_back(b, pos, white) <= pos,
    decreases pos,
{
    if pos > 0 {
        lemma_boundary_below(b, pos - 1);
        let p = prev_boundary_of(b, pos);
        if white_space(char_at_offset(b, p)) == white {
            lemma_skip_back(b, p, white);
        }
    }
}

/// Word steps land on boundaries, never before where they started from.
pub proof fn lemma_skip_forward(b: Seq<u8>, pos: int, white: bool)
    requires
        valid_utf8(b),
        is_boundary(b, pos),
    ensures
        is_boundary(b, skip_forward(b, pos, white)),
        pos <= skip_forward(b, pos, white) <= b.len(),
    decreases b.len() - pos,
{
    if pos < b.len() {
        lemma_boundary_above(b, pos + 1);
        let n = next_boundary_of(b, pos);
        if white_space(char_at_offset(b, pos)) == white {
            lemma_skip_forward(b, n, white);
        }
    }
}

/// The indent is a run of blanks that ends at the end of the text or at another byte.
pub proof fn lemma_indent_len(b: Seq<u8>)
    ensures
        0 <= indent_len(b) <= b.len(),
        forall|i: int| 0 <= i < indent_len(b) ==> is_blank(#[trigger] b[i]),
        indent_len(b) < b.len() ==> !is_blank(b[indent_len(b)]),
    decreases b.len(),
{
    if b.len() > 0 && is_blank(b[0]) {
        let rest = b.drop_first();
        lemma_indent_len(rest);
        assert forall|i: int| 0 <= i < indent_len(b) implies is_blank(#[trigger] b[i]) by {
            if i > 0 {
                assert(rest[i - 1] == b[i]);
            }
        }
        if indent_len(b) < b.len() {
            assert(rest[indent_len(rest)] == b[indent_len(b)]);
        }
    }
}

/// A text that starts with `n` blanks and then holds another byte has an indent of `n`.
pub proof fn lemma_indent_len_is(b: Seq<u8>, n: int)
    requires
        0 <= n <= b.len(),
        forall|i: int| 0 <= i < n ==> is_blank(#[trigger] b[i]),
        n < b.len() ==> !is_blank(b[n]),
    ensures
        indent_len(b) == n,
{
    lemma_indent_len(b);
    let r = indent_len(b);
    if r < n {
        assert(is_blank(b[r]));
    } else if r > n {
        assert(is_blank(b[n]));
    }
}

/// A line range starts and ends on boundaries, in order, inside the text.
pub proof fn lemma_line_range(b: Seq<u8>, start: int, index: nat)
    requires
        valid_utf8(b),
        is_boundary(b, start),
    ensures
        match line_range_from(b, start, index) {
            Some((s, e)) => {
                &&& start <= s <= e <= b.len()
                &&& is_boundary(b, s)
                &&& is_boundary(b, e)
                &&& e == line_end_of(b, s)
            },
            None => true,
        },
    decreases index,
{
    lemma_line_end(b, start);
    lemma_line_is_bounded(b, start);
    let end = line_end_of(b, start);
    if index > 0 && end < b.len() {
        lemma_after_newline(b, end);
        lemma_line_range(b, end + 1, (index - 1) as nat);
    }
}

// ---- the helpers themselves ------------------------------------------------

/// Byte offset of the start of the line containing `pos`.
pub fn line_start(text: &str, pos: usize) -> (r: usize)
    requires
        is_boundary(text.spec_bytes(), pos as int),
    ensures
        r == line_start_of(text.spec_bytes(), pos as int),
        is_boundary(text.spec_bytes(), r as int),
        r <= pos,
{
    let b = text.as_bytes();
    let mut i: usize = pos;
    while i > 0 && b[i - 1] != NEWLINE
        invariant
            i <= pos <= b.len(),
            b@ == text.spec_bytes(),
            line_start_of(b@, pos as int) == line_start_of(b@, i as int),
        decreases i,
    {
        i -= 1;
    }
    proof {
        lemma_str_valid(text@);
        lemma_line_is_bounded(b@, pos as int);
    }
    i
}

/// Byte offset of the end of the line containing `pos`, excluding the newline.
pub fn line_end(text: &str, pos: usize) -> (r: usize)
    requires
        is_boundary(text.spec_bytes(), pos as int),
    ensures
        r == line_end_of(text.spec_bytes(), pos as int),
        is_boundary(text.spec_bytes(), r as int),
        pos <= r,
{
    let b = text.as_bytes();
    let mut i: usize = pos;
    while i < b.len() && b[i] != NEWLINE
        invariant
            pos <= i <= b.len(),
            b@ == text.spec_bytes(),
            line_end_of(b@, pos as int) == line_end_of(b@, i as int),
        decreases b.len() - i,
    {
        i += 1;
    }
    proof {
        lemma_str_valid(text@);
        lemma_line_is_bounded(b@, pos as int);
    }
    i
}

/// The line containing `pos`, without its trailing newline.
pub fn line_at(text: &str, pos: usize) -> (r: &str)
    requires
        is_boundary(text.spec_bytes(), pos as int),
    ensures
        r.spec_bytes() == text.spec_bytes().subrange(
            line_start_of(text.spec_bytes(), pos as int),
            line_end_of(text.spec_bytes(), pos as int),
        ),
{
    let start: usize = line_start(text, pos);
    let end: usize = line_end(text, pos);
    slice(text, start, end)
}

/// Counts the newlines among the first `end` bytes.
fn count_newlines(b: &[u8], end: usize) -> (n: usize)
    requires
        end <= b.len(),
    ensures
        n == newlines(b@.subrange(0, end as int)),
        n <= end,
{
    let mut n: usize = 0;
    let mut i: usize = 0;
    while i < end
        invariant
            i <= end <= b.len(),
            n <= i,
            n == newlines(b@.subrange(0, i as int)),
        decreases end - i,
    {
        proof {
            let longer = b@.subrange(0, i + 1);
            assert(longer.drop_last() =~= b@.subrange(0, i as int));
            assert(longer.last() == b[i as int]);
        }
        if b[i] == NEWLINE {
            n += 1;
        }
        i += 1;
    }
    n
}

/// Zero-based index of the line containing `pos`.
pub fn line_index(text: &str, pos: usize) -> (r: usize)
    requires
        is_boundary(text.spec_bytes(), pos as int),
    ensures
        r == line_index_of(text.spec_bytes(), pos as int),
{
    count_newlines(text.as_bytes(), pos)
}

/// Byte range of line `index`, excluding the trailing newline.
pub fn line_range(text: &str, index: usize) -> (r: Option<(usize, usize)>)
    ensures
        match (r, line_range_of(text.spec_bytes(), index as nat)) {
            (Some((s, e)), Some((start, end))) => s == start && e == end,
            (None, None) => true,
            _ => false,
        },
{
    let n: usize = text.as_bytes().len();
    let mut start: usize = 0;
    let mut i: usize = 0;
    proof {
        lemma_str_valid(text@);
    }
    loop
        invariant
            i <= index,
            n == text.spec_bytes().len(),
            valid_utf8(text.spec_bytes()),
            is_boundary(text.spec_bytes(), start as int),
            line_range_of(text.spec_bytes(), index as nat) == line_range_from(
                text.spec_bytes(),
                start as int,
                (index - i) as nat,
            ),
        decreases index - i,
    {
        let end: usize = line_end(text, start);
        if i == index {
            return Some((start, end));
        }
        proof {
            lemma_line_end(text.spec_bytes(), start as int);
        }
        if end >= n {
            return None;
        }
        proof {
            lemma_after_newline(text.spec_bytes(), end as int);
        }
        start = end + 1;
        i += 1;
    }
}

/// Number of lines. A trailing newline yields a final empty line, matching editors.
pub fn line_count(text: &str) -> (r: usize)
    requires
        line_count_of(text.spec_bytes()) <= usize::MAX,
    ensures
        r == line_count_of(text.spec_bytes()),
{
    let b = text.as_bytes();
    let n: usize = count_newlines(b, b.len());
    proof {
        assert(b@.subrange(0, b@.len() as int) =~= b@);
    }
    n + 1
}

/// Previous char boundary before `pos`, or `pos` if already at the start.
pub fn prev_boundary(text: &str, pos: usize) -> (r: usize)
    ensures
        r == prev_boundary_of(text.spec_bytes(), pos as int),
        is_boundary(text.spec_bytes(), r as int),
{
    proof {
        lemma_str_valid(text@);
        if pos > 0 {
            lemma_boundary_below(text.spec_bytes(), pos - 1);
        }
    }
    if pos == 0 {
        return 0;
    }
    let mut i: usize = pos - 1;
    while i > 0 && !text.is_char_boundary(i)
        invariant
            i < pos,
            valid_utf8(text.spec_bytes()),
            boundary_below(text.spec_bytes(), pos - 1) == boundary_below(
                text.spec_bytes(),
                i as int,
            ),
        decreases i,
    {
        proof {
            lemma_boundary(text.spec_bytes(), i as int);
        }
        i -= 1;
    }
    proof {
        lemma_boundary(text.spec_bytes(), i as int);
    }
    i
}

/// Next char boundary after `pos`, or the end if `pos` is already there.
pub fn next_boundary(text: &str, pos: usize) -> (r: usize)
    ensures
        r == next_boundary_of(text.spec_bytes(), pos as int),
        is_boundary(text.spec_bytes(), r as int),
{
    let n: usize = text.as_bytes().len();
    proof {
        lemma_str_valid(text@);
        if pos < n {
            lemma_boundary_above(text.spec_bytes(), pos + 1);
        }
    }
    if pos >= n {
        return n;
    }
    let mut i: usize = pos + 1;
    while i < n && !text.is_char_boundary(i)
        invariant
            pos < i <= n,
            n == text.spec_bytes().len(),
            valid_utf8(text.spec_bytes()),
            boundary_above(text.spec_bytes(), pos + 1) == boundary_above(
                text.spec_bytes(),
                i as int,
            ),
        decreases n - i,
    {
        proof {
            lemma_boundary(text.spec_bytes(), i as int);
        }
        i += 1;
    }
    proof {
        lemma_boundary(text.spec_bytes(), i as int);
    }
    i
}

/// Clamp an arbitrary offset onto the nearest char boundary at or below it.
pub fn clamp_boundary(text: &str, pos: usize) -> (r: usize)
    ensures
        r == clamp_boundary_of(text.spec_bytes(), pos as int),
        is_boundary(text.spec_bytes(), r as int),
{
    let n: usize = text.as_bytes().len();
    let top: usize = if pos <= n {
        pos
    } else {
        n
    };
    let mut i: usize = top;
    proof {
        lemma_str_valid(text@);
        lemma_boundary_below(text.spec_bytes(), top as int);
    }
    while i > 0 && !text.is_char_boundary(i)
        invariant
            i <= top,
            valid_utf8(text.spec_bytes()),
            boundary_below(text.spec_bytes(), top as int) == boundary_below(
                text.spec_bytes(),
                i as int,
            ),
        decreases i,
    {
        proof {
            lemma_boundary(text.spec_bytes(), i as int);
        }
        i -= 1;
    }
    proof {
        lemma_boundary(text.spec_bytes(), i as int);
    }
    i
}

/// Whether a char is white space, by Unicode's `White_Space` property.
pub fn is_white_space(c: char) -> (r: bool)
    ensures
        r == white_space(c),
{
    let u: u32 = c as u32;
    (0x09 <= u && u <= 0x0d) || u == 0x20 || u == 0x85 || u == 0xa0 || u == 0x1680 || (0x2000 <= u
        && u <= 0x200a) || u == 0x2028 || u == 0x2029 || u == 0x202f || u == 0x205f || u == 0x3000
}

/// Steps back over a run of white space, or over a run of anything else.
pub(crate) fn step_back(text: &str, pos: usize, white: bool) -> (r: usize)
    requires
        is_boundary(text.spec_bytes(), pos as int),
    ensures
        r == skip_back(text.spec_bytes(), pos as int, white),
        is_boundary(text.spec_bytes(), r as int),
{
    let mut i: usize = pos;
    proof {
        lemma_str_valid(text@);
    }
    while i > 0
        invariant
            i <= pos,
            valid_utf8(text.spec_bytes()),
            is_boundary(text.spec_bytes(), i as int),
            skip_back(text.spec_bytes(), pos as int, white) == skip_back(
                text.spec_bytes(),
                i as int,
                white,
            ),
        decreases i,
    {
        let p: usize = prev_boundary(text, i);
        proof {
            lemma_boundary_below(text.spec_bytes(), i - 1);
        }
        if is_white_space(char_at(text, p)) != white {
            return i;
        }
        i = p;
    }
    i
}

/// Steps forward over a run of white space, or over a run of anything else.
pub(crate) fn step_forward(text: &str, pos: usize, white: bool) -> (r: usize)
    requires
        is_boundary(text.spec_bytes(), pos as int),
    ensures
        r == skip_forward(text.spec_bytes(), pos as int, white),
        is_boundary(text.spec_bytes(), r as int),
{
    let n: usize = text.as_bytes().len();
    let mut i: usize = pos;
    proof {
        lemma_str_valid(text@);
    }
    while i < n
        invariant
            i <= n,
            n == text.spec_bytes().len(),
            valid_utf8(text.spec_bytes()),
            is_boundary(text.spec_bytes(), i as int),
            skip_forward(text.spec_bytes(), pos as int, white) == skip_forward(
                text.spec_bytes(),
                i as int,
                white,
            ),
        decreases n - i,
    {
        let next: usize = next_boundary(text, i);
        proof {
            lemma_boundary_above(text.spec_bytes(), i + 1);
        }
        if is_white_space(char_at(text, i)) != white {
            return i;
        }
        i = next;
    }
    i
}

/// Start of the previous word relative to `pos`.
pub fn prev_word(text: &str, pos: usize) -> (r: usize)
    requires
        is_boundary(text.spec_bytes(), pos as int),
    ensures
        r == prev_word_of(text.spec_bytes(), pos as int),
        is_boundary(text.spec_bytes(), r as int),
        r <= pos,
{
    let i: usize = step_back(text, pos, true);
    proof {
        lemma_str_valid(text@);
        lemma_skip_back(text.spec_bytes(), pos as int, true);
        lemma_skip_back(text.spec_bytes(), i as int, false);
    }
    step_back(text, i, false)
}

/// End of the next word relative to `pos`.
pub fn next_word(text: &str, pos: usize) -> (r: usize)
    requires
        is_boundary(text.spec_bytes(), pos as int),
    ensures
        r == next_word_of(text.spec_bytes(), pos as int),
        is_boundary(text.spec_bytes(), r as int),
        pos <= r,
{
    let i: usize = step_forward(text, pos, true);
    proof {
        lemma_str_valid(text@);
        lemma_skip_forward(text.spec_bytes(), pos as int, true);
        lemma_skip_forward(text.spec_bytes(), i as int, false);
    }
    step_forward(text, i, false)
}

/// How many spaces and tabs a line starts with.
pub fn indent_width(line: &str) -> (r: usize)
    ensures
        r == indent_len(line.spec_bytes()),
        r <= line.spec_bytes().len(),
        is_boundary(line.spec_bytes(), r as int),
{
    let b = line.as_bytes();
    let mut i: usize = 0;
    proof {
        lemma_str_valid(line@);
        assert(b@.subrange(0, b@.len() as int) =~= b@);
    }
    while i < b.len() && (b[i] == SPACE || b[i] == TAB)
        invariant
            i <= b.len(),
            b@ == line.spec_bytes(),
            valid_utf8(b@),
            is_boundary(b@, i as int),
            indent_len(b@) == i + indent_len(b@.subrange(i as int, b@.len() as int)),
        decreases b.len() - i,
    {
        proof {
            let rest = b@.subrange(i as int, b@.len() as int);
            assert(rest.drop_first() =~= b@.subrange(i + 1, b@.len() as int));
            lemma_after_ascii(b@, i as int);
        }
        i += 1;
    }
    i
}

/// Leading whitespace of a line, as a string slice.
pub fn indent_of(line: &str) -> (r: &str)
    ensures
        r.spec_bytes() == line.spec_bytes().subrange(0, indent_len(line.spec_bytes())),
{
    proof {
        lemma_str_valid(line@);
    }
    let n: usize = indent_width(line);
    slice(line, 0, n)
}

/// Newlines add up.
proof fn lemma_newlines_add(a: Seq<u8>, c: Seq<u8>)
    ensures
        newlines(a + c) == newlines(a) + newlines(c),
    decreases c.len(),
{
    if c.len() == 0 {
        assert(a + c =~= a);
    } else {
        assert((a + c).drop_last() =~= a + c.drop_last());
        assert((a + c).last() == c.last());
        lemma_newlines_add(a, c.drop_last());
    }
}

proof fn lemma_no_newlines(b: Seq<u8>)
    requires
        forall|i: int| 0 <= i < b.len() ==> #[trigger] b[i] != NEWLINE,
    ensures
        newlines(b) == 0,
    decreases b.len(),
{
    if b.len() > 0 {
        let c = b.drop_last();
        assert forall|i: int| 0 <= i < c.len() implies #[trigger] c[i] != NEWLINE by {
            assert(c[i] == b[i]);
        }
        assert(b.last() == b[b.len() - 1]);
        lemma_no_newlines(c);
    }
}

/// Counting lines from one that starts at `start` leads to the line that holds `pos`.
proof fn lemma_range_from(b: Seq<u8>, start: int, pos: int)
    requires
        0 <= start <= pos <= b.len(),
        start == 0 || b[start - 1] == NEWLINE,
    ensures
        line_range_from(b, start, newlines(b.subrange(start, pos))) == Some(
            (line_start_of(b, pos), line_end_of(b, pos)),
        ),
    decreases pos - start,
{
    let e = line_end_of(b, start);
    lemma_line_end(b, start);
    let part = b.subrange(start, pos);
    if e >= pos {
        assert forall|i: int| 0 <= i < part.len() implies #[trigger] part[i] != NEWLINE by {
            assert(part[i] == b[start + i]);
        }
        lemma_no_newlines(part);
        lemma_line_start_is(b, start, pos);
        lemma_line_end_is(b, pos, e);
    } else {
        let line = b.subrange(start, e);
        let rest = b.subrange(e + 1, pos);
        assert forall|i: int| 0 <= i < line.len() implies #[trigger] line[i] != NEWLINE by {
            assert(line[i] == b[start + i]);
        }
        lemma_no_newlines(line);
        let ended = line.push(NEWLINE);
        assert(ended.drop_last() =~= line);
        assert(part =~= ended + rest);
        lemma_newlines_add(ended, rest);
        lemma_range_from(b, e + 1, pos);
    }
}

/// The line that its index names is the line that holds `pos`.
pub proof fn law_line_range_at_its_index(b: Seq<u8>, pos: int)
    requires
        0 <= pos <= b.len(),
    ensures
        line_range_of(b, line_index_of(b, pos)) == Some(
            (line_start_of(b, pos), line_end_of(b, pos)),
        ),
{
    lemma_range_from(b, 0, pos);
}

/// The next boundary is one char further on, and what is left is one char shorter.
pub proof fn lemma_one_char_on(b: Seq<u8>, start: int, pos: int)
    requires
        valid_utf8(b),
        is_boundary(b, start),
        is_boundary(b, pos),
        start < pos,
    ensures
        start < next_boundary_of(b, start) <= pos,
        is_boundary(b, next_boundary_of(b, start)),
        decode_utf8(b.subrange(start, pos)).len() == 1 + decode_utf8(
            b.subrange(next_boundary_of(b, start), pos),
        ).len(),
{
    let part = b.subrange(start, pos);
    lemma_slice_valid(b, start, pos);
    let w = vstd::utf8::length_of_first_scalar(part);
    let rest = vstd::utf8::pop_first_scalar(part);
    assert(vstd::utf8::valid_first_scalar(part));
    assert(1 <= w <= part.len());
    assert(rest =~= b.subrange(start + w, pos));
    assert forall|i: int| 1 <= i < w implies !is_boundary(b, #[trigger] (start + i)) by {
        assert(part[i] == b[start + i]);
    }
    lemma_boundary_above(b, start + 1);
    let next = next_boundary_of(b, start);
    assert(is_boundary(b, start + w)) by {
        if start + w < pos {
            crate::bytes::lemma_start_is_boundary(rest);
            assert(rest[0] == b[start + w]);
        }
    }
    assert(next == start + w) by {
        if next < start + w {
            assert(!is_boundary(b, start + (next - start)));
        }
    }
}

/// Going as many chars along as there are up to `pos` leads there.
proof fn lemma_advance(b: Seq<u8>, start: int, pos: int, end: int)
    requires
        valid_utf8(b),
        is_boundary(b, start),
        is_boundary(b, pos),
        start <= pos <= end <= b.len(),
    ensures
        advance(b, start, end, decode_utf8(b.subrange(start, pos)).len()) == pos,
    decreases pos - start,
{
    if start == pos {
        assert(b.subrange(start, pos) =~= Seq::<u8>::empty());
        assert(decode_utf8(Seq::<u8>::empty()).len() == 0);
    } else {
        lemma_one_char_on(b, start, pos);
        lemma_advance(b, next_boundary_of(b, start), pos, end);
    }
}

/// Turning an offset into a line and a column and back gives the offset.
pub proof fn law_column_leads_back(b: Seq<u8>, pos: int)
    requires
        valid_utf8(b),
        is_boundary(b, pos),
    ensures
        column_offset(b, line_index_of(b, pos), column_at(b, pos)) == Some(pos),
{
    lemma_line_start(b, pos);
    lemma_line_end(b, pos);
    lemma_line_is_bounded(b, pos);
    law_line_range_at_its_index(b, pos);
    lemma_advance(b, line_start_of(b, pos), pos, line_end_of(b, pos));
}

/// Column (in chars) of `pos` within its line.
pub fn column_of(text: &str, pos: usize) -> (r: usize)
    requires
        is_boundary(text.spec_bytes(), pos as int),
    ensures
        r == column_at(text.spec_bytes(), pos as int),
{
    let start: usize = line_start(text, pos);
    let part = slice(text, start, pos);
    proof {
        encode_utf8_decode_utf8(part@);
    }
    part.unicode_len()
}

/// Byte offset of char-column `col` on line `index`, clamped to the line's length.
pub fn offset_of_column(text: &str, index: usize, col: usize) -> (r: Option<usize>)
    ensures
        match (r, column_offset(text.spec_bytes(), index as nat, col as nat)) {
            (Some(x), Some(y)) => x == y && is_boundary(text.spec_bytes(), x as int),
            (None, None) => true,
            _ => false,
        },
{
    let (start, end) = match line_range(text, index) {
        Some(range) => range,
        None => return None,
    };
    let mut i: usize = start;
    let mut n: usize = 0;
    proof {
        lemma_str_valid(text@);
        lemma_line_range(text.spec_bytes(), 0, index as nat);
    }
    while i < end && n < col
        invariant
            i <= end,
            n <= col,
            valid_utf8(text.spec_bytes()),
            is_boundary(text.spec_bytes(), i as int),
            is_boundary(text.spec_bytes(), end as int),
            advance(text.spec_bytes(), start as int, end as int, col as nat) == advance(
                text.spec_bytes(),
                i as int,
                end as int,
                (col - n) as nat,
            ),
        decreases end - i,
    {
        proof {
            lemma_boundary_above(text.spec_bytes(), i + 1);
        }
        i = next_boundary(text, i);
        n += 1;
    }
    Some(i)
}

} // verus!
