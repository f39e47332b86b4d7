//! What the markers of a line look like, byte by byte.

use vstd::prelude::*;
use vstd::utf8::valid_utf8;

use crate::ascii::{
    BACKTICK, BRACKET_CLOSE, BRACKET_OPEN, DASH, DOT, GREATER, HASH, LOWER_X, PAREN_CLOSE, PLUS,
    SPACE, STAR, TAB, TILDE, UPPER_X,
};
use crate::block::{
    BlockKind, box_at, bullet_at, fence_line, hash_run, heading_of, lemma_hash_run,
    lemma_list_marker, lemma_quote_len, lemma_space_run, lemma_space_run_is, list_marker_of,
    past_box, quote_depth, quote_len, space_run, tail,
};
use crate::bytes::{char_at_offset, is_boundary, lemma_start_is_boundary};
use crate::decimal::{digit_run, digits_value, is_digit, lemma_digit_run, lemma_digit_run_is};
use crate::inline::{Piece, SpanRole, spans, Style};
use crate::lines::{law_line_at_its_index, lines_of};
use crate::reading::{all_are, chars, lemma_first_char, lemma_skipped_forward};
use crate::render::{row_at, rows_of};
use crate::text::{
    indent_len, is_blank, lemma_indent_len, lemma_indent_len_is, line_end_of, line_index_of,
    line_range_of, line_start_of, newlines, next_boundary_of, skip_forward, white_space,
};
use crate::typing::{all_white, in_code, inside_fence, marker_len_of};

verus! {

/// The first `w` bytes are spaces and tabs.
pub open spec fn blanks(b: Seq<u8>, w: int) -> bool {
    0 <= w <= b.len() && forall|j: int| 0 <= j < w ==> #[trigger] b[j] == SPACE || b[j] == TAB
}

/// A bullet behind `w` blanks: a dash, a star or a plus, and a space.
pub open spec fn is_bullet(b: Seq<u8>, w: int) -> bool {
    &&& blanks(b, w)
    &&& w + 2 <= b.len()
    &&& b[w] == DASH || b[w] == STAR || b[w] == PLUS
    &&& b[w + 1] == SPACE
}

/// A number of `d` digits behind `w` blanks: one to nine of them, a dot or a closing
/// parenthesis, and a space.
pub open spec fn is_number(b: Seq<u8>, w: int, d: int) -> bool {
    &&& blanks(b, w)
    &&& 1 <= d <= 9
    &&& w + d + 2 <= b.len()
    &&& forall|j: int| w <= j < w + d ==> 0x30 <= #[trigger] b[j] <= 0x39
    &&& b[w + d] == DOT || b[w + d] == PAREN_CLOSE
    &&& b[w + d + 1] == SPACE
}

/// A task box at `at`: brackets around a space or an `x`, and a space.
pub open spec fn is_box(b: Seq<u8>, at: int) -> bool {
    &&& at + 4 <= b.len()
    &&& b[at] == BRACKET_OPEN
    &&& b[at + 1] == SPACE || b[at + 1] == LOWER_X || b[at + 1] == UPPER_X
    &&& b[at + 2] == BRACKET_CLOSE
    &&& b[at + 3] == SPACE
}

/// A task box is ticked unless there is a space in it, and a marker reaches past its box.
proof fn lemma_box(b: Seq<u8>, at: int)
    ensures
        box_at(b, at) == if is_box(b, at) {
            Some(b[at + 1] != SPACE)
        } else {
            None
        },
        past_box(b, at) == if is_box(b, at) {
            at + 4
        } else {
            at
        },
{
}

/// A bulleted line: its marker is the blanks, the bullet and its space, and the task box if
/// there is one, which is ticked unless it holds a space.
pub proof fn law_bullet(b: Seq<u8>, w: int)
    requires
        is_bullet(b, w),
        b.len() <= usize::MAX,
    ensures
        is_box(b, w + 2) ==> list_marker_of(b) == Some(
            (
                w + 6,
                BlockKind::Bullet { indent: w as usize, checked: Some(b[w + 3] != SPACE) },
            ),
        ),
        !is_box(b, w + 2) ==> list_marker_of(b) == Some(
            (w + 2, BlockKind::Bullet { indent: w as usize, checked: None }),
        ),
{
    lemma_indent_len_is(b, w);
    lemma_box(b, w + 2);
}

/// A numbered line: its marker is the blanks, the digits with what ends them and a space, and
/// the task box if there is one.
pub proof fn law_number(b: Seq<u8>, w: int, d: int)
    requires
        is_number(b, w, d),
        b.len() <= usize::MAX,
    ensures
        ({
            let number = digits_value(b.subrange(w, w + d)) as u64;
            &&& is_box(b, w + d + 2) ==> list_marker_of(b) == Some(
                (
                    w + d + 6,
                    BlockKind::Numbered {
                        indent: w as usize,
                        number,
                        checked: Some(b[w + d + 3] != SPACE),
                    },
                ),
            )
            &&& !is_box(b, w + d + 2) ==> list_marker_of(b) == Some(
                (w + d + 2, BlockKind::Numbered { indent: w as usize, number, checked: None }),
            )
        }),
{
    assert(0x30 <= b[w] <= 0x39);
    lemma_indent_len_is(b, w);
    lemma_box(b, w + d + 2);
    let t = tail(b, w);
    assert forall|j: int| 0 <= j < d implies is_digit(#[trigger] t[j]) by {
        assert(t[j] == b[w + j]);
    }
    assert(t[d] == b[w + d]);
    lemma_digit_run_is(t, d);
}

/// Nothing else is a list item.
pub proof fn law_only_bullets_and_numbers_make_items(b: Seq<u8>)
    requires
        list_marker_of(b) is Some,
    ensures
        (exists|w: int| is_bullet(b, w)) || (exists|w: int, d: int| is_number(b, w, d)),
{
    let w = indent_len(b);
    lemma_indent_len(b);
    assert forall|j: int| 0 <= j < w implies #[trigger] b[j] == SPACE || b[j] == TAB by {
        assert(is_blank(b[j]));
    }
    let t = tail(b, w);
    let d = digit_run(t);
    lemma_digit_run(t);
    if bullet_at(b, w) {
        assert(is_bullet(b, w));
    } else {
        assert forall|j: int| w <= j < w + d implies 0x30 <= #[trigger] b[j] <= 0x39 by {
            assert(t[j - w] == b[j]);
        }
        assert(is_number(b, w, d));
    }
}

/// The value of digits: each one more digit multiplies by ten and adds that digit.
pub proof fn law_digits_are_decimal(b: Seq<u8>, d: nat)
    requires
        d < 10,
    ensures
        digits_value(Seq::empty()) == 0,
        digits_value(b.push((0x30 + d) as u8)) == 10 * digits_value(b) + d,
{
    assert(b.push((0x30 + d) as u8).drop_last() =~= b);
}

/// A heading behind `w` spaces, at most three: `n` hashes, one to six, and a space.
pub open spec fn is_heading(b: Seq<u8>, w: int, n: int) -> bool {
    &&& 0 <= w <= 3
    &&& 1 <= n <= 6
    &&& w + n + 1 <= b.len()
    &&& forall|j: int| 0 <= j < w ==> #[trigger] b[j] == SPACE
    &&& forall|j: int| w <= j < w + n ==> #[trigger] b[j] == HASH
    &&& b[w + n] == SPACE
}

/// The hashes of a heading are its level.
pub proof fn law_heading(b: Seq<u8>, w: int, n: int)
    requires
        is_heading(b, w, n),
    ensures
        heading_of(b) == Some((w + n + 1, n as u8)),
{
    assert(b[w] == HASH);
    lemma_space_run_is(b, w);
    let t = tail(b, w);
    lemma_hash_run(t);
    let r = hash_run(t);
    assert(t[n] == b[w + n]);
    if r < n {
        assert(t[r] == b[w + r]);
    } else if r > n {
        assert(t[n] == HASH);
    }
}

/// Nothing else is a heading.
pub proof fn law_only_hashes_make_a_heading(b: Seq<u8>)
    requires
        heading_of(b) is Some,
    ensures
        exists|w: int, n: int| is_heading(b, w, n),
{
    let w = space_run(b);
    lemma_space_run(b);
    let t = tail(b, w);
    let n = hash_run(t);
    lemma_hash_run(t);
    assert forall|j: int| w <= j < w + n implies #[trigger] b[j] == HASH by {
        assert(t[j - w] == b[j]);
    }
    assert(is_heading(b, w, n));
}

/// A quote mark behind `w` spaces, at most three: a `>`.
pub open spec fn is_quote(b: Seq<u8>, w: int) -> bool {
    &&& 0 <= w <= 3
    &&& w < b.len()
    &&& forall|j: int| 0 <= j < w ==> #[trigger] b[j] == SPACE
    &&& b[w] == GREATER
}

/// A quote mark takes one space behind it along, and quotes what follows one level deeper.
pub proof fn law_quote(b: Seq<u8>, w: int)
    requires
        is_quote(b, w),
    ensures
        ({
            let n = if w + 1 < b.len() && b[w + 1] == SPACE {
                w + 2
            } else {
                w + 1
            };
            let rest = b.subrange(n, b.len() as int);
            &&& quote_len(b) == n + quote_len(rest)
            &&& quote_depth(b) == 1 + quote_depth(rest)
        }),
{
    lemma_space_run_is(b, w);
}

/// A line without a quote mark is not quoted.
pub proof fn law_no_quote(b: Seq<u8>)
    requires
        forall|w: int| !is_quote(b, w),
    ensures
        quote_len(b) == 0,
        quote_depth(b) == 0,
{
    lemma_space_run(b);
    assert(!is_quote(b, space_run(b)));
}

/// White space up to `i`, and no further.
pub open spec fn ink_at(b: Seq<u8>, i: int) -> bool {
    &&& is_boundary(b, i)
    &&& all_are(chars(b, 0, i), true)
    &&& i < b.len() ==> !white_space(char_at_offset(b, i))
}

proof fn lemma_ink(b: Seq<u8>, pos: int, i: int)
    requires
        valid_utf8(b),
        is_boundary(b, pos),
        is_boundary(b, i),
        pos <= i,
        all_are(chars(b, pos, i), true),
        i < b.len() ==> !white_space(char_at_offset(b, i)),
    ensures
        skip_forward(b, pos, true) == i,
    decreases i - pos,
{
    if pos < i {
        lemma_first_char(b, pos, i);
        let n = next_boundary_of(b, pos);
        let cs = chars(b, pos, i);
        assert(white_space(cs[0]));
        let rest = cs.drop_first();
        assert forall|k: int| 0 <= k < rest.len() implies white_space(#[trigger] rest[k]) == true by {
            assert(rest[k] == cs[k + 1]);
        }
        lemma_ink(b, n, i);
    }
}

/// Three backticks or three tildes stand at `i`.
pub open spec fn three_at(b: Seq<u8>, i: int) -> bool {
    &&& i + 3 <= b.len()
    &&& (b[i] == BACKTICK && b[i + 1] == BACKTICK && b[i + 2] == BACKTICK) || (b[i] == TILDE && b[i
        + 1] == TILDE && b[i + 2] == TILDE)
}

/// A code fence is three backticks or three tildes behind nothing but white space; and a blank
/// line is nothing but white space.
pub proof fn law_fence(b: Seq<u8>, i: int)
    requires
        valid_utf8(b),
        ink_at(b, i),
    ensures
        fence_line(b) <==> three_at(b, i),
        all_white(b) <==> i == b.len(),
{
    lemma_start_is_boundary(b);
    lemma_ink(b, 0, i);
}

/// Every line has a place where its white space ends.
pub proof fn law_white_space_ends(b: Seq<u8>)
    requires
        valid_utf8(b),
    ensures
        exists|i: int| ink_at(b, i),
{
    lemma_start_is_boundary(b);
    lemma_skipped_forward(b, 0, true);
    let i = skip_forward(b, 0, true);
    if i < b.len() {
        lemma_first_char(b, i, b.len() as int);
    }
    assert(ink_at(b, i));
}

/// How many of the first `k` lines are code fences.
pub open spec fn fences(lines: Seq<Seq<u8>>, k: int) -> nat {
    lines.subrange(0, k).filter(|line: Seq<u8>| fence_line(line)).len()
}

/// Code stands behind an odd number of fences.
pub proof fn law_code_stands_behind_an_odd_number_of_fences(lines: Seq<Seq<u8>>, k: int)
    requires
        0 <= k <= lines.len(),
    ensures
        inside_fence(lines, k) <==> fences(lines, k) % 2 == 1,
    decreases k,
{
    let f = |line: Seq<u8>| fence_line(line);
    let s = lines.subrange(0, k);
    reveal(Seq::filter);
    if k > 0 {
        law_code_stands_behind_an_odd_number_of_fences(lines, k - 1);
        assert(s.drop_last() =~= lines.subrange(0, k - 1));
        assert(s.last() == lines[k - 1]);
        assert(fences(lines, k) == s.filter(f).len());
        assert(fences(lines, k - 1) == s.drop_last().filter(f).len());
    }
}

/// The marker of a line: its quote marks, and behind them the list marker or the heading
/// marker, if there is one.
pub proof fn law_marker_length(line: Seq<u8>)
    ensures
        ({
            let q = quote_len(line);
            let body = line.subrange(q, line.len() as int);
            &&& list_marker_of(body) matches Some((len, _)) ==> marker_len_of(line) == Some(q + len)
            &&& list_marker_of(body) is None && heading_of(body) is Some ==> marker_len_of(line)
                == Some(q + (heading_of(body)->0).0)
            &&& list_marker_of(body) is None && heading_of(body) is None ==> marker_len_of(line)
                == if q > 0 {
                Some(q)
            } else {
                None
            }
        }),
{
    lemma_quote_len(line);
}

/// What a line is drawn as outside code: a list item, a heading, a blank line or a paragraph,
/// at the depth of its quote marks, its marker apart and its text behind it.
pub proof fn law_row_outside_code(
    b: Seq<u8>,
    index: nat,
    start: int,
    end: int,
    reveal: bool,
)
    requires
        0 <= start <= end <= b.len(),
        !fence_line(b.subrange(start, end)),
    ensures
        ({
            let line = b.subrange(start, end);
            let q = quote_len(line);
            let body = line.subrange(q, line.len() as int);
            let r = row_at(b, index, start, end, false, reveal);
            let none = Style { bold: false, italic: false, strike: false, code: false };
            &&& r.line == index && r.start == start && r.end == end && r.marker_start == start
            &&& r.marker_visible == reveal
            &&& r.quote_depth == quote_depth(line)
            &&& r.spans == spans(b, r.marker_end, end, none, reveal)
            &&& list_marker_of(body) matches Some((len, kind)) ==> r.kind == kind && r.marker_end
                == start + q + len
            &&& list_marker_of(body) is None ==> (heading_of(body) matches Some((len, level)) ==> r.kind
                == BlockKind::Heading(level) && r.marker_end == start + q + len)
            &&& list_marker_of(body) is None && heading_of(body) is None ==> r.marker_end == start + q
                && r.kind == if all_white(body) {
                BlockKind::Blank
            } else {
                BlockKind::Paragraph
            }
        }),
{
    let line = b.subrange(start, end);
    lemma_list_marker(tail(line, quote_len(line)));
}

/// Inside a code block a line is drawn as it is written, and nothing on it is markup.
pub proof fn law_code_is_drawn_as_written(
    b: Seq<u8>,
    index: nat,
    start: int,
    end: int,
    reveal: bool,
)
    requires
        0 <= start <= end <= b.len(),
        !fence_line(b.subrange(start, end)),
    ensures
        ({
            let r = row_at(b, index, start, end, true, reveal);
            let none = Style { bold: false, italic: false, strike: false, code: false };
            &&& r.line == index && r.start == start && r.end == end
            &&& r.kind == BlockKind::Code
            &&& r.quote_depth == 0
            &&& r.marker_start == start && r.marker_end == start
            &&& r.spans == seq![
                Piece { start, end, visible: true, style: none, role: SpanRole::Text },
            ]
        }),
{
}

/// A fence is all marker. It opens a code block, or closes the one it stands in.
pub proof fn law_fence_is_all_marker(
    b: Seq<u8>,
    index: nat,
    start: int,
    end: int,
    inside: bool,
    reveal: bool,
)
    requires
        0 <= start <= end <= b.len(),
        fence_line(b.subrange(start, end)),
    ensures
        ({
            let r = row_at(b, index, start, end, inside, reveal);
            &&& r.line == index && r.start == start && r.end == end
            &&& r.kind == BlockKind::Fence { open: !inside }
            &&& r.quote_depth == 0
            &&& r.marker_start == start && r.marker_end == end && r.marker_visible == reveal
            &&& r.spans == Seq::<Piece>::empty()
        }),
{
}

/// The rows of a document: one for each line, in the document's order. Markers show on the line
/// that the caret is on, its ends included, or on all lines.
pub proof fn law_each_line_has_its_row(b: Seq<u8>, caret: Option<int>, all: bool, k: int)
    requires
        0 <= k <= newlines(b),
    ensures
        rows_of(b, caret, all).len() == newlines(b) + 1,
        ({
            let (start, end) = line_range_of(b, k as nat)->0;
            let here = caret is Some && start <= caret->0 <= end;
            rows_of(b, caret, all)[k] == row_at(
                b,
                k as nat,
                start,
                end,
                inside_fence(lines_of(b), k),
                all || here,
            )
        }),
{
}

/// A place is in code if an odd number of fences stands above its line, and its line is none.
pub proof fn law_place_in_code(b: Seq<u8>, pos: int)
    requires
        0 <= pos <= b.len(),
    ensures
        in_code(b, pos) <==> fences(lines_of(b), line_index_of(b, pos) as int) % 2 == 1
            && !fence_line(b.subrange(line_start_of(b, pos), line_end_of(b, pos))),
{
    law_line_at_its_index(b, pos);
    law_code_stands_behind_an_odd_number_of_fences(lines_of(b), line_index_of(b, pos) as int);
}

} // verus!
