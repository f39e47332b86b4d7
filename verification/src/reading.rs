//! What the positions of a text are, in terms of its chars.

use vstd::prelude::*;
use vstd::utf8::{decode_utf8, valid_utf8};

use crate::ascii::{NEWLINE, SPACE, TAB};
use crate::bytes::{char_at_offset, is_boundary, lemma_slice_valid, lemma_start_is_boundary};
use crate::text::{
    advance, clamp_boundary_of, column_at, column_offset, indent_len, lemma_boundary_above,
    lemma_boundary_below, lemma_indent_len, lemma_line_end, lemma_line_range, lemma_line_start,
    lemma_one_char_on, lemma_skip_back, lemma_skip_forward, line_count_of, line_end_of,
    line_index_of, line_range_of, line_start_of, newlines, next_boundary_of, next_word_of,
    prev_boundary_of, prev_word_of, skip_back, skip_forward, white_space,
};

verus! {

/// The chars of a text from `i` up to `j`.
pub open spec fn chars(b: Seq<u8>, i: int, j: int) -> Seq<char> {
    decode_utf8(b.subrange(i, j))
}

/// Nothing but white space, or none of it.
pub open spec fn all_are(cs: Seq<char>, white: bool) -> bool {
    forall|k: int| 0 <= k < cs.len() ==> white_space(#[trigger] cs[k]) == white
}

/// Which chars are white space: of ASCII the space and the five controls from the tab to the
/// carriage return, and of the rest the next-line control, the no-break space, the spaces of
/// the general punctuation block, the two separators, and three spaces elsewhere.
pub proof fn law_white_space(c: char)
    ensures
        c == ' ' || c == '\t' || c == '\n' || c == '\r' ==> white_space(c),
        (c as u32) < 0x80 ==> (white_space(c) <==> c as u32 == 0x20 || 9 <= c as u32 <= 13),
        (c as u32) >= 0x80 ==> (white_space(c) <==> c == '\u{85}' || c == '\u{a0}' || c == '\u{1680}'
            || ('\u{2000}' <= c && c <= '\u{200a}') || c == '\u{2028}' || c == '\u{2029}' || c
            == '\u{202f}' || c == '\u{205f}' || c == '\u{3000}'),
{
}

/// The boundary after a place is one char further on; after the last there is none.
pub proof fn law_next_boundary_is_one_char_on(b: Seq<u8>, pos: int)
    requires
        valid_utf8(b),
        is_boundary(b, pos),
    ensures
        is_boundary(b, next_boundary_of(b, pos)),
        pos < b.len() ==> {
            &&& pos < next_boundary_of(b, pos)
            &&& chars(b, pos, next_boundary_of(b, pos)).len() == 1
        },
        pos == b.len() ==> next_boundary_of(b, pos) == pos,
{
    lemma_start_is_boundary(b);
    if pos < b.len() {
        lemma_one_char_on(b, pos, b.len() as int);
        let e = next_boundary_of(b, pos);
        lemma_one_char_on(b, pos, e);
        assert(b.subrange(e, e) =~= Seq::<u8>::empty());
        assert(decode_utf8(Seq::<u8>::empty()).len() == 0);
    }
}

/// The boundary before a place is one char further back; before the first there is none.
pub proof fn law_previous_boundary_is_one_char_back(b: Seq<u8>, pos: int)
    requires
        valid_utf8(b),
        is_boundary(b, pos),
    ensures
        is_boundary(b, prev_boundary_of(b, pos)),
        pos > 0 ==> {
            &&& prev_boundary_of(b, pos) < pos
            &&& chars(b, prev_boundary_of(b, pos), pos).len() == 1
        },
        pos == 0 ==> prev_boundary_of(b, pos) == 0,
{
    lemma_start_is_boundary(b);
    if pos > 0 {
        lemma_boundary_below(b, pos - 1);
        let p = prev_boundary_of(b, pos);
        lemma_boundary_above(b, p + 1);
        assert(next_boundary_of(b, p) == pos);
        law_next_boundary_is_one_char_on(b, p);
    }
}

/// A place is clamped to the last boundary that is not behind it, and to the end of the text.
pub proof fn law_clamping_finds_the_last_boundary(b: Seq<u8>, pos: int)
    requires
        valid_utf8(b),
        0 <= pos,
    ensures
        is_boundary(b, clamp_boundary_of(b, pos)),
        clamp_boundary_of(b, pos) <= pos,
        forall|k: int| clamp_boundary_of(b, pos) < k <= pos ==> !is_boundary(b, k),
        is_boundary(b, pos) ==> clamp_boundary_of(b, pos) == pos,
        pos >= b.len() ==> clamp_boundary_of(b, pos) == b.len(),
{
    lemma_start_is_boundary(b);
    let p = if pos <= b.len() {
        pos
    } else {
        b.len() as int
    };
    lemma_boundary_below(b, p);
}

/// The first of the chars between two boundaries, and the rest of them.
pub proof fn lemma_first_char(b: Seq<u8>, i: int, j: int)
    requires
        valid_utf8(b),
        is_boundary(b, i),
        is_boundary(b, j),
        i < j,
    ensures
        i < next_boundary_of(b, i) <= j,
        is_boundary(b, next_boundary_of(b, i)),
        chars(b, i, j).len() > 0,
        chars(b, i, j)[0] == char_at_offset(b, i),
        chars(b, i, j).drop_first() == chars(b, next_boundary_of(b, i), j),
{
    lemma_one_char_on(b, i, j);
    let part = b.subrange(i, j);
    let all = b.subrange(i, b.len() as int);
    lemma_start_is_boundary(b);
    lemma_slice_valid(b, i, j);
    lemma_slice_valid(b, i, b.len() as int);
    let rest = vstd::utf8::pop_first_scalar(part);
    let n = next_boundary_of(b, i);
    assert(vstd::utf8::valid_first_scalar(part));
    let w = vstd::utf8::length_of_first_scalar(part);
    assert(rest =~= b.subrange(i + w, j));
    assert(w == n - i) by {
        assert(1 <= w <= part.len());
        assert forall|k: int| 1 <= k < w implies !is_boundary(b, #[trigger] (i + k)) by {
            assert(part[k] == b[i + k]);
        }
        lemma_boundary_above(b, i + 1);
        assert(is_boundary(b, i + w)) by {
            if i + w < j {
                lemma_start_is_boundary(rest);
                assert(rest[0] == b[i + w]);
            }
        }
        if n < i + w {
            assert(!is_boundary(b, i + (n - i)));
        }
    }
    assert(part[0] == all[0]);
    if w > 1 {
        assert(part[1] == all[1]);
    }
    if w > 2 {
        assert(part[2] == all[2]);
    }
    if w > 3 {
        assert(part[3] == all[3]);
    }
    let cs = chars(b, i, j);
    assert(cs =~= seq![vstd::utf8::decode_first_scalar(part) as char] + decode_utf8(rest));
    assert(cs.drop_first() =~= decode_utf8(rest));
}

/// Chars between three boundaries.
proof fn lemma_chars_join(b: Seq<u8>, i: int, j: int, k: int)
    requires
        valid_utf8(b),
        is_boundary(b, i),
        is_boundary(b, j),
        is_boundary(b, k),
        i <= j <= k,
    ensures
        chars(b, i, k) == chars(b, i, j) + chars(b, j, k),
    decreases j - i,
{
    if i == j {
        assert(b.subrange(i, j) =~= Seq::<u8>::empty());
        assert(chars(b, i, j) =~= Seq::<char>::empty());
        assert(chars(b, i, k) =~= chars(b, i, j) + chars(b, j, k));
    } else {
        lemma_first_char(b, i, j);
        lemma_first_char(b, i, k);
        let n = next_boundary_of(b, i);
        lemma_chars_join(b, n, j, k);
        let (a, c) = (chars(b, i, j), chars(b, i, k));
        assert(c =~= seq![c[0]] + c.drop_first());
        assert(a =~= seq![a[0]] + a.drop_first());
        assert(c =~= a + chars(b, j, k));
    }
}

/// What is skipped going forward, and where that stops.
pub proof fn lemma_skipped_forward(b: Seq<u8>, pos: int, white: bool)
    requires
        valid_utf8(b),
        is_boundary(b, pos),
    ensures
        ({
            let m = skip_forward(b, pos, white);
            &&& pos <= m <= b.len()
            &&& is_boundary(b, m)
            &&& all_are(chars(b, pos, m), white)
            &&& m < b.len() ==> white_space(chars(b, m, b.len() as int)[0]) != white
            &&& pos < b.len() && white_space(chars(b, pos, b.len() as int)[0]) == white ==> pos < m
        }),
    decreases b.len() - pos,
{
    lemma_start_is_boundary(b);
    lemma_skip_forward(b, pos, white);
    let m = skip_forward(b, pos, white);
    if pos < b.len() {
        lemma_first_char(b, pos, b.len() as int);
        let n = next_boundary_of(b, pos);
        if white_space(char_at_offset(b, pos)) == white {
            lemma_skipped_forward(b, n, white);
            lemma_first_char(b, pos, m);
            let cs = chars(b, pos, m);
            assert forall|k: int| 0 <= k < cs.len() implies white_space(#[trigger] cs[k]) == white by {
                if k > 0 {
                    assert(cs.drop_first()[k - 1] == cs[k]);
                }
            }
        } else {
            assert(b.subrange(pos, pos) =~= Seq::<u8>::empty());
            assert(chars(b, pos, pos) =~= Seq::<char>::empty());
        }
    } else {
        assert(b.subrange(pos, pos) =~= Seq::<u8>::empty());
        assert(chars(b, pos, pos) =~= Seq::<char>::empty());
    }
}

/// What is skipped going back, and where that stops.
proof fn lemma_skipped_back(b: Seq<u8>, pos: int, white: bool)
    requires
        valid_utf8(b),
        is_boundary(b, pos),
    ensures
        ({
            let m = skip_back(b, pos, white);
            &&& 0 <= m <= pos
            &&& is_boundary(b, m)
            &&& all_are(chars(b, m, pos), white)
            &&& m > 0 ==> chars(b, 0, m).len() > 0 && white_space(chars(b, 0, m).last()) != white
            &&& pos > 0 && white_space(chars(b, 0, pos).last()) == white ==> m < pos
        }),
    decreases pos,
{
    lemma_start_is_boundary(b);
    lemma_skip_back(b, pos, white);
    let m = skip_back(b, pos, white);
    assert(b.subrange(pos, pos) =~= Seq::<u8>::empty());
    assert(chars(b, pos, pos) =~= Seq::<char>::empty());
    if pos > 0 {
        lemma_boundary_below(b, pos - 1);
        let p = prev_boundary_of(b, pos);
        lemma_boundary_above(b, p + 1);
        assert(next_boundary_of(b, p) == pos);
        lemma_first_char(b, p, pos);
        let one = chars(b, p, pos);
        law_previous_boundary_is_one_char_back(b, pos);
        assert(one.len() == 1);
        lemma_chars_join(b, 0, p, pos);
        assert(chars(b, 0, pos).last() == one[0]);
        if white_space(char_at_offset(b, p)) == white {
            lemma_skipped_back(b, p, white);
            lemma_chars_join(b, m, p, pos);
            let cs = chars(b, m, pos);
            let head = chars(b, m, p);
            assert forall|k: int| 0 <= k < cs.len() implies white_space(#[trigger] cs[k]) == white by {
                if k < head.len() {
                    assert(cs[k] == head[k]);
                } else {
                    assert(cs[k] == one[0]);
                }
            }
        }
    }
}

/// The next word ends at `m`: from `pos` on there is white space as far as it goes, and then
/// what is no white space as far as that goes.
pub open spec fn word_after(b: Seq<u8>, pos: int, m: int) -> bool {
    exists|i: int|
        #![trigger is_boundary(b, i)]
        {
            &&& pos <= i <= m <= b.len()
            &&& is_boundary(b, i)
            &&& is_boundary(b, m)
            &&& all_are(chars(b, pos, i), true)
            &&& all_are(chars(b, i, m), false)
            &&& i < b.len() ==> !white_space(chars(b, i, b.len() as int)[0])
            &&& m < b.len() ==> white_space(chars(b, m, b.len() as int)[0])
        }
}

/// The word before starts at `m`: back from `pos` there is white space as far as it goes, and
/// then what is no white space as far as that goes.
pub open spec fn word_before(b: Seq<u8>, pos: int, m: int) -> bool {
    exists|i: int|
        #![trigger is_boundary(b, i)]
        {
            &&& 0 <= m <= i <= pos
            &&& is_boundary(b, i)
            &&& is_boundary(b, m)
            &&& all_are(chars(b, i, pos), true)
            &&& all_are(chars(b, m, i), false)
            &&& i > 0 ==> !white_space(chars(b, 0, i).last())
            &&& m > 0 ==> white_space(chars(b, 0, m).last())
        }
}

/// A step of a word forward goes over white space of any sort, line ends too, and then over one
/// word. It gets somewhere wherever there is text left.
pub proof fn law_next_word(b: Seq<u8>, pos: int)
    requires
        valid_utf8(b),
        is_boundary(b, pos),
    ensures
        word_after(b, pos, next_word_of(b, pos)),
        pos < b.len() ==> pos < next_word_of(b, pos),
        pos == b.len() ==> next_word_of(b, pos) == pos,
{
    let i = skip_forward(b, pos, true);
    lemma_skipped_forward(b, pos, true);
    lemma_skipped_forward(b, i, false);
    assert(is_boundary(b, i));
    assert(word_after(b, pos, skip_forward(b, i, false)));
}

/// A step of a word back goes over white space of any sort, line ends too, and then over one
/// word. It gets somewhere wherever there is text before it.
pub proof fn law_previous_word(b: Seq<u8>, pos: int)
    requires
        valid_utf8(b),
        is_boundary(b, pos),
    ensures
        word_before(b, pos, prev_word_of(b, pos)),
        pos > 0 ==> prev_word_of(b, pos) < pos,
        pos == 0 ==> prev_word_of(b, pos) == 0,
{
    let i = skip_back(b, pos, true);
    lemma_skipped_back(b, pos, true);
    lemma_skipped_back(b, i, false);
    assert(is_boundary(b, i));
    assert(word_before(b, pos, skip_back(b, i, false)));
}

/// A line lies between newlines, or the ends of the text, and holds none.
pub proof fn law_line_lies_between_newlines(b: Seq<u8>, pos: int)
    requires
        0 <= pos <= b.len(),
    ensures
        ({
            let (s, e) = (line_start_of(b, pos), line_end_of(b, pos));
            &&& 0 <= s <= pos <= e <= b.len()
            &&& s > 0 ==> b[s - 1] == NEWLINE
            &&& e < b.len() ==> b[e] == NEWLINE
            &&& forall|k: int| s <= k < e ==> #[trigger] b[k] != NEWLINE
        }),
{
    lemma_line_start(b, pos);
    lemma_line_end(b, pos);
}

/// As many chars along as were asked for, or as there are.
proof fn lemma_advanced(b: Seq<u8>, start: int, end: int, col: nat)
    requires
        valid_utf8(b),
        is_boundary(b, start),
        is_boundary(b, end),
        start <= end,
    ensures
        ({
            let p = advance(b, start, end, col);
            &&& start <= p <= end
            &&& is_boundary(b, p)
            &&& chars(b, start, p).len() == if col <= chars(b, start, end).len() {
                col
            } else {
                chars(b, start, end).len()
            }
        }),
    decreases col,
{
    assert(b.subrange(start, start) =~= Seq::<u8>::empty());
    assert(chars(b, start, start) =~= Seq::<char>::empty());
    if start < end && col > 0 {
        lemma_first_char(b, start, end);
        let n = next_boundary_of(b, start);
        lemma_advanced(b, n, end, (col - 1) as nat);
        let p = advance(b, start, end, col);
        lemma_first_char(b, start, p);
    }
}

/// A column of a line is found that many chars along the line, or at its end if the line is
/// shorter. There is none on a line that there is not.
pub proof fn law_column_is_counted_in_chars(b: Seq<u8>, index: nat, col: nat)
    requires
        valid_utf8(b),
    ensures
        column_offset(b, index, col) is Some <==> line_range_of(b, index) is Some,
        line_range_of(b, index) matches Some((start, end)) ==> {
            let p = column_offset(b, index, col)->0;
            let there = chars(b, start, end).len();
            &&& start <= p <= end
            &&& is_boundary(b, p)
            &&& chars(b, start, p).len() == if col <= there {
                col
            } else {
                there
            }
        },
{
    lemma_start_is_boundary(b);
    if line_range_of(b, index) is Some {
        let (start, end) = line_range_of(b, index)->0;
        lemma_line_range(b, 0, index);
        lemma_advanced(b, start, end, col);
    }
}

/// The column of a place is the number of chars before it on its line.
pub proof fn law_column_counts_chars(b: Seq<u8>, pos: int)
    requires
        0 <= pos <= b.len(),
    ensures
        column_at(b, pos) == chars(b, line_start_of(b, pos), pos).len(),
{
}

/// The indent of a line is its leading spaces and tabs, all of them and nothing else.
pub proof fn law_indent_is_spaces_and_tabs(b: Seq<u8>)
    ensures
        0 <= indent_len(b) <= b.len(),
        forall|i: int| 0 <= i < indent_len(b) ==> #[trigger] b[i] == SPACE || b[i] == TAB,
        indent_len(b) < b.len() ==> b[indent_len(b)] != SPACE && b[indent_len(b)] != TAB,
{
    lemma_indent_len(b);
    assert forall|i: int| 0 <= i < indent_len(b) implies #[trigger] b[i] == SPACE || b[i] == TAB by {
        assert(crate::text::is_blank(b[i]));
    }
}

/// The line of a place is the number of newlines before it, and a text has one line more than
/// newlines.
pub proof fn law_lines_are_counted_by_newlines(b: Seq<u8>, pos: int)
    requires
        0 <= pos <= b.len(),
    ensures
        line_index_of(b, pos) == b.subrange(0, pos).filter(|x: u8| x == NEWLINE).len(),
        line_count_of(b) == b.filter(|x: u8| x == NEWLINE).len() + 1,
{
    lemma_newlines_filter(b.subrange(0, pos));
    lemma_newlines_filter(b);
}

proof fn lemma_newlines_filter(b: Seq<u8>)
    ensures
        newlines(b) == b.filter(|x: u8| x == NEWLINE).len(),
    decreases b.len(),
{
    reveal(Seq::filter);
    if b.len() > 0 {
        lemma_newlines_filter(b.drop_last());
    }
}

} // verus!
