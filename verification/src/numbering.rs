//! What renumbering a list does to its lines and to the caret.

use vstd::prelude::*;

use crate::ascii::NEWLINE;
use crate::block::{lemma_quote_len, quote_len, tail};
use crate::bytes::is_boundary;
use crate::decimal::{decimal, digit_run, is_digit, lemma_digit_run};
use crate::lines::{
    law_joined_lines_split_back, law_line_at_its_index, law_line_end_by_length,
    law_lines_hold_no_newline, law_lines_join_back, line_of, lines_of, total_len,
};
use crate::renumber::{
    law_renumbering_around_is_idempotent, lemma_around_holds_no_newline, lemma_ordinal,
    lemma_renumbered_frame, lemma_renumbered_line, lemma_run_start, lemma_run_start_lines,
    numbered, ordinal_end, ordinal_of, ordinal_start, renumbered_around, renumbered_from,
    run_start,
};
use crate::session::Session;
use crate::text::{
    clamp_boundary_of, is_blank, law_line_range_at_its_index, lemma_indent_len, lemma_line_end,
    lemma_line_end_is, lemma_line_start, line_end_of, line_index_of, line_start_of,
};

verus! {

/// A numbered item at an indent.
pub open spec fn is_item(line: Seq<u8>, indent: int) -> bool {
    ordinal_of(line) is Some && (ordinal_of(line)->0).0 == indent
}

/// How many numbered items at an indent stand on the lines from `i` up to `j`.
pub open spec fn items(lines: Seq<Seq<u8>>, i: int, j: int, indent: int) -> nat {
    lines.subrange(i, j).filter(|line: Seq<u8>| is_item(line, indent)).len()
}

/// The run of items that line `k` belongs to starts right behind a line that is none of them.
pub proof fn law_run_starts_behind_another_line(lines: Seq<Seq<u8>>, k: int, indent: int)
    requires
        0 <= k < lines.len(),
        is_item(lines[k], indent),
    ensures
        ({
            let f = run_start(lines, k, indent);
            &&& 0 <= f <= k
            &&& forall|l: int| f <= l <= k ==> is_item(#[trigger] lines[l], indent)
            &&& f > 0 ==> !is_item(lines[f - 1], indent)
        }),
{
    lemma_run_start(lines, k, indent);
    lemma_run_start_lines(lines, k, indent);
}

/// Renumbering gives an item the first number and one more for each item at its indent that
/// stands between the first and it; items nested deeper are passed over.
pub proof fn law_item_gets_its_place_in_the_run(
    lines: Seq<Seq<u8>>,
    i: int,
    indent: int,
    n: nat,
    j: int,
)
    requires
        0 <= i <= j < lines.len(),
        forall|l: int|
            i <= l < j ==> ordinal_of(#[trigger] lines[l]) is Some && (ordinal_of(lines[l])->0).0
                >= indent,
        is_item(lines[j], indent),
    ensures
        ({
            let m = n + items(lines, i, j, indent);
            renumbered_from(lines, i, indent, n)[j] == if (ordinal_of(lines[j])->0).1 == m {
                lines[j]
            } else {
                numbered(lines[j], m)
            }
        }),
    decreases j - i,
{
    let f = |line: Seq<u8>| is_item(line, indent);
    if i < j {
        let (ind, number) = ordinal_of(lines[i])->0;
        let next = if ind > indent || number == n {
            lines
        } else {
            lines.update(i, numbered(lines[i], n))
        };
        let one = seq![lines[i]];
        let rest = lines.subrange(i + 1, j);
        assert(lines.subrange(i, j) =~= one + rest);
        assert(next.subrange(i + 1, j) =~= rest);
        Seq::filter_distributes_over_add(one, rest, f);
        assert(one.filter(f).len() == if ind == indent {
            1nat
        } else {
            0
        }) by {
            reveal(Seq::filter);
            assert(one.drop_last() =~= Seq::<Seq<u8>>::empty());
            assert(one.drop_last().filter(f).len() == 0);
        }
        assert(items(lines, i, j, indent) == one.filter(f).len() + rest.filter(f).len());
        if ind > indent {
            law_item_gets_its_place_in_the_run(lines, i + 1, indent, n, j);
        } else {
            law_item_gets_its_place_in_the_run(next, i + 1, indent, n + 1, j);
        }
    } else {
        reveal(Seq::filter);
        assert(lines.subrange(i, i) =~= Seq::<Seq<u8>>::empty());
        assert(items(lines, i, i, indent) == 0);
        if (ordinal_of(lines[i])->0).1 != n {
            lemma_renumbered_frame(
                lines.update(i, numbered(lines[i], n)),
                i + 1,
                indent,
                n + 1,
            );
        } else {
            lemma_renumbered_frame(lines, i + 1, indent, n + 1);
        }
    }
}

/// Where there is no list around a line, nothing is renumbered; where there is, it counts from
/// the number of the run's first item.
pub proof fn law_renumbering_counts_from_the_first_item(lines: Seq<Seq<u8>>, k: int)
    requires
        0 <= k < lines.len(),
    ensures
        ordinal_of(lines[k]) is None ==> renumbered_around(lines, k) == lines,
        ordinal_of(lines[k]) matches Some((indent, _)) ==> {
            let first = run_start(lines, k, indent);
            renumbered_around(lines, k) == renumbered_from(
                lines,
                first,
                indent,
                (ordinal_of(lines[first])->0).1,
            )
        },
{
    if ordinal_of(lines[k]) is Some {
        lemma_run_start(lines, k, (ordinal_of(lines[k])->0).0);
    }
}

/// Another number goes in the place of the digits, and the rest of the line stays.
pub proof fn law_only_the_digits_change(line: Seq<u8>, n: nat, a: int, e: int)
    requires
        ordinal_of(line) is Some,
        0 <= a < e < line.len(),
        forall|j: int| 0 <= j < a ==> !(0x30 <= #[trigger] line[j] <= 0x39),
        forall|j: int| a <= j < e ==> 0x30 <= #[trigger] line[j] <= 0x39,
        !(0x30 <= line[e] <= 0x39),
    ensures
        numbered(line, n) == line.subrange(0, a) + decimal(n) + line.subrange(
            e,
            line.len() as int,
        ),
{
    lemma_ordinal(line);
    let (start, end) = (ordinal_start(line), ordinal_end(line));
    lemma_quote_len(line);
    let body = tail(line, quote_len(line));
    lemma_indent_len(body);
    let t = tail(line, start);
    lemma_digit_run(t);
    assert(is_digit(line[start]));
    assert forall|j: int| 0 <= j < start implies !is_digit(#[trigger] line[j]) by {
        if j >= quote_len(line) {
            assert(is_blank(body[j - quote_len(line)]));
        }
    }
    assert(a == start) by {
        if a < start {
            assert(is_digit(line[a]));
        }
    }
    assert(t[digit_run(t)] == line[end]);
    assert(e == end) by {
        if e < end {
            assert(is_digit(line[e]));
        } else if end < e {
            assert(is_digit(line[end]));
        }
    }
}

/// A line with another number ends as it did, from anywhere behind the number.
proof fn lemma_tail_kept(line: Seq<u8>, other: Seq<u8>, left: int)
    requires
        other == line || exists|m: nat| other == #[trigger] numbered(line, m),
        0 <= left <= line.len() - ordinal_end(line),
    ensures
        left <= other.len(),
        other.subrange(other.len() - left, other.len() as int) == line.subrange(
            line.len() - left,
            line.len() as int,
        ),
{
    lemma_ordinal(line);
    if other != line {
        let m = choose|m: nat| other == #[trigger] numbered(line, m);
        assert(other.subrange(other.len() - left, other.len() as int) =~= line.subrange(
            line.len() - left,
            line.len() as int,
        ));
    }
}

/// Lines that end with the same text have the same places in it.
proof fn lemma_place_kept(b: Seq<u8>, pos: int, c: Seq<u8>, end: int)
    requires
        is_boundary(b, pos),
        0 <= end <= c.len(),
        line_end_of(c, end) == end,
        ({
            let left = line_end_of(b, pos) - pos;
            &&& left <= end - line_start_of(c, end)
            &&& c.subrange(end - left, end) == b.subrange(pos, pos + left)
        }),
    ensures
        ({
            let p = end - (line_end_of(b, pos) - pos);
            &&& is_boundary(c, p)
            &&& line_end_of(c, p) == end
            &&& line_index_of(c, p) == line_index_of(c, end)
        }),
{
    lemma_line_end(b, pos);
    lemma_line_start(c, end);
    lemma_line_end(c, end);
    let left = line_end_of(b, pos) - pos;
    let p = end - left;
    if left > 0 {
        assert(c.subrange(p, end)[0] == c[p]);
        assert(b.subrange(pos, pos + left)[0] == b[pos]);
    }
    lemma_line_end_is(c, p, end);
    lemma_same_line(c, p, end);
}

/// Where the caret's line ends before and after renumbering, and what it holds.
proof fn lemma_renumbered_end(s: Session) -> (end: int)
    requires
        s.wf(),
        s.renumbered() != s,
    ensures
        ({
            let lines = lines_of(s.text);
            let k = line_index_of(s.text, s.caret) as int;
            let t = s.renumbered();
            let shifted = end - (line_end_of(s.text, s.caret) - s.caret);
            &&& 0 <= k < lines.len()
            &&& lines[k] == line_of(s.text, s.caret)
            &&& 0 <= end <= t.text.len()
            &&& line_end_of(t.text, end) == end
            &&& line_index_of(t.text, end) == k
            &&& line_of(t.text, end) == renumbered_around(lines, k)[k]
            &&& t.anchor == t.caret
            &&& t.caret == clamp_boundary_of(
                t.text,
                if shifted < 0 {
                    0
                } else {
                    shifted
                },
            )
        }),
{
    let lines = lines_of(s.text);
    let k = line_index_of(s.text, s.caret) as int;
    let new = renumbered_around(lines, k);
    law_line_at_its_index(s.text, s.caret);
    law_lines_join_back(s.text);
    law_lines_hold_no_newline(s.text);
    law_renumbering_around_is_idempotent(lines, k);
    lemma_around_holds_no_newline(lines, k);
    law_joined_lines_split_back(new);
    law_line_end_by_length(lines, k);
    law_line_end_by_length(new, k);
    let was = total_len(lines.subrange(0, k + 1)) + k;
    let end = total_len(new.subrange(0, k + 1)) + k;
    law_line_range_at_its_index(s.text, s.caret);
    law_line_range_at_its_index(s.text, was);
    law_line_at_its_index(s.renumbered().text, end);
    end
}

/// The caret stays in its text: behind the number of its line, what stands between it and the
/// end of the line is the same before and after, and so is the line it is on.
pub proof fn law_renumbering_keeps_the_caret_in_its_text(s: Session)
    requires
        s.wf(),
        s.caret - line_start_of(s.text, s.caret) >= ordinal_end(line_of(s.text, s.caret)),
    ensures
        ({
            let t = s.renumbered();
            let (se, te) = (line_end_of(s.text, s.caret), line_end_of(t.text, t.caret));
            &&& line_index_of(t.text, t.caret) == line_index_of(s.text, s.caret)
            &&& t.text.subrange(t.caret, te) == s.text.subrange(s.caret, se)
            &&& t != s ==> t.anchor == t.caret
        }),
{
    let t = s.renumbered();
    if t != s {
        let end = lemma_renumbered_end(s);
        let k = line_index_of(s.text, s.caret) as int;
        let line = line_of(s.text, s.caret);
        let other = line_of(t.text, end);
        lemma_line_start(s.text, s.caret);
        lemma_line_end(s.text, s.caret);
        lemma_line_start(t.text, end);
        lemma_new_line(lines_of(s.text), k);
        let left = line_end_of(s.text, s.caret) - s.caret;
        lemma_tail_kept(line, other, left);
        let p = end - left;
        assert(s.text.subrange(s.caret, s.caret + left) =~= line.subrange(
            line.len() - left,
            line.len() as int,
        ));
        assert(t.text.subrange(p, end) =~= other.subrange(other.len() - left, other.len() as int));
        lemma_place_kept(s.text, s.caret, t.text, end);
        lemma_clamped(t.text, p);
    }
}

/// A boundary is not clamped.
proof fn lemma_clamped(b: Seq<u8>, p: int)
    requires
        is_boundary(b, p),
    ensures
        clamp_boundary_of(b, p) == p,
{
}

/// Places with no newline between them are on the same line.
proof fn lemma_same_line(b: Seq<u8>, i: int, j: int)
    requires
        0 <= i <= j <= b.len(),
        forall|l: int| i <= l < j ==> #[trigger] b[l] != NEWLINE,
    ensures
        line_index_of(b, i) == line_index_of(b, j),
    decreases j - i,
{
    if i < j {
        lemma_same_line(b, i, j - 1);
        assert(b.subrange(0, j).drop_last() =~= b.subrange(0, j - 1));
        assert(b[j - 1] != NEWLINE);
    }
}

/// The line that a list is renumbered around keeps all but its number.
proof fn lemma_new_line(lines: Seq<Seq<u8>>, k: int)
    requires
        0 <= k < lines.len(),
    ensures
        renumbered_around(lines, k)[k] == lines[k] || exists|m: nat|
            renumbered_around(lines, k)[k] == #[trigger] numbered(lines[k], m),
{
    if ordinal_of(lines[k]) is Some {
        let indent = (ordinal_of(lines[k])->0).0;
        lemma_run_start(lines, k, indent);
        let first = run_start(lines, k, indent);
        lemma_renumbered_line(lines, first, indent, (ordinal_of(lines[first])->0).1, k);
    }
}

} // verus!
