//! Numbered lists count up: renumbering the run of items around the caret.

use vstd::prelude::*;
use vstd::string::*;
use vstd::utf8::encode_utf8;

use crate::ascii::{NEWLINE, SPACE};
use crate::block::{
    lemma_list_marker, lemma_quote_len, lemma_same_quote, lemma_space_run, list_marker,
    list_marker_of, quote_len, quote_mark, quote_prefix, space_run, tail, BlockKind,
};
use crate::bytes::{is_boundary, lemma_encode_concat, lemma_str_valid, same_text, slice};
use crate::decimal::{
    decimal, digit_run, is_digit, law_decimal_reads_back, lemma_decimal_len, lemma_digit_run,
    lemma_digit_run_is, lemma_nine_digits, push_decimal,
};
use crate::edit::Editor;
use crate::lines::{
    join_lines, joined, law_joined_lines_split_back, law_line_at_its_index, law_line_end_by_length,
    law_lines_hold_no_newline, law_lines_join_back, lemma_total_len, line_of, lines_of, split_lines,
    str_views, string_views, total_len,
};
use crate::session::Session;
use crate::text;
use crate::text::{
    clamp_boundary_of, indent_len, indent_width, is_blank, law_line_range_at_its_index,
    lemma_indent_len, lemma_indent_len_is, line_end_of, line_index_of,
};

verus! {

/// Indent and number of a numbered item, behind whatever quote marks the line has.
pub open spec fn ordinal_of(line: Seq<u8>) -> Option<(int, nat)> {
    match list_marker_of(tail(line, quote_len(line))) {
        Some((_, BlockKind::Numbered { indent, number, .. })) => Some(
            (indent as int, number as nat),
        ),
        _ => None,
    }
}

/// Where the digits of a numbered item start.
pub open spec fn ordinal_start(line: Seq<u8>) -> int {
    quote_len(line) + indent_len(tail(line, quote_len(line)))
}

/// Where the digits of a numbered item end.
pub open spec fn ordinal_end(line: Seq<u8>) -> int {
    ordinal_start(line) + digit_run(tail(line, ordinal_start(line)))
}

/// A numbered item with another number.
pub open spec fn numbered(line: Seq<u8>, n: nat) -> Seq<u8> {
    line.subrange(0, ordinal_start(line)) + decimal(n) + tail(line, ordinal_end(line))
}

/// The first line of the unbroken run of items at `indent` that ends at line `k`.
pub open spec fn run_start(lines: Seq<Seq<u8>>, k: int, indent: int) -> int
    decreases k,
{
    if k <= 0 {
        0
    } else {
        match ordinal_of(lines[k - 1]) {
            Some((i, _)) => if i == indent {
                run_start(lines, k - 1, indent)
            } else {
                k
            },
            None => k,
        }
    }
}

/// The lines with the items at `indent` from line `i` on numbered from `n` up. Items nested
/// deeper are passed over; the run ends at any other line.
pub open spec fn renumbered_from(lines: Seq<Seq<u8>>, i: int, indent: int, n: nat) -> Seq<Seq<u8>>
    decreases lines.len() - i,
{
    if i < 0 || i >= lines.len() {
        lines
    } else {
        match ordinal_of(lines[i]) {
            None => lines,
            Some((ind, number)) => if ind > indent {
                renumbered_from(lines, i + 1, indent, n)
            } else if ind < indent {
                lines
            } else if number == n {
                renumbered_from(lines, i + 1, indent, n + 1)
            } else {
                renumbered_from(lines.update(i, numbered(lines[i], n)), i + 1, indent, n + 1)
            },
        }
    }
}

/// The lines with the run of items around line `k` renumbered from its first number.
pub open spec fn renumbered_around(lines: Seq<Seq<u8>>, k: int) -> Seq<Seq<u8>> {
    match ordinal_of(lines[k]) {
        None => lines,
        Some((indent, _)) => {
            let first = run_start(lines, k, indent);
            match ordinal_of(lines[first]) {
                None => lines,
                Some((_, n)) => renumbered_from(lines, first, indent, n),
            }
        },
    }
}

impl Session {
    /// The list around the caret renumbered. The caret moves along with the digits added or
    /// taken away before it, as far as the end of its own line.
    pub open spec fn renumbered(self) -> Session {
        let lines = lines_of(self.text);
        let k = line_index_of(self.text, self.caret) as int;
        let new = renumbered_around(lines, k);
        let text = joined(new);
        if text == self.text {
            self
        } else {
            let shifted = self.caret + total_len(new.subrange(0, k + 1)) - total_len(
                lines.subrange(0, k + 1),
            );
            let caret = clamp_boundary_of(text, if shifted < 0 {
                0
            } else {
                shifted
            });
            Session { text, caret, anchor: caret, dirty: true, ..self }
        }
    }
}

/// The start of a run lies at or before the line it was sought from, on an item of the run.
pub proof fn lemma_run_start(lines: Seq<Seq<u8>>, k: int, indent: int)
    requires
        0 <= k < lines.len(),
        ordinal_of(lines[k]) is Some,
        (ordinal_of(lines[k])->0).0 == indent,
    ensures
        0 <= run_start(lines, k, indent) <= k,
        ordinal_of(lines[run_start(lines, k, indent)]) is Some,
        (ordinal_of(lines[run_start(lines, k, indent)])->0).0 == indent,
    decreases k,
{
    if k > 0 {
        match ordinal_of(lines[k - 1]) {
            Some((i, _)) => {
                if i == indent {
                    lemma_run_start(lines, k - 1, indent);
                }
            },
            None => {},
        }
    }
}

/// Renumbering changes no line before the one it starts at, and adds none.
pub proof fn lemma_renumbered_frame(lines: Seq<Seq<u8>>, i: int, indent: int, n: nat)
    requires
        0 <= i,
    ensures
        renumbered_from(lines, i, indent, n).len() == lines.len(),
        forall|k: int|
            0 <= k < i && k < lines.len() ==> #[trigger] renumbered_from(lines, i, indent, n)[k]
                == lines[k],
    decreases lines.len() - i,
{
    if i < lines.len() {
        match ordinal_of(lines[i]) {
            None => {},
            Some((ind, number)) => {
                if ind > indent {
                    lemma_renumbered_frame(lines, i + 1, indent, n);
                } else if ind == indent {
                    if number == n {
                        lemma_renumbered_frame(lines, i + 1, indent, n + 1);
                    } else {
                        lemma_renumbered_frame(
                            lines.update(i, numbered(lines[i], n)),
                            i + 1,
                            indent,
                            n + 1,
                        );
                    }
                }
            },
        }
    }
}

/// Where the digits of a numbered item stand: inside the line, and there are some.
pub proof fn lemma_ordinal(line: Seq<u8>)
    ensures
        0 <= quote_len(line) <= ordinal_start(line) <= ordinal_end(line) <= line.len(),
        ordinal_of(line) is Some ==> ordinal_start(line) < ordinal_end(line) < line.len(),
        forall|i: int| ordinal_start(line) <= i < ordinal_end(line) ==> is_digit(#[trigger] line[i]),
        forall|i: int| 0 <= i < ordinal_end(line) ==> #[trigger] line[i] < 0x80,
        tail(tail(line, quote_len(line)), indent_len(tail(line, quote_len(line)))) == tail(
            line,
            ordinal_start(line),
        ),
{
    let q = quote_len(line);
    lemma_quote_len(line);
    let body = tail(line, q);
    lemma_indent_len(body);
    let ws = indent_len(body);
    let t = tail(line, q + ws);
    assert(tail(body, ws) =~= t);
    lemma_digit_run(t);
    assert forall|i: int| ordinal_start(line) <= i < ordinal_end(line) implies is_digit(
        #[trigger] line[i],
    ) by {
        assert(t[i - (q + ws)] == line[i]);
    }
    assert forall|i: int| 0 <= i < ordinal_end(line) implies #[trigger] line[i] < 0x80 by {
        if i < q {
        } else if i < q + ws {
            assert(is_blank(body[i - q]));
            assert(body[i - q] == line[i]);
        } else {
            assert(is_digit(line[i]));
        }
    }
}

/// Indent and number of a numbered item, behind whatever quote marks the line has.
pub fn ordinal(line: &str) -> (r: Option<(usize, u64)>)
    ensures
        match (r, ordinal_of(line.spec_bytes())) {
            (Some((i, n)), Some((indent, number))) => i == indent && n == number,
            (None, None) => true,
            _ => false,
        },
{
    proof {
        lemma_str_valid(line@);
    }
    let n: usize = line.as_bytes().len();
    let (q, _) = quote_prefix(line);
    match list_marker(slice(line, q, n)) {
        Some((_, BlockKind::Numbered { indent, number, .. })) => Some((indent, number)),
        _ => None,
    }
}

/// A numbered item with another number.
pub fn with_number(line: &str, n: u128) -> (r: String)
    ensures
        encode_utf8(r@) == numbered(line.spec_bytes(), n as nat),
{
    let b = line.as_bytes();
    let len: usize = b.len();
    let (q, _) = quote_prefix(line);
    let ghost body = tail(b@, q as int);
    proof {
        lemma_str_valid(line@);
        lemma_ordinal(b@);
    }
    let rest = slice(line, q, len);
    let ws: usize = indent_width(rest);
    let start: usize = q + ws;
    let mut end: usize = start;
    while end < len && b[end] >= crate::ascii::ZERO && b[end] <= crate::ascii::NINE
        invariant
            start <= end <= len,
            len == b.len(),
            b@ == line.spec_bytes(),
            start == ordinal_start(b@),
            ordinal_end(b@) == end + digit_run(tail(b@, end as int)),
        decreases len - end,
    {
        proof {
            assert(tail(b@, end as int).drop_first() =~= tail(b@, end + 1));
        }
        end += 1;
    }
    proof {
        if end < len {
            assert(tail(b@, end as int)[0] == b[end as int]);
        }
        assert(digit_run(tail(b@, end as int)) == 0);
        crate::block::lemma_ascii_prefix(b@, end as int);
    }
    let before = slice(line, 0, start);
    let after = slice(line, end, len);
    let mut r = before.to_owned();
    push_decimal(&mut r, n);
    let ghost grown = r@;
    r.append(after);
    proof {
        lemma_encode_concat(grown, after@);
    }
    r
}

/// Bytes held by the first `count` of some strings, which fit in `bound` bytes altogether.
fn sum_lengths(lines: &Vec<String>, count: usize, bound: usize) -> (r: usize)
    requires
        count <= lines.len(),
        joined(string_views(lines@)).len() <= bound,
    ensures
        r == total_len(string_views(lines@).subrange(0, count as int)),
{
    let ghost views = string_views(lines@);
    let mut r: usize = 0;
    let mut i: usize = 0;
    proof {
        assert(views.subrange(0, 0) =~= Seq::<Seq<u8>>::empty());
    }
    while i < count
        invariant
            i <= count <= lines.len(),
            views == string_views(lines@),
            joined(views).len() <= bound,
            r == total_len(views.subrange(0, i as int)),
        decreases count - i,
    {
        proof {
            assert(views.subrange(0, i + 1).drop_last() =~= views.subrange(0, i as int));
            lemma_total_len(views, i + 1);
        }
        r += lines[i].as_str().as_bytes().len();
        i += 1;
    }
    r
}

impl Editor {
    /// Renumber the ordered-list run around the caret so it counts up from whatever the first
    /// item's number is.
    #[verifier::rlimit(40)]
    pub(crate) fn renumber_around(&mut self)
        requires
            old(self)@.wf(),
        ensures
            final(self)@ == old(self)@.renumbered(),
            final(self)@.wf(),
    {
        let ghost before = self@;
        let ghost b = self@.text;
        let ghost views = lines_of(b);
        let line: usize = text::line_index(self.text.as_str(), self.caret);
        proof {
            law_line_at_its_index(b, self.caret as int);
            law_lines_join_back(b);
        }
        let parts = split_lines(self.text.as_str());
        let mut lines: Vec<String> = Vec::new();
        let mut c: usize = 0;
        while c < parts.len()
            invariant
                c <= parts.len(),
                lines.len() == c,
                string_views(lines@) =~= str_views(parts@).subrange(0, c as int),
            decreases parts.len() - c,
        {
            lines.push(parts[c].to_owned());
            c += 1;
        }
        proof {
            assert(str_views(parts@).subrange(0, c as int) =~= str_views(parts@));
            assert(string_views(lines@) == views);
            assert(views[line as int] == encode_utf8(lines[line as int]@));
        }
        let (indent, _) = match ordinal(lines[line].as_str()) {
            Some(found) => found,
            None => {
                proof {
                    assert(renumbered_around(views, line as int) == views);
                }
                return;
            },
        };
        proof {
            lemma_run_start(views, line as int, indent as int);
        }
        // Walk up to the first item of this run at the same indent.
        let mut first: usize = line;
        while first > 0
            invariant
                first <= line < lines.len(),
                views == string_views(lines@),
                run_start(views, line as int, indent as int) == run_start(
                    views,
                    first as int,
                    indent as int,
                ),
            ensures
                first == run_start(views, line as int, indent as int),
            decreases first,
        {
            proof {
                assert(views[first - 1] == encode_utf8(lines[first - 1]@));
            }
            match ordinal(lines[first - 1].as_str()) {
                Some((i, _)) => {
                    if i != indent {
                        break;
                    }
                },
                None => {
                    break;
                },
            }
            first -= 1;
        }
        proof {
            assert(views[first as int] == encode_utf8(lines[first as int]@));
        }
        let start: u64 = match ordinal(lines[first].as_str()) {
            Some((_, n)) => n,
            None => 1,
        };
        let before_len: usize = sum_lengths(
            &lines,
            line + 1,
            self.text.as_str().as_bytes().len(),
        );
        let mut n: u128 = start as u128;
        let mut i: usize = first;
        let ghost target = renumbered_from(views, first as int, indent as int, start as nat);
        while i < lines.len()
            invariant
                first <= i <= lines.len(),
                lines.len() == views.len(),
                n <= start + (i - first),
                target == renumbered_from(
                    string_views(lines@),
                    i as int,
                    indent as int,
                    n as nat,
                ),
            ensures
                target == string_views(lines@),
                lines.len() == views.len(),
            decreases lines.len() - i,
        {
            let ghost now = string_views(lines@);
            proof {
                assert(now[i as int] == encode_utf8(lines[i as int]@));
            }
            let (ind, number) = match ordinal(lines[i].as_str()) {
                Some(found) => found,
                None => {
                    break;
                },
            };
            if ind > indent {
                // Nested items are passed over without renumbering them here.
                i += 1;
                continue;
            }
            if ind < indent {
                break;
            }
            if number as u128 != n {
                let rebuilt = with_number(lines[i].as_str(), n);
                lines.set(i, rebuilt);
                proof {
                    assert(string_views(lines@) =~= now.update(
                        i as int,
                        numbered(now[i as int], n as nat),
                    ));
                }
            }
            n += 1;
            i += 1;
        }
        let rebuilt_text = join_lines(&lines);
        proof {
            assert(target == renumbered_around(views, line as int));
        }
        if !same_text(rebuilt_text.as_str(), self.text.as_str()) {
            let after_len: usize = sum_lengths(
                &lines,
                line + 1,
                rebuilt_text.as_str().as_bytes().len(),
            );
            let total: usize = rebuilt_text.as_str().as_bytes().len();
            // A caret that a longer text would push past its end is held there anyway.
            let shifted: usize = if after_len >= before_len {
                self.caret.saturating_add(after_len - before_len)
            } else {
                self.caret.saturating_sub(before_len - after_len)
            };
            proof {
                lemma_str_valid(rebuilt_text@);
            }
            self.text = rebuilt_text;
            self.caret = text::clamp_boundary(self.text.as_str(), shifted);
            self.anchor = self.caret;
            self.dirty = true;
            proof {
                assert(self@ =~= before.renumbered());
            }
        }
    }
}

// ---- what renumbering comes to ------------------------------------------------

/// From line `i` on, the items at `indent` count up from `n`, items nested deeper passed over,
/// as far as the run goes.
pub open spec fn counts_up(lines: Seq<Seq<u8>>, i: int, indent: int, n: nat) -> bool
    decreases lines.len() - i,
{
    if i < 0 || i >= lines.len() {
        true
    } else {
        match ordinal_of(lines[i]) {
            None => true,
            Some((ind, number)) => if ind > indent {
                counts_up(lines, i + 1, indent, n)
            } else if ind < indent {
                true
            } else {
                number == n && counts_up(lines, i + 1, indent, n + 1)
            },
        }
    }
}

/// The largest number an item can have: nine digits.
pub open spec fn last_ordinal() -> nat {
    999_999_999
}

/// Giving an item another number gives it that number and keeps its indent. With a number of
/// more than nine digits the line is no item any more.
pub proof fn law_numbered_item(line: Seq<u8>, n: nat)
    requires
        ordinal_of(line) is Some,
    ensures
        n <= last_ordinal() ==> ordinal_of(numbered(line, n)) == Some(
            ((ordinal_of(line)->0).0, n),
        ),
        n > last_ordinal() ==> ordinal_of(numbered(line, n)) is None,
{
    let q = quote_len(line);
    let body = tail(line, q);
    let ws = indent_len(body);
    let start = ordinal_start(line);
    let end = ordinal_end(line);
    let d = decimal(n);
    let c = numbered(line, n);
    lemma_ordinal(line);
    lemma_indent_len(body);
    lemma_list_marker(body);
    law_decimal_reads_back(n);
    lemma_decimal_len(n);
    lemma_nine_digits(d);
    let digits = tail(line, start);
    lemma_digit_run(digits);
    assert(body[ws + digit_run(digits)] == line[end]);
    assert forall|i: int| 0 <= i < d.len() implies is_digit(#[trigger] c[start + i]) by {
        assert(c[start + i] == d[i]);
    }
    // The quote prefix stays as it is.
    let rest = tail(c, q);
    assert forall|i: int| 0 <= i < ws implies is_blank(#[trigger] rest[i]) by {
        assert(rest[i] == body[i]);
    }
    assert(rest[ws] == c[start + 0]);
    lemma_indent_len_is(rest, ws);
    lemma_space_run(rest);
    assert(quote_mark(rest) == 0) by {
        let s = space_run(rest);
        if s > ws {
            assert(rest[ws] == SPACE);
        }
        if s < ws {
            assert(is_blank(rest[s]));
        }
    }
    assert(line.subrange(0, q) =~= c.subrange(0, q));
    assert((line[q] == SPACE) == (c[q] == SPACE)) by {
        assert(line[q] == body[0]);
        assert(c[q] == rest[0]);
        if ws == 0 {
            assert(is_digit(line[start]));
        } else {
            assert(rest[0] == body[0]);
        }
    }
    lemma_same_quote(line, c, q);
    // So does the indent, and the digits are the new ones.
    let run = tail(rest, ws);
    assert(run =~= tail(c, start));
    assert forall|i: int| 0 <= i < d.len() implies is_digit(#[trigger] run[i]) by {
        assert(run[i] == c[start + i]);
    }
    assert(run[d.len() as int] == line[end]);
    assert(!is_digit(line[end])) by {
        assert(digits[digit_run(digits)] == line[end]);
    }
    lemma_digit_run_is(run, d.len() as int);
    assert(rest[ws + d.len()] == line[end]);
    assert(rest[ws + d.len() + 1] == line[end + 1]);
    assert(body[ws + digit_run(digits) + 1] == line[end + 1]);
    assert(rest.subrange(ws, ws + d.len()) =~= d);
}

/// After renumbering, the run counts up from its first number. Past nine digits a line is no
/// item any more, and the run ends there.
pub proof fn law_renumbering_counts_up(lines: Seq<Seq<u8>>, i: int, indent: int, n: nat)
    requires
        0 <= i <= lines.len(),
    ensures
        counts_up(renumbered_from(lines, i, indent, n), i, indent, n),
    decreases lines.len() - i,
{
    if i < lines.len() {
        match ordinal_of(lines[i]) {
            None => {},
            Some((ind, number)) => {
                if ind > indent {
                    law_renumbering_counts_up(lines, i + 1, indent, n);
                    lemma_renumbered_frame(lines, i + 1, indent, n);
                } else if ind == indent {
                    if number == n {
                        law_renumbering_counts_up(lines, i + 1, indent, n + 1);
                        lemma_renumbered_frame(lines, i + 1, indent, n + 1);
                    } else {
                        let next = lines.update(i, numbered(lines[i], n));
                        law_numbered_item(lines[i], n);
                        law_renumbering_counts_up(next, i + 1, indent, n + 1);
                        lemma_renumbered_frame(next, i + 1, indent, n + 1);
                    }
                }
            },
        }
    }
}

/// A run that counts up already is left alone.
pub proof fn law_counting_run_is_left_alone(lines: Seq<Seq<u8>>, i: int, indent: int, n: nat)
    requires
        0 <= i,
        counts_up(lines, i, indent, n),
    ensures
        renumbered_from(lines, i, indent, n) == lines,
    decreases lines.len() - i,
{
    if i < lines.len() {
        match ordinal_of(lines[i]) {
            None => {},
            Some((ind, number)) => {
                if ind > indent {
                    law_counting_run_is_left_alone(lines, i + 1, indent, n);
                } else if ind == indent {
                    law_counting_run_is_left_alone(lines, i + 1, indent, n + 1);
                }
            },
        }
    }
}

/// Renumbering twice comes to the same as renumbering once.
pub proof fn law_renumbering_is_idempotent(lines: Seq<Seq<u8>>, i: int, indent: int, n: nat)
    requires
        0 <= i <= lines.len(),
    ensures
        renumbered_from(renumbered_from(lines, i, indent, n), i, indent, n) == renumbered_from(
            lines,
            i,
            indent,
            n,
        ),
{
    law_renumbering_counts_up(lines, i, indent, n);
    law_counting_run_is_left_alone(renumbered_from(lines, i, indent, n), i, indent, n);
}

/// Only items of the list at `indent` change, and only from line `i` on.
pub proof fn law_renumbering_touches_items_only(
    lines: Seq<Seq<u8>>,
    i: int,
    indent: int,
    n: nat,
    k: int,
)
    requires
        0 <= i,
        0 <= k < lines.len(),
        k < i || ordinal_of(lines[k]) is None || (ordinal_of(lines[k])->0).0 != indent,
    ensures
        renumbered_from(lines, i, indent, n).len() == lines.len(),
        renumbered_from(lines, i, indent, n)[k] == lines[k],
    decreases lines.len() - i,
{
    lemma_renumbered_frame(lines, i, indent, n);
    if k >= i {
        match ordinal_of(lines[i]) {
            None => {},
            Some((ind, number)) => {
                if ind > indent {
                    law_renumbering_touches_items_only(lines, i + 1, indent, n, k);
                } else if ind == indent {
                    if number == n {
                        law_renumbering_touches_items_only(lines, i + 1, indent, n + 1, k);
                    } else {
                        law_renumbering_touches_items_only(
                            lines.update(i, numbered(lines[i], n)),
                            i + 1,
                            indent,
                            n + 1,
                            k,
                        );
                    }
                }
            },
        }
    }
}

/// No newline stands in any of the lines.
pub open spec fn hold_no_newline(lines: Seq<Seq<u8>>) -> bool {
    forall|k: int, i: int|
        0 <= k < lines.len() && 0 <= i < lines[k].len() ==> #[trigger] lines[k][i] != NEWLINE
}

proof fn lemma_numbered_line(line: Seq<u8>, n: nat)
    requires
        forall|i: int| 0 <= i < line.len() ==> #[trigger] line[i] != NEWLINE,
    ensures
        forall|i: int| 0 <= i < numbered(line, n).len() ==> #[trigger] numbered(line, n)[i] != NEWLINE,
{
    let c = numbered(line, n);
    let start = ordinal_start(line);
    let end = ordinal_end(line);
    let d = decimal(n);
    lemma_ordinal(line);
    law_decimal_reads_back(n);
    assert forall|i: int| 0 <= i < c.len() implies #[trigger] c[i] != NEWLINE by {
        if i < start {
            assert(c[i] == line[i]);
        } else if i < start + d.len() {
            assert(c[i] == d[i - start]);
            assert(is_digit(d[i - start]));
        } else {
            assert(c[i] == line[i - start - d.len() + end]);
        }
    }
}

proof fn lemma_renumbered_lines(lines: Seq<Seq<u8>>, i: int, indent: int, n: nat)
    requires
        0 <= i,
        hold_no_newline(lines),
    ensures
        hold_no_newline(renumbered_from(lines, i, indent, n)),
    decreases lines.len() - i,
{
    if i < lines.len() {
        match ordinal_of(lines[i]) {
            None => {},
            Some((ind, number)) => {
                if ind > indent {
                    lemma_renumbered_lines(lines, i + 1, indent, n);
                } else if ind == indent {
                    if number == n {
                        lemma_renumbered_lines(lines, i + 1, indent, n + 1);
                    } else {
                        let line = lines[i];
                        assert forall|j: int| 0 <= j < line.len() implies #[trigger] line[j]
                            != NEWLINE by {
                            assert(lines[i][j] == line[j]);
                        }
                        lemma_numbered_line(line, n);
                        let next = lines.update(i, numbered(line, n));
                        assert forall|k: int, j: int|
                            0 <= k < next.len() && 0 <= j < next[k].len() implies #[trigger] next[k][j]
                            != NEWLINE by {
                            if k != i {
                                assert(next[k][j] == lines[k][j]);
                            }
                        }
                        lemma_renumbered_lines(next, i + 1, indent, n + 1);
                    }
                }
            },
        }
    }
}

/// Wherever the list around the caret is renumbered, its run counts up from its first number in
/// the document that comes of it, and no line is added, taken away or broken.
pub proof fn law_renumbered_document_counts_up(s: Session)
    requires
        s.wf(),
        ordinal_of(line_of(s.text, s.caret)) is Some,
    ensures
        ({
            let lines = lines_of(s.text);
            let k = line_index_of(s.text, s.caret) as int;
            let indent = (ordinal_of(line_of(s.text, s.caret))->0).0;
            let first = run_start(lines, k, indent);
            let after = lines_of(s.renumbered().text);
            &&& after == renumbered_around(lines, k)
            &&& after.len() == lines.len()
            &&& counts_up(after, first, indent, (ordinal_of(lines[first])->0).1)
        }),
{
    let lines = lines_of(s.text);
    let k = line_index_of(s.text, s.caret) as int;
    law_line_at_its_index(s.text, s.caret);
    let indent = (ordinal_of(lines[k])->0).0;
    lemma_run_start(lines, k, indent);
    let first = run_start(lines, k, indent);
    let n = (ordinal_of(lines[first])->0).1;
    let new = renumbered_from(lines, first, indent, n);
    law_lines_hold_no_newline(s.text);
    lemma_renumbered_lines(lines, first, indent, n);
    lemma_renumbered_frame(lines, first, indent, n);
    law_renumbering_counts_up(lines, first, indent, n);
    law_joined_lines_split_back(new);
}

/// An item has a number of at most nine digits.
proof fn lemma_ordinal_is_bounded(line: Seq<u8>)
    ensures
        ordinal_of(line) is Some ==> (ordinal_of(line)->0).1 <= last_ordinal(),
{
    let body = tail(line, quote_len(line));
    let ws = indent_len(body);
    lemma_indent_len(body);
    let run = tail(body, ws);
    lemma_digit_run(run);
    let digits = body.subrange(ws, ws + digit_run(run));
    assert(digits =~= run.subrange(0, digit_run(run)));
    lemma_nine_digits(digits);
}

/// What becomes of line `j` of an unbroken run that starts at line `i`.
proof fn lemma_run_line(lines: Seq<Seq<u8>>, i: int, indent: int, n: nat, j: int)
    requires
        0 <= i <= j < lines.len(),
        forall|l: int|
            i <= l <= j ==> ordinal_of(#[trigger] lines[l]) is Some && (ordinal_of(lines[l])->0).0
                == indent,
    ensures
        ({
            let m = (n + j - i) as nat;
            renumbered_from(lines, i, indent, n)[j] == if (ordinal_of(lines[j])->0).1 == m {
                lines[j]
            } else {
                numbered(lines[j], m)
            }
        }),
    decreases j - i,
{
    let number = (ordinal_of(lines[i])->0).1;
    let next = if number == n {
        lines
    } else {
        lines.update(i, numbered(lines[i], n))
    };
    lemma_renumbered_frame(next, i + 1, indent, n + 1);
    if i < j {
        assert forall|l: int| i + 1 <= l <= j implies ordinal_of(#[trigger] next[l]) is Some && (
        ordinal_of(next[l])->0).0 == indent by {
            assert(next[l] == lines[l]);
        }
        lemma_run_line(next, i + 1, indent, n + 1, j);
    }
}

/// Every line from the start of a run down to where it was sought from is an item of it, and
/// the line before its start is not.
pub proof fn lemma_run_start_lines(lines: Seq<Seq<u8>>, k: int, indent: int)
    requires
        0 <= k < lines.len(),
        ordinal_of(lines[k]) is Some,
        (ordinal_of(lines[k])->0).0 == indent,
    ensures
        forall|l: int|
            run_start(lines, k, indent) <= l <= k ==> ordinal_of(#[trigger] lines[l]) is Some && (
            ordinal_of(lines[l])->0).0 == indent,
        run_start(lines, k, indent) > 0 ==> {
            let above = ordinal_of(lines[run_start(lines, k, indent) - 1]);
            above is None || (above->0).0 != indent
        },
    decreases k,
{
    if k > 0 {
        match ordinal_of(lines[k - 1]) {
            Some((i, _)) => {
                if i == indent {
                    lemma_run_start_lines(lines, k - 1, indent);
                }
            },
            None => {},
        }
    }
}

/// A run starts where its first item is and no item of it stands above.
proof fn lemma_run_start_is(lines: Seq<Seq<u8>>, k: int, indent: int, first: int)
    requires
        0 <= first <= k < lines.len(),
        forall|l: int|
            first <= l <= k ==> ordinal_of(#[trigger] lines[l]) is Some && (ordinal_of(lines[l])->0).0
                == indent,
        first > 0 ==> {
            let above = ordinal_of(lines[first - 1]);
            above is None || (above->0).0 != indent
        },
    ensures
        run_start(lines, k, indent) == first,
    decreases k,
{
    if k > first {
        lemma_run_start_is(lines, k - 1, indent, first);
    }
}

/// Renumbering the run around a line twice comes to the same as renumbering it once.
pub proof fn law_renumbering_around_is_idempotent(lines: Seq<Seq<u8>>, k: int)
    requires
        0 <= k < lines.len(),
    ensures
        renumbered_around(renumbered_around(lines, k), k) == renumbered_around(lines, k),
        renumbered_around(lines, k).len() == lines.len(),
{
    if ordinal_of(lines[k]) is Some {
        let indent = (ordinal_of(lines[k])->0).0;
        let first = run_start(lines, k, indent);
        lemma_run_start(lines, k, indent);
        lemma_run_start_lines(lines, k, indent);
        let n = (ordinal_of(lines[first])->0).1;
        let new = renumbered_from(lines, first, indent, n);
        lemma_renumbered_frame(lines, first, indent, n);
        lemma_run_line(lines, first, indent, n, k);
        law_numbered_item(lines[k], (n + k - first) as nat);
        lemma_ordinal_is_bounded(lines[k]);
        lemma_ordinal_is_bounded(new[k]);
        if ordinal_of(new[k]) is Some {
            assert(n + k - first <= last_ordinal());
            assert forall|l: int| first <= l <= k implies ordinal_of(#[trigger] new[l]) is Some && (
            ordinal_of(new[l])->0).0 == indent by {
                lemma_run_line(lines, first, indent, n, l);
                law_numbered_item(lines[l], (n + l - first) as nat);
            }
            if first > 0 {
                assert(new[first - 1] == lines[first - 1]);
            }
            lemma_run_start_is(new, k, indent, first);
            lemma_run_line(lines, first, indent, n, first);
            law_renumbering_is_idempotent(lines, first, indent, n);
        }
    }
}

/// Renumbering the list around a caret at the end of its line, twice, comes to the same as
/// doing it once: the text, the caret, the anchor and all else.
pub proof fn law_renumbering_a_session_is_idempotent(s: Session)
    requires
        s.wf(),
        s.caret == line_end_of(s.text, s.caret),
    ensures
        s.renumbered().renumbered() == s.renumbered(),
{
    let lines = lines_of(s.text);
    let k = line_index_of(s.text, s.caret) as int;
    let new = renumbered_around(lines, k);
    let t = s.renumbered();
    if joined(new) != s.text {
        law_line_at_its_index(s.text, s.caret);
        law_lines_join_back(s.text);
        law_lines_hold_no_newline(s.text);
        law_renumbering_around_is_idempotent(lines, k);
        lemma_around_holds_no_newline(lines, k);
        law_line_end_by_length(lines, k);
        law_line_end_by_length(new, k);
        let was = total_len(lines.subrange(0, k + 1)) + k;
        let end = total_len(new.subrange(0, k + 1)) + k;
        law_line_range_at_its_index(s.text, s.caret);
        law_line_range_at_its_index(s.text, was);
        assert(s.caret == was);
        assert(is_boundary(t.text, end));
        assert(t.caret == end);
        law_joined_lines_split_back(new);
    }
}

pub proof fn lemma_around_holds_no_newline(lines: Seq<Seq<u8>>, k: int)
    requires
        0 <= k < lines.len(),
        hold_no_newline(lines),
    ensures
        hold_no_newline(renumbered_around(lines, k)),
{
    if ordinal_of(lines[k]) is Some {
        let indent = (ordinal_of(lines[k])->0).0;
        lemma_run_start(lines, k, indent);
        let first = run_start(lines, k, indent);
        lemma_renumbered_lines(lines, first, indent, (ordinal_of(lines[first])->0).1);
    }
}

/// Line `j` is an item of the run at `indent` that starts at line `first`: nothing but items at
/// that indent, and items nested deeper, stands between the two.
pub open spec fn in_run(lines: Seq<Seq<u8>>, first: int, indent: int, j: int) -> bool {
    &&& first <= j < lines.len()
    &&& ordinal_of(lines[j]) is Some
    &&& (ordinal_of(lines[j])->0).0 == indent
    &&& forall|l: int|
        first <= l < j ==> ordinal_of(#[trigger] lines[l]) is Some && (ordinal_of(lines[l])->0).0
            >= indent
}

/// Renumbering the list around the caret keeps the number of lines, and of each line all but
/// the number of an item of the caret's own run and indent.
pub proof fn law_renumbering_a_session_changes_numbers_only(s: Session, j: int)
    requires
        s.wf(),
        0 <= j < lines_of(s.text).len(),
    ensures
        ({
            let lines = lines_of(s.text);
            let after = lines_of(s.renumbered().text);
            let own = ordinal_of(line_of(s.text, s.caret));
            &&& after.len() == lines.len()
            &&& after[j] == lines[j] || {
                let k = line_index_of(s.text, s.caret) as int;
                &&& own is Some
                &&& in_run(lines, run_start(lines, k, (own->0).0), (own->0).0, j)
                &&& exists|m: nat| after[j] == #[trigger] numbered(lines[j], m)
            }
        }),
{
    let lines = lines_of(s.text);
    let k = line_index_of(s.text, s.caret) as int;
    law_line_at_its_index(s.text, s.caret);
    law_lines_join_back(s.text);
    law_lines_hold_no_newline(s.text);
    lemma_around_holds_no_newline(lines, k);
    if ordinal_of(lines[k]) is Some {
        let indent = (ordinal_of(lines[k])->0).0;
        lemma_run_start(lines, k, indent);
        let first = run_start(lines, k, indent);
        let n = (ordinal_of(lines[first])->0).1;
        lemma_renumbered_frame(lines, first, indent, n);
        lemma_renumbered_line(lines, first, indent, n, j);
        law_joined_lines_split_back(renumbered_from(lines, first, indent, n));
    }
}

/// What becomes of any line.
pub proof fn lemma_renumbered_line(lines: Seq<Seq<u8>>, i: int, indent: int, n: nat, j: int)
    requires
        0 <= i,
        0 <= j < lines.len(),
    ensures
        renumbered_from(lines, i, indent, n)[j] == lines[j] || {
            &&& in_run(lines, i, indent, j)
            &&& exists|m: nat|
                renumbered_from(lines, i, indent, n)[j] == #[trigger] numbered(lines[j], m)
        },
    decreases lines.len() - i,
{
    lemma_renumbered_frame(lines, i, indent, n);
    if j >= i {
        match ordinal_of(lines[i]) {
            None => {},
            Some((ind, number)) => {
                if ind > indent {
                    lemma_renumbered_line(lines, i + 1, indent, n, j);
                } else if ind == indent {
                    if number == n {
                        lemma_renumbered_line(lines, i + 1, indent, n + 1, j);
                    } else {
                        let next = lines.update(i, numbered(lines[i], n));
                        lemma_renumbered_frame(next, i + 1, indent, n + 1);
                        lemma_renumbered_line(next, i + 1, indent, n + 1, j);
                        assert forall|l: int| i + 1 <= l <= j implies next[l] == #[trigger] lines[l] by {}
                        if j == i {
                            assert(renumbered_from(lines, i, indent, n)[j] == numbered(lines[j], n));
                        }
                    }
                }
            },
        }
    }
}

} // verus!
