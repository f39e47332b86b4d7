//! What the as-you-type conversions make of the text around the caret: markers turn into list
//! items, Enter carries lists and quotes on and ends them, an opening fence gets its closing
//! one, and emphasis and links go around the selection.

use vstd::prelude::*;
use vstd::string::*;
use vstd::utf8::{encode_utf8, is_ascii_chars_encode_utf8, valid_utf8};

use crate::ascii::{
    BACKTICK, BRACKET_CLOSE, BRACKET_OPEN, DASH, GREATER, LOWER_X, NEWLINE, PLUS, SPACE, STAR,
    TILDE,
};
use crate::block::{
    box_at, bullet_at, fence_line, first_ink, lemma_list_marker, lemma_quote_len, lemma_same_quote,
    lemma_space_run, list_marker_of, ordinal_at, quote_depth, quote_len, quote_mark, space_run,
    tail, BlockKind,
};
use crate::bytes::{char_at_offset, lemma_start_is_boundary, lemma_str_valid, spliced};
use crate::decimal::{
    decimal, digit_run, is_digit, law_decimal_reads_back, lemma_decimal_len, lemma_digit_run,
    lemma_digit_run_is,
};
use crate::keys::{edited_result, moved_result};
use crate::lines::{
    law_line_at_its_index, law_lines_concatenate, law_lines_join_back, line_of, lines_of,
};
use crate::renumber::{last_ordinal, ordinal_of};
use crate::session::{lemma_recorded, lemma_without_selection, lit, Session, Snap};
use crate::text::{
    indent_len, is_blank, lemma_after_ascii, lemma_indent_len, lemma_indent_len_is, lemma_line_end,
    lemma_line_end_is, lemma_line_start, lemma_line_start_is, lemma_skip_forward, line_end_of,
    line_index_of, line_start_of, skip_forward,
};
use crate::typing::{
    all_white, continuation, in_code, inside_fence, lemma_line, marker_len_of, reindented,
    space_rewrite, spaces, tab_indent,
};

verus! {

// ---- lines of an edited text --------------------------------------------------------

/// The line around `pos`, by where it starts and ends.
proof fn lemma_line_is(b: Seq<u8>, s: int, pos: int, e: int)
    requires
        0 <= s <= pos <= e <= b.len(),
        forall|i: int| s <= i < e ==> #[trigger] b[i] != NEWLINE,
        s == 0 || b[s - 1] == NEWLINE,
        e == b.len() || b[e] == NEWLINE,
    ensures
        line_of(b, pos) == b.subrange(s, e),
{
    lemma_line_start_is(b, s, pos);
    lemma_line_end_is(b, pos, e);
}

/// The line behind a line break put at `pos`: what was put behind the break, and what stood
/// between `pos` and the end of its line.
proof fn lemma_broken_line(b: Seq<u8>, pos: int, prefix: Seq<u8>)
    requires
        0 <= pos <= b.len(),
        forall|i: int| 0 <= i < prefix.len() ==> #[trigger] prefix[i] != NEWLINE,
    ensures
        line_of(
            spliced(b, pos, pos, seq![NEWLINE] + prefix),
            pos + 1 + prefix.len(),
        ) == prefix + b.subrange(pos, line_end_of(b, pos)),
{
    let c = spliced(b, pos, pos, seq![NEWLINE] + prefix);
    let n = prefix.len();
    let e = line_end_of(b, pos);
    lemma_line_end(b, pos);
    assert(c[pos] == NEWLINE);
    assert forall|i: int| pos + 1 <= i < e + 1 + n implies #[trigger] c[i] != NEWLINE by {
        if i < pos + 1 + n {
            assert(c[i] == prefix[i - pos - 1]);
        } else {
            assert(c[i] == b[i - 1 - n]);
        }
    }
    if e < b.len() {
        assert(c[e + 1 + n] == b[e]);
    }
    lemma_line_is(c, pos + 1, pos + 1 + n, e + 1 + n);
    assert(c.subrange(pos + 1, e + 1 + n) =~= prefix + b.subrange(pos, e));
}

// ---- the first ink of a line ----------------------------------------------------------

proof fn lemma_ascii_char(b: Seq<u8>, i: int)
    requires
        0 <= i < b.len(),
        b[i] < 0x80,
    ensures
        char_at_offset(b, i) as u32 == b[i],
{
    let rest = b.subrange(i, b.len() as int);
    assert(rest[0] == b[i]);
    let x = b[i];
    assert((x & 0x7f) == x) by (bit_vector)
        requires
            x < 0x80,
    ;
}

/// Blanks are skipped up to the first byte that is none.
proof fn lemma_skip_blanks(b: Seq<u8>, i: int, w: int)
    requires
        valid_utf8(b),
        0 <= i <= w < b.len(),
        forall|k: int| i <= k < w ==> is_blank(#[trigger] b[k]),
        0x20 < b[w] < 0x80,
    ensures
        skip_forward(b, i, true) == w,
    decreases w - i,
{
    if i < w {
        assert(is_blank(b[i]));
    }
    lemma_ascii_char(b, i);
    lemma_after_ascii(b, i);
    if i < w {
        lemma_skip_blanks(b, i + 1, w);
    }
}

/// The first ink of a line is its first byte that is no blank, if that is printable ASCII.
proof fn lemma_first_ink(b: Seq<u8>, w: int)
    requires
        valid_utf8(b),
        0 <= w < b.len(),
        forall|k: int| 0 <= k < w ==> is_blank(#[trigger] b[k]),
        0x20 < b[w] < 0x80,
    ensures
        first_ink(b) == w,
{
    lemma_skip_blanks(b, 0, w);
}

// ---- the marker of a line -------------------------------------------------------------

/// A line with the quote marks of another, then `ws` blanks, then a byte that is no part of
/// either, has that quote prefix and that indent.
proof fn lemma_behind_quote(like: Seq<u8>, line: Seq<u8>, q: int, ws: int)
    requires
        q == quote_len(like),
        q < like.len(),
        0 <= ws,
        q + ws < line.len(),
        forall|i: int| 0 <= i < q ==> #[trigger] like[i] == line[i],
        forall|i: int| q <= i < q + ws ==> is_blank(#[trigger] line[i]),
        !is_blank(line[q + ws]),
        line[q + ws] != GREATER,
        q > 0 && like[q - 1] == GREATER ==> (like[q] == SPACE) == (line[q] == SPACE),
    ensures
        quote_len(line) == q,
        indent_len(tail(line, q)) == ws,
{
    let body = tail(line, q);
    lemma_quote_len(like);
    assert forall|i: int| 0 <= i < ws implies is_blank(#[trigger] body[i]) by {
        assert(body[i] == line[q + i]);
    }
    assert(body[ws] == line[q + ws]);
    lemma_indent_len_is(body, ws);
    lemma_space_run(body);
    let n = space_run(body);
    if n > ws {
        assert(body[ws] == SPACE);
    } else if n < ws {
        assert(is_blank(body[n]));
    }
    assert(quote_mark(body) == 0);
    assert(like.subrange(0, q) =~= line.subrange(0, q));
    lemma_same_quote(like, line, q);
}

proof fn lemma_rewrites()
    ensures
        lit("*") == seq![STAR],
        lit("+") == seq![PLUS],
        lit("- ") == seq![DASH, SPACE],
        lit("- [ ] ") == seq![DASH, SPACE, BRACKET_OPEN, SPACE, BRACKET_CLOSE, SPACE],
        lit("- [x] ") == seq![DASH, SPACE, BRACKET_OPEN, LOWER_X, BRACKET_CLOSE, SPACE],
        lit("-[]").len() > 0 && lit("-[]")[0] == DASH,
        lit("- []").len() > 0 && lit("- []")[0] == DASH,
        lit("*[]").len() > 0 && lit("*[]")[0] == STAR,
        lit("* []").len() > 0 && lit("* []")[0] == STAR,
        lit("-[x]").len() > 0 && lit("-[x]")[0] == DASH,
        lit("- [x]").len() > 0 && lit("- [x]")[0] == DASH,
{
    reveal_strlit("*");
    reveal_strlit("+");
    reveal_strlit("- ");
    reveal_strlit("- [ ] ");
    reveal_strlit("- [x] ");
    reveal_strlit("-[]");
    reveal_strlit("- []");
    reveal_strlit("*[]");
    reveal_strlit("* []");
    reveal_strlit("-[x]");
    reveal_strlit("- [x]");
    is_ascii_chars_encode_utf8("*"@);
    is_ascii_chars_encode_utf8("+"@);
    is_ascii_chars_encode_utf8("- "@);
    is_ascii_chars_encode_utf8("- [ ] "@);
    is_ascii_chars_encode_utf8("- [x] "@);
    is_ascii_chars_encode_utf8("-[]"@);
    is_ascii_chars_encode_utf8("- []"@);
    is_ascii_chars_encode_utf8("*[]"@);
    is_ascii_chars_encode_utf8("* []"@);
    is_ascii_chars_encode_utf8("-[x]"@);
    is_ascii_chars_encode_utf8("- [x]"@);
    assert(lit("*") =~= seq![STAR]);
    assert(lit("+") =~= seq![PLUS]);
    assert(lit("- ") =~= seq![DASH, SPACE]);
    assert(lit("- [ ] ") =~= seq![DASH, SPACE, BRACKET_OPEN, SPACE, BRACKET_CLOSE, SPACE]);
    assert(lit("- [x] ") =~= seq![DASH, SPACE, BRACKET_OPEN, LOWER_X, BRACKET_CLOSE, SPACE]);
}

// ---- the conversions --------------------------------------------------------------------

/// A space typed behind a bullet or a tight task box makes the line a bulleted item, and a box
/// typed open or ticked stays so.
pub proof fn law_space_makes_an_item(s: Session)
    requires
        s.wf(),
        s.caret == s.anchor,
        space_rewrite(s.text.subrange(s.token_start(), s.caret)) is Some,
    ensures
        ({
            let rewrite = space_rewrite(s.text.subrange(s.token_start(), s.caret))->0;
            let t = s.typed(' ');
            let line = line_of(t.text, t.caret);
            match list_marker_of(tail(line, quote_len(line))) {
                Some((_, BlockKind::Bullet { checked, .. })) => {
                    &&& rewrite == lit("- [ ] ") ==> checked == Some(false)
                    &&& rewrite == lit("- [x] ") ==> checked == Some(true)
                },
                _ => false,
            }
        }),
{
    let b = s.text;
    let ls = line_start_of(b, s.caret);
    lemma_line_start(b, s.caret);
    lemma_line_end(b, s.caret);
    let prefix = b.subrange(ls, s.caret);
    let q = quote_len(prefix);
    lemma_quote_len(prefix);
    let ws = indent_len(tail(prefix, q));
    lemma_indent_len(tail(prefix, q));
    let at = s.token_start();
    let r = space_rewrite(b.subrange(at, s.caret))->0;
    assert(tail(prefix, q + ws) =~= b.subrange(at, s.caret));
    lemma_rewritten_item(prefix, b.subrange(s.caret, line_end_of(b, s.caret)));
    lemma_rewrites();
    assert forall|i: int| 0 <= i < r.len() implies #[trigger] r[i] != NEWLINE by {}
    lemma_spliced_line(b, at, s.caret, r);
    assert(b.subrange(ls, at) =~= prefix.subrange(0, q + ws));
    assert(s.typed(' ').text == spliced(b, at, s.caret, r));
    assert(s.typed(' ').caret == at + r.len());
}

/// The line around something put in place of a part of it.
proof fn lemma_spliced_line(b: Seq<u8>, at: int, to: int, with: Seq<u8>)
    requires
        0 <= at <= to <= b.len(),
        line_start_of(b, to) <= at,
        forall|i: int| 0 <= i < with.len() ==> #[trigger] with[i] != NEWLINE,
    ensures
        line_of(spliced(b, at, to, with), at + with.len()) == b.subrange(line_start_of(b, to), at)
            + with + b.subrange(to, line_end_of(b, to)),
{
    let ls = line_start_of(b, to);
    let le = line_end_of(b, to);
    lemma_line_start(b, to);
    lemma_line_end(b, to);
    let c = spliced(b, at, to, with);
    let end = le - (to - at) + with.len();
    assert forall|i: int| ls <= i < end implies #[trigger] c[i] != NEWLINE by {
        if i < at {
            assert(c[i] == b[i]);
        } else if i < at + with.len() {
            assert(c[i] == with[i - at]);
        } else {
            assert(c[i] == b[i - with.len() + (to - at)]);
        }
    }
    if ls > 0 {
        assert(c[ls - 1] == b[ls - 1]);
    }
    if le < b.len() {
        assert(c[end] == b[le]);
    }
    lemma_line_is(c, ls, at + with.len(), end);
    assert(c.subrange(ls, end) =~= b.subrange(ls, at) + with + b.subrange(to, le));
}

/// A line whose marker, typed so far, has been rewritten is a bulleted item.
proof fn lemma_rewritten_item(prefix: Seq<u8>, rest: Seq<u8>)
    requires
        ({
            let q = quote_len(prefix);
            space_rewrite(tail(prefix, q + indent_len(tail(prefix, q)))) is Some
        }),
    ensures
        ({
            let q = quote_len(prefix);
            let at = q + indent_len(tail(prefix, q));
            let rewrite = space_rewrite(tail(prefix, at))->0;
            let line = prefix.subrange(0, at) + rewrite + rest;
            match list_marker_of(tail(line, quote_len(line))) {
                Some((_, BlockKind::Bullet { checked, .. })) => {
                    &&& rewrite == lit("- [ ] ") ==> checked == Some(false)
                    &&& rewrite == lit("- [x] ") ==> checked == Some(true)
                },
                _ => false,
            }
        }),
{
    let q = quote_len(prefix);
    lemma_quote_len(prefix);
    let ws = indent_len(tail(prefix, q));
    lemma_indent_len(tail(prefix, q));
    let token = tail(prefix, q + ws);
    let r = space_rewrite(token)->0;
    lemma_rewrites();
    assert(token.len() > 0 && (token[0] == STAR || token[0] == PLUS || token[0] == DASH));
    assert(prefix[q + ws] == token[0]);
    let line = prefix.subrange(0, q + ws) + r + rest;
    assert forall|i: int| q <= i < q + ws implies is_blank(#[trigger] line[i]) by {
        assert(tail(prefix, q)[i - q] == prefix[i]);
    }
    assert(line[q + ws] == r[0]);
    lemma_behind_quote(prefix, line, q, ws);
    let body = tail(line, q);
    assert forall|i: int| 0 <= i < r.len() implies #[trigger] body[ws + i] == r[i] by {
        assert(line[q + ws + i] == r[i]);
    }
    assert(body[ws + 0] == DASH);
    assert(body[ws + 1] == SPACE);
    if r.len() == 6 {
        assert(body[ws + 2] == r[2]);
        assert(body[ws + 3] == r[3]);
        assert(body[ws + 4] == r[4]);
        assert(body[ws + 5] == r[5]);
    }
}

// ---- Enter ------------------------------------------------------------------------------

/// The session that Enter works on: the selection is gone, and the document before it can be
/// brought back.
pub open spec fn before_enter(s: Session) -> Session {
    s.recorded().without_selection()
}

/// The line that Enter is pressed on.
pub open spec fn entered_line(s: Session) -> Seq<u8> {
    line_of(before_enter(s).text, before_enter(s).caret)
}

/// The list item that Enter is pressed on: the length of its marker and what it is.
pub open spec fn entered_marker(s: Session) -> Option<(int, BlockKind)> {
    let line = entered_line(s);
    list_marker_of(tail(line, quote_len(line)))
}

/// The list item that Enter is pressed on holds nothing, and the caret is past its marker.
pub open spec fn on_empty_item(s: Session) -> bool {
    let u = before_enter(s);
    let line = entered_line(s);
    let end = quote_len(line) + (entered_marker(s)->0).0;
    all_white(tail(line, end)) && u.caret >= line_start_of(u.text, u.caret) + end
}

/// An indented item whose indent starts right behind a `>`, with no space between them. A space
/// put there would belong to the quote mark.
pub open spec fn clings_to_quote(line: Seq<u8>) -> bool {
    let q = quote_len(line);
    q > 0 && line[q - 1] == GREATER && is_blank(line[q])
}

/// The number of a numbered item.
pub open spec fn number_of(kind: BlockKind) -> nat {
    match kind {
        BlockKind::Numbered { number, .. } => number as nat,
        _ => 0,
    }
}

/// Both are bullets, or both are numbers.
pub open spec fn same_sort(a: BlockKind, b: BlockKind) -> bool {
    (a is Bullet && b is Bullet) || (a is Numbered && b is Numbered)
}

/// What Enter works on is a session, and its line lies inside its text.
proof fn lemma_before_enter(s: Session)
    requires
        s.wf(),
    ensures
        before_enter(s).wf(),
        before_enter(s).text.len() <= s.text.len(),
        ({
            let u = before_enter(s);
            let ls = line_start_of(u.text, u.caret);
            let le = line_end_of(u.text, u.caret);
            let line = entered_line(s);
            &&& 0 <= ls <= u.caret <= le <= u.text.len()
            &&& line == u.text.subrange(ls, le)
            &&& valid_utf8(line)
            &&& forall|i: int| 0 <= i < line.len() ==> #[trigger] line[i] != NEWLINE
            &&& ls == 0 || u.text[ls - 1] == NEWLINE
            &&& le == u.text.len() || u.text[le] == NEWLINE
            &&& 0 <= quote_len(line) <= line.len()
        }),
{
    lemma_recorded(s);
    lemma_without_selection(s.recorded());
    let u = before_enter(s);
    lemma_line(u.text, u.caret);
    lemma_line_start(u.text, u.caret);
    lemma_line_end(u.text, u.caret);
    lemma_quote_len(entered_line(s));
    let ls = line_start_of(u.text, u.caret);
    let line = entered_line(s);
    assert forall|i: int| 0 <= i < line.len() implies #[trigger] line[i] != NEWLINE by {
        assert(line[i] == u.text[ls + i]);
    }
}

/// A list item or a quote is no fence.
proof fn lemma_no_fence(line: Seq<u8>)
    requires
        valid_utf8(line),
        list_marker_of(tail(line, quote_len(line))) is Some || quote_depth(line) > 0,
    ensures
        !fence_line(line),
{
    lemma_quote_len(line);
    lemma_space_run(line);
    if quote_depth(line) > 0 {
        let ws = space_run(line);
        assert forall|k: int| 0 <= k < ws implies is_blank(#[trigger] line[k]) by {
            assert(line[k] == SPACE);
        }
        lemma_first_ink(line, ws);
    } else {
        assert(tail(line, 0) =~= line);
        let ws = indent_len(line);
        lemma_indent_len(line);
        lemma_digit_run(tail(line, ws));
        assert(tail(line, ws)[0] == line[ws]);
        lemma_first_ink(line, ws);
    }
}

/// The next item: the marker that continues a list, put behind the quote marks of its line, is
/// the marker of a list item again. Whatever follows it, the item is of the same sort and at
/// the same indent, its number is the next one, and its box is open if there is one.
proof fn lemma_next_item(line: Seq<u8>, rest: Seq<u8>)
    requires
        line.len() <= usize::MAX,
        ({
            let q = quote_len(line);
            &&& list_marker_of(tail(line, q)) is Some
            &&& number_of((list_marker_of(tail(line, q))->0).1) < last_ordinal()
        }),
        !clings_to_quote(line),
    ensures
        ({
            let q = quote_len(line);
            let kind = (list_marker_of(tail(line, q))->0).1;
            let next = line.subrange(0, q) + continuation(tail(line, q), kind) + rest;
            &&& quote_len(next) == q
            &&& list_marker_of(tail(next, q)) matches Some((_, k)) && {
                &&& same_sort(kind, k)
                &&& k.indent_spec() == kind.indent_spec()
                &&& kind is Numbered ==> number_of(k) == number_of(kind) + 1
                &&& kind.checked_spec() is Some ==> k.checked_spec() == Some(false)
            }
        }),
{
    let q = quote_len(line);
    lemma_quote_len(line);
    let body = tail(line, q);
    let kind = (list_marker_of(body)->0).1;
    lemma_list_marker(body);
    lemma_indent_len(body);
    let ws = indent_len(body);
    lemma_digit_run(tail(body, ws));
    assert(tail(body, ws)[0] == body[ws]);
    lemma_ends();
    let cont = continuation(body, kind);
    let next = line.subrange(0, q) + cont + rest;
    let n = (number_of(kind) + 1) as nat;
    law_decimal_reads_back(n);
    lemma_decimal_len(n);
    let d = decimal(n);
    // What stands at the indent, and how long it is.
    let m = if kind is Bullet {
        1
    } else {
        d.len() as int
    };
    assert forall|i: int| q <= i < q + ws implies is_blank(#[trigger] next[i]) by {
        assert(next[i] == cont[i - q]);
        assert(cont[i - q] == SPACE);
    }
    assert(next[q + ws] == cont[ws]);
    if kind is Numbered {
        assert forall|i: int| 0 <= i < m implies is_digit(#[trigger] next[q + ws + i]) by {
            assert(next[q + ws + i] == cont[ws + i]);
            assert(cont[ws + i] == d[i]);
        }
        assert(is_digit(next[q + ws + 0]));
    } else {
        assert(cont[ws] == body[ws]);
    }
    if ws > 0 {
        assert(is_blank(body[0]));
        assert(body[0] == line[q]);
    } else {
        assert(body[0] == line[q]);
    }
    lemma_behind_quote(line, next, q, ws);
    let after = tail(next, q);
    assert forall|i: int| 0 <= i < cont.len() implies #[trigger] after[i] == cont[i] by {
        assert(next[q + i] == cont[i]);
    }
    if kind is Bullet {
        assert(after[ws] == body[ws]);
        assert(after[ws + 1] == SPACE);
        assert(bullet_at(after, ws));
        if kind.checked_spec() is Some {
            assert(after[ws + 2] == BRACKET_OPEN);
            assert(after[ws + 3] == SPACE);
            assert(after[ws + 4] == BRACKET_CLOSE);
            assert(after[ws + 5] == SPACE);
        }
    } else {
        let run = tail(after, ws);
        assert forall|i: int| 0 <= i < m implies is_digit(#[trigger] run[i]) by {
            assert(run[i] == next[q + ws + i]);
        }
        assert(after[ws + m] == cont[ws + m]);
        assert(after[ws + m + 1] == cont[ws + m + 1]);
        assert(run[m] == after[ws + m]);
        lemma_digit_run_is(run, m);
        assert(after.subrange(ws, ws + m) =~= d) by {
            assert forall|i: int| 0 <= i < m implies after.subrange(ws, ws + m)[i] == d[i] by {
                assert(after[ws + i] == cont[ws + i]);
            }
        }
        assert(is_digit(run[0]));
        assert(!bullet_at(after, ws));
        assert(ordinal_at(after, ws));
        if kind.checked_spec() is Some {
            assert(after[ws + m + 2] == cont[ws + m + 2]);
            assert(after[ws + m + 3] == cont[ws + m + 3]);
            assert(after[ws + m + 4] == cont[ws + m + 4]);
            assert(after[ws + m + 5] == cont[ws + m + 5]);
        }
    }
}

proof fn lemma_ends()
    ensures
        lit(" ") == seq![SPACE],
        lit(" [ ] ") == seq![SPACE, BRACKET_OPEN, SPACE, BRACKET_CLOSE, SPACE],
{
    reveal_strlit(" ");
    reveal_strlit(" [ ] ");
    is_ascii_chars_encode_utf8(" "@);
    is_ascii_chars_encode_utf8(" [ ] "@);
    assert(lit(" ") =~= seq![SPACE]);
    assert(lit(" [ ] ") =~= seq![SPACE, BRACKET_OPEN, SPACE, BRACKET_CLOSE, SPACE]);
}

/// No line break stands in the marker that continues a list.
proof fn lemma_continuation_line(line: Seq<u8>)
    requires
        forall|i: int| 0 <= i < line.len() ==> #[trigger] line[i] != NEWLINE,
        line.len() <= usize::MAX,
        list_marker_of(tail(line, quote_len(line))) is Some,
    ensures
        ({
            let q = quote_len(line);
            let prefix = line.subrange(0, q) + continuation(
                tail(line, q),
                (list_marker_of(tail(line, q))->0).1,
            );
            forall|i: int| 0 <= i < prefix.len() ==> #[trigger] prefix[i] != NEWLINE
        }),
{
    let q = quote_len(line);
    lemma_quote_len(line);
    let body = tail(line, q);
    let kind = (list_marker_of(body)->0).1;
    lemma_list_marker(body);
    lemma_indent_len(body);
    lemma_ends();
    let ws = indent_len(body);
    let n = (number_of(kind) + 1) as nat;
    law_decimal_reads_back(n);
    let d = decimal(n);
    let cont = continuation(body, kind);
    let prefix = line.subrange(0, q) + cont;
    assert forall|i: int| 0 <= i < cont.len() implies #[trigger] cont[i] != NEWLINE by {
        if kind is Bullet {
            assert(body[ws] == line[q + ws]);
        } else if ws <= i < ws + d.len() {
            assert(cont[i] == d[i - ws]);
            assert(is_digit(d[i - ws]));
        }
    }
    assert forall|i: int| 0 <= i < prefix.len() implies #[trigger] prefix[i] != NEWLINE by {
        if i < q {
            assert(prefix[i] == line[i]);
        } else {
            assert(prefix[i] == cont[i - q]);
        }
    }
}

/// Enter continues a list: the line that the caret comes to is the next item, behind the same
/// quote marks and at the same indent, with the next number or another bullet, and with an open
/// box if the item has a box. Then the list is renumbered.
///
/// An item right behind a `>` with a tab between them is another matter: the space that its
/// indent becomes belongs to the quote mark.
pub proof fn law_enter_continues_the_list(s: Session)
    requires
        s.wf(),
        s.text.len() <= usize::MAX,
        !in_code(before_enter(s).text, before_enter(s).caret),
        entered_marker(s) is Some,
        !on_empty_item(s),
        number_of((entered_marker(s)->0).1) < last_ordinal(),
        !clings_to_quote(entered_line(s)),
    ensures
        ({
            let u = before_enter(s);
            let line = entered_line(s);
            let q = quote_len(line);
            let kind = (entered_marker(s)->0).1;
            let t = u.broken(line.subrange(0, q) + continuation(tail(line, q), kind));
            let next = line_of(t.text, t.caret);
            &&& s.entered() == t.renumbered()
            &&& quote_len(next) == q
            &&& list_marker_of(tail(next, q)) matches Some((_, k)) && {
                &&& same_sort(kind, k)
                &&& k.indent_spec() == kind.indent_spec()
                &&& kind is Numbered ==> number_of(k) == number_of(kind) + 1
                &&& kind.checked_spec() is Some ==> k.checked_spec() == Some(false)
            }
        }),
{
    lemma_before_enter(s);
    let u = before_enter(s);
    let line = entered_line(s);
    let q = quote_len(line);
    let kind = (entered_marker(s)->0).1;
    lemma_no_fence(line);
    let prefix = line.subrange(0, q) + continuation(tail(line, q), kind);
    lemma_continuation_line(line);
    lemma_broken_line(u.text, u.caret, prefix);
    lemma_next_item(line, u.text.subrange(u.caret, line_end_of(u.text, u.caret)));
}

/// Nothing but spaces and quote marks is no list item.
proof fn lemma_bare_quote(line: Seq<u8>)
    requires
        forall|i: int| 0 <= i < line.len() ==> #[trigger] line[i] == SPACE || line[i] == GREATER,
    ensures
        list_marker_of(tail(line, quote_len(line))) is None,
{
    let q = quote_len(line);
    lemma_quote_len(line);
    let body = tail(line, q);
    let ws = indent_len(body);
    lemma_indent_len(body);
    if ws < body.len() {
        assert(body[ws] == line[q + ws]);
        assert(tail(body, ws)[0] == body[ws]);
    }
    lemma_digit_run(tail(body, ws));
    if digit_run(tail(body, ws)) > 0 {
        assert(is_digit(tail(body, ws)[0]));
    }
}

/// Enter on an empty item that is not nested ends the list: of the line only its quote marks
/// are left.
pub proof fn law_enter_ends_the_list(s: Session)
    requires
        s.wf(),
        !in_code(before_enter(s).text, before_enter(s).caret),
        entered_marker(s) is Some,
        on_empty_item(s),
        (entered_marker(s)->0).1.indent_spec() < 2,
    ensures
        ({
            let t = s.entered();
            let line = line_of(t.text, t.caret);
            &&& line == entered_line(s).subrange(0, quote_len(entered_line(s)))
            &&& list_marker_of(tail(line, quote_len(line))) is None
        }),
{
    lemma_before_enter(s);
    let u = before_enter(s);
    let line = entered_line(s);
    let q = quote_len(line);
    lemma_quote_len(line);
    lemma_no_fence(line);
    let ls = line_start_of(u.text, u.caret);
    let le = line_end_of(u.text, u.caret);
    let left = line.subrange(0, q);
    let c = spliced(u.text, ls, le, left);
    lemma_rebuilt_line(u.text, ls, le, left, q);
    assert(s.entered().text == c);
    assert(s.entered().caret == ls + q);
    assert forall|i: int| 0 <= i < left.len() implies #[trigger] left[i] == SPACE || left[i]
        == GREATER by {
        assert(left[i] == line[i]);
    }
    lemma_bare_quote(left);
}

/// A line replaced by another, as it is found from any place inside it.
proof fn lemma_rebuilt_line(b: Seq<u8>, ls: int, le: int, with: Seq<u8>, i: int)
    requires
        0 <= ls <= le <= b.len(),
        ls == 0 || b[ls - 1] == NEWLINE,
        le == b.len() || b[le] == NEWLINE,
        0 <= i <= with.len(),
        forall|k: int| 0 <= k < with.len() ==> #[trigger] with[k] != NEWLINE,
    ensures
        line_of(spliced(b, ls, le, with), ls + i) == with,
{
    let c = spliced(b, ls, le, with);
    let e = ls + with.len();
    assert forall|k: int| ls <= k < e implies #[trigger] c[k] != NEWLINE by {
        assert(c[k] == with[k - ls]);
    }
    if ls > 0 {
        assert(c[ls - 1] == b[ls - 1]);
    }
    if le < b.len() {
        assert(c[e] == b[le]);
    }
    lemma_line_is(c, ls, ls + i, e);
    assert(c.subrange(ls, e) =~= with);
}

/// A space behind a quote mark belongs to it.
proof fn lemma_quote_takes_its_space(b: Seq<u8>)
    ensures
        ({
            let q = quote_len(b);
            0 < q < b.len() && b[q - 1] == GREATER ==> b[q] != SPACE
        }),
    decreases b.len(),
{
    let k = quote_mark(b);
    lemma_space_run(b);
    lemma_quote_len(b);
    if 0 < k <= b.len() {
        let rest = tail(b, k);
        let q = quote_len(b);
        lemma_quote_len(rest);
        lemma_quote_takes_its_space(rest);
        if q > k && q < b.len() {
            assert(rest[q - k - 1] == b[q - 1]);
            assert(rest[q - k] == b[q]);
        }
    }
}

/// A list item with another indent is a list item behind the same quote marks, with that indent
/// and nothing else changed.
proof fn lemma_reindented(line: Seq<u8>, n: nat)
    requires
        line.len() <= usize::MAX,
        n <= usize::MAX,
        list_marker_of(tail(line, quote_len(line))) is Some,
        quote_len(line) > 0 && line[quote_len(line) - 1] == GREATER ==> n == 0,
    ensures
        ({
            let q = quote_len(line);
            let kind = (list_marker_of(tail(line, q))->0).1;
            let next = reindented(line, n);
            &&& next.len() == line.len() + n - kind.indent_spec()
            &&& kind.indent_spec() == indent_len(tail(line, q))
            &&& quote_len(next) == q
            &&& list_marker_of(tail(next, q)) matches Some((_, k)) && {
                &&& same_sort(kind, k)
                &&& k.indent_spec() == n
                &&& number_of(k) == number_of(kind)
                &&& k.checked_spec() == kind.checked_spec()
            }
        }),
{
    let q = quote_len(line);
    lemma_quote_len(line);
    lemma_quote_takes_its_space(line);
    let body = tail(line, q);
    let kind = (list_marker_of(body)->0).1;
    lemma_list_marker(body);
    lemma_indent_len(body);
    let ws = indent_len(body);
    let run = tail(body, ws);
    lemma_digit_run(run);
    assert(run[0] == body[ws]);
    let next = reindented(line, n);
    let m = n as int;
    assert forall|i: int| q <= i < q + m implies is_blank(#[trigger] next[i]) by {
        assert(next[i] == SPACE);
    }
    assert(next[q + m] == line[q + ws]);
    assert(line[q + ws] == body[ws]);
    lemma_behind_quote(line, next, q, m);
    let after = tail(next, q);
    assert(tail(after, m) =~= run);
    lemma_same_marker(body, after);
}

/// Lines that agree behind their indents have the same marker, up to the indent.
proof fn lemma_same_marker(a: Seq<u8>, b: Seq<u8>)
    requires
        a.len() <= usize::MAX,
        indent_len(b) <= usize::MAX,
        list_marker_of(a) is Some,
        tail(a, indent_len(a)) == tail(b, indent_len(b)),
    ensures
        list_marker_of(b) matches Some((_, k)) && {
            let kind = (list_marker_of(a)->0).1;
            &&& same_sort(kind, k)
            &&& k.indent_spec() == indent_len(b)
            &&& number_of(k) == number_of(kind)
            &&& k.checked_spec() == kind.checked_spec()
        },
{
    let i = indent_len(a);
    let j = indent_len(b);
    lemma_indent_len(a);
    lemma_indent_len(b);
    lemma_list_marker(a);
    let run = tail(a, i);
    let d = digit_run(run);
    lemma_digit_run(run);
    assert(b.len() - j == a.len() - i);
    assert forall|k: int| i <= k < a.len() implies #[trigger] a[k] == b[k - i + j] by {
        assert(run[k - i] == a[k]);
        assert(tail(b, j)[k - i] == b[k - i + j]);
    }
    assert(a[i] == b[j]);
    assert(a[i + 1] == b[j + 1]);
    assert(bullet_at(a, i) == bullet_at(b, j));
    if bullet_at(a, i) {
        lemma_same_box(a, i + 2, b, j + 2);
    } else {
        assert(a[i + d] == b[j + d]);
        assert(a[i + d + 1] == b[j + d + 1]);
        assert(ordinal_at(b, j));
        assert(a.subrange(i, i + d) =~= run.subrange(0, d));
        assert(b.subrange(j, j + d) =~= run.subrange(0, d));
        lemma_same_box(a, i + d + 2, b, j + d + 2);
    }
}

/// What follows being the same, so is the task box.
proof fn lemma_same_box(a: Seq<u8>, i: int, b: Seq<u8>, j: int)
    requires
        0 <= i <= a.len(),
        0 <= j <= b.len(),
        a.len() - i == b.len() - j,
        forall|k: int| i <= k < a.len() ==> #[trigger] a[k] == b[k - i + j],
    ensures
        box_at(a, i) == box_at(b, j),
{
}

/// No line break stands in a line with another indent.
proof fn lemma_reindented_line(line: Seq<u8>, n: nat)
    requires
        forall|i: int| 0 <= i < line.len() ==> #[trigger] line[i] != NEWLINE,
    ensures
        ({
            let next = reindented(line, n);
            forall|i: int| 0 <= i < next.len() ==> #[trigger] next[i] != NEWLINE
        }),
{
    let q = quote_len(line);
    lemma_quote_len(line);
    let ws = indent_len(tail(line, q));
    lemma_indent_len(tail(line, q));
    let next = reindented(line, n);
    assert forall|i: int| 0 <= i < next.len() implies #[trigger] next[i] != NEWLINE by {
        if i < q {
            assert(next[i] == line[i]);
        } else if i >= q + n {
            assert(next[i] == line[i - n + ws]);
        }
    }
}

/// Enter on an empty item that is nested moves it out by two, behind the same quote marks and
/// with nothing else changed. Then the list is renumbered.
///
/// Right behind a `>`, with a tab between them, any space left of the indent would belong to
/// the quote mark.
pub proof fn law_enter_moves_a_nested_item_out(s: Session)
    requires
        s.wf(),
        s.text.len() <= usize::MAX,
        !in_code(before_enter(s).text, before_enter(s).caret),
        entered_marker(s) is Some,
        on_empty_item(s),
        (entered_marker(s)->0).1.indent_spec() >= 2,
        clings_to_quote(entered_line(s)) ==> (entered_marker(s)->0).1.indent_spec() == 2,
    ensures
        ({
            let u = before_enter(s);
            let line = entered_line(s);
            let kind = (entered_marker(s)->0).1;
            let rebuilt = reindented(line, (kind.indent_spec() - 2) as nat);
            let ls = line_start_of(u.text, u.caret);
            let t = u.put(ls, line_end_of(u.text, u.caret), rebuilt, ls + rebuilt.len());
            let next = line_of(t.text, t.caret);
            &&& s.entered() == t.renumbered()
            &&& quote_len(next) == quote_len(line)
            &&& list_marker_of(tail(next, quote_len(next))) matches Some((_, k)) && {
                &&& same_sort(kind, k)
                &&& k.indent_spec() == kind.indent_spec() - 2
                &&& number_of(k) == number_of(kind)
                &&& k.checked_spec() == kind.checked_spec()
            }
        }),
{
    lemma_before_enter(s);
    let u = before_enter(s);
    let line = entered_line(s);
    let q = quote_len(line);
    let kind = (entered_marker(s)->0).1;
    lemma_no_fence(line);
    let n = (kind.indent_spec() - 2) as nat;
    lemma_quote_len(line);
    lemma_list_marker(tail(line, q));
    lemma_indent_len(tail(line, q));
    assert(is_blank(tail(line, q)[0]));
    assert(tail(line, q)[0] == line[q]);
    lemma_reindented(line, n);
    lemma_reindented_line(line, n);
    let rebuilt = reindented(line, n);
    let ls = line_start_of(u.text, u.caret);
    let le = line_end_of(u.text, u.caret);
    lemma_rebuilt_line(u.text, ls, le, rebuilt, rebuilt.len() as int);
}

/// Enter continues a quote: the line that the caret comes to starts with the same quote marks,
/// and goes on with what stood behind the caret.
pub proof fn law_enter_continues_a_quote(s: Session)
    requires
        s.wf(),
        !in_code(before_enter(s).text, before_enter(s).caret),
        quote_depth(entered_line(s)) > 0,
        entered_marker(s) is None,
        !all_white(tail(entered_line(s), quote_len(entered_line(s)))),
    ensures
        ({
            let u = before_enter(s);
            let line = entered_line(s);
            let t = s.entered();
            line_of(t.text, t.caret) == line.subrange(0, quote_len(line)) + u.text.subrange(
                u.caret,
                line_end_of(u.text, u.caret),
            )
        }),
{
    lemma_before_enter(s);
    let u = before_enter(s);
    let line = entered_line(s);
    lemma_no_fence(line);
    let prefix = line.subrange(0, quote_len(line));
    assert forall|i: int| 0 <= i < prefix.len() implies #[trigger] prefix[i] != NEWLINE by {
        assert(prefix[i] == line[i]);
    }
    lemma_broken_line(u.text, u.caret, prefix);
}

/// Enter on a line of nothing but quote marks ends the quote: the line is empty afterwards.
pub proof fn law_enter_ends_a_quote(s: Session)
    requires
        s.wf(),
        !in_code(before_enter(s).text, before_enter(s).caret),
        quote_depth(entered_line(s)) > 0,
        entered_marker(s) is None,
        all_white(tail(entered_line(s), quote_len(entered_line(s)))),
    ensures
        line_of(s.entered().text, s.entered().caret) == Seq::<u8>::empty(),
{
    lemma_before_enter(s);
    let u = before_enter(s);
    lemma_no_fence(entered_line(s));
    let ls = line_start_of(u.text, u.caret);
    let le = line_end_of(u.text, u.caret);
    lemma_rebuilt_line(u.text, ls, le, Seq::empty(), 0);
}

/// Enter behind an opening fence that nothing closes closes it: the caret comes to an empty
/// line, the line below that is a fence, and the one above is the opening fence as it was.
pub proof fn law_enter_closes_a_fence(s: Session)
    requires
        s.wf(),
        before_enter(s).on_open_fence(),
    ensures
        ({
            let u = before_enter(s);
            let t = s.entered();
            &&& line_of(t.text, u.caret) == entered_line(s)
            &&& t.caret == u.caret + 1
            &&& line_of(t.text, t.caret) == Seq::<u8>::empty()
            &&& fence_line(line_of(t.text, t.caret + 1))
        }),
{
    lemma_before_enter(s);
    let u = before_enter(s);
    let line = entered_line(s);
    let i = first_ink(line);
    lemma_start_is_boundary(line);
    lemma_skip_forward(line, 0, true);
    let fence = line.subrange(i, i + 3);
    lemma_bare_fence(fence);
    lemma_fence_lines(u.text, u.caret, fence);
    assert(!in_code(u.text, u.caret));
    assert(s.entered() == u.put(u.caret, u.caret, lit("\n\n") + fence, u.caret + 1));
}

/// The lines around two line breaks and a line put at the end of another.
proof fn lemma_fence_lines(b: Seq<u8>, at: int, fence: Seq<u8>)
    requires
        0 <= at <= b.len(),
        at == line_end_of(b, at),
        forall|k: int| 0 <= k < fence.len() ==> #[trigger] fence[k] != NEWLINE,
    ensures
        ({
            let c = spliced(b, at, at, lit("\n\n") + fence);
            &&& line_of(c, at) == line_of(b, at)
            &&& line_of(c, at + 1) == Seq::<u8>::empty()
            &&& line_of(c, at + 2) == fence
        }),
{
    reveal_strlit("\n\n");
    is_ascii_chars_encode_utf8("\n\n"@);
    let with = lit("\n\n") + fence;
    let c = spliced(b, at, at, with);
    let ls = line_start_of(b, at);
    lemma_line_start(b, at);
    lemma_line_end(b, at);
    assert(with[0] == NEWLINE && with[1] == NEWLINE);
    assert(c[at] == with[0]);
    assert(c[at + 1] == with[1]);
    assert forall|k: int| ls <= k < at implies #[trigger] c[k] != NEWLINE by {
        assert(c[k] == b[k]);
    }
    if ls > 0 {
        assert(c[ls - 1] == b[ls - 1]);
    }
    lemma_line_is(c, ls, at, at);
    assert(c.subrange(ls, at) =~= b.subrange(ls, at));
    lemma_line_is(c, at + 1, at + 1, at + 1);
    assert(c.subrange(at + 1, at + 1) =~= Seq::<u8>::empty());
    let end = at + 2 + fence.len();
    assert forall|k: int| at + 2 <= k < end implies #[trigger] c[k] != NEWLINE by {
        assert(c[k] == fence[k - at - 2]);
    }
    if at < b.len() {
        assert(c[end] == b[at]);
    }
    lemma_line_is(c, at + 2, at + 2, end);
    assert(c.subrange(at + 2, end) =~= fence);
}

/// How many of the lines are fences.
pub open spec fn fence_count(lines: Seq<Seq<u8>>) -> nat
    decreases lines.len(),
{
    if lines.len() == 0 {
        0
    } else {
        fence_count(lines.drop_last()) + if fence_line(lines.last()) {
            1nat
        } else {
            0
        }
    }
}

proof fn lemma_fence_count_adds(a: Seq<Seq<u8>>, b: Seq<Seq<u8>>)
    ensures
        fence_count(a + b) == fence_count(a) + fence_count(b),
    decreases b.len(),
{
    if b.len() == 0 {
        assert(a + b =~= a);
    } else {
        assert((a + b).drop_last() =~= a + b.drop_last());
        lemma_fence_count_adds(a, b.drop_last());
    }
}

/// Line breaks put at the end of a line add empty lines, and so no fence.
proof fn lemma_breaks_add_no_fence(b: Seq<u8>, at: int, with: Seq<u8>)
    requires
        0 <= at <= b.len(),
        at == b.len() || b[at] == NEWLINE,
        forall|k: int| 0 <= k < with.len() ==> #[trigger] with[k] == NEWLINE,
    ensures
        fence_count(lines_of(spliced(b, at, at, with))) == fence_count(lines_of(b)),
    decreases with.len(),
{
    let head = b.subrange(0, at);
    let c = spliced(b, at, at, with);
    if with.len() == 0 {
        assert(c =~= b);
    } else {
        let less = with.drop_last();
        lemma_breaks_add_no_fence(b, at, less);
        let d = spliced(b, at, at, less);
        let x = head + less;
        let rest = b.subrange(at, b.len() as int);
        assert(d =~= x + rest);
        assert(c =~= x.push(NEWLINE) + rest);
        lemma_lines_grow(x);
        let empty = Seq::<u8>::empty();
        lemma_no_ink(empty);
        if at == b.len() {
            assert(x + rest =~= x);
            assert(x.push(NEWLINE) + rest =~= x.push(NEWLINE));
            lemma_fence_count_adds(lines_of(x), seq![empty]);
            lemma_one_line(empty);
            assert(lines_of(x.push(NEWLINE)) =~= lines_of(x) + seq![empty]);
        } else {
            let y = rest.drop_first();
            assert(rest =~= seq![NEWLINE] + y);
            assert(x + rest =~= x.push(NEWLINE) + y);
            assert(x.push(NEWLINE) + rest =~= x.push(NEWLINE).push(NEWLINE) + y);
            law_lines_concatenate(x, y);
            law_lines_concatenate(x.push(NEWLINE), y);
            lemma_fence_count_adds(lines_of(x), lines_of(y));
            lemma_fence_count_adds(lines_of(x), seq![empty]);
            lemma_fence_count_adds(lines_of(x) + seq![empty], lines_of(y));
            lemma_one_line(empty);
            assert(lines_of(x.push(NEWLINE)) =~= lines_of(x) + seq![empty]);
        }
    }
}

proof fn lemma_one_line(line: Seq<u8>)
    ensures
        fence_count(seq![line]) == if fence_line(line) {
            1nat
        } else {
            0
        },
{
    assert(seq![line].drop_last() =~= Seq::<Seq<u8>>::empty());
    assert(fence_count(Seq::<Seq<u8>>::empty()) == 0);
}

/// An empty line is no fence.
proof fn lemma_no_ink(line: Seq<u8>)
    requires
        line.len() == 0,
    ensures
        !fence_line(line),
{
}

proof fn lemma_lines_grow(b: Seq<u8>)
    ensures
        lines_of(b.push(NEWLINE)) == lines_of(b).push(Seq::<u8>::empty()),
{
    assert(b.push(NEWLINE).drop_last() =~= b);
}

/// Enter at the end of a fence that closes a code block is Enter at the end of a paragraph: it
/// breaks the line, and adds no fence.
pub proof fn law_enter_at_a_closing_fence_adds_none(s: Session)
    requires
        s.wf(),
        ({
            let u = before_enter(s);
            &&& fence_line(entered_line(s))
            &&& u.caret == line_end_of(u.text, u.caret)
            &&& inside_fence(lines_of(u.text), line_index_of(u.text, u.caret) as int)
        }),
    ensures
        s.entered() == before_enter(s).broken(
            if before_enter(s).blank_follows() {
                Seq::empty()
            } else {
                seq![NEWLINE]
            },
        ),
        fence_count(lines_of(s.entered().text)) == fence_count(lines_of(before_enter(s).text)),
{
    lemma_before_enter(s);
    let u = before_enter(s);
    let line = entered_line(s);
    if entered_marker(s) is Some || quote_depth(line) > 0 {
        lemma_no_fence(line);
    }
    let more = if u.blank_follows() {
        Seq::<u8>::empty()
    } else {
        seq![NEWLINE]
    };
    lemma_line_end(u.text, u.caret);
    lemma_breaks_add_no_fence(u.text, u.caret, seq![NEWLINE] + more);
}

/// Three backticks or tildes are a fence.
proof fn lemma_bare_fence(f: Seq<u8>)
    requires
        f.len() == 3,
        f[0] == BACKTICK || f[0] == TILDE,
        f[1] == f[0],
        f[2] == f[0],
    ensures
        fence_line(f),
{
    let chars = Seq::new(3, |i: int| f[0] as char);
    is_ascii_chars_encode_utf8(chars);
    lemma_str_valid(chars);
    assert(encode_utf8(chars) =~= f);
    lemma_first_ink(f, 0);
}

/// Enter parts paragraphs: unless the caret is on a blank line or one follows already, an empty
/// line comes to stand above the caret.
pub proof fn law_enter_parts_paragraphs(s: Session)
    requires
        s.wf(),
        !in_code(before_enter(s).text, before_enter(s).caret),
        !fence_line(entered_line(s)),
        quote_depth(entered_line(s)) == 0,
        entered_marker(s) is None,
        !all_white(entered_line(s)),
        !before_enter(s).blank_follows(),
    ensures
        ({
            let u = before_enter(s);
            let t = s.entered();
            &&& line_of(t.text, t.caret) == u.text.subrange(u.caret, line_end_of(u.text, u.caret))
            &&& line_of(t.text, t.caret - 1) == Seq::<u8>::empty()
        }),
{
    lemma_before_enter(s);
    let u = before_enter(s);
    let at = u.caret;
    let le = line_end_of(u.text, at);
    let t = s.entered();
    let c = t.text;
    let with = seq![NEWLINE] + seq![NEWLINE];
    assert(c == spliced(u.text, at, at, with));
    assert(c[at] == with[0]);
    assert(c[at + 1] == with[1]);
    lemma_line_end(u.text, at);
    assert forall|k: int| at + 2 <= k < le + 2 implies #[trigger] c[k] != NEWLINE by {
        assert(c[k] == u.text[k - 2]);
    }
    if le < u.text.len() {
        assert(c[le + 2] == u.text[le]);
    }
    lemma_line_is(c, at + 2, at + 2, le + 2);
    assert(c.subrange(at + 2, le + 2) =~= u.text.subrange(at, le));
    lemma_line_is(c, at + 1, at + 1, at + 1);
    assert(c.subrange(at + 1, at + 1) =~= Seq::<u8>::empty());
}

// ---- Tab and Backspace ------------------------------------------------------------------

/// A list item that has been given another indent, as it is found from any place inside it.
proof fn lemma_moved_item(b: Seq<u8>, pos: int, n: nat, i: int)
    requires
        0 <= pos <= b.len(),
        n <= usize::MAX,
        ({
            let line = line_of(b, pos);
            let q = quote_len(line);
            &&& line.len() <= usize::MAX
            &&& list_marker_of(tail(line, q)) is Some
            &&& q > 0 && line[q - 1] == GREATER ==> n == 0
        }),
        0 <= i <= reindented(line_of(b, pos), n).len(),
    ensures
        ({
            let ls = line_start_of(b, pos);
            let rebuilt = reindented(line_of(b, pos), n);
            line_of(spliced(b, ls, line_end_of(b, pos), rebuilt), ls + i) == rebuilt
        }),
{
    lemma_line_start(b, pos);
    lemma_line_end(b, pos);
    let ls = line_start_of(b, pos);
    let line = line_of(b, pos);
    assert forall|k: int| 0 <= k < line.len() implies #[trigger] line[k] != NEWLINE by {
        assert(line[k] == b[ls + k]);
    }
    lemma_reindented_line(line, n);
    lemma_rebuilt_line(b, ls, line_end_of(b, pos), reindented(line, n), i);
}

/// The line of a list item that has been moved in or out.
proof fn lemma_shifted_line(s: Session, outdent: bool)
    requires
        0 <= s.caret <= s.text.len(),
        ({
            let line = line_of(s.text, s.caret);
            let q = quote_len(line);
            let n = tab_indent(indent_len(tail(line, q)), outdent);
            &&& line.len() <= usize::MAX
            &&& n <= usize::MAX
            &&& list_marker_of(tail(line, q)) is Some
            &&& q > 0 && line[q - 1] == GREATER ==> n == 0
        }),
    ensures
        ({
            let line = line_of(s.text, s.caret);
            let n = tab_indent(indent_len(tail(line, quote_len(line))), outdent);
            let t = s.item_shifted(outdent);
            line_of(t.text, t.caret) == reindented(line, n as nat)
        }),
{
    let line = line_of(s.text, s.caret);
    let q = quote_len(line);
    lemma_line_start(s.text, s.caret);
    lemma_line_end(s.text, s.caret);
    lemma_quote_len(line);
    lemma_indent_len(tail(line, q));
    let n = tab_indent(indent_len(tail(line, q)), outdent);
    lemma_reindented(line, n as nat);
    let i = s.item_shifted(outdent).caret - line_start_of(s.text, s.caret);
    lemma_moved_item(s.text, s.caret, n as nat, i);
}

/// Tab moves a list item in by two and Shift+Tab moves it out by two, or to the margin, behind
/// the same quote marks and with nothing else changed. Then the list is renumbered. Where that
/// leaves the text as it was, nothing has happened.
///
/// Right behind a `>`, with no space between them, any indent would belong to the quote mark.
pub proof fn law_tab_moves_an_item(s: Session, outdent: bool)
    requires
        s.wf(),
        s.text.len() + 2 <= usize::MAX,
        ({
            let line = line_of(s.text, s.caret);
            let q = quote_len(line);
            &&& list_marker_of(tail(line, q)) is Some
            &&& q > 0 && line[q - 1] == GREATER ==> tab_indent(
                indent_len(tail(line, q)),
                outdent,
            ) == 0
        }),
    ensures
        ({
            let line = line_of(s.text, s.caret);
            let q = quote_len(line);
            let kind = (list_marker_of(tail(line, q))->0).1;
            let t = s.recorded().item_shifted(outdent);
            let next = line_of(t.text, t.caret);
            &&& s.tabbed(outdent) == if t.renumbered().text == s.text {
                (s, moved_result())
            } else {
                (t.renumbered(), edited_result())
            }
            &&& quote_len(next) == q
            &&& list_marker_of(tail(next, q)) matches Some((_, k)) && {
                &&& same_sort(kind, k)
                &&& k.indent_spec() == tab_indent(kind.indent_spec() as int, outdent)
                &&& number_of(k) == number_of(kind)
                &&& k.checked_spec() == kind.checked_spec()
            }
        }),
{
    let line = line_of(s.text, s.caret);
    let q = quote_len(line);
    lemma_line_start(s.text, s.caret);
    lemma_line_end(s.text, s.caret);
    lemma_quote_len(line);
    lemma_indent_len(tail(line, q));
    let n = tab_indent(indent_len(tail(line, q)), outdent);
    lemma_reindented(line, n as nat);
    lemma_shifted_line(s.recorded(), outdent);
}

/// Renumbering around a line that is no numbered item does nothing.
proof fn lemma_nothing_to_renumber(s: Session)
    requires
        0 <= s.caret <= s.text.len(),
        ordinal_of(line_of(s.text, s.caret)) is None,
    ensures
        s.renumbered() == s,
{
    law_line_at_its_index(s.text, s.caret);
    law_lines_join_back(s.text);
}

/// The caret's line is a list item without a number, and not right behind a `>`.
pub open spec fn on_loose_item(s: Session) -> bool {
    let line = line_of(s.text, s.caret);
    let q = quote_len(line);
    &&& list_marker_of(tail(line, q)) matches Some((_, kind)) && !(kind is Numbered)
    &&& !(q > 0 && line[q - 1] == GREATER)
}

/// Tab and Shift+Tab on an item without a number move it, and there is nothing to renumber.
proof fn lemma_tab_on_an_item(s: Session, outdent: bool)
    requires
        0 <= s.caret <= s.text.len(),
        s.text.len() <= usize::MAX,
        on_loose_item(s),
        ({
            let line = line_of(s.text, s.caret);
            let indent = indent_len(tail(line, quote_len(line)));
            &&& tab_indent(indent, outdent) <= usize::MAX
            &&& tab_indent(indent, outdent) != indent
        }),
    ensures
        ({
            let line = line_of(s.text, s.caret);
            let q = quote_len(line);
            let n = tab_indent(indent_len(tail(line, q)), outdent);
            let t = s.recorded().item_shifted(outdent);
            &&& s.tabbed(outdent).0 == t
            &&& line_of(t.text, t.caret) == reindented(line, n as nat)
            &&& on_loose_item(t)
            &&& quote_len(reindented(line, n as nat)) == q
            &&& indent_len(tail(reindented(line, n as nat), q)) == n
        }),
{
    let line = line_of(s.text, s.caret);
    let q = quote_len(line);
    let ls = line_start_of(s.text, s.caret);
    let le = line_end_of(s.text, s.caret);
    lemma_line_start(s.text, s.caret);
    lemma_line_end(s.text, s.caret);
    lemma_quote_len(line);
    lemma_indent_len(tail(line, q));
    let indent = indent_len(tail(line, q));
    let n = tab_indent(indent, outdent);
    let next = reindented(line, n as nat);
    lemma_reindented(line, n as nat);
    let t = s.recorded().item_shifted(outdent);
    lemma_shifted_line(s.recorded(), outdent);
    assert(t.text == spliced(s.text, ls, le, next));
    assert(t.text.len() == s.text.len() - indent + n);
    assert(q > 0 ==> next[q - 1] == line[q - 1]);
    lemma_same_indent(line, n as nat);
    lemma_nothing_to_renumber(t);
}

/// A line given another indent has that indent.
proof fn lemma_same_indent(line: Seq<u8>, n: nat)
    requires
        list_marker_of(tail(line, quote_len(line))) is Some,
    ensures
        indent_len(tail(reindented(line, n), quote_len(line))) == n,
{
    let q = quote_len(line);
    lemma_quote_len(line);
    let body = tail(line, q);
    let ws = indent_len(body);
    lemma_indent_len(body);
    lemma_list_marker(body);
    let after = tail(reindented(line, n), q);
    assert forall|i: int| 0 <= i < n implies is_blank(#[trigger] after[i]) by {
        assert(after[i] == SPACE);
    }
    assert(after[n as int] == body[ws]);
    lemma_indent_len_is(after, n as int);
}

/// What moving an indented item in does to the text and the caret.
proof fn lemma_moved_in(s: Session)
    requires
        0 <= s.caret <= s.text.len(),
        list_marker_of(tail(line_of(s.text, s.caret), quote_len(line_of(s.text, s.caret)))) is Some,
        ({
            let line = line_of(s.text, s.caret);
            let body = tail(line, quote_len(line));
            space_run(body) == indent_len(body)
        }),
    ensures
        ({
            let b = s.text;
            let ls = line_start_of(b, s.caret);
            let line = line_of(b, s.caret);
            let q = quote_len(line);
            let t = s.item_shifted(false);
            &&& t.text == b.subrange(0, ls + q) + spaces(2) + b.subrange(ls + q, b.len() as int)
            &&& t.caret == s.caret + 2
            &&& t.anchor == s.caret + 2
            &&& line_start_of(t.text, t.caret) == ls
            &&& line_end_of(t.text, t.caret) == line_end_of(b, s.caret) + 2
        }),
{
    let b = s.text;
    let ls = line_start_of(b, s.caret);
    let le = line_end_of(b, s.caret);
    lemma_line_start(b, s.caret);
    lemma_line_end(b, s.caret);
    let line = line_of(b, s.caret);
    let q = quote_len(line);
    lemma_quote_len(line);
    let body = tail(line, q);
    lemma_indent_len(body);
    lemma_space_run(body);
    let indent = indent_len(body);
    let next = reindented(line, (indent + 2) as nat);
    assert forall|i: int| q <= i < q + indent implies #[trigger] line[i] == SPACE by {
        assert(body[i - q] == line[i]);
    }
    lemma_more_spaces(line, q, indent);
    let t = s.item_shifted(false);
    assert(t.text =~= b.subrange(0, ls + q) + spaces(2) + b.subrange(ls + q, b.len() as int));
    assert forall|i: int| 0 <= i < next.len() implies #[trigger] next[i] != NEWLINE by {
        if i < q {
            assert(next[i] == b[ls + i]);
        } else if i >= q + 2 {
            assert(next[i] == b[ls + i - 2]);
        }
    }
    lemma_line_within(b, s.caret, next, s.caret + 2);
}

/// Moving the item out again gives the text and the caret back.
proof fn lemma_moved_back(s: Session, t: Session)
    requires
        0 <= s.caret <= s.text.len(),
        ({
            let b = s.text;
            let ls = line_start_of(b, s.caret);
            let line = line_of(b, s.caret);
            let q = quote_len(line);
            let next = line_of(t.text, t.caret);
            let indent = indent_len(tail(line, q));
            &&& t.text == b.subrange(0, ls + q) + spaces(2) + b.subrange(ls + q, b.len() as int)
            &&& t.caret == s.caret + 2
            &&& line_start_of(t.text, t.caret) == ls
            &&& line_end_of(t.text, t.caret) == line_end_of(b, s.caret) + 2
            &&& reindented(next, indent as nat) == line
            &&& indent_len(tail(next, quote_len(next))) == indent + 2
        }),
    ensures
        t.item_shifted(true).text == s.text,
        t.item_shifted(true).caret == s.caret,
        t.item_shifted(true).anchor == s.caret,
{
    let b = s.text;
    let ls = line_start_of(b, s.caret);
    let line = line_of(b, s.caret);
    lemma_line_start(b, s.caret);
    lemma_line_end(b, s.caret);
    lemma_quote_len(line);
    lemma_indent_len(tail(line, quote_len(line)));
    let u = t.item_shifted(true);
    assert(u.text == spliced(t.text, ls, line_end_of(b, s.caret) + 2, line));
    assert(u.text =~= b);
}

/// An item that was moved in by two is still one that is to be moved out by two.
proof fn lemma_there_and_back(s: Session, t: Session)
    requires
        0 <= s.caret <= s.text.len(),
        s.text.len() + 2 <= usize::MAX,
        on_loose_item(s),
        ({
            let line = line_of(s.text, s.caret);
            let q = quote_len(line);
            let next = reindented(line, (indent_len(tail(line, q)) + 2) as nat);
            &&& space_run(tail(line, q)) == indent_len(tail(line, q))
            &&& t == s.recorded().item_shifted(false)
            &&& line_of(t.text, t.caret) == next
            &&& quote_len(next) == q
            &&& indent_len(tail(next, q)) == indent_len(tail(line, q)) + 2
        }),
    ensures
        t.recorded().item_shifted(true).snap() == (Snap {
            text: s.text,
            caret: s.caret,
            anchor: s.caret,
        }),
{
    let line = line_of(s.text, s.caret);
    let q = quote_len(line);
    lemma_line_start(s.text, s.caret);
    lemma_line_end(s.text, s.caret);
    lemma_quote_len(line);
    let body = tail(line, q);
    lemma_indent_len(body);
    lemma_space_run(body);
    let indent = indent_len(body);
    lemma_moved_in(s.recorded());
    assert forall|i: int| q <= i < q + indent implies #[trigger] line[i] == SPACE by {
        assert(body[i - q] == line[i]);
    }
    lemma_back_again(line, q, indent);
    lemma_moved_back(s, t.recorded());
}

/// Shift+Tab takes back what Tab did to a bulleted item or a task that is indented with nothing
/// but spaces: the text, the caret and the anchor are what they were, and between the two only the
/// item's own line differs, by two spaces before its indent.
///
/// Right behind a `>`, with no space between them, one of the two spaces would belong to the
/// quote mark.
pub proof fn law_shift_tab_takes_tab_back(s: Session)
    requires
        s.wf(),
        s.caret == s.anchor,
        s.text.len() + 2 <= usize::MAX,
        on_loose_item(s),
        ({
            let line = line_of(s.text, s.caret);
            let body = tail(line, quote_len(line));
            space_run(body) == indent_len(body)
        }),
    ensures
        ({
            let at = line_start_of(s.text, s.caret) + quote_len(line_of(s.text, s.caret));
            let t = s.tabbed(false).0;
            &&& t.text == s.text.subrange(0, at) + spaces(2) + s.text.subrange(
                at,
                s.text.len() as int,
            )
            &&& t.caret == s.caret + 2
            &&& t.anchor == s.caret + 2
            &&& t.tabbed(true).0.snap() == s.snap()
        }),
{
    let line = line_of(s.text, s.caret);
    let q = quote_len(line);
    lemma_line_start(s.text, s.caret);
    lemma_line_end(s.text, s.caret);
    lemma_quote_len(line);
    lemma_indent_len(tail(line, q));
    let t = s.recorded().item_shifted(false);
    lemma_tab_on_an_item(s, false);
    lemma_moved_in(s.recorded());
    lemma_tab_on_an_item(t, true);
    lemma_there_and_back(s, t);
}

/// Spaces put before spaces.
proof fn lemma_more_spaces(line: Seq<u8>, q: int, indent: int)
    requires
        q == quote_len(line),
        0 <= q,
        0 <= indent,
        q + indent <= line.len(),
        indent == indent_len(tail(line, q)),
        forall|i: int| q <= i < q + indent ==> #[trigger] line[i] == SPACE,
    ensures
        reindented(line, (indent + 2) as nat) == line.subrange(0, q) + spaces(2) + tail(line, q),
{
    assert(reindented(line, (indent + 2) as nat) =~= line.subrange(0, q) + spaces(2) + tail(line, q));
}

/// Spaces put before spaces and taken away again.
proof fn lemma_back_again(line: Seq<u8>, q: int, indent: int)
    requires
        q == quote_len(line),
        0 <= q,
        0 <= indent,
        q + indent <= line.len(),
        indent == indent_len(tail(line, q)),
        forall|i: int| q <= i < q + indent ==> #[trigger] line[i] == SPACE,
        ({
            let next = reindented(line, (indent + 2) as nat);
            &&& quote_len(next) == q
            &&& indent_len(tail(next, q)) == indent + 2
        }),
    ensures
        reindented(reindented(line, (indent + 2) as nat), indent as nat) == line,
{
    let next = reindented(line, (indent + 2) as nat);
    assert(tail(next, q + indent + 2) =~= tail(line, q + indent));
    assert(next.subrange(0, q) =~= line.subrange(0, q));
    assert(reindented(next, indent as nat) =~= line);
}

/// Where a line that has been replaced by another starts and ends.
proof fn lemma_line_within(b: Seq<u8>, pos: int, with: Seq<u8>, i: int)
    requires
        0 <= pos <= b.len(),
        line_start_of(b, pos) <= i <= line_start_of(b, pos) + with.len(),
        forall|k: int| 0 <= k < with.len() ==> #[trigger] with[k] != NEWLINE,
    ensures
        ({
            let c = spliced(b, line_start_of(b, pos), line_end_of(b, pos), with);
            &&& line_start_of(c, i) == line_start_of(b, pos)
            &&& line_end_of(c, i) == line_start_of(b, pos) + with.len()
        }),
{
    let ls = line_start_of(b, pos);
    let le = line_end_of(b, pos);
    lemma_line_start(b, pos);
    lemma_line_end(b, pos);
    let c = spliced(b, ls, le, with);
    let e = ls + with.len();
    assert forall|k: int| ls <= k < e implies #[trigger] c[k] != NEWLINE by {
        assert(c[k] == with[k - ls]);
    }
    if ls > 0 {
        assert(c[ls - 1] == b[ls - 1]);
    }
    if le < b.len() {
        assert(c[e] == b[le]);
    }
    lemma_line_start_is(c, ls, i);
    lemma_line_end_is(c, i, e);
}

/// Backspace right behind the marker of a block takes the whole marker away, unless it is that
/// of a nested item: what is left is the line without it. Then the list is renumbered, if that is
/// a numbered item.
pub proof fn law_backspace_takes_the_marker_away(s: Session)
    requires
        s.wf(),
        s.caret == s.anchor,
        s.behind_marker(),
        list_marker_of(line_of(s.text, s.caret)) matches Some((_, kind)) ==> kind.indent_spec() < 2,
    ensures
        ({
            let line = line_of(s.text, s.caret);
            let ls = line_start_of(s.text, s.caret);
            let t = s.recorded().put(ls, s.caret, Seq::empty(), ls);
            &&& s.backspaced(false) == s.edited_into(t.renumbered())
            &&& line_of(t.text, t.caret) == tail(line, marker_len_of(line)->0)
            &&& ordinal_of(line_of(t.text, t.caret)) is None ==> s.backspaced(false) == (
                t,
                edited_result(),
            )
        }),
{
    let b = s.text;
    let ls = line_start_of(b, s.caret);
    let le = line_end_of(b, s.caret);
    lemma_line_start(b, s.caret);
    lemma_line_end(b, s.caret);
    lemma_spliced_line(b, ls, s.caret, Seq::empty());
    let line = line_of(b, s.caret);
    assert(b.subrange(ls, ls) + Seq::<u8>::empty() + b.subrange(s.caret, le) =~= tail(
        line,
        s.caret - ls,
    ));
    let t = s.recorded().put(ls, s.caret, Seq::empty(), ls);
    assert(t.text.len() < b.len());
    if ordinal_of(line_of(t.text, t.caret)) is None {
        lemma_nothing_to_renumber(t);
    }
}

// ---- emphasis and links -----------------------------------------------------------------

/// Wrapping a selection puts the delimiter on both sides of it, and leaves the same text
/// selected.
pub proof fn law_wrapping_keeps_the_selection(s: Session, delim: Seq<u8>)
    requires
        s.wf(),
    ensures
        ({
            let t = s.wrapped(delim);
            &&& t.selected() == s.selected()
            &&& t.text == s.text.subrange(0, s.start()) + delim + s.selected() + delim
                + s.text.subrange(s.end(), s.text.len() as int)
        }),
{
    let t = s.wrapped(delim);
    assert(t.text =~= s.text.subrange(0, s.start()) + delim + s.selected() + delim
        + s.text.subrange(s.end(), s.text.len() as int));
    assert(t.selected() =~= s.selected());
}

/// A link keeps the selection as its label, and the caret is left between the parentheses.
pub proof fn law_link_leaves_the_caret_in_its_parentheses(s: Session)
    requires
        s.wf(),
    ensures
        ({
            let t = s.linked();
            &&& t.caret == t.anchor
            &&& t.text.subrange(0, t.caret) == s.text.subrange(0, s.start()) + lit("[")
                + s.selected() + lit("](")
            &&& t.text.subrange(t.caret, t.text.len() as int) == lit(")") + s.text.subrange(
                s.end(),
                s.text.len() as int,
            )
        }),
{
    let t = s.linked();
    reveal_strlit("[");
    reveal_strlit("]()");
    reveal_strlit("](");
    reveal_strlit(")");
    is_ascii_chars_encode_utf8("["@);
    is_ascii_chars_encode_utf8("]()"@);
    is_ascii_chars_encode_utf8("]("@);
    is_ascii_chars_encode_utf8(")"@);
    assert(lit("]()") =~= lit("](") + lit(")"));
    assert(t.text.subrange(0, t.caret) =~= s.text.subrange(0, s.start()) + lit("[") + s.selected()
        + lit("]("));
    assert(t.text.subrange(t.caret, t.text.len() as int) =~= lit(")") + s.text.subrange(
        s.end(),
        s.text.len() as int,
    ));
}

} // verus!
