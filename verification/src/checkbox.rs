//! Toggling a task box: what it makes of the item, and what two toggles come to.

use vstd::prelude::*;
use vstd::string::*;

use crate::ascii::{BRACKET_CLOSE, BRACKET_OPEN, LOWER_X, NEWLINE, SPACE};
use crate::block::{
    box_at, lemma_item_has_no_quote, lemma_list_marker, lemma_marker_base, lemma_quote_len,
    lemma_same_quote, list_marker_of, marker_base, past_box, quote_len, tail,
};
use crate::bytes::{lemma_start_is_boundary, spliced};
use crate::decimal::lemma_digit_run;
use crate::session::{lit, Session};
use crate::text::{
    lemma_indent_len, lemma_line_end, lemma_line_end_is, lemma_line_range, line_end_of,
    line_range_from, line_range_of,
};
use crate::typing::item_end;

verus! {

/// Texts that agree up to where a line starts, and beyond, have that line start at the same
/// place.
proof fn lemma_same_line_start(b: Seq<u8>, c: Seq<u8>, start: int, index: nat, p: int)
    requires
        0 <= start <= p <= b.len(),
        p <= c.len(),
        forall|i: int| 0 <= i < p ==> #[trigger] b[i] == c[i],
        line_range_from(b, start, index) is Some,
        (line_range_from(b, start, index)->0).0 <= p,
    ensures
        ({
            let ls = (line_range_from(b, start, index)->0).0;
            line_range_from(c, start, index) == Some((ls, line_end_of(c, ls)))
        }),
    decreases index,
{
    let e = line_end_of(b, start);
    lemma_line_end(b, start);
    if index > 0 {
        lemma_range_start(b, e + 1, (index - 1) as nat);
        assert(b[e] == c[e]);
        assert forall|i: int| start <= i < e implies #[trigger] c[i] != NEWLINE by {
            assert(b[i] == c[i]);
        }
        lemma_line_end_is(c, start, e);
        lemma_same_line_start(b, c, e + 1, (index - 1) as nat, p);
    }
}

proof fn lemma_range_start(b: Seq<u8>, start: int, index: nat)
    requires
        0 <= start <= b.len(),
    ensures
        line_range_from(b, start, index) matches Some((s, e)) ==> start <= s <= b.len() && e
            == line_end_of(b, s),
    decreases index,
{
    lemma_line_end(b, start);
    let e = line_end_of(b, start);
    if index > 0 && e < b.len() {
        lemma_range_start(b, e + 1, (index - 1) as nat);
    }
}

/// A line that agrees with a list item up to the end of its bullet or number is a list item
/// with the same quote marks, up to the task box behind them.
proof fn lemma_same_item(line: Seq<u8>, other: Seq<u8>)
    requires
        ({
            let q = quote_len(line);
            let m = marker_base(tail(line, q));
            &&& list_marker_of(tail(line, q)) is Some
            &&& q + m <= other.len()
            &&& forall|i: int| 0 <= i < q + m ==> #[trigger] line[i] == other[i]
        }),
    ensures
        ({
            let q = quote_len(line);
            let m = marker_base(tail(line, q));
            &&& 0 <= q
            &&& 0 <= m
            &&& q + m <= line.len()
            &&& quote_len(other) == q
            &&& list_marker_of(tail(other, q)) is Some
            &&& (list_marker_of(tail(other, q))->0).0 == past_box(tail(other, q), m)
            &&& (list_marker_of(tail(other, q))->0).1.checked_spec() == box_at(tail(other, q), m)
        }),
{
    let q = quote_len(line);
    lemma_quote_len(line);
    let body = tail(line, q);
    let m = marker_base(body);
    lemma_marker_base(body, body);
    lemma_list_marker(body);
    crate::text::lemma_indent_len(body);
    lemma_digit_run(tail(body, crate::text::indent_len(body)));
    let rest = tail(other, q);
    assert forall|i: int| 0 <= i < m implies #[trigger] body[i] == rest[i] by {
        assert(line[q + i] == other[q + i]);
    }
    lemma_marker_base(body, rest);
    lemma_item_has_no_quote(rest);
    assert(line.subrange(0, q) =~= other.subrange(0, q));
    assert(line[q] == other[q]);
    lemma_same_quote(line, other, q);
}

/// The item on line `index` as it is found in another text, which agrees with the first up to
/// the end of the item's bullet or number, and whose line goes on to `end`.
proof fn lemma_item_in(b: Seq<u8>, c: Seq<u8>, index: nat, end: int)
    requires
        item_end(b, index) is Some,
        ({
            let (ls, le) = line_range_of(b, index)->0;
            let line = b.subrange(ls, le);
            let q = quote_len(line);
            let base = ls + q + marker_base(tail(line, q));
            &&& base <= end <= c.len()
            &&& forall|i: int| 0 <= i < base ==> #[trigger] b[i] == c[i]
            &&& forall|i: int| base <= i < end ==> #[trigger] c[i] != NEWLINE
            &&& end == c.len() || c[end] == NEWLINE
        }),
    ensures
        ({
            let (ls, le) = line_range_of(b, index)->0;
            let line = b.subrange(ls, le);
            let q = quote_len(line);
            let m = marker_base(tail(line, q));
            let rest = tail(c.subrange(ls, end), q);
            &&& 0 <= ls
            &&& ls + q + m <= le <= b.len()
            &&& item_end(c, index) == Some((ls + q + past_box(rest, m), box_at(rest, m)))
        }),
{
    lemma_range_start(b, 0, index);
    let (ls, le) = line_range_of(b, index)->0;
    lemma_line_end(b, ls);
    let line = b.subrange(ls, le);
    let q = quote_len(line);
    let m = marker_base(tail(line, q));
    lemma_quote_len(line);
    lemma_marker_base(tail(line, q), tail(line, q));
    lemma_same_item(line, line);
    let base = ls + q + m;
    lemma_same_line_start(b, c, 0, index, base);
    assert forall|i: int| ls <= i < end implies #[trigger] c[i] != NEWLINE by {
        if i < base {
            assert(b[i] == c[i]);
        }
    }
    lemma_line_end_is(c, ls, end);
    let other = c.subrange(ls, end);
    assert forall|i: int| 0 <= i < q + m implies #[trigger] line[i] == other[i] by {
        assert(b[ls + i] == c[ls + i]);
    }
    lemma_same_item(line, other);
}

proof fn lemma_boxes()
    ensures
        lit("[ ] ") == seq![BRACKET_OPEN, SPACE, BRACKET_CLOSE, SPACE],
        lit("[x] ") == seq![BRACKET_OPEN, LOWER_X, BRACKET_CLOSE, SPACE],
{
    reveal_strlit("[ ] ");
    reveal_strlit("[x] ");
    vstd::utf8::is_ascii_chars_encode_utf8("[ ] "@);
    vstd::utf8::is_ascii_chars_encode_utf8("[x] "@);
    assert(lit("[ ] ") =~= seq![BRACKET_OPEN, SPACE, BRACKET_CLOSE, SPACE]);
    assert(lit("[x] ") =~= seq![BRACKET_OPEN, LOWER_X, BRACKET_CLOSE, SPACE]);
}

/// A text with the box that ends at `at` flipped, or with an open box put there.
pub open spec fn flipped(b: Seq<u8>, at: int, state: Option<bool>) -> Seq<u8> {
    match state {
        Some(true) => spliced(b, at - 4, at, lit("[ ] ")),
        Some(false) => spliced(b, at - 4, at, lit("[x] ")),
        None => spliced(b, at, at, lit("[ ] ")),
    }
}

/// Toggling flips the box, and that is all it does to the text.
pub proof fn law_toggle_edits_the_box_only(s: Session, index: nat)
    ensures
        match item_end(s.text, index) {
            None => s.checkbox_toggled(index) == (s, false),
            Some((at, state)) => s.checkbox_toggled(index).1 && s.checkbox_toggled(index).0.text
                == flipped(s.text, at, state),
        },
{
}

/// What becomes of the item whose box is flipped.
proof fn lemma_flipped(b: Seq<u8>, c: Seq<u8>, index: nat)
    requires
        item_end(b, index) is Some,
        c == flipped(b, (item_end(b, index)->0).0, (item_end(b, index)->0).1),
    ensures
        ({
            let (at, state) = item_end(b, index)->0;
            item_end(c, index) == match state {
                Some(ticked) => Some((at, Some(!ticked))),
                None => Some((at + 4, Some(false))),
            }
        }),
{
    lemma_boxes();
    lemma_range_start(b, 0, index);
    let (ls, le) = line_range_of(b, index)->0;
    lemma_line_end(b, ls);
    let line = b.subrange(ls, le);
    let q = quote_len(line);
    lemma_quote_len(line);
    let body = tail(line, q);
    let m = marker_base(body);
    lemma_marker_base(body, body);
    let base = ls + q + m;
    let (at, state) = item_end(b, index)->0;
    match state {
        Some(ticked) => {
            assert(at == base + 4);
            assert forall|i: int| base <= i < le implies #[trigger] c[i] != NEWLINE by {
                if i >= at {
                    assert(c[i] == b[i]);
                }
            }
            lemma_item_in(b, c, index, le);
            let rest = tail(c.subrange(ls, le), q);
            assert(rest[m] == c[base] && rest[m + 1] == c[base + 1] && rest[m + 2] == c[base + 2]
                && rest[m + 3] == c[base + 3]);
        },
        None => {
            assert(at == base);
            assert forall|i: int| base <= i < le + 4 implies #[trigger] c[i] != NEWLINE by {
                if i >= base + 4 {
                    assert(c[i] == b[i - 4]);
                }
            }
            if le < b.len() {
                assert(c[le + 4] == b[le]);
            }
            lemma_item_in(b, c, index, le + 4);
            let rest = tail(c.subrange(ls, le + 4), q);
            assert(rest[m] == c[base] && rest[m + 1] == c[base + 1] && rest[m + 2] == c[base + 2]
                && rest[m + 3] == c[base + 3]);
        },
    }
}

/// Toggling turns a ticked box into an open one and an open box into a ticked one, and gives
/// an item without a box an open one.
pub proof fn law_toggle_flips_the_box(s: Session, index: nat)
    requires
        item_end(s.text, index) is Some,
    ensures
        s.checkbox_toggled(index).1,
        ({
            let (at, state) = item_end(s.text, index)->0;
            item_end(s.checkbox_toggled(index).0.text, index) == match state {
                Some(ticked) => Some((at, Some(!ticked))),
                None => Some((at + 4, Some(false))),
            }
        }),
{
    law_toggle_edits_the_box_only(s, index);
    lemma_flipped(s.text, s.checkbox_toggled(index).0.text, index);
}

/// Toggling an open box twice leaves the text as it was, byte for byte. A ticked box comes
/// back ticked, with a small `x`.
pub proof fn law_toggle_twice(s: Session, index: nat)
    requires
        item_end(s.text, index) is Some,
        (item_end(s.text, index)->0).1 is Some,
    ensures
        ({
            let (at, state) = item_end(s.text, index)->0;
            let t = s.checkbox_toggled(index).0.checkbox_toggled(index).0;
            &&& item_end(t.text, index) == item_end(s.text, index)
            &&& t.text == if state->0 {
                s.text.update(at - 3, LOWER_X)
            } else {
                s.text
            }
        }),
{
    let t = s.checkbox_toggled(index).0;
    law_toggle_edits_the_box_only(s, index);
    law_toggle_edits_the_box_only(t, index);
    lemma_flipped(s.text, t.text, index);
    let (at, state) = item_end(s.text, index)->0;
    lemma_flipped(t.text, flipped(t.text, at, Some(!state->0)), index);
    lemma_flipped_twice(s.text, index);
}

/// Flipping a box twice.
proof fn lemma_flipped_twice(b: Seq<u8>, index: nat)
    requires
        item_end(b, index) is Some,
        (item_end(b, index)->0).1 is Some,
    ensures
        ({
            let (at, state) = item_end(b, index)->0;
            flipped(flipped(b, at, state), at, Some(!state->0)) == if state->0 {
                b.update(at - 3, LOWER_X)
            } else {
                b
            }
        }),
{
    let (at, state) = item_end(b, index)->0;
    lemma_boxes();
    lemma_box_bytes(b, index);
    let u = flipped(flipped(b, at, state), at, Some(!state->0));
    if state->0 {
        assert(u =~= b.update(at - 3, LOWER_X));
    } else {
        assert(u =~= b);
    }
}

/// The bytes of the box that `item_end` reports.
proof fn lemma_box_bytes(b: Seq<u8>, index: nat)
    requires
        item_end(b, index) is Some,
        (item_end(b, index)->0).1 is Some,
    ensures
        ({
            let (at, state) = item_end(b, index)->0;
            &&& 4 <= at <= b.len()
            &&& b[at - 4] == BRACKET_OPEN
            &&& b[at - 2] == BRACKET_CLOSE
            &&& b[at - 1] == SPACE
            &&& !state->0 ==> b[at - 3] == SPACE
        }),
{
    lemma_range_start(b, 0, index);
    let (ls, le) = line_range_of(b, index)->0;
    lemma_line_end(b, ls);
    let line = b.subrange(ls, le);
    let q = quote_len(line);
    lemma_quote_len(line);
    let body = tail(line, q);
    lemma_marker_base(body, body);
    let m = marker_base(body);
    let base = ls + q + m;
    assert(body[m] == b[base] && body[m + 1] == b[base + 1] && body[m + 2] == b[base + 2]
        && body[m + 3] == b[base + 3]);
}

/// Toggling a box that is there changes the one byte in it, between a space and an `x`, and
/// leaves the caret where it is.
pub proof fn law_toggle_changes_one_byte(s: Session, index: nat)
    requires
        s.wf(),
        item_end(s.text, index) matches Some((_, state)) && state is Some,
    ensures
        ({
            let (at, state) = item_end(s.text, index)->0;
            let t = s.checkbox_toggled(index).0;
            &&& 4 <= at <= s.text.len()
            &&& t.text == s.text.update(
                at - 3,
                if state == Some(true) {
                    0x20u8
                } else {
                    0x78u8
                },
            )
            &&& t.caret == s.caret && t.anchor == s.anchor
            &&& t.dirty
        }),
{
    let (at, state) = item_end(s.text, index)->0;
    let (ls, le) = line_range_of(s.text, index)->0;
    lemma_start_is_boundary(s.text);
    lemma_line_range(s.text, 0, index);
    let line = s.text.subrange(ls, le);
    let q = quote_len(line);
    lemma_quote_len(line);
    let body = tail(line, q);
    lemma_list_marker(body);
    let len = (list_marker_of(body)->0).0;
    lemma_indent_len(body);
    assert(body =~= s.text.subrange(ls + q, le));
    assert(body[len - 4] == s.text[at - 4]);
    assert(body[len - 2] == s.text[at - 2]);
    assert(body[len - 1] == s.text[at - 1]);
    reveal_strlit("[ ] ");
    reveal_strlit("[x] ");
    vstd::utf8::is_ascii_chars_encode_utf8("[ ] "@);
    vstd::utf8::is_ascii_chars_encode_utf8("[x] "@);
    let t = s.checkbox_toggled(index).0;
    assert(t.text =~= s.text.update(
        at - 3,
        if state == Some(true) {
            0x20u8
        } else {
            0x78u8
        },
    ));
}

/// Toggling an item that has no box puts an open one behind its marker, and a caret at or
/// behind that place goes along with its text.
pub proof fn law_toggle_adds_an_open_box(s: Session, index: nat)
    requires
        item_end(s.text, index) matches Some((_, state)) && state is None,
    ensures
        ({
            let at = (item_end(s.text, index)->0).0;
            let t = s.checkbox_toggled(index).0;
            &&& t.text == s.text.subrange(0, at) + seq![0x5bu8, 0x20u8, 0x5du8, 0x20u8]
                + s.text.subrange(at, s.text.len() as int)
            &&& s.caret >= at ==> t.caret == s.caret + 4
            &&& s.caret < at ==> t.caret == s.caret
            &&& t.dirty
        }),
{
    reveal_strlit("[ ] ");
    vstd::utf8::is_ascii_chars_encode_utf8("[ ] "@);
    assert(lit("[ ] ") =~= seq![0x5bu8, 0x20u8, 0x5du8, 0x20u8]);
}

} // verus!
