//! What each key does to the text, the caret and the selection, byte for byte.

use vstd::prelude::*;
use vstd::string::*;
use vstd::utf8::{encode_utf8, is_ascii_chars_encode_utf8, valid_utf8};

use crate::ascii::{
    BACKTICK, BRACKET_CLOSE, BRACKET_OPEN, DASH, GREATER, LOWER_X, NEWLINE, PAREN_CLOSE,
    PAREN_OPEN, PLUS, SPACE, STAR, TILDE, UNDERSCORE,
};
use crate::block::{
    BlockKind, fence_line, first_ink, lemma_quote_len, lemma_space_run, list_marker_of,
    quote_depth, quote_len, space_run, tail,
};
use crate::bytes::{is_boundary, lemma_start_is_boundary, spliced};
use crate::decimal::{decimal, digit_run};
use crate::keys::{Command, edited_result, Key, KeyResult, Mods, moved_result, Theme, ViewMode};
use crate::lines::{line_of, lines_of};
use crate::reading::{
    chars, law_clamping_finds_the_last_boundary, law_column_is_counted_in_chars,
    law_next_boundary_is_one_char_on, law_next_word, law_previous_boundary_is_one_char_back,
    law_previous_word, word_after, word_before,
};
use crate::render::{law_line_range_has_its_index, law_line_ranges};
use crate::session::{lit, Session};
use crate::text::{
    column_at, column_offset, indent_len, lemma_indent_len, lemma_line_end, lemma_line_start,
    lemma_skip_forward, line_count_of, line_end_of, line_index_of, line_start_of, newlines,
    next_boundary_of, prev_boundary_of,
};
use crate::typing::{
    all_white, continuation, in_code, inside_fence, lemma_typing_grows, marker_len_of, reindented,
    space_rewrite, tab_indent,
};

verus! {

/// `b` with `with` in place of the bytes from `i` up to `j`.
pub open spec fn put_in(b: Seq<u8>, i: int, j: int, with: Seq<u8>) -> Seq<u8> {
    b.subrange(0, i) + with + b.subrange(j, b.len() as int)
}

/// The keys pressed with Ctrl that do something else than type.
pub open spec fn is_shortcut(c: char) -> bool {
    ||| c == 'b' || c == 'B' || c == 'i' || c == 'I' || c == 'd' || c == 'D' || c == 'e' || c == 'E'
    ||| c == '`' || c == 'k' || c == 'K' || c == 'a' || c == 'A' || c == 'y' || c == 'Y' || c == 'z'
    ||| c == 'Z' || c == '/' || c == 't' || c == 'T' || c == 'o' || c == 'O' || c == 's' || c == 'S'
}

/// A space typed at `at` can make nothing of what stands before it: no marker ends there.
pub open spec fn no_marker_ends(b: Seq<u8>, at: int) -> bool {
    at == 0 || (b[at - 1] != STAR && b[at - 1] != PLUS && b[at - 1] != BRACKET_CLOSE)
}

proof fn lemma_tokens(token: Seq<u8>)
    requires
        space_rewrite(token) is Some,
    ensures
        token.len() > 0,
        token.last() == STAR || token.last() == PLUS || token.last() == BRACKET_CLOSE,
{
    reveal_strlit("*");
    reveal_strlit("+");
    reveal_strlit("-[]");
    reveal_strlit("- []");
    reveal_strlit("*[]");
    reveal_strlit("* []");
    reveal_strlit("-[x]");
    reveal_strlit("- [x]");
    is_ascii_chars_encode_utf8("*"@);
    is_ascii_chars_encode_utf8("+"@);
    is_ascii_chars_encode_utf8("-[]"@);
    is_ascii_chars_encode_utf8("- []"@);
    is_ascii_chars_encode_utf8("*[]"@);
    is_ascii_chars_encode_utf8("* []"@);
    is_ascii_chars_encode_utf8("-[x]"@);
    is_ascii_chars_encode_utf8("- [x]"@);
}

proof fn lemma_no_rewrite(s: Session)
    requires
        s.wf(),
        no_marker_ends(s.text, s.caret),
    ensures
        space_rewrite(s.text.subrange(s.token_start(), s.caret)) is None,
        line_start_of(s.text, s.caret) <= s.token_start() <= s.caret,
{
    let ls = line_start_of(s.text, s.caret);
    lemma_line_start(s.text, s.caret);
    let prefix = s.text.subrange(ls, s.caret);
    lemma_quote_len(prefix);
    lemma_indent_len(tail(prefix, quote_len(prefix)));
    let token = s.text.subrange(s.token_start(), s.caret);
    if space_rewrite(token) is Some {
        lemma_tokens(token);
        assert(token.last() == s.text[s.caret - 1]);
    }
}

/// The text with the selection gone.
proof fn lemma_cut(s: Session)
    requires
        s.wf(),
    ensures
        s.without_selection().wf(),
        s.without_selection().text == put_in(s.text, s.start(), s.end(), Seq::empty()),
        s.without_selection().caret == s.start(),
{
    crate::session::lemma_without_selection(s);
    if s.caret == s.anchor {
        assert(put_in(s.text, s.start(), s.end(), Seq::empty()) =~= s.text);
    }
}

proof fn lemma_char_key(s: Session, c: char, mods: Mods)
    requires
        !(mods.ctrl && is_shortcut(c)),
    ensures
        s.after_key(Key::Char(c), mods) == s.edited_into(s.typed(c)),
{
}

proof fn lemma_typed_plainly(s: Session, c: char)
    requires
        s.wf(),
        s.caret != s.anchor ==> c != '*' && c != '_' && c != '`' && c != '~' && c != '[',
        c == ' ' ==> no_marker_ends(s.text, s.start()),
    ensures
        ({
            let t = s.typed(c);
            let with = encode_utf8(seq![c]);
            &&& t.text == put_in(s.text, s.start(), s.end(), with)
            &&& t.caret == s.start() + with.len()
            &&& t.anchor == t.caret
            &&& t.goal is None
        }),
{
    let u = s.recorded_for_typing();
    crate::session::lemma_recorded(s);
    let v = u.without_selection();
    lemma_cut(u);
    let with = encode_utf8(seq![c]);
    if c == ' ' {
        assert(no_marker_ends(v.text, v.caret)) by {
            if v.caret > 0 {
                assert(v.text[v.caret - 1] == s.text[v.caret - 1]);
            }
        }
        lemma_no_rewrite(v);
    }
    assert(s.typed(c) == u.typed_in(c));
    assert(u.typed_in(c) == (Session { goal: None, ..v.with_inserted(with) }));
    assert(v.with_inserted(with).text =~= put_in(s.text, s.start(), s.end(), with));
}

/// A typed char goes in at the caret, in place of what is selected, and the caret goes behind
/// it. With something selected the chars of emphasis and links do something else, and a space
/// may complete a marker.
pub proof fn law_typed_char_goes_in_at_the_caret(s: Session, c: char, mods: Mods)
    requires
        s.wf(),
        !(mods.ctrl && is_shortcut(c)),
        s.caret != s.anchor ==> c != '*' && c != '_' && c != '`' && c != '~' && c != '[',
        c == ' ' ==> no_marker_ends(s.text, s.start()),
    ensures
        ({
            let t = s.after_key(Key::Char(c), mods).0;
            let with = encode_utf8(seq![c]);
            &&& t.text == put_in(s.text, s.start(), s.end(), with)
            &&& t.caret == s.start() + with.len()
            &&& t.anchor == t.caret
            &&& t.goal is None
        }),
{
    lemma_char_key(s, c, mods);
    lemma_typed_plainly(s, c);
}

/// The same with nothing selected: the text is as it was before the caret and behind it, and
/// the char stands between the two.
pub proof fn law_typed_char_parts_the_text(s: Session, c: char)
    requires
        s.wf(),
        s.caret == s.anchor,
        c != ' ',
    ensures
        ({
            let (t, r) = s.after_key(Key::Char(c), no_mods());
            let with = encode_utf8(seq![c]);
            &&& r.changed
            &&& t.text == s.text.subrange(0, s.caret) + with + s.text.subrange(
                s.caret,
                s.text.len() as int,
            )
            &&& t.caret == s.caret + with.len()
            &&& t.anchor == t.caret
        }),
{
    law_typed_char_goes_in_at_the_caret(s, c, no_mods());
    lemma_typing_grows(s, c);
}

/// No modifier held.
pub open spec fn no_mods() -> Mods {
    Mods { ctrl: false, shift: false, alt: false }
}

/// A char pressed with no modifier held.
#[verifier::opaque]
pub open spec fn pressed(s: Session, c: char) -> Session {
    s.after_key(Key::Char(c), no_mods()).0
}

/// Chars pressed one after the other.
pub open spec fn pressed_all(s: Session, cs: Seq<char>) -> Session
    decreases cs.len(),
{
    if cs.len() == 0 {
        s
    } else {
        pressed(pressed_all(s, cs.drop_last()), cs.last())
    }
}

/// Typing keeps the order of what is typed: chars pressed one after the other stand one after
/// the other where the caret was, and the caret behind them.
pub proof fn law_typing_keeps_the_order(s: Session, cs: Seq<char>)
    requires
        s.wf(),
        s.caret == s.anchor,
        forall|i: int| 0 <= i < cs.len() ==> #[trigger] cs[i] != ' ',
    ensures
        ({
            let t = pressed_all(s, cs);
            let with = encode_utf8(cs);
            &&& t.wf()
            &&& t.text == s.text.subrange(0, s.caret) + with + s.text.subrange(
                s.caret,
                s.text.len() as int,
            )
            &&& t.caret == s.caret + with.len()
            &&& t.anchor == t.caret
        }),
    decreases cs.len(),
{
    let t = pressed_all(s, cs);
    if cs.len() == 0 {
        assert(encode_utf8(cs) =~= Seq::<u8>::empty());
        assert(t.text =~= s.text.subrange(0, s.caret) + encode_utf8(cs) + s.text.subrange(
            s.caret,
            s.text.len() as int,
        ));
    } else {
        let front = cs.drop_last();
        assert forall|i: int| 0 <= i < front.len() implies #[trigger] front[i] != ' ' by {
            assert(front[i] == cs[i]);
        }
        law_typing_keeps_the_order(s, front);
        let u = pressed_all(s, front);
        let c = cs.last();
        lemma_pressed(u, c);
        assert(cs =~= front + seq![c]);
        crate::bytes::lemma_encode_concat(front, seq![c]);
        lemma_one_behind_the_other(s.text, s.caret, encode_utf8(front), encode_utf8(seq![c]));
    }
}

/// Something put in behind what was put in before it.
proof fn lemma_one_behind_the_other(b: Seq<u8>, at: int, x: Seq<u8>, y: Seq<u8>)
    requires
        0 <= at <= b.len(),
    ensures
        ({
            let c = b.subrange(0, at) + x + b.subrange(at, b.len() as int);
            put_in(c, at + x.len(), at + x.len(), y) == b.subrange(0, at) + (x + y) + b.subrange(
                at,
                b.len() as int,
            )
        }),
{
    let c = b.subrange(0, at) + x + b.subrange(at, b.len() as int);
    assert(put_in(c, at + x.len(), at + x.len(), y) =~= b.subrange(0, at) + (x + y) + b.subrange(
        at,
        b.len() as int,
    ));
}

proof fn lemma_pressed(s: Session, c: char)
    requires
        s.wf(),
        s.caret == s.anchor,
        c != ' ',
    ensures
        ({
            let t = pressed(s, c);
            let with = encode_utf8(seq![c]);
            &&& t.wf()
            &&& t.text == put_in(s.text, s.caret, s.caret, with)
            &&& t.caret == s.caret + with.len()
            &&& t.anchor == t.caret
        }),
{
    reveal(pressed);
    law_typed_char_goes_in_at_the_caret(s, c, no_mods());
    lemma_typed_wf(s, c);
}

/// A typed char keeps the invariant.
proof fn lemma_typed_wf(s: Session, c: char)
    requires
        s.wf(),
        s.caret == s.anchor,
        c != ' ',
    ensures
        s.after_key(Key::Char(c), no_mods()).0.wf(),
{
    let u = s.recorded_for_typing();
    crate::session::lemma_recorded(s);
    let with = encode_utf8(seq![c]);
    crate::bytes::lemma_str_valid(seq![c]);
    crate::session::lemma_spliced_inside(u.text, u.caret, u.caret, with, with.len() as int);
    crate::session::lemma_put(u, u.caret, u.caret, with, u.caret + with.len());
    lemma_typing_grows(s, c);
    assert(s.typed(c) == (Session { goal: None, ..u.with_inserted(with) }));
    assert(s.after_key(Key::Char(c), no_mods()) == s.edited_into(s.typed(c)));
}

// ---- erasing ----------------------------------------------------------------------------

/// Backspace and Delete take away what is selected, and nothing else.
pub proof fn law_erasing_takes_the_selection(s: Session, key: Key, mods: Mods)
    requires
        s.wf(),
        s.caret != s.anchor,
        key is Backspace || key is Delete,
    ensures
        ({
            let t = s.after_key(key, mods).0;
            &&& t.text == put_in(s.text, s.start(), s.end(), Seq::empty())
            &&& t.caret == s.start()
            &&& t.anchor == s.start()
        }),
{
    let u = Session { coalescing: false, ..s };
    lemma_cut(u.recorded());
    assert(s.after_key(key, mods) == u.edited_into(u.recorded().without_selection()));
}

/// Delete takes away the char behind the caret, or as far as the next word ends if Ctrl is
/// held, and the caret stays. At the end of the text there is nothing to take.
pub proof fn law_delete_takes_what_follows(s: Session, mods: Mods)
    requires
        s.wf(),
        s.caret == s.anchor,
    ensures
        ({
            let (t, r) = s.after_key(Key::Delete, mods);
            let e = s.caret + s.text.len() - t.text.len();
            &&& s.caret <= e <= s.text.len()
            &&& t.text == put_in(s.text, s.caret, e, Seq::empty())
            &&& t.caret == s.caret
            &&& t.anchor == s.caret
            &&& s.caret < s.text.len() ==> {
                &&& r.changed
                &&& s.caret < e
                &&& is_boundary(s.text, e)
                &&& if mods.ctrl {
                    word_after(s.text, s.caret, e)
                } else {
                    chars(s.text, s.caret, e).len() == 1
                }
            }
            &&& s.caret == s.text.len() ==> !r.changed && t.text == s.text
        }),
{
    let u = Session { coalescing: false, ..s };
    lemma_start_is_boundary(s.text);
    assert(s.after_key(Key::Delete, mods) == u.deleted(mods.ctrl));
    if s.caret < s.text.len() {
        law_next_word(s.text, s.caret);
        law_next_boundary_is_one_char_on(s.text, s.caret);
        let e = if mods.ctrl {
            crate::text::next_word_of(s.text, s.caret)
        } else {
            next_boundary_of(s.text, s.caret)
        };
        let t = u.recorded().put(s.caret, e, Seq::empty(), s.caret);
        assert(s.caret < e <= s.text.len());
        assert(t.text == put_in(s.text, s.caret, e, Seq::empty()));
        assert(t.text.len() < s.text.len());
    } else {
        assert(put_in(s.text, s.caret, s.caret, Seq::empty()) =~= s.text);
    }
}

/// Backspace takes away the char before the caret, or back to where the word starts if Ctrl is
/// held, and the caret goes there. At the start of the text there is nothing to take. Behind a
/// marker, which ends in a space or a `>`, Backspace without Ctrl does something else.
pub proof fn law_backspace_takes_what_comes_before(s: Session, mods: Mods)
    requires
        s.wf(),
        s.caret == s.anchor,
        mods.ctrl || s.caret == 0 || (s.text[s.caret - 1] != SPACE && s.text[s.caret - 1] != GREATER)
            || marker_len_of(line_of(s.text, s.caret)) != Some(
            s.caret - line_start_of(s.text, s.caret),
        ),
    ensures
        ({
            let (t, r) = s.after_key(Key::Backspace, mods);
            &&& 0 <= t.caret <= s.caret
            &&& t.text == put_in(s.text, t.caret, s.caret, Seq::empty())
            &&& t.anchor == t.caret
            &&& s.caret > 0 ==> {
                &&& r.changed
                &&& t.caret < s.caret
                &&& is_boundary(s.text, t.caret)
                &&& if mods.ctrl {
                    word_before(s.text, s.caret, t.caret)
                } else {
                    chars(s.text, t.caret, s.caret).len() == 1
                }
            }
            &&& s.caret == 0 ==> !r.changed && t.text == s.text
        }),
{
    let u = Session { coalescing: false, ..s };
    assert(s.after_key(Key::Backspace, mods) == u.backspaced(mods.ctrl));
    if s.caret > 0 {
        if !mods.ctrl {
            lemma_behind_marker(u.recorded());
        }
        law_previous_word(s.text, s.caret);
        law_previous_boundary_is_one_char_back(s.text, s.caret);
        let p = if mods.ctrl {
            crate::text::prev_word_of(s.text, s.caret)
        } else {
            prev_boundary_of(s.text, s.caret)
        };
        let t = u.recorded().erased(mods.ctrl);
        assert(t.text == put_in(s.text, p, s.caret, Seq::empty()));
        assert(t.text.len() < s.text.len());
    } else {
        assert(put_in(s.text, 0, 0, Seq::empty()) =~= s.text);
    }
}

/// A marker ends in a space or a `>`.
proof fn lemma_behind_marker(s: Session)
    requires
        s.wf(),
    ensures
        s.behind_marker() ==> s.caret > 0 && (s.text[s.caret - 1] == SPACE || s.text[s.caret - 1]
            == GREATER),
{
    if s.behind_marker() {
        let b = s.text;
        let ls = line_start_of(b, s.caret);
        let le = line_end_of(b, s.caret);
        lemma_line_start(b, s.caret);
        lemma_line_end(b, s.caret);
        let line = line_of(b, s.caret);
        let n = crate::typing::marker_len_of(line)->0;
        let q = quote_len(line);
        let body = tail(line, q);
        lemma_quote_len(line);
        crate::block::lemma_list_marker(body);
        crate::block::lemma_heading(body);
        lemma_indent_len(body);
        crate::decimal::lemma_digit_run(tail(body, indent_len(body)));
        assert(line[n - 1] == b[s.caret - 1]);
        match list_marker_of(body) {
            Some((len, kind)) => {
                assert(body[len - 1] == line[n - 1]);
            },
            None => {
                match crate::block::heading_of(body) {
                    Some((len, level)) => {
                        assert(body[len - 1] == line[n - 1]);
                    },
                    None => {},
                }
            },
        }
    }
}

// ---- moving -----------------------------------------------------------------------------

/// What a motion leaves alone: everything but the caret, the anchor and the column aimed for.
/// Without Shift nothing is selected afterwards, with it the anchor stays.
pub open spec fn only_moves(s: Session, t: Session, shift: bool) -> bool {
    &&& t == (Session {
        caret: t.caret,
        anchor: t.anchor,
        goal: t.goal,
        coalescing: false,
        ..s
    })
    &&& t.anchor == if shift {
        s.anchor
    } else {
        t.caret
    }
}

/// Right goes one char on, or to the end of the next word with Ctrl; without Shift, from a
/// selection, to its end.
pub proof fn law_right_goes_one_on(s: Session, mods: Mods)
    requires
        s.wf(),
    ensures
        ({
            let t = s.after_key(Key::Right, mods).0;
            &&& only_moves(s, t, mods.shift)
            &&& t.goal is None
            &&& is_boundary(s.text, t.caret)
            &&& if s.caret != s.anchor && !mods.shift {
                t.caret == s.end()
            } else if s.caret == s.text.len() {
                t.caret == s.caret
            } else if mods.ctrl {
                s.caret < t.caret && word_after(s.text, s.caret, t.caret)
            } else {
                s.caret < t.caret && chars(s.text, s.caret, t.caret).len() == 1
            }
        }),
{
    let u = Session { coalescing: false, ..s };
    assert(s.after_key(Key::Right, mods).0 == u.moved(Key::Right, mods));
    law_next_boundary_is_one_char_on(s.text, s.caret);
    law_next_word(s.text, s.caret);
    let target = if s.caret != s.anchor && !mods.shift {
        s.end()
    } else if mods.ctrl {
        crate::text::next_word_of(s.text, s.caret)
    } else {
        next_boundary_of(s.text, s.caret)
    };
    assert(is_boundary(s.text, target));
    law_clamping_finds_the_last_boundary(s.text, target);
}

/// Left goes one char back, or to the start of the word with Ctrl; without Shift, from a
/// selection, to its start.
pub proof fn law_left_goes_one_back(s: Session, mods: Mods)
    requires
        s.wf(),
    ensures
        ({
            let t = s.after_key(Key::Left, mods).0;
            &&& only_moves(s, t, mods.shift)
            &&& t.goal is None
            &&& is_boundary(s.text, t.caret)
            &&& if s.caret != s.anchor && !mods.shift {
                t.caret == s.start()
            } else if s.caret == 0 {
                t.caret == 0
            } else if mods.ctrl {
                t.caret < s.caret && word_before(s.text, s.caret, t.caret)
            } else {
                t.caret < s.caret && chars(s.text, t.caret, s.caret).len() == 1
            }
        }),
{
    let u = Session { coalescing: false, ..s };
    assert(s.after_key(Key::Left, mods).0 == u.moved(Key::Left, mods));
    law_previous_boundary_is_one_char_back(s.text, s.caret);
    law_previous_word(s.text, s.caret);
    let target = if s.caret != s.anchor && !mods.shift {
        s.start()
    } else if mods.ctrl {
        crate::text::prev_word_of(s.text, s.caret)
    } else {
        prev_boundary_of(s.text, s.caret)
    };
    assert(is_boundary(s.text, target));
    law_clamping_finds_the_last_boundary(s.text, target);
}

/// Home goes to where the line starts, behind a newline or at the start of the text, and with
/// Ctrl to the start of the text.
pub proof fn law_home_goes_to_the_start(s: Session, mods: Mods)
    requires
        s.wf(),
    ensures
        ({
            let t = s.after_key(Key::Home, mods).0;
            &&& only_moves(s, t, mods.shift)
            &&& t.goal is None
            &&& 0 <= t.caret <= s.caret
            &&& mods.ctrl ==> t.caret == 0
            &&& t.caret > 0 ==> s.text[t.caret - 1] == NEWLINE
            &&& !mods.ctrl ==> forall|k: int| t.caret <= k < s.caret ==> #[trigger] s.text[k] != NEWLINE
        }),
{
    let u = Session { coalescing: false, ..s };
    assert(s.after_key(Key::Home, mods).0 == u.moved(Key::Home, mods));
    lemma_line_start(s.text, s.caret);
    crate::text::lemma_line_is_bounded(s.text, s.caret);
    lemma_start_is_boundary(s.text);
    law_clamping_finds_the_last_boundary(s.text, line_start_of(s.text, s.caret));
    law_clamping_finds_the_last_boundary(s.text, 0);
}

/// End goes to where the line ends, before a newline or at the end of the text, and with Ctrl
/// to the end of the text.
pub proof fn law_end_goes_to_the_end(s: Session, mods: Mods)
    requires
        s.wf(),
    ensures
        ({
            let t = s.after_key(Key::End, mods).0;
            &&& only_moves(s, t, mods.shift)
            &&& t.goal is None
            &&& s.caret <= t.caret <= s.text.len()
            &&& mods.ctrl ==> t.caret == s.text.len()
            &&& t.caret < s.text.len() ==> s.text[t.caret] == NEWLINE
            &&& !mods.ctrl ==> forall|k: int| s.caret <= k < t.caret ==> #[trigger] s.text[k] != NEWLINE
        }),
{
    let u = Session { coalescing: false, ..s };
    assert(s.after_key(Key::End, mods).0 == u.moved(Key::End, mods));
    lemma_line_end(s.text, s.caret);
    crate::text::lemma_line_is_bounded(s.text, s.caret);
    lemma_start_is_boundary(s.text);
    law_clamping_finds_the_last_boundary(s.text, line_end_of(s.text, s.caret));
    law_clamping_finds_the_last_boundary(s.text, s.text.len() as int);
}

/// How many lines a key goes down, or up if that is negative.
pub open spec fn lines_down(key: Key) -> int {
    match key {
        Key::Up => -1,
        Key::Down => 1,
        Key::PageUp => -20,
        Key::PageDown => 20,
        _ => 0,
    }
}

/// `n` taken no lower than 0 and no higher than `high`.
pub open spec fn within(n: int, high: int) -> int {
    if n < 0 {
        0
    } else if n > high {
        high
    } else {
        n
    }
}

/// Up and Down go one line, PageUp and PageDown twenty, as far as there are lines, to the
/// column that the motion set out from, or to the end of a line that is shorter. The column is
/// remembered for the next such motion.
pub proof fn law_vertical_motion_keeps_the_column(s: Session, key: Key, mods: Mods)
    requires
        s.wf(),
        key is Up || key is Down || key is PageUp || key is PageDown,
    ensures
        ({
            let b = s.text;
            let t = s.after_key(key, mods).0;
            let column = match s.goal {
                Some(c) => c,
                None => chars(b, line_start_of(b, s.caret), s.caret).len(),
            };
            let there = chars(b, line_start_of(b, t.caret), line_end_of(b, t.caret)).len();
            &&& only_moves(s, t, mods.shift)
            &&& is_boundary(b, t.caret)
            &&& t.goal == Some(column)
            &&& line_index_of(b, t.caret) == within(
                line_index_of(b, s.caret) + lines_down(key),
                line_count_of(b) - 1,
            )
            &&& chars(b, line_start_of(b, t.caret), t.caret).len() == if column <= there {
                column
            } else {
                there
            }
        }),
{
    let b = s.text;
    let u = Session { coalescing: false, ..s };
    assert(s.after_key(key, mods).0 == u.line_moved(lines_down(key), mods.shift));
    let line = within(line_index_of(b, s.caret) + lines_down(key), newlines(b) as int);
    let column = match s.goal {
        Some(c) => c,
        None => column_at(b, s.caret),
    };
    law_line_ranges(b, line as nat);
    law_column_is_counted_in_chars(b, line as nat, column);
    let p = column_offset(b, line as nat, column)->0;
    law_line_range_has_its_index(b, line as nat, p);
}

/// Escape drops the selection and leaves the caret, Ctrl+A selects everything with the caret at
/// the end. Neither does anything else.
pub proof fn law_escape_and_select_all(s: Session, mods: Mods, c: char)
    requires
        c == 'a' || c == 'A',
    ensures
        ({
            let t = s.after_key(Key::Escape, mods).0;
            only_moves(s, t, false) && t.caret == s.caret && t.goal == s.goal
        }),
        mods.ctrl ==> s.after_key(Key::Char(c), mods).0 == (Session {
            anchor: 0,
            caret: s.text.len() as int,
            ..s
        }),
{
}

// ---- markers completed by a space -------------------------------------------------------

proof fn lemma_marker_bytes()
    ensures
        lit("*") == seq![STAR],
        lit("+") == seq![PLUS],
        lit("- ") == seq![DASH, SPACE],
        lit("-[]") == seq![DASH, BRACKET_OPEN, BRACKET_CLOSE],
        lit("- []") == seq![DASH, SPACE, BRACKET_OPEN, BRACKET_CLOSE],
        lit("*[]") == seq![STAR, BRACKET_OPEN, BRACKET_CLOSE],
        lit("* []") == seq![STAR, SPACE, BRACKET_OPEN, BRACKET_CLOSE],
        lit("-[x]") == seq![DASH, BRACKET_OPEN, LOWER_X, BRACKET_CLOSE],
        lit("- [x]") == seq![DASH, SPACE, BRACKET_OPEN, LOWER_X, BRACKET_CLOSE],
        lit("- [ ] ") == seq![DASH, SPACE, BRACKET_OPEN, SPACE, BRACKET_CLOSE, SPACE],
        lit("- [x] ") == seq![DASH, SPACE, BRACKET_OPEN, LOWER_X, BRACKET_CLOSE, SPACE],
{
    reveal_strlit("*");
    reveal_strlit("+");
    reveal_strlit("- ");
    reveal_strlit("-[]");
    reveal_strlit("- []");
    reveal_strlit("*[]");
    reveal_strlit("* []");
    reveal_strlit("-[x]");
    reveal_strlit("- [x]");
    reveal_strlit("- [ ] ");
    reveal_strlit("- [x] ");
    is_ascii_chars_encode_utf8("*"@);
    is_ascii_chars_encode_utf8("+"@);
    is_ascii_chars_encode_utf8("- "@);
    is_ascii_chars_encode_utf8("-[]"@);
    is_ascii_chars_encode_utf8("- []"@);
    is_ascii_chars_encode_utf8("*[]"@);
    is_ascii_chars_encode_utf8("* []"@);
    is_ascii_chars_encode_utf8("-[x]"@);
    is_ascii_chars_encode_utf8("- [x]"@);
    is_ascii_chars_encode_utf8("- [ ] "@);
    is_ascii_chars_encode_utf8("- [x] "@);
    assert(lit("*") =~= seq![STAR]);
    assert(lit("+") =~= seq![PLUS]);
    assert(lit("- ") =~= seq![DASH, SPACE]);
    assert(lit("-[]") =~= seq![DASH, BRACKET_OPEN, BRACKET_CLOSE]);
    assert(lit("- []") =~= seq![DASH, SPACE, BRACKET_OPEN, BRACKET_CLOSE]);
    assert(lit("*[]") =~= seq![STAR, BRACKET_OPEN, BRACKET_CLOSE]);
    assert(lit("* []") =~= seq![STAR, SPACE, BRACKET_OPEN, BRACKET_CLOSE]);
    assert(lit("-[x]") =~= seq![DASH, BRACKET_OPEN, LOWER_X, BRACKET_CLOSE]);
    assert(lit("- [x]") =~= seq![DASH, SPACE, BRACKET_OPEN, LOWER_X, BRACKET_CLOSE]);
    assert(lit("- [ ] ") =~= seq![DASH, SPACE, BRACKET_OPEN, SPACE, BRACKET_CLOSE, SPACE]);
    assert(lit("- [x] ") =~= seq![DASH, SPACE, BRACKET_OPEN, LOWER_X, BRACKET_CLOSE, SPACE]);
}

/// A space typed behind a marker that opens a line, past its quote marks and its indent, writes
/// it out: `*` and `+` become a `- ` bullet, and a box typed tight an open or a ticked task.
/// Behind anything else a space is a space.
pub proof fn law_space_writes_a_marker_out(s: Session, mods: Mods)
    requires
        s.wf(),
        s.caret == s.anchor,
    ensures
        ({
            let b = s.text;
            let ls = line_start_of(b, s.caret);
            let before = b.subrange(ls, s.caret);
            let q = quote_len(before);
            let at = ls + q + indent_len(before.subrange(q, before.len() as int));
            let typed = b.subrange(at, s.caret);
            let bullet = typed == seq![STAR] || typed == seq![PLUS];
            let open = typed == seq![DASH, BRACKET_OPEN, BRACKET_CLOSE] || typed == seq![
                DASH,
                SPACE,
                BRACKET_OPEN,
                BRACKET_CLOSE,
            ] || typed == seq![STAR, BRACKET_OPEN, BRACKET_CLOSE] || typed == seq![
                STAR,
                SPACE,
                BRACKET_OPEN,
                BRACKET_CLOSE,
            ];
            let ticked = typed == seq![DASH, BRACKET_OPEN, LOWER_X, BRACKET_CLOSE] || typed == seq![
                DASH,
                SPACE,
                BRACKET_OPEN,
                LOWER_X,
                BRACKET_CLOSE,
            ];
            let (from, with) = if bullet {
                (at, seq![DASH, SPACE])
            } else if open {
                (at, seq![DASH, SPACE, BRACKET_OPEN, SPACE, BRACKET_CLOSE, SPACE])
            } else if ticked {
                (at, seq![DASH, SPACE, BRACKET_OPEN, LOWER_X, BRACKET_CLOSE, SPACE])
            } else {
                (s.caret, seq![SPACE])
            };
            let t = s.after_key(Key::Char(' '), mods).0;
            &&& t.text == put_in(b, from, s.caret, with)
            &&& t.caret == from + with.len()
            &&& t.anchor == t.caret
        }),
{
    let u = s.recorded_for_typing();
    lemma_marker_bytes();
    lemma_typing_grows(s, ' ');
    is_ascii_chars_encode_utf8(seq![' ']);
    assert(encode_utf8(seq![' ']) =~= seq![SPACE]);
    let b = s.text;
    let ls = line_start_of(b, s.caret);
    lemma_line_start(b, s.caret);
    let before = b.subrange(ls, s.caret);
    lemma_quote_len(before);
    lemma_indent_len(tail(before, quote_len(before)));
    assert(s.after_key(Key::Char(' '), mods) == s.edited_into(s.typed(' ')));
    assert(s.typed(' ') == u.typed_in(' '));
    assert(u.token_start() == s.token_start());
    let typed = b.subrange(s.token_start(), s.caret);
    assert(space_rewrite(typed) == space_rewrite(u.text.subrange(u.token_start(), u.caret)));
    assert(u.typed_in(' ').text =~= match space_rewrite(typed) {
        Some(w) => put_in(b, s.token_start(), s.caret, w),
        None => put_in(b, s.caret, s.caret, seq![SPACE]),
    });
}

// ---- emphasis, links, history and view ----------------------------------------------------

/// What a shortcut puts around a selection: Ctrl+B two stars, Ctrl+I one, Ctrl+D two tildes,
/// Ctrl+E and Ctrl with a backtick one backtick.
pub open spec fn shortcut_delimiter(c: char) -> Option<Seq<u8>> {
    if c == 'b' || c == 'B' {
        Some(seq![STAR, STAR])
    } else if c == 'i' || c == 'I' {
        Some(seq![STAR])
    } else if c == 'd' || c == 'D' {
        Some(seq![TILDE, TILDE])
    } else if c == 'e' || c == 'E' || c == '`' {
        Some(seq![BACKTICK])
    } else {
        None
    }
}

/// What a char typed over a selection puts around it.
pub open spec fn typed_delimiter(c: char) -> Option<Seq<u8>> {
    if c == '*' {
        Some(seq![STAR])
    } else if c == '_' {
        Some(seq![UNDERSCORE])
    } else if c == '`' {
        Some(seq![BACKTICK])
    } else if c == '~' {
        Some(seq![TILDE, TILDE])
    } else {
        None
    }
}

proof fn lemma_delimiter_bytes()
    ensures
        lit("**") == seq![STAR, STAR],
        lit("*") == seq![STAR],
        lit("_") == seq![UNDERSCORE],
        lit("`") == seq![BACKTICK],
        lit("~~") == seq![TILDE, TILDE],
        lit("[") == seq![BRACKET_OPEN],
        lit("]()") == seq![BRACKET_CLOSE, PAREN_OPEN, PAREN_CLOSE],
        lit("  ") == seq![SPACE, SPACE],
{
    reveal_strlit("**");
    reveal_strlit("*");
    reveal_strlit("_");
    reveal_strlit("`");
    reveal_strlit("~~");
    reveal_strlit("[");
    reveal_strlit("]()");
    reveal_strlit("  ");
    is_ascii_chars_encode_utf8("**"@);
    is_ascii_chars_encode_utf8("*"@);
    is_ascii_chars_encode_utf8("_"@);
    is_ascii_chars_encode_utf8("`"@);
    is_ascii_chars_encode_utf8("~~"@);
    is_ascii_chars_encode_utf8("["@);
    is_ascii_chars_encode_utf8("]()"@);
    is_ascii_chars_encode_utf8("  "@);
    assert(lit("**") =~= seq![STAR, STAR]);
    assert(lit("*") =~= seq![STAR]);
    assert(lit("_") =~= seq![UNDERSCORE]);
    assert(lit("`") =~= seq![BACKTICK]);
    assert(lit("~~") =~= seq![TILDE, TILDE]);
    assert(lit("[") =~= seq![BRACKET_OPEN]);
    assert(lit("]()") =~= seq![BRACKET_CLOSE, PAREN_OPEN, PAREN_CLOSE]);
    assert(lit("  ") =~= seq![SPACE, SPACE]);
}

/// `t` is `s` with a delimiter on both sides of the selection, which stays selected; with
/// nothing selected the caret stands between the two.
pub open spec fn wraps(s: Session, t: Session, d: Seq<u8>) -> bool {
    let selected = s.text.subrange(s.start(), s.end());
    &&& t.text == put_in(s.text, s.start(), s.end(), d + selected + d)
    &&& t.anchor == s.start() + d.len()
    &&& t.caret == s.end() + d.len()
}

proof fn lemma_wraps(s: Session, d: Seq<u8>)
    requires
        s.wf(),
    ensures
        wraps(s, s.wrapped_or_paired(d), d),
        s.caret != s.anchor ==> s.wrapped_or_paired(d) == s.wrapped(d),
{
    if s.caret == s.anchor {
        assert(d + s.text.subrange(s.caret, s.caret) + d =~= d + d);
    }
}

/// The shortcuts of emphasis put their delimiter around what is selected.
pub proof fn law_shortcut_wraps_the_selection(s: Session, c: char, mods: Mods)
    requires
        s.wf(),
        mods.ctrl,
        shortcut_delimiter(c) is Some,
    ensures
        wraps(s, s.after_key(Key::Char(c), mods).0, shortcut_delimiter(c)->0),
        s.after_key(Key::Char(c), mods).1.changed,
{
    lemma_delimiter_bytes();
    let d = shortcut_delimiter(c)->0;
    lemma_wraps(s, d);
    let t = s.wrapped_or_paired(d);
    assert(t.text.len() > s.text.len());
    assert(s.after_key(Key::Char(c), mods) == s.edited_into(t));
}

/// A char of emphasis typed over a selection goes around it.
pub proof fn law_typed_delimiter_wraps_the_selection(s: Session, c: char)
    requires
        s.wf(),
        s.caret != s.anchor,
        typed_delimiter(c) is Some,
    ensures
        wraps(s, s.after_key(Key::Char(c), no_mods()).0, typed_delimiter(c)->0),
        s.after_key(Key::Char(c), no_mods()).1.changed,
{
    lemma_delimiter_bytes();
    let d = typed_delimiter(c)->0;
    lemma_wraps(s, d);
    let t = s.wrapped(d);
    assert(t.text.len() > s.text.len());
    assert(s.typed(c) == t);
    assert(s.after_key(Key::Char(c), no_mods()) == s.edited_into(t));
}

/// Ctrl+K, or a `[` typed over a selection, makes the selection the label of a link, and leaves
/// the caret where its target goes.
pub proof fn law_link_takes_the_selection_for_its_label(s: Session, c: char, mods: Mods)
    requires
        s.wf(),
        (mods.ctrl && (c == 'k' || c == 'K')) || (!mods.ctrl && c == '[' && s.caret != s.anchor),
    ensures
        ({
            let (t, r) = s.after_key(Key::Char(c), mods);
            let label = s.text.subrange(s.start(), s.end());
            &&& r.changed
            &&& t.text == put_in(
                s.text,
                s.start(),
                s.end(),
                seq![BRACKET_OPEN] + label + seq![BRACKET_CLOSE, PAREN_OPEN, PAREN_CLOSE],
            )
            &&& t.caret == s.end() + 3
            &&& t.anchor == t.caret
        }),
{
    lemma_delimiter_bytes();
    let t = s.linked();
    assert(t.text.len() > s.text.len());
    assert(s.after_key(Key::Char(c), mods) == s.edited_into(t));
}

/// Ctrl+Z goes one document back in the history, and what was there can be had again; Ctrl+Y,
/// and Ctrl+Shift+Z, one forth. Where there is none nothing happens.
pub proof fn law_history_keys_go_back_and_forth(s: Session, c: char, mods: Mods)
    requires
        mods.ctrl,
        c == 'z' || c == 'Z' || c == 'y' || c == 'Y',
    ensures
        ({
            let t = s.after_key(Key::Char(c), mods).0;
            let back = (c == 'z' || c == 'Z') && !mods.shift;
            if back && s.undo.len() > 0 {
                &&& t.snap() == s.undo.last()
                &&& t.undo == s.undo.drop_last()
                &&& t.redo == s.redo.push(s.snap())
            } else if !back && s.redo.len() > 0 {
                &&& t.snap() == s.redo.last()
                &&& t.redo == s.redo.drop_last()
                &&& t.undo == s.undo.push(s.snap())
            } else {
                t == s
            }
        }),
{
}

/// Ctrl+/ shows the source or the formatted text, whichever is not shown, and Ctrl+T takes the
/// next theme: auto, light, dark and auto again. Nothing else changes.
pub proof fn law_view_shortcuts(s: Session, c: char, mods: Mods)
    requires
        mods.ctrl,
    ensures
        c == '/' ==> s.after_key(Key::Char(c), mods).0 == (Session {
            mode: if s.mode == ViewMode::Raw {
                ViewMode::Wysiwyg
            } else {
                ViewMode::Raw
            },
            ..s
        }),
        c == 't' || c == 'T' ==> s.after_key(Key::Char(c), mods).0 == (Session {
            theme: match s.theme {
                Theme::Auto => Theme::Light,
                Theme::Light => Theme::Dark,
                Theme::Dark => Theme::Auto,
            },
            ..s
        }),
{
}

/// Ctrl+O opens, Ctrl+S saves, and Ctrl+Shift+S saves under another name.
pub proof fn law_command_shortcuts(s: Session, c: char, mods: Mods)
    requires
        mods.ctrl,
    ensures
        c == 'o' || c == 'O' ==> s.after_key(Key::Char(c), mods).1.command == Some(Command::Open),
        (c == 's' || c == 'S') && !mods.shift ==> s.after_key(Key::Char(c), mods).1.command == Some(
            Command::Save,
        ),
        (c == 's' || c == 'S') && mods.shift ==> s.after_key(Key::Char(c), mods).1.command == Some(
            Command::SaveAs,
        ),
{
}

/// What a key press comes to.
#[verifier::opaque]
pub open spec fn outcome_of(s: Session, key: Key, mods: Mods) -> (Session, KeyResult) {
    s.after_key(key, mods)
}

/// The list around the caret renumbered.
#[verifier::opaque]
pub open spec fn list_renumbered(s: Session) -> Session {
    s.renumbered()
}

// ---- Tab --------------------------------------------------------------------------------

/// What Tab does on a line that is no list item.
proof fn lemma_tab_on_text(s: Session, mods: Mods)
    requires
        ({
            let line = line_of(s.text, s.caret);
            list_marker_of(tail(line, quote_len(line))) is None
        }),
    ensures
        ({
            let u = Session { coalescing: false, ..s };
            let line = line_of(s.text, s.caret);
            let run = space_run(tail(line, quote_len(line)));
            outcome_of(s, Key::Tab, mods) == if !mods.shift {
                u.edited_into(u.insert(lit("  ")))
            } else if run == 0 {
                (u, moved_result())
            } else {
                u.edited_into(
                    u.recorded().line_moved_out(
                        if run < 2 {
                            1
                        } else {
                            2
                        },
                    ),
                )
            }
        }),
{
    reveal(outcome_of);
}

/// What Tab does on a list item.
proof fn lemma_tab_on_item(s: Session, mods: Mods)
    requires
        ({
            let line = line_of(s.text, s.caret);
            list_marker_of(tail(line, quote_len(line))) is Some
        }),
    ensures
        ({
            let u = Session { coalescing: false, ..s };
            let t = list_renumbered(u.recorded().item_shifted(mods.shift));
            outcome_of(s, Key::Tab, mods) == if t.text == s.text {
                (u, moved_result())
            } else {
                (t, edited_result())
            }
        }),
{
    reveal(outcome_of);
    reveal(list_renumbered);
}

proof fn lemma_two_spaces(s: Session)
    requires
        s.wf(),
    ensures
        ({
            let t = s.insert(lit("  "));
            &&& t.text == put_in(s.text, s.start(), s.end(), seq![SPACE, SPACE])
            &&& t.caret == s.start() + 2
            &&& t.anchor == t.caret
        }),
{
    lemma_delimiter_bytes();
    crate::session::lemma_recorded(s);
    lemma_cut(s.recorded());
    assert(s.insert(lit("  ")).text =~= put_in(s.text, s.start(), s.end(), seq![SPACE, SPACE]));
}

/// Tab on a line that is no list item puts two spaces in place of what is selected.
pub proof fn law_tab_puts_two_spaces_in(s: Session, mods: Mods)
    requires
        s.wf(),
        !mods.shift,
        ({
            let line = line_of(s.text, s.caret);
            list_marker_of(tail(line, quote_len(line))) is None
        }),
    ensures
        ({
            let t = outcome_of(s, Key::Tab, mods).0;
            &&& t.text == put_in(s.text, s.start(), s.end(), seq![SPACE, SPACE])
            &&& t.caret == s.start() + 2
            &&& t.anchor == t.caret
        }),
{
    let u = Session { coalescing: false, ..s };
    lemma_tab_on_text(s, mods);
    lemma_two_spaces(u);
}

/// Shift+Tab on a line that is no list item takes away up to two of the spaces behind its quote
/// marks, and the caret goes along, though not off its line.
pub proof fn law_shift_tab_takes_spaces_away(s: Session, mods: Mods)
    requires
        s.wf(),
        mods.shift,
        ({
            let line = line_of(s.text, s.caret);
            list_marker_of(tail(line, quote_len(line))) is None
        }),
    ensures
        ({
            let b = s.text;
            let t = outcome_of(s, Key::Tab, mods).0;
            let ls = line_start_of(b, s.caret);
            let le = line_end_of(b, s.caret);
            let at = ls + quote_len(b.subrange(ls, le));
            let n = b.len() - t.text.len();
            &&& 0 <= n <= 2
            &&& at + n <= le
            &&& t.text == put_in(b, at, at + n, Seq::empty())
            &&& forall|k: int| at <= k < at + n ==> #[trigger] b[k] == SPACE
            &&& n < 2 ==> at + n == le || b[at + n] != SPACE
            &&& n > 0 ==> t.anchor == t.caret && t.caret == if s.caret - n < ls {
                ls
            } else {
                s.caret - n
            }
            &&& n == 0 ==> t.caret == s.caret && t.anchor == s.anchor
        }),
{
    let b = s.text;
    let u = Session { coalescing: false, ..s };
    let ls = line_start_of(b, s.caret);
    let le = line_end_of(b, s.caret);
    lemma_line_start(b, s.caret);
    lemma_line_end(b, s.caret);
    let line = line_of(b, s.caret);
    let q = quote_len(line);
    lemma_quote_len(line);
    let body = tail(line, q);
    lemma_space_run(body);
    let run = space_run(body);
    let n = if run == 0 {
        0int
    } else if run < 2 {
        1
    } else {
        2
    };
    let at = ls + q;
    assert forall|k: int| at <= k < at + n implies #[trigger] b[k] == SPACE by {
        assert(body[k - at] == b[k]);
    }
    if at + n < le {
        assert(body[n] == b[at + n]);
    }
    lemma_tab_on_text(s, mods);
    if n == 0 {
        assert(put_in(b, at, at, Seq::empty()) =~= b);
    } else {
        let t = u.recorded().line_moved_out(n);
        assert(t.text == put_in(b, at, at + n, Seq::empty()));
        assert(t.text.len() == b.len() - n);
    }
}

/// A list item moved in or out, spelled out.
proof fn lemma_shifted(s: Session, outdent: bool)
    requires
        0 <= s.caret <= s.text.len(),
    ensures
        ({
            let b = s.text;
            let ls = line_start_of(b, s.caret);
            let line = line_of(b, s.caret);
            let at = ls + quote_len(line);
            let old = indent_len(tail(line, quote_len(line)));
            let new = tab_indent(old, outdent);
            let caret = if s.caret + new - old < ls {
                ls
            } else {
                s.caret + new - old
            };
            s.item_shifted(outdent) == (Session {
                text: put_in(b, at, at + old, Seq::new(new as nat, |i: int| SPACE)),
                caret,
                anchor: caret,
                dirty: true,
                ..s
            })
        }),
{
    let b = s.text;
    let ls = line_start_of(b, s.caret);
    lemma_line_start(b, s.caret);
    lemma_line_end(b, s.caret);
    let line = line_of(b, s.caret);
    let q = quote_len(line);
    lemma_quote_len(line);
    lemma_indent_len(tail(line, q));
    let old = indent_len(tail(line, q));
    let new = tab_indent(old, outdent);
    assert(s.item_shifted(outdent).text =~= put_in(
        b,
        ls + q,
        ls + q + old,
        Seq::new(new as nat, |i: int| SPACE),
    ));
}

/// Tab moves a list item in by two and Shift+Tab out by two, or to the margin: behind its quote
/// marks stand that many spaces in place of its indent, all else is as it was, and the caret
/// goes along. Then the list is renumbered.
pub proof fn law_tab_changes_the_indent_only(s: Session, mods: Mods)
    requires
        s.wf(),
        ({
            let line = line_of(s.text, s.caret);
            list_marker_of(tail(line, quote_len(line))) is Some
        }),
    ensures
        ({
            let b = s.text;
            let ls = line_start_of(b, s.caret);
            let line = line_of(b, s.caret);
            let at = ls + quote_len(line);
            let old = indent_len(tail(line, quote_len(line)));
            let new = if !mods.shift {
                old + 2
            } else if old < 2 {
                0
            } else {
                old - 2
            };
            let caret = if s.caret + new - old < ls {
                ls
            } else {
                s.caret + new - old
            };
            let mid = list_renumbered(
                Session {
                    text: put_in(b, at, at + old, Seq::new(new as nat, |i: int| SPACE)),
                    caret,
                    anchor: caret,
                    dirty: true,
                    ..(Session { coalescing: false, ..s }).recorded()
                },
            );
            outcome_of(s, Key::Tab, mods).0 == if mid.text == b {
                Session { coalescing: false, ..s }
            } else {
                mid
            }
        }),
{
    lemma_line_start(s.text, s.caret);
    lemma_line_end(s.text, s.caret);
    let line = line_of(s.text, s.caret);
    lemma_quote_len(line);
    lemma_indent_len(tail(line, quote_len(line)));
    lemma_tab_on_item(s, mods);
    lemma_shifted((Session { coalescing: false, ..s }).recorded(), mods.shift);
}

// ---- Enter ------------------------------------------------------------------------------

/// A text with the selection gone, where the caret then is, and the line around it.
pub open spec fn cut_text(s: Session) -> Seq<u8> {
    put_in(s.text, s.start(), s.end(), Seq::empty())
}

/// The session that Enter works on.
#[verifier::opaque]
pub open spec fn cut_session(s: Session) -> Session {
    (Session { coalescing: false, ..s }).recorded().without_selection()
}

proof fn lemma_cut_session(s: Session)
    requires
        s.wf(),
    ensures
        cut_session(s).text == cut_text(s),
        cut_session(s).caret == s.start(),
        cut_session(s).anchor == s.start(),
        cut_session(s).wf(),
        valid_utf8(line_of(cut_text(s), s.start())),
{
    reveal(cut_session);
    let v = Session { coalescing: false, ..s };
    crate::session::lemma_recorded(v);
    lemma_cut(v.recorded());
    crate::session::lemma_without_selection(v.recorded());
    crate::typing::lemma_line(cut_text(s), s.start());
}

/// A session with a line broken, as Enter leaves it.
spec fn after_enter(u: Session) -> Session {
    let ls = line_start_of(u.text, u.caret);
    let le = line_end_of(u.text, u.caret);
    let line = line_of(u.text, u.caret);
    let q = quote_len(line);
    if in_code(u.text, u.caret) {
        u.broken(Seq::empty())
    } else if u.on_open_fence() {
        let i = first_ink(line);
        u.put(u.caret, u.caret, lit("\n\n") + line.subrange(i, i + 3), u.caret + 1)
    } else {
        match list_marker_of(tail(line, q)) {
            Some((len, kind)) => item_entered(u, len, kind),
            None => if quote_depth(line) > 0 {
                if all_white(tail(line, q)) {
                    u.put(ls, le, Seq::empty(), ls)
                } else {
                    u.broken(line.subrange(0, q))
                }
            } else if all_white(line) || u.blank_follows() {
                u.broken(Seq::empty())
            } else {
                u.broken(seq![NEWLINE])
            },
        }
    }
}

/// Enter on a list item.
#[verifier::opaque]
spec fn item_entered(u: Session, len: int, kind: BlockKind) -> Session {
    u.entered_item(len, kind)
}

/// What Enter does, by the session with the selection gone.
proof fn lemma_enter(s: Session, mods: Mods)
    ensures
        outcome_of(s, Key::Enter, mods) == (Session { coalescing: false, ..s }).edited_into(
            after_enter(cut_session(s)),
        ),
{
    reveal(outcome_of);
    reveal(cut_session);
    reveal(item_entered);
}

/// Inside a code block Enter is a line break, and so it is on a blank line and where a blank
/// line follows already. Anywhere else in plain text it is two, so that a blank line stands
/// between the paragraphs; and so it is on a fence, unless the caret stands at its end and it
/// opens a code block that nothing closes.
pub proof fn law_enter_breaks_the_line(s: Session, mods: Mods)
    requires
        s.wf(),
        ({
            let b = cut_text(s);
            let line = line_of(b, s.start());
            let lines = lines_of(b);
            let k = line_index_of(b, s.start()) as int;
            in_code(b, s.start()) || {
                &&& quote_len(line) == 0
                &&& list_marker_of(line) is None
                &&& !fence_line(line) || s.start() != line_end_of(b, s.start()) || inside_fence(
                    lines,
                    k,
                ) || exists|i: int| k < i < lines.len() && fence_line(#[trigger] lines[i])
            }
        }),
    ensures
        ({
            let b = cut_text(s);
            let p = s.start();
            let line = line_of(b, p);
            let one = in_code(b, p) || all_white(line) || (p + 2 <= b.len() && b[p] == NEWLINE
                && b[p + 1] == NEWLINE);
            let with = if one {
                seq![NEWLINE]
            } else {
                seq![NEWLINE, NEWLINE]
            };
            let (t, r) = outcome_of(s, Key::Enter, mods);
            &&& t.text == put_in(b, p, p, with)
            &&& t.caret == p + with.len()
            &&& t.anchor == t.caret
        }),
{
    let b = cut_text(s);
    let p = s.start();
    let u = cut_session(s);
    lemma_cut_session(s);
    lemma_enter(s, mods);
    let line = line_of(b, p);
    lemma_quote_len(line);
    assert(tail(line, 0) =~= line);
    assert(seq![NEWLINE] + Seq::<u8>::empty() =~= seq![NEWLINE]);
    assert(seq![NEWLINE] + seq![NEWLINE] =~= seq![NEWLINE, NEWLINE]);
    let one = in_code(b, p) || all_white(line) || u.blank_follows();
    assert(in_code(b, p) || !u.on_open_fence());
    assert(after_enter(u) == u.broken(
        if one {
            Seq::empty()
        } else {
            seq![NEWLINE]
        },
    ));
}

/// Enter at the end of a line that opens a code block, with no fence below it, puts the same
/// fence below, and the caret on the blank line between the two.
pub proof fn law_enter_puts_the_closing_fence(s: Session, mods: Mods)
    requires
        s.wf(),
        ({
            let b = cut_text(s);
            let lines = lines_of(b);
            let k = line_index_of(b, s.start()) as int;
            &&& fence_line(line_of(b, s.start()))
            &&& s.start() == line_end_of(b, s.start())
            &&& !inside_fence(lines, k)
            &&& forall|i: int| k < i < lines.len() ==> !fence_line(#[trigger] lines[i])
        }),
    ensures
        ({
            let b = cut_text(s);
            let p = s.start();
            let line = line_of(b, p);
            let i = first_ink(line);
            let t = outcome_of(s, Key::Enter, mods).0;
            &&& t.text == put_in(b, p, p, seq![NEWLINE, NEWLINE, line[i], line[i], line[i]])
            &&& t.caret == p + 1
            &&& t.anchor == t.caret
        }),
{
    let b = cut_text(s);
    let p = s.start();
    let u = cut_session(s);
    lemma_cut_session(s);
    lemma_enter(s, mods);
    let line = line_of(b, p);
    let i = first_ink(line);
    lemma_start_is_boundary(line);
    lemma_skip_forward(line, 0, true);
    reveal_strlit("\n\n");
    is_ascii_chars_encode_utf8("\n\n"@);
    let with = lit("\n\n") + line.subrange(i, i + 3);
    assert(with =~= seq![NEWLINE, NEWLINE, line[i], line[i], line[i]]);
    assert(u.on_open_fence());
    assert(!in_code(b, p));
    assert(after_enter(u) == u.put(p, p, with, p + 1));
}

/// Enter in a quote, on a line that is no list item, goes on with the same quote marks on the
/// next line; on a line of nothing else it takes them away.
pub proof fn law_enter_carries_quote_marks_on(s: Session, mods: Mods)
    requires
        s.wf(),
        ({
            let b = cut_text(s);
            let line = line_of(b, s.start());
            &&& !in_code(b, s.start())
            &&& !fence_line(line)
            &&& quote_len(line) > 0
            &&& list_marker_of(tail(line, quote_len(line))) is None
        }),
    ensures
        ({
            let b = cut_text(s);
            let p = s.start();
            let ls = line_start_of(b, p);
            let le = line_end_of(b, p);
            let q = quote_len(b.subrange(ls, le));
            let t = outcome_of(s, Key::Enter, mods).0;
            &&& t.anchor == t.caret
            &&& if all_white(b.subrange(ls + q, le)) {
                &&& t.text == put_in(b, ls, le, Seq::empty())
                &&& t.caret == ls
            } else {
                &&& t.text == put_in(b, p, p, seq![NEWLINE] + b.subrange(ls, ls + q))
                &&& t.caret == p + 1 + q
            }
        }),
{
    let b = cut_text(s);
    let p = s.start();
    let u = cut_session(s);
    lemma_cut_session(s);
    lemma_enter(s, mods);
    let ls = line_start_of(b, p);
    let le = line_end_of(b, p);
    lemma_line_start(b, p);
    lemma_line_end(b, p);
    let line = line_of(b, p);
    let q = quote_len(line);
    lemma_quote_len(line);
    assert(tail(line, q) =~= b.subrange(ls + q, le));
    assert(line.subrange(0, q) =~= b.subrange(ls, ls + q));
    assert(after_enter(u) == if all_white(tail(line, q)) {
        u.put(ls, le, Seq::empty(), ls)
    } else {
        u.broken(line.subrange(0, q))
    });
}

/// An empty item, as Enter leaves it.
proof fn lemma_item_left(u: Session, len: int, kind: BlockKind)
    requires
        0 <= u.caret <= u.text.len(),
        ({
            let line = line_of(u.text, u.caret);
            let q = quote_len(line);
            &&& list_marker_of(tail(line, q)) == Some((len, kind))
            &&& all_white(tail(line, q + len))
            &&& u.caret >= line_start_of(u.text, u.caret) + q + len
        }),
    ensures
        ({
            let b = u.text;
            let ls = line_start_of(b, u.caret);
            let le = line_end_of(b, u.caret);
            let line = line_of(b, u.caret);
            let q = quote_len(line);
            let w = indent_len(tail(line, q));
            let n = (kind.indent_spec() - 2) as nat;
            let left = b.subrange(ls, ls + q);
            item_entered(u, len, kind) == if kind.indent_spec() < 2 {
                Session {
                    text: put_in(b, ls, le, left),
                    caret: ls + q,
                    anchor: ls + q,
                    dirty: true,
                    ..u
                }
            } else {
                list_renumbered(
                    Session {
                        text: put_in(b, ls + q, ls + q + w, Seq::new(n, |i: int| SPACE)),
                        caret: le - w + n,
                        anchor: le - w + n,
                        dirty: true,
                        ..u
                    },
                )
            }
        }),
{
    let ls = line_start_of(u.text, u.caret);
    let le = line_end_of(u.text, u.caret);
    let line = line_of(u.text, u.caret);
    let q = quote_len(line);
    lemma_line_start(u.text, u.caret);
    lemma_line_end(u.text, u.caret);
    lemma_quote_len(line);
    assert(line.subrange(0, q) =~= u.text.subrange(ls, ls + q));
    if kind.indent_spec() < 2 {
        assert(u.entered_item(len, kind) == u.put(ls, le, line.subrange(0, q), ls + q)) by {
            lemma_kept_marks(u, len, kind);
        }
        reveal(item_entered);
    } else {
        lemma_moved_out(u, len, kind);
    }
}

proof fn lemma_kept_marks(u: Session, len: int, kind: BlockKind)
    requires
        kind.indent_spec() < 2,
        ({
            let line = line_of(u.text, u.caret);
            let q = quote_len(line);
            &&& all_white(tail(line, q + len))
            &&& u.caret >= line_start_of(u.text, u.caret) + q + len
        }),
    ensures
        ({
            let ls = line_start_of(u.text, u.caret);
            let line = line_of(u.text, u.caret);
            let q = quote_len(line);
            u.entered_item(len, kind) == u.put(
                ls,
                line_end_of(u.text, u.caret),
                line.subrange(0, q),
                ls + q,
            )
        }),
{
}

proof fn lemma_moved_out(u: Session, len: int, kind: BlockKind)
    requires
        0 <= u.caret <= u.text.len(),
        kind.indent_spec() >= 2,
        ({
            let line = line_of(u.text, u.caret);
            let q = quote_len(line);
            &&& all_white(tail(line, q + len))
            &&& u.caret >= line_start_of(u.text, u.caret) + q + len
        }),
    ensures
        ({
            let b = u.text;
            let ls = line_start_of(b, u.caret);
            let le = line_end_of(b, u.caret);
            let line = line_of(b, u.caret);
            let q = quote_len(line);
            let w = indent_len(tail(line, q));
            let n = (kind.indent_spec() - 2) as nat;
            item_entered(u, len, kind) == list_renumbered(
                Session {
                    text: put_in(b, ls + q, ls + q + w, Seq::new(n, |i: int| SPACE)),
                    caret: le - w + n,
                    anchor: le - w + n,
                    dirty: true,
                    ..u
                },
            )
        }),
{
    let line = line_of(u.text, u.caret);
    let ls = line_start_of(u.text, u.caret);
    let le = line_end_of(u.text, u.caret);
    let n = (kind.indent_spec() - 2) as nat;
    let rebuilt = reindented(line, n);
    let t = u.put(ls, le, rebuilt, ls + rebuilt.len());
    lemma_rebuilt(u, n);
    lemma_item_renumbered(u, len, kind, t);
}

/// The line with another indent.
proof fn lemma_rebuilt(u: Session, n: nat)
    requires
        0 <= u.caret <= u.text.len(),
    ensures
        ({
            let b = u.text;
            let ls = line_start_of(b, u.caret);
            let le = line_end_of(b, u.caret);
            let line = line_of(b, u.caret);
            let q = quote_len(line);
            let w = indent_len(tail(line, q));
            let rebuilt = reindented(line, n);
            u.put(ls, le, rebuilt, ls + rebuilt.len()) == (Session {
                text: put_in(b, ls + q, ls + q + w, Seq::new(n, |i: int| SPACE)),
                caret: le - w + n,
                anchor: le - w + n,
                dirty: true,
                ..u
            })
        }),
{
    let b = u.text;
    let ls = line_start_of(b, u.caret);
    let le = line_end_of(b, u.caret);
    lemma_line_start(b, u.caret);
    lemma_line_end(b, u.caret);
    let line = line_of(b, u.caret);
    let q = quote_len(line);
    lemma_quote_len(line);
    lemma_indent_len(tail(line, q));
    let w = indent_len(tail(line, q));
    assert(spliced(b, ls, le, reindented(line, n)) =~= put_in(
        b,
        ls + q,
        ls + q + w,
        Seq::new(n, |i: int| SPACE),
    ));
}

#[verifier::rlimit(40)]
proof fn lemma_item_renumbered(u: Session, len: int, kind: BlockKind, t: Session)
    requires
        ({
            let line = line_of(u.text, u.caret);
            let q = quote_len(line);
            let ls = line_start_of(u.text, u.caret);
            let le = line_end_of(u.text, u.caret);
            let rebuilt = reindented(line, (kind.indent_spec() - 2) as nat);
            ||| {
                &&& kind.indent_spec() >= 2
                &&& all_white(tail(line, q + len))
                &&& u.caret >= ls + q + len
                &&& t == u.put(ls, le, rebuilt, ls + rebuilt.len())
            }
            ||| {
                &&& !(all_white(tail(line, q + len)) && u.caret >= ls + q + len)
                &&& t == u.broken(line.subrange(0, q) + continuation(tail(line, q), kind))
            }
        }),
    ensures
        item_entered(u, len, kind) == list_renumbered(t),
{
    reveal(item_entered);
    reveal(list_renumbered);
}

/// Any other item, as Enter leaves it.
proof fn lemma_item_continued(u: Session, len: int, kind: BlockKind)
    requires
        0 <= u.caret <= u.text.len(),
        ({
            let line = line_of(u.text, u.caret);
            let q = quote_len(line);
            &&& list_marker_of(tail(line, q)) == Some((len, kind))
            &&& !(all_white(tail(line, q + len)) && u.caret >= line_start_of(u.text, u.caret) + q
                + len)
        }),
    ensures
        ({
            let b = u.text;
            let ls = line_start_of(b, u.caret);
            let line = line_of(b, u.caret);
            let q = quote_len(line);
            let with = seq![NEWLINE] + b.subrange(ls, ls + q) + next_marker(tail(line, q), kind);
            item_entered(u, len, kind) == list_renumbered(
                Session {
                    text: put_in(b, u.caret, u.caret, with),
                    caret: u.caret + with.len(),
                    anchor: u.caret + with.len(),
                    goal: None,
                    dirty: true,
                    ..u
                },
            )
        }),
{
    let b = u.text;
    let ls = line_start_of(b, u.caret);
    lemma_line_start(b, u.caret);
    lemma_line_end(b, u.caret);
    let line = line_of(b, u.caret);
    let q = quote_len(line);
    lemma_quote_len(line);
    let body = tail(line, q);
    assert(line.subrange(0, q) =~= b.subrange(ls, ls + q));
    reveal_strlit(" [ ] ");
    reveal_strlit(" ");
    is_ascii_chars_encode_utf8(" [ ] "@);
    is_ascii_chars_encode_utf8(" "@);
    assert(lit(" [ ] ") =~= seq![SPACE, BRACKET_OPEN, SPACE, BRACKET_CLOSE, SPACE]);
    assert(lit(" ") =~= seq![SPACE]);
    assert(continuation(body, kind) =~= next_marker(body, kind));
    let prefix = line.subrange(0, q) + continuation(body, kind);
    let with = seq![NEWLINE] + b.subrange(ls, ls + q) + next_marker(body, kind);
    assert(seq![NEWLINE] + prefix =~= with);
    lemma_item_renumbered(u, len, kind, u.broken(prefix));
}

/// Enter on a list item with nothing in it ends the list: of the line only its quote marks
/// stay. A nested one moves out by two instead.
pub proof fn law_enter_on_an_empty_item(s: Session, mods: Mods)
    requires
        s.wf(),
        ({
            let b = cut_text(s);
            let line = line_of(b, s.start());
            let q = quote_len(line);
            &&& !in_code(b, s.start())
            &&& !fence_line(line)
            &&& list_marker_of(tail(line, q)) matches Some((len, _)) && {
                &&& all_white(tail(line, q + len))
                &&& s.start() >= line_start_of(b, s.start()) + q + len
            }
        }),
    ensures
        ({
            let b = cut_text(s);
            let p = s.start();
            let ls = line_start_of(b, p);
            let le = line_end_of(b, p);
            let line = line_of(b, p);
            let q = quote_len(line);
            let w = indent_len(tail(line, q));
            let indent = (list_marker_of(tail(line, q))->0).1.indent_spec();
            let n = (indent - 2) as nat;
            let (t, r) = outcome_of(s, Key::Enter, mods);
            if indent < 2 {
                &&& t.text == put_in(b, ls, le, b.subrange(ls, ls + q))
                &&& t.caret == ls + q
                &&& t.anchor == t.caret
            } else {
                (t, r) == (Session { coalescing: false, ..s }).edited_into(
                    list_renumbered(
                        Session {
                            text: put_in(b, ls + q, ls + q + w, Seq::new(n, |i: int| SPACE)),
                            caret: le - w + n,
                            anchor: le - w + n,
                            dirty: true,
                            ..cut_session(s)
                        },
                    ),
                )
            }
        }),
{
    let u = cut_session(s);
    lemma_cut_session(s);
    lemma_enter(s, mods);
    let line = line_of(u.text, u.caret);
    let (len, kind) = list_marker_of(tail(line, quote_len(line)))->0;
    lemma_item_left(u, len, kind);
    assert(after_enter(u) == item_entered(u, len, kind));
}

/// The marker of the item that comes after another: the same indent in spaces, the same bullet
/// or the next number with the same separator, and an open box if there is a box.
pub open spec fn next_marker(body: Seq<u8>, kind: BlockKind) -> Seq<u8> {
    let w = indent_len(body);
    let ends = if kind.checked_spec() is Some {
        seq![SPACE, BRACKET_OPEN, SPACE, BRACKET_CLOSE, SPACE]
    } else {
        seq![SPACE]
    };
    let indent = Seq::new(kind.indent_spec() as nat, |i: int| SPACE);
    match kind {
        BlockKind::Numbered { number, .. } => {
            let digits = digit_run(tail(body, w));
            indent + decimal((number + 1) as nat) + seq![body[w + digits]] + ends
        },
        BlockKind::Bullet { .. } => indent + seq![body[w]] + ends,
        _ => Seq::empty(),
    }
}

/// Enter on any other list item starts the next one below it: what stands behind the caret goes
/// there, behind the same quote marks and the next marker. Then the list is renumbered.
pub proof fn law_enter_starts_the_next_item(s: Session, mods: Mods)
    requires
        s.wf(),
        ({
            let b = cut_text(s);
            let line = line_of(b, s.start());
            let q = quote_len(line);
            &&& !in_code(b, s.start())
            &&& !fence_line(line)
            &&& list_marker_of(tail(line, q)) matches Some((len, _)) && !(all_white(
                tail(line, q + len),
            ) && s.start() >= line_start_of(b, s.start()) + q + len)
        }),
    ensures
        ({
            let b = cut_text(s);
            let p = s.start();
            let ls = line_start_of(b, p);
            let line = line_of(b, p);
            let q = quote_len(line);
            let body = tail(line, q);
            let with = seq![NEWLINE] + b.subrange(ls, ls + q) + next_marker(
                body,
                (list_marker_of(body)->0).1,
            );
            outcome_of(s, Key::Enter, mods) == (Session { coalescing: false, ..s }).edited_into(
                list_renumbered(
                    Session {
                        text: put_in(b, p, p, with),
                        caret: p + with.len(),
                        anchor: p + with.len(),
                        goal: None,
                        dirty: true,
                        ..cut_session(s)
                    },
                ),
            )
        }),
{
    let u = cut_session(s);
    lemma_cut_session(s);
    lemma_enter(s, mods);
    let line = line_of(u.text, u.caret);
    let (len, kind) = list_marker_of(tail(line, quote_len(line)))->0;
    lemma_item_continued(u, len, kind);
    assert(after_enter(u) == item_entered(u, len, kind));
}

} // verus!
