//! What typing does to the document: as-you-type conversion, Enter, Backspace, Delete, Tab,
//! emphasis and links.
//!
//! These are rewrites of the source: `* ` becomes `- `, Enter continues a list and renumbers
//! it, an empty item leaves the list, a fence closes itself, and a selection gets wrapped in
//! emphasis markers.

use vstd::prelude::*;
use vstd::string::*;
use vstd::utf8::{encode_utf8, encode_utf8_decode_utf8, is_ascii_chars_encode_utf8, valid_utf8};

use crate::ascii::{NEWLINE, NINE, SPACE, ZERO};
use crate::block::{
    count_spaces, fence_line, first_ink, heading_of, is_fence, lemma_item_has_no_quote,
    lemma_list_marker, lemma_quote_len, list_marker, list_marker_of, quote_depth, quote_len,
    quote_prefix, space_run, tail, BlockKind,
};
use crate::bytes::{
    is_boundary, lemma_encode_concat, lemma_slice_valid, lemma_str_valid, push_byte, same_text,
    slice, spliced,
};
use crate::decimal::{decimal, digit_run, is_digit, lemma_digit_run, push_decimal};
use crate::edit::Editor;
use crate::keys::{edited_result, moved_result, KeyResult, Mods};
use crate::lines::{law_line_at_its_index, line_of, lines_of, split_lines, str_views};
use crate::session::{lemma_spliced, lemma_spliced_behind, lemma_spliced_inside, lit, Session};
use crate::text;
use crate::text::{
    clamp_boundary_of, indent_len, indent_width, is_blank, lemma_indent_len, lemma_line_end,
    lemma_line_is_bounded, lemma_line_start, lemma_skip_forward, line_end_of, line_index_of,
    line_range_of, line_start_of, next_boundary_of, next_word_of, prev_boundary_of, prev_word_of,
    step_forward,
};

verus! {

/// A run of spaces.
pub open spec fn spaces(n: nat) -> Seq<u8> {
    Seq::new(n, |i: int| SPACE)
}

/// Nothing but white space.
pub open spec fn all_white(b: Seq<u8>) -> bool {
    first_ink(b) == b.len()
}

/// An odd number of fences among the first `k` lines: what follows is code.
pub open spec fn inside_fence(lines: Seq<Seq<u8>>, k: int) -> bool
    decreases k,
{
    if k <= 0 {
        false
    } else if fence_line(lines[k - 1]) {
        !inside_fence(lines, k - 1)
    } else {
        inside_fence(lines, k - 1)
    }
}

/// The line that holds `pos` is code, and no fence itself.
pub open spec fn in_code(b: Seq<u8>, pos: int) -> bool {
    inside_fence(lines_of(b), line_index_of(b, pos) as int) && !fence_line(line_of(b, pos))
}

/// A fence follows below line `k`.
pub open spec fn fence_below(lines: Seq<Seq<u8>>, k: int) -> bool {
    exists|i: int| k < i < lines.len() && fence_line(#[trigger] lines[i])
}

/// The delimiter that a bare char wraps a selection in.
pub open spec fn delimiter_of(c: char) -> Option<Seq<u8>> {
    if c == '*' {
        Some(lit("*"))
    } else if c == '_' {
        Some(lit("_"))
    } else if c == '`' {
        Some(lit("`"))
    } else if c == '~' {
        Some(lit("~~"))
    } else {
        None
    }
}

/// What a marker typed so far turns into when a space follows it: `*` and `+` bullets become
/// `-`, and a box typed tight becomes a proper task box.
pub open spec fn space_rewrite(token: Seq<u8>) -> Option<Seq<u8>> {
    if token == lit("*") || token == lit("+") {
        Some(lit("- "))
    } else if token == lit("-[]") || token == lit("- []") || token == lit("*[]") || token == lit(
        "* []",
    ) {
        Some(lit("- [ ] "))
    } else if token == lit("-[x]") || token == lit("- [x]") {
        Some(lit("- [x] "))
    } else {
        None
    }
}

/// What stands behind the number of a numbered item, `.` or `)`.
pub open spec fn separator_of(body: Seq<u8>) -> u8 {
    let ws = indent_len(body);
    body[ws + digit_run(tail(body, ws))]
}

/// The marker that a new line inherits when Enter continues a list: the same indent and
/// bullet, or the number after with the same separator, and an open box if the item has one.
pub open spec fn continuation(body: Seq<u8>, kind: BlockKind) -> Seq<u8> {
    let end = if kind.checked_spec() is Some {
        lit(" [ ] ")
    } else {
        lit(" ")
    };
    match kind {
        BlockKind::Bullet { indent, .. } => spaces(indent as nat).push(body[indent_len(body)])
            + end,
        BlockKind::Numbered { indent, number, .. } => (spaces(indent as nat) + decimal(
            (number + 1) as nat,
        )).push(separator_of(body)) + end,
        _ => Seq::empty(),
    }
}

/// Length of the marker of a block: quote marks, and a list or heading marker behind them.
pub open spec fn marker_len_of(line: Seq<u8>) -> Option<int> {
    let q = quote_len(line);
    match list_marker_of(tail(line, q)) {
        Some((len, _)) => Some(q + len),
        None => match heading_of(tail(line, q)) {
            Some((len, _)) => Some(q + len),
            None => if quote_depth(line) > 0 {
                Some(q)
            } else {
                None
            },
        },
    }
}

/// A line with the blanks behind its quote marks replaced by `n` spaces.
pub open spec fn reindented(line: Seq<u8>, n: nat) -> Seq<u8> {
    let q = quote_len(line);
    let ws = indent_len(tail(line, q));
    line.subrange(0, q) + spaces(n) + tail(line, q + ws)
}

/// The indent that Tab gives an item: two more, or two less, or none.
pub open spec fn tab_indent(indent: int, outdent: bool) -> int {
    if !outdent {
        indent + 2
    } else if indent >= 2 {
        indent - 2
    } else {
        0
    }
}

impl Session {
    /// A line break and `prefix` put at the caret.
    pub open spec fn broken(self, prefix: Seq<u8>) -> Session {
        Session { goal: None, ..self.with_inserted(seq![NEWLINE] + prefix) }
    }

    /// The selection wrapped in a delimiter, and still selected.
    pub open spec fn wrapped(self, delim: Seq<u8>) -> Session {
        let s = self.recorded();
        let caret = s.start() + delim.len() + s.selected().len();
        Session {
            anchor: s.start() + delim.len(),
            coalescing: false,
            ..s.put(s.start(), s.end(), delim + s.selected() + delim, caret)
        }
    }

    /// The selection wrapped in a delimiter; with nothing selected an empty pair goes in, the
    /// caret between the two.
    pub open spec fn wrapped_or_paired(self, delim: Seq<u8>) -> Session {
        if self.caret != self.anchor {
            self.wrapped(delim)
        } else {
            Session {
                coalescing: false,
                ..self.recorded().put(
                    self.caret,
                    self.caret,
                    delim + delim,
                    self.caret + delim.len(),
                )
            }
        }
    }

    /// The selection turned into the label of a link, the caret in the parentheses.
    pub open spec fn linked(self) -> Session {
        let s = self.recorded();
        let link = lit("[") + s.selected() + lit("]()");
        Session {
            coalescing: false,
            ..s.put(s.start(), s.end(), link, s.start() + link.len() - 1)
        }
    }

    /// The marker before the caret, as far as it has been typed: where it starts behind the
    /// line's quote marks and indent.
    pub open spec fn token_start(self) -> int {
        let ls = line_start_of(self.text, self.caret);
        let prefix = self.text.subrange(ls, self.caret);
        let q = quote_len(prefix);
        ls + q + indent_len(tail(prefix, q))
    }

    /// A char typed.
    pub open spec fn typed(self, c: char) -> Session {
        if self.caret != self.anchor && delimiter_of(c) is Some {
            self.wrapped(delimiter_of(c)->0)
        } else if self.caret != self.anchor && c == '[' {
            self.linked()
        } else {
            self.recorded_for_typing().typed_in(c)
        }
    }

    /// A char put in place of the selection, or what it makes of the marker before it.
    pub open spec fn typed_in(self, c: char) -> Session {
        let s = self.without_selection();
        let at = s.token_start();
        let rewrite = space_rewrite(s.text.subrange(at, s.caret));
        if c == ' ' && rewrite is Some {
            s.put(at, s.caret, rewrite->0, at + (rewrite->0).len())
        } else {
            Session { goal: None, ..s.with_inserted(encode_utf8(seq![c])) }
        }
    }

    /// Enter pressed, as a step of its own.
    pub open spec fn entered(self) -> Session {
        self.recorded().line_ended()
    }

    /// The line broken in place of the selection, or what the caret is in ended.
    pub open spec fn line_ended(self) -> Session {
        let s = self.without_selection();
        let ls = line_start_of(s.text, s.caret);
        let le = line_end_of(s.text, s.caret);
        let line = line_of(s.text, s.caret);
        let q = quote_len(line);
        let body = tail(line, q);
        if in_code(s.text, s.caret) {
            s.broken(Seq::empty())
        } else if s.on_open_fence() {
            let i = first_ink(line);
            s.put(s.caret, s.caret, lit("\n\n") + line.subrange(i, i + 3), s.caret + 1)
        } else {
            match list_marker_of(body) {
                Some((len, kind)) => s.entered_item(len, kind),
                None => if quote_depth(line) > 0 {
                    if all_white(body) {
                        s.put(ls, le, Seq::empty(), ls)
                    } else {
                        s.broken(line.subrange(0, q))
                    }
                } else if all_white(line) || s.blank_follows() {
                    s.broken(Seq::empty())
                } else {
                    s.broken(seq![NEWLINE])
                },
            }
        }
    }

    /// The caret stands at the end of a fence that opens a code block, and nothing closes it.
    pub open spec fn on_open_fence(self) -> bool {
        let lines = lines_of(self.text);
        let k = line_index_of(self.text, self.caret) as int;
        &&& fence_line(line_of(self.text, self.caret))
        &&& self.caret == line_end_of(self.text, self.caret)
        &&& !inside_fence(lines, k)
        &&& !fence_below(lines, k)
    }

    /// Enter pressed on a list item whose marker is `len` bytes long: an empty item ends the
    /// list, or moves out if it is nested; any other is followed by the next item.
    pub open spec fn entered_item(self, len: int, kind: BlockKind) -> Session {
        let ls = line_start_of(self.text, self.caret);
        let le = line_end_of(self.text, self.caret);
        let line = line_of(self.text, self.caret);
        let q = quote_len(line);
        if all_white(tail(line, q + len)) && self.caret >= ls + q + len {
            if kind.indent_spec() >= 2 {
                let rebuilt = reindented(line, (kind.indent_spec() - 2) as nat);
                self.put(ls, le, rebuilt, ls + rebuilt.len()).renumbered()
            } else {
                self.put(ls, le, line.subrange(0, q), ls + q)
            }
        } else {
            self.broken(line.subrange(0, q) + continuation(tail(line, q), kind)).renumbered()
        }
    }

    /// The caret stands at the end of its line, and an empty line comes next.
    pub open spec fn blank_follows(self) -> bool {
        self.caret + 2 <= self.text.len() && self.text[self.caret] == NEWLINE && self.text[self.caret
            + 1] == NEWLINE
    }

    /// Backspace pressed.
    pub open spec fn backspaced(self, word: bool) -> (Session, KeyResult) {
        if self.caret != self.anchor {
            self.edited_into(self.recorded().without_selection())
        } else if self.caret == 0 {
            (self, moved_result())
        } else {
            self.edited_into(self.recorded().erased(word))
        }
    }

    /// What stands before the caret erased: a word, a block's marker or a level of its
    /// indent, or a char.
    pub open spec fn erased(self, word: bool) -> Session {
        let start = if word {
            prev_word_of(self.text, self.caret)
        } else {
            prev_boundary_of(self.text, self.caret)
        };
        if word {
            self.put(start, self.caret, Seq::empty(), start)
        } else if self.behind_marker() {
            self.unmarked()
        } else {
            Session { goal: None, ..self.put(start, self.caret, Seq::empty(), start) }
        }
    }

    /// The caret stands right behind the marker of its block.
    pub open spec fn behind_marker(self) -> bool {
        match marker_len_of(line_of(self.text, self.caret)) {
            Some(n) => n > 0 && self.caret == line_start_of(self.text, self.caret) + n,
            None => false,
        }
    }

    /// The marker before the caret removed; a nested list item moves out by two instead.
    pub open spec fn unmarked(self) -> Session {
        let ls = line_start_of(self.text, self.caret);
        let le = line_end_of(self.text, self.caret);
        let line = line_of(self.text, self.caret);
        let indent = match list_marker_of(line) {
            Some((_, kind)) => kind.indent_spec() as int,
            None => 0,
        };
        if indent >= 2 {
            let rebuilt = spaces((indent - 2) as nat) + tail(line, indent_len(line));
            self.put(ls, le, rebuilt, self.caret - 2).renumbered()
        } else {
            self.put(ls, self.caret, Seq::empty(), ls).renumbered()
        }
    }

    /// Delete pressed.
    pub open spec fn deleted(self, word: bool) -> (Session, KeyResult) {
        if self.caret != self.anchor {
            self.edited_into(self.recorded().without_selection())
        } else if self.caret >= self.text.len() {
            (self, moved_result())
        } else {
            let end = if word {
                next_word_of(self.text, self.caret)
            } else {
                next_boundary_of(self.text, self.caret)
            };
            self.edited_into(self.recorded().put(self.caret, end, Seq::empty(), self.caret))
        }
    }

    /// A list item moved in or out by two, the caret along with it, though never off its line.
    pub open spec fn item_shifted(self, outdent: bool) -> Session {
        let ls = line_start_of(self.text, self.caret);
        let le = line_end_of(self.text, self.caret);
        let line = line_of(self.text, self.caret);
        let indent = indent_len(tail(line, quote_len(line)));
        let moved = tab_indent(indent, outdent);
        let caret = self.caret + moved - indent;
        self.put(
            ls,
            le,
            reindented(line, moved as nat),
            if caret < ls {
                ls
            } else {
                caret
            },
        )
    }

    /// A list item moved in or out, as a step of its own, and its list renumbered.
    pub open spec fn item_moved(self, outdent: bool) -> Session {
        self.recorded().item_shifted(outdent).renumbered()
    }

    /// Up to two spaces taken off the start of a line, behind its quote marks, the caret moved
    /// along, though never off its line.
    pub open spec fn line_moved_out(self, n: int) -> Session {
        let ls = line_start_of(self.text, self.caret);
        let at = ls + quote_len(line_of(self.text, self.caret));
        let caret = self.caret - n;
        self.put(
            at,
            at + n,
            Seq::empty(),
            if caret < ls {
                ls
            } else {
                caret
            },
        )
    }

    /// Tab pressed: a list item moves in or out by two, other text gets two spaces or loses
    /// up to two. Nothing happens where there is nothing to take away.
    pub open spec fn tabbed(self, outdent: bool) -> (Session, KeyResult) {
        let line = line_of(self.text, self.caret);
        let body = tail(line, quote_len(line));
        if list_marker_of(body) is Some {
            if self.item_moved(outdent).text == self.text {
                (self, moved_result())
            } else {
                (self.item_moved(outdent), edited_result())
            }
        } else if !outdent {
            self.edited_into(self.insert(lit("  ")))
        } else if space_run(body) == 0 {
            (self, moved_result())
        } else {
            self.edited_into(
                self.recorded().line_moved_out(
                    if space_run(body) < 2 {
                        1
                    } else {
                        2
                    },
                ),
            )
        }
    }

    /// The task box on line `index` toggled, or one added to an item that lacks it. Nothing
    /// happens on a line that is no list item.
    pub open spec fn checkbox_toggled(self, index: nat) -> (Session, bool) {
        match item_end(self.text, index) {
            None => (self, false),
            Some((at, Some(ticked))) => {
                let s = self.recorded();
                let with = if ticked {
                    lit("[ ] ")
                } else {
                    lit("[x] ")
                };
                (Session { text: spliced(s.text, at - 4, at, with), dirty: true, ..s }, true)
            },
            Some((at, None)) => {
                let s = self.recorded();
                let text = spliced(s.text, at, at, lit("[ ] "));
                (
                    Session {
                        text,
                        caret: if s.caret >= at {
                            s.caret + 4
                        } else {
                            s.caret
                        },
                        anchor: if s.caret >= at {
                            s.caret + 4
                        } else {
                            clamp_boundary_of(text, s.anchor)
                        },
                        dirty: true,
                        ..s
                    },
                    true,
                )
            },
        }
    }
}

/// Where the marker of the list item on line `index` ends, and the state of its task box,
/// which then stands just before that. None if the line is no list item.
pub open spec fn item_end(b: Seq<u8>, index: nat) -> Option<(int, Option<bool>)> {
    match line_range_of(b, index) {
        None => None,
        Some((ls, le)) => {
            let line = b.subrange(ls, le);
            let q = quote_len(line);
            match list_marker_of(tail(line, q)) {
                None => None,
                Some((len, kind)) => Some((ls + q + len, kind.checked_spec())),
            }
        },
    }
}

// ---- what edits do to the text ----------------------------------------------------

/// What a marker turns into is longer than the marker.
proof fn lemma_rewrite_grows(token: Seq<u8>)
    requires
        space_rewrite(token) is Some,
    ensures
        (space_rewrite(token)->0).len() > token.len(),
{
    reveal_strlit("*");
    reveal_strlit("+");
    reveal_strlit("- ");
    reveal_strlit("-[]");
    reveal_strlit("- []");
    reveal_strlit("*[]");
    reveal_strlit("* []");
    reveal_strlit("- [ ] ");
    reveal_strlit("-[x]");
    reveal_strlit("- [x]");
    reveal_strlit("- [x] ");
    is_ascii_chars_encode_utf8("*"@);
    is_ascii_chars_encode_utf8("+"@);
    is_ascii_chars_encode_utf8("- "@);
    is_ascii_chars_encode_utf8("-[]"@);
    is_ascii_chars_encode_utf8("- []"@);
    is_ascii_chars_encode_utf8("*[]"@);
    is_ascii_chars_encode_utf8("* []"@);
    is_ascii_chars_encode_utf8("- [ ] "@);
    is_ascii_chars_encode_utf8("-[x]"@);
    is_ascii_chars_encode_utf8("- [x]"@);
    is_ascii_chars_encode_utf8("- [x] "@);
}

/// A char typed with nothing selected makes the text longer.
pub proof fn lemma_typing_grows(s: Session, c: char)
    requires
        s.wf(),
        s.caret == s.anchor,
    ensures
        s.typed(c).text.len() > s.text.len(),
{
    let at = s.token_start();
    let token = s.text.subrange(at, s.caret);
    lemma_line_start(s.text, s.caret);
    let prefix = s.text.subrange(line_start_of(s.text, s.caret), s.caret);
    lemma_quote_len(prefix);
    lemma_indent_len(tail(prefix, quote_len(prefix)));
    if c == ' ' && space_rewrite(token) is Some {
        lemma_rewrite_grows(token);
    } else {
        let one = seq![c];
        assert(encode_utf8(one).len() > 0) by {
            encode_utf8_decode_utf8(one);
            if encode_utf8(one).len() == 0 {
                assert(encode_utf8(one) =~= encode_utf8(Seq::<char>::empty()));
                encode_utf8_decode_utf8(Seq::<char>::empty());
                assert(one == Seq::<char>::empty());
                assert(one.len() == 0);
            }
        }
    }
}

/// `s` with the history of `h`.
spec fn with_history(s: Session, h: Session) -> Session {
    Session { undo: h.undo, redo: h.redo, coalescing: h.coalescing, ..s }
}

/// Remembering the document and editing it do not get in each other's way: moving an item.
proof fn lemma_moving_commutes(s: Session, outdent: bool)
    ensures
        s.item_moved(outdent) == with_history(
            s.item_shifted(outdent).renumbered(),
            s.recorded(),
        ),
{
}

/// Typing a char.
proof fn lemma_typing_commutes(s: Session, c: char)
    ensures
        s.recorded_for_typing().typed_in(c) == with_history(
            s.typed_in(c),
            s.recorded_for_typing(),
        ),
        s.typed_in(c).undo == s.undo,
        s.typed_in(c).redo == s.redo,
        s.typed_in(c).coalescing == s.coalescing,
{
}

/// Enter.
proof fn lemma_enter_commutes(s: Session)
    ensures
        s.recorded().line_ended() == with_history(s.line_ended(), s.recorded()),
        s.line_ended().undo == s.undo,
        s.line_ended().redo == s.redo,
        s.line_ended().coalescing == s.coalescing,
{
    let h = s.recorded();
    let t = s.without_selection();
    let u = h.without_selection();
    assert(u == with_history(t, h));
    assert(u.on_open_fence() == t.on_open_fence());
    assert(u.blank_follows() == t.blank_follows());
    let line = line_of(t.text, t.caret);
    match list_marker_of(tail(line, quote_len(line))) {
        Some((len, kind)) => {
            lemma_enter_item_commutes(t, u, len, kind);
        },
        None => {},
    }
}

proof fn lemma_enter_item_commutes(t: Session, h: Session, len: int, kind: BlockKind)
    requires
        h == with_history(t, h),
    ensures
        h.entered_item(len, kind) == with_history(t.entered_item(len, kind), h),
        t.entered_item(len, kind).undo == t.undo,
        t.entered_item(len, kind).redo == t.redo,
        t.entered_item(len, kind).coalescing == t.coalescing,
{
}

/// Backspace.
proof fn lemma_erasing_commutes(s: Session, word: bool)
    ensures
        s.recorded().erased(word) == with_history(s.erased(word), s.recorded()),
        s.erased(word).undo == s.undo,
        s.erased(word).redo == s.redo,
        s.erased(word).coalescing == s.coalescing,
{
}

/// Wrapping makes the text longer.
proof fn lemma_wrapping_grows(s: Session, delim: Seq<u8>)
    requires
        s.wf(),
        delim.len() > 0,
    ensures
        s.wrapped(delim).text.len() > s.text.len(),
        s.wrapped_or_paired(delim).text.len() > s.text.len(),
{
}

/// A link makes the text longer.
proof fn lemma_linking_grows(s: Session)
    requires
        s.wf(),
    ensures
        s.linked().text.len() > s.text.len(),
{
    reveal_strlit("[");
    is_ascii_chars_encode_utf8("["@);
}

/// No delimiter is empty.
pub proof fn lemma_delimiters()
    ensures
        lit("**").len() > 0,
        lit("*").len() > 0,
        lit("_").len() > 0,
        lit("`").len() > 0,
        lit("~~").len() > 0,
{
    reveal_strlit("**");
    reveal_strlit("*");
    reveal_strlit("_");
    reveal_strlit("`");
    reveal_strlit("~~");
    is_ascii_chars_encode_utf8("**"@);
    is_ascii_chars_encode_utf8("*"@);
    is_ascii_chars_encode_utf8("_"@);
    is_ascii_chars_encode_utf8("`"@);
    is_ascii_chars_encode_utf8("~~"@);
}

// ---- lines and indents --------------------------------------------------------

/// The line around a boundary lies between boundaries, and is valid text itself.
pub proof fn lemma_line(b: Seq<u8>, pos: int)
    requires
        valid_utf8(b),
        is_boundary(b, pos),
    ensures
        line_start_of(b, pos) <= pos <= line_end_of(b, pos),
        is_boundary(b, line_start_of(b, pos)),
        is_boundary(b, line_end_of(b, pos)),
        valid_utf8(line_of(b, pos)),
        line_of(b, pos).len() == line_end_of(b, pos) - line_start_of(b, pos),
{
    lemma_line_start(b, pos);
    lemma_line_end(b, pos);
    lemma_line_is_bounded(b, pos);
    lemma_slice_valid(b, line_start_of(b, pos), line_end_of(b, pos));
}

/// A run of spaces is valid text, and can be cut anywhere.
proof fn lemma_spaces(n: nat)
    ensures
        valid_utf8(spaces(n)),
        forall|i: int| 0 <= i <= n ==> #[trigger] is_boundary(spaces(n), i),
    decreases n,
{
    let chars = Seq::new(n, |i: int| ' ');
    lemma_str_valid(chars);
    vstd::utf8::is_ascii_chars_encode_utf8(chars);
    assert(encode_utf8(chars) =~= spaces(n));
}

/// Replacing `w` ASCII bytes behind `q` ASCII bytes of a line by `n` spaces, by way of the
/// whole line: every offset among those bytes stays a boundary, and so does a boundary `pos`
/// behind them, moved along.
proof fn lemma_indent_swap(b: Seq<u8>, ls: int, le: int, q: int, w: int, n: nat, pos: int)
    requires
        valid_utf8(b),
        is_boundary(b, ls),
        is_boundary(b, le),
        0 <= q,
        0 <= w,
        ls + q + w <= le,
        forall|i: int| ls <= i < ls + q + w ==> #[trigger] b[i] < 0x80,
    ensures
        ({
            let line = b.subrange(ls, le);
            let rebuilt = line.subrange(0, q) + spaces(n) + tail(line, q + w);
            let r = spliced(b, ls, le, rebuilt);
            &&& valid_utf8(rebuilt)
            &&& r == spliced(b, ls + q, ls + q + w, spaces(n))
            &&& forall|i: int| ls <= i <= ls + q + n ==> #[trigger] is_boundary(r, i)
            &&& forall|i: int| ls <= i <= ls + q + w ==> #[trigger] is_boundary(b, i)
            &&& ls + q + w <= pos && is_boundary(b, pos) ==> is_boundary(r, pos - w + n)
        }),
{
    let line = b.subrange(ls, le);
    let rebuilt = line.subrange(0, q) + spaces(n) + tail(line, q + w);
    let r = spliced(b, ls, le, rebuilt);
    lemma_spaces(n);
    assert forall|i: int| ls <= i <= ls + q + w implies #[trigger] is_boundary(b, i) by {
        if i > ls {
            assert(b[i - 1] < 0x80);
            crate::text::lemma_after_ascii(b, i - 1);
        }
    }
    assert(r =~= spliced(b, ls + q, ls + q + w, spaces(n)));
    lemma_spliced(b, ls + q, ls + q + w, spaces(n));
    assert forall|i: int| ls <= i <= ls + q + n implies #[trigger] is_boundary(r, i) by {
        if i <= ls + q {
            assert(is_boundary(b, i));
        } else {
            assert(is_boundary(spaces(n), i - (ls + q)));
            lemma_spliced_inside(b, ls + q, ls + q + w, spaces(n), i - (ls + q));
        }
    }
    if ls + q + w <= pos && is_boundary(b, pos) {
        lemma_spliced_behind(b, ls + q, ls + q + w, spaces(n), pos);
    }
    lemma_slice_valid(b, ls, ls + q);
    assert(line.subrange(0, q) =~= b.subrange(ls, ls + q));
    lemma_slice_valid(b, ls + q + w, le);
    assert(tail(line, q + w) =~= b.subrange(ls + q + w, le));
    vstd::utf8::valid_utf8_concat(line.subrange(0, q), spaces(n));
    vstd::utf8::valid_utf8_concat(line.subrange(0, q) + spaces(n), tail(line, q + w));
}

/// The quote marks and the indent of a line are ASCII.
proof fn lemma_prefix(b: Seq<u8>, ls: int, le: int)
    requires
        0 <= ls <= le <= b.len(),
    ensures
        ({
            let line = b.subrange(ls, le);
            let q = quote_len(line);
            let ws = indent_len(tail(line, q));
            &&& 0 <= q
            &&& 0 <= ws
            &&& q + ws <= line.len()
            &&& ls + q + ws <= le
            &&& forall|i: int| ls <= i < ls + q + ws ==> #[trigger] b[i] < 0x80
            &&& space_run(tail(line, q)) <= ws
            &&& 0 <= space_run(tail(line, q))
        }),
{
    let line = b.subrange(ls, le);
    let q = quote_len(line);
    lemma_quote_len(line);
    let body = tail(line, q);
    let ws = indent_len(body);
    lemma_indent_len(body);
    crate::block::lemma_space_run(body);
    assert forall|i: int| ls <= i < ls + q + ws implies #[trigger] b[i] < 0x80 by {
        assert(b[i] == line[i - ls]);
        if i >= ls + q {
            assert(is_blank(body[i - ls - q]));
        }
    }
    if space_run(body) > ws {
        assert(body[ws] == SPACE);
    }
}

// ---- building strings ---------------------------------------------------------

/// Appends `t` to a string.
pub(crate) fn append(s: &mut String, t: &str)
    ensures
        encode_utf8(final(s)@) == encode_utf8(old(s)@) + t.spec_bytes(),
{
    let ghost before = s@;
    s.append(t);
    proof {
        lemma_encode_concat(before, t@);
    }
}

/// Appends `n` spaces to a string.
fn push_spaces(s: &mut String, n: usize)
    ensures
        encode_utf8(final(s)@) == encode_utf8(old(s)@) + spaces(n as nat),
{
    let ghost before = encode_utf8(s@);
    let mut i: usize = 0;
    proof {
        assert(before + spaces(0) =~= before);
    }
    while i < n
        invariant
            i <= n,
            encode_utf8(s@) == before + spaces(i as nat),
        decreases n - i,
    {
        push_byte(s, SPACE);
        i += 1;
        proof {
            assert(encode_utf8(s@) =~= before + spaces(i as nat));
        }
    }
}

/// Whether a string holds nothing but white space.
pub(crate) fn is_all_white(s: &str) -> (r: bool)
    ensures
        r == all_white(s.spec_bytes()),
{
    proof {
        lemma_str_valid(s@);
    }
    step_forward(s, 0, true) == s.as_bytes().len()
}

/// A line with the blanks behind its quote marks replaced by `n` spaces.
fn reindent(line: &str, n: usize) -> (r: String)
    ensures
        encode_utf8(r@) == reindented(line.spec_bytes(), n as nat),
{
    let len: usize = line.as_bytes().len();
    proof {
        lemma_str_valid(line@);
    }
    let (q, _) = quote_prefix(line);
    let body = slice(line, q, len);
    let ws: usize = indent_width(body);
    proof {
        lemma_str_valid(body@);
        assert(tail(body.spec_bytes(), ws as int) =~= tail(line.spec_bytes(), q + ws));
    }
    let mut r = slice(line, 0, q).to_owned();
    push_spaces(&mut r, n);
    append(&mut r, slice(body, ws, len - q));
    r
}

/// What stands behind the number of a numbered item.
fn separator(body: &str) -> (r: u8)
    requires
        ({
            let b = body.spec_bytes();
            indent_len(b) + digit_run(tail(b, indent_len(b))) < b.len()
        }),
    ensures
        r == separator_of(body.spec_bytes()),
{
    let b = body.as_bytes();
    let ws: usize = indent_width(body);
    let ghost run = tail(b@, ws as int);
    let mut i: usize = ws;
    proof {
        lemma_digit_run(run);
    }
    while b[i] >= ZERO && b[i] <= NINE
        invariant
            ws <= i <= ws + digit_run(run),
            b@ == body.spec_bytes(),
            run == tail(b@, ws as int),
            ws + digit_run(run) < b.len(),
            !is_digit(run[digit_run(run)]),
        decreases ws + digit_run(run) - i,
    {
        proof {
            assert(run[i - ws] == b[i as int]);
        }
        i += 1;
    }
    proof {
        if i < ws + digit_run(run) {
            assert(is_digit(run[i - ws]));
            assert(run[i - ws] == b[i as int]);
        }
    }
    b[i]
}

/// The marker a new line inherits when Enter continues a list.
fn continuation_marker(body: &str, kind: &BlockKind) -> (r: String)
    requires
        list_marker_of(body.spec_bytes()) is Some,
        (list_marker_of(body.spec_bytes())->0).1 == *kind,
    ensures
        encode_utf8(r@) == continuation(body.spec_bytes(), *kind),
{
    proof {
        lemma_list_marker(body.spec_bytes());
        lemma_indent_len(body.spec_bytes());
    }
    let b = body.as_bytes();
    let mut r = String::new();
    proof {
        assert(encode_utf8(r@) =~= Seq::<u8>::empty());
    }
    let indent: usize = kind.indent();
    push_spaces(&mut r, indent);
    proof {
        assert(encode_utf8(r@) =~= spaces(indent as nat));
    }
    match kind {
        BlockKind::Bullet { .. } => {
            push_byte(&mut r, b[indent]);
        },
        BlockKind::Numbered { number, .. } => {
            push_decimal(&mut r, *number as u128 + 1);
            push_byte(&mut r, separator(body));
        },
        _ => {},
    }
    if kind.checked().is_some() {
        append(&mut r, " [ ] ");
    } else {
        append(&mut r, " ");
    }
    r
}

/// Total marker length for any block type, used by the "backspace unstyles" rule.
pub fn marker_length(line: &str) -> (r: Option<usize>)
    ensures
        match (r, marker_len_of(line.spec_bytes())) {
            (Some(x), Some(y)) => x == y && x <= line.spec_bytes().len() && is_boundary(
                line.spec_bytes(),
                x as int,
            ),
            (None, None) => true,
            _ => false,
        },
{
    let len: usize = line.as_bytes().len();
    proof {
        lemma_str_valid(line@);
        lemma_quote_len(line.spec_bytes());
    }
    let (q, depth) = quote_prefix(line);
    let body = slice(line, q, len);
    let ghost b = line.spec_bytes();
    proof {
        lemma_list_marker(body.spec_bytes());
        crate::block::lemma_heading(body.spec_bytes());
        assert forall|i: int|
            0 <= i <= body.spec_bytes().len() && is_boundary(
                body.spec_bytes(),
                i,
            ) implies is_boundary(b, #[trigger] (q + i)) by {
            if i < body.spec_bytes().len() {
                assert(body.spec_bytes()[i] == b[q + i]);
            }
        }
    }
    match list_marker(body) {
        Some((n, _)) => {
            return Some(q + n);
        },
        None => {},
    }
    match crate::block::heading_marker(body) {
        Some((n, _)) => {
            return Some(q + n);
        },
        None => {},
    }
    if depth > 0 {
        return Some(q);
    }
    None
}

/// The delimiter a bare character wraps a selection in.
pub fn wrap_delimiter(c: char) -> (r: Option<&'static str>)
    ensures
        match (r, delimiter_of(c)) {
            (Some(d), Some(e)) => d.spec_bytes() == e,
            (None, None) => true,
            _ => false,
        },
{
    if c == '*' {
        Some("*")
    } else if c == '_' {
        Some("_")
    } else if c == '`' {
        Some("`")
    } else if c == '~' {
        Some("~~")
    } else {
        None
    }
}

/// What a marker typed so far turns into when a space follows it.
fn rewritten(token: &str) -> (r: Option<&'static str>)
    ensures
        match (r, space_rewrite(token.spec_bytes())) {
            (Some(d), Some(e)) => d.spec_bytes() == e,
            (None, None) => true,
            _ => false,
        },
{
    // `*` and `+` bullets normalise to `-`.
    if same_text(token, "*") || same_text(token, "+") {
        return Some("- ");
    }
    // `- []` and `-[]` become a proper task box.
    if same_text(token, "-[]") || same_text(token, "- []") || same_text(token, "*[]") || same_text(
        token,
        "* []",
    ) {
        return Some("- [ ] ");
    }
    if same_text(token, "-[x]") || same_text(token, "- [x]") {
        return Some("- [x] ");
    }
    None
}

// ---- the editor ---------------------------------------------------------------

impl Editor {
    /// Wrap the selection in a delimiter.
    pub(crate) fn wrap_selection(&mut self, delim: &str)
        requires
            old(self)@.wf(),
        ensures
            final(self)@ == old(self)@.wrapped(delim.spec_bytes()),
            final(self)@.wf(),
    {
        let ghost before = self@;
        self.push_undo();
        let range = self.selection();
        let inner: usize = range.end - range.start;
        let n: usize = delim.as_bytes().len();
        let mut wrapped = delim.to_owned();
        append(&mut wrapped, self.selected_text());
        append(&mut wrapped, delim);
        let ghost d = delim.spec_bytes();
        let ghost w = encode_utf8(wrapped@);
        let ghost r = spliced(self@.text, range.start as int, range.end as int, w);
        let total: usize = wrapped.as_str().as_bytes().len();
        proof {
            lemma_str_valid(delim@);
            lemma_str_valid(wrapped@);
            let sel = self@.selected();
            lemma_slice_valid(self@.text, self@.start(), self@.end());
            crate::bytes::lemma_start_is_boundary(sel);
            assert(w =~= d + sel + d);
            assert(is_boundary(w, n as int)) by {
                if sel.len() > 0 {
                    assert(w[n as int] == sel[0]);
                } else if d.len() > 0 {
                    assert(w[n as int] == d[0]);
                }
            }
            assert(is_boundary(w, n + inner)) by {
                if d.len() > 0 {
                    assert(w[n + inner] == d[0]);
                }
            }
            let (from, to) = (range.start as int, range.end as int);
            lemma_spliced_inside(self@.text, from, to, w, n as int);
            lemma_spliced_inside(self@.text, from, to, w, n + inner);
        }
        self.put(range.start, range.end, wrapped.as_str(), n + inner);
        self.anchor = range.start + n;
        self.coalescing = false;
        proof {
            assert(self@ =~= before.wrapped(d));
        }
    }

    /// Wrap the selection, or drop in an empty pair with the caret inside.
    pub(crate) fn wrap_or_insert(&mut self, delim: &str)
        requires
            old(self)@.wf(),
        ensures
            final(self)@ == old(self)@.wrapped_or_paired(delim.spec_bytes()),
            final(self)@.wf(),
    {
        if self.has_selection() {
            self.wrap_selection(delim);
        } else {
            let ghost before = self@;
            self.push_undo();
            let mut pair = delim.to_owned();
            append(&mut pair, delim);
            let n: usize = delim.as_bytes().len();
            proof {
                lemma_str_valid(delim@);
                lemma_str_valid(pair@);
                let d = delim.spec_bytes();
                let p = encode_utf8(pair@);
                assert(is_boundary(p, n as int)) by {
                    if n < p.len() {
                        assert(p[n as int] == d[0]);
                    }
                }
                let at = self.caret as int;
                lemma_spliced_inside(self@.text, at, at, p, n as int);
            }
            self.put(self.caret, self.caret, pair.as_str(), n);
            self.coalescing = false;
            proof {
                assert(self@ =~= before.wrapped_or_paired(delim.spec_bytes()));
            }
        }
    }

    /// Turn the selection into `[selection]()` with the caret in the parens, or insert an
    /// empty link skeleton.
    pub(crate) fn make_link(&mut self)
        requires
            old(self)@.wf(),
        ensures
            final(self)@ == old(self)@.linked(),
            final(self)@.wf(),
    {
        let ghost before = self@;
        self.push_undo();
        let range = self.selection();
        let mut link = "[".to_owned();
        append(&mut link, self.selected_text());
        append(&mut link, "]()");
        let n: usize = link.as_str().as_bytes().len();
        proof {
            let w = encode_utf8(link@);
            lemma_str_valid(link@);
            reveal_strlit("]()");
            vstd::utf8::is_ascii_chars_encode_utf8("]()"@);
            assert(w[n - 1] == lit("]()")[2]);
            lemma_spliced_inside(
                self@.text,
                range.start as int,
                range.end as int,
                w,
                n - 1,
            );
        }
        self.put(range.start, range.end, link.as_str(), n - 1);
        self.coalescing = false;
        proof {
            assert(self@ =~= before.linked());
        }
    }

    /// Insert a character, applying any as-you-type rewrite it triggers.
    pub(crate) fn insert_char(&mut self, c: char) -> (r: KeyResult)
        requires
            old(self)@.wf(),
        ensures
            (final(self)@, r) == old(self)@.edited_into(old(self)@.typed(c)),
            final(self)@.wf(),
    {
        let ghost s = self@;
        // Typing an emphasis character over a selection wraps it instead.
        if self.has_selection() {
            proof {
                lemma_delimiters();
            }
            match wrap_delimiter(c) {
                Some(delim) => {
                    return self.on_wrap(delim);
                },
                None => {},
            }
            if c == '[' {
                return self.on_link();
            }
        }
        let was = self.before_edit();
        self.type_char(c);
        proof {
            lemma_typing_commutes(s, c);
        }
        let r = self.settle_typing(was);
        proof {
            assert(self@ =~= s.edited_into(s.typed(c)).0);
        }
        r
    }

    /// Wrapping as a key press.
    pub(crate) fn on_wrap(&mut self, delim: &str) -> (r: KeyResult)
        requires
            old(self)@.wf(),
            delim.spec_bytes().len() > 0,
        ensures
            (final(self)@, r) == old(self)@.edited_into(
                old(self)@.wrapped_or_paired(delim.spec_bytes()),
            ),
            final(self)@.wf(),
    {
        proof {
            lemma_wrapping_grows(self@, delim.spec_bytes());
        }
        self.wrap_or_insert(delim);
        KeyResult::edited()
    }

    /// Linking as a key press.
    pub(crate) fn on_link(&mut self) -> (r: KeyResult)
        requires
            old(self)@.wf(),
        ensures
            (final(self)@, r) == old(self)@.edited_into(old(self)@.linked()),
            final(self)@.wf(),
    {
        proof {
            lemma_linking_grows(self@);
        }
        self.make_link();
        KeyResult::edited()
    }

    /// Type a character: in place of the selection, as part of a marker, or as it is.
    fn type_char(&mut self, c: char)
        requires
            old(self)@.wf(),
        ensures
            final(self)@ == old(self)@.typed_in(c),
            final(self)@.wf(),
    {
        let ghost before = self@;
        self.delete_selection();
        if c == ' ' {
            if self.rewrite_on_space() {
                return;
            }
        }
        let mut s = String::new();
        s.push(c);
        proof {
            assert(s@ =~= seq![c]);
        }
        self.replace_range(self.caret, self.caret, s.as_str());
        self.goal_column = None;
        proof {
            assert(self@ =~= before.typed_in(c));
        }
    }

    /// Block-marker normalisations that fire when space is typed.
    ///
    /// Returns true if the space was consumed as part of a rewrite.
    fn rewrite_on_space(&mut self) -> (r: bool)
        requires
            old(self)@.wf(),
            old(self)@.caret == old(self)@.anchor,
        ensures
            ({
                let s = old(self)@;
                let at = s.token_start();
                match space_rewrite(s.text.subrange(at, s.caret)) {
                    Some(w) => r && final(self)@ == s.put(at, s.caret, w, at + w.len()),
                    None => !r && final(self)@ == s,
                }
            }),
            final(self)@.wf(),
    {
        let ls: usize = text::line_start(self.text.as_str(), self.caret);
        let prefix = slice(self.text.as_str(), ls, self.caret);
        let len: usize = self.caret - ls;
        proof {
            lemma_str_valid(prefix@);
            lemma_prefix(self@.text, ls as int, self.caret as int);
            lemma_indent_swap(
                self@.text,
                ls as int,
                self.caret as int,
                quote_len(prefix.spec_bytes()),
                indent_len(tail(prefix.spec_bytes(), quote_len(prefix.spec_bytes()))),
                0,
                0,
            );
        }
        let (q, _) = quote_prefix(prefix);
        let body = slice(prefix, q, len);
        let ws: usize = indent_width(body);
        proof {
            lemma_str_valid(body@);
        }
        let token = slice(body, ws, len - q);
        let at: usize = ls + q + ws;
        proof {
            assert(token.spec_bytes() =~= self@.text.subrange(at as int, self.caret as int));
            assert(is_boundary(self@.text, at as int));
        }
        match rewritten(token) {
            Some(with) => {
                self.replace_range(at, self.caret, with);
                true
            },
            None => false,
        }
    }

    /// Whether the fences above the caret's line leave a code block open.
    fn fence_is_open(&self) -> (r: bool)
        requires
            self@.wf(),
        ensures
            r == inside_fence(
                lines_of(self@.text),
                line_index_of(self@.text, self@.caret) as int,
            ),
    {
        let line: usize = self.caret_line();
        let parts = split_lines(self.text.as_str());
        let ghost views = lines_of(self@.text);
        proof {
            law_line_at_its_index(self@.text, self.caret as int);
        }
        let mut inside = false;
        let mut i: usize = 0;
        while i < line
            invariant
                i <= line < parts.len(),
                views == str_views(parts@),
                inside == inside_fence(views, i as int),
            decreases line - i,
        {
            proof {
                assert(views[i as int] == encode_utf8(parts[i as int]@));
            }
            if is_fence(parts[i]) {
                inside = !inside;
            }
            i += 1;
        }
        inside
    }

    /// Whether a fence stands below the caret's line.
    fn fence_is_closed(&self) -> (r: bool)
        requires
            self@.wf(),
        ensures
            r == fence_below(
                lines_of(self@.text),
                line_index_of(self@.text, self@.caret) as int,
            ),
    {
        let line: usize = self.caret_line();
        let parts = split_lines(self.text.as_str());
        let ghost views = lines_of(self@.text);
        proof {
            law_line_at_its_index(self@.text, self.caret as int);
            assert(parts.len() == str_views(parts@).len());
        }
        let mut i: usize = line + 1;
        while i < parts.len()
            invariant
                line < i <= parts.len(),
                line == line_index_of(self@.text, self@.caret),
                views == lines_of(self@.text),
                views == str_views(parts@),
                forall|k: int| line < k < i ==> !fence_line(#[trigger] views[k]),
            decreases parts.len() - i,
        {
            proof {
                assert(views[i as int] == encode_utf8(parts[i as int]@));
            }
            if is_fence(parts[i]) {
                return true;
            }
            i += 1;
        }
        false
    }

    /// Break the line at the caret and put `prefix` on the new one.
    fn insert_plain_newline(&mut self, prefix: &str)
        requires
            old(self)@.wf(),
            old(self)@.caret == old(self)@.anchor,
        ensures
            final(self)@ == old(self)@.broken(prefix.spec_bytes()),
            final(self)@.wf(),
    {
        let ghost before = self@;
        let mut s = String::new();
        proof {
            assert(encode_utf8(s@) =~= Seq::<u8>::empty());
        }
        push_byte(&mut s, NEWLINE);
        append(&mut s, prefix);
        proof {
            assert(encode_utf8(s@) =~= seq![NEWLINE] + prefix.spec_bytes());
        }
        self.replace_range(self.caret, self.caret, s.as_str());
        self.goal_column = None;
        proof {
            assert(self@ =~= before.broken(prefix.spec_bytes()));
        }
    }

    /// Enter: a line break, with whatever the block the caret is in calls for.
    pub(crate) fn on_enter(&mut self) -> (r: KeyResult)
        requires
            old(self)@.wf(),
        ensures
            (final(self)@, r) == old(self)@.edited_into(old(self)@.entered()),
            final(self)@.wf(),
    {
        let ghost s = self@;
        let was = self.before_edit();
        self.enter();
        proof {
            lemma_enter_commutes(s);
        }
        let r = self.settle(was);
        proof {
            assert(self@ =~= s.edited_into(s.entered()).0);
        }
        r
    }

    /// Break the line, or end what the caret is in.
    fn enter(&mut self)
        requires
            old(self)@.wf(),
        ensures
            final(self)@ == old(self)@.line_ended(),
            final(self)@.wf(),
    {
        self.delete_selection();
        let ghost s = self@;
        let ls: usize = text::line_start(self.text.as_str(), self.caret);
        let le: usize = text::line_end(self.text.as_str(), self.caret);
        let line = text::line_at(self.text.as_str(), self.caret).to_owned();
        let len: usize = line.as_str().as_bytes().len();
        let ghost l = line_of(s.text, s.caret);
        proof {
            lemma_line(s.text, s.caret);
            lemma_str_valid(line@);
            crate::edit::lemma_empty_str();
        }
        let inside = self.fence_is_open();
        let fence = is_fence(line.as_str());
        // Inside a fenced code block, Enter is just a newline.
        if inside && !fence {
            self.insert_plain_newline("");
            return;
        }
        // An opening fence with no closing fence gets one, with the caret parked on the
        // blank line between them.
        if fence && !inside && self.caret == le && !self.fence_is_closed() {
            self.close_fence(line.as_str());
            return;
        }
        let (q, depth) = quote_prefix(line.as_str());
        let body = slice(line.as_str(), q, len);
        let quotes = slice(line.as_str(), 0, q);
        proof {
            lemma_quote_len(l);
            lemma_list_marker(tail(l, q as int));
        }
        match list_marker(body) {
            Some((n, kind)) => {
                self.enter_item(n, &kind);
                return;
            },
            None => {},
        }
        if depth > 0 {
            if is_all_white(body) {
                self.replace_range(ls, le, "");
                return;
            }
            self.insert_plain_newline(quotes);
            return;
        }
        // Enter ends the block. A single newline is only a soft break, the two lines stay one
        // paragraph, so a blank line goes in as well, unless the caret is already on a blank
        // line or one already follows.
        if is_all_white(line.as_str()) || self.blank_line_follows() {
            self.insert_plain_newline("");
        } else {
            let mut newline = String::new();
            proof {
                assert(encode_utf8(newline@) =~= Seq::<u8>::empty());
            }
            push_byte(&mut newline, NEWLINE);
            proof {
                assert(encode_utf8(newline@) =~= seq![NEWLINE]);
            }
            self.insert_plain_newline(newline.as_str());
        }
    }

    /// Enter on a list item: end the list at an empty one, or continue it.
    fn enter_item(&mut self, n: usize, kind: &BlockKind)
        requires
            old(self)@.wf(),
            old(self)@.caret == old(self)@.anchor,
            ({
                let line = line_of(old(self)@.text, old(self)@.caret);
                list_marker_of(tail(line, quote_len(line))) == Some((n as int, *kind))
            }),
        ensures
            final(self)@ == old(self)@.entered_item(n as int, *kind),
            final(self)@.wf(),
    {
        let ghost s = self@;
        let ls: usize = text::line_start(self.text.as_str(), self.caret);
        let le: usize = text::line_end(self.text.as_str(), self.caret);
        let line = text::line_at(self.text.as_str(), self.caret).to_owned();
        let len: usize = line.as_str().as_bytes().len();
        let ghost l = line_of(s.text, s.caret);
        proof {
            lemma_line(s.text, s.caret);
            lemma_str_valid(line@);
        }
        let (q, _) = quote_prefix(line.as_str());
        let body = slice(line.as_str(), q, len);
        let quotes = slice(line.as_str(), 0, q);
        proof {
            lemma_list_marker(tail(l, q as int));
            lemma_str_valid(body@);
            crate::block::lemma_ascii_prefix(body.spec_bytes(), n as int);
        }
        let content = slice(body, n, len - q);
        proof {
            assert(content.spec_bytes() =~= tail(l, q + n));
        }
        if is_all_white(content) && self.caret >= ls + q + n {
            let indent: usize = kind.indent();
            if indent >= 2 {
                let rebuilt = reindent(line.as_str(), indent - 2);
                self.replace_range(ls, le, rebuilt.as_str());
                self.renumber_around();
            } else {
                self.replace_range(ls, le, quotes);
            }
        } else {
            let mut prefix = quotes.to_owned();
            let marker = continuation_marker(body, kind);
            append(&mut prefix, marker.as_str());
            self.insert_plain_newline(prefix.as_str());
            self.renumber_around();
        }
    }

    /// Close the fence that the caret's line opens, leaving a blank line for the caret.
    fn close_fence(&mut self, line: &str)
        requires
            old(self)@.wf(),
            fence_line(line.spec_bytes()),
        ensures
            ({
                let s = old(self)@;
                let b = line.spec_bytes();
                let i = first_ink(b);
                final(self)@ == s.put(
                    s.caret,
                    s.caret,
                    lit("\n\n") + b.subrange(i, i + 3),
                    s.caret + 1,
                )
            }),
            final(self)@.wf(),
    {
        let ghost b = line.spec_bytes();
        proof {
            lemma_str_valid(line@);
            lemma_skip_forward(b, 0, true);
        }
        let len: usize = line.as_bytes().len();
        let i: usize = step_forward(line, 0, true);
        assert(i + 3 <= len);
        let mut with = "\n\n".to_owned();
        proof {
            crate::text::lemma_after_ascii(b, i as int);
            crate::text::lemma_after_ascii(b, i + 1);
            crate::text::lemma_after_ascii(b, i + 2);
        }
        append(&mut with, slice(line, i, i + 3));
        proof {
            let w = encode_utf8(with@);
            lemma_str_valid(with@);
            reveal_strlit("\n\n");
            vstd::utf8::is_ascii_chars_encode_utf8("\n\n"@);
            assert(w[1] == lit("\n\n")[1]);
            lemma_spliced_inside(self@.text, self.caret as int, self.caret as int, w, 1);
        }
        self.put(self.caret, self.caret, with.as_str(), 1);
    }

    /// Whether the caret stands at the end of its line and an empty line comes next.
    fn blank_line_follows(&self) -> (r: bool)
        requires
            self@.wf(),
        ensures
            r == self@.blank_follows(),
    {
        let b = self.text.as_str().as_bytes();
        b.len() - self.caret >= 2 && b[self.caret] == NEWLINE && b[self.caret + 1] == NEWLINE
    }
}

impl Editor {
    /// Backspace: the selection, a word, a block's marker, or a char.
    pub(crate) fn on_backspace(&mut self, mods: Mods) -> (r: KeyResult)
        requires
            old(self)@.wf(),
        ensures
            (final(self)@, r) == old(self)@.backspaced(mods.ctrl),
            final(self)@.wf(),
    {
        let ghost s = self@;
        if self.has_selection() {
            return self.on_cut();
        }
        if self.caret == 0 {
            return KeyResult::moved();
        }
        let was = self.before_edit();
        self.erase(mods.ctrl);
        proof {
            lemma_erasing_commutes(s, mods.ctrl);
        }
        let r = self.settle(was);
        proof {
            assert(self@ =~= s.backspaced(mods.ctrl).0);
        }
        r
    }

    /// Remove the selection, as a key press.
    fn on_cut(&mut self) -> (r: KeyResult)
        requires
            old(self)@.wf(),
        ensures
            (final(self)@, r) == old(self)@.edited_into(old(self)@.recorded().without_selection()),
            final(self)@.wf(),
    {
        let ghost s = self@;
        let was = self.before_edit();
        self.delete_selection();
        let r = self.settle(was);
        proof {
            assert(self@ =~= s.edited_into(s.recorded().without_selection()).0);
        }
        r
    }

    /// Erase what stands before the caret.
    fn erase(&mut self, word: bool)
        requires
            old(self)@.wf(),
            old(self)@.caret == old(self)@.anchor,
            old(self)@.caret > 0,
        ensures
            final(self)@ == old(self)@.erased(word),
            final(self)@.wf(),
    {
        let ghost s = self@;
        proof {
            crate::edit::lemma_empty_str();
            lemma_line(s.text, s.caret);
            crate::text::lemma_boundary_below(s.text, s.caret - 1);
        }
        if word {
            let start: usize = text::prev_word(self.text.as_str(), self.caret);
            self.replace_range(start, self.caret, "");
            return;
        }
        // Backspace at the start of a block's content removes the whole marker, turning the
        // heading or list item back into a paragraph.
        if self.at_marker_end() {
            self.remove_marker();
            return;
        }
        let start: usize = text::prev_boundary(self.text.as_str(), self.caret);
        self.replace_range(start, self.caret, "");
        self.goal_column = None;
        proof {
            assert(self@ =~= s.erased(word));
        }
    }

    /// Whether the caret stands right behind the marker of its block.
    fn at_marker_end(&self) -> (r: bool)
        requires
            self@.wf(),
        ensures
            r == self@.behind_marker(),
    {
        let ls: usize = text::line_start(self.text.as_str(), self.caret);
        match marker_length(text::line_at(self.text.as_str(), self.caret)) {
            Some(n) => n > 0 && self.caret - ls == n,
            None => false,
        }
    }

    /// Remove the marker before the caret, or move a nested list item out by two.
    fn remove_marker(&mut self)
        requires
            old(self)@.wf(),
            old(self)@.behind_marker(),
        ensures
            final(self)@ == old(self)@.unmarked(),
            final(self)@.wf(),
    {
        let ghost s = self@;
        let ls: usize = text::line_start(self.text.as_str(), self.caret);
        let line = text::line_at(self.text.as_str(), self.caret).to_owned();
        let len: usize = line.as_str().as_bytes().len();
        let indent: usize = match list_marker(line.as_str()) {
            Some((_, kind)) => kind.indent(),
            None => 0,
        };
        proof {
            let l = line_of(s.text, s.caret);
            lemma_line(s.text, s.caret);
            lemma_item_has_no_quote(l);
            lemma_list_marker(l);
            assert(l.len() == len);
            crate::edit::lemma_empty_str();
        }
        if indent >= 2 {
            // Outdent one level before removing the marker entirely.
            self.outdent_item(line.as_str(), indent);
        } else {
            self.replace_range(ls, self.caret, "");
        }
        self.renumber_around();
    }

    /// Take two off the indent of the caret's line, a list item behind whose marker the caret
    /// stands.
    fn outdent_item(&mut self, line: &str, indent: usize)
        requires
            old(self)@.wf(),
            ({
                let s = old(self)@;
                let l = line_of(s.text, s.caret);
                &&& line.spec_bytes() == l
                &&& list_marker_of(l) is Some
                &&& indent == (list_marker_of(l)->0).1.indent_spec()
                &&& indent >= 2
                &&& s.caret >= line_start_of(s.text, s.caret) + indent
            }),
        ensures
            ({
                let s = old(self)@;
                let l = line_of(s.text, s.caret);
                final(self)@ == s.put(
                    line_start_of(s.text, s.caret),
                    line_end_of(s.text, s.caret),
                    spaces((indent - 2) as nat) + tail(l, indent_len(l)),
                    s.caret - 2,
                )
            }),
            final(self)@.wf(),
    {
        let ghost s = self@;
        let ls: usize = text::line_start(self.text.as_str(), self.caret);
        let le: usize = text::line_end(self.text.as_str(), self.caret);
        let ghost l = line.spec_bytes();
        let len: usize = line.as_bytes().len();
        proof {
            lemma_line(s.text, s.caret);
            lemma_str_valid(line@);
            lemma_list_marker(l);
            lemma_indent_len(l);
            assert forall|i: int| ls <= i < ls + indent implies #[trigger] s.text[i] < 0x80 by {
                assert(is_blank(l[i - ls]));
            }
            crate::block::lemma_ascii_prefix(l, indent as int);
            lemma_indent_swap(
                s.text,
                ls as int,
                le as int,
                0,
                indent as int,
                (indent - 2) as nat,
                s.caret,
            );
        }
        let mut rebuilt = String::new();
        proof {
            assert(encode_utf8(rebuilt@) =~= Seq::<u8>::empty());
        }
        push_spaces(&mut rebuilt, indent - 2);
        append(&mut rebuilt, slice(line, indent, len));
        let along: usize = self.caret - 2 - ls;
        proof {
            let w = spaces((indent - 2) as nat) + tail(l, indent as int);
            assert(encode_utf8(rebuilt@) =~= w);
            assert(l.subrange(0, 0) + spaces((indent - 2) as nat) + tail(l, 0 + indent) =~= w);
        }
        self.put(ls, le, rebuilt.as_str(), along);
    }

    /// Delete: the selection, a word, or a char.
    pub(crate) fn on_delete(&mut self, mods: Mods) -> (r: KeyResult)
        requires
            old(self)@.wf(),
        ensures
            (final(self)@, r) == old(self)@.deleted(mods.ctrl),
            final(self)@.wf(),
    {
        let ghost s = self@;
        if self.has_selection() {
            return self.on_cut();
        }
        if self.caret >= self.text.as_str().as_bytes().len() {
            return KeyResult::moved();
        }
        let was = self.before_edit();
        proof {
            crate::edit::lemma_empty_str();
            crate::text::lemma_boundary_above(self@.text, self.caret + 1);
        }
        let end: usize = if mods.ctrl {
            text::next_word(self.text.as_str(), self.caret)
        } else {
            text::next_boundary(self.text.as_str(), self.caret)
        };
        self.replace_range(self.caret, end, "");
        let r = self.settle(was);
        proof {
            assert(self@ =~= s.deleted(mods.ctrl).0);
        }
        r
    }

    /// Tab and Shift+Tab: indent and outdent.
    pub(crate) fn on_tab(&mut self, outdent: bool) -> (r: KeyResult)
        requires
            old(self)@.wf(),
        ensures
            (final(self)@, r) == old(self)@.tabbed(outdent),
            final(self)@.wf(),
    {
        let ghost s = self@;
        let line = text::line_at(self.text.as_str(), self.caret);
        let len: usize = line.as_bytes().len();
        proof {
            lemma_str_valid(line@);
            lemma_line(s.text, s.caret);
            lemma_prefix(s.text, line_start_of(s.text, s.caret), line_end_of(s.text, s.caret));
        }
        let (q, _) = quote_prefix(line);
        let body = slice(line, q, len);
        proof {
            assert(tail(body.spec_bytes(), 0) =~= body.spec_bytes());
        }
        if list_marker(body).is_some() {
            return self.move_item(outdent);
        }
        if outdent {
            let indent: usize = count_spaces(body, 0);
            if indent == 0 {
                return KeyResult::moved();
            }
            let was = self.before_edit();
            self.move_line_out(if indent < 2 {
                1
            } else {
                2
            });
            let r = self.settle(was);
            proof {
                assert(self@ =~= s.tabbed(outdent).0);
            }
            return r;
        }
        let was = self.before_edit();
        self.delete_selection();
        self.replace_range(self.caret, self.caret, "  ");
        self.coalescing = false;
        let r = self.settle(was);
        proof {
            assert(self@ =~= s.tabbed(outdent).0);
        }
        r
    }

    /// Move the caret's list item in or out by two. Nothing is remembered of a move that leaves
    /// the text as it was.
    fn move_item(&mut self, outdent: bool) -> (r: KeyResult)
        requires
            old(self)@.wf(),
        ensures
            ({
                let s = old(self)@;
                let t = s.item_moved(outdent);
                (final(self)@, r) == if t.text == s.text {
                    (s, moved_result())
                } else {
                    (t, edited_result())
                }
            }),
            final(self)@.wf(),
    {
        let ghost s = self@;
        let was = self.before_edit();
        let caret: usize = self.caret;
        let anchor: usize = self.anchor;
        if outdent {
            self.move_item_out();
        } else {
            self.move_item_in();
        }
        self.renumber_around();
        proof {
            lemma_moving_commutes(s, outdent);
        }
        let r = self.settle(was);
        if !r.changed {
            self.caret = caret;
            self.anchor = anchor;
            proof {
                assert(self@ =~= s);
            }
        } else {
            proof {
                assert(self@ =~= s.item_moved(outdent));
            }
        }
        r
    }

    /// Shift the caret's list item in by two.
    fn move_item_in(&mut self)
        requires
            old(self)@.wf(),
        ensures
            final(self)@ == old(self)@.item_shifted(false),
            final(self)@.wf(),
    {
        let ghost s = self@;
        let ls: usize = text::line_start(self.text.as_str(), self.caret);
        let le: usize = text::line_end(self.text.as_str(), self.caret);
        let line = text::line_at(self.text.as_str(), self.caret);
        let ghost l = line_of(s.text, s.caret);
        let ghost q = quote_len(l);
        let ghost indent = indent_len(tail(l, q));
        let grown = indent_more(line);
        let along: usize = self.caret - ls;
        let total: usize = grown.as_str().as_bytes().len();
        proof {
            lemma_line(s.text, s.caret);
            lemma_prefix(s.text, ls as int, le as int);
            lemma_indent_swap(s.text, ls as int, le as int, q, indent, (indent + 2) as nat, s.caret);
            let r = spliced(s.text, ls as int, le as int, reindented(l, (indent + 2) as nat));
            assert(is_boundary(r, s.caret + 2));
            assert(along + 2 <= total);
        }
        self.put(ls, le, grown.as_str(), along + 2);
    }

    /// Shift the caret's list item out by two, or as far as it goes.
    fn move_item_out(&mut self)
        requires
            old(self)@.wf(),
        ensures
            final(self)@ == old(self)@.item_shifted(true),
            final(self)@.wf(),
    {
        let ghost s = self@;
        let ls: usize = text::line_start(self.text.as_str(), self.caret);
        let le: usize = text::line_end(self.text.as_str(), self.caret);
        let line = text::line_at(self.text.as_str(), self.caret);
        let len: usize = line.as_bytes().len();
        proof {
            lemma_str_valid(line@);
        }
        let (q, _) = quote_prefix(line);
        let indent: usize = indent_width(slice(line, q, len));
        let ghost l = line_of(s.text, s.caret);
        let fewer: usize = if indent >= 2 {
            indent - 2
        } else {
            0
        };
        let removed: usize = indent - fewer;
        let rebuilt = reindent(line, fewer);
        let along: usize = if self.caret - ls >= removed {
            self.caret - ls - removed
        } else {
            0
        };
        proof {
            lemma_line(s.text, s.caret);
            lemma_prefix(s.text, ls as int, le as int);
            lemma_indent_swap(
                s.text,
                ls as int,
                le as int,
                q as int,
                indent as int,
                fewer as nat,
                s.caret,
            );
            let r = spliced(s.text, ls as int, le as int, reindented(l, fewer as nat));
            assert(is_boundary(r, ls + along));
        }
        self.put(ls, le, rebuilt.as_str(), along);
    }

    /// Take `n` of the spaces behind the quote marks off the caret's line.
    fn move_line_out(&mut self, n: usize)
        requires
            old(self)@.wf(),
            ({
                let line = line_of(old(self)@.text, old(self)@.caret);
                0 < n <= space_run(tail(line, quote_len(line)))
            }),
        ensures
            final(self)@ == old(self)@.line_moved_out(n as int),
            final(self)@.wf(),
    {
        let ghost s = self@;
        let ls: usize = text::line_start(self.text.as_str(), self.caret);
        let le: usize = text::line_end(self.text.as_str(), self.caret);
        let line = text::line_at(self.text.as_str(), self.caret);
        let (q, _) = quote_prefix(line);
        let moved: usize = if self.caret - ls >= n {
            self.caret - n
        } else {
            ls
        };
        proof {
            lemma_line(s.text, s.caret);
            lemma_prefix(s.text, ls as int, le as int);
            lemma_indent_swap(s.text, ls as int, le as int, q as int, n as int, 0, s.caret);
            let r = spliced(s.text, ls + q, ls + q + n, Seq::empty());
            assert(spaces(0) =~= Seq::<u8>::empty());
            assert(is_boundary(r, moved as int));
            assert(is_boundary(s.text, ls + q));
            assert(is_boundary(s.text, ls + q + n));
        }
        self.cut(ls + q, ls + q + n, moved);
    }

    /// Remove the bytes from `start` up to `end`, and put the caret at `caret`.
    fn cut(&mut self, start: usize, end: usize, caret: usize)
        requires
            old(self)@.wf(),
            is_boundary(old(self)@.text, start as int),
            is_boundary(old(self)@.text, end as int),
            start <= end,
            is_boundary(
                spliced(old(self)@.text, start as int, end as int, Seq::empty()),
                caret as int,
            ),
        ensures
            final(self)@ == old(self)@.put(start as int, end as int, Seq::empty(), caret as int),
            final(self)@.wf(),
    {
        let ghost s = self@;
        proof {
            crate::edit::lemma_empty_str();
        }
        self.replace_range(start, end, "");
        self.caret = caret;
        self.anchor = caret;
        proof {
            assert(self@ =~= s.put(start as int, end as int, Seq::empty(), caret as int));
        }
    }

    /// Where the marker of the list item on `line` ends, and the state of its task box.
    fn find_item(&self, line: usize) -> (r: Option<(usize, Option<bool>)>)
        requires
            self@.wf(),
        ensures
            match (r, item_end(self@.text, line as nat)) {
                (Some((at, ticked)), Some((a, t))) => {
                    &&& at == a
                    &&& ticked == t
                    &&& is_boundary(self@.text, at as int)
                    &&& ticked is Some ==> at >= 4 && is_boundary(self@.text, at - 4)
                },
                (None, None) => true,
                _ => false,
            },
    {
        let ghost b = self@.text;
        let (ls, le) = match text::line_range(self.text.as_str(), line) {
            Some(range) => range,
            None => {
                return None;
            },
        };
        proof {
            lemma_str_valid(self.text@);
            crate::text::lemma_line_range(b, 0, line as nat);
        }
        let src = slice(self.text.as_str(), ls, le);
        let ghost l = src.spec_bytes();
        proof {
            lemma_str_valid(src@);
        }
        let (q, _) = quote_prefix(src);
        match list_marker(slice(src, q, le - ls)) {
            Some((n, kind)) => {
                let at: usize = ls + q + n;
                proof {
                    let body = tail(l, q as int);
                    lemma_quote_len(l);
                    lemma_list_marker(body);
                    lemma_indent_len(body);
                    assert forall|i: int| ls <= i < at implies #[trigger] b[i] < 0x80 by {
                        assert(b[i] == l[i - ls]);
                        if i >= ls + q {
                            assert(l[i - ls] == body[i - ls - q]);
                        }
                    }
                    lemma_indent_swap(b, ls as int, le as int, 0, at - ls, 0, 0);
                    assert(is_boundary(b, at as int));
                    if kind.checked_spec() is Some {
                        assert(is_boundary(b, at - 4));
                    }
                }
                Some((at, kind.checked()))
            },
            None => None,
        }
    }

    /// Toggle the task checkbox on `line`, adding one if the item lacks it.
    pub fn toggle_checkbox(&mut self, line: usize) -> (r: bool)
        requires
            old(self)@.wf(),
        ensures
            (final(self)@, r) == old(self)@.checkbox_toggled(line as nat),
            final(self)@.wf(),
    {
        let ghost s = self@;
        let (at, state) = match self.find_item(line) {
            Some(found) => found,
            None => {
                return false;
            },
        };
        proof {
            lemma_box_literals();
        }
        self.push_undo();
        match state {
            Some(ticked) => {
                let with = if ticked {
                    "[ ] "
                } else {
                    "[x] "
                };
                proof {
                    lemma_str_valid(with@);
                    lemma_same_size(s.text, (at - 4) as int, at as int, with.spec_bytes());
                    lemma_spliced(s.text, at - 4, at as int, with.spec_bytes());
                }
                self.text = crate::bytes::splice(self.text.as_str(), at - 4, at, with);
            },
            None => {
                let ghost w = lit("[ ] ");
                proof {
                    lemma_str_valid("[ ] "@);
                    lemma_spliced(s.text, at as int, at as int, w);
                    if s.caret >= at {
                        lemma_spliced_behind(s.text, at as int, at as int, w, s.caret);
                    }
                }
                self.text = crate::bytes::splice(self.text.as_str(), at, at, "[ ] ");
                let total: usize = self.text.as_str().as_bytes().len();
                if self.caret >= at {
                    assert(self.caret + 4 <= total);
                    self.caret += 4;
                    self.anchor = self.caret;
                } else {
                    self.anchor = text::clamp_boundary(self.text.as_str(), self.anchor);
                }
            },
        }
        self.dirty = true;
        proof {
            assert(self@ =~= s.checkbox_toggled(line as nat).0);
        }
        true
    }
}

/// A line with as many spaces behind its quote marks as it has blanks there, and two more.
fn indent_more(line: &str) -> (r: String)
    ensures
        encode_utf8(r@) == reindented(
            line.spec_bytes(),
            (indent_len(tail(line.spec_bytes(), quote_len(line.spec_bytes()))) + 2) as nat,
        ),
{
    let len: usize = line.as_bytes().len();
    proof {
        lemma_str_valid(line@);
    }
    let (q, _) = quote_prefix(line);
    let body = slice(line, q, len);
    let ws: usize = indent_width(body);
    proof {
        lemma_str_valid(body@);
        assert(tail(body.spec_bytes(), ws as int) =~= tail(line.spec_bytes(), q + ws));
        assert(spaces(2) + spaces(ws as nat) =~= spaces((ws + 2) as nat));
    }
    let mut r = slice(line, 0, q).to_owned();
    let ghost head = encode_utf8(r@);
    push_spaces(&mut r, 2);
    push_spaces(&mut r, ws);
    proof {
        assert(encode_utf8(r@) =~= head + spaces((ws + 2) as nat));
    }
    append(&mut r, slice(body, ws, len - q));
    r
}

/// Both task boxes are four ASCII bytes.
proof fn lemma_box_literals()
    ensures
        lit("[ ] ").len() == 4,
        lit("[x] ").len() == 4,
        forall|i: int| 0 <= i < 4 ==> #[trigger] lit("[ ] ")[i] < 0x80,
        forall|i: int| 0 <= i < 4 ==> #[trigger] lit("[x] ")[i] < 0x80,
{
    reveal_strlit("[ ] ");
    reveal_strlit("[x] ");
    vstd::utf8::is_ascii_chars_encode_utf8("[ ] "@);
    vstd::utf8::is_ascii_chars_encode_utf8("[x] "@);
}

/// Replacing ASCII bytes by as many others moves no boundary.
proof fn lemma_same_size(b: Seq<u8>, start: int, end: int, with: Seq<u8>)
    requires
        valid_utf8(b),
        is_boundary(b, start),
        is_boundary(b, end),
        start <= end,
        with.len() == end - start,
        forall|i: int| 0 <= i < with.len() ==> #[trigger] with[i] < 0x80,
    ensures
        forall|i: int| is_boundary(b, i) ==> #[trigger] is_boundary(spliced(b, start, end, with), i),
{
    let r = spliced(b, start, end, with);
    assert forall|i: int| is_boundary(b, i) implies #[trigger] is_boundary(r, i) by {
        if start <= i < end {
            assert(r[i] == with[i - start]);
        } else if i < b.len() {
            assert(r[i] == b[i]);
        }
    }
}

} // verus!
