//! What Backspace does right behind the marker of a block.

use vstd::prelude::*;

use crate::ascii::SPACE;
use crate::block::{lemma_list_marker, list_marker_of, tail};
use crate::bytes::spliced;
use crate::keys::{Key, Mods};
use crate::lines::line_of;
use crate::pressing::{list_renumbered, outcome_of, put_in};
use crate::session::Session;
use crate::text::{
    indent_len, lemma_indent_len, lemma_line_end, lemma_line_start, line_end_of, line_start_of,
};
use crate::typing::{marker_len_of, spaces};

verus! {

proof fn lemma_backspace_key(s: Session, mods: Mods)
    requires
        s.caret == s.anchor,
        s.caret > 0,
        !mods.ctrl,
        s.behind_marker(),
    ensures
        ({
            let u = Session { coalescing: false, ..s };
            outcome_of(s, Key::Backspace, mods) == u.edited_into(u.recorded().unmarked())
        }),
{
    reveal(outcome_of);
    let u = Session { coalescing: false, ..s };
    assert(s.after_key(Key::Backspace, mods) == u.backspaced(false));
    assert(u.recorded().behind_marker());
}

proof fn lemma_unmarked(v: Session)
    requires
        0 <= v.caret <= v.text.len(),
        v.text.len() <= usize::MAX,
    ensures
        ({
            let b = v.text;
            let ls = line_start_of(b, v.caret);
            let line = line_of(b, v.caret);
            let w = indent_len(line);
            let (text, caret) = if list_marker_of(line) is Some && w >= 2 {
                (put_in(b, ls, ls + w, Seq::new((w - 2) as nat, |i: int| SPACE)), v.caret - 2)
            } else {
                (put_in(b, ls, v.caret, Seq::empty()), ls)
            };
            v.unmarked() == list_renumbered(
                Session { text, caret, anchor: caret, dirty: true, ..v },
            )
        }),
{
    reveal(list_renumbered);
    let b = v.text;
    let ls = line_start_of(b, v.caret);
    let le = line_end_of(b, v.caret);
    lemma_line_start(b, v.caret);
    lemma_line_end(b, v.caret);
    let line = line_of(b, v.caret);
    let w = indent_len(line);
    lemma_indent_len(line);
    lemma_list_marker(line);
    if list_marker_of(line) is Some && w >= 2 {
        let n = (w - 2) as nat;
        let text = put_in(b, ls, ls + w, Seq::new(n, |i: int| SPACE));
        assert(spliced(b, ls, le, spaces(n) + tail(line, w)) =~= text);
    } else {
        assert(spliced(b, ls, v.caret, Seq::empty()) == put_in(b, ls, v.caret, Seq::empty()));
    }
}

/// Backspace right behind the marker of a block takes the marker away, from the start of the
/// line on; a list item that is nested moves out by two columns instead. Then the list around
/// is renumbered.
pub proof fn law_backspace_takes_a_marker_away(s: Session, mods: Mods)
    requires
        s.wf(),
        s.text.len() <= usize::MAX,
        s.caret == s.anchor,
        !mods.ctrl,
        s.caret > line_start_of(s.text, s.caret),
        marker_len_of(line_of(s.text, s.caret)) == Some(s.caret - line_start_of(s.text, s.caret)),
    ensures
        ({
            let b = s.text;
            let ls = line_start_of(b, s.caret);
            let line = line_of(b, s.caret);
            let u = Session { coalescing: false, ..s };
            let w = indent_len(line);
            let (text, caret) = if list_marker_of(line) is Some && w >= 2 {
                (put_in(b, ls, ls + w, Seq::new((w - 2) as nat, |i: int| SPACE)), s.caret - 2)
            } else {
                (put_in(b, ls, s.caret, Seq::empty()), ls)
            };
            outcome_of(s, Key::Backspace, mods) == u.edited_into(
                list_renumbered(
                    Session { text, caret, anchor: caret, dirty: true, ..u.recorded() },
                ),
            )
        }),
{
    let u = Session { coalescing: false, ..s };
    lemma_line_start(s.text, s.caret);
    lemma_backspace_key(s, mods);
    lemma_unmarked(u.recorded());
}

} // verus!
