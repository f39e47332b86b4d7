//! What holds of a session whatever is done to it.

use vstd::prelude::*;
use vstd::string::*;

use crate::block::{
    BlockKind, lemma_quote_len, lemma_space_run, list_marker_of, quote_len, space_run, tail,
};
use crate::bytes::is_boundary;
use crate::keys::{Key, KeyResult, Mods, moved_result};
use crate::lines::line_of;
use crate::press::is_letter;
use crate::session::{
    lemma_recorded_top, MAX_HEIGHT, MAX_WIDTH, MIN_HEIGHT, MIN_WIDTH, Session, Snap, UNDO_LIMIT,
};
use crate::text::{indent_len, lemma_line_end, lemma_line_start, line_end_of, line_start_of};
use crate::typing::{continuation, delimiter_of, lemma_typing_grows, reindented, spaces};

verus! {

/// The key takes the session back or forth in its history.
pub open spec fn is_history_key(key: Key, mods: Mods) -> bool {
    match key {
        Key::Char(c) => mods.ctrl && (is_letter(c, 'z', 'Z') || is_letter(c, 'y', 'Y')),
        _ => false,
    }
}

/// The key is for the host: Ctrl with an O or an S.
pub open spec fn is_command_key(key: Key, mods: Mods) -> bool {
    match key {
        Key::Char(c) => mods.ctrl && (is_letter(c, 'o', 'O') || is_letter(c, 's', 'S')),
        _ => false,
    }
}

/// A run of chars typed one after the other.
pub open spec fn typed_all(s: Session, cs: Seq<char>) -> Session
    decreases cs.len(),
{
    if cs.len() == 0 {
        s
    } else {
        let t = typed_all(s, cs.drop_last());
        t.edited_into(t.typed(cs.last())).0
    }
}

/// The settings that belong to no document: view, theme and size, and the file.
pub open spec fn same_settings(s: Session, t: Session) -> bool {
    &&& t.mode == s.mode
    &&& t.theme == s.theme
    &&& t.width == s.width
    &&& t.height == s.height
    &&& t.file == s.file
}

/// `t` comes from `s` by an edit that is a step of its own: one more document in the history,
/// nothing left to redo, unsaved changes, and no setting touched.
pub open spec fn is_step(s: Session, t: Session) -> bool {
    &&& same_settings(s, t)
    &&& t.dirty
    &&& t.undo == s.recorded().undo
    &&& t.redo == Seq::<Snap>::empty()
}

/// The document, its history and the settings are as they were.
pub open spec fn is_quiet(s: Session, t: Session) -> bool {
    &&& same_settings(s, t)
    &&& t.text == s.text
    &&& t.undo == s.undo
    &&& t.redo == s.redo
    &&& t.dirty == s.dirty
}

/// A key press came to an edit: a step of its own if it reports a change, and otherwise nothing
/// but, perhaps, another place for the caret.
pub open spec fn is_edit(s: Session, outcome: (Session, KeyResult)) -> bool {
    &&& outcome.1.handled
    &&& outcome.1.command is None
    &&& if outcome.1.changed {
        outcome.0.text != s.text && is_step(s, outcome.0)
    } else {
        is_quiet(s, outcome.0)
    }
}

proof fn lemma_renumbered_settings(s: Session)
    ensures
        same_settings(s, s.renumbered()),
        s.dirty ==> s.renumbered().dirty,
        s.renumbered().undo == s.undo,
        s.renumbered().redo == s.redo,
{
}

/// Enter is a step of its own wherever it changes the text.
pub proof fn law_enter_is_a_step(s: Session)
    ensures
        is_edit(s, s.edited_into(s.entered())),
{
    let t = s.recorded().without_selection();
    assert(same_settings(s, t));
    assert(t.undo == s.recorded().undo);
    let line = line_of(t.text, t.caret);
    let q = quote_len(line);
    let body = tail(line, q);
    match list_marker_of(body) {
        Some((len, kind)) => {
            lemma_entered_item(t, len, kind);
        },
        None => {},
    }
}

proof fn lemma_entered_item(t: Session, len: int, kind: BlockKind)
    ensures
        same_settings(t, t.entered_item(len, kind)),
        t.entered_item(len, kind).dirty,
        t.entered_item(len, kind).undo == t.undo,
        t.entered_item(len, kind).redo == t.redo,
{
    let ls = line_start_of(t.text, t.caret);
    let le = line_end_of(t.text, t.caret);
    let line = line_of(t.text, t.caret);
    let q = quote_len(line);
    let rebuilt = reindented(line, (kind.indent_spec() - 2) as nat);
    lemma_renumbered_settings(t.put(ls, le, rebuilt, ls + rebuilt.len()));
    lemma_renumbered_settings(
        t.broken(
            line.subrange(0, q) + continuation(tail(line, q), kind),
        ),
    );
}

/// Backspace is a step of its own wherever it changes the text, and does nothing at the start
/// of the text.
pub proof fn law_backspace_is_a_step(s: Session, word: bool)
    ensures
        s.caret == s.anchor && s.caret == 0 ==> s.backspaced(word) == (s, moved_result()),
        is_edit(s, s.backspaced(word)),
{
    let t = s.recorded();
    assert(same_settings(t, t.unmarked()) && t.unmarked().dirty && t.unmarked().undo == t.undo
        && t.unmarked().redo == t.redo) by {
        let ls = line_start_of(t.text, t.caret);
        let le = line_end_of(t.text, t.caret);
        let line = line_of(t.text, t.caret);
        let indent = match list_marker_of(line) {
            Some((_, kind)) => kind.indent_spec() as int,
            None => 0,
        };
        let rebuilt = spaces((indent - 2) as nat) + tail(
            line,
            indent_len(line),
        );
        lemma_renumbered_settings(t.put(ls, le, rebuilt, t.caret - 2));
        lemma_renumbered_settings(t.put(ls, t.caret, Seq::empty(), ls));
    }
}

/// Tab is a step of its own wherever it changes the text. Shift+Tab does nothing at all where
/// there is nothing to take away.
pub proof fn law_tab_is_a_step(s: Session, outdent: bool)
    ensures
        is_edit(s, s.tabbed(outdent)),
        outdent && !s.tabbed(outdent).1.changed && s.wf() ==> s.tabbed(outdent).0 == s,
{
    lemma_renumbered_settings(s.recorded().item_shifted(outdent));
    assert(is_step(s, s.item_moved(outdent)));
    if s.wf() {
        let ls = line_start_of(s.text, s.caret);
        let line = line_of(s.text, s.caret);
        let q = quote_len(line);
        lemma_line_start(s.text, s.caret);
        lemma_line_end(s.text, s.caret);
        lemma_quote_len(line);
        lemma_space_run(tail(line, q));
        let n = if space_run(tail(line, q)) < 2 {
            1
        } else {
            2
        };
        if space_run(tail(line, q)) > 0 {
            assert(ls + q + n <= s.text.len());
            assert(s.recorded().line_moved_out(n).text.len() == s.text.len() - n);
        }
    }
}

/// A typed char is a step of its own wherever it changes the text, unless it adds to a run of
/// typing; then there is no other step, and still nothing left to redo.
pub proof fn law_typed_char_is_a_step(s: Session, c: char)
    ensures
        ({
            let (t, r) = s.edited_into(s.typed(c));
            &&& !s.coalescing ==> is_edit(s, (t, r))
            &&& !r.changed ==> is_quiet(s, t)
            &&& r.changed ==> {
                &&& t.text != s.text
                &&& same_settings(s, t)
                &&& t.dirty
                &&& t.redo == Seq::<Snap>::empty()
            }
        }),
{
}

proof fn lemma_delete(s: Session, word: bool)
    ensures
        is_edit(s, s.deleted(word)),
{
}

proof fn lemma_motion(s: Session, key: Key, mods: Mods)
    ensures
        is_quiet(s, s.moved(key, mods)),
{
}

proof fn lemma_shortcut(s: Session, c: char, shift: bool)
    ensures
        match s.after_shortcut(c, shift) {
            None => true,
            Some((t, r)) => {
                &&& r.handled
                &&& t.width == s.width && t.height == s.height && t.file == s.file
                &&& if is_letter(c, 'z', 'Z') || is_letter(c, 'y', 'Y') {
                    &&& same_settings(s, t)
                    &&& t.dirty == (s.dirty || t.text != s.text)
                } else if r.changed {
                    is_step(s, t)
                } else {
                    &&& t.text == s.text
                    &&& t.undo == s.undo
                    &&& t.redo == s.redo
                    &&& t.dirty == s.dirty
                    &&& t.mode != s.mode || t.theme != s.theme ==> t.snap() == s.snap()
                }
                &&& r.changed == (t.text != s.text)
                &&& r.command is Some <==> is_letter(c, 'o', 'O') || is_letter(c, 's', 'S')
                &&& r.command is Some ==> t == s
            },
        },
{
}

/// What the keys that edit come to, but for chars.
proof fn lemma_editing_key(s: Session, key: Key, mods: Mods)
    requires
        key is Enter || key is Backspace || key is Delete || key is Tab,
    ensures
        is_edit(s, s.after_plain_key(key, mods)),
{
    if key is Enter {
        law_enter_is_a_step(s);
    } else if key is Backspace {
        law_backspace_is_a_step(s, mods.ctrl);
    } else if key is Delete {
        lemma_delete(s, mods.ctrl);
    } else {
        law_tab_is_a_step(s, mods.shift);
    }
}

/// What the other keys come to.
proof fn lemma_moving_key(s: Session, key: Key, mods: Mods)
    requires
        !(key is Char || key is Enter || key is Backspace || key is Delete || key is Tab),
    ensures
        is_edit(s, s.after_plain_key(key, mods)),
{
    lemma_motion(s, key, mods);
}

/// That a run of typing has ended makes no difference to an edit.
proof fn lemma_run_ended(s: Session, u: Session, outcome: (Session, KeyResult))
    requires
        u == (Session { coalescing: false, ..s }),
        is_edit(u, outcome),
    ensures
        is_edit(s, outcome),
{
    assert(u.recorded().undo == s.recorded().undo);
}

/// What any key but a char comes to.
proof fn lemma_other_key(s: Session, key: Key, mods: Mods)
    requires
        !(key is Char),
    ensures
        is_edit(s, s.after_key(key, mods)),
{
    let u = Session { coalescing: false, ..s };
    if key is Enter || key is Backspace || key is Delete || key is Tab {
        lemma_editing_key(u, key, mods);
    } else {
        lemma_moving_key(u, key, mods);
    }
    lemma_run_ended(s, u, u.after_plain_key(key, mods));
}

/// What any key comes to.
proof fn lemma_key_effect(s: Session, key: Key, mods: Mods)
    ensures
        ({
            let (t, r) = s.after_key(key, mods);
            &&& r.handled
            &&& t.width == s.width && t.height == s.height && t.file == s.file
            &&& r.changed == (t.text != s.text)
            &&& t.dirty == (s.dirty || r.changed)
            &&& !r.changed && !is_history_key(key, mods) ==> t.undo == s.undo && t.redo == s.redo
            &&& r.changed && !is_history_key(key, mods) ==> same_settings(s, t) && t.dirty
            &&& r.changed && !is_history_key(key, mods) && !(key is Char && s.coalescing)
                ==> is_step(s, t)
            &&& is_history_key(key, mods) ==> same_settings(s, t)
            &&& t.mode != s.mode || t.theme != s.theme ==> {
                &&& t.snap() == s.snap()
                &&& t.undo == s.undo
                &&& t.redo == s.redo
                &&& t.dirty == s.dirty
            }
            &&& r.command is Some <==> is_command_key(key, mods)
            &&& r.command is Some ==> t == s
        }),
{
    match key {
        Key::Char(c) => {
            law_typed_char_is_a_step(s, c);
            lemma_shortcut(s, c, mods.shift);
        },
        _ => {
            lemma_other_key(s, key, mods);
        },
    }
}

/// A key press reports a change exactly if it leaves another text.
pub proof fn law_changed_means_changed(s: Session, key: Key, mods: Mods)
    ensures
        s.after_key(key, mods).1.changed <==> s.after_key(key, mods).0.text != s.text,
{
    lemma_key_effect(s, key, mods);
}

/// A key press that reports no change leaves the text and what is unsaved as they were.
pub proof fn law_unchanged_press_leaves_dirty(s: Session, key: Key, mods: Mods)
    ensures
        !s.after_key(key, mods).1.changed ==> s.after_key(key, mods).0.text == s.text && s.after_key(
            key,
            mods,
        ).0.dirty == s.dirty,
{
    lemma_key_effect(s, key, mods);
}

/// A key press that reports no change leaves the history as it was, unless it is one that goes
/// back or forth in it.
pub proof fn law_unchanged_press_leaves_the_history(s: Session, key: Key, mods: Mods)
    requires
        !is_history_key(key, mods),
    ensures
        !s.after_key(key, mods).1.changed ==> s.after_key(key, mods).0.undo == s.undo
            && s.after_key(key, mods).0.redo == s.redo,
{
    lemma_key_effect(s, key, mods);
}

/// Only Open, Save and Save As are for the host to carry out: Ctrl with an O or an S. They
/// change nothing.
pub proof fn law_commands_are_for_the_host(s: Session, key: Key, mods: Mods)
    ensures
        ({
            let (t, r) = s.after_key(key, mods);
            &&& r.command is Some <==> is_command_key(key, mods)
            &&& r.command is Some ==> t == s && !r.changed
        }),
{
    lemma_key_effect(s, key, mods);
}

/// A key press that changes the text leaves unsaved changes.
pub proof fn law_changed_text_is_dirty(s: Session, key: Key, mods: Mods)
    ensures
        s.after_key(key, mods).0.text != s.text ==> s.after_key(key, mods).0.dirty,
{
    lemma_key_effect(s, key, mods);
}

/// No key press takes away from the unsaved changes.
pub proof fn law_dirty_stays_dirty(s: Session, key: Key, mods: Mods)
    ensures
        s.dirty ==> s.after_key(key, mods).0.dirty,
{
    lemma_key_effect(s, key, mods);
}

/// Every key the editor knows of is handled: all of them.
pub proof fn law_every_key_is_handled(s: Session, key: Key, mods: Mods)
    ensures
        s.after_key(key, mods).1.handled,
{
    lemma_key_effect(s, key, mods);
}

/// Whatever a key does to the document, it leaves the window size and the file alone.
pub proof fn law_keys_keep_size_and_file(s: Session, key: Key, mods: Mods)
    ensures
        ({
            let t = s.after_key(key, mods).0;
            t.width == s.width && t.height == s.height && t.file == s.file
        }),
{
    lemma_key_effect(s, key, mods);
}

/// A key that changes the view or the theme touches neither the document nor its history, and
/// reports no change.
pub proof fn law_view_keys_leave_the_document(s: Session, key: Key, mods: Mods)
    ensures
        ({
            let (t, r) = s.after_key(key, mods);
            t.mode != s.mode || t.theme != s.theme ==> {
                &&& !r.changed
                &&& t.snap() == s.snap()
                &&& t.undo == s.undo
                &&& t.redo == s.redo
                &&& t.dirty == s.dirty
            }
        }),
{
    lemma_key_effect(s, key, mods);
}

/// Undo and redo bring back documents, and no view settings with them.
pub proof fn law_history_keeps_the_view(s: Session)
    ensures
        ({
            let t = s.undone();
            t.mode == s.mode && t.theme == s.theme && t.width == s.width && t.height == s.height
                && t.file == s.file
        }),
        ({
            let t = s.redone();
            t.mode == s.mode && t.theme == s.theme && t.width == s.width && t.height == s.height
                && t.file == s.file
        }),
{
}

/// Redo takes back what undo did, down to the caret and both stacks.
pub proof fn law_redo_reverts_undo(s: Session)
    requires
        s.undo.len() > 0,
    ensures
        s.undone().redone().snap() == s.snap(),
        s.undone().redone().undo == s.undo,
        s.undone().redone().redo == s.redo,
{
    assert(s.undo.drop_last().push(s.undo.last()) =~= s.undo);
    assert(s.redo.push(s.snap()).drop_last() =~= s.redo);
}

/// Undo takes back what redo did, down to the caret and both stacks.
pub proof fn law_undo_reverts_redo(s: Session)
    requires
        s.redo.len() > 0,
    ensures
        s.redone().undone().snap() == s.snap(),
        s.redone().undone().undo == s.undo,
        s.redone().undone().redo == s.redo,
{
    assert(s.redo.drop_last().push(s.redo.last()) =~= s.redo);
    assert(s.undo.push(s.snap()).drop_last() =~= s.undo);
}

/// One undo takes back an edit: the text, the caret and the selection are what they were
/// before the key was pressed. In a run of typing, where chars add to one step, it takes back
/// the run (see [`law_typing_run_is_one_step`]).
pub proof fn law_undo_takes_back_an_edit(s: Session, key: Key, mods: Mods)
    requires
        s.wf(),
        s.after_key(key, mods).1.changed,
        !is_history_key(key, mods),
        !(key is Char && s.coalescing),
    ensures
        s.after_key(key, mods).0.undone().snap() == s.snap(),
{
    lemma_recorded_top(s);
    lemma_key_effect(s, key, mods);
}

/// A run of typing is undone at one stroke, to where it began. It may begin with a selection,
/// unless its first char wraps that instead of replacing it, or is what was selected.
pub proof fn law_typing_run_is_one_step(s: Session, cs: Seq<char>)
    requires
        s.wf(),
        cs.len() > 0,
        !s.coalescing,
        s.caret == s.anchor || (delimiter_of(cs[0]) is None && cs[0] != '[' && s.typed(cs[0]).text
            != s.text),
    ensures
        typed_all(s, cs).undone().snap() == s.snap(),
{
    lemma_recorded_top(s);
    lemma_typing_run(s, cs);
}

proof fn lemma_typing_run(s: Session, cs: Seq<char>)
    requires
        s.wf(),
        cs.len() > 0,
        !s.coalescing,
        s.caret == s.anchor || (delimiter_of(cs[0]) is None && cs[0] != '[' && s.typed(cs[0]).text
            != s.text),
    ensures
        typed_all(s, cs).undo == s.recorded().undo,
        typed_all(s, cs).coalescing,
        typed_all(s, cs).caret == typed_all(s, cs).anchor,
    decreases cs.len(),
{
    reveal_with_fuel(typed_all, 2);
    if cs.len() > 1 {
        lemma_typing_run(s, cs.drop_last());
    } else {
        assert(cs.drop_last() =~= Seq::<char>::empty());
        if s.caret == s.anchor {
            lemma_typing_grows(s, cs[0]);
        }
    }
}

/// Whatever size is asked for, the window stays within its bounds; a size within them is
/// taken as it is.
pub proof fn law_size_is_bounded(s: Session, width: i32, height: i32)
    ensures
        MIN_WIDTH <= s.sized(width, height).width <= MAX_WIDTH,
        MIN_HEIGHT <= s.sized(width, height).height <= MAX_HEIGHT,
        MIN_WIDTH <= width <= MAX_WIDTH ==> s.sized(width, height).width == width,
        MIN_HEIGHT <= height <= MAX_HEIGHT ==> s.sized(width, height).height == height,
{
}

/// Setting the size that was set changes nothing.
pub proof fn law_size_settles(s: Session, width: i32, height: i32)
    ensures
        ({
            let t = s.sized(width, height);
            t.sized(t.width, t.height) == t
        }),
{
}

/// The history never grows beyond its limit: recording a step when it is full drops the
/// oldest, and keeps all others.
pub proof fn law_full_history_drops_the_oldest(s: Session)
    requires
        s.wf(),
    ensures
        s.recorded().undo.len() <= UNDO_LIMIT,
        s.undo.len() == UNDO_LIMIT ==> s.recorded().undo == s.undo.drop_first().push(s.snap()),
        s.undo.len() < UNDO_LIMIT ==> s.recorded().undo == s.undo.push(s.snap()),
        s.recorded().redo.len() == 0,
{
    if s.undo.len() == UNDO_LIMIT {
        assert(s.undo.push(s.snap()).drop_first() =~= s.undo.drop_first().push(s.snap()));
    }
}

/// Selecting takes the two ends, each put on the boundary at or before it, and changes nothing
/// else but that typing starts a new step.
pub proof fn law_selecting_takes_the_ends(s: Session, start: int, end: int)
    requires
        s.wf(),
        is_boundary(s.text, start),
        is_boundary(s.text, end),
    ensures
        s.select(start, end) == (Session { anchor: start, caret: end, coalescing: false, ..s }),
        s.select(start, end).selected() == s.text.subrange(
            if start <= end {
                start
            } else {
                end
            },
            if start <= end {
                end
            } else {
                start
            },
        ),
        s.caret_at(end).caret == end && s.caret_at(end).anchor == end && s.caret_at(end).text == s.text,
{
}

/// Text put in takes the place of the selection, and the caret ends up behind it.
pub proof fn law_inserted_text_replaces_the_selection(s: Session, with: Seq<u8>)
    requires
        s.wf(),
    ensures
        ({
            let t = s.insert(with);
            let (i, j) = if s.caret <= s.anchor {
                (s.caret, s.anchor)
            } else {
                (s.anchor, s.caret)
            };
            &&& t.text == s.text.subrange(0, i) + with + s.text.subrange(j, s.text.len() as int)
            &&& t.caret == i + with.len()
            &&& t.anchor == t.caret
            &&& t.dirty
            &&& t.undo.len() > 0 && t.undo.last() == s.snap()
            &&& t.redo.len() == 0
        }),
{
    let (i, j) = if s.caret <= s.anchor {
        (s.caret, s.anchor)
    } else {
        (s.anchor, s.caret)
    };
    assert(s.insert(with).text =~= s.text.subrange(0, i) + with + s.text.subrange(
        j,
        s.text.len() as int,
    ));
}

/// A selection runs from the one of its ends that comes first to the other.
pub proof fn law_selection_runs_forward(s: Session)
    ensures
        s.start() <= s.end(),
        s.start() == s.caret && s.end() == s.anchor || s.start() == s.anchor && s.end() == s.caret,
{
}

/// Other text put in place of the document keeps the caret where it was, as far as the text and
/// its chars allow.
pub proof fn law_replaced_text(s: Session, text: Seq<u8>)
    ensures
        s.replaced(text).text == text,
        is_boundary(text, s.caret) ==> s.replaced(text).caret == s.caret,
        s.caret >= text.len() ==> s.replaced(text).caret == text.len(),
        s.replaced(text).anchor == s.replaced(text).caret,
{
}

/// An edit leaves nothing to redo, and one step to undo more than there was, unless it goes on
/// with a run of typing.
pub proof fn law_edit_leaves_nothing_to_redo(s: Session, key: Key, mods: Mods)
    requires
        s.after_key(key, mods).1.changed,
        !is_history_key(key, mods),
    ensures
        s.after_key(key, mods).0.redo.len() == 0,
        !(key is Char && s.coalescing) ==> s.after_key(key, mods).0.undo == s.recorded().undo,
{
    lemma_key_effect(s, key, mods);
    if s.coalescing {
        match key {
            Key::Char(c) => {
                if mods.ctrl && s.after_shortcut(c, mods.shift) is Some {
                    lemma_shortcut(s, c, mods.shift);
                } else {
                    assert(s.after_key(key, mods) == s.edited_into(s.typed(c)));
                }
            },
            _ => {},
        }
    }
}

} // verus!
