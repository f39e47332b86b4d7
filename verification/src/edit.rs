//! The editor: the document, the caret, the view settings and the history.
//!
//! The markdown source is always the single source of truth. What happens to it on a key
//! press is the business of the modules [`crate::typing`], [`crate::motion`] and
//! [`crate::press`].

use std::ops::Range;

use vstd::prelude::*;
use vstd::string::*;
use vstd::utf8::encode_utf8;

use crate::bytes::{is_boundary, lemma_str_valid, same_text, slice, splice, spliced};
use crate::keys::{edited_result, moved_result, KeyResult, Theme, ViewMode};
use crate::session::{
    lemma_put, lemma_recorded, lemma_spliced_inside, lemma_without_selection, DEFAULT_HEIGHT,
    DEFAULT_WIDTH, MAX_HEIGHT, MAX_WIDTH, MIN_HEIGHT, MIN_WIDTH, Session, Snap, UNDO_LIMIT,
};
use crate::text;
use crate::text::{column_at, line_index_of};

verus! {

/// A document as the history remembers it.
pub(crate) struct Snapshot {
    pub(crate) text: String,
    pub(crate) caret: usize,
    pub(crate) anchor: usize,
}

impl View for Snapshot {
    type V = Snap;

    open(crate) spec fn view(&self) -> Snap {
        Snap {
            text: encode_utf8(self.text@),
            caret: self.caret as int,
            anchor: self.anchor as int,
        }
    }
}

/// What is kept while an edit goes on.
pub(crate) struct Before {
    pub(crate) snap: Snapshot,
    pub(crate) dirty: bool,
    pub(crate) coalescing: bool,
}

/// What a list of remembered documents stands for.
pub(crate) open(crate) spec fn snaps(v: Seq<Snapshot>) -> Seq<Snap> {
    Seq::new(v.len(), |i: int| v[i]@)
}

/// The editor state. Owns the document and everything persisted as plugin state.
pub struct Editor {
    pub(crate) text: String,
    pub(crate) caret: usize,
    pub(crate) anchor: usize,
    pub(crate) goal_column: Option<usize>,
    pub mode: ViewMode,
    pub theme: Theme,
    pub width: i32,
    pub height: i32,
    pub file: Option<String>,
    pub dirty: bool,
    pub(crate) undo: Vec<Snapshot>,
    pub(crate) redo: Vec<Snapshot>,
    pub(crate) coalescing: bool,
}

impl View for Editor {
    type V = Session;

    open(crate) spec fn view(&self) -> Session {
        Session {
            text: encode_utf8(self.text@),
            caret: self.caret as int,
            anchor: self.anchor as int,
            goal: match self.goal_column {
                Some(c) => Some(c as nat),
                None => None,
            },
            mode: self.mode,
            theme: self.theme,
            width: self.width,
            height: self.height,
            file: match self.file {
                Some(f) => Some(f@),
                None => None,
            },
            dirty: self.dirty,
            undo: snaps(self.undo@),
            redo: snaps(self.redo@),
            coalescing: self.coalescing,
        }
    }
}

impl Default for Editor {
    fn default() -> (e: Editor)
        ensures
            e@ == Session::fresh(Seq::empty()),
            e@.wf(),
    {
        Editor::new()
    }
}

impl Editor {
    /// An empty document.
    pub fn new() -> (e: Editor)
        ensures
            e@ == Session::fresh(Seq::empty()),
            e@.wf(),
    {
        proof {
            lemma_empty_str();
        }
        Editor::with_text("")
    }

    /// A document holding `text`, with the caret at its end.
    pub fn with_text(text: &str) -> (e: Editor)
        ensures
            e@ == Session::fresh(text.spec_bytes()),
            e@.wf(),
    {
        let caret: usize = text.as_bytes().len();
        proof {
            lemma_str_valid(text@);
        }
        Editor {
            text: text.to_owned(),
            caret,
            anchor: caret,
            goal_column: None,
            mode: ViewMode::Wysiwyg,
            theme: Theme::Auto,
            width: DEFAULT_WIDTH,
            height: DEFAULT_HEIGHT,
            file: None,
            dirty: false,
            undo: Vec::new(),
            redo: Vec::new(),
            coalescing: false,
        }
    }

    // ---- accessors ---------------------------------------------------------

    pub fn text(&self) -> (r: &str)
        ensures
            r.spec_bytes() == self@.text,
    {
        self.text.as_str()
    }

    pub fn caret(&self) -> (r: usize)
        ensures
            r == self@.caret,
    {
        self.caret
    }

    pub fn anchor(&self) -> (r: usize)
        ensures
            r == self@.anchor,
    {
        self.anchor
    }

    /// The selected range, empty when there is no selection.
    pub fn selection(&self) -> (r: Range<usize>)
        ensures
            r.start == self@.start(),
            r.end == self@.end(),
    {
        if self.caret <= self.anchor {
            self.caret..self.anchor
        } else {
            self.anchor..self.caret
        }
    }

    pub fn selected_text(&self) -> (r: &str)
        requires
            self@.wf(),
        ensures
            r.spec_bytes() == self@.selected(),
    {
        let range = self.selection();
        slice(self.text.as_str(), range.start, range.end)
    }

    pub fn has_selection(&self) -> (r: bool)
        ensures
            r == (self@.caret != self@.anchor),
    {
        self.caret != self.anchor
    }

    /// Zero-based index of the line the caret is on.
    pub fn caret_line(&self) -> (r: usize)
        requires
            self@.wf(),
        ensures
            r == line_index_of(self@.text, self@.caret),
    {
        text::line_index(self.text.as_str(), self.caret)
    }

    /// Column of the caret, in chars.
    pub fn caret_column(&self) -> (r: usize)
        requires
            self@.wf(),
        ensures
            r == column_at(self@.text, self@.caret),
    {
        text::column_of(self.text.as_str(), self.caret)
    }

    // ---- setters -----------------------------------------------------------

    /// Replace the whole document, e.g. when loading a file or plugin state.
    pub fn set_text(&mut self, new: &str)
        requires
            old(self)@.wf(),
        ensures
            final(self)@ == old(self)@.replaced(new.spec_bytes()),
            final(self)@.wf(),
    {
        proof {
            lemma_str_valid(new@);
            lemma_recorded(self@);
        }
        self.push_undo();
        self.text = new.to_owned();
        self.caret = text::clamp_boundary(new, self.caret);
        self.anchor = self.caret;
        self.coalescing = false;
    }

    /// Put the caret at the char boundary at or below `pos`.
    pub fn set_caret(&mut self, pos: usize)
        requires
            old(self)@.wf(),
        ensures
            final(self)@ == old(self)@.caret_at(pos as int),
            final(self)@.wf(),
    {
        self.caret = text::clamp_boundary(self.text.as_str(), pos);
        self.anchor = self.caret;
        self.goal_column = None;
        self.coalescing = false;
    }

    /// Select from the start of `range` to its end, where the caret goes.
    pub fn select(&mut self, range: Range<usize>)
        requires
            old(self)@.wf(),
        ensures
            final(self)@ == old(self)@.select(range.start as int, range.end as int),
            final(self)@.wf(),
    {
        self.anchor = text::clamp_boundary(self.text.as_str(), range.start);
        self.caret = text::clamp_boundary(self.text.as_str(), range.end);
        self.coalescing = false;
    }

    pub fn select_all(&mut self)
        requires
            old(self)@.wf(),
        ensures
            final(self)@ == old(self)@.select_all(),
            final(self)@.wf(),
    {
        proof {
            lemma_str_valid(self.text@);
        }
        self.anchor = 0;
        self.caret = self.text.as_str().as_bytes().len();
    }

    /// Set the window size, clamped to something a window can actually be.
    ///
    /// The upper bound matters as much as the lower one: this value can arrive from a project
    /// file, and a corrupt or hand-edited state carrying `i32::MAX` would otherwise be handed
    /// to the host as a real window size.
    pub fn set_size(&mut self, width: i32, height: i32)
        ensures
            final(self)@ == old(self)@.sized(width, height),
            old(self)@.wf() ==> final(self)@.wf(),
    {
        self.width = clamp(width, MIN_WIDTH, MAX_WIDTH);
        self.height = clamp(height, MIN_HEIGHT, MAX_HEIGHT);
    }

    /// Step to the next theme: auto, light, dark, auto.
    pub fn cycle_theme(&mut self)
        ensures
            final(self)@ == (Session { theme: old(self)@.theme.next(), ..old(self)@ }),
            old(self)@.wf() ==> final(self)@.wf(),
    {
        self.theme = self.theme.cycled();
    }

    pub fn set_theme(&mut self, theme: Theme)
        ensures
            final(self)@ == (Session { theme, ..old(self)@ }),
            old(self)@.wf() ==> final(self)@.wf(),
    {
        self.theme = theme;
    }

    pub fn toggle_mode(&mut self)
        ensures
            final(self)@ == (Session { mode: old(self)@.mode.other(), ..old(self)@ }),
            old(self)@.wf() ==> final(self)@.wf(),
    {
        self.mode = self.mode.toggled();
    }

    // ---- undo --------------------------------------------------------------

    /// Remember the document as a step to undo.
    pub(crate) fn push_undo(&mut self)
        requires
            old(self)@.wf(),
        ensures
            final(self)@ == old(self)@.recorded(),
            final(self)@.wf(),
    {
        let ghost before = self@;
        proof {
            lemma_recorded(before);
        }
        self.remember(self.snapshot());
        proof {
            assert(self@ =~= before.recorded());
        }
    }

    /// The document, to be remembered.
    fn snapshot(&self) -> (r: Snapshot)
        ensures
            r@ == self@.snap(),
    {
        Snapshot { text: self.text.clone(), caret: self.caret, anchor: self.anchor }
    }

    /// The document before an edit, and what else an edit that comes to nothing leaves alone.
    pub(crate) fn before_edit(&self) -> (r: Before)
        ensures
            r.snap@ == self@.snap(),
            r.dirty == self@.dirty,
            r.coalescing == self@.coalescing,
    {
        Before { snap: self.snapshot(), dirty: self.dirty, coalescing: self.coalescing }
    }

    /// End an edit: remember the document before it if the text has changed, and forget that
    /// anything was done if it has not.
    pub(crate) fn settle(&mut self, was: Before) -> (r: KeyResult)
        requires
            old(self)@.wf(),
            was.snap@.wf(),
        ensures
            (final(self)@, r) == if old(self)@.text == was.snap@.text {
                (
                    (Session { dirty: was.dirty, coalescing: was.coalescing, ..old(self)@ }),
                    moved_result(),
                )
            } else {
                (old(self)@.remembering(was.snap@), edited_result())
            },
            final(self)@.wf(),
    {
        if same_text(was.snap.text.as_str(), self.text.as_str()) {
            self.dirty = was.dirty;
            self.coalescing = was.coalescing;
            KeyResult::moved()
        } else {
            self.remember(was.snap);
            KeyResult::edited()
        }
    }

    /// End an edit that adds to a run of typing, or starts one.
    pub(crate) fn settle_typing(&mut self, was: Before) -> (r: KeyResult)
        requires
            old(self)@.wf(),
            was.snap@.wf(),
        ensures
            (final(self)@, r) == if old(self)@.text == was.snap@.text {
                (
                    (Session { dirty: was.dirty, coalescing: was.coalescing, ..old(self)@ }),
                    moved_result(),
                )
            } else if was.coalescing {
                (
                    (Session { redo: Seq::empty(), coalescing: true, ..old(self)@ }),
                    edited_result(),
                )
            } else {
                (
                    (Session { coalescing: true, ..old(self)@.remembering(was.snap@) }),
                    edited_result(),
                )
            },
            final(self)@.wf(),
    {
        let ghost before = self@;
        if same_text(was.snap.text.as_str(), self.text.as_str()) {
            self.dirty = was.dirty;
            self.coalescing = was.coalescing;
            return KeyResult::moved();
        }
        if was.coalescing {
            self.redo.clear();
            proof {
                assert(snaps(self.redo@) =~= Seq::empty());
            }
        } else {
            self.remember(was.snap);
        }
        self.coalescing = true;
        KeyResult::edited()
    }

    /// Put a document on top of the history. The oldest gives way when there are too many, and
    /// there is nothing left to redo.
    pub(crate) fn remember(&mut self, snap: Snapshot)
        requires
            old(self)@.wf(),
            snap@.wf(),
        ensures
            final(self)@ == old(self)@.remembering(snap@),
            final(self)@.wf(),
    {
        let ghost before = self@;
        let ghost stack = self.undo@;
        self.undo.push(snap);
        proof {
            assert(snaps(self.undo@) =~= snaps(stack).push(snap@));
        }
        if self.undo.len() > UNDO_LIMIT {
            let ghost grown = self.undo@;
            let _ = self.undo.remove(0);
            proof {
                assert(snaps(self.undo@) =~= snaps(grown).drop_first());
            }
        }
        self.redo.clear();
        proof {
            let grown = before.undo.push(snap@);
            assert(snaps(self.redo@) =~= Seq::empty());
            assert(self@.undo =~= if grown.len() > UNDO_LIMIT {
                grown.drop_first()
            } else {
                grown
            });
        }
    }

    /// Undo as a key press.
    pub(crate) fn on_undo(&mut self) -> (r: KeyResult)
        requires
            old(self)@.wf(),
        ensures
            (final(self)@, r) == old(self)@.stepped_to(old(self)@.undone()),
            final(self)@.wf(),
    {
        let ghost before = self@;
        if self.undo() {
            let n: usize = self.redo.len();
            proof {
                assert(self@.redo == before.redo.push(before.snap()));
                assert(self@.redo[n - 1] == before.snap());
            }
            KeyResult::of_edit(self.redo[n - 1].text.as_str(), self.text.as_str())
        } else {
            KeyResult::moved()
        }
    }

    /// Redo as a key press.
    pub(crate) fn on_redo(&mut self) -> (r: KeyResult)
        requires
            old(self)@.wf(),
        ensures
            (final(self)@, r) == old(self)@.stepped_to(old(self)@.redone()),
            final(self)@.wf(),
    {
        let ghost before = self@;
        if self.redo() {
            let n: usize = self.undo.len();
            proof {
                assert(self@.undo == before.undo.push(before.snap()));
                assert(self@.undo[n - 1] == before.snap());
            }
            KeyResult::of_edit(self.undo[n - 1].text.as_str(), self.text.as_str())
        } else {
            KeyResult::moved()
        }
    }

    /// Drop undo history. Used after loading a document, so the user cannot undo their way
    /// back into the previous file's contents.
    pub fn clear_history(&mut self)
        requires
            old(self)@.wf(),
        ensures
            final(self)@ == old(self)@.forgotten(),
            final(self)@.wf(),
    {
        let ghost before = self@;
        self.undo.clear();
        self.redo.clear();
        self.coalescing = false;
        proof {
            assert(self@ =~= before.forgotten());
        }
    }

    /// Put a remembered document in place of the current one, which is handed back.
    fn swap_in(&mut self, to: Snapshot) -> (was: Snapshot)
        requires
            old(self)@.wf(),
            to@.wf(),
        ensures
            final(self)@ == old(self)@.restored(to@),
            final(self).undo == old(self).undo,
            final(self).redo == old(self).redo,
            was@ == old(self)@.snap(),
    {
        let Snapshot { text, caret, anchor } = to;
        let changed = !same_text(text.as_str(), self.text.as_str());
        let mut other = text;
        std::mem::swap(&mut self.text, &mut other);
        let was = Snapshot { text: other, caret: self.caret, anchor: self.anchor };
        self.caret = caret;
        self.anchor = anchor;
        self.coalescing = false;
        if changed {
            self.dirty = true;
        }
        was
    }

    /// Undo the last step. False if there is none. A document that this changes has unsaved
    /// changes again.
    pub fn undo(&mut self) -> (r: bool)
        requires
            old(self)@.wf(),
        ensures
            final(self)@ == old(self)@.undone(),
            r == (old(self)@.undo.len() > 0),
            final(self)@.wf(),
    {
        let ghost before = self@;
        let ghost undo = self.undo@;
        let ghost redo = self.redo@;
        match self.undo.pop() {
            Some(prev) => {
                proof {
                    assert(snaps(self.undo@) =~= before.undo.drop_last());
                    assert(prev@ == before.undo[before.undo.len() - 1]);
                }
                let was = self.swap_in(prev);
                self.redo.push(was);
                proof {
                    assert(snaps(self.redo@) =~= snaps(redo).push(before.snap()));
                    assert(self@ =~= before.undone());
                }
                true
            },
            None => {
                proof {
                    assert(self@ =~= before);
                }
                false
            },
        }
    }

    /// Redo the step that was undone last. False if there is none. A document that this
    /// changes has unsaved changes again.
    pub fn redo(&mut self) -> (r: bool)
        requires
            old(self)@.wf(),
        ensures
            final(self)@ == old(self)@.redone(),
            r == (old(self)@.redo.len() > 0),
            final(self)@.wf(),
    {
        let ghost before = self@;
        let ghost undo = self.undo@;
        let ghost redo = self.redo@;
        match self.redo.pop() {
            Some(next) => {
                proof {
                    assert(snaps(self.redo@) =~= before.redo.drop_last());
                    assert(next@ == before.redo[before.redo.len() - 1]);
                }
                let was = self.swap_in(next);
                self.undo.push(was);
                proof {
                    assert(snaps(self.undo@) =~= snaps(undo).push(before.snap()));
                    assert(self@ =~= before.redone());
                }
                true
            },
            None => {
                proof {
                    assert(self@ =~= before);
                }
                false
            },
        }
    }

    // ---- primitive edits ---------------------------------------------------

    /// Replace the bytes from `start` up to `end`, and put the caret `along` bytes past
    /// `start`.
    pub(crate) fn put(&mut self, start: usize, end: usize, with: &str, along: usize)
        requires
            old(self)@.wf(),
            is_boundary(old(self)@.text, start as int),
            is_boundary(old(self)@.text, end as int),
            start <= end,
            is_boundary(
                spliced(old(self)@.text, start as int, end as int, with.spec_bytes()),
                start + along,
            ),
        ensures
            final(self)@ == old(self)@.put(
                start as int,
                end as int,
                with.spec_bytes(),
                start + along,
            ),
            final(self)@.wf(),
    {
        let ghost before = self@;
        proof {
            lemma_str_valid(with@);
            lemma_put(before, start as int, end as int, with.spec_bytes(), start + along);
        }
        self.text = splice(self.text.as_str(), start, end, with);
        let total: usize = self.text.as_str().as_bytes().len();
        assert(start + along <= total);
        self.caret = start + along;
        self.anchor = self.caret;
        self.dirty = true;
        proof {
            assert(self@ =~= before.put(start as int, end as int, with.spec_bytes(), start + along));
        }
    }

    /// Replace the bytes from `start` up to `end`, and put the caret after the new ones.
    pub(crate) fn replace_range(&mut self, start: usize, end: usize, with: &str)
        requires
            old(self)@.wf(),
            is_boundary(old(self)@.text, start as int),
            is_boundary(old(self)@.text, end as int),
            start <= end,
        ensures
            final(self)@ == old(self)@.put(
                start as int,
                end as int,
                with.spec_bytes(),
                start + with.spec_bytes().len(),
            ),
            final(self)@.wf(),
    {
        proof {
            lemma_str_valid(with@);
            lemma_spliced_inside(
                self@.text,
                start as int,
                end as int,
                with.spec_bytes(),
                with.spec_bytes().len() as int,
            );
        }
        let along: usize = with.as_bytes().len();
        self.put(start, end, with, along);
    }

    /// Remove the selection. False if there is none.
    pub(crate) fn delete_selection(&mut self) -> (r: bool)
        requires
            old(self)@.wf(),
        ensures
            final(self)@ == old(self)@.without_selection(),
            r == (old(self)@.caret != old(self)@.anchor),
            final(self)@.wf(),
            final(self)@.caret == final(self)@.anchor,
    {
        proof {
            lemma_without_selection(self@);
            lemma_empty_str();
        }
        if self.caret == self.anchor {
            return false;
        }
        let range = self.selection();
        self.replace_range(range.start, range.end, "");
        true
    }

    /// Insert text at the caret, replacing any selection.
    pub fn insert_str(&mut self, s: &str)
        requires
            old(self)@.wf(),
        ensures
            final(self)@ == old(self)@.insert(s.spec_bytes()),
            final(self)@.wf(),
    {
        self.push_undo();
        self.delete_selection();
        self.replace_range(self.caret, self.caret, s);
        self.coalescing = false;
    }
}

/// The empty string has no bytes.
pub proof fn lemma_empty_str()
    ensures
        encode_utf8(""@) == Seq::<u8>::empty(),
{
    reveal_strlit("");
    assert(""@ =~= Seq::<char>::empty());
}

/// `v` taken no lower than `low` and no higher than `high`.
fn clamp(v: i32, low: i32, high: i32) -> (r: i32)
    ensures
        r == crate::session::clamped(v, low, high),
{
    if v < low {
        low
    } else if v > high {
        high
    } else {
        v
    }
}

} // verus!
