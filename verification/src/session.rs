//! The editing session as mathematics: the document, the caret, the view settings and the
//! history, and what the basic operations make of them.
//!
//! [`crate::edit::Editor`] is the machine that carries a session; its contracts are stated
//! over the functions here.

use vstd::prelude::*;
use vstd::string::*;
use vstd::utf8::{encode_utf8, valid_utf8, valid_utf8_concat};

use crate::bytes::{is_boundary, lemma_slice_valid, lemma_start_is_boundary, spliced};
use crate::keys::{edit_result, edited_result, moved_result, KeyResult, Theme, ViewMode};
use crate::text::clamp_boundary_of;

verus! {

/// How many steps can be undone.
pub const UNDO_LIMIT: usize = 256;

pub const MIN_WIDTH: i32 = 320;

pub const MIN_HEIGHT: i32 = 200;

/// Upper bound on the editor window, so a corrupt state cannot ask the host for an absurd one.
pub const MAX_WIDTH: i32 = 8192;

pub const MAX_HEIGHT: i32 = 8192;

pub const DEFAULT_WIDTH: i32 = 900;

pub const DEFAULT_HEIGHT: i32 = 620;

/// The bytes of a string.
pub open spec fn lit(s: &str) -> Seq<u8> {
    encode_utf8(s@)
}

/// `v` taken no lower than `low` and no higher than `high`.
pub open spec fn clamped(v: i32, low: i32, high: i32) -> i32 {
    if v < low {
        low
    } else if v > high {
        high
    } else {
        v
    }
}

/// A document as the history remembers it.
#[verifier::ext_equal]
pub struct Snap {
    pub text: Seq<u8>,
    pub caret: int,
    pub anchor: int,
}

impl Snap {
    /// The text is UTF-8 and the caret and the anchor can cut it.
    pub open spec fn wf(self) -> bool {
        &&& valid_utf8(self.text)
        &&& is_boundary(self.text, self.caret)
        &&& is_boundary(self.text, self.anchor)
    }
}

/// An editing session.
#[verifier::ext_equal]
pub struct Session {
    /// The document.
    pub text: Seq<u8>,
    pub caret: int,
    /// The end of the selection that the caret is not at.
    pub anchor: int,
    /// The column that vertical motion aims for.
    pub goal: Option<nat>,
    pub mode: ViewMode,
    pub theme: Theme,
    pub width: i32,
    pub height: i32,
    pub file: Option<Seq<char>>,
    pub dirty: bool,
    pub undo: Seq<Snap>,
    pub redo: Seq<Snap>,
    /// Typing adds to the step that can be undone, rather than starting another.
    pub coalescing: bool,
}

impl Session {
    /// The invariant of a session: the text is UTF-8, the caret and the anchor can cut it, the
    /// same holds of every remembered document, and the history is bounded.
    pub open spec fn wf(self) -> bool {
        &&& valid_utf8(self.text)
        &&& is_boundary(self.text, self.caret)
        &&& is_boundary(self.text, self.anchor)
        &&& forall|i: int| 0 <= i < self.undo.len() ==> (#[trigger] self.undo[i]).wf()
        &&& forall|i: int| 0 <= i < self.redo.len() ==> (#[trigger] self.redo[i]).wf()
        &&& self.undo.len() + self.redo.len() <= UNDO_LIMIT
    }

    /// A fresh session holding `text`, with the caret at its end.
    pub open spec fn fresh(text: Seq<u8>) -> Session {
        Session {
            text,
            caret: text.len() as int,
            anchor: text.len() as int,
            goal: None,
            mode: ViewMode::Wysiwyg,
            theme: Theme::Auto,
            width: DEFAULT_WIDTH,
            height: DEFAULT_HEIGHT,
            file: None,
            dirty: false,
            undo: Seq::empty(),
            redo: Seq::empty(),
            coalescing: false,
        }
    }

    /// Where the selection starts.
    pub open spec fn start(self) -> int {
        if self.caret <= self.anchor {
            self.caret
        } else {
            self.anchor
        }
    }

    /// Where the selection ends.
    pub open spec fn end(self) -> int {
        if self.caret <= self.anchor {
            self.anchor
        } else {
            self.caret
        }
    }

    /// The selected bytes.
    pub open spec fn selected(self) -> Seq<u8> {
        self.text.subrange(self.start(), self.end())
    }

    /// What the history remembers of the session.
    pub open spec fn snap(self) -> Snap {
        Snap { text: self.text, caret: self.caret, anchor: self.anchor }
    }

    /// The session with a document remembered as a step to undo. The oldest step gives way when
    /// there are too many, and there is nothing left to redo.
    pub open spec fn remembering(self, snap: Snap) -> Session {
        let grown = self.undo.push(snap);
        Session {
            undo: if grown.len() > UNDO_LIMIT {
                grown.drop_first()
            } else {
                grown
            },
            redo: Seq::empty(),
            ..self
        }
    }

    /// The session with its own document remembered.
    pub open spec fn recorded(self) -> Session {
        self.remembering(self.snap())
    }

    /// The session before a typed char: a new step, unless a run of typing is going on.
    pub open spec fn recorded_for_typing(self) -> Session {
        if self.coalescing {
            Session { redo: Seq::empty(), ..self }
        } else {
            Session { coalescing: true, ..self.recorded() }
        }
    }

    /// The bytes from `start` up to `end` replaced by `with`, the caret put at `caret` with
    /// nothing selected.
    pub open spec fn put(self, start: int, end: int, with: Seq<u8>, caret: int) -> Session {
        Session {
            text: spliced(self.text, start, end, with),
            caret,
            anchor: caret,
            dirty: true,
            ..self
        }
    }

    /// The selection removed.
    pub open spec fn without_selection(self) -> Session {
        if self.caret == self.anchor {
            self
        } else {
            self.put(self.start(), self.end(), Seq::empty(), self.start())
        }
    }

    /// `s` put at the caret, with the caret after it.
    pub open spec fn with_inserted(self, s: Seq<u8>) -> Session {
        self.put(self.caret, self.caret, s, self.caret + s.len())
    }

    /// Text inserted in place of the selection, as a step of its own.
    pub open spec fn insert(self, s: Seq<u8>) -> Session {
        Session { coalescing: false, ..self.recorded().without_selection().with_inserted(s) }
    }

    /// A key press that edits the document: what comes of it, and whether the text changed. An
    /// edit that leaves the text as it was moves the caret and no more: there is no step to undo
    /// and nothing new to save.
    pub open spec fn edited_into(self, t: Session) -> (Session, KeyResult) {
        if t.text == self.text {
            (
                Session {
                    dirty: self.dirty,
                    undo: self.undo,
                    redo: self.redo,
                    coalescing: self.coalescing,
                    ..t
                },
                moved_result(),
            )
        } else {
            (t, edited_result())
        }
    }

    /// A key press that goes back or forth in the history.
    pub open spec fn stepped_to(self, t: Session) -> (Session, KeyResult) {
        (t, edit_result(self.text, t.text))
    }

    /// The document replaced by another; the caret stays where it can.
    pub open spec fn replaced(self, text: Seq<u8>) -> Session {
        let caret = clamp_boundary_of(text, self.caret);
        Session { text, caret, anchor: caret, coalescing: false, ..self.recorded() }
    }

    /// The caret put at the boundary at or below `pos`, with nothing selected.
    pub open spec fn caret_at(self, pos: int) -> Session {
        let caret = clamp_boundary_of(self.text, pos);
        Session { caret, anchor: caret, goal: None, coalescing: false, ..self }
    }

    /// The text between two positions selected, the caret at the second of them.
    pub open spec fn select(self, start: int, end: int) -> Session {
        Session {
            anchor: clamp_boundary_of(self.text, start),
            caret: clamp_boundary_of(self.text, end),
            coalescing: false,
            ..self
        }
    }

    /// Everything selected.
    pub open spec fn select_all(self) -> Session {
        Session { anchor: 0, caret: self.text.len() as int, ..self }
    }

    /// The window size set, within what a window can be.
    pub open spec fn sized(self, width: i32, height: i32) -> Session {
        Session {
            width: clamped(width, MIN_WIDTH, MAX_WIDTH),
            height: clamped(height, MIN_HEIGHT, MAX_HEIGHT),
            ..self
        }
    }

    /// The history forgotten.
    pub open spec fn forgotten(self) -> Session {
        Session { undo: Seq::empty(), redo: Seq::empty(), coalescing: false, ..self }
    }

    /// The session with a remembered document in place of its own.
    pub open spec fn restored(self, to: Snap) -> Session {
        Session {
            text: to.text,
            caret: to.caret,
            anchor: to.anchor,
            dirty: self.dirty || to.text != self.text,
            coalescing: false,
            ..self
        }
    }

    /// The last step undone, if there is one.
    pub open spec fn undone(self) -> Session {
        if self.undo.len() == 0 {
            self
        } else {
            Session {
                undo: self.undo.drop_last(),
                redo: self.redo.push(self.snap()),
                ..self.restored(self.undo.last())
            }
        }
    }

    /// The last step that was undone done again, if there is one.
    pub open spec fn redone(self) -> Session {
        if self.redo.len() == 0 {
            self
        } else {
            Session {
                redo: self.redo.drop_last(),
                undo: self.undo.push(self.snap()),
                ..self.restored(self.redo.last())
            }
        }
    }
}

// ---- the invariant under splicing -------------------------------------------

/// Joining valid text at the seams of a splice leaves valid text, and a boundary before the
/// splice stays one.
pub proof fn lemma_spliced(b: Seq<u8>, start: int, end: int, with: Seq<u8>)
    requires
        valid_utf8(b),
        valid_utf8(with),
        is_boundary(b, start),
        is_boundary(b, end),
        start <= end,
    ensures
        valid_utf8(spliced(b, start, end, with)),
        spliced(b, start, end, with).len() == b.len() - (end - start) + with.len(),
        forall|i: int|
            0 <= i <= start && is_boundary(b, i) ==> #[trigger] is_boundary(
                spliced(b, start, end, with),
                i,
            ),
{
    let r = spliced(b, start, end, with);
    let head = b.subrange(0, start);
    let rest = b.subrange(end, b.len() as int);
    lemma_start_is_boundary(b);
    lemma_start_is_boundary(with);
    lemma_slice_valid(b, 0, start);
    lemma_slice_valid(b, end, b.len() as int);
    valid_utf8_concat(head, with);
    valid_utf8_concat(head + with, rest);
    assert forall|i: int| 0 <= i <= start && is_boundary(b, i) implies #[trigger] is_boundary(
        r,
        i,
    ) by {
        if i < start {
            assert(r[i] == b[i]);
        } else {
            lemma_spliced_inside(b, start, end, with, 0);
        }
    }
}

/// A boundary of what is spliced in is a boundary of the whole.
pub proof fn lemma_spliced_inside(b: Seq<u8>, start: int, end: int, with: Seq<u8>, i: int)
    requires
        valid_utf8(b),
        is_boundary(b, start),
        is_boundary(b, end),
        start <= end,
        is_boundary(with, i),
    ensures
        is_boundary(spliced(b, start, end, with), start + i),
{
    let r = spliced(b, start, end, with);
    if i < with.len() {
        assert(r[start + i] == with[i]);
    } else if start + i < r.len() {
        assert(r[start + i] == b[end]);
    }
}

/// A boundary behind a splice stays one, moved along.
pub proof fn lemma_spliced_behind(b: Seq<u8>, start: int, end: int, with: Seq<u8>, i: int)
    requires
        0 <= start <= end <= i,
        is_boundary(b, i),
    ensures
        is_boundary(spliced(b, start, end, with), i - (end - start) + with.len()),
{
    let r = spliced(b, start, end, with);
    if i < b.len() {
        assert(r[i - (end - start) + with.len()] == b[i]);
    }
}

/// Every step the history takes keeps the invariant.
pub proof fn lemma_recorded(s: Session)
    requires
        s.wf(),
    ensures
        s.recorded().wf(),
        s.recorded_for_typing().wf(),
{
}

/// Remembering a document puts it on top of the history.
pub proof fn lemma_recorded_top(s: Session)
    requires
        s.wf(),
    ensures
        s.recorded().undo.len() > 0,
        s.recorded().undo.last() == s.snap(),
{
}

/// A splice at boundaries keeps the invariant if the caret lands on a boundary.
pub proof fn lemma_put(s: Session, start: int, end: int, with: Seq<u8>, caret: int)
    requires
        s.wf(),
        valid_utf8(with),
        is_boundary(s.text, start),
        is_boundary(s.text, end),
        start <= end,
        is_boundary(spliced(s.text, start, end, with), caret),
    ensures
        s.put(start, end, with, caret).wf(),
{
    lemma_spliced(s.text, start, end, with);
}

/// Nothing is valid text.
pub proof fn lemma_empty_valid()
    ensures
        valid_utf8(Seq::<u8>::empty()),
        is_boundary(Seq::<u8>::empty(), 0),
{
}

/// Removing the selection keeps the invariant.
pub proof fn lemma_without_selection(s: Session)
    requires
        s.wf(),
    ensures
        s.without_selection().wf(),
        s.without_selection().caret == s.start(),
        s.without_selection().anchor == s.start(),
{
    if s.caret != s.anchor {
        lemma_empty_valid();
        lemma_spliced(s.text, s.start(), s.end(), Seq::empty());
        lemma_put(s, s.start(), s.end(), Seq::empty(), s.start());
    }
}

} // verus!
