//! Caret motion.

use vstd::prelude::*;
use vstd::string::*;

use crate::bytes::lemma_str_valid;
use crate::edit::Editor;
use crate::keys::{Key, KeyResult, Mods};
use crate::session::Session;
use crate::text;
use crate::text::{
    clamp_boundary_of, column_at, column_offset, line_end_of, line_index_of, line_start_of,
    newlines, next_boundary_of, next_word_of, prev_boundary_of, prev_word_of,
};

verus! {

/// How many lines a page is.
pub const PAGE: usize = 20;

impl Session {
    /// The caret moved `step` lines, as far as there are lines, towards the column that
    /// vertical motion aims for.
    pub open spec fn line_moved(self, step: int, extend: bool) -> Session {
        let column = match self.goal {
            Some(c) => c,
            None => column_at(self.text, self.caret),
        };
        let wanted = line_index_of(self.text, self.caret) + step;
        let line = if wanted < 0 {
            0
        } else if wanted > newlines(self.text) {
            newlines(self.text) as int
        } else {
            wanted
        };
        let pos = match column_offset(self.text, line as nat, column) {
            Some(p) => p,
            None => self.caret,
        };
        Session {
            goal: Some(column),
            caret: pos,
            anchor: if extend {
                self.anchor
            } else {
                pos
            },
            ..self
        }
    }

    /// The caret moved to a position, the selection extended or dropped.
    pub open spec fn caret_moved(self, target: int, extend: bool) -> Session {
        let caret = clamp_boundary_of(self.text, target);
        Session {
            goal: None,
            caret,
            anchor: if extend {
                self.anchor
            } else {
                caret
            },
            ..self
        }
    }

    /// A motion key pressed.
    pub open spec fn moved(self, key: Key, mods: Mods) -> Session {
        let to_edge = self.caret != self.anchor && !mods.shift;
        match key {
            Key::Left => self.caret_moved(
                if to_edge {
                    self.start()
                } else if mods.ctrl {
                    prev_word_of(self.text, self.caret)
                } else {
                    prev_boundary_of(self.text, self.caret)
                },
                mods.shift,
            ),
            Key::Right => self.caret_moved(
                if to_edge {
                    self.end()
                } else if mods.ctrl {
                    next_word_of(self.text, self.caret)
                } else {
                    next_boundary_of(self.text, self.caret)
                },
                mods.shift,
            ),
            Key::Home => self.caret_moved(
                if mods.ctrl {
                    0
                } else {
                    line_start_of(self.text, self.caret)
                },
                mods.shift,
            ),
            Key::End => self.caret_moved(
                if mods.ctrl {
                    self.text.len() as int
                } else {
                    line_end_of(self.text, self.caret)
                },
                mods.shift,
            ),
            Key::Up => self.line_moved(-1, mods.shift),
            Key::Down => self.line_moved(1, mods.shift),
            Key::PageUp => self.line_moved(-PAGE, mods.shift),
            Key::PageDown => self.line_moved(PAGE as int, mods.shift),
            _ => self,
        }
    }
}

/// A key that moves the caret and does nothing else.
pub open spec fn is_motion(key: Key) -> bool {
    match key {
        Key::Left | Key::Right | Key::Home | Key::End => true,
        Key::Up | Key::Down | Key::PageUp | Key::PageDown => true,
        _ => false,
    }
}

impl Editor {
    /// A motion key: move the caret, extending the selection while Shift is held.
    pub(crate) fn on_motion(&mut self, key: Key, mods: Mods) -> (r: KeyResult)
        requires
            old(self)@.wf(),
        ensures
            final(self)@ == old(self)@.moved(key, mods),
            r.handled == is_motion(key),
            !r.changed,
            r.command is None,
            final(self)@.wf(),
    {
        let to_edge = self.has_selection() && !mods.shift;
        let edges = self.selection();
        let target: usize = match key {
            Key::Left => {
                if to_edge {
                    edges.start
                } else if mods.ctrl {
                    text::prev_word(self.text.as_str(), self.caret)
                } else {
                    text::prev_boundary(self.text.as_str(), self.caret)
                }
            },
            Key::Right => {
                if to_edge {
                    edges.end
                } else if mods.ctrl {
                    text::next_word(self.text.as_str(), self.caret)
                } else {
                    text::next_boundary(self.text.as_str(), self.caret)
                }
            },
            Key::Home => {
                if mods.ctrl {
                    0
                } else {
                    text::line_start(self.text.as_str(), self.caret)
                }
            },
            Key::End => {
                if mods.ctrl {
                    self.text.as_str().as_bytes().len()
                } else {
                    text::line_end(self.text.as_str(), self.caret)
                }
            },
            Key::Up => {
                self.move_up(1, mods.shift);
                return KeyResult::moved();
            },
            Key::Down => {
                self.move_down(1, mods.shift);
                return KeyResult::moved();
            },
            Key::PageUp => {
                self.move_up(PAGE, mods.shift);
                return KeyResult::moved();
            },
            Key::PageDown => {
                self.move_down(PAGE, mods.shift);
                return KeyResult::moved();
            },
            _ => {
                return KeyResult::ignored();
            },
        };
        let ghost before = self@;
        self.goal_column = None;
        self.caret = text::clamp_boundary(self.text.as_str(), target);
        if !mods.shift {
            self.anchor = self.caret;
        }
        proof {
            assert(self@ =~= before.moved(key, mods));
        }
        KeyResult::moved()
    }

    /// Move the caret up by `step` lines, or to the first.
    fn move_up(&mut self, step: usize, extend: bool)
        requires
            old(self)@.wf(),
        ensures
            final(self)@ == old(self)@.line_moved(-step, extend),
            final(self)@.wf(),
    {
        let line: usize = self.caret_line();
        proof {
            lemma_line_index_bound(self@.text, self.caret as int);
        }
        self.move_to_line(if line >= step {
            line - step
        } else {
            0
        }, extend);
    }

    /// Move the caret down by `step` lines, or to the last.
    fn move_down(&mut self, step: usize, extend: bool)
        requires
            old(self)@.wf(),
        ensures
            final(self)@ == old(self)@.line_moved(step as int, extend),
            final(self)@.wf(),
    {
        let line: usize = self.caret_line();
        let len: usize = self.text.as_str().as_bytes().len();
        proof {
            lemma_str_valid(self.text@);
            lemma_line_index_bound(self@.text, self.caret as int);
            assert(self@.text.subrange(0, len as int) =~= self@.text);
        }
        let last: usize = text::line_index(self.text.as_str(), len);
        self.move_to_line(if last - line >= step {
            line + step
        } else {
            last
        }, extend);
    }

    /// Move the caret to a line, towards the column that vertical motion aims for.
    fn move_to_line(&mut self, line: usize, extend: bool)
        requires
            old(self)@.wf(),
            line <= newlines(old(self)@.text),
        ensures
            final(self)@ == old(self)@.line_moved(
                line - line_index_of(old(self)@.text, old(self)@.caret),
                extend,
            ),
            final(self)@.wf(),
    {
        let ghost before = self@;
        let column: usize = match self.goal_column {
            Some(c) => c,
            None => self.caret_column(),
        };
        let pos: usize = match text::offset_of_column(self.text.as_str(), line, column) {
            Some(p) => p,
            None => self.caret,
        };
        self.goal_column = Some(column);
        self.caret = pos;
        if !extend {
            self.anchor = pos;
        }
        proof {
            assert(self@ =~= before.line_moved(
                line - line_index_of(before.text, before.caret),
                extend,
            ));
        }
    }
}

/// There are no more lines above a position than there are newlines.
proof fn lemma_line_index_bound(b: Seq<u8>, pos: int)
    requires
        0 <= pos <= b.len(),
    ensures
        line_index_of(b, pos) <= newlines(b),
    decreases b.len(),
{
    if pos < b.len() {
        lemma_line_index_bound(b.drop_last(), pos);
        assert(b.drop_last().subrange(0, pos) =~= b.subrange(0, pos));
    } else {
        assert(b.subrange(0, pos) =~= b);
    }
}

} // verus!
