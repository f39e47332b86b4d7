//! Key handling: from a key press to what it does to the session.

use vstd::prelude::*;
use vstd::string::*;

use crate::edit::Editor;
use crate::keys::{command_result, moved_result, Command, Key, KeyResult, Mods};
use crate::session::{lit, Session};
use crate::typing::lemma_delimiters;

verus! {

/// `c` is the letter `lower`, in either case.
pub open spec fn is_letter(c: char, lower: char, upper: char) -> bool {
    c == lower || c == upper
}

impl Session {
    /// A shortcut pressed with Ctrl. None if the char is no shortcut.
    pub open spec fn after_shortcut(self, c: char, shift: bool) -> Option<(Session, KeyResult)> {
        if is_letter(c, 'b', 'B') {
            Some(self.edited_into(self.wrapped_or_paired(lit("**"))))
        } else if is_letter(c, 'i', 'I') {
            Some(self.edited_into(self.wrapped_or_paired(lit("*"))))
        } else if is_letter(c, 'd', 'D') {
            Some(self.edited_into(self.wrapped_or_paired(lit("~~"))))
        } else if is_letter(c, 'e', 'E') || c == '`' {
            Some(self.edited_into(self.wrapped_or_paired(lit("`"))))
        } else if is_letter(c, 'k', 'K') {
            Some(self.edited_into(self.linked()))
        } else if is_letter(c, 'a', 'A') {
            Some((self.select_all(), moved_result()))
        } else if is_letter(c, 'y', 'Y') || (is_letter(c, 'z', 'Z') && shift) {
            Some(self.stepped_to(self.redone()))
        } else if is_letter(c, 'z', 'Z') {
            Some(self.stepped_to(self.undone()))
        } else if c == '/' {
            Some((Session { mode: self.mode.other(), ..self }, moved_result()))
        } else if is_letter(c, 't', 'T') {
            Some((Session { theme: self.theme.next(), ..self }, moved_result()))
        } else if is_letter(c, 'o', 'O') {
            Some((self, command_result(Command::Open)))
        } else if is_letter(c, 's', 'S') {
            Some(
                (
                    self,
                    command_result(
                        if shift {
                            Command::SaveAs
                        } else {
                            Command::Save
                        },
                    ),
                ),
            )
        } else {
            None
        }
    }

    /// A key pressed that is no shortcut.
    pub open spec fn after_plain_key(self, key: Key, mods: Mods) -> (Session, KeyResult) {
        match key {
            Key::Char(c) => self.edited_into(self.typed(c)),
            Key::Enter => self.edited_into(self.entered()),
            Key::Backspace => self.backspaced(mods.ctrl),
            Key::Delete => self.deleted(mods.ctrl),
            Key::Tab => self.tabbed(mods.shift),
            Key::Escape => (Session { anchor: self.caret, ..self }, moved_result()),
            _ => (self.moved(key, mods), moved_result()),
        }
    }

    /// A key pressed. Anything but a char ends a run of typing.
    pub open spec fn after_key(self, key: Key, mods: Mods) -> (Session, KeyResult) {
        match key {
            Key::Char(c) => if mods.ctrl && self.after_shortcut(c, mods.shift) is Some {
                self.after_shortcut(c, mods.shift)->0
            } else {
                self.after_plain_key(key, mods)
            },
            _ => Session { coalescing: false, ..self }.after_plain_key(key, mods),
        }
    }
}

impl Editor {
    /// Handle a key press, and say what came of it.
    pub fn handle_key(&mut self, key: Key, mods: Mods) -> (r: KeyResult)
        requires
            old(self)@.wf(),
        ensures
            (final(self)@, r) == old(self)@.after_key(key, mods),
            final(self)@.wf(),
    {
        match key {
            Key::Char(c) => {
                if mods.ctrl {
                    match self.handle_ctrl(c, mods.shift) {
                        Some(r) => {
                            return r;
                        },
                        None => {},
                    }
                }
                self.insert_char(c)
            },
            _ => {
                self.coalescing = false;
                match key {
                    Key::Enter => self.on_enter(),
                    Key::Backspace => self.on_backspace(mods),
                    Key::Delete => self.on_delete(mods),
                    Key::Tab => self.on_tab(mods.shift),
                    Key::Escape => {
                        self.anchor = self.caret;
                        KeyResult::moved()
                    },
                    _ => self.on_motion(key, mods),
                }
            },
        }
    }

    /// A shortcut pressed with Ctrl. None if the char is no shortcut.
    fn handle_ctrl(&mut self, c: char, shift: bool) -> (r: Option<KeyResult>)
        requires
            old(self)@.wf(),
        ensures
            match (r, old(self)@.after_shortcut(c, shift)) {
                (Some(k), Some((s, result))) => final(self)@ == s && k == result,
                (None, None) => final(self)@ == old(self)@,
                _ => false,
            },
            final(self)@.wf(),
    {
        proof {
            lemma_delimiters();
        }
        if c == 'b' || c == 'B' {
            Some(self.on_wrap("**"))
        } else if c == 'i' || c == 'I' {
            Some(self.on_wrap("*"))
        } else if c == 'd' || c == 'D' {
            Some(self.on_wrap("~~"))
        } else if c == 'e' || c == 'E' || c == '`' {
            Some(self.on_wrap("`"))
        } else if c == 'k' || c == 'K' {
            Some(self.on_link())
        } else if c == 'a' || c == 'A' {
            self.select_all();
            Some(KeyResult::moved())
        } else if c == 'y' || c == 'Y' || ((c == 'z' || c == 'Z') && shift) {
            Some(self.on_redo())
        } else if c == 'z' || c == 'Z' {
            Some(self.on_undo())
        } else if c == '/' {
            self.toggle_mode();
            Some(KeyResult::moved())
        } else if c == 't' || c == 'T' {
            self.cycle_theme();
            Some(KeyResult::moved())
        } else if c == 'o' || c == 'O' {
            Some(KeyResult::command(Command::Open))
        } else if c == 's' || c == 'S' {
            Some(KeyResult::command(if shift {
                Command::SaveAs
            } else {
                Command::Save
            }))
        } else {
            None
        }
    }
}

} // verus!
