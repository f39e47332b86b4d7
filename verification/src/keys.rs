//! Keys, modifiers, the two views, the colour themes, and what a key press came to.

use vstd::prelude::*;
use vstd::string::*;

use crate::bytes::same_text;

verus! {

/// A logical key press.
#[derive(Clone, Copy, PartialEq, Eq, Debug, Structural)]
pub enum Key {
    Char(char),
    Enter,
    Backspace,
    Delete,
    Tab,
    Left,
    Right,
    Up,
    Down,
    Home,
    End,
    PageUp,
    PageDown,
    Escape,
}

/// Modifier state accompanying a key press.
#[derive(Clone, Copy, PartialEq, Eq, Debug, Default, Structural)]
pub struct Mods {
    pub ctrl: bool,
    pub shift: bool,
    pub alt: bool,
}

impl Mods {
    /// No modifier held.
    pub fn none() -> (m: Mods)
        ensures
            m == (Mods { ctrl: false, shift: false, alt: false }),
    {
        Mods { ctrl: false, shift: false, alt: false }
    }

    /// Ctrl alone.
    pub fn ctrl() -> (m: Mods)
        ensures
            m == (Mods { ctrl: true, shift: false, alt: false }),
    {
        Mods { ctrl: true, shift: false, alt: false }
    }

    /// Shift alone.
    pub fn shift() -> (m: Mods)
        ensures
            m == (Mods { ctrl: false, shift: true, alt: false }),
    {
        Mods { ctrl: false, shift: true, alt: false }
    }

    /// Ctrl and Shift together.
    pub fn ctrl_shift() -> (m: Mods)
        ensures
            m == (Mods { ctrl: true, shift: true, alt: false }),
    {
        Mods { ctrl: true, shift: true, alt: false }
    }
}

/// Which view the editor is presenting.
#[derive(Clone, Copy, PartialEq, Eq, Debug, Structural)]
pub enum ViewMode {
    /// Rendered markdown with markers hidden except on the caret's line.
    Wysiwyg,
    /// The raw markdown source.
    Raw,
}

impl ViewMode {
    /// The name a view is stored under.
    pub open spec fn name(self) -> Seq<char> {
        match self {
            ViewMode::Wysiwyg => "wysiwyg"@,
            ViewMode::Raw => "raw"@,
        }
    }

    /// The view stored under a name; any name but `raw` means the rendered one.
    pub open spec fn named(s: Seq<char>) -> ViewMode {
        if s == "raw"@ {
            ViewMode::Raw
        } else {
            ViewMode::Wysiwyg
        }
    }

    /// The other view.
    pub open spec fn other(self) -> ViewMode {
        match self {
            ViewMode::Wysiwyg => ViewMode::Raw,
            ViewMode::Raw => ViewMode::Wysiwyg,
        }
    }

    pub fn as_str(self) -> (r: &'static str)
        ensures
            r@ == self.name(),
    {
        match self {
            ViewMode::Wysiwyg => "wysiwyg",
            ViewMode::Raw => "raw",
        }
    }

    pub fn from_str(s: &str) -> (r: ViewMode)
        ensures
            r == ViewMode::named(s@),
    {
        if same_text(s, "raw") {
            ViewMode::Raw
        } else {
            ViewMode::Wysiwyg
        }
    }

    pub fn toggled(self) -> (r: ViewMode)
        ensures
            r == self.other(),
    {
        match self {
            ViewMode::Wysiwyg => ViewMode::Raw,
            ViewMode::Raw => ViewMode::Wysiwyg,
        }
    }
}

/// Which colour scheme the editor draws in.
///
/// `Auto` defers to the operating system, whose setting is passed into [`Theme::is_dark`]:
/// nothing here asks the system itself.
#[derive(Clone, Copy, PartialEq, Eq, Debug, Structural)]
pub enum Theme {
    Light,
    Dark,
    /// Follow the system setting.
    Auto,
}

impl Default for Theme {
    fn default() -> (t: Theme)
        ensures
            t == Theme::Auto,
    {
        Theme::Auto
    }
}

impl Theme {
    /// The name a theme is stored under.
    pub open spec fn name(self) -> Seq<char> {
        match self {
            Theme::Light => "light"@,
            Theme::Dark => "dark"@,
            Theme::Auto => "auto"@,
        }
    }

    /// The theme stored under a name; a name that is not known means `Auto`.
    pub open spec fn named(s: Seq<char>) -> Theme {
        if s == "light"@ {
            Theme::Light
        } else if s == "dark"@ {
            Theme::Dark
        } else {
            Theme::Auto
        }
    }

    /// The theme after this one, in the order auto, light, dark.
    pub open spec fn next(self) -> Theme {
        match self {
            Theme::Auto => Theme::Light,
            Theme::Light => Theme::Dark,
            Theme::Dark => Theme::Auto,
        }
    }

    pub fn as_str(self) -> (r: &'static str)
        ensures
            r@ == self.name(),
    {
        match self {
            Theme::Light => "light",
            Theme::Dark => "dark",
            Theme::Auto => "auto",
        }
    }

    /// Parse a stored theme. Anything unrecognised falls back to `Auto`, so a state blob from
    /// a newer version degrades to following the system rather than to an arbitrary choice.
    pub fn from_str(s: &str) -> (r: Theme)
        ensures
            r == Theme::named(s@),
    {
        if same_text(s, "light") {
            Theme::Light
        } else if same_text(s, "dark") {
            Theme::Dark
        } else {
            Theme::Auto
        }
    }

    /// The order the Ctrl+T shortcut and the toolbar button walk through.
    pub fn cycled(self) -> (r: Theme)
        ensures
            r == self.next(),
    {
        match self {
            Theme::Auto => Theme::Light,
            Theme::Light => Theme::Dark,
            Theme::Dark => Theme::Auto,
        }
    }

    /// Whether to draw dark, given what the system currently reports.
    ///
    /// `system_dark` is only consulted for [`Theme::Auto`].
    pub fn is_dark(self, system_dark: bool) -> (r: bool)
        ensures
            r == (self == Theme::Dark || (self == Theme::Auto && system_dark)),
    {
        match self {
            Theme::Light => false,
            Theme::Dark => true,
            Theme::Auto => system_dark,
        }
    }
}

/// A view's stored name reads back as that view.
pub proof fn law_view_name_reads_back(m: ViewMode)
    ensures
        ViewMode::named(m.name()) == m,
{
    reveal_strlit("raw");
    reveal_strlit("wysiwyg");
    assert("raw"@.len() != "wysiwyg"@.len());
}

/// Toggling the view twice leaves it as it was.
pub proof fn law_view_toggles_back(m: ViewMode)
    ensures
        m.other() != m,
        m.other().other() == m,
{
}

/// A theme's stored name reads back as that theme.
pub proof fn law_theme_name_reads_back(t: Theme)
    ensures
        Theme::named(t.name()) == t,
{
    reveal_strlit("light");
    reveal_strlit("dark");
    reveal_strlit("auto");
    assert("light"@.len() != "dark"@.len());
    assert("dark"@[0] != "auto"@[0]);
}

/// Three steps through the themes come back to the first, and none of them stands still.
pub proof fn law_theme_cycles(t: Theme)
    ensures
        t.next() != t,
        t.next().next() != t,
        t.next().next().next() == t,
{
}

/// An action the editor cannot perform itself because it needs the host (native file dialogs,
/// disk access).
#[derive(Clone, Copy, PartialEq, Eq, Debug, Structural)]
pub enum Command {
    Open,
    Save,
    SaveAs,
}

/// Outcome of a key press.
#[derive(Clone, Copy, PartialEq, Eq, Debug, Default, Structural)]
pub struct KeyResult {
    /// The editor recognised the key.
    pub handled: bool,
    /// The document text changed.
    pub changed: bool,
    /// A host-level action was requested.
    pub command: Option<Command>,
}

/// The key moved the caret or changed the view, and left the text alone.
pub open spec fn moved_result() -> KeyResult {
    KeyResult { handled: true, changed: false, command: None }
}

/// The key edited the document.
pub open spec fn edited_result() -> KeyResult {
    KeyResult { handled: true, changed: true, command: None }
}

/// The key took the document from one text to another, which may be the same again.
pub open spec fn edit_result(before: Seq<u8>, after: Seq<u8>) -> KeyResult {
    KeyResult { handled: true, changed: before != after, command: None }
}

/// The key asks the host to do something.
pub open spec fn command_result(c: Command) -> KeyResult {
    KeyResult { handled: true, changed: false, command: Some(c) }
}

impl KeyResult {
    pub(crate) fn ignored() -> (r: KeyResult)
        ensures
            r == (KeyResult { handled: false, changed: false, command: None }),
    {
        KeyResult { handled: false, changed: false, command: None }
    }

    pub(crate) fn moved() -> (r: KeyResult)
        ensures
            r == moved_result(),
    {
        KeyResult { handled: true, changed: false, command: None }
    }

    pub(crate) fn edited() -> (r: KeyResult)
        ensures
            r == edited_result(),
    {
        KeyResult { handled: true, changed: true, command: None }
    }

    /// The outcome of an edit, by the texts before and after it.
    pub(crate) fn of_edit(before: &str, after: &str) -> (r: KeyResult)
        ensures
            r == edit_result(before.spec_bytes(), after.spec_bytes()),
    {
        KeyResult { handled: true, changed: !same_text(before, after), command: None }
    }

    pub(crate) fn command(c: Command) -> (r: KeyResult)
        ensures
            r == command_result(c),
    {
        KeyResult { handled: true, changed: false, command: Some(c) }
    }
}

/// The theme button goes from the system's theme to light, to dark, and back.
pub proof fn law_themes_follow_in_order()
    ensures
        Theme::Auto.next() == Theme::Light,
        Theme::Light.next() == Theme::Dark,
        Theme::Dark.next() == Theme::Auto,
{
}

/// A name that no view and no theme has stands for the view and the theme that the editor starts
/// with.
pub proof fn law_unknown_names_stand_for_the_defaults(s: Seq<char>)
    ensures
        s != ViewMode::Raw.name() ==> ViewMode::named(s) == ViewMode::Wysiwyg,
        s != Theme::Light.name() && s != Theme::Dark.name() ==> Theme::named(s) == Theme::Auto,
        ViewMode::Raw.name() == "raw"@ && ViewMode::Wysiwyg.name() == "wysiwyg"@,
        Theme::Light.name() == "light"@ && Theme::Dark.name() == "dark"@ && Theme::Auto.name()
            == "auto"@,
{
}

} // verus!
