//! From the window system's key and text events to key presses.

use vstd::prelude::*;
use vstd::string::*;

use crate::edit::Editor;
use crate::keys::{Command, Key, Mods};
use crate::session::Session;

verus! {

/// A key as the window system names it.
#[derive(Debug)]
pub enum InputKey {
    Enter,
    Backspace,
    Delete,
    Tab,
    ArrowLeft,
    ArrowRight,
    ArrowUp,
    ArrowDown,
    Home,
    End,
    PageUp,
    PageDown,
    Escape,
    Slash,
    /// Any other key, by its name: a letter, or something longer.
    Other(String),
}

/// An event from the window system.
#[derive(Debug)]
pub enum InputEvent {
    /// Printable input.
    Text(String),
    /// A key went down or up, with the modifiers held. The command key of other platforms
    /// counts as Ctrl.
    Key { key: InputKey, pressed: bool, mods: Mods },
    /// Anything else.
    Other,
}

/// An ASCII letter.
pub open spec fn is_ascii_letter(c: char) -> bool {
    'a' <= c <= 'z' || 'A' <= c <= 'Z'
}

/// An ASCII letter in lower case; anything else as it is.
pub open spec fn lowered(c: char) -> char {
    if 'A' <= c <= 'Z' {
        ((c as u32 + 32) as u32) as char
    } else {
        c
    }
}

/// A control char.
pub open spec fn is_control(c: char) -> bool {
    (c as u32) < 0x20 || 0x7f <= c as u32 <= 0x9f
}

/// The key press that a key stands for. Letters and `/` only matter while Ctrl is held; without
/// it they arrive as text and are inserted there.
pub open spec fn translated(key: InputKey, ctrl: bool) -> Option<Key> {
    match key {
        InputKey::Enter => Some(Key::Enter),
        InputKey::Backspace => Some(Key::Backspace),
        InputKey::Delete => Some(Key::Delete),
        InputKey::Tab => Some(Key::Tab),
        InputKey::ArrowLeft => Some(Key::Left),
        InputKey::ArrowRight => Some(Key::Right),
        InputKey::ArrowUp => Some(Key::Up),
        InputKey::ArrowDown => Some(Key::Down),
        InputKey::Home => Some(Key::Home),
        InputKey::End => Some(Key::End),
        InputKey::PageUp => Some(Key::PageUp),
        InputKey::PageDown => Some(Key::PageDown),
        InputKey::Escape => Some(Key::Escape),
        InputKey::Slash => if ctrl {
            Some(Key::Char('/'))
        } else {
            None
        },
        InputKey::Other(name) => if ctrl && name@.len() == 1 && is_ascii_letter(name@[0]) {
            Some(Key::Char(lowered(name@[0])))
        } else {
            None
        },
    }
}

/// The key press that a key stands for.
pub fn translate_key(key: &InputKey, ctrl: bool) -> (r: Option<Key>)
    ensures
        r == translated(*key, ctrl),
{
    match key {
        InputKey::Enter => Some(Key::Enter),
        InputKey::Backspace => Some(Key::Backspace),
        InputKey::Delete => Some(Key::Delete),
        InputKey::Tab => Some(Key::Tab),
        InputKey::ArrowLeft => Some(Key::Left),
        InputKey::ArrowRight => Some(Key::Right),
        InputKey::ArrowUp => Some(Key::Up),
        InputKey::ArrowDown => Some(Key::Down),
        InputKey::Home => Some(Key::Home),
        InputKey::End => Some(Key::End),
        InputKey::PageUp => Some(Key::PageUp),
        InputKey::PageDown => Some(Key::PageDown),
        InputKey::Escape => Some(Key::Escape),
        InputKey::Slash => {
            if ctrl {
                Some(Key::Char('/'))
            } else {
                None
            }
        },
        InputKey::Other(name) => {
            let name = name.as_str();
            if ctrl && name.unicode_len() == 1 {
                let c = name.get_char(0);
                if 'a' <= c && c <= 'z' {
                    Some(Key::Char(c))
                } else if 'A' <= c && c <= 'Z' {
                    Some(Key::Char((c as u8 + 32) as char))
                } else {
                    None
                }
            } else {
                None
            }
        },
    }
}

/// Text typed char by char, control chars left out.
pub open spec fn after_text(s: Session, text: Seq<char>) -> Session
    decreases text.len(),
{
    if text.len() == 0 {
        s
    } else {
        let t = after_text(s, text.drop_last());
        if is_control(text.last()) {
            t
        } else {
            t.after_key(
                Key::Char(text.last()),
                Mods { ctrl: false, shift: false, alt: false },
            ).0
        }
    }
}

/// An event taken in: what becomes of the session, and the command asked for, if any.
///
/// Text carries no modifiers, and on some platforms a shortcut emits both text and a key.
/// Leaving text out while a command modifier is held stops Ctrl+B inserting a "b" as well as
/// toggling bold.
pub open spec fn after_event(s: Session, event: InputEvent, command_held: bool) -> (
    Session,
    Option<Command>,
) {
    match event {
        InputEvent::Text(text) => if command_held {
            (s, None)
        } else {
            (after_text(s, text@), None)
        },
        InputEvent::Key { key, pressed, mods } => match translated(key, mods.ctrl) {
            Some(k) => if pressed {
                let (t, r) = s.after_key(k, mods);
                (t, r.command)
            } else {
                (s, None)
            },
            None => (s, None),
        },
        InputEvent::Other => (s, None),
    }
}

/// Events taken in one after the other. The last command asked for counts.
pub open spec fn after_events(s: Session, events: Seq<InputEvent>, command_held: bool) -> (
    Session,
    Option<Command>,
)
    decreases events.len(),
{
    if events.len() == 0 {
        (s, None)
    } else {
        let (t, before) = after_events(s, events.drop_last(), command_held);
        let (u, now) = after_event(t, events.last(), command_held);
        (
            u,
            if now is Some {
                now
            } else {
                before
            },
        )
    }
}

/// Type a text char by char, control chars left out.
fn type_chars(editor: &mut Editor, text: &str)
    requires
        old(editor)@.wf(),
    ensures
        final(editor)@ == after_text(old(editor)@, text@),
        final(editor)@.wf(),
{
    let ghost before = editor@;
    let n: usize = text.unicode_len();
    let mut i: usize = 0;
    proof {
        assert(text@.subrange(0, 0) =~= Seq::<char>::empty());
    }
    while i < n
        invariant
            i <= n,
            n == text@.len(),
            editor@.wf(),
            editor@ == after_text(before, text@.subrange(0, i as int)),
        decreases n - i,
    {
        let c = text.get_char(i);
        proof {
            assert(text@.subrange(0, i + 1).drop_last() =~= text@.subrange(0, i as int));
        }
        let u: u32 = c as u32;
        if !(u < 0x20 || (0x7f <= u && u <= 0x9f)) {
            editor.handle_key(Key::Char(c), Mods::none());
        }
        i += 1;
    }
    proof {
        assert(text@.subrange(0, n as int) =~= text@);
    }
}

/// Feed one event into the editor.
fn apply_event(editor: &mut Editor, event: &InputEvent, command_held: bool) -> (r: Option<Command>)
    requires
        old(editor)@.wf(),
    ensures
        (final(editor)@, r) == after_event(old(editor)@, *event, command_held),
        final(editor)@.wf(),
{
    match event {
        InputEvent::Text(text) => {
            if !command_held {
                type_chars(editor, text.as_str());
            }
            None
        },
        InputEvent::Key { key, pressed, mods } => match translate_key(key, mods.ctrl) {
            Some(k) => {
                if *pressed {
                    editor.handle_key(k, *mods).command
                } else {
                    None
                }
            },
            None => None,
        },
        InputEvent::Other => None,
    }
}

/// Feed key and text events into the editor.
///
/// Returns a host command if one was requested (Ctrl+O, Ctrl+S, Ctrl+Shift+S), so the caller
/// can run it once it has let go of the document.
pub fn apply_input(editor: &mut Editor, events: &Vec<InputEvent>, command_held: bool) -> (r: Option<
    Command,
>)
    requires
        old(editor)@.wf(),
    ensures
        (final(editor)@, r) == after_events(old(editor)@, events@, command_held),
        final(editor)@.wf(),
{
    let ghost before = editor@;
    let mut command: Option<Command> = None;
    let mut i: usize = 0;
    proof {
        assert(events@.subrange(0, 0) =~= Seq::<InputEvent>::empty());
    }
    while i < events.len()
        invariant
            i <= events@.len(),
            editor@.wf(),
            (editor@, command) == after_events(before, events@.subrange(0, i as int), command_held),
        decreases events@.len() - i,
    {
        proof {
            assert(events@.subrange(0, i + 1).drop_last() =~= events@.subrange(0, i as int));
        }
        match apply_event(editor, &events[i], command_held) {
            Some(c) => {
                command = Some(c);
            },
            None => {},
        }
        i += 1;
    }
    proof {
        assert(events@.subrange(0, i as int) =~= events@);
    }
    command
}

/// A shortcut never types its own letter: while a command modifier is held, text changes
/// nothing.
pub proof fn law_shortcut_types_nothing(s: Session, text: String)
    ensures
        after_event(s, InputEvent::Text(text), true) == (s, None::<Command>),
{
}

/// Letting go of a key does nothing.
pub proof fn law_release_does_nothing(s: Session, key: InputKey, mods: Mods, command_held: bool)
    ensures
        after_event(s, InputEvent::Key { key, pressed: false, mods }, command_held) == (
            s,
            None::<Command>,
        ),
{
}

/// Text is typed char by char, in order. A control char types nothing, and any other does what
/// its key does with no modifier held.
pub proof fn law_text_is_typed_in_order(s: Session, a: Seq<char>, c: char, d: Seq<char>)
    ensures
        after_text(s, Seq::empty()) == s,
        after_text(s, a + d) == after_text(after_text(s, a), d),
        (c as u32) < 0x20 || 0x7f <= c as u32 <= 0x9f ==> after_text(s, seq![c]) == s,
        0x20 <= c as u32 && !(0x7f <= c as u32 <= 0x9f) ==> after_text(s, seq![c]) == s.after_key(
            Key::Char(c),
            Mods { ctrl: false, shift: false, alt: false },
        ).0,
    decreases d.len(),
{
    let one = seq![c];
    assert(one.drop_last() =~= Seq::<char>::empty());
    assert(after_text(s, one.drop_last()) == s);
    if d.len() == 0 {
        assert(a + d =~= a);
    } else {
        assert((a + d).drop_last() =~= a + d.drop_last());
        law_text_is_typed_in_order(s, a, c, d.drop_last());
    }
}

/// One more event is taken in behind the ones before it, and a command that it asks for takes
/// the place of theirs.
pub proof fn law_one_more_event(
    s: Session,
    a: Seq<InputEvent>,
    e: InputEvent,
    command_held: bool,
)
    ensures
        after_events(s, Seq::empty(), command_held) == (s, None::<Command>),
        ({
            let (t, before) = after_events(s, a, command_held);
            let (u, now) = after_event(t, e, command_held);
            &&& after_events(s, a.push(e), command_held).0 == u
            &&& now is Some ==> after_events(s, a.push(e), command_held).1 == now
            &&& now is None ==> after_events(s, a.push(e), command_held).1 == before
        }),
{
    assert(a.push(e).drop_last() == a);
}

/// A key that is pressed does what it does in the editor, and asks for what it asks for there;
/// a key that means nothing to the editor does nothing.
pub proof fn law_pressed_key_reaches_the_editor(
    s: Session,
    key: InputKey,
    mods: Mods,
    command_held: bool,
)
    ensures
        ({
            let after = after_event(s, InputEvent::Key { key, pressed: true, mods }, command_held);
            &&& translated(key, mods.ctrl) matches Some(k) ==> after.0 == s.after_key(k, mods).0
                && after.1 == s.after_key(k, mods).1.command
            &&& translated(key, mods.ctrl) is None ==> after == (s, None::<Command>)
        }),
        after_event(s, InputEvent::Other, command_held) == (s, None::<Command>),
{
}

/// Keys that move or edit keep their meaning whatever is held. A letter or a slash is a key of
/// the editor only with the command modifier, and a letter then means the same in either case.
pub proof fn law_keys_keep_their_meaning(ctrl: bool, name: String)
    ensures
        translated(InputKey::Enter, ctrl) == Some(Key::Enter),
        translated(InputKey::Backspace, ctrl) == Some(Key::Backspace),
        translated(InputKey::Delete, ctrl) == Some(Key::Delete),
        translated(InputKey::Tab, ctrl) == Some(Key::Tab),
        translated(InputKey::ArrowLeft, ctrl) == Some(Key::Left),
        translated(InputKey::ArrowRight, ctrl) == Some(Key::Right),
        translated(InputKey::ArrowUp, ctrl) == Some(Key::Up),
        translated(InputKey::ArrowDown, ctrl) == Some(Key::Down),
        translated(InputKey::Home, ctrl) == Some(Key::Home),
        translated(InputKey::End, ctrl) == Some(Key::End),
        translated(InputKey::PageUp, ctrl) == Some(Key::PageUp),
        translated(InputKey::PageDown, ctrl) == Some(Key::PageDown),
        translated(InputKey::Escape, ctrl) == Some(Key::Escape),
        translated(InputKey::Slash, true) == Some(Key::Char('/')),
        translated(InputKey::Slash, false) == None::<Key>,
        translated(InputKey::Other(name), false) == None::<Key>,
        name@.len() != 1 ==> translated(InputKey::Other(name), true) == None::<Key>,
        name@.len() == 1 ==> {
            let c = name@[0];
            let k = translated(InputKey::Other(name), true);
            &&& 'a' <= c && c <= 'z' ==> k == Some(Key::Char(c))
            &&& 'A' <= c && c <= 'Z' ==> exists|l: char|
                #[trigger] (l as u32) == c as u32 + 32 && k == Some(Key::Char(l))
            &&& !('a' <= c && c <= 'z') && !('A' <= c && c <= 'Z') ==> k == None::<Key>
        },
{
    if name@.len() == 1 {
        let c = name@[0];
        if 'A' <= c && c <= 'Z' {
            let l = lowered(c);
            assert(l as u32 == c as u32 + 32);
        }
    }
}

} // verus!
