use notepad::block::{heading_marker, is_fence, list_marker, quote_prefix, BlockKind};
use notepad::edit::Editor;
use notepad::keys::{Command, Key, Mods, ViewMode};
use notepad::typing::{marker_length, wrap_delimiter};

fn type_all(e: &mut Editor, s: &str) {
    for c in s.chars() {
        let key = if c == '\n' { Key::Enter } else { Key::Char(c) };
        e.handle_key(key, Mods::none());
    }
}

fn typed(s: &str) -> Editor {
    let mut e = Editor::new();
    type_all(&mut e, s);
    e
}

fn at(text: &str, caret: usize) -> Editor {
    let mut e = Editor::with_text(text);
    e.set_caret(caret);
    e
}

fn press(e: &mut Editor, key: Key) {
    e.handle_key(key, Mods::none());
}

// ---- as you type ----

#[test]
fn a_star_becomes_a_bullet() {
    assert_eq!(typed("* milk").text(), "- milk");
    assert_eq!(typed("+ milk").text(), "- milk");
    assert_eq!(typed("> * milk").text(), "> - milk");
    assert_eq!(typed("  * milk").text(), "  - milk");
    assert_eq!(typed("a * b").text(), "a * b");
}

#[test]
fn tight_boxes_become_task_boxes() {
    assert_eq!(typed("-[] a").text(), "- [ ] a");
    assert_eq!(typed("- [] a").text(), "- [ ] a");
    assert_eq!(typed("*[] a").text(), "- [ ] a");
    assert_eq!(typed("* [] a").text(), "- [ ] a");
    assert_eq!(typed("-[x] a").text(), "- [x] a");
    assert_eq!(typed("- [x] a").text(), "- [x] a");
}

#[test]
fn typing_over_a_selection_wraps_or_replaces_it() {
    for (c, want) in [('*', "a *b* c"), ('_', "a _b_ c"), ('`', "a `b` c"), ('~', "a ~~b~~ c")] {
        let mut e = Editor::with_text("a b c");
        e.select(2..3);
        press(&mut e, Key::Char(c));
        assert_eq!(e.text(), want);
        assert_eq!(e.selected_text(), "b");
    }
    let mut e = Editor::with_text("a b c");
    e.select(2..3);
    press(&mut e, Key::Char('['));
    assert_eq!(e.text(), "a [b]() c");
    assert_eq!(e.caret(), 6);
    let mut e = Editor::with_text("a b c");
    e.select(3..2);
    press(&mut e, Key::Char('x'));
    assert_eq!(e.text(), "a x c");
    assert_eq!(wrap_delimiter('x'), None);
    assert_eq!(wrap_delimiter('~'), Some("~~"));
}

#[test]
fn shortcuts_wrap_or_pair() {
    for (c, want, caret) in [('b', "ab****c", 4), ('I', "ab**c", 3), ('d', "ab~~~~c", 4), ('e', "ab``c", 3), ('`', "ab``c", 3)] {
        let mut e = at("abc", 2);
        let r = e.handle_key(Key::Char(c), Mods::ctrl());
        assert!(r.changed && r.handled);
        assert_eq!(e.text(), want);
        assert_eq!(e.caret(), caret);
    }
    let mut e = Editor::with_text("abc");
    e.select(0..3);
    e.handle_key(Key::Char('b'), Mods::ctrl());
    assert_eq!(e.text(), "**abc**");
    assert_eq!(e.selection(), 2..5);
    let mut e = Editor::new();
    e.handle_key(Key::Char('k'), Mods::ctrl());
    assert_eq!(e.text(), "[]()");
    assert_eq!(e.caret(), 3);
}

#[test]
fn commands_are_handed_to_the_host() {
    let mut e = Editor::new();
    assert_eq!(e.handle_key(Key::Char('o'), Mods::ctrl()).command, Some(Command::Open));
    assert_eq!(e.handle_key(Key::Char('s'), Mods::ctrl()).command, Some(Command::Save));
    assert_eq!(e.handle_key(Key::Char('S'), Mods::ctrl_shift()).command, Some(Command::SaveAs));
    assert_eq!(e.text(), "");
    let r = e.handle_key(Key::Char('/'), Mods::ctrl());
    assert!(r.handled && !r.changed && r.command.is_none());
    assert_eq!(e.mode, ViewMode::Raw);
}

#[test]
fn ctrl_with_another_char_types_it() {
    let mut e = Editor::new();
    e.handle_key(Key::Char('q'), Mods::ctrl());
    assert_eq!(e.text(), "q");
}

// ---- Enter ----

#[test]
fn enter_ends_a_paragraph_with_a_blank_line() {
    assert_eq!(typed("one\ntwo").text(), "one\n\ntwo");
    // A blank line gets one newline, and so does a line that a blank one follows.
    assert_eq!(typed("one\n\ntwo").text(), "one\n\n\ntwo");
    let mut e = at("one\n\ntwo", 3);
    press(&mut e, Key::Enter);
    assert_eq!(e.text(), "one\n\n\ntwo");
    assert_eq!(e.caret(), 4);
}

#[test]
fn enter_continues_lists() {
    assert_eq!(typed("- a\nb").text(), "- a\n- b");
    assert_eq!(typed("* a\nb").text(), "- a\n- b");
    assert_eq!(typed("- [x] a\nb").text(), "- [x] a\n- [ ] b");
    assert_eq!(typed("1. a\nb\nc").text(), "1. a\n2. b\n3. c");
    assert_eq!(typed("7) a\nb").text(), "7) a\n8) b");
    assert_eq!(typed("1. [ ] a\nb").text(), "1. [ ] a\n2. [ ] b");
    assert_eq!(typed("> - a\nb").text(), "> - a\n> - b");
    assert_eq!(typed("  - a\nb").text(), "  - a\n  - b");
}

#[test]
fn enter_on_an_empty_item_leaves_the_list() {
    assert_eq!(typed("- a\n\n").text(), "- a\n");
    assert_eq!(typed("- a\n\nb").text(), "- a\nb");
    assert_eq!(typed("1. a\n\nb").text(), "1. a\nb");
    // A nested one moves out first.
    let mut e = Editor::with_text("- a\n  - ");
    press(&mut e, Key::Enter);
    assert_eq!(e.text(), "- a\n- ");
    assert_eq!(e.caret(), 6);
    press(&mut e, Key::Enter);
    assert_eq!(e.text(), "- a\n");
}

#[test]
fn enter_continues_and_ends_quotes() {
    assert_eq!(typed("> a\nb").text(), "> a\n> b");
    assert_eq!(typed("> a\n\nb").text(), "> a\nb");
    assert_eq!(typed(">> a\nb").text(), ">> a\n>> b");
}

#[test]
fn an_opening_fence_closes_itself() {
    let mut e = typed("```rust\n");
    assert_eq!(e.text(), "```rust\n\n```");
    assert_eq!(e.caret(), 8);
    type_all(&mut e, "let x = 1;\n- y");
    assert_eq!(e.text(), "```rust\nlet x = 1;\n- y\n```");
    assert_eq!(typed("~~~\n").text(), "~~~\n\n~~~");
    // One that is closed already gets a plain break.
    let mut e = at("```\na\n```", 3);
    press(&mut e, Key::Enter);
    assert_eq!(e.text(), "```\n\n\na\n```");
}

#[test]
fn enter_replaces_the_selection() {
    let mut e = Editor::with_text("- one two");
    e.select(5..9);
    press(&mut e, Key::Enter);
    assert_eq!(e.text(), "- one\n- ");
}

#[test]
fn enter_renumbers_what_follows() {
    let mut e = at("1. a\n2. b\n3. c", 4);
    press(&mut e, Key::Enter);
    assert_eq!(e.text(), "1. a\n2. \n3. b\n4. c");
    assert_eq!(e.caret(), 8);
}

#[test]
fn renumbering_passes_over_nested_items_and_shifts_the_caret() {
    let mut e = at("8. a\n  1. n\n9. b\n10. c\n\n5. z", 4);
    press(&mut e, Key::Enter);
    assert_eq!(e.text(), "8. a\n9. \n  1. n\n10. b\n11. c\n\n5. z");
    assert_eq!(e.caret(), 8);
    // The caret's own line grows from "9." to "10.".
    let mut e = at("9. a\n9. bc", 10);
    press(&mut e, Key::Tab);
    e.handle_key(Key::Tab, Mods::shift());
    assert_eq!(e.text(), "9. a\n10. bc");
    assert_eq!(e.caret(), 11);
}

// ---- Backspace, Delete, Tab ----

#[test]
fn backspace_unstyles_a_block() {
    for (text, caret, want) in [
        ("# Title", 2, "Title"),
        ("- item", 2, "item"),
        ("- [ ] item", 6, "item"),
        ("> quote", 2, "quote"),
        ("> - item", 4, "item"),
        ("12. item", 4, "item"),
    ] {
        let mut e = at(text, caret);
        press(&mut e, Key::Backspace);
        assert_eq!(e.text(), want);
        assert_eq!(e.caret(), 0);
    }
}

#[test]
fn backspace_moves_a_nested_item_out_first() {
    let mut e = at("  - x", 4);
    press(&mut e, Key::Backspace);
    assert_eq!(e.text(), "- x");
    assert_eq!(e.caret(), 2);
    press(&mut e, Key::Backspace);
    assert_eq!(e.text(), "x");
}

#[test]
fn backspace_and_delete_take_chars_words_and_selections() {
    let mut e = at("aé漢", 6);
    press(&mut e, Key::Backspace);
    assert_eq!(e.text(), "aé");
    e.set_caret(1);
    press(&mut e, Key::Delete);
    assert_eq!(e.text(), "a");
    let r = e.handle_key(Key::Delete, Mods::none());
    assert!(r.handled && !r.changed);
    e.set_caret(0);
    let r = e.handle_key(Key::Backspace, Mods::none());
    assert!(r.handled && !r.changed);

    let mut e = at("one two three", 7);
    e.handle_key(Key::Backspace, Mods::ctrl());
    assert_eq!(e.text(), "one  three");
    e.handle_key(Key::Delete, Mods::ctrl());
    assert_eq!(e.text(), "one ");

    let mut e = Editor::with_text("one two");
    e.select(3..7);
    press(&mut e, Key::Delete);
    assert_eq!(e.text(), "one");
    e.select_all();
    press(&mut e, Key::Backspace);
    assert_eq!(e.text(), "");
}

#[test]
fn tab_moves_items_in_and_out() {
    let mut e = at("- a\n- b", 7);
    press(&mut e, Key::Tab);
    assert_eq!(e.text(), "- a\n  - b");
    assert_eq!(e.caret(), 9);
    e.handle_key(Key::Tab, Mods::shift());
    assert_eq!(e.text(), "- a\n- b");
    assert_eq!(e.caret(), 7);
    let mut e = at("> - a", 5);
    press(&mut e, Key::Tab);
    assert_eq!(e.text(), ">   - a");
}

#[test]
fn tab_in_text_inserts_or_takes_spaces() {
    let mut e = at("ab", 1);
    press(&mut e, Key::Tab);
    assert_eq!(e.text(), "a  b");
    let mut e = at("   ab", 4);
    e.handle_key(Key::Tab, Mods::shift());
    assert_eq!(e.text(), " ab");
    assert_eq!(e.caret(), 2);
    e.handle_key(Key::Tab, Mods::shift());
    assert_eq!(e.text(), "ab");
    assert_eq!(e.caret(), 1);
    let r = e.handle_key(Key::Tab, Mods::shift());
    assert!(r.handled && !r.changed);
    // A caret within what is taken away stays on its line.
    let mut e = at("x\n  ab", 3);
    e.handle_key(Key::Tab, Mods::shift());
    assert_eq!(e.text(), "x\nab");
    assert_eq!(e.caret(), 2);
}

// ---- checkboxes ----

#[test]
fn checkboxes_toggle() {
    let mut e = Editor::with_text("- [ ] a\n> 1. [x] b\n- c\nplain");
    assert!(e.toggle_checkbox(0));
    assert!(e.toggle_checkbox(1));
    assert!(e.toggle_checkbox(2));
    assert!(!e.toggle_checkbox(3));
    assert!(!e.toggle_checkbox(4));
    assert_eq!(e.text(), "- [x] a\n> 1. [ ] b\n- [ ] c\nplain");
    assert!(e.toggle_checkbox(0));
    assert!(e.toggle_checkbox(1));
    assert_eq!(e.text(), "- [ ] a\n> 1. [x] b\n- [ ] c\nplain");
}

#[test]
fn a_new_checkbox_moves_the_caret_behind_it() {
    let mut e = at("- c", 3);
    assert!(e.toggle_checkbox(0));
    assert_eq!(e.caret(), 7);
    assert_eq!(e.anchor(), 7);
}

#[test]
fn a_new_checkbox_leaves_the_anchor_on_a_boundary() {
    // Four bytes go in before the anchor, which then points into a char.
    let mut e = Editor::with_text("- 漢漢");
    e.select(5..0);
    assert!(e.toggle_checkbox(0));
    assert_eq!(e.text(), "- [ ] 漢漢");
    assert_eq!(e.caret(), 0);
    assert!(e.text().is_char_boundary(e.anchor()));
}

#[test]
fn a_capital_box_comes_back_small() {
    let mut e = Editor::with_text("- [X] a");
    e.toggle_checkbox(0);
    assert_eq!(e.text(), "- [ ] a");
    e.toggle_checkbox(0);
    assert_eq!(e.text(), "- [x] a");
}

// ---- motion ----

#[test]
fn the_caret_moves() {
    let mut e = at("alpha beta\né漢", 0);
    press(&mut e, Key::Right);
    assert_eq!(e.caret(), 1);
    e.handle_key(Key::Right, Mods::ctrl());
    assert_eq!(e.caret(), 5);
    press(&mut e, Key::End);
    assert_eq!(e.caret(), 10);
    press(&mut e, Key::Home);
    assert_eq!(e.caret(), 0);
    e.handle_key(Key::End, Mods::ctrl());
    assert_eq!(e.caret(), 16);
    press(&mut e, Key::Left);
    assert_eq!(e.caret(), 13);
    e.handle_key(Key::Left, Mods::ctrl());
    assert_eq!(e.caret(), 11);
    e.handle_key(Key::Home, Mods::ctrl());
    assert_eq!(e.caret(), 0);
    press(&mut e, Key::Left);
    assert_eq!(e.caret(), 0);
}

#[test]
fn shift_extends_and_an_arrow_collapses_the_selection() {
    let mut e = at("abcd", 1);
    e.handle_key(Key::Right, Mods::shift());
    e.handle_key(Key::Right, Mods::shift());
    assert_eq!(e.selected_text(), "bc");
    assert_eq!((e.anchor(), e.caret()), (1, 3));
    press(&mut e, Key::Left);
    assert_eq!(e.caret(), 1);
    assert!(!e.has_selection());
    e.select(1..3);
    press(&mut e, Key::Right);
    assert_eq!(e.caret(), 3);
    e.select(1..3);
    press(&mut e, Key::Escape);
    assert!(!e.has_selection());
    assert_eq!(e.caret(), 3);
}

#[test]
fn vertical_motion_remembers_its_column() {
    let mut e = at("a long line\nx\nanother line", 7);
    press(&mut e, Key::Down);
    assert_eq!((e.caret_line(), e.caret_column()), (1, 1));
    press(&mut e, Key::Down);
    assert_eq!((e.caret_line(), e.caret_column()), (2, 7));
    press(&mut e, Key::Down);
    assert_eq!(e.caret_line(), 2);
    press(&mut e, Key::Up);
    press(&mut e, Key::Up);
    assert_eq!(e.caret(), 7);
    press(&mut e, Key::Up);
    assert_eq!(e.caret(), 7);
    press(&mut e, Key::PageDown);
    assert_eq!(e.caret_line(), 2);
    press(&mut e, Key::PageUp);
    assert_eq!(e.caret(), 7);
    let many = "x\n".repeat(50);
    let mut e = at(&many, 0);
    press(&mut e, Key::PageDown);
    assert_eq!(e.caret_line(), 20);
    e.handle_key(Key::Down, Mods::shift());
    assert_eq!(e.selected_text(), "x\n");
}

// ---- history ----

#[test]
fn a_run_of_typing_is_one_step() {
    let mut e = Editor::with_text("start ");
    type_all(&mut e, "one two");
    assert_eq!(e.text(), "start one two");
    assert!(e.undo());
    assert_eq!(e.text(), "start ");
    assert_eq!(e.caret(), 6);
    assert!(e.redo());
    assert_eq!(e.text(), "start one two");
    assert!(!e.redo());
}

#[test]
fn every_other_edit_is_a_step_of_its_own() {
    let mut e = Editor::with_text("- a");
    press(&mut e, Key::Enter);
    press(&mut e, Key::Tab);
    e.insert_str("x");
    assert_eq!(e.text(), "- a\n  - x");
    assert!(e.handle_key(Key::Char('z'), Mods::ctrl()).changed);
    assert_eq!(e.text(), "- a\n  - ");
    e.handle_key(Key::Char('z'), Mods::ctrl());
    assert_eq!(e.text(), "- a\n- ");
    e.handle_key(Key::Char('z'), Mods::ctrl());
    assert_eq!(e.text(), "- a");
    assert!(!e.handle_key(Key::Char('z'), Mods::ctrl()).changed);
    assert!(e.handle_key(Key::Char('z'), Mods::ctrl_shift()).changed);
    assert!(e.handle_key(Key::Char('y'), Mods::ctrl()).changed);
    assert_eq!(e.text(), "- a\n  - ");
    // Typing again leaves nothing to redo.
    press(&mut e, Key::Char('q'));
    assert!(!e.redo());
}

#[test]
fn the_history_keeps_its_last_steps() {
    let mut e = Editor::new();
    for _ in 0..300 {
        e.insert_str("x");
    }
    let mut steps = 0;
    while e.undo() {
        steps += 1;
    }
    assert_eq!(steps, 256);
    assert_eq!(e.text().len(), 300 - 256);
    while e.redo() {}
    assert_eq!(e.text().len(), 300);
}

#[test]
fn set_text_keeps_the_caret_where_it_can() {
    let mut e = at("hello", 4);
    e.set_text("a漢");
    assert_eq!(e.caret(), 4);
    e.set_text("a漢漢");
    assert_eq!(e.caret(), 4);
    e.set_text("é漢");
    assert_eq!(e.caret(), 2);
    assert!(e.undo());
    assert_eq!(e.text(), "a漢漢");
}

// ---- markers ----

#[test]
fn markers_are_read() {
    assert_eq!(quote_prefix("> > x"), (4, 2));
    assert_eq!(quote_prefix("   >x"), (4, 1));
    assert_eq!(quote_prefix("    > x"), (0, 0));
    assert_eq!(list_marker("- x"), Some((2, BlockKind::Bullet { indent: 0, checked: None })));
    assert_eq!(
        list_marker("\t+ [X] x"),
        Some((7, BlockKind::Bullet { indent: 1, checked: Some(true) }))
    );
    assert_eq!(
        list_marker("  12) x"),
        Some((6, BlockKind::Numbered { indent: 2, number: 12, checked: None }))
    );
    assert_eq!(list_marker("1234567890. x"), None);
    assert_eq!(list_marker("-x"), None);
    assert_eq!(heading_marker("  ### x"), Some((6, 3)));
    assert_eq!(heading_marker("####### x"), None);
    assert_eq!(heading_marker("#x"), None);
    assert!(is_fence("  ```rust"));
    assert!(is_fence("~~~"));
    assert!(!is_fence("``"));
    assert_eq!(marker_length("> ## x"), Some(5));
    assert_eq!(marker_length("> x"), Some(2));
    assert_eq!(marker_length("x"), None);
    let kind = BlockKind::Numbered { indent: 3, number: 1, checked: Some(false) };
    assert_eq!((kind.indent(), kind.checked()), (3, Some(false)));
    assert_eq!((BlockKind::Blank.indent(), BlockKind::Blank.checked()), (0, None));
}

#[test]
fn a_long_random_session_never_loses_its_footing() {
    let keys = [
        Key::Char('a'), Key::Char(' '), Key::Char('*'), Key::Char('-'), Key::Char('1'), Key::Char('.'),
        Key::Char('>'), Key::Char('`'), Key::Char('漢'), Key::Char('z'), Key::Char('b'), Key::Char('['),
        Key::Enter, Key::Enter, Key::Backspace, Key::Delete, Key::Tab, Key::Left, Key::Right, Key::Up,
        Key::Down, Key::Home, Key::End, Key::PageUp, Key::PageDown, Key::Escape,
    ];
    let mut seed: u64 = 0x9e3779b97f4a7c15;
    let mut next = || {
        seed ^= seed << 13;
        seed ^= seed >> 7;
        seed ^= seed << 17;
        seed
    };
    let mut e = Editor::new();
    for _ in 0..20_000 {
        let r = next();
        let mods = Mods { ctrl: r & 0x700 == 0, shift: r & 0x3000 == 0, alt: false };
        let key = keys[(r % keys.len() as u64) as usize];
        let before = e.text().to_string();
        let result = e.handle_key(key, mods);
        assert!(result.handled);
        assert_eq!(result.changed, e.text() != before);
        assert!(e.text().is_char_boundary(e.caret()));
        assert!(e.text().is_char_boundary(e.anchor()));
        if r % 97 == 0 {
            e.toggle_checkbox((r >> 32) as usize % 8);
        }
        if r % 89 == 0 {
            e.select((r >> 20) as usize % 300..(r >> 40) as usize % 300);
        }
        if e.text().len() > 4000 {
            e.set_text("");
        }
    }
}
