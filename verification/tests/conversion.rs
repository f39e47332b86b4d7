use notepad::edit::Editor;
use notepad::keys::{Key, Mods};

fn pressed(text: &str, caret: usize, key: Key, mods: Mods) -> Editor {
    let mut e = Editor::with_text(text);
    e.set_caret(caret);
    e.handle_key(key, mods);
    e
}

fn entered(text: &str) -> Editor {
    pressed(text, text.len(), Key::Enter, Mods::none())
}

#[test]
fn a_space_makes_an_item_of_a_marker() {
    for (typed, want) in [
        ("*", "- "),
        ("+", "- "),
        ("> +", "> - "),
        ("\t*", "\t- "),
        ("-[]", "- [ ] "),
        ("- []", "- [ ] "),
        ("*[]", "- [ ] "),
        ("* []", "- [ ] "),
        ("-[x]", "- [x] "),
        ("- [x]", "- [x] "),
        ("**", "** "),
        ("a *", "a * "),
    ] {
        let e = pressed(typed, typed.len(), Key::Char(' '), Mods::none());
        assert_eq!(e.text(), want);
        assert_eq!(e.caret(), want.len());
    }
}

#[test]
fn enter_carries_a_list_on() {
    for (text, want) in [
        ("- a", "- a\n- "),
        ("* a", "* a\n* "),
        ("- [x] a", "- [x] a\n- [ ] "),
        ("  + a", "  + a\n  + "),
        ("3. a", "3. a\n4. "),
        ("3) a", "3) a\n4) "),
        ("> 9. [ ] a", "> 9. [ ] a\n> 10. [ ] "),
        ("999999998. a", "999999998. a\n999999999. "),
        // The space that the tab becomes belongs to the quote mark.
        (">\t- a", ">\t- a\n> - "),
    ] {
        assert_eq!(entered(text).text(), want);
    }
}

#[test]
fn enter_renumbers_the_items_below() {
    let e = pressed("1. a\n2. b\n   1. x\n3. c\n\n7. d", 4, Key::Enter, Mods::none());
    assert_eq!(e.text(), "1. a\n2. \n3. b\n   1. x\n4. c\n\n7. d");
    assert_eq!(e.caret(), 8);
}

#[test]
fn enter_ends_lists_and_quotes() {
    assert_eq!(entered("- a\n- ").text(), "- a\n");
    assert_eq!(entered("> - ").text(), "> ");
    assert_eq!(entered("    - ").text(), "  - ");
    assert_eq!(entered("> a").text(), "> a\n> ");
    assert_eq!(entered("> a\n> ").text(), "> a\n");
}

#[test]
fn enter_closes_an_opening_fence() {
    let e = entered("a\n```rs");
    assert_eq!(e.text(), "a\n```rs\n\n```");
    assert_eq!(e.caret(), 8);
    assert_eq!(entered("~~~").text(), "~~~\n\n~~~");
    assert_eq!(pressed("```\n```", 3, Key::Enter, Mods::none()).text(), "```\n\n\n```");
}

#[test]
fn enter_parts_paragraphs() {
    let e = pressed("one two", 4, Key::Enter, Mods::none());
    assert_eq!(e.text(), "one \n\ntwo");
    assert_eq!(e.caret(), 6);
    assert_eq!(pressed("a\n\nb", 1, Key::Enter, Mods::none()).text(), "a\n\n\nb");
    assert_eq!(entered("a\n").text(), "a\n\n");
}

#[test]
fn tab_moves_items() {
    assert_eq!(pressed("- a", 2, Key::Tab, Mods::none()).text(), "  - a");
    assert_eq!(pressed("  - a", 2, Key::Tab, Mods::shift()).text(), "- a");
    assert_eq!(pressed(" - a", 2, Key::Tab, Mods::shift()).text(), "- a");
    let e = pressed("1. a\n2. b", 9, Key::Tab, Mods::none());
    assert_eq!(e.text(), "1. a\n  2. b");
    assert_eq!(e.caret(), 11);
    // Part of the indent goes to the quote mark.
    assert_eq!(pressed(">- a", 4, Key::Tab, Mods::none()).text(), ">  - a");
}

#[test]
fn backspace_takes_a_marker_away() {
    for (text, caret, want) in [
        ("# a", 2, "a"),
        ("- [x] a", 6, "a"),
        ("> a", 2, "a"),
        ("> 1. a", 5, "a"),
        ("    - a", 6, "  - a"),
        ("- a", 3, "- "),
    ] {
        assert_eq!(pressed(text, caret, Key::Backspace, Mods::none()).text(), want);
    }
}

#[test]
fn wrapping_keeps_the_selection() {
    let mut e = Editor::with_text("one two");
    e.select(4..7);
    e.handle_key(Key::Char('b'), Mods::ctrl());
    assert_eq!(e.text(), "one **two**");
    assert_eq!(e.selected_text(), "two");
    e.handle_key(Key::Char('~'), Mods::none());
    assert_eq!(e.text(), "one **~~two~~**");
    assert_eq!(e.selected_text(), "two");
}

#[test]
fn a_link_waits_for_its_target() {
    let mut e = Editor::with_text("see here");
    e.select(4..8);
    e.handle_key(Key::Char('k'), Mods::ctrl());
    assert_eq!(e.text(), "see [here]()");
    assert_eq!(e.caret(), 11);
    assert!(!e.has_selection());
}

#[test]
fn a_run_over_a_selection_is_undone_at_once() {
    let mut e = Editor::with_text("one two");
    e.select(4..7);
    for c in "2 3".chars() {
        e.handle_key(Key::Char(c), Mods::none());
    }
    assert_eq!(e.text(), "one 2 3");
    assert!(e.undo());
    assert_eq!(e.text(), "one two");
    assert_eq!(e.selected_text(), "two");
}

#[test]
fn enter_at_a_closing_fence_adds_none() {
    let fences = |e: &Editor| e.text().lines().filter(|l| l.starts_with("```")).count();
    let e = pressed("```\ncode\n```", 12, Key::Enter, Mods::none());
    assert_eq!(fences(&e), 2);
    assert!(e.text().starts_with("```\ncode\n```\n"));
    // The next fence opens a block of its own.
    let e = pressed("```\ncode\n```\n```", 16, Key::Enter, Mods::none());
    assert_eq!(fences(&e), 4);
    assert_eq!(e.text(), "```\ncode\n```\n```\n\n```");
    let e = pressed("~~~\ncode\n~~~", 12, Key::Enter, Mods::none());
    assert_eq!(e.text().lines().filter(|l| l.starts_with("~~~")).count(), 2);
}

#[test]
fn the_separator_is_the_one_behind_the_digits() {
    let e = entered("1. (a) b");
    assert_eq!(e.text(), "1. (a) b\n2. ");
    let e = entered("1) a. b");
    assert_eq!(e.text(), "1) a. b\n2) ");
    let e = entered("> 9. (x) y");
    assert_eq!(e.text(), "> 9. (x) y\n> 10. ");
}

#[test]
fn shift_tab_at_the_margin_is_no_edit() {
    let mut e = Editor::with_text("- a");
    e.dirty = false;
    e.set_caret(3);
    let r = e.handle_key(Key::Tab, Mods { shift: true, ..Mods::none() });
    assert!(r.handled);
    assert!(!r.changed);
    assert_eq!(e.text(), "- a");
    assert_eq!(e.caret(), 3);
    assert!(!e.is_dirty());
    assert!(!e.undo());
}

#[test]
fn shift_tab_takes_tab_back() {
    let shift = Mods { shift: true, ..Mods::none() };
    for (text, caret) in [("- a", 3), ("x\n  - a\n- b", 7), ("> - a", 5), ("- [ ] t", 0), ("- é\n", 4)] {
        let mut e = Editor::with_text(text);
        e.set_caret(caret);
        assert!(e.handle_key(Key::Tab, Mods::none()).changed);
        assert_eq!(e.text().len(), text.len() + 2);
        assert_eq!(e.caret(), caret + 2);
        assert!(e.handle_key(Key::Tab, shift).changed);
        assert_eq!(e.text(), text);
        assert_eq!(e.caret(), caret);
        assert_eq!(e.selection(), caret..caret);
    }
}

#[test]
fn changed_says_whether_the_text_differs() {
    let ctrl = Mods { ctrl: true, ..Mods::none() };
    let mut e = Editor::with_text("ab");
    e.set_caret(1);
    e.insert_str("");
    let r = e.handle_key(Key::Char('z'), ctrl);
    assert!(r.handled);
    assert!(!r.changed);
    assert_eq!(e.text(), "ab");
    // The same text in place of a selection.
    let mut e = Editor::with_text("ab");
    e.select_all();
    e.insert_str("ab");
    let r = e.handle_key(Key::Char('z'), ctrl);
    assert!(!r.changed);
    let r = e.handle_key(Key::Char('z'), Mods { ctrl: true, shift: true, ..Mods::none() });
    assert!(!r.changed);
    let mut e = Editor::with_text("ab");
    e.set_caret(2);
    e.insert_str("c");
    assert!(e.handle_key(Key::Char('z'), ctrl).changed);
    assert_eq!(e.text(), "ab");
}

/// Presses a key that leaves the text as it was, and checks that nothing else has come of it.
fn comes_to_nothing(e: &mut Editor, key: Key, caret: usize) {
    let text = e.text().to_string();
    let dirty = e.is_dirty();
    let r = e.handle_key(key, Mods::none());
    assert!(r.handled);
    assert!(!r.changed);
    assert!(r.command.is_none());
    assert_eq!(e.text(), text);
    assert_eq!(e.caret(), caret);
    assert_eq!(e.anchor(), caret);
    assert_eq!(e.is_dirty(), dirty);
}

#[test]
fn a_press_that_changes_nothing_leaves_nothing_to_save_or_undo() {
    // The selected text typed again.
    let mut e = Editor::with_text("a");
    e.select_all();
    comes_to_nothing(&mut e, Key::Char('a'), 1);
    assert!(!e.undo());
    // Tab over two spaces.
    let mut e = Editor::with_text("x  y");
    e.select(1..3);
    comes_to_nothing(&mut e, Key::Tab, 3);
    assert!(!e.undo());
    // Enter over a line break.
    let mut e = Editor::with_text("```\na\nb\n```");
    e.select(5..6);
    comes_to_nothing(&mut e, Key::Enter, 6);
    assert!(!e.undo());
    // Neither does it take away what there is to save.
    let mut e = Editor::with_text("a");
    e.dirty = true;
    e.select_all();
    comes_to_nothing(&mut e, Key::Char('a'), 1);
}

#[test]
fn a_press_that_changes_nothing_keeps_the_history() {
    let mut e = Editor::with_text("a");
    e.handle_key(Key::Char('b'), Mods::none());
    e.handle_key(Key::Enter, Mods::none());
    assert!(e.undo());
    assert_eq!(e.text(), "ab");
    e.select(0..1);
    comes_to_nothing(&mut e, Key::Char('a'), 1);
    // What was undone can still be done again, and what was done undone.
    assert!(e.redo());
    assert_eq!(e.text(), "ab\n\n");
    assert!(e.undo());
    assert!(e.undo());
    assert_eq!(e.text(), "a");
    assert!(!e.undo());
}

#[test]
fn typing_goes_on_after_a_char_that_changed_nothing() {
    let mut e = Editor::with_text("a");
    e.select_all();
    comes_to_nothing(&mut e, Key::Char('a'), 1);
    e.handle_key(Key::Char('b'), Mods::none());
    e.handle_key(Key::Char('c'), Mods::none());
    assert_eq!(e.text(), "abc");
    assert!(e.undo());
    assert_eq!(e.text(), "a");
    assert_eq!(e.caret(), 1);
}

#[test]
fn only_open_and_save_are_for_the_host() {
    let ctrl = Mods { ctrl: true, ..Mods::none() };
    for c in ['o', 'O', 's', 'S'] {
        let mut e = Editor::with_text("a");
        let r = e.handle_key(Key::Char(c), ctrl);
        assert!(r.command.is_some() && !r.changed);
        assert_eq!(e.text(), "a");
        assert!(e.handle_key(Key::Char(c), Mods::none()).command.is_none());
    }
    for c in ['a', 'b', 'z', '/', 't', 'x'] {
        assert!(Editor::with_text("a").handle_key(Key::Char(c), ctrl).command.is_none());
    }
}

#[test]
fn renumbering_again_changes_nothing() {
    // Enter renumbers the list; so do Tab and Shift+Tab, to no effect any more.
    let mut e = pressed("9. a\n3. b\n   7. x\n3. c\ntext", 4, Key::Enter, Mods::none());
    let want = "9. a\n10. \n11. b\n   7. x\n12. c\ntext";
    assert_eq!(e.text(), want);
    let caret = e.caret();
    assert_eq!(caret, 9);
    e.handle_key(Key::Tab, Mods::none());
    e.handle_key(Key::Tab, Mods::shift());
    assert_eq!(e.text(), want);
    assert_eq!(e.caret(), caret);
}
