use notepad::block::BlockKind;
use notepad::edit::Editor;
use notepad::inline::{SpanRole, Style};
use notepad::input::{apply_input, translate_key, InputEvent, InputKey};
use notepad::keys::{Command, Key, Mods, Theme, ViewMode};
use notepad::render::parse_document;
use notepad::view::{
    apply_clicks, base_font, block_gap, caret_position, line_glyph, line_map, mode_label, offset_at,
    save_label, shows_unsaved, span_look, sync_window_size, system_is_dark, theme_label,
    theme_poll_due, theme_to_apply, toolbar_channel, Gap, Glyph, SizeStep, SystemTheme, Tone,
};

#[test]
fn the_window_and_the_stored_size_settle() {
    // The window was resized: adopt it.
    let (step, seen) = sync_window_size((800, 600), (900, 620), None);
    assert_eq!(step, SizeStep::Adopt(800, 600));
    assert_eq!(seen, Some((800, 600)));
    assert_eq!(sync_window_size((800, 600), (800, 600), seen), (SizeStep::Nothing, seen));
    // The stored size changed: follow it.
    let (step, seen) = sync_window_size((800, 600), (1000, 700), seen);
    assert_eq!(step, SizeStep::Follow(1000, 700));
    assert_eq!(seen, Some((800, 600)));
    let (step, seen) = sync_window_size((1000, 700), (1000, 700), seen);
    assert_eq!((step, seen), (SizeStep::Nothing, Some((1000, 700))));
    assert_eq!(sync_window_size((0, 5), (1, 1), None), (SizeStep::Nothing, None));
}

#[test]
fn the_theme_is_applied_on_a_change_only() {
    assert_eq!(theme_to_apply(Theme::Auto, true, None), (true, true));
    assert_eq!(theme_to_apply(Theme::Auto, true, Some(true)), (true, false));
    assert_eq!(theme_to_apply(Theme::Light, true, Some(true)), (false, true));
    assert_eq!(theme_to_apply(Theme::Dark, false, Some(true)), (true, false));
    assert!(theme_poll_due(Theme::Auto, 2000));
    assert!(!theme_poll_due(Theme::Auto, 1999));
    assert!(!theme_poll_due(Theme::Dark, 9999));
    assert!(system_is_dark(SystemTheme::Unknown));
    assert!(system_is_dark(SystemTheme::Dark));
    assert!(!system_is_dark(SystemTheme::Light));
}

#[test]
fn the_toolbar_says_what_it_does() {
    assert_eq!(toolbar_channel(27, true), 45);
    assert_eq!(toolbar_channel(250, true), 255);
    assert_eq!(toolbar_channel(248, false), 232);
    assert_eq!(toolbar_channel(3, false), 0);
    assert_eq!(save_label(true), "Save *");
    assert_eq!(save_label(false), "Save");
    assert_eq!(mode_label(ViewMode::Wysiwyg), "Markdown source");
    assert_eq!(mode_label(ViewMode::Raw), "Formatted");
    assert_eq!(theme_label(Theme::Light, true), "Theme: light");
    assert_eq!(theme_label(Theme::Dark, false), "Theme: dark");
    assert_eq!(theme_label(Theme::Auto, true), "Theme: auto (dark)");
    assert_eq!(theme_label(Theme::Auto, false), "Theme: auto (light)");
    let mut e = Editor::new();
    e.handle_key(Key::Char('x'), Mods::none());
    assert!(!shows_unsaved(&e));
    e.file = Some("x.md".into());
    assert!(shows_unsaved(&e));
    e.written("x.md");
    assert!(!shows_unsaved(&e));
}

#[test]
fn gaps_part_elements() {
    let doc = parse_document("# h\npara\npara\n- a\n1. b\n\n> q\n> r\n```\nc\n```\nz", None);
    let gaps: Vec<Gap> = doc.blocks.windows(2).map(|w| block_gap(&w[0], &w[1])).collect();
    assert_eq!(
        gaps,
        vec![
            Gap::Element,
            Gap::Joined,
            Gap::Element,
            Gap::Item,
            Gap::Joined,
            Gap::Joined,
            Gap::Joined,
            Gap::Element,
            Gap::Joined,
            Gap::Joined,
            Gap::Element,
        ]
    );
}

#[test]
fn headings_are_larger() {
    let sizes: Vec<u32> = (1..=7).map(|n| base_font(&BlockKind::Heading(n)).tenths).collect();
    assert_eq!(sizes, vec![280, 230, 200, 180, 165, 155, 150]);
    assert!(base_font(&BlockKind::Code).monospace);
    assert!(base_font(&BlockKind::Fence { open: true }).monospace);
    assert!(!base_font(&BlockKind::Paragraph).monospace);
}

#[test]
fn glyphs_stand_for_hidden_markers() {
    let bullet = BlockKind::Bullet { indent: 0, checked: None };
    assert_eq!(line_glyph(&bullet, false), Glyph::Bullet);
    assert_eq!(line_glyph(&bullet, true), Glyph::Empty);
    let task = BlockKind::Numbered { indent: 0, number: 4, checked: Some(true) };
    assert_eq!(line_glyph(&task, false), Glyph::Checkbox(true));
    let item = BlockKind::Numbered { indent: 0, number: 4, checked: None };
    assert_eq!(line_glyph(&item, false), Glyph::Number(4));
    assert_eq!(line_glyph(&BlockKind::Paragraph, false), Glyph::Empty);
}

#[test]
fn spans_look_like_what_they_are() {
    let bold = Style { bold: true, italic: true, strike: true, code: true };
    let look = span_look(&bold, &SpanRole::Text);
    assert!(look.code && look.italics && look.strikethrough && !look.underline);
    assert_eq!(look.tone, Tone::Strong);
    assert_eq!(span_look(&bold, &SpanRole::Marker).tone, Tone::Dim);
    let link = span_look(&bold, &SpanRole::Link { url_start: 0, url_end: 0 });
    assert_eq!((link.tone, link.underline), (Tone::Link, true));
    assert_eq!(span_look(&Style::plain(), &SpanRole::Text).tone, Tone::Base);
}

#[test]
fn clicks_map_back_onto_the_source() {
    let src = "# é**b**";
    let doc = parse_document(src, None);
    let b = &doc.blocks[0];
    let map = line_map(b, src);
    // What is shown is "éb".
    assert_eq!(map, vec![2, 6, 9]);
    assert_eq!(caret_position(b, &map, 0), Some(0));
    assert_eq!(caret_position(b, &map, 4), Some(1));
    assert_eq!(caret_position(b, &map, 9), Some(2));
    assert_eq!(caret_position(b, &map, 10), None);
    assert_eq!(offset_at(&map, 1), Some(6));
    assert_eq!(offset_at(&map, 99), Some(9));
    assert_eq!(offset_at(&vec![], 0), None);
    // Revealed, every char of the source has its place.
    let doc = parse_document(src, Some(0));
    assert_eq!(line_map(&doc.blocks[0], src), vec![0, 1, 2, 4, 5, 6, 7, 8, 9]);
    // An empty line has one place to click at.
    let doc = parse_document("a\n", None);
    assert_eq!(line_map(&doc.blocks[1], "a\n"), vec![2, 2]);
}

#[test]
fn a_ticked_box_goes_before_a_moved_caret() {
    let mut e = Editor::with_text("- [ ] a\nb");
    apply_clicks(&mut e, Some(0), Some(3));
    assert_eq!(e.text(), "- [x] a\nb");
    assert_eq!(e.caret(), 9);
    apply_clicks(&mut e, None, Some(3));
    assert_eq!(e.caret(), 3);
    apply_clicks(&mut e, None, None);
    assert_eq!(e.caret(), 3);
}

fn key(key: InputKey, mods: Mods) -> InputEvent {
    InputEvent::Key { key, pressed: true, mods }
}

#[test]
fn events_become_key_presses() {
    let mut e = Editor::new();
    let events = vec![
        InputEvent::Text("ab\u{7}c".into()),
        InputEvent::Other,
        key(InputKey::Enter, Mods::none()),
        InputEvent::Text("d".into()),
        key(InputKey::Other("A".into()), Mods::none()),
        InputEvent::Key { key: InputKey::Backspace, pressed: false, mods: Mods::none() },
    ];
    assert_eq!(apply_input(&mut e, &events, false), None);
    assert_eq!(e.text(), "abc\n\nd");
}

#[test]
fn a_shortcut_does_not_type_its_letter() {
    let mut e = Editor::new();
    let events = vec![InputEvent::Text("b".into()), key(InputKey::Other("B".into()), Mods::ctrl())];
    assert_eq!(apply_input(&mut e, &events, true), None);
    assert_eq!(e.text(), "****");
    let events = vec![
        key(InputKey::Other("O".into()), Mods::ctrl()),
        key(InputKey::Other("S".into()), Mods::ctrl()),
        key(InputKey::ArrowLeft, Mods::none()),
    ];
    assert_eq!(apply_input(&mut e, &events, true), Some(Command::Save));
}

#[test]
fn keys_are_translated() {
    let named = [
        (InputKey::Enter, Key::Enter),
        (InputKey::Backspace, Key::Backspace),
        (InputKey::Delete, Key::Delete),
        (InputKey::Tab, Key::Tab),
        (InputKey::ArrowLeft, Key::Left),
        (InputKey::ArrowRight, Key::Right),
        (InputKey::ArrowUp, Key::Up),
        (InputKey::ArrowDown, Key::Down),
        (InputKey::Home, Key::Home),
        (InputKey::End, Key::End),
        (InputKey::PageUp, Key::PageUp),
        (InputKey::PageDown, Key::PageDown),
        (InputKey::Escape, Key::Escape),
    ];
    for (from, to) in named {
        assert_eq!(translate_key(&from, false), Some(to));
        assert_eq!(translate_key(&from, true), Some(to));
    }
    assert_eq!(translate_key(&InputKey::Slash, true), Some(Key::Char('/')));
    assert_eq!(translate_key(&InputKey::Slash, false), None);
    assert_eq!(translate_key(&InputKey::Other("Z".into()), true), Some(Key::Char('z')));
    assert_eq!(translate_key(&InputKey::Other("z".into()), true), Some(Key::Char('z')));
    assert_eq!(translate_key(&InputKey::Other("Z".into()), false), None);
    assert_eq!(translate_key(&InputKey::Other("1".into()), true), None);
    assert_eq!(translate_key(&InputKey::Other("F1".into()), true), None);
}
