use notepad::edit::Editor;
use notepad::keys::{Key, Mods, Theme, ViewMode};

#[test]
fn theme_names_round_trip() {
    for theme in [Theme::Light, Theme::Dark, Theme::Auto] {
        assert_eq!(Theme::from_str(theme.as_str()), theme);
    }
}

#[test]
fn theme_cycles_auto_light_dark() {
    let mut t = Theme::Auto;
    t = t.cycled();
    assert_eq!(t, Theme::Light);
    t = t.cycled();
    assert_eq!(t, Theme::Dark);
    t = t.cycled();
    assert_eq!(t, Theme::Auto, "cycling must return to where it started");
}

#[test]
fn auto_follows_the_system_and_the_others_do_not() {
    // (theme, system is dark) -> draws dark
    let cases = [
        (Theme::Light, true, false),
        (Theme::Light, false, false),
        (Theme::Dark, true, true),
        (Theme::Dark, false, true),
        (Theme::Auto, true, true),
        (Theme::Auto, false, false),
    ];
    for (theme, system_dark, want) in cases {
        assert_eq!(theme.is_dark(system_dark), want, "{theme:?} with system_dark={system_dark}");
    }
}

#[test]
fn ctrl_t_cycles_the_theme_without_touching_the_document() {
    let mut e = Editor::with_text("# Notes");
    assert_eq!(e.theme, Theme::Auto);

    let result = e.handle_key(Key::Char('t'), Mods::ctrl());
    assert!(result.handled);
    assert!(!result.changed, "changing theme is not a document edit");
    assert_eq!(e.theme, Theme::Light);
    assert_eq!(e.text(), "# Notes");

    e.handle_key(Key::Char('t'), Mods::ctrl());
    assert_eq!(e.theme, Theme::Dark);
    e.handle_key(Key::Char('t'), Mods::ctrl());
    assert_eq!(e.theme, Theme::Auto);
}

#[test]
fn a_plain_t_is_typed_rather_than_cycling_the_theme() {
    let mut e = Editor::new();
    e.handle_key(Key::Char('t'), Mods::none());
    assert_eq!(e.text(), "t");
    assert_eq!(e.theme, Theme::Auto);
}

#[test]
fn the_theme_is_not_undoable() {
    // Undo restores document snapshots; a view preference is not part of the document and
    // must survive an undo.
    let mut e = Editor::new();
    for c in "hello".chars() {
        e.handle_key(Key::Char(c), Mods::none());
    }
    e.handle_key(Key::Char('t'), Mods::ctrl());
    assert_eq!(e.theme, Theme::Light);

    assert!(e.undo());
    assert_eq!(e.text(), "");
    assert_eq!(e.theme, Theme::Light, "undo must not revert the theme");
}

#[test]
fn unknown_names_fall_back() {
    assert_eq!(Theme::from_str("solarized"), Theme::Auto);
    assert_eq!(Theme::from_str("Light"), Theme::Auto);
    assert_eq!(Theme::default(), Theme::Auto);
    assert_eq!(ViewMode::from_str("RAW"), ViewMode::Wysiwyg);
}

#[test]
fn view_names_round_trip_and_toggle_back() {
    for mode in [ViewMode::Wysiwyg, ViewMode::Raw] {
        assert_eq!(ViewMode::from_str(mode.as_str()), mode);
        assert_ne!(mode.toggled(), mode);
        assert_eq!(mode.toggled().toggled(), mode);
    }
    assert_eq!(ViewMode::Raw.as_str(), "raw");
    assert_eq!(ViewMode::Wysiwyg.as_str(), "wysiwyg");
}

#[test]
fn themes_can_be_set_outright() {
    let mut e = Editor::new();
    e.set_theme(Theme::Dark);
    assert_eq!(e.theme, Theme::Dark);
    e.cycle_theme();
    assert_eq!(e.theme, Theme::Auto);
}
