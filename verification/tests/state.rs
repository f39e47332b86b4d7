use notepad::edit::Editor;
use notepad::keys::{Key, Mods, Theme, ViewMode};
use notepad::session::{DEFAULT_HEIGHT, DEFAULT_WIDTH, MAX_HEIGHT, MAX_WIDTH, MIN_HEIGHT, MIN_WIDTH};
use notepad::state::{PluginState, STATE_VERSION};
use serde_json::Value;

fn encode(s: &PluginState) -> Option<Vec<u8>> {
    let mut m = serde_json::Map::new();
    m.insert("version".into(), Value::from(s.version));
    m.insert("notes".into(), Value::from(s.notes.as_str()));
    m.insert("mode".into(), Value::from(s.mode.as_str()));
    m.insert("theme".into(), Value::from(s.theme.as_str()));
    m.insert("width".into(), Value::from(s.width));
    m.insert("height".into(), Value::from(s.height));
    m.insert("caret".into(), Value::from(s.caret));
    m.insert(
        "file".into(),
        match &s.file {
            Some(f) => Value::from(f.as_str()),
            None => Value::Null,
        },
    );
    serde_json::to_vec(&Value::Object(m)).ok()
}

fn text_field(m: &serde_json::Map<String, Value>, key: &str, default: &str) -> Option<String> {
    match m.get(key) {
        None => Some(default.to_string()),
        Some(v) => v.as_str().map(|s| s.to_string()),
    }
}

fn int_field(m: &serde_json::Map<String, Value>, key: &str, default: i64) -> Option<i64> {
    match m.get(key) {
        None => Some(default),
        Some(v) => v.as_i64(),
    }
}

fn decode(bytes: &[u8]) -> Option<PluginState> {
    let value: Value = serde_json::from_slice(bytes).ok()?;
    let m = value.as_object()?;
    Some(PluginState {
        version: u32::try_from(int_field(m, "version", i64::from(STATE_VERSION))?).ok()?,
        notes: text_field(m, "notes", "")?,
        mode: text_field(m, "mode", "wysiwyg")?,
        theme: text_field(m, "theme", "auto")?,
        width: i32::try_from(int_field(m, "width", i64::from(DEFAULT_WIDTH))?).ok()?,
        height: i32::try_from(int_field(m, "height", i64::from(DEFAULT_HEIGHT))?).ok()?,
        caret: usize::try_from(int_field(m, "caret", 0)?).ok()?,
        file: match m.get("file") {
            None | Some(Value::Null) => None,
            Some(v) => Some(v.as_str()?.to_string()),
        },
    })
}

#[test]
fn round_trips_everything() {
    let mut e = Editor::with_text("# Notes\n\n- one\n- two");
    e.mode = ViewMode::Raw;
    e.set_size(1024, 768);
    e.file = Some("C:/notes/todo.md".into());
    e.set_caret(3);

    let bytes = e.state_bytes(encode);
    let mut restored = Editor::new();
    restored.load_state_bytes(&bytes, decode);

    assert_eq!(restored.text(), "# Notes\n\n- one\n- two");
    assert_eq!(restored.mode, ViewMode::Raw);
    assert_eq!(restored.width, 1024);
    assert_eq!(restored.height, 768);
    assert_eq!(restored.caret(), 3);
    assert_eq!(restored.file.as_ref().unwrap(), "C:/notes/todo.md");
    assert!(!restored.dirty);
}

#[test]
fn theme_round_trips() {
    for theme in [Theme::Light, Theme::Dark, Theme::Auto] {
        let mut e = Editor::with_text("x");
        e.theme = theme;
        let mut restored = Editor::new();
        restored.load_state_bytes(&e.state_bytes(encode), decode);
        assert_eq!(restored.theme, theme, "theme {theme:?} did not survive");
    }
}

#[test]
fn theme_defaults_to_auto() {
    assert_eq!(Editor::new().theme, Theme::Auto);
    assert_eq!(PluginState::default().theme, "auto");
}

#[test]
fn state_written_before_themes_existed_still_loads() {
    // No "theme" key at all: the field must default rather than the whole parse failing and
    // the notes being treated as raw text.
    let s = PluginState::from_bytes(br#"{"notes":"older project","mode":"raw"}"#, decode);
    assert_eq!(s.notes, "older project");
    assert_eq!(s.theme, "auto");

    let mut e = Editor::new();
    e.load_state(&s);
    assert_eq!(e.theme, Theme::Auto);
    assert_eq!(e.mode, ViewMode::Raw);
}

#[test]
fn an_unknown_theme_falls_back_to_auto() {
    let s = PluginState::from_bytes(br#"{"notes":"x","theme":"solarized"}"#, decode);
    let mut e = Editor::new();
    e.load_state(&s);
    assert_eq!(e.theme, Theme::Auto);
}

#[test]
fn empty_state_is_a_fresh_document() {
    let s = PluginState::from_bytes(&[], decode);
    assert_eq!(s.notes, "");
    assert_eq!(s.width, DEFAULT_WIDTH);
    assert_eq!(s.mode, "wysiwyg");
}

#[test]
fn non_json_state_is_kept_as_note_text() {
    let s = PluginState::from_bytes(b"just some notes", decode);
    assert_eq!(s.notes, "just some notes");
}

#[test]
fn missing_fields_fall_back_to_defaults() {
    let s = PluginState::from_bytes(br#"{"notes":"hi"}"#, decode);
    assert_eq!(s.notes, "hi");
    assert_eq!(s.mode, "wysiwyg");
    assert_eq!(s.height, DEFAULT_HEIGHT);
}

#[test]
fn size_is_clamped_to_the_minimum_on_load() {
    let s = PluginState::from_bytes(br#"{"notes":"x","width":10,"height":10}"#, decode);
    let mut e = Editor::new();
    e.load_state(&s);
    assert!(e.width >= MIN_WIDTH);
    assert!(e.height >= MIN_HEIGHT);
}

#[test]
fn unicode_survives_the_round_trip() {
    let e = Editor::with_text("# 見出し\n\n- 日本語 **太字** ✓\n");
    let mut restored = Editor::new();
    restored.load_state_bytes(&e.state_bytes(encode), decode);
    assert_eq!(restored.text(), e.text());
}

#[test]
fn bytes_that_are_no_text_are_kept_as_far_as_they_go() {
    let s = PluginState::from_bytes(b"ab\xffcd", decode);
    assert_eq!(s.notes, "ab\u{fffd}cd");
    assert_eq!(s.theme, "auto");
    assert_eq!(s.caret, 0);
    assert_eq!(s.file, None);
}

#[test]
fn a_failed_encoding_leaves_an_empty_object() {
    let e = Editor::with_text("x");
    assert_eq!(e.state_bytes(|_: &PluginState| None), b"{}");
    assert_eq!(PluginState::from_encoding(Some(vec![1, 2])), vec![1, 2]);
}

#[test]
fn an_absurd_size_is_held_within_bounds() {
    let mut e = Editor::new();
    let mut s = PluginState::default();
    s.width = i32::MAX;
    s.height = i32::MIN;
    e.load_state(&s);
    assert_eq!(e.width, MAX_WIDTH);
    assert_eq!(e.height, MIN_HEIGHT);
    e.set_size(500, i32::MAX);
    assert_eq!((e.width, e.height), (500, MAX_HEIGHT));
}

#[test]
fn a_caret_inside_a_char_moves_to_its_start() {
    let mut e = Editor::new();
    let mut s = PluginState::default();
    s.notes = "a漢b".into();
    s.caret = 3;
    e.load_state(&s);
    assert_eq!(e.caret(), 1);
    s.caret = 99;
    e.load_state(&s);
    assert_eq!(e.caret(), 5);
    assert_eq!(e.anchor(), 5);
}

#[test]
fn loading_forgets_what_was_there() {
    let mut e = Editor::with_text("old");
    e.handle_key(Key::Char('!'), Mods::none());
    assert!(e.is_dirty());
    e.load_state(&PluginState::default());
    assert_eq!(e.text(), "");
    assert!(!e.is_dirty());
    assert!(!e.undo());
    assert!(!e.redo());
}

#[test]
fn saving_captures_every_field() {
    let mut e = Editor::with_text("x\ny");
    e.set_caret(2);
    e.file = Some("n.md".into());
    let s = e.save_state();
    assert_eq!(s.version, 1);
    assert_eq!(s.notes, "x\ny");
    assert_eq!(s.mode, "wysiwyg");
    assert_eq!(s.theme, "auto");
    assert_eq!((s.width, s.height), (900, 620));
    assert_eq!(s.caret, 2);
    assert_eq!(s.file.as_deref(), Some("n.md"));
    assert_eq!(s.clone().notes, s.notes);
}
