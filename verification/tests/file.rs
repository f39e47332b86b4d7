use notepad::bundle::Os;
use notepad::commands::{
    conclude, open_failed, outcome, perform, save_as_failed, save_failed, suggested_name, Answer, Request,
};
use notepad::edit::Editor;
use notepad::file::{file_name, to_unix_lines, with_default_extension, FileError, MARKDOWN_EXTENSIONS};
use notepad::keys::{Command, Key, Mods};

/// Opens a file that was read without trouble.
fn open(e: &mut Editor, path: &str, contents: &str) {
    e.open_path(path, Ok::<String, String>(contents.to_string())).unwrap();
}

#[test]
fn open_reads_a_file_and_adopts_its_path() {
    let mut e = Editor::new();
    open(&mut e, "dir/notes.md", "# Hello\n\n- a\n");
    assert_eq!(e.text(), "# Hello\n\n- a\n");
    assert_eq!(e.file.as_deref(), Some("dir/notes.md"));
    assert!(!e.is_dirty());
    assert_eq!(e.caret(), 0);
}

#[test]
fn crlf_files_are_normalised() {
    let mut e = Editor::new();
    open(&mut e, "crlf.md", "line one\r\nline two\r\n");
    assert_eq!(e.text(), "line one\nline two\n");
}

#[test]
fn save_writes_back_to_the_same_path() {
    let mut e = Editor::new();
    open(&mut e, "dir/save.md", "original");
    e.set_caret(e.text().len());
    e.handle_key(Key::Char('!'), Mods::none());
    assert!(e.is_dirty());

    let path = e.save().unwrap();
    assert_eq!(path, "dir/save.md");
    assert_eq!(e.text(), "original!");
    e.written(&path);
    assert!(!e.is_dirty());
}

#[test]
fn save_without_a_path_is_an_error() {
    let e = Editor::with_text("unsaved");
    assert!(e.save().is_err());
}

#[test]
fn save_as_adopts_the_new_path_and_adds_md() {
    let mut e = Editor::with_text("# Fresh\n");
    let path = e.save_as(Os::Linux, "dir/fresh");
    assert_eq!(path, "dir/fresh.md");
    assert_eq!(e.text(), "# Fresh\n");
    e.written(&path);
    assert_eq!(e.file.as_deref(), Some("dir/fresh.md"));
    assert!(!e.is_dirty());
}

#[test]
fn editing_marks_the_document_dirty() {
    let mut e = Editor::with_text("hi");
    e.dirty = false;
    e.set_caret(e.text().len());
    e.handle_key(Key::Char('!'), Mods::none());
    assert!(e.is_dirty());
}

#[test]
fn a_full_open_edit_save_cycle_round_trips() {
    let mut e = Editor::new();
    open(&mut e, "cycle.md", "# Title\n");
    e.set_caret(e.text().len());
    for c in "- item".chars() {
        e.handle_key(Key::Char(c), Mods::none());
    }
    let on_disk = e.text().to_string();
    e.written("cycle.md");

    let mut reopened = Editor::new();
    open(&mut reopened, "cycle.md", &on_disk);
    assert_eq!(reopened.text(), "# Title\n- item");
}

#[test]
fn a_file_that_cannot_be_read_changes_nothing() {
    let mut e = Editor::with_text("mine");
    e.handle_key(Key::Char('!'), Mods::none());
    let r = e.open_path("gone.md", Err::<String, i32>(2));
    assert_eq!(r, Err(2));
    assert_eq!(e.text(), "mine!");
    assert_eq!(e.file, None);
    assert!(e.is_dirty());
    assert!(e.undo());
}

#[test]
fn opening_cannot_be_undone_into_the_file_before() {
    let mut e = Editor::with_text("before");
    open(&mut e, "x.md", "after");
    assert!(!e.undo());
    assert_eq!(e.text(), "after");
}

#[test]
fn saving_nowhere_says_so() {
    let e = Editor::new();
    let err = e.save().unwrap_err();
    assert_eq!(err, FileError::NoFile);
    assert_eq!(err.message(), "no file associated with this document");
}

#[test]
fn undoing_after_a_save_leaves_unsaved_changes() {
    let mut e = Editor::new();
    open(&mut e, "x.md", "a");
    e.set_caret(1);
    e.handle_key(Key::Char('b'), Mods::none());
    e.written("x.md");
    assert!(!e.is_dirty());
    assert!(e.undo());
    assert_eq!(e.text(), "a");
    assert!(e.is_dirty());
    e.written("x.md");
    assert!(e.redo());
    assert!(e.is_dirty());
}

#[test]
fn only_carriage_returns_before_newlines_go() {
    assert_eq!(to_unix_lines("a\rb\r\n\r\r\né\r"), "a\rb\n\r\né\r");
    assert_eq!(to_unix_lines(""), "");
    assert_eq!(to_unix_lines("no returns\n"), "no returns\n");
}

#[test]
fn md_is_added_to_names_without_an_extension_only() {
    assert_eq!(with_default_extension(Os::Linux, "fresh"), "fresh.md");
    assert_eq!(with_default_extension(Os::Linux, "a.b/fresh"), "a.b/fresh.md");
    assert_eq!(with_default_extension(Os::Linux, "notes.txt"), "notes.txt");
    assert_eq!(with_default_extension(Os::Linux, "notes."), "notes.");
    assert_eq!(with_default_extension(Os::Linux, ".hidden"), ".hidden.md");
    assert_eq!(with_default_extension(Os::Linux, ".hidden.md"), ".hidden.md");
    assert_eq!(with_default_extension(Os::Linux, "dir/"), "dir.md");
    assert_eq!(with_default_extension(Os::Linux, "dir/./"), "dir.md");
    assert_eq!(with_default_extension(Os::Linux, ".."), "..");
    assert_eq!(with_default_extension(Os::Linux, "."), ".");
    assert_eq!(with_default_extension(Os::Linux, ""), "");
    assert_eq!(with_default_extension(Os::Linux, "/"), "/");
    assert_eq!(with_default_extension(Os::Linux, "été"), "été.md");
}

#[test]
fn what_separates_depends_on_the_system() {
    // A backslash is a letter like any other but on Windows.
    for os in [Os::Linux, Os::MacOs] {
        assert_eq!(file_name(os, "a.b\\c"), Some("a.b\\c"));
        assert_eq!(with_default_extension(os, "a.b\\c"), "a.b\\c");
        assert_eq!(file_name(os, "a\\"), Some("a\\"));
        assert_eq!(with_default_extension(os, "a\\"), "a\\.md");
        assert_eq!(with_default_extension(os, "d.e/a\\b"), "d.e/a\\b.md");
        assert_eq!(file_name(os, "C:"), Some("C:"));
        assert_eq!(with_default_extension(os, "C:x"), "C:x.md");
    }
    assert_eq!(file_name(Os::Windows, "a.b\\c"), Some("c"));
    assert_eq!(with_default_extension(Os::Windows, "a.b\\c"), "a.b\\c.md");
    assert_eq!(with_default_extension(Os::Windows, "a.b/c"), "a.b/c.md");
    assert_eq!(with_default_extension(Os::Windows, "a\\.\\"), "a.md");
}

#[test]
fn a_drive_or_a_share_is_no_part_of_a_name() {
    let os = Os::Windows;
    assert_eq!(file_name(os, "C:"), None);
    assert_eq!(file_name(os, "C:\\"), None);
    assert_eq!(file_name(os, "C:notes"), Some("notes"));
    assert_eq!(file_name(os, "C:\\dir\\notes.md"), Some("notes.md"));
    assert_eq!(with_default_extension(os, "C:"), "C:");
    assert_eq!(with_default_extension(os, "c:notes"), "c:notes.md");
    assert_eq!(with_default_extension(os, "z:\\a.b\\notes"), "z:\\a.b\\notes.md");
    // One letter and no more.
    assert_eq!(file_name(os, "CD:"), Some("CD:"));
    assert_eq!(file_name(os, "1:"), Some("1:"));
    assert_eq!(file_name(os, "\\\\server\\share"), None);
    assert_eq!(file_name(os, "//server/share/"), None);
    assert_eq!(with_default_extension(os, "\\\\server\\share"), "\\\\server\\share");
    assert_eq!(with_default_extension(os, "\\\\server\\share\\a"), "\\\\server\\share\\a.md");
    assert_eq!(with_default_extension(os, "\\\\server"), "\\\\server.md");
    assert_eq!(with_default_extension(os, "\\\\?\\C:\\a"), "\\\\?\\C:\\a.md");
    // A verbatim path: only backslashes separate, and nothing is left out.
    assert_eq!(file_name(os, "\\\\?\\UNC\\server\\share"), None);
    assert_eq!(with_default_extension(os, "\\\\?\\UNC\\server\\share"), "\\\\?\\UNC\\server\\share");
    assert_eq!(with_default_extension(os, "\\\\?\\UNC\\server\\share\\a"), "\\\\?\\UNC\\server\\share\\a.md");
    assert_eq!(file_name(os, "\\\\?\\UNC\\server"), None);
    assert_eq!(file_name(os, "\\\\?\\C:"), None);
    assert_eq!(file_name(os, "\\\\?\\C:\\a/b"), Some("a/b"));
    assert_eq!(file_name(os, "\\\\?\\C:x\\a"), Some("a"));
    assert_eq!(file_name(os, "\\\\?\\C:x"), None);
    assert_eq!(file_name(os, "\\\\?\\pictures\\cat"), Some("cat"));
    assert_eq!(file_name(os, "\\\\?\\C:\\a\\."), None);
    assert_eq!(file_name(os, "\\\\?\\C:\\a\\"), Some("a"));
    // The name of a device.
    assert_eq!(file_name(os, "\\\\.\\COM1"), None);
    assert_eq!(file_name(os, "//./COM1/a"), Some("a"));
    // Applying it again changes nothing.
    for p in ["\\\\?\\C:\\a", "\\\\?\\UNC\\s\\t\\a", "\\\\?\\x\\a", "\\\\.\\x\\a", "\\\\x\\\\a", "C:notes", "\\\\server\\share\\a", "\\\\server", "a\\b\\", "C", ".."] {
        let once = with_default_extension(os, p);
        assert_eq!(with_default_extension(os, &once), once, "{p:?}");
    }
}

#[test]
fn the_default_extension_agrees_with_the_standard_library() {
    for p in ["fresh", "a.b/fresh", "notes.txt", "notes.", ".hidden", "dir/", "..", "", "x/.y.z", "...", "a.b\\c", "a\\", "C:", "C:x"] {
        let path = std::path::Path::new(p);
        let want = match path.extension() {
            Some(_) => path.to_path_buf(),
            None => path.with_extension("md"),
        };
        assert_eq!(with_default_extension(Os::Linux, p), want.to_string_lossy(), "{p:?}");
        assert_eq!(file_name(Os::Linux, p), path.file_name().and_then(|n| n.to_str()), "{p:?}");
    }
}

#[test]
fn save_falls_back_to_save_as_without_a_path() {
    let mut e = Editor::new();
    assert!(matches!(perform(Os::Linux, &e, Command::Open), Request::Open));
    assert!(matches!(perform(Os::Linux, &e, Command::Save), Request::WriteElsewhere(n) if n == "Untitled.md"));
    assert!(matches!(perform(Os::Linux, &e, Command::SaveAs), Request::WriteElsewhere(n) if n == "Untitled.md"));
    e.file = Some("dir/todo.md".into());
    assert!(matches!(perform(Os::Linux, &e, Command::Save), Request::Write(p) if p == "dir/todo.md"));
    assert!(matches!(perform(Os::Linux, &e, Command::SaveAs), Request::WriteElsewhere(n) if n == "todo.md"));
    e.file = Some("..".into());
    assert_eq!(suggested_name(Os::Linux, &e), "Untitled.md");
}

#[test]
fn failures_are_told_in_words() {
    assert_eq!(open_failed("a.md", "gone"), "could not open a.md: gone");
    assert_eq!(save_failed("full"), "could not save: full");
    assert_eq!(save_as_failed("b.md", "full"), "could not save b.md: full");
    assert_eq!(MARKDOWN_EXTENSIONS, ["md", "markdown", "mdown", "mkd", "txt"]);
}

#[test]
fn the_suggested_name_depends_on_the_system() {
    let mut e = Editor::new();
    e.file = Some("C:\\dir\\todo.md".into());
    assert_eq!(suggested_name(Os::Windows, &e), "todo.md");
    assert_eq!(suggested_name(Os::Linux, &e), "C:\\dir\\todo.md");
    e.file = Some("C:".into());
    assert_eq!(suggested_name(Os::Windows, &e), "Untitled.md");
}

#[test]
fn only_a_failure_is_told() {
    assert_eq!(outcome(Command::Open, "a.md", None), None);
    assert_eq!(outcome(Command::Save, "a.md", None), None);
    assert_eq!(outcome(Command::SaveAs, "a.md", None), None);
    let why = || Some("gone".to_string());
    assert_eq!(outcome(Command::Open, "a.md", why()).unwrap(), "could not open a.md: gone");
    assert_eq!(outcome(Command::Save, "a.md", why()).unwrap(), "could not save: gone");
    assert_eq!(outcome(Command::SaveAs, "a.md", why()).unwrap(), "could not save a.md: gone");
}

#[test]
fn a_cancelled_dialog_changes_nothing() {
    let mut e = Editor::with_text("text");
    e.file = Some("a.md".into());
    e.dirty = true;
    e.set_caret(2);
    assert_eq!(conclude(Os::Linux, &mut e, Answer::Cancelled), None);
    assert_eq!(e.text(), "text");
    assert_eq!(e.caret(), 2);
    assert_eq!(e.file.as_deref(), Some("a.md"));
    assert!(e.is_dirty());
}

#[test]
fn a_file_that_was_read_replaces_the_document() {
    let mut e = Editor::with_text("before");
    let path = "dir/a.md".to_string();
    let failed = Answer::Opened { path: path.clone(), contents: Err("gone".into()) };
    let told = conclude(Os::Linux, &mut e, failed);
    assert_eq!(told.unwrap(), "could not open dir/a.md: gone");
    assert_eq!(e.text(), "before");
    assert_eq!(e.file, None);
    let read = Answer::Opened { path, contents: Ok("a\r\nb".into()) };
    assert_eq!(conclude(Os::Linux, &mut e, read), None);
    assert_eq!(e.text(), "a\nb");
    assert_eq!(e.file.as_deref(), Some("dir/a.md"));
    assert!(!e.is_dirty());
}

#[test]
fn a_document_that_was_saved_is_no_longer_dirty() {
    let mut e = Editor::with_text("text");
    e.file = Some("a.md".into());
    e.dirty = true;
    let failed = Answer::Saved { path: "a.md".into(), failure: Some("full".into()) };
    assert_eq!(conclude(Os::Linux, &mut e, failed).unwrap(), "could not save: full");
    assert!(e.is_dirty());
    let saved = Answer::Saved { path: "a.md".into(), failure: None };
    assert_eq!(conclude(Os::Linux, &mut e, saved), None);
    assert!(!e.is_dirty());
    assert_eq!(e.file.as_deref(), Some("a.md"));
}

#[test]
fn a_document_saved_elsewhere_adopts_the_file_with_an_extension() {
    let mut e = Editor::with_text("text");
    e.dirty = true;
    let failed = Answer::SavedAs { path: "dir/fresh".into(), failure: Some("full".into()) };
    assert_eq!(conclude(Os::Linux, &mut e, failed).unwrap(), "could not save dir/fresh: full");
    assert_eq!(e.file, None);
    assert!(e.is_dirty());
    let saved = Answer::SavedAs { path: "dir/fresh".into(), failure: None };
    assert_eq!(conclude(Os::Linux, &mut e, saved), None);
    assert_eq!(e.file.as_deref(), Some("dir/fresh.md"));
    assert!(!e.is_dirty());
    assert!(matches!(perform(Os::Linux, &e, Command::Save), Request::Write(p) if p == "dir/fresh.md"));
    let saved = Answer::SavedAs { path: "C:\\a.b\\fresh".into(), failure: None };
    assert_eq!(conclude(Os::Windows, &mut e, saved), None);
    assert_eq!(e.file.as_deref(), Some("C:\\a.b\\fresh.md"));
}
