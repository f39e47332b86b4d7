use notepad::host::{
    arrangement_request, class_to_create, cstr_to_string, encode_key, encode_mods, expect_ok, first_audio_class,
    keys_for, plugin_shape, rect_size, utf16_to_string, HostError, KEY_BACK, KEY_DELETE, KEY_DOWN,
    KEY_END, KEY_ESCAPE, KEY_HOME, KEY_LEFT, KEY_PAGEDOWN, KEY_PAGEUP, KEY_RETURN, KEY_RIGHT,
    KEY_TAB, KEY_UP, MOD_ALT, MOD_COMMAND, MOD_CONTROL, MOD_SHIFT,
};
use notepad::host_args::{
    class_line, class_note, named_parameters, parse_args, parse_number, state_preview,
};
use notepad::keys::{Key, Mods};
use notepad::plugin::{farewells, plan_audio, Answer, Buses, Controller, Farewell, Step};

fn strings(a: &[&str]) -> Vec<String> {
    a.iter().map(|s| s.to_string()).collect()
}

#[test]
fn keys_are_sent_as_char_and_code() {
    assert_eq!(encode_key(Key::Char('a')), (97, -1));
    assert_eq!(encode_key(Key::Char('漢')), (0x6f22, -1));
    assert_eq!(encode_key(Key::Char('😀')), (0xd83d, -1));
    let named = [
        (Key::Enter, KEY_RETURN),
        (Key::Backspace, KEY_BACK),
        (Key::Delete, KEY_DELETE),
        (Key::Tab, KEY_TAB),
        (Key::Left, KEY_LEFT),
        (Key::Right, KEY_RIGHT),
        (Key::Up, KEY_UP),
        (Key::Down, KEY_DOWN),
        (Key::Home, KEY_HOME),
        (Key::End, KEY_END),
        (Key::PageUp, KEY_PAGEUP),
        (Key::PageDown, KEY_PAGEDOWN),
        (Key::Escape, KEY_ESCAPE),
    ];
    for (i, (key, code)) in named.iter().enumerate() {
        assert_eq!(encode_key(*key), (0, *code));
        for (_, other) in &named[i + 1..] {
            assert_ne!(code, other);
        }
    }
    for c in ['a', '\u{ffff}', '\u{10000}', '\u{10ffff}', 'é'] {
        let mut buf = [0u16; 2];
        assert_eq!(encode_key(Key::Char(c)).0, c.encode_utf16(&mut buf)[0]);
    }
}

#[test]
fn modifiers_are_a_mask() {
    assert_eq!(encode_mods(Mods::none()), 0);
    assert_eq!(encode_mods(Mods::ctrl()), MOD_COMMAND);
    assert_eq!(encode_mods(Mods::shift()), MOD_SHIFT);
    assert_eq!(encode_mods(Mods { ctrl: true, shift: true, alt: true }), MOD_COMMAND | MOD_SHIFT | MOD_ALT);
    assert_eq!(MOD_CONTROL, 8);
}

#[test]
fn newlines_are_typed_as_return() {
    assert_eq!(keys_for("a\nb"), vec![Key::Char('a'), Key::Enter, Key::Char('b')]);
    assert!(keys_for("").is_empty());
}

#[test]
fn errors_are_told_in_words() {
    let cases = [
        (HostError::Load("x".into()), "could not load plugin binary: x"),
        (HostError::MissingEntryPoint("x".into()), "missing VST3 entry point: x"),
        (HostError::NoBinary("x".into()), "no plugin binary found inside x"),
        (HostError::NoFactory, "GetPluginFactory returned null"),
        (HostError::NoClass, "the factory exposes no classes"),
        (HostError::NoSuchClass(-3), "no class at index -3"),
        (HostError::CreateFailed(i32::MIN), "createInstance failed (tresult -2147483648)"),
        (HostError::MissingInterface("IComponent"), "plugin does not implement IComponent"),
        (HostError::NoView, "createView returned null"),
        (HostError::Call("getState", 10), "getState failed (tresult 10)"),
    ];
    for (e, want) in cases {
        assert_eq!(e.message(), want);
    }
    assert!(expect_ok("x", 0).is_ok());
    assert_eq!(expect_ok("x", 1).unwrap_err().message(), "x failed (tresult 1)");
}

#[test]
fn the_first_audio_module_is_loaded() {
    let some = |s: &str| Some(s.to_string());
    assert_eq!(
        first_audio_class(&vec![None, some("Component Controller Class"), some("Audio Module Class")]),
        Some(2)
    );
    assert_eq!(first_audio_class(&vec![some("x")]), None);
    assert_eq!(class_to_create(Some(4), Some(2)), 4);
    assert_eq!(class_to_create(None, Some(2)), 2);
    assert_eq!(class_to_create(None, None), 0);
}

#[test]
fn texts_end_at_their_first_zero() {
    assert_eq!(utf16_to_string(&[72, 105, 0, 33]), "Hi");
    assert_eq!(utf16_to_string(&[0x6f22, 0xd83d, 0xde00]), "漢😀");
    assert_eq!(utf16_to_string(&[0xd800, 65]), "\u{fffd}A");
    assert_eq!(utf16_to_string(&[0xdc00, 0xd800, 0xdc00, 0xdbff]), "\u{fffd}\u{10000}\u{fffd}");
    assert_eq!(utf16_to_string(&[0xd800, 0xd800, 0xdc01]), "\u{fffd}\u{10001}");
    assert_eq!(utf16_to_string(&[0xdbff, 0xdfff, 0xe000, 0xffff]), "\u{10ffff}\u{e000}\u{ffff}");
    assert_eq!(utf16_to_string(&[]), "");
    assert_eq!(cstr_to_string(b"Hi\0!"), "Hi");
    assert_eq!(cstr_to_string("é漢".as_bytes()), "é漢");
    assert_eq!(cstr_to_string(b"a\xffb\0"), "a\u{fffd}b");
    assert_eq!(cstr_to_string(b""), "");
}

#[test]
fn small_answers() {
    assert_eq!(rect_size(10, 20, 110, 70), (100, 50));
    assert_eq!(arrangement_request(Some(3), None), ((3, 1), (0, 0)));
    assert_eq!(plugin_shape(false, true), "processor only (no controller)");
    assert_eq!(plugin_shape(true, true), "processor + separate controller");
    assert_eq!(plugin_shape(true, false), "single-component effect");
}

const OK: Answer = Answer { result: 0, object: true };
const BARE: Answer = Answer { result: 0, object: false };
const BAD: Answer = Answer { result: 5, object: false };

fn walk(answers: &[Answer]) -> Step {
    let mut s = Step::ClassInfo(3);
    for a in answers {
        s = s.next(*a);
    }
    s
}

#[test]
fn creation_finds_the_shape_of_a_plugin() {
    assert!(matches!(walk(&[OK, OK, OK, OK]), Step::Done(Controller::Same)));
    assert!(matches!(walk(&[OK, OK, OK, BARE, BAD]), Step::Done(Controller::Missing)));
    assert!(matches!(walk(&[OK, OK, OK, BARE, OK, BARE]), Step::Done(Controller::Missing)));
    assert!(matches!(walk(&[OK, OK, OK, BARE, OK, OK, BAD]), Step::GetState));
    assert!(matches!(walk(&[OK, OK, OK, BARE, OK, OK, BAD, BAD]), Step::Connect));
    assert!(matches!(
        walk(&[OK, OK, OK, BARE, OK, OK, OK, OK, BAD, OK]),
        Step::Done(Controller::Separate)
    ));
}

#[test]
fn creation_fails_where_a_plugin_does() {
    assert!(matches!(walk(&[BAD]), Step::Failed(HostError::NoSuchClass(3))));
    assert!(matches!(walk(&[OK, BAD]), Step::Failed(HostError::CreateFailed(5))));
    assert!(matches!(walk(&[OK, BARE]), Step::Failed(HostError::CreateFailed(0))));
    assert!(matches!(walk(&[OK, OK, BAD, OK]), Step::Failed(HostError::Call("initialize", 5))));
}

#[test]
fn audio_runs_only_with_something_to_run() {
    assert_eq!(plan_audio(true, 0, 64), None);
    assert_eq!(plan_audio(true, 2, 0), None);
    assert_eq!(plan_audio(true, 2, 64), Some(Buses { inputs: 1, outputs: 1 }));
    assert_eq!(plan_audio(false, 1, 97), Some(Buses { inputs: 0, outputs: 1 }));
}

#[test]
fn a_separate_controller_goes_first() {
    assert_eq!(
        farewells(Controller::Separate),
        vec![Farewell::Disconnect, Farewell::TerminateController, Farewell::TerminateComponent]
    );
    assert_eq!(farewells(Controller::Same), vec![Farewell::TerminateComponent]);
    assert_eq!(farewells(Controller::Missing), vec![Farewell::TerminateComponent]);
}

#[test]
fn the_command_line_is_read() {
    assert!(parse_args(&vec![]).is_none());
    let a = parse_args(&strings(&["p.vst3"])).unwrap();
    assert_eq!(a.path, "p.vst3");
    assert_eq!((a.class, a.list, a.editor), (None, false, true));
    assert!(a.type_text.is_none() && a.state.is_none());
    let a = parse_args(&strings(&[
        "p", "--list", "--class", "2", "--no-editor", "junk", "--type", "--list", "--state", "out",
    ]))
    .unwrap();
    assert_eq!((a.class, a.list, a.editor), (Some(2), true, false));
    assert_eq!(a.type_text.as_deref(), Some("--list"));
    assert_eq!(a.state.as_deref(), Some("out"));
    let a = parse_args(&strings(&["p", "--class", "1", "--class"])).unwrap();
    assert_eq!(a.class, None);
}

#[test]
fn numbers_are_read_as_the_standard_library_does() {
    for s in [
        "", "0", "7", "-7", "+7", "-", "+", "--1", "007", "2147483647", "2147483648", "-2147483648",
        "-2147483649", "99999999999999999999", "1x", " 1", "-0",
    ] {
        assert_eq!(parse_number(s), s.parse::<i32>().ok(), "{s:?}");
    }
}

#[test]
fn classes_are_listed() {
    assert_eq!(class_line(0, "Notepad", "Audio Module Class", true), "  *[0] Notepad  (Audio Module Class)");
    assert_eq!(class_line(12, "X", "Y", false), "   [12] X  (Y)");
}

#[test]
fn a_state_that_is_text_is_shown() {
    assert_eq!(state_preview(b"{\"notes\":\"hi\"}").as_deref(), Some("{\"notes\":\"hi\"}"));
    assert_eq!(state_preview("é\n漢".as_bytes()).as_deref(), Some("é\n漢"));
    assert_eq!(state_preview(b""), None);
    assert_eq!(state_preview(b"a\tb"), None);
    assert_eq!(state_preview(b"a\xff"), None);
    let long = "é".repeat(500);
    assert_eq!(state_preview(long.as_bytes()).unwrap(), "é".repeat(200));
}

#[test]
fn only_other_classes_get_a_note() {
    assert_eq!(class_note("Audio Module Class"), None);
    assert_eq!(
        class_note("Component Controller Class").unwrap(),
        "  note         this is a Component Controller Class, not an Audio Module Class.\n\
         \x20              Only the processor can be created directly; its\n\
         \x20              controller is created automatically alongside it."
    );
    assert!(class_note("").is_some());
}

#[test]
fn a_few_parameters_are_named_and_the_rest_counted() {
    assert_eq!(named_parameters(0), (0, 0));
    assert_eq!(named_parameters(3), (3, 0));
    assert_eq!(named_parameters(5), (5, 0));
    assert_eq!(named_parameters(6), (5, 1));
    assert_eq!(named_parameters(i32::MAX), (5, i32::MAX - 5));
    assert_eq!(named_parameters(-1), (0, 0));
}
