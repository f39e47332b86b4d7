use notepad::text::{
    clamp_boundary, column_of, indent_of, indent_width, is_white_space, line_at, line_count,
    line_end, line_index, line_range, line_start, next_boundary, next_word, offset_of_column,
    prev_boundary, prev_word,
};

#[test]
fn line_helpers() {
    let t = "alpha\nbeta\ngamma";
    assert_eq!(line_start(t, 7), 6);
    assert_eq!(line_end(t, 7), 10);
    assert_eq!(line_at(t, 7), "beta");
    assert_eq!(line_index(t, 7), 1);
    assert_eq!(line_range(t, 2), Some((11, 16)));
    assert_eq!(line_count(t), 3);
}

#[test]
fn trailing_newline_makes_an_empty_last_line() {
    let t = "one\n";
    assert_eq!(line_count(t), 2);
    assert_eq!(line_range(t, 1), Some((4, 4)));
}

#[test]
fn boundaries_are_utf8_safe() {
    let t = "aé漢";
    assert_eq!(next_boundary(t, 0), 1);
    assert_eq!(next_boundary(t, 1), 3);
    assert_eq!(next_boundary(t, 3), 6);
    assert_eq!(prev_boundary(t, 6), 3);
    assert_eq!(prev_boundary(t, 3), 1);
    assert_eq!(clamp_boundary(t, 2), 1);
}

#[test]
fn word_motion() {
    let t = "hello brave world";
    assert_eq!(prev_word(t, 17), 12);
    assert_eq!(next_word(t, 0), 5);
}

#[test]
fn indent_and_columns() {
    assert_eq!(indent_of("    - x"), "    ");
    // `é` occupies bytes 5..7, so end-of-line is byte 7, column 3.
    let t = "ab\ncdé";
    assert_eq!(column_of(t, 7), 3);
    assert_eq!(offset_of_column(t, 1, 2), Some(5));
    // Past the end of the line clamps to the line end, never past it.
    assert_eq!(offset_of_column(t, 1, 99), Some(7));
}

#[test]
fn lines_of_an_empty_text() {
    assert_eq!(line_count(""), 1);
    assert_eq!(line_range("", 0), Some((0, 0)));
    assert_eq!(line_range("", 1), None);
    assert_eq!(line_start("", 0), 0);
    assert_eq!(line_end("", 0), 0);
    assert_eq!(line_at("", 0), "");
    assert_eq!(offset_of_column("", 3, 1), None);
}

#[test]
fn every_line_has_a_range_and_no_other_has() {
    let t = "a\n\nbcd\n";
    assert_eq!(line_range(t, 0), Some((0, 1)));
    assert_eq!(line_range(t, 1), Some((2, 2)));
    assert_eq!(line_range(t, 2), Some((3, 6)));
    assert_eq!(line_range(t, 3), Some((7, 7)));
    assert_eq!(line_range(t, 4), None);
}

#[test]
fn boundaries_at_the_edges() {
    let t = "aé漢";
    assert_eq!(prev_boundary(t, 0), 0);
    assert_eq!(next_boundary(t, 6), 6);
    assert_eq!(next_boundary(t, 99), 6);
    assert_eq!(clamp_boundary(t, 99), 6);
    assert_eq!(clamp_boundary(t, 5), 3);
    assert_eq!(clamp_boundary(t, 4), 3);
    assert_eq!(clamp_boundary(t, 0), 0);
}

#[test]
fn word_motion_skips_white_space_of_every_kind() {
    let t = "één\u{3000}\ttwo  ";
    assert_eq!(next_word(t, 0), 5);
    assert_eq!(next_word(t, 5), 12);
    assert_eq!(next_word(t, 12), 14);
    assert_eq!(prev_word(t, 14), 9);
    assert_eq!(prev_word(t, 9), 0);
    assert_eq!(prev_word(t, 0), 0);
}

#[test]
fn indents_are_spaces_and_tabs() {
    assert_eq!(indent_of(" \t x"), " \t ");
    assert_eq!(indent_width("\u{a0}x"), 0);
    assert_eq!(indent_of(""), "");
}

#[test]
fn white_space_is_what_unicode_says() {
    for u in 0..=0x10ffffu32 {
        if let Some(c) = char::from_u32(u) {
            assert_eq!(is_white_space(c), c.is_whitespace(), "{u:#x}");
        }
    }
}

#[test]
fn a_column_leads_back_to_its_offset() {
    let text = "aé漢\n\n😀x\nlast";
    for (pos, _) in text.char_indices().chain([(text.len(), ' ')]) {
        let (line, column) = (line_index(text, pos), column_of(text, pos));
        assert_eq!(offset_of_column(text, line, column), Some(pos));
    }
}
