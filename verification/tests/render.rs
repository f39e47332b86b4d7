use notepad::block::BlockKind;
use notepad::edit::Editor;
use notepad::inline::{SpanRole, Style};
use notepad::keys::ViewMode;
use notepad::render::{parse_document, Block, RenderDoc};

fn shown(doc: &RenderDoc, src: &str) -> Vec<String> {
    doc.blocks.iter().map(|b| b.visible_text(src)).collect()
}

fn tiles(b: &Block) -> bool {
    let mut at = b.marker.end;
    for s in &b.spans {
        if s.range.start != at || s.range.end < at {
            return false;
        }
        at = s.range.end;
    }
    b.marker.start == b.range.start && at == b.range.end
}

const SAMPLE: &str = "# Title\n\n- [x] *done* `code`\n1. **bold** ~~gone~~\n> quote [label](url)\n```rs\n*raw*\n```\n![alt](img) snake_case_name\n漢 * 字 **";

#[test]
fn kinds_follow_the_markers() {
    let doc = parse_document(SAMPLE, None);
    let kinds: Vec<BlockKind> = doc.blocks.iter().map(|b| b.kind).collect();
    assert_eq!(
        kinds,
        vec![
            BlockKind::Heading(1),
            BlockKind::Blank,
            BlockKind::Bullet { indent: 0, checked: Some(true) },
            BlockKind::Numbered { indent: 0, number: 1, checked: None },
            BlockKind::Paragraph,
            BlockKind::Fence { open: true },
            BlockKind::Code,
            BlockKind::Fence { open: false },
            BlockKind::Paragraph,
            BlockKind::Paragraph,
        ]
    );
    assert_eq!(doc.blocks[4].quote_depth, 1);
    assert_eq!(doc.blocks[2].marker, 9..15);
    for (i, b) in doc.blocks.iter().enumerate() {
        assert_eq!(b.line, i);
        assert!(tiles(b), "line {i}");
    }
}

#[test]
fn markers_are_stripped_for_the_reader() {
    let e = Editor::with_text(SAMPLE);
    assert_eq!(
        e.rendered_text(),
        "Title\n\ndone code\nbold gone\nquote label\n\n*raw*\n\nalt snake_case_name\n漢 * 字 **"
    );
}

#[test]
fn the_caret_line_reveals_its_markers() {
    let doc = parse_document(SAMPLE, Some(12));
    let lines: Vec<&str> = SAMPLE.split('\n').collect();
    let text = shown(&doc, SAMPLE);
    assert_eq!(text[2], lines[2]);
    assert_eq!(text[0], "Title");
    assert_eq!(text[3], "bold gone");
    assert!(doc.blocks[2].marker_visible);
    assert!(!doc.blocks[0].marker_visible);
}

#[test]
fn raw_mode_shows_the_source() {
    let mut e = Editor::with_text(SAMPLE);
    e.set_caret(0);
    e.mode = ViewMode::Raw;
    let doc = e.render();
    assert_eq!(shown(&doc, SAMPLE).join("\n"), SAMPLE);
    assert!(doc.blocks.iter().all(|b| b.marker_visible && b.spans.iter().all(|s| s.visible)));
    e.toggle_mode();
    let doc = e.render();
    assert_eq!(shown(&doc, SAMPLE)[0], "# Title");
    assert_eq!(shown(&doc, SAMPLE)[3], "bold gone");
}

#[test]
fn styles_nest() {
    let src = "a **b *c* d** e";
    let doc = parse_document(src, None);
    let spans: Vec<(&str, Style, bool)> =
        doc.blocks[0].spans.iter().map(|s| (s.text(src), s.style, s.is_marker())).collect();
    let plain = Style::plain();
    let bold = Style { bold: true, ..plain };
    let both = Style { bold: true, italic: true, ..plain };
    assert_eq!(
        spans,
        vec![
            ("a ", plain, false),
            ("**", plain, true),
            ("b ", bold, false),
            ("*", bold, true),
            ("c", both, false),
            ("*", bold, true),
            (" d", bold, false),
            ("**", plain, true),
            (" e", plain, false),
        ]
    );
}

#[test]
fn links_know_their_targets() {
    let src = "[a](b) ![c](d)";
    let doc = parse_document(src, None);
    let roles: Vec<SpanRole> = doc.blocks[0].spans.iter().map(|s| s.role).collect();
    assert_eq!(
        roles,
        vec![
            SpanRole::Marker,
            SpanRole::Link { url_start: 4, url_end: 5 },
            SpanRole::Marker,
            SpanRole::Text,
            SpanRole::Marker,
            SpanRole::Image { url_start: 12, url_end: 13 },
            SpanRole::Marker,
        ]
    );
}

#[test]
fn what_does_not_close_stays_text() {
    for src in ["**open", "`open", "[open](", "[open] (x)", "~one~", "* spaced *", "a*", "``", "!", "_", "a_b_c"] {
        let doc = parse_document(src, None);
        let text: String = doc.blocks[0].visible_text(src);
        let marker = &src[doc.blocks[0].marker.clone()];
        assert_eq!(format!("{marker}{text}"), src, "{src:?}");
    }
}

#[test]
fn an_empty_document_is_one_blank_block() {
    let doc = parse_document("", None);
    assert_eq!(doc.blocks.len(), 1);
    assert_eq!(doc.blocks[0].kind, BlockKind::Blank);
    assert_eq!(doc.blocks[0].range, 0..0);
    assert!(doc.blocks[0].spans.is_empty());
}

#[test]
fn random_documents_tile() {
    let parts = ["*", "**", "_", "~~", "`", "[", "](", ")", "!", " ", "a", "漢", "\n", "- ", "> ", "# ", "```\n"];
    let mut seed: u64 = 88172645463325252;
    for _ in 0..2000 {
        let mut src = String::new();
        for _ in 0..12 {
            seed ^= seed << 13;
            seed ^= seed >> 7;
            seed ^= seed << 17;
            src.push_str(parts[(seed % parts.len() as u64) as usize]);
        }
        let mut e = Editor::with_text(&src);
        for b in &e.render().blocks {
            assert!(tiles(b), "{src:?}");
        }
        e.mode = ViewMode::Raw;
        assert_eq!(shown(&e.render(), &src).join("\n"), src);
    }
}
