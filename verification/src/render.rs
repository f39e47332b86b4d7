//! Laying a document out for drawing: one block per line, its marker and its spans tagged
//! visible or hidden.
//!
//! `## Title` is drawn as a large heading with the `## ` hidden, until the caret moves onto
//! that line and the marker is revealed for editing. In raw mode everything is shown.

use std::ops::Range;

use vstd::prelude::*;
use vstd::string::*;
use vstd::utf8::{encode_utf8, valid_utf8};

use crate::ascii::NEWLINE;
use crate::block::{
    fence_line, heading_marker, heading_of, is_fence, lemma_heading, lemma_list_marker,
    lemma_quote_len, list_marker, list_marker_of, quote_depth, quote_len, quote_prefix, tail,
    BlockKind,
};
use crate::bytes::{is_boundary, lemma_str_valid, slice};
use crate::edit::Editor;
use crate::inline::{
    hides_markers, law_revealing_only_shows, law_spans_are_sound, law_spans_tile, on_boundaries,
    parse_spans, pieces, revealed, shown, spans, tiles, Piece, Span, SpanRole, Style,
};
use crate::keys::ViewMode;
use crate::lines::{
    join_lines, joined, law_line_at_its_index, law_lines_join_back, lemma_lines_len, lines_of,
    string_views,
};
use crate::session::Session;
use crate::text;
use crate::text::{
    lemma_after_newline, lemma_line_end, line_count_of, line_end_of, line_index_of, line_range_from,
    line_range_of, line_start_of, newlines,
};
use crate::typing::{all_white, append, inside_fence, is_all_white};

verus! {

/// One line of the document, laid out.
#[derive(PartialEq, Eq, Debug)]
pub struct Block {
    pub kind: BlockKind,
    /// How many quote marks the line starts with.
    pub quote_depth: usize,
    /// Index of the line.
    pub line: usize,
    /// Where the line stands in the source, without its newline.
    pub range: Range<usize>,
    /// The quote marks, and the list or heading marker behind them.
    pub marker: Range<usize>,
    pub marker_visible: bool,
    /// What follows the marker.
    pub spans: Vec<Span>,
}

/// A document laid out.
#[derive(PartialEq, Eq, Debug)]
pub struct RenderDoc {
    pub blocks: Vec<Block>,
}

/// A block as mathematics.
#[verifier::ext_equal]
pub struct Row {
    pub kind: BlockKind,
    pub quote_depth: nat,
    pub line: nat,
    pub start: int,
    pub end: int,
    pub marker_start: int,
    pub marker_end: int,
    pub marker_visible: bool,
    pub spans: Seq<Piece>,
}

impl View for Block {
    type V = Row;

    open spec fn view(&self) -> Row {
        Row {
            kind: self.kind,
            quote_depth: self.quote_depth as nat,
            line: self.line as nat,
            start: self.range.start as int,
            end: self.range.end as int,
            marker_start: self.marker.start as int,
            marker_end: self.marker.end as int,
            marker_visible: self.marker_visible,
            spans: pieces(self.spans@),
        }
    }
}

impl View for RenderDoc {
    type V = Seq<Row>;

    open spec fn view(&self) -> Seq<Row> {
        Seq::new(self.blocks@.len(), |i: int| self.blocks@[i]@)
    }
}

/// What a line is, and how long its marker is, given whether it stands inside a code block.
pub open spec fn line_kind(line: Seq<u8>, inside: bool) -> (BlockKind, int) {
    let q = quote_len(line);
    let body = tail(line, q);
    if fence_line(line) {
        (BlockKind::Fence { open: !inside }, line.len() as int)
    } else if inside {
        (BlockKind::Code, 0)
    } else {
        match list_marker_of(body) {
            Some((len, kind)) => (kind, q + len),
            None => match heading_of(body) {
                Some((len, level)) => (BlockKind::Heading(level), q + len),
                None => if all_white(body) {
                    (BlockKind::Blank, q)
                } else {
                    (BlockKind::Paragraph, q)
                },
            },
        }
    }
}

/// The line from `start` up to `end` laid out, the markers on it revealed or not.
pub open spec fn row_at(
    b: Seq<u8>,
    index: nat,
    start: int,
    end: int,
    inside: bool,
    reveal: bool,
) -> Row {
    let line = b.subrange(start, end);
    let (kind, len) = line_kind(line, inside);
    Row {
        kind,
        quote_depth: if kind is Fence || kind is Code {
            0
        } else {
            quote_depth(line)
        },
        line: index,
        start,
        end,
        marker_start: start,
        marker_end: start + len,
        marker_visible: reveal,
        spans: if kind is Code {
            seq![shown(start, end, Style::plain_spec(), SpanRole::Text)]
        } else {
            spans(b, start + len, end, Style::plain_spec(), reveal)
        },
    }
}

/// Line `index` laid out. Its markers are revealed if the caret is on it, or all are.
pub open spec fn row_of(b: Seq<u8>, index: nat, caret: Option<int>, all: bool) -> Row {
    let (start, end) = line_range_of(b, index)->0;
    let on_line = caret is Some && start <= caret->0 <= end;
    row_at(b, index, start, end, inside_fence(lines_of(b), index as int), all || on_line)
}

/// The document laid out, line by line.
pub open spec fn rows_of(b: Seq<u8>, caret: Option<int>, all: bool) -> Seq<Row> {
    Seq::new(line_count_of(b), |k: int| row_of(b, k as nat, caret, all))
}

/// The same block with everything on it shown.
pub open spec fn row_revealed(r: Row) -> Row {
    Row { marker_visible: true, spans: revealed(r.spans), ..r }
}

impl Session {
    /// The document as it is drawn: in raw mode everything is shown, since the user is looking
    /// at the source.
    pub open spec fn rendered(self) -> Seq<Row> {
        let rows = rows_of(self.text, Some(self.caret), false);
        match self.mode {
            ViewMode::Wysiwyg => rows,
            ViewMode::Raw => Seq::new(rows.len(), |k: int| row_revealed(rows[k])),
        }
    }
}

/// The text of the pieces that are shown.
pub open spec fn shown_text(b: Seq<u8>, p: Seq<Piece>) -> Seq<u8>
    decreases p.len(),
{
    if p.len() == 0 {
        Seq::empty()
    } else {
        shown_text(b, p.drop_last()) + if p.last().visible {
            b.subrange(p.last().start, p.last().end)
        } else {
            Seq::empty()
        }
    }
}

/// The text of a block as the reader sees it.
pub open spec fn row_text(b: Seq<u8>, r: Row) -> Seq<u8> {
    (if r.marker_visible {
        b.subrange(r.marker_start, r.marker_end)
    } else {
        Seq::empty()
    }) + shown_text(b, r.spans)
}

/// The text of each block as the reader sees it.
pub open spec fn row_texts(b: Seq<u8>, rows: Seq<Row>) -> Seq<Seq<u8>> {
    Seq::new(rows.len(), |k: int| row_text(b, rows[k]))
}

// ---- lines and their ranges -----------------------------------------------------

/// Between the start of a line and its end there is no newline to count, and the next line is
/// one further.
proof fn lemma_next_line(b: Seq<u8>, start: int)
    requires
        0 <= start <= b.len(),
    ensures
        ({
            let end = line_end_of(b, start);
            &&& line_index_of(b, end) == line_index_of(b, start)
            &&& end < b.len() ==> line_index_of(b, end + 1) == line_index_of(b, start) + 1
            &&& end < b.len() ==> line_start_of(b, end + 1) == end + 1
            &&& end == b.len() ==> newlines(b) == line_index_of(b, start)
        }),
{
    let end = line_end_of(b, start);
    lemma_line_end(b, start);
    lemma_no_newline(b, start, end);
    if end < b.len() {
        assert(b.subrange(0, end + 1).drop_last() =~= b.subrange(0, end));
    } else {
        assert(b.subrange(0, end) =~= b);
    }
}

proof fn lemma_no_newline(b: Seq<u8>, i: int, j: int)
    requires
        0 <= i <= j <= b.len(),
        forall|k: int| i <= k < j ==> b[k] != NEWLINE,
    ensures
        line_index_of(b, j) == line_index_of(b, i),
    decreases j,
{
    if i < j {
        lemma_no_newline(b, i, j - 1);
        assert(b.subrange(0, j).drop_last() =~= b.subrange(0, j - 1));
    }
}

/// Line `index` exists exactly if there are that many newlines before the end, and is the line
/// that its index names.
pub proof fn law_line_ranges(b: Seq<u8>, index: nat)
    ensures
        line_range_of(b, index) is Some <==> index < line_count_of(b),
        line_range_of(b, index) matches Some((start, end)) ==> {
            &&& 0 <= start <= end <= b.len()
            &&& b.subrange(start, end) == lines_of(b)[index as int]
        },
{
    lemma_lines_len(b);
    assert(b.subrange(0, 0) =~= Seq::<u8>::empty());
    lemma_range_from(b, 0, index);
}

/// Every place of a line, its end included, is on the line of that index.
pub proof fn law_line_range_has_its_index(b: Seq<u8>, index: nat, pos: int)
    requires
        line_range_of(b, index) matches Some((start, end)) && start <= pos <= end,
    ensures
        line_index_of(b, pos) == index,
        ({
            let (start, end) = line_range_of(b, index)->0;
            &&& line_start_of(b, pos) == start
            &&& line_end_of(b, pos) == end
        }),
{
    let (start, end) = line_range_of(b, index)->0;
    assert(b.subrange(0, 0) =~= Seq::<u8>::empty());
    lemma_range_from(b, 0, index);
    lemma_line_end(b, start);
    lemma_no_newline(b, start, pos);
    crate::text::law_line_range_at_its_index(b, pos);
}

proof fn lemma_range_from(b: Seq<u8>, start: int, m: nat)
    requires
        0 <= start <= b.len(),
        line_start_of(b, start) == start,
    ensures
        line_range_from(b, start, m) is Some <==> line_index_of(b, start) + m <= newlines(b),
        line_range_from(b, start, m) matches Some((s, e)) ==> {
            &&& start <= s <= e <= b.len()
            &&& line_index_of(b, s) == line_index_of(b, start) + m
            &&& b.subrange(s, e) == lines_of(b)[(line_index_of(b, start) + m) as int]
            &&& e == line_end_of(b, s)
        },
    decreases m,
{
    let end = line_end_of(b, start);
    lemma_line_end(b, start);
    lemma_next_line(b, start);
    law_line_at_its_index(b, start);
    lemma_lines_len(b);
    if m > 0 && end < b.len() {
        lemma_range_from(b, end + 1, (m - 1) as nat);
    }
}

// ---- what holds of a laid-out document ------------------------------------------

/// A marker lies within its line.
proof fn lemma_line_kind(line: Seq<u8>, inside: bool)
    ensures
        0 <= line_kind(line, inside).1 <= line.len(),
        line_kind(line, inside).1 < line.len() ==> forall|i: int|
            0 <= i < line_kind(line, inside).1 ==> #[trigger] line[i] < 0x80,
{
    let q = quote_len(line);
    lemma_quote_len(line);
    let body = tail(line, q);
    lemma_list_marker(body);
    lemma_heading(body);
    crate::text::lemma_indent_len(body);
    let n = line_kind(line, inside).1;
    if n < line.len() {
        assert forall|i: int| 0 <= i < n implies #[trigger] line[i] < 0x80 by {
            if i >= q {
                assert(line[i] == body[i - q]);
            }
        }
    }
}

/// The marker of a line and its spans tile the line exactly, and all of them can be cut out of
/// the text. Text is always shown; a marker is shown exactly where it is revealed.
pub proof fn law_row_tiles_its_line(
    b: Seq<u8>,
    index: nat,
    start: int,
    end: int,
    inside: bool,
    reveal: bool,
)
    requires
        valid_utf8(b),
        is_boundary(b, start),
        is_boundary(b, end),
        start <= end,
    ensures
        ({
            let r = row_at(b, index, start, end, inside, reveal);
            &&& r.marker_start == start
            &&& start <= r.marker_end <= end
            &&& is_boundary(b, r.marker_end)
            &&& tiles(r.spans, r.marker_end, end)
            &&& on_boundaries(b, r.spans)
            &&& hides_markers(r.spans, reveal)
            &&& r.marker_visible == reveal
        }),
{
    let line = b.subrange(start, end);
    let n = line_kind(line, inside).1;
    lemma_line_kind(line, inside);
    assert(is_boundary(b, start + n)) by {
        if 0 < n < line.len() {
            assert(line[n - 1] < 0x80);
            crate::text::lemma_after_ascii(b, start + n - 1);
        }
    }
    if line_kind(line, inside).0 is Code {
        let p = shown(start, end, Style::plain_spec(), SpanRole::Text);
        reveal_with_fuel(tiles, 2);
        assert(seq![p].drop_first() =~= Seq::<Piece>::empty());
    } else {
        law_spans_tile(b, start + n, end, Style::plain_spec(), reveal);
        law_spans_are_sound(b, start + n, end, Style::plain_spec(), reveal);
    }
}

/// Pieces that tile a stretch of text, and are all shown, show that stretch.
proof fn lemma_all_shown(b: Seq<u8>, p: Seq<Piece>, from: int, to: int)
    requires
        tiles(p, from, to),
        0 <= from,
        to <= b.len(),
        forall|k: int| 0 <= k < p.len() ==> (#[trigger] p[k]).visible,
    ensures
        from <= to,
        shown_text(b, p) == b.subrange(from, to),
    decreases p.len(),
{
    lemma_tiles_order(p, from, to);
    if p.len() == 0 {
        assert(shown_text(b, p) =~= b.subrange(from, to));
    } else {
        lemma_tiles_last(p, from, to);
        lemma_all_shown(b, p.drop_last(), from, p.last().start);
        assert(shown_text(b, p) =~= b.subrange(from, to));
    }
}

proof fn lemma_tiles_order(p: Seq<Piece>, from: int, to: int)
    requires
        tiles(p, from, to),
    ensures
        from <= to,
    decreases p.len(),
{
    if p.len() > 0 {
        lemma_tiles_order(p.drop_first(), p[0].end, to);
    }
}

proof fn lemma_tiles_last(p: Seq<Piece>, from: int, to: int)
    requires
        tiles(p, from, to),
        p.len() > 0,
    ensures
        tiles(p.drop_last(), from, p.last().start),
        p.last().start <= p.last().end == to,
        from <= p.last().start,
    decreases p.len(),
{
    reveal_with_fuel(tiles, 2);
    if p.len() > 1 {
        lemma_tiles_last(p.drop_first(), p[0].end, to);
        assert(p.drop_first().drop_last() =~= p.drop_last().drop_first());
        assert(p.drop_first().last() == p.last());
    }
}

/// In raw mode the reader sees the source: the blocks, shown and joined, are the text itself.
pub proof fn law_raw_mode_shows_the_source(s: Session)
    requires
        s.wf(),
        s.mode == ViewMode::Raw,
    ensures
        s.rendered().len() == line_count_of(s.text),
        joined(row_texts(s.text, s.rendered())) == s.text,
{
    let b = s.text;
    let rows = rows_of(b, Some(s.caret), false);
    let texts = row_texts(b, s.rendered());
    lemma_lines_len(b);
    crate::bytes::lemma_start_is_boundary(b);
    assert forall|k: int| 0 <= k < texts.len() implies texts[k] == lines_of(b)[k] by {
        law_line_ranges(b, k as nat);
        let (start, end) = line_range_of(b, k as nat)->0;
        crate::text::lemma_line_range(b, 0, k as nat);
        let inside = inside_fence(lines_of(b), k);
        let reveal = start <= s.caret <= end;
        law_row_tiles_its_line(b, k as nat, start, end, inside, reveal);
        let r = row_revealed(rows[k]);
        lemma_revealed_tiles(rows[k].spans, rows[k].marker_end, end);
        lemma_all_shown(b, r.spans, r.marker_end, end);
        assert(row_text(b, r) =~= b.subrange(start, end));
    }
    assert(texts =~= lines_of(b));
    law_lines_join_back(b);
}

proof fn lemma_revealed_tiles(p: Seq<Piece>, from: int, to: int)
    requires
        tiles(p, from, to),
    ensures
        tiles(revealed(p), from, to),
    decreases p.len(),
{
    if p.len() > 0 {
        lemma_revealed_tiles(p.drop_first(), p[0].end, to);
        assert(revealed(p).drop_first() =~= revealed(p.drop_first()));
    }
}

/// In raw mode nothing is hidden.
pub proof fn law_raw_mode_hides_nothing(s: Session, k: int, i: int)
    requires
        s.mode == ViewMode::Raw,
        0 <= k < s.rendered().len(),
        0 <= i < s.rendered()[k].spans.len(),
    ensures
        s.rendered()[k].marker_visible,
        s.rendered()[k].spans[i].visible,
{
}

/// Away from the caret's line every marker is hidden; on it everything is shown.
pub proof fn law_caret_line_reveals_its_markers(s: Session, k: int, i: int)
    requires
        s.wf(),
        s.mode == ViewMode::Wysiwyg,
        0 <= k < s.rendered().len(),
        0 <= i < s.rendered()[k].spans.len(),
    ensures
        ({
            let r = s.rendered()[k];
            let on_line = r.start <= s.caret <= r.end;
            &&& r.marker_visible == on_line
            &&& r.spans[i].visible == (on_line || r.spans[i].role != SpanRole::Marker)
        }),
{
    let b = s.text;
    crate::bytes::lemma_start_is_boundary(b);
    law_line_ranges(b, k as nat);
    let (start, end) = line_range_of(b, k as nat)->0;
    crate::text::lemma_line_range(b, 0, k as nat);
    law_row_tiles_its_line(
        b,
        k as nat,
        start,
        end,
        inside_fence(lines_of(b), k),
        start <= s.caret <= end,
    );
}

/// Looking at the source and back again changes nothing of the document.
pub proof fn law_view_toggle_keeps_the_layout(s: Session)
    ensures
        ({
            let t = Session { mode: s.mode.other(), ..s };
            let back = Session { mode: t.mode.other(), ..t };
            back == s && back.rendered() == s.rendered() && t.rendered().len() == s.rendered().len()
        }),
{
}

// ---- laying out -----------------------------------------------------------------

/// What a line is, and how long its marker is.
fn classify(line: &str, inside: bool) -> (r: (BlockKind, usize, usize))
    ensures
        (r.0, r.1 as int) == line_kind(line.spec_bytes(), inside),
        r.2 == if r.0 is Fence || r.0 is Code {
            0
        } else {
            quote_depth(line.spec_bytes())
        },
        r.1 <= line.spec_bytes().len(),
{
    let len: usize = line.as_bytes().len();
    if is_fence(line) {
        return (BlockKind::Fence { open: !inside }, len, 0);
    }
    if inside {
        return (BlockKind::Code, 0, 0);
    }
    proof {
        lemma_str_valid(line@);
        lemma_line_kind(line.spec_bytes(), inside);
    }
    let (q, depth) = quote_prefix(line);
    let body = slice(line, q, len);
    proof {
        lemma_list_marker(body.spec_bytes());
        lemma_heading(body.spec_bytes());
    }
    match list_marker(body) {
        Some((n, kind)) => {
            return (kind, q + n, depth);
        },
        None => {},
    }
    match heading_marker(body) {
        Some((n, level)) => {
            return (BlockKind::Heading(level), q + n, depth);
        },
        None => {},
    }
    if is_all_white(body) {
        (BlockKind::Blank, q, depth)
    } else {
        (BlockKind::Paragraph, q, depth)
    }
}

/// Lay one line out.
fn lay_out(
    text: &str,
    index: usize,
    start: usize,
    end: usize,
    inside: bool,
    reveal: bool,
) -> (r: Block)
    requires
        is_boundary(text.spec_bytes(), start as int),
        is_boundary(text.spec_bytes(), end as int),
        start <= end,
    ensures
        r@ == row_at(text.spec_bytes(), index as nat, start as int, end as int, inside, reveal),
{
    let line = slice(text, start, end);
    let (kind, n, depth) = classify(line, inside);
    let mut out: Vec<Span> = Vec::new();
    proof {
        assert(pieces(out@) =~= Seq::<Piece>::empty());
    }
    match kind {
        BlockKind::Code => {
            out.push(
                Span {
                    range: start..end,
                    visible: true,
                    style: Style::plain(),
                    role: SpanRole::Text,
                },
            );
            proof {
                assert(pieces(out@) =~= seq![
                    shown(start as int, end as int, Style::plain_spec(), SpanRole::Text),
                ]);
            }
        },
        _ => {
            parse_spans(text.as_bytes(), start + n, end, Style::plain(), reveal, &mut out);
            proof {
                assert(pieces(out@) =~= spans(
                    text.spec_bytes(),
                    start + n,
                    end as int,
                    Style::plain_spec(),
                    reveal,
                ));
            }
        },
    }
    Block {
        kind,
        quote_depth: depth,
        line: index,
        range: start..end,
        marker: start..start + n,
        marker_visible: reveal,
        spans: out,
    }
}

/// Lay a document out. The markers on the caret's line are revealed, or all of them.
fn lay_out_all(text: &str, caret: Option<usize>, all: bool) -> (r: RenderDoc)
    ensures
        r@ == rows_of(
            text.spec_bytes(),
            match caret {
                Some(c) => Some(c as int),
                None => None,
            },
            all,
        ),
{
    let ghost b = text.spec_bytes();
    let ghost at = match caret {
        Some(c) => Some(c as int),
        None => None,
    };
    let n: usize = text.as_bytes().len();
    let mut blocks: Vec<Block> = Vec::new();
    let mut start: usize = 0;
    let mut k: usize = 0;
    let mut inside = false;
    proof {
        lemma_str_valid(text@);
        assert(b.subrange(0, 0) =~= Seq::<u8>::empty());
    }
    loop
        invariant_except_break
            n == b.len(),
            b == text.spec_bytes(),
            valid_utf8(b),
            is_boundary(b, start as int),
            line_start_of(b, start as int) == start,
            line_index_of(b, start as int) == k,
            k <= start,
            blocks@.len() == k,
            inside == inside_fence(lines_of(b), k as int),
            forall|m: nat|
                m >= k ==> #[trigger] line_range_of(b, m) == line_range_from(
                    b,
                    start as int,
                    (m - k) as nat,
                ),
            at == match caret {
                Some(c) => Some(c as int),
                None => None,
            },
            forall|j: int|
                0 <= j < k ==> (#[trigger] blocks@[j])@ == row_of(b, j as nat, at, all),
        ensures
            blocks@.len() == line_count_of(b),
            forall|j: int|
                0 <= j < blocks@.len() ==> (#[trigger] blocks@[j])@ == row_of(b, j as nat, at, all),
        decreases n - start,
    {
        let end: usize = text::line_end(text, start);
        proof {
            lemma_line_end(b, start as int);
            lemma_next_line(b, start as int);
            law_line_at_its_index(b, start as int);
            assert(line_range_of(b, k as nat) == line_range_from(b, start as int, 0));
        }
        let on_line = match caret {
            Some(c) => start <= c && c <= end,
            None => false,
        };
        let block = lay_out(text, k, start, end, inside, all || on_line);
        blocks.push(block);
        if end >= n {
            break;
        }
        if is_fence(slice(text, start, end)) {
            inside = !inside;
        }
        proof {
            lemma_after_newline(b, end as int);
            assert forall|m: nat| m >= k + 1 implies #[trigger] line_range_of(b, m)
                == line_range_from(b, end + 1, (m - (k + 1)) as nat) by {
                assert(line_range_of(b, m) == line_range_from(b, start as int, (m - k) as nat));
            }
        }
        start = end + 1;
        k += 1;
    }
    let r = RenderDoc { blocks };
    proof {
        assert(r@ =~= rows_of(b, at, all));
    }
    r
}

/// Lay a document out, the markers on the caret's line revealed.
pub fn parse_document(text: &str, caret: Option<usize>) -> (r: RenderDoc)
    ensures
        r@ == rows_of(
            text.spec_bytes(),
            match caret {
                Some(c) => Some(c as int),
                None => None,
            },
            false,
        ),
{
    lay_out_all(text, caret, false)
}

impl Span {
    /// The text of the span.
    pub fn text<'a>(&self, src: &'a str) -> (r: &'a str)
        requires
            is_boundary(src.spec_bytes(), self@.start),
            is_boundary(src.spec_bytes(), self@.end),
            self@.start <= self@.end,
        ensures
            r.spec_bytes() == src.spec_bytes().subrange(self@.start, self@.end),
    {
        slice(src, self.range.start, self.range.end)
    }

    /// Whether the span is markdown punctuation.
    pub fn is_marker(&self) -> (r: bool)
        ensures
            r == (self@.role == SpanRole::Marker),
    {
        match self.role {
            SpanRole::Marker => true,
            _ => false,
        }
    }
}

impl Block {
    /// The text of the block as the reader sees it.
    pub fn visible_text(&self, src: &str) -> (r: String)
        requires
            on_boundaries(src.spec_bytes(), self@.spans),
            is_boundary(src.spec_bytes(), self@.marker_start),
            is_boundary(src.spec_bytes(), self@.marker_end),
            self@.marker_start <= self@.marker_end,
        ensures
            encode_utf8(r@) == row_text(src.spec_bytes(), self@),
    {
        let ghost b = src.spec_bytes();
        let ghost p = self@.spans;
        let mut r = String::new();
        proof {
            assert(encode_utf8(r@) =~= Seq::<u8>::empty());
        }
        if self.marker_visible {
            append(&mut r, slice(src, self.marker.start, self.marker.end));
            proof {
                assert(encode_utf8(r@) =~= b.subrange(self@.marker_start, self@.marker_end));
            }
        }
        let ghost head = encode_utf8(r@);
        let mut i: usize = 0;
        proof {
            assert(p.subrange(0, 0) =~= Seq::<Piece>::empty());
            assert(head + Seq::<u8>::empty() =~= head);
        }
        while i < self.spans.len()
            invariant
                i <= self.spans@.len(),
                b == src.spec_bytes(),
                p == pieces(self.spans@),
                on_boundaries(b, p),
                encode_utf8(r@) == head + shown_text(b, p.subrange(0, i as int)),
            decreases self.spans@.len() - i,
        {
            let ghost done = encode_utf8(r@);
            proof {
                assert(p.subrange(0, i + 1).drop_last() =~= p.subrange(0, i as int));
                assert(p.subrange(0, i + 1).last() == p[i as int]);
                assert(p[i as int] == self.spans@[i as int]@);
            }
            if self.spans[i].visible {
                append(&mut r, self.spans[i].text(src));
            }
            proof {
                assert(encode_utf8(r@) =~= head + shown_text(b, p.subrange(0, i + 1)));
            }
            i += 1;
        }
        proof {
            assert(p.subrange(0, p.len() as int) =~= p);
        }
        r
    }
}

impl Editor {
    /// Lay the document out for rendering. In raw mode markers are always visible, since the
    /// user is looking at the source.
    pub fn render(&self) -> (r: RenderDoc)
        requires
            self@.wf(),
        ensures
            r@ == self@.rendered(),
    {
        let all = match self.mode {
            ViewMode::Raw => true,
            ViewMode::Wysiwyg => false,
        };
        let r = lay_out_all(self.text.as_str(), Some(self.caret), all);
        proof {
            if all {
                let b = self@.text;
                let rows = rows_of(b, Some(self@.caret), false);
                assert forall|k: int| 0 <= k < rows.len() implies row_of(
                    b,
                    k as nat,
                    Some(self@.caret),
                    true,
                ) == row_revealed(rows[k]) by {
                    law_line_ranges(b, k as nat);
                    let (start, end) = line_range_of(b, k as nat)->0;
                    lemma_row_revealed(
                        b,
                        k as nat,
                        start,
                        end,
                        inside_fence(lines_of(b), k),
                        start <= self@.caret <= end,
                    );
                }
                assert(r@ =~= self@.rendered());
            }
        }
        r
    }

    /// The document as the reader sees it, with markers stripped.
    pub fn rendered_text(&self) -> (r: String)
        requires
            self@.wf(),
        ensures
            encode_utf8(r@) == joined(row_texts(self@.text, rows_of(self@.text, None, false))),
    {
        let ghost b = self@.text;
        let ghost rows = rows_of(b, None, false);
        let doc = lay_out_all(self.text.as_str(), None, false);
        let mut texts: Vec<String> = Vec::new();
        let mut i: usize = 0;
        proof {
            crate::bytes::lemma_start_is_boundary(b);
        }
        while i < doc.blocks.len()
            invariant
                i <= doc.blocks@.len(),
                doc@ == rows,
                rows == rows_of(b, None, false),
                b == self@.text,
                valid_utf8(b),
                is_boundary(b, 0),
                string_views(texts@) =~= row_texts(b, rows).subrange(0, i as int),
            decreases doc.blocks@.len() - i,
        {
            proof {
                assert(doc@[i as int] == doc.blocks@[i as int]@);
                law_line_ranges(b, i as nat);
                let (start, end) = line_range_of(b, i as nat)->0;
                crate::text::lemma_line_range(b, 0, i as nat);
                law_row_tiles_its_line(
                    b,
                    i as nat,
                    start,
                    end,
                    inside_fence(lines_of(b), i as int),
                    false,
                );
            }
            let ghost before = texts@;
            let shown = doc.blocks[i].visible_text(self.text.as_str());
            texts.push(shown);
            proof {
                assert(row_texts(b, rows)[i as int] == encode_utf8(shown@));
                assert(string_views(texts@) =~= string_views(before).push(encode_utf8(shown@)));
            }
            i += 1;
        }
        proof {
            assert(row_texts(b, rows).subrange(0, i as int) =~= row_texts(b, rows));
        }
        join_lines(&texts)
    }
}

/// Revealing a line shows what is on it, and nothing else of it changes.
proof fn lemma_row_revealed(
    b: Seq<u8>,
    index: nat,
    start: int,
    end: int,
    inside: bool,
    reveal: bool,
)
    requires
        0 <= start <= end <= b.len(),
    ensures
        row_at(b, index, start, end, inside, true) == row_revealed(
            row_at(b, index, start, end, inside, reveal),
        ),
{
    let line = b.subrange(start, end);
    lemma_line_kind(line, inside);
    let from = start + line_kind(line, inside).1;
    law_revealing_only_shows(b, from, end, Style::plain_spec());
    let now = row_at(b, index, start, end, inside, reveal);
    assert(row_at(b, index, start, end, inside, true).spans =~= revealed(now.spans));
}

} // verus!
