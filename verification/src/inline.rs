//! Inline markdown: emphasis, code, links and images within a line.
//!
//! Nothing is stripped. A line is cut into spans, the markers among them tagged as such, so
//! that hiding the markers yields the formatted view and showing them yields the source.

use std::ops::Range;

use vstd::prelude::*;
use vstd::string::*;
use vstd::utf8::valid_utf8;

use crate::ascii::{
    BACKTICK, BANG, BRACKET_CLOSE, BRACKET_OPEN, PAREN_CLOSE, PAREN_OPEN, SPACE, STAR, TILDE,
    UNDERSCORE,
};
use crate::bytes::is_boundary;
use crate::text::lemma_after_ascii;

verus! {

/// How a span of text is drawn.
#[derive(Clone, Copy, PartialEq, Eq, Debug, Default, Structural)]
pub struct Style {
    pub bold: bool,
    pub italic: bool,
    pub strike: bool,
    pub code: bool,
}

/// What emphasis adds to a style.
#[derive(Clone, Copy, PartialEq, Eq, Debug, Structural)]
pub enum Emphasis {
    Bold,
    Italic,
    Strike,
}

impl Style {
    pub open spec fn plain_spec() -> Style {
        Style { bold: false, italic: false, strike: false, code: false }
    }

    pub open spec fn with_spec(self, e: Emphasis) -> Style {
        match e {
            Emphasis::Bold => Style { bold: true, ..self },
            Emphasis::Italic => Style { italic: true, ..self },
            Emphasis::Strike => Style { strike: true, ..self },
        }
    }

    /// Nothing special.
    pub fn plain() -> (r: Style)
        ensures
            r == Style::plain_spec(),
    {
        Style { bold: false, italic: false, strike: false, code: false }
    }

    /// The style with an emphasis added.
    pub fn with(self, e: Emphasis) -> (r: Style)
        ensures
            r == self.with_spec(e),
    {
        match e {
            Emphasis::Bold => Style { bold: true, ..self },
            Emphasis::Italic => Style { italic: true, ..self },
            Emphasis::Strike => Style { strike: true, ..self },
        }
    }

    /// The style as inline code.
    pub fn as_code(self) -> (r: Style)
        ensures
            r == (Style { code: true, ..self }),
    {
        Style { code: true, ..self }
    }
}

/// What a span is.
#[derive(Clone, Copy, PartialEq, Eq, Debug, Structural)]
pub enum SpanRole {
    Text,
    /// Markdown punctuation.
    Marker,
    /// The label of a link, and where its target stands in the source.
    Link { url_start: usize, url_end: usize },
    /// The text of an image, and where its target stands in the source.
    Image { url_start: usize, url_end: usize },
}

/// A stretch of the source drawn in one style.
#[derive(PartialEq, Eq, Debug)]
pub struct Span {
    pub range: Range<usize>,
    pub visible: bool,
    pub style: Style,
    pub role: SpanRole,
}

/// A span as mathematics.
#[verifier::ext_equal]
pub struct Piece {
    pub start: int,
    pub end: int,
    pub visible: bool,
    pub style: Style,
    pub role: SpanRole,
}

impl View for Span {
    type V = Piece;

    open spec fn view(&self) -> Piece {
        Piece {
            start: self.range.start as int,
            end: self.range.end as int,
            visible: self.visible,
            style: self.style,
            role: self.role,
        }
    }
}

/// What a list of spans stands for.
pub open spec fn pieces(v: Seq<Span>) -> Seq<Piece> {
    Seq::new(v.len(), |i: int| v[i]@)
}

/// Text, always shown.
pub open spec fn shown(start: int, end: int, style: Style, role: SpanRole) -> Piece {
    Piece { start, end, visible: true, style, role }
}

/// A marker, shown only where markers are revealed.
pub open spec fn marker(start: int, end: int, style: Style, reveal: bool) -> Piece {
    Piece { start, end, visible: reveal, style, role: SpanRole::Marker }
}

/// The first place of `x` from `i` on, or `end`.
pub open spec fn find(b: Seq<u8>, x: u8, i: int, end: int) -> int
    decreases end - i,
{
    if i >= end {
        end
    } else if b[i] == x {
        i
    } else {
        find(b, x, i + 1, end)
    }
}

/// A byte of a word: an ASCII letter or digit, or part of any other char.
pub open spec fn is_word(x: u8) -> bool {
    ||| 0x30 <= x <= 0x39
    ||| 0x41 <= x <= 0x5a
    ||| 0x61 <= x <= 0x7a
    ||| x >= 0x80
}

/// `n` delimiters `x` at `k` close what an opener before them opened: no space stands before
/// them, and a single one stands alone.
pub open spec fn is_closer(b: Seq<u8>, x: u8, n: int, k: int, end: int) -> bool {
    &&& k + n <= end
    &&& b[k] == x
    &&& b[k - 1] != SPACE
    &&& n == 2 ==> b[k + 1] == x
    &&& n == 1 ==> b[k - 1] != x && (k + 1 < end ==> b[k + 1] != x)
}

/// The first place from `k` on where `n` delimiters `x` close, or `end`.
pub open spec fn closer(b: Seq<u8>, x: u8, n: int, k: int, end: int) -> int
    decreases end - k,
{
    if k >= end {
        end
    } else if is_closer(b, x, n, k, end) {
        k
    } else {
        closer(b, x, n, k + 1, end)
    }
}

/// Something that markdown gives a meaning to.
pub enum Mark {
    /// Code between two backticks, the second at `close`.
    Code { close: int },
    /// Emphasis between `n` delimiters at either end, the second at `close`.
    Pair { n: int, emphasis: Emphasis, close: int },
    /// A link, or an image, whose opening is `n` bytes long: where the label ends, and where
    /// the closing parenthesis stands.
    Link { n: int, label_end: int, close: int },
}

/// The emphasis that starts at `i`. A delimiter opens if no space follows it; `_` and `__`
/// only if no word comes before them either.
pub open spec fn pair_at(b: Seq<u8>, i: int, end: int) -> Option<Mark> {
    let x = b[i];
    let doubled = i + 1 < end && b[i + 1] == x;
    let n = if doubled {
        2int
    } else {
        1int
    };
    let close = closer(b, x, n, i + n + 1, end);
    if !(x == STAR || x == UNDERSCORE || (x == TILDE && doubled)) {
        None
    } else if x == UNDERSCORE && i > 0 && is_word(b[i - 1]) {
        None
    } else if i + n < end && b[i + n] != SPACE && i + n < close && close + n <= end {
        Some(
            Mark::Pair {
                n,
                emphasis: if x == TILDE {
                    Emphasis::Strike
                } else if doubled {
                    Emphasis::Bold
                } else {
                    Emphasis::Italic
                },
                close,
            },
        )
    } else {
        None
    }
}

/// The link whose `[` stands at `at`, `n` bytes behind its start.
pub open spec fn link_at(b: Seq<u8>, at: int, n: int, end: int) -> Option<Mark> {
    let label_end = find(b, BRACKET_CLOSE, at + 1, end);
    let close = find(b, PAREN_CLOSE, label_end + 2, end);
    if b[at] == BRACKET_OPEN && at < label_end && label_end + 1 < end && b[label_end + 1]
        == PAREN_OPEN && label_end + 2 <= close < end {
        Some(Mark::Link { n, label_end, close })
    } else {
        None
    }
}

/// What starts at `i`, if markdown gives it a meaning.
pub open spec fn mark_at(b: Seq<u8>, i: int, end: int) -> Option<Mark> {
    if b[i] == BACKTICK {
        let close = find(b, BACKTICK, i + 1, end);
        if i + 1 < close < end {
            Some(Mark::Code { close })
        } else {
            None
        }
    } else if b[i] == BRACKET_OPEN {
        link_at(b, i, 1, end)
    } else if b[i] == BANG && i + 1 < end {
        link_at(b, i + 1, 2, end)
    } else {
        pair_at(b, i, end)
    }
}

/// Where the plain text from `i` on ends: at the next mark, or at `end`.
pub open spec fn plain_end(b: Seq<u8>, i: int, end: int) -> int
    decreases end - i,
{
    if i >= end {
        end
    } else if mark_at(b, i, end) is Some {
        i
    } else {
        plain_end(b, i + 1, end)
    }
}

/// Code and its backticks.
pub open spec fn code_pieces(i: int, close: int, style: Style, reveal: bool) -> Seq<Piece> {
    seq![
        marker(i, i + 1, style, reveal),
        shown(i + 1, close, Style { code: true, ..style }, SpanRole::Text),
        marker(close, close + 1, style, reveal),
    ]
}

/// The label of a link or an image, what opens it, and the target behind it.
pub open spec fn link_pieces(
    i: int,
    n: int,
    label_end: int,
    close: int,
    style: Style,
    reveal: bool,
) -> Seq<Piece> {
    let url_start = (label_end + 2) as usize;
    let url_end = close as usize;
    seq![
        marker(i, i + n, style, reveal),
        shown(
            i + n,
            label_end,
            style,
            if n == 1 {
                SpanRole::Link { url_start, url_end }
            } else {
                SpanRole::Image { url_start, url_end }
            },
        ),
        marker(label_end, close + 1, style, reveal),
    ]
}

/// The spans of the text from `i` up to `end`.
pub open spec fn spans(b: Seq<u8>, i: int, end: int, style: Style, reveal: bool) -> Seq<Piece>
    decreases end - i,
{
    if i >= end {
        Seq::empty()
    } else {
        match mark_at(b, i, end) {
            Some(Mark::Code { close }) => code_pieces(i, close, style, reveal) + spans(
                b,
                close + 1,
                end,
                style,
                reveal,
            ),
            Some(Mark::Pair { n, emphasis, close }) => seq![marker(i, i + n, style, reveal)]
                + spans(b, i + n, close, style.with_spec(emphasis), reveal) + seq![
                marker(close, close + n, style, reveal),
            ] + spans(b, close + n, end, style, reveal),
            Some(Mark::Link { n, label_end, close }) => link_pieces(
                i,
                n,
                label_end,
                close,
                style,
                reveal,
            ) + spans(b, close + 1, end, style, reveal),
            None => {
                let k = plain_end(b, i + 1, end);
                proof {
                    lemma_plain_end(b, i + 1, end);
                }
                seq![shown(i, k, style, SpanRole::Text)] + spans(b, k, end, style, reveal)
            },
        }
    }
}

pub proof fn lemma_plain_end(b: Seq<u8>, i: int, end: int)
    requires
        i <= end,
    ensures
        i <= plain_end(b, i, end) <= end,
        plain_end(b, i, end) < end ==> mark_at(b, plain_end(b, i, end), end) is Some,
    decreases end - i,
{
    if i < end && mark_at(b, i, end) is None {
        lemma_plain_end(b, i + 1, end);
    }
}

// ---- what holds of spans --------------------------------------------------------

/// The pieces follow one another without a gap or an overlap, from `from` up to `to`.
pub open spec fn tiles(p: Seq<Piece>, from: int, to: int) -> bool
    decreases p.len(),
{
    if p.len() == 0 {
        from == to
    } else {
        &&& p[0].start == from
        &&& p[0].start <= p[0].end
        &&& tiles(p.drop_first(), p[0].end, to)
    }
}

/// Every piece can be cut out of the text.
pub open spec fn on_boundaries(b: Seq<u8>, p: Seq<Piece>) -> bool {
    forall|k: int|
        0 <= k < p.len() ==> is_boundary(b, (#[trigger] p[k]).start) && is_boundary(b, p[k].end)
            && p[k].start <= p[k].end
}

/// Only markers are ever hidden, and they are hidden unless revealed.
pub open spec fn hides_markers(p: Seq<Piece>, reveal: bool) -> bool {
    forall|k: int|
        0 <= k < p.len() ==> (#[trigger] p[k]).visible == (reveal || p[k].role != SpanRole::Marker)
}

/// The same pieces, all of them shown.
pub open spec fn revealed(p: Seq<Piece>) -> Seq<Piece> {
    Seq::new(p.len(), |k: int| Piece { visible: true, ..p[k] })
}

pub proof fn lemma_find(b: Seq<u8>, x: u8, i: int, end: int)
    requires
        0 <= i,
        end <= b.len(),
    ensures
        i <= end ==> i <= find(b, x, i, end) <= end,
        i > end ==> find(b, x, i, end) == end,
        find(b, x, i, end) < end ==> b[find(b, x, i, end)] == x,
    decreases end - i,
{
    if i < end && b[i] != x {
        lemma_find(b, x, i + 1, end);
    }
}

proof fn lemma_closer(b: Seq<u8>, x: u8, n: int, k: int, end: int)
    requires
        0 <= k,
        end <= b.len(),
    ensures
        k <= end ==> k <= closer(b, x, n, k, end) <= end,
        k > end ==> closer(b, x, n, k, end) == end,
        closer(b, x, n, k, end) < end ==> is_closer(b, x, n, closer(b, x, n, k, end), end),
    decreases end - k,
{
    if k < end && !is_closer(b, x, n, k, end) {
        lemma_closer(b, x, n, k + 1, end);
    }
}

/// A mark lies inside the text, and its delimiters are ASCII.
proof fn lemma_mark(b: Seq<u8>, i: int, end: int)
    requires
        0 <= i < end <= b.len(),
    ensures
        mark_at(b, i, end) is Some ==> b[i] < 0x80,
        match mark_at(b, i, end) {
            Some(Mark::Code { close }) => i + 1 < close < end && b[close] == BACKTICK,
            Some(Mark::Pair { n, close, .. }) => {
                &&& 1 <= n <= 2
                &&& i + n < close
                &&& close + n <= end
                &&& n == 2 ==> b[i + 1] < 0x80 && b[close + 1] < 0x80
                &&& b[close] < 0x80
            },
            Some(Mark::Link { n, label_end, close }) => {
                &&& 1 <= n <= 2
                &&& i + n <= label_end
                &&& label_end + 2 <= close < end
                &&& b[i + n - 1] == BRACKET_OPEN
                &&& b[label_end] == BRACKET_CLOSE
                &&& b[label_end + 1] == PAREN_OPEN
                &&& b[close] == PAREN_CLOSE
            },
            None => true,
        },
{
    lemma_find(b, BACKTICK, i + 1, end);
    lemma_find(b, BRACKET_CLOSE, i + 1, end);
    lemma_find(b, BRACKET_CLOSE, i + 2, end);
    let l1 = find(b, BRACKET_CLOSE, i + 1, end);
    let l2 = find(b, BRACKET_CLOSE, i + 2, end);
    lemma_find(b, PAREN_CLOSE, l1 + 2, end);
    lemma_find(b, PAREN_CLOSE, l2 + 2, end);
    lemma_closer(b, b[i], 1, i + 2, end);
    lemma_closer(b, b[i], 2, i + 3, end);
}

proof fn lemma_tiles_concat(a: Seq<Piece>, b: Seq<Piece>, x: int, y: int, z: int)
    requires
        tiles(a, x, y),
        tiles(b, y, z),
    ensures
        tiles(a + b, x, z),
    decreases a.len(),
{
    if a.len() == 0 {
        assert(a + b =~= b);
    } else {
        assert((a + b).drop_first() =~= a.drop_first() + b);
        lemma_tiles_concat(a.drop_first(), b, a[0].end, y, z);
    }
}

proof fn lemma_tile(p: Piece)
    requires
        p.start <= p.end,
    ensures
        tiles(seq![p], p.start, p.end),
{
    reveal_with_fuel(tiles, 2);
    assert(seq![p].drop_first() =~= Seq::<Piece>::empty());
}

/// The spans of a text tile it exactly: every byte belongs to one span, in order.
pub proof fn law_spans_tile(b: Seq<u8>, i: int, end: int, style: Style, reveal: bool)
    requires
        0 <= i <= end <= b.len(),
    ensures
        tiles(spans(b, i, end, style, reveal), i, end),
    decreases end - i,
{
    if i < end {
        lemma_mark(b, i, end);
        match mark_at(b, i, end) {
            Some(Mark::Code { close }) => {
                let p0 = marker(i, i + 1, style, reveal);
                let p1 = shown(i + 1, close, Style { code: true, ..style }, SpanRole::Text);
                let p2 = marker(close, close + 1, style, reveal);
                law_spans_tile(b, close + 1, end, style, reveal);
                lemma_three(p0, p1, p2, spans(b, close + 1, end, style, reveal), end);
            },
            Some(Mark::Pair { n, emphasis, close }) => {
                let p0 = marker(i, i + n, style, reveal);
                let p2 = marker(close, close + n, style, reveal);
                let inner = spans(b, i + n, close, style.with_spec(emphasis), reveal);
                let rest = spans(b, close + n, end, style, reveal);
                law_spans_tile(b, i + n, close, style.with_spec(emphasis), reveal);
                law_spans_tile(b, close + n, end, style, reveal);
                lemma_tile(p0);
                lemma_tile(p2);
                lemma_tiles_concat(seq![p0], inner, i, i + n, close);
                lemma_tiles_concat(seq![p0] + inner, seq![p2], i, close, close + n);
                lemma_tiles_concat(seq![p0] + inner + seq![p2], rest, i, close + n, end);
            },
            Some(Mark::Link { n, label_end, close }) => {
                let role = if n == 1 {
                    SpanRole::Link {
                        url_start: (label_end + 2) as usize,
                        url_end: close as usize,
                    }
                } else {
                    SpanRole::Image {
                        url_start: (label_end + 2) as usize,
                        url_end: close as usize,
                    }
                };
                let p0 = marker(i, i + n, style, reveal);
                let p1 = shown(i + n, label_end, style, role);
                let p2 = marker(label_end, close + 1, style, reveal);
                law_spans_tile(b, close + 1, end, style, reveal);
                lemma_three(p0, p1, p2, spans(b, close + 1, end, style, reveal), end);
            },
            None => {
                let k = plain_end(b, i + 1, end);
                lemma_plain_end(b, i + 1, end);
                let p0 = shown(i, k, style, SpanRole::Text);
                law_spans_tile(b, k, end, style, reveal);
                lemma_tile(p0);
                lemma_tiles_concat(seq![p0], spans(b, k, end, style, reveal), i, k, end);
            },
        }
    }
}

proof fn lemma_three(p0: Piece, p1: Piece, p2: Piece, rest: Seq<Piece>, end: int)
    requires
        p0.start <= p0.end == p1.start <= p1.end == p2.start <= p2.end,
        tiles(rest, p2.end, end),
    ensures
        tiles(seq![p0, p1, p2] + rest, p0.start, end),
{
    lemma_tile(p0);
    lemma_tile(p1);
    lemma_tile(p2);
    lemma_tiles_concat(seq![p0], seq![p1], p0.start, p0.end, p1.end);
    lemma_tiles_concat(seq![p0] + seq![p1], seq![p2], p0.start, p1.end, p2.end);
    assert(seq![p0] + seq![p1] + seq![p2] =~= seq![p0, p1, p2]);
    lemma_tiles_concat(seq![p0, p1, p2], rest, p0.start, p2.end, end);
}

/// Every span of valid text lies between char boundaries, and only markers are hidden.
pub proof fn law_spans_are_sound(b: Seq<u8>, i: int, end: int, style: Style, reveal: bool)
    requires
        valid_utf8(b),
        is_boundary(b, i),
        is_boundary(b, end),
        i <= end,
    ensures
        on_boundaries(b, spans(b, i, end, style, reveal)),
        hides_markers(spans(b, i, end, style, reveal), reveal),
    decreases end - i,
{
    if i < end {
        lemma_mark(b, i, end);
        match mark_at(b, i, end) {
            Some(Mark::Code { close }) => {
                lemma_after_ascii(b, i);
                lemma_after_ascii(b, close);
                law_spans_are_sound(b, close + 1, end, style, reveal);
            },
            Some(Mark::Pair { n, emphasis, close }) => {
                lemma_after_ascii(b, i);
                lemma_after_ascii(b, i + n - 1);
                lemma_after_ascii(b, close);
                lemma_after_ascii(b, close + n - 1);
                law_spans_are_sound(b, i + n, close, style.with_spec(emphasis), reveal);
                law_spans_are_sound(b, close + n, end, style, reveal);
            },
            Some(Mark::Link { n, label_end, close }) => {
                lemma_after_ascii(b, i);
                lemma_after_ascii(b, i + n - 1);
                lemma_after_ascii(b, label_end);
                lemma_after_ascii(b, close);
                law_spans_are_sound(b, close + 1, end, style, reveal);
            },
            None => {
                let k = plain_end(b, i + 1, end);
                lemma_plain_end(b, i + 1, end);
                if k < end {
                    lemma_mark(b, k, end);
                    lemma_after_ascii(b, k);
                }
                law_spans_are_sound(b, k, end, style, reveal);
            },
        }
    }
}

/// Revealing the markers changes what is shown, and nothing else: neither where the spans lie
/// nor how they are drawn.
pub proof fn law_revealing_only_shows(b: Seq<u8>, i: int, end: int, style: Style)
    requires
        0 <= i <= end <= b.len(),
    ensures
        spans(b, i, end, style, true) == revealed(spans(b, i, end, style, false)),
    decreases end - i,
{
    if i < end {
        lemma_mark(b, i, end);
        match mark_at(b, i, end) {
            Some(Mark::Code { close }) => {
                law_revealing_only_shows(b, close + 1, end, style);
            },
            Some(Mark::Pair { n, emphasis, close }) => {
                law_revealing_only_shows(b, i + n, close, style.with_spec(emphasis));
                law_revealing_only_shows(b, close + n, end, style);
            },
            Some(Mark::Link { n, label_end, close }) => {
                law_revealing_only_shows(b, close + 1, end, style);
            },
            None => {
                lemma_plain_end(b, i + 1, end);
                law_revealing_only_shows(b, plain_end(b, i + 1, end), end, style);
            },
        }
    }
    assert(spans(b, i, end, style, true) =~= revealed(spans(b, i, end, style, false)));
}

// ---- parsing --------------------------------------------------------------------

/// What starts at a place, in machine numbers.
enum Found {
    Code(usize),
    Pair(usize, Emphasis, usize),
    Link(usize, usize, usize),
}

/// The same as mathematics.
spec fn found_mark(f: Found) -> Mark {
    match f {
        Found::Code(close) => Mark::Code { close: close as int },
        Found::Pair(n, emphasis, close) => Mark::Pair {
            n: n as int,
            emphasis,
            close: close as int,
        },
        Found::Link(n, label_end, close) => Mark::Link {
            n: n as int,
            label_end: label_end as int,
            close: close as int,
        },
    }
}

fn find_byte(b: &[u8], x: u8, from: usize, end: usize) -> (r: usize)
    requires
        end <= b@.len(),
    ensures
        r == find(b@, x, from as int, end as int),
        r <= end,
{
    if from >= end {
        return end;
    }
    let mut i: usize = from;
    while i < end && b[i] != x
        invariant
            from <= i <= end <= b@.len(),
            find(b@, x, from as int, end as int) == find(b@, x, i as int, end as int),
        decreases end - i,
    {
        i += 1;
    }
    i
}

fn find_closer(b: &[u8], x: u8, n: usize, from: usize, end: usize) -> (r: usize)
    requires
        end <= b@.len(),
        1 <= n <= 2,
        from >= 1,
    ensures
        r == closer(b@, x, n as int, from as int, end as int),
        r <= end,
{
    if from >= end {
        return end;
    }
    let mut k: usize = from;
    while k < end
        invariant
            1 <= from <= k <= end <= b@.len(),
            1 <= n <= 2,
            closer(b@, x, n as int, from as int, end as int) == closer(
                b@,
                x,
                n as int,
                k as int,
                end as int,
            ),
        decreases end - k,
    {
        let closes = end - k >= n && b[k] == x && b[k - 1] != SPACE && (n != 2 || b[k + 1] == x) && (
        n != 1 || (b[k - 1] != x && (end - k == 1 || b[k + 1] != x)));
        if closes {
            return k;
        }
        k += 1;
    }
    k
}

fn find_pair(b: &[u8], i: usize, end: usize) -> (r: Option<Found>)
    requires
        i < end <= b@.len(),
    ensures
        match r {
            Some(f) => pair_at(b@, i as int, end as int) == Some(found_mark(f)),
            None => pair_at(b@, i as int, end as int) is None,
        },
{
    let x: u8 = b[i];
    let doubled = end - i > 1 && b[i + 1] == x;
    if !(x == STAR || x == UNDERSCORE || (x == TILDE && doubled)) {
        return None;
    }
    if x == UNDERSCORE && i > 0 {
        let before: u8 = b[i - 1];
        if (0x30 <= before && before <= 0x39) || (0x41 <= before && before <= 0x5a) || (0x61
            <= before && before <= 0x7a) || before >= 0x80 {
            return None;
        }
    }
    let n: usize = if doubled {
        2
    } else {
        1
    };
    if end - i <= n || b[i + n] == SPACE {
        return None;
    }
    let close: usize = find_closer(b, x, n, i + n + 1, end);
    proof {
        lemma_closer(b@, x, n as int, i + n + 1, end as int);
    }
    if end - close < n {
        return None;
    }
    let emphasis = if x == TILDE {
        Emphasis::Strike
    } else if doubled {
        Emphasis::Bold
    } else {
        Emphasis::Italic
    };
    Some(Found::Pair(n, emphasis, close))
}

fn find_link(b: &[u8], at: usize, n: usize, end: usize) -> (r: Option<Found>)
    requires
        at < end <= b@.len(),
    ensures
        match r {
            Some(f) => link_at(b@, at as int, n as int, end as int) == Some(found_mark(f)),
            None => link_at(b@, at as int, n as int, end as int) is None,
        },
{
    if b[at] != BRACKET_OPEN {
        return None;
    }
    let label_end: usize = find_byte(b, BRACKET_CLOSE, at + 1, end);
    proof {
        lemma_find(b@, BRACKET_CLOSE, at + 1, end as int);
    }
    if end - label_end <= 1 || b[label_end + 1] != PAREN_OPEN {
        return None;
    }
    let close: usize = find_byte(b, PAREN_CLOSE, label_end + 2, end);
    proof {
        lemma_find(b@, PAREN_CLOSE, label_end + 2, end as int);
    }
    if close >= end {
        return None;
    }
    Some(Found::Link(n, label_end, close))
}

fn find_mark(b: &[u8], i: usize, end: usize) -> (r: Option<Found>)
    requires
        i < end <= b@.len(),
    ensures
        match r {
            Some(f) => mark_at(b@, i as int, end as int) == Some(found_mark(f)),
            None => mark_at(b@, i as int, end as int) is None,
        },
{
    if b[i] == BACKTICK {
        let close: usize = find_byte(b, BACKTICK, i + 1, end);
        proof {
            lemma_find(b@, BACKTICK, i + 1, end as int);
        }
        if close < end && close - i > 1 {
            return Some(Found::Code(close));
        }
        return None;
    }
    if b[i] == BRACKET_OPEN {
        return find_link(b, i, 1, end);
    }
    if b[i] == BANG && end - i > 1 {
        return find_link(b, i + 1, 2, end);
    }
    find_pair(b, i, end)
}

fn find_plain_end(b: &[u8], from: usize, end: usize) -> (r: usize)
    requires
        from <= end <= b@.len(),
    ensures
        r == plain_end(b@, from as int, end as int),
        from <= r <= end,
{
    let mut i: usize = from;
    while i < end
        invariant
            from <= i <= end <= b@.len(),
            plain_end(b@, from as int, end as int) == plain_end(b@, i as int, end as int),
        decreases end - i,
    {
        if find_mark(b, i, end).is_some() {
            return i;
        }
        i += 1;
    }
    i
}

fn push_text(out: &mut Vec<Span>, start: usize, end: usize, style: Style, role: SpanRole)
    ensures
        pieces(final(out)@) == pieces(old(out)@).push(
            shown(start as int, end as int, style, role),
        ),
{
    let ghost before = out@;
    out.push(Span { range: start..end, visible: true, style, role });
    proof {
        assert(pieces(out@) =~= pieces(before).push(shown(start as int, end as int, style, role)));
    }
}

fn push_marker(out: &mut Vec<Span>, start: usize, end: usize, style: Style, reveal: bool)
    ensures
        pieces(final(out)@) == pieces(old(out)@).push(
            marker(start as int, end as int, style, reveal),
        ),
{
    let ghost before = out@;
    out.push(Span { range: start..end, visible: reveal, style, role: SpanRole::Marker });
    proof {
        assert(pieces(out@) =~= pieces(before).push(
            marker(start as int, end as int, style, reveal),
        ));
    }
}

/// Append the span or the mark that starts at `i`, and say where it ends.
fn parse_span(
    b: &[u8],
    i: usize,
    end: usize,
    style: Style,
    reveal: bool,
    out: &mut Vec<Span>,
) -> (next: usize)
    requires
        i < end <= b@.len(),
    ensures
        i < next <= end,
        pieces(old(out)@) + spans(b@, i as int, end as int, style, reveal) == pieces(final(out)@)
            + spans(b@, next as int, end as int, style, reveal),
    decreases end - i, 0int,
{
    let ghost before = pieces(out@);
    proof {
        lemma_mark(b@, i as int, end as int);
    }
    match find_mark(b, i, end) {
        Some(Found::Code(close)) => {
            push_code(out, i, close, style, reveal);
            proof {
                lemma_assoc(
                    before,
                    code_pieces(i as int, close as int, style, reveal),
                    spans(b@, close + 1, end as int, style, reveal),
                );
            }
            close + 1
        },
        Some(Found::Pair(n, emphasis, close)) => {
            push_marker(out, i, i + n, style, reveal);
            parse_spans(b, i + n, close, style.with(emphasis), reveal, out);
            push_marker(out, close, close + n, style, reveal);
            proof {
                let inner = spans(b@, i + n, close as int, style.with_spec(emphasis), reveal);
                let head = seq![marker(i as int, i + n, style, reveal)];
                let last = seq![marker(close as int, close + n, style, reveal)];
                assert(pieces(out@) =~= before + (head + inner + last));
                lemma_assoc(
                    before,
                    head + inner + last,
                    spans(b@, close + n, end as int, style, reveal),
                );
            }
            close + n
        },
        Some(Found::Link(n, label_end, close)) => {
            push_link(out, i, n, label_end, close, style, reveal);
            proof {
                lemma_assoc(
                    before,
                    link_pieces(
                        i as int,
                        n as int,
                        label_end as int,
                        close as int,
                        style,
                        reveal,
                    ),
                    spans(b@, close + 1, end as int, style, reveal),
                );
            }
            close + 1
        },
        None => {
            let k: usize = find_plain_end(b, i + 1, end);
            push_text(out, i, k, style, SpanRole::Text);
            proof {
                let head = seq![shown(i as int, k as int, style, SpanRole::Text)];
                assert(pieces(out@) =~= before + head);
                lemma_assoc(before, head, spans(b@, k as int, end as int, style, reveal));
            }
            k
        },
    }
}

/// Append code and its backticks.
fn push_code(out: &mut Vec<Span>, i: usize, close: usize, style: Style, reveal: bool)
    requires
        i < close < usize::MAX,
    ensures
        pieces(final(out)@) == pieces(old(out)@) + code_pieces(
            i as int,
            close as int,
            style,
            reveal,
        ),
{
    let ghost before = pieces(out@);
    push_marker(out, i, i + 1, style, reveal);
    push_text(out, i + 1, close, style.as_code(), SpanRole::Text);
    push_marker(out, close, close + 1, style, reveal);
    proof {
        assert(pieces(out@) =~= before + code_pieces(i as int, close as int, style, reveal));
    }
}

/// Append a link or an image.
fn push_link(
    out: &mut Vec<Span>,
    i: usize,
    n: usize,
    label_end: usize,
    close: usize,
    style: Style,
    reveal: bool,
)
    requires
        i + n <= label_end,
        label_end + 2 <= close < usize::MAX,
    ensures
        pieces(final(out)@) == pieces(old(out)@) + link_pieces(
            i as int,
            n as int,
            label_end as int,
            close as int,
            style,
            reveal,
        ),
{
    let ghost before = pieces(out@);
    let role = if n == 1 {
        SpanRole::Link { url_start: label_end + 2, url_end: close }
    } else {
        SpanRole::Image { url_start: label_end + 2, url_end: close }
    };
    push_marker(out, i, i + n, style, reveal);
    push_text(out, i + n, label_end, style, role);
    push_marker(out, label_end, close + 1, style, reveal);
    proof {
        assert(pieces(out@) =~= before + link_pieces(
            i as int,
            n as int,
            label_end as int,
            close as int,
            style,
            reveal,
        ));
    }
}

proof fn lemma_assoc(a: Seq<Piece>, b: Seq<Piece>, c: Seq<Piece>)
    ensures
        a + (b + c) == (a + b) + c,
{
    assert(a + (b + c) =~= (a + b) + c);
}

/// Cut the bytes from `from` up to `end` into spans, and append those to `out`.
pub fn parse_spans(
    b: &[u8],
    from: usize,
    end: usize,
    style: Style,
    reveal: bool,
    out: &mut Vec<Span>,
)
    requires
        from <= end <= b@.len(),
    ensures
        pieces(final(out)@) == pieces(old(out)@) + spans(
            b@,
            from as int,
            end as int,
            style,
            reveal,
        ),
    decreases end - from, 1int,
{
    let ghost target = pieces(out@) + spans(b@, from as int, end as int, style, reveal);
    let mut i: usize = from;
    while i < end
        invariant
            from <= i <= end <= b@.len(),
            target == pieces(out@) + spans(b@, i as int, end as int, style, reveal),
        decreases end - i,
    {
        i = parse_span(b, i, end, style, reveal, out);
        proof {
            assert(target =~= pieces(out@) + spans(b@, i as int, end as int, style, reveal));
        }
    }
    proof {
        assert(pieces(out@) + Seq::<Piece>::empty() =~= pieces(out@));
    }
}

} // verus!
