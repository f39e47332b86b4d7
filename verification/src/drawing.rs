//! How text is drawn: which marks give it which style, and what is no mark.

use vstd::prelude::*;

use crate::ascii::{
    BACKTICK, BANG, BRACKET_CLOSE, BRACKET_OPEN, PAREN_CLOSE, PAREN_OPEN, SPACE, STAR, TILDE,
    UNDERSCORE,
};
use crate::inline::{
    closer, Emphasis, find, is_closer, lemma_find, link_at, link_pieces, Mark, mark_at, pair_at,
    Piece, plain_end, SpanRole, spans, Style,
};

verus! {

/// A byte that may start something that markdown gives a meaning to.
pub open spec fn may_mark(x: u8) -> bool {
    x == BACKTICK || x == STAR || x == UNDERSCORE || x == TILDE || x == BRACKET_OPEN || x == BANG
}

/// A byte of a word: a letter or a digit, or any byte beyond ASCII.
pub open spec fn in_word(x: u8) -> bool {
    (0x30 <= x <= 0x39) || (0x41 <= x <= 0x5a) || (0x61 <= x <= 0x7a) || x >= 0x80
}

/// Text from `i` up to `j`, drawn in a style.
pub open spec fn text_piece(i: int, j: int, style: Style) -> Piece {
    Piece { start: i, end: j, visible: true, style, role: SpanRole::Text }
}

/// Punctuation from `i` up to `j`, shown or not.
pub open spec fn mark_piece(i: int, j: int, style: Style, seen: bool) -> Piece {
    Piece { start: i, end: j, visible: seen, style, role: SpanRole::Marker }
}

/// The text from `i` up to `o` as one piece, if there is any.
pub open spec fn lead(i: int, o: int, style: Style) -> Seq<Piece> {
    if i < o {
        seq![text_piece(i, o, style)]
    } else {
        Seq::empty()
    }
}

/// What delimiters add to a style: two tildes strike it through, two stars or underscores make
/// it bold, one makes it italic.
pub open spec fn emphasised(style: Style, x: u8, n: int) -> Style {
    if x == TILDE {
        Style { strike: true, ..style }
    } else if n == 2 {
        Style { bold: true, ..style }
    } else {
        Style { italic: true, ..style }
    }
}

/// `n` delimiters `x` stand at `o` and what follows them is no space. An underscore does not
/// open inside a word, one tilde does not open at all, and a single one has no other behind it.
pub open spec fn opens(b: Seq<u8>, o: int, end: int, x: u8, n: int) -> bool {
    &&& 0 <= o
    &&& o + n < end
    &&& x == STAR || x == UNDERSCORE || (x == TILDE && n == 2)
    &&& b[o] == x
    &&& n == 2 ==> b[o + 1] == x
    &&& n == 1 ==> b[o + 1] != x
    &&& b[o + n] != SPACE
    &&& x == UNDERSCORE && o > 0 ==> !in_word(b[o - 1])
}

/// `n` delimiters `x` stand at `k` and no space comes before them. A single one has no other
/// beside it.
pub open spec fn closes(b: Seq<u8>, k: int, end: int, x: u8, n: int) -> bool {
    &&& k + n <= end
    &&& b[k] == x
    &&& b[k - 1] != SPACE
    &&& n == 2 ==> b[k + 1] == x
    &&& n == 1 ==> b[k - 1] != x && (k + 1 < end ==> b[k + 1] != x)
}

proof fn lemma_closer_is(b: Seq<u8>, x: u8, n: int, k: int, c: int, end: int)
    requires
        1 <= n <= 2,
        k <= c < end,
        closes(b, c, end, x, n),
        forall|j: int| k <= j < c ==> !#[trigger] closes(b, j, end, x, n),
    ensures
        closer(b, x, n, k, end) == c,
    decreases c - k,
{
    assert(is_closer(b, x, n, k, end) == closes(b, k, end, x, n));
    if k < c {
        lemma_closer_is(b, x, n, k + 1, c, end);
    }
}

proof fn lemma_find_is(b: Seq<u8>, x: u8, i: int, c: int, end: int)
    requires
        i <= c <= end,
        c < end ==> b[c] == x,
        forall|j: int| i <= j < c ==> #[trigger] b[j] != x,
    ensures
        find(b, x, i, end) == c,
    decreases c - i,
{
    if i < c {
        lemma_find_is(b, x, i + 1, c, end);
    }
}

/// Where nothing is marked up to `o`, and something is there or the text ends.
proof fn lemma_plain_end_is(b: Seq<u8>, i: int, o: int, end: int)
    requires
        i <= o <= end,
        forall|j: int| i <= j < o ==> mark_at(b, j, end) is None,
        o < end ==> mark_at(b, o, end) is Some,
    ensures
        plain_end(b, i, end) == o,
    decreases o - i,
{
    if i < o {
        lemma_plain_end_is(b, i + 1, o, end);
    }
}

proof fn lemma_lead(b: Seq<u8>, i: int, o: int, end: int, style: Style, reveal: bool)
    requires
        0 <= i <= o <= end <= b.len(),
        forall|j: int| i <= j < o ==> mark_at(b, j, end) is None,
        o < end ==> mark_at(b, o, end) is Some,
    ensures
        spans(b, i, end, style, reveal) == lead(i, o, style) + spans(b, o, end, style, reveal),
{
    if i < o {
        lemma_plain_end_is(b, i + 1, o, end);
        assert(mark_at(b, i, end) is None);
    }
    assert(spans(b, i, end, style, reveal) =~= lead(i, o, style) + spans(b, o, end, style, reveal));
}

proof fn lemma_plain_bytes(b: Seq<u8>, i: int, o: int, end: int)
    requires
        0 <= i <= o <= end <= b.len(),
        forall|j: int| i <= j < o ==> !may_mark(#[trigger] b[j]),
    ensures
        forall|j: int| i <= j < o ==> mark_at(b, j, end) is None,
{
    assert forall|j: int| i <= j < o implies mark_at(b, j, end) is None by {
        assert(!may_mark(b[j]));
    }
}

/// Text without any of the bytes that start a mark is one span, in the style around it.
pub proof fn law_plain_text_is_one_span(b: Seq<u8>, i: int, end: int, style: Style, reveal: bool)
    requires
        0 <= i < end <= b.len(),
        forall|j: int| i <= j < end ==> !may_mark(#[trigger] b[j]),
    ensures
        spans(b, i, end, style, reveal) == seq![text_piece(i, end, style)],
{
    lemma_plain_bytes(b, i, end, end);
    lemma_lead(b, i, end, end, style, reveal);
    assert(spans(b, i, end, style, reveal) =~= seq![text_piece(i, end, style)]);
}

/// Emphasis: delimiters that open at `o` and the first that close them, at `c`, are markers in
/// the style around them, and what stands between is drawn with what the delimiters add: two
/// tildes strike through, two stars or underscores are bold, one is italic. What follows is
/// drawn as before.
pub proof fn law_delimiters_decide_the_emphasis(
    b: Seq<u8>,
    o: int,
    c: int,
    end: int,
    x: u8,
    n: int,
    style: Style,
    reveal: bool,
)
    requires
        end <= b.len(),
        1 <= n <= 2,
        opens(b, o, end, x, n),
        o + n < c < end,
        closes(b, c, end, x, n),
        forall|j: int| o + n < j < c ==> !#[trigger] closes(b, j, end, x, n),
    ensures
        spans(b, o, end, style, reveal) == seq![mark_piece(o, o + n, style, reveal)] + spans(
            b,
            o + n,
            c,
            emphasised(style, x, n),
            reveal,
        ) + seq![mark_piece(c, c + n, style, reveal)] + spans(b, c + n, end, style, reveal),
{
    lemma_closer_is(b, x, n, o + n + 1, c, end);
    assert(crate::inline::is_word(b[o - 1]) == in_word(b[o - 1]));
    assert(mark_at(b, o, end) == pair_at(b, o, end));
    assert(pair_at(b, o, end) is Some);
    let e = match pair_at(b, o, end)->0 {
        Mark::Pair { emphasis, .. } => emphasis,
        _ => Emphasis::Bold,
    };
    assert(style.with_spec(e) == emphasised(style, x, n));
}

/// The same with plain text before and between: the text before is drawn in the style around
/// it, and the text between in that style with the emphasis added, and in no other.
pub proof fn law_emphasised_text(
    b: Seq<u8>,
    i: int,
    o: int,
    c: int,
    end: int,
    x: u8,
    n: int,
    style: Style,
    reveal: bool,
)
    requires
        0 <= i <= o,
        end <= b.len(),
        1 <= n <= 2,
        opens(b, o, end, x, n),
        o + n < c < end,
        closes(b, c, end, x, n),
        forall|j: int| i <= j < o ==> !may_mark(#[trigger] b[j]),
        forall|j: int| o + n <= j < c ==> !may_mark(#[trigger] b[j]),
    ensures
        spans(b, i, end, style, reveal) == lead(i, o, style) + seq![
            mark_piece(o, o + n, style, reveal),
            text_piece(o + n, c, emphasised(style, x, n)),
            mark_piece(c, c + n, style, reveal),
        ] + spans(b, c + n, end, style, reveal),
{
    assert forall|j: int| o + n < j < c implies !#[trigger] closes(b, j, end, x, n) by {
        assert(!may_mark(b[j]));
    }
    law_delimiters_decide_the_emphasis(b, o, c, end, x, n, style, reveal);
    law_plain_text_is_one_span(b, o + n, c, emphasised(style, x, n), reveal);
    lemma_plain_bytes(b, i, o, end);
    lemma_closer_is(b, x, n, o + n + 1, c, end);
    assert(crate::inline::is_word(b[o - 1]) == in_word(b[o - 1]));
    assert(mark_at(b, o, end) is Some);
    lemma_lead(b, i, o, end, style, reveal);
    assert(spans(b, i, end, style, reveal) =~= lead(i, o, style) + seq![
        mark_piece(o, o + n, style, reveal),
        text_piece(o + n, c, emphasised(style, x, n)),
        mark_piece(c, c + n, style, reveal),
    ] + spans(b, c + n, end, style, reveal));
}

/// Code: between two backticks, with something between them, all is text drawn as code and
/// nothing is a mark.
pub proof fn law_code_is_drawn_as_code(
    b: Seq<u8>,
    i: int,
    o: int,
    c: int,
    end: int,
    style: Style,
    reveal: bool,
)
    requires
        0 <= i <= o,
        o + 1 < c < end <= b.len(),
        b[o] == BACKTICK,
        b[c] == BACKTICK,
        forall|j: int| o < j < c ==> #[trigger] b[j] != BACKTICK,
        forall|j: int| i <= j < o ==> !may_mark(#[trigger] b[j]),
    ensures
        spans(b, i, end, style, reveal) == lead(i, o, style) + seq![
            mark_piece(o, o + 1, style, reveal),
            text_piece(o + 1, c, Style { code: true, ..style }),
            mark_piece(c, c + 1, style, reveal),
        ] + spans(b, c + 1, end, style, reveal),
{
    lemma_find_is(b, BACKTICK, o + 1, c, end);
    lemma_plain_bytes(b, i, o, end);
    assert(mark_at(b, o, end) == Some(Mark::Code { close: c }));
    lemma_lead(b, i, o, end, style, reveal);
    assert(spans(b, i, end, style, reveal) =~= lead(i, o, style) + seq![
        mark_piece(o, o + 1, style, reveal),
        text_piece(o + 1, c, Style { code: true, ..style }),
        mark_piece(c, c + 1, style, reveal),
    ] + spans(b, c + 1, end, style, reveal));
}

/// The span of a link's label, or of an image's, with the place of its target.
pub open spec fn label_piece(i: int, l: int, c: int, image: bool, style: Style) -> Piece {
    let (url_start, url_end) = ((l + 2) as usize, c as usize);
    Piece {
        start: i,
        end: l,
        visible: true,
        style,
        role: if image {
            SpanRole::Image { url_start, url_end }
        } else {
            SpanRole::Link { url_start, url_end }
        },
    }
}

/// At `o` stands a label in brackets, which ends at `l`, and right behind it a target in
/// parentheses, which ends at `c`. An image has a `!` before it all.
pub open spec fn is_link(b: Seq<u8>, o: int, l: int, c: int, end: int, image: bool) -> bool {
    let at = if image {
        o + 1
    } else {
        o
    };
    &&& 0 <= o
    &&& at < l
    &&& l + 2 <= c < end <= b.len()
    &&& image ==> b[o] == BANG
    &&& b[at] == BRACKET_OPEN
    &&& b[l] == BRACKET_CLOSE
    &&& b[l + 1] == PAREN_OPEN
    &&& b[c] == PAREN_CLOSE
    &&& forall|j: int| at < j < l ==> #[trigger] b[j] != BRACKET_CLOSE
    &&& forall|j: int| l + 2 <= j < c ==> #[trigger] b[j] != PAREN_CLOSE
}

proof fn lemma_link_mark(b: Seq<u8>, o: int, l: int, c: int, end: int, image: bool)
    requires
        is_link(b, o, l, c, end, image),
    ensures
        mark_at(b, o, end) == Some(
            Mark::Link {
                n: if image {
                    2
                } else {
                    1
                },
                label_end: l,
                close: c,
            },
        ),
{
    let at = if image {
        o + 1
    } else {
        o
    };
    lemma_find_is(b, BRACKET_CLOSE, at + 1, l, end);
    lemma_find_is(b, PAREN_CLOSE, l + 2, c, end);
}

/// A link: the label is shown, and knows where its target stands; the bracket before it, and
/// the bracket and the target behind it, are markers. With a `!` before it, it is an image.
pub proof fn law_link_shows_its_label(
    b: Seq<u8>,
    o: int,
    l: int,
    c: int,
    end: int,
    image: bool,
    style: Style,
    reveal: bool,
)
    requires
        is_link(b, o, l, c, end, image),
    ensures
        ({
            let i = if image {
                o + 2
            } else {
                o + 1
            };
            spans(b, o, end, style, reveal) == seq![
                mark_piece(o, i, style, reveal),
                label_piece(i, l, c, image, style),
                mark_piece(l, c + 1, style, reveal),
            ] + spans(b, c + 1, end, style, reveal)
        }),
{
    lemma_link_mark(b, o, l, c, end, image);
    let (n, i) = if image {
        (2int, o + 2)
    } else {
        (1int, o + 1)
    };
    assert(spans(b, o, end, style, reveal) == link_pieces(o, n, l, c, style, reveal) + spans(
        b,
        c + 1,
        end,
        style,
        reveal,
    ));
    assert(link_pieces(o, n, l, c, style, reveal) =~= seq![
        mark_piece(o, i, style, reveal),
        label_piece(i, l, c, image, style),
        mark_piece(l, c + 1, style, reveal),
    ]);
}

/// Plain text before a link is drawn in the style around it, and the link after it.
pub proof fn law_text_before_a_link(
    b: Seq<u8>,
    i: int,
    o: int,
    l: int,
    c: int,
    end: int,
    image: bool,
    style: Style,
    reveal: bool,
)
    requires
        0 <= i <= o,
        is_link(b, o, l, c, end, image),
        forall|j: int| i <= j < o ==> !may_mark(#[trigger] b[j]),
    ensures
        spans(b, i, end, style, reveal) == lead(i, o, style) + spans(b, o, end, style, reveal),
{
    lemma_link_mark(b, o, l, c, end, image);
    lemma_plain_bytes(b, i, o, end);
    lemma_lead(b, i, o, end, style, reveal);
}

/// Brackets with no parenthesis anywhere behind them are text.
pub proof fn law_brackets_without_target_are_text(
    b: Seq<u8>,
    i: int,
    end: int,
    style: Style,
    reveal: bool,
)
    requires
        0 <= i < end <= b.len(),
        forall|j: int|
            i <= j < end ==> may_mark(#[trigger] b[j]) ==> b[j] == BRACKET_OPEN || b[j] == BANG,
        (forall|j: int| i <= j < end ==> #[trigger] b[j] != PAREN_OPEN) || (forall|j: int|
            i <= j < end ==> #[trigger] b[j] != PAREN_CLOSE) || (forall|j: int|
            i <= j < end ==> #[trigger] b[j] != BRACKET_CLOSE),
    ensures
        spans(b, i, end, style, reveal) == seq![text_piece(i, end, style)],
{
    assert forall|j: int| i <= j < end implies mark_at(b, j, end) is None by {
        assert(may_mark(b[j]) ==> b[j] == BRACKET_OPEN || b[j] == BANG);
        if b[j] == BRACKET_OPEN {
            lemma_no_link(b, i, j, end);
        } else if b[j] == BANG && j + 1 < end {
            lemma_no_link(b, i, j + 1, end);
        }
    }
    lemma_lead(b, i, end, end, style, reveal);
    assert(spans(b, i, end, style, reveal) =~= seq![text_piece(i, end, style)]);
}

proof fn lemma_no_link(b: Seq<u8>, i: int, j: int, end: int)
    requires
        0 <= i <= j < end <= b.len(),
        (forall|k: int| i <= k < end ==> #[trigger] b[k] != PAREN_OPEN) || (forall|k: int|
            i <= k < end ==> #[trigger] b[k] != PAREN_CLOSE) || (forall|k: int|
            i <= k < end ==> #[trigger] b[k] != BRACKET_CLOSE),
    ensures
        link_at(b, j, 1, end) is None,
        link_at(b, j, 2, end) is None,
{
    let l = find(b, BRACKET_CLOSE, j + 1, end);
    lemma_find(b, BRACKET_CLOSE, j + 1, end);
    if l + 2 <= end {
        lemma_find(b, PAREN_CLOSE, l + 2, end);
    }
}

/// No delimiter at `j` opens anything: it is a star, an underscore or a tilde that a space or
/// the end of the text follows, or an underscore inside a word.
pub open spec fn opens_nothing(b: Seq<u8>, j: int, end: int) -> bool {
    ||| !may_mark(b[j])
    ||| (b[j] == STAR || b[j] == UNDERSCORE || b[j] == TILDE) && (j + 1 == end || b[j + 1] == SPACE)
    ||| b[j] == UNDERSCORE && j > 0 && in_word(b[j - 1])
}

/// Stars with spaces behind them and underscores inside words are text like any other.
pub proof fn law_delimiters_that_open_nothing_are_text(
    b: Seq<u8>,
    i: int,
    end: int,
    style: Style,
    reveal: bool,
)
    requires
        0 <= i < end <= b.len(),
        forall|j: int| i <= j < end ==> #[trigger] opens_nothing(b, j, end),
    ensures
        spans(b, i, end, style, reveal) == seq![text_piece(i, end, style)],
{
    assert forall|j: int| i <= j < end implies mark_at(b, j, end) is None by {
        assert(opens_nothing(b, j, end));
        if j > 0 {
            assert(crate::inline::is_word(b[j - 1]) == in_word(b[j - 1]));
        }
    }
    lemma_lead(b, i, end, end, style, reveal);
    assert(spans(b, i, end, style, reveal) =~= seq![text_piece(i, end, style)]);
}

/// A delimiter or a backtick that nothing answers is text: one of them alone marks nothing.
pub proof fn law_lone_delimiter_is_text(
    b: Seq<u8>,
    i: int,
    o: int,
    end: int,
    style: Style,
    reveal: bool,
)
    requires
        0 <= i <= o < end <= b.len(),
        b[o] == STAR || b[o] == UNDERSCORE || b[o] == TILDE || b[o] == BACKTICK,
        forall|j: int| i <= j < end && j != o ==> !may_mark(#[trigger] b[j]),
    ensures
        spans(b, i, end, style, reveal) == seq![text_piece(i, end, style)],
{
    let x = b[o];
    assert forall|j: int| i <= j < end implies mark_at(b, j, end) is None by {
        if j != o {
            assert(!may_mark(b[j]));
        } else {
            if o + 1 < end {
                assert(!may_mark(b[o + 1]));
            }
            lemma_find_is(b, BACKTICK, o + 1, end, end);
            lemma_no_closer(b, x, o + 2, end);
        }
    }
    lemma_lead(b, i, end, end, style, reveal);
    assert(spans(b, i, end, style, reveal) =~= seq![text_piece(i, end, style)]);
}

proof fn lemma_no_closer(b: Seq<u8>, x: u8, k: int, end: int)
    requires
        forall|j: int| k <= j < end ==> #[trigger] b[j] != x,
    ensures
        closer(b, x, 1, k, end) == end,
    decreases end - k,
{
    if k < end {
        assert(b[k] != x);
        lemma_no_closer(b, x, k + 1, end);
    }
}

/// Code between the backtick at `o` and the next, at `c`, with something between them.
pub open spec fn is_code(b: Seq<u8>, o: int, c: int, end: int) -> bool {
    &&& 0 <= o
    &&& o + 1 < c < end
    &&& b[o] == BACKTICK
    &&& b[c] == BACKTICK
    &&& forall|j: int| o < j < c ==> #[trigger] b[j] != BACKTICK
}

/// Emphasis between `n` delimiters that open at `o` and the first that close them, at `c`.
pub open spec fn is_emphasis(b: Seq<u8>, o: int, c: int, end: int, n: int) -> bool {
    &&& 1 <= n <= 2
    &&& opens(b, o, end, b[o], n)
    &&& o + n < c < end
    &&& closes(b, c, end, b[o], n)
    &&& forall|j: int| o + n < j < c ==> !#[trigger] closes(b, j, end, b[o], n)
}

/// Something starts at `o`: code, emphasis, a link or an image.
pub open spec fn starts_mark(b: Seq<u8>, o: int, end: int) -> bool {
    ||| exists|c: int| is_code(b, o, c, end)
    ||| exists|c: int, n: int| is_emphasis(b, o, c, end, n)
    ||| exists|l: int, c: int, image: bool| is_link(b, o, l, c, end, image)
}

proof fn lemma_find_first(b: Seq<u8>, x: u8, i: int, end: int)
    ensures
        i <= end ==> i <= find(b, x, i, end) <= end,
        find(b, x, i, end) < end ==> b[find(b, x, i, end)] == x,
        forall|j: int| i <= j < find(b, x, i, end) ==> #[trigger] b[j] != x,
    decreases end - i,
{
    if i < end && b[i] != x {
        lemma_find_first(b, x, i + 1, end);
    }
}

proof fn lemma_closer_first(b: Seq<u8>, x: u8, n: int, k: int, end: int)
    ensures
        k <= end ==> k <= closer(b, x, n, k, end) <= end,
        closer(b, x, n, k, end) < end ==> closes(b, closer(b, x, n, k, end), end, x, n),
        forall|j: int| k <= j < closer(b, x, n, k, end) ==> !#[trigger] closes(b, j, end, x, n),
    decreases end - k,
{
    if k < end {
        assert(is_closer(b, x, n, k, end) == closes(b, k, end, x, n));
        if !is_closer(b, x, n, k, end) {
            lemma_closer_first(b, x, n, k + 1, end);
        }
    }
}

proof fn lemma_marked_starts(b: Seq<u8>, o: int, end: int)
    requires
        0 <= o < end <= b.len(),
        mark_at(b, o, end) is Some,
    ensures
        starts_mark(b, o, end),
{
    let x = b[o];
    if x == BACKTICK {
        lemma_find_first(b, BACKTICK, o + 1, end);
        assert(is_code(b, o, find(b, BACKTICK, o + 1, end), end));
    } else if x == BRACKET_OPEN || x == BANG {
        let image = x == BANG;
        let at = if image {
            o + 1
        } else {
            o
        };
        lemma_find_first(b, BRACKET_CLOSE, at + 1, end);
        let l = find(b, BRACKET_CLOSE, at + 1, end);
        lemma_find_first(b, PAREN_CLOSE, l + 2, end);
        let c = find(b, PAREN_CLOSE, l + 2, end);
        assert(is_link(b, o, l, c, end, image));
    } else {
        let n = if o + 1 < end && b[o + 1] == x {
            2int
        } else {
            1
        };
        lemma_closer_first(b, x, n, o + n + 1, end);
        let c = closer(b, x, n, o + n + 1, end);
        if o > 0 {
            assert(crate::inline::is_word(b[o - 1]) == in_word(b[o - 1]));
        }
        assert(is_emphasis(b, o, c, end, n));
    }
}

proof fn lemma_start_is_marked(b: Seq<u8>, o: int, end: int)
    requires
        0 <= o < end <= b.len(),
        starts_mark(b, o, end),
    ensures
        mark_at(b, o, end) is Some,
{
    if exists|c: int| is_code(b, o, c, end) {
        let c = choose|c: int| is_code(b, o, c, end);
        lemma_find_is(b, BACKTICK, o + 1, c, end);
    } else if exists|c: int, n: int| is_emphasis(b, o, c, end, n) {
        let (c, n) = choose|c: int, n: int| is_emphasis(b, o, c, end, n);
        lemma_closer_is(b, b[o], n, o + n + 1, c, end);
        if o > 0 {
            assert(crate::inline::is_word(b[o - 1]) == in_word(b[o - 1]));
        }
        assert(mark_at(b, o, end) == pair_at(b, o, end));
    } else {
        let (l, c, image) = choose|l: int, c: int, image: bool| is_link(b, o, l, c, end, image);
        lemma_link_mark(b, o, l, c, end, image);
    }
}

/// Text in which nothing starts is one span in the style around it, up to where something
/// does, or to the end.
pub proof fn law_text_runs_up_to_the_next_mark(
    b: Seq<u8>,
    i: int,
    o: int,
    end: int,
    style: Style,
    reveal: bool,
)
    requires
        0 <= i <= o <= end <= b.len(),
        forall|j: int| i <= j < o ==> !#[trigger] starts_mark(b, j, end),
        o < end ==> starts_mark(b, o, end),
    ensures
        spans(b, i, end, style, reveal) == lead(i, o, style) + spans(b, o, end, style, reveal),
        spans(b, end, end, style, reveal) == Seq::<Piece>::empty(),
{
    assert forall|j: int| i <= j < o implies mark_at(b, j, end) is None by {
        if mark_at(b, j, end) is Some {
            lemma_marked_starts(b, j, end);
        }
    }
    if o < end {
        lemma_start_is_marked(b, o, end);
    }
    lemma_lead(b, i, o, end, style, reveal);
}

} // verus!
