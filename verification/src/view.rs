//! What the editor window shows and does, short of drawing it.
//!
//! Colours, fonts and pixels belong to the application. Which font size a heading gets, how far
//! apart two lines stand, which char of the source a click hits, what the toolbar says and
//! when the window follows the stored size are decided here.

use vstd::prelude::*;
use vstd::string::*;
use vstd::utf8::valid_utf8;

use crate::text;
use crate::block::BlockKind;
use crate::bytes::is_boundary;
use crate::edit::Editor;
use crate::inline::{on_boundaries, Piece, pieces, SpanRole, Style, tiles};
use crate::keys::{Theme, ViewMode};
use crate::render::{Block, law_row_tiles_its_line, Row, row_at};
use crate::session::Session;
use crate::text::{lemma_boundary_above, next_boundary_of};

verus! {

// ---- theme and window -------------------------------------------------------------

/// How often to re-read the OS theme while set to auto, in milliseconds.
///
/// Reading it is a registry or desktop-portal call, far too expensive to do every frame, but
/// the user may flip their system theme while the plugin is open.
pub const SYSTEM_THEME_POLL_MS: u64 = 2000;

/// What the operating system reports of its theme.
#[derive(Clone, Copy, PartialEq, Eq, Debug, Structural)]
pub enum SystemTheme {
    Light,
    Dark,
    /// Nothing, or it could not be asked.
    Unknown,
}

/// Whether the system counts as dark. Anything but a clear "light" does, matching the editor's
/// default appearance rather than flipping to a jarring white.
pub fn system_is_dark(reported: SystemTheme) -> (r: bool)
    ensures
        r == (reported != SystemTheme::Light),
{
    match reported {
        SystemTheme::Light => false,
        _ => true,
    }
}

/// Whether the system has to be asked again. Only the auto setting needs to know what it is
/// doing.
pub fn theme_poll_due(theme: Theme, elapsed_ms: u64) -> (r: bool)
    ensures
        r == (theme == Theme::Auto && elapsed_ms >= SYSTEM_THEME_POLL_MS),
{
    match theme {
        Theme::Auto => elapsed_ms >= SYSTEM_THEME_POLL_MS,
        _ => false,
    }
}

/// Whether to draw dark, and whether that differs from what is applied, so that the visuals
/// are only rebuilt on a change.
pub fn theme_to_apply(theme: Theme, system_dark: bool, applied_dark: Option<bool>) -> (r: (
    bool,
    bool,
))
    ensures
        r.0 == (theme == Theme::Dark || (theme == Theme::Auto && system_dark)),
        r.1 == (applied_dark != Some(r.0)),
{
    let dark = theme.is_dark(system_dark);
    let changed = match applied_dark {
        Some(d) => d != dark,
        None => true,
    };
    (dark, changed)
}

/// What to do about the size of the window.
#[derive(Clone, Copy, PartialEq, Eq, Debug, Structural)]
pub enum SizeStep {
    Nothing,
    /// The window was resized: record its size.
    Adopt(i32, i32),
    /// The stored size changed: ask the window to follow.
    Follow(i32, i32),
}

/// What to do about the size of the window, and the window size to remember.
///
/// Two things can change the size and they must not fight. If the window is not what it was
/// last time, the window is the truth. If it is, but the stored size differs, the window has to
/// follow.
pub open spec fn size_step(
    window: (i32, i32),
    stored: (i32, i32),
    last_seen: Option<(i32, i32)>,
) -> (SizeStep, Option<(i32, i32)>) {
    if window.0 <= 0 || window.1 <= 0 {
        (SizeStep::Nothing, last_seen)
    } else if last_seen != Some(window) {
        (
            if stored != window {
                SizeStep::Adopt(window.0, window.1)
            } else {
                SizeStep::Nothing
            },
            Some(window),
        )
    } else if stored != window {
        (SizeStep::Follow(stored.0, stored.1), last_seen)
    } else {
        (SizeStep::Nothing, last_seen)
    }
}

/// Keep the window and the stored size in step, in both directions.
pub fn sync_window_size(
    window: (i32, i32),
    stored: (i32, i32),
    last_seen: Option<(i32, i32)>,
) -> (r: (SizeStep, Option<(i32, i32)>))
    ensures
        r == size_step(window, stored, last_seen),
{
    let (w, h) = window;
    let (sw, sh) = stored;
    if w <= 0 || h <= 0 {
        return (SizeStep::Nothing, last_seen);
    }
    let seen = match last_seen {
        Some((lw, lh)) => lw == w && lh == h,
        None => false,
    };
    let same = sw == w && sh == h;
    if !seen {
        let step = if same {
            SizeStep::Nothing
        } else {
            SizeStep::Adopt(w, h)
        };
        return (step, Some(window));
    }
    if same {
        (SizeStep::Nothing, last_seen)
    } else {
        (SizeStep::Follow(sw, sh), last_seen)
    }
}

/// A window size once adopted stays put: the next look at it finds nothing to do. The same
/// holds once the window has followed the stored size.
pub proof fn law_window_and_store_settle(
    window: (i32, i32),
    stored: (i32, i32),
    last_seen: Option<(i32, i32)>,
)
    requires
        window.0 > 0,
        window.1 > 0,
    ensures
        ({
            let (step, seen) = size_step(window, stored, last_seen);
            let now = match step {
                SizeStep::Adopt(w, h) => (w, h),
                _ => stored,
            };
            step !is Follow ==> size_step(window, now, seen) == (SizeStep::Nothing, seen)
        }),
{
}

// ---- toolbar ----------------------------------------------------------------------

/// A channel of the toolbar's background: a step away from the page, in whichever direction
/// the theme leaves room.
pub fn toolbar_channel(channel: u8, dark: bool) -> (r: u8)
    ensures
        dark ==> r == if channel <= 237 {
            channel + 18
        } else {
            255
        },
        !dark ==> r == if channel >= 16 {
            channel - 16
        } else {
            0
        },
{
    if dark {
        channel.saturating_add(18)
    } else {
        channel.saturating_sub(16)
    }
}

/// Whether the toolbar marks the document as unsaved. Only a note backed by a file can be out
/// of step with one; notes that live solely in plugin state are always saved with the project.
pub fn shows_unsaved(editor: &Editor) -> (r: bool)
    ensures
        r == (editor@.file is Some && editor@.dirty),
{
    editor.file.is_some() && editor.dirty
}

/// The label of the Save button.
pub fn save_label(unsaved: bool) -> (r: &'static str)
    ensures
        r@ == if unsaved {
            "Save *"@
        } else {
            "Save"@
        },
{
    if unsaved {
        "Save *"
    } else {
        "Save"
    }
}

/// The label of the button that switches the view, which names the other one.
pub fn mode_label(mode: ViewMode) -> (r: &'static str)
    ensures
        r@ == match mode {
            ViewMode::Wysiwyg => "Markdown source"@,
            ViewMode::Raw => "Formatted"@,
        },
{
    match mode {
        ViewMode::Wysiwyg => "Markdown source",
        ViewMode::Raw => "Formatted",
    }
}

/// The label of the theme button. Auto shows what it currently resolves to, so the button never
/// leaves you guessing which way it went.
pub fn theme_label(theme: Theme, system_dark: bool) -> (r: &'static str)
    ensures
        r@ == match theme {
            Theme::Light => "Theme: light"@,
            Theme::Dark => "Theme: dark"@,
            Theme::Auto => if system_dark {
                "Theme: auto (dark)"@
            } else {
                "Theme: auto (light)"@
            },
        },
{
    match theme {
        Theme::Light => "Theme: light",
        Theme::Dark => "Theme: dark",
        Theme::Auto => {
            if system_dark {
                "Theme: auto (dark)"
            } else {
                "Theme: auto (light)"
            }
        },
    }
}

// ---- lines ------------------------------------------------------------------------

/// Vertical space between two consecutive lines.
#[derive(Clone, Copy, PartialEq, Eq, Debug, Structural)]
pub enum Gap {
    /// They belong together.
    Joined,
    /// Items of one list sit closer together than separate elements.
    Item,
    /// One element ends and the next begins.
    Element,
}

/// A list item.
pub open spec fn is_item(kind: BlockKind) -> bool {
    kind is Bullet || kind is Numbered
}

/// Two lines of one fenced code block.
pub open spec fn same_code(a: BlockKind, b: BlockKind) -> bool {
    (a is Code && (b is Code || b is Fence)) || (a is Fence && b is Code)
}

/// The gap between two lines. A blank line is a line's worth of space already; lines of one
/// blockquote, of one paragraph and of one code block belong together.
pub open spec fn gap_between(a: BlockKind, a_depth: nat, b: BlockKind, b_depth: nat) -> Gap {
    if a is Blank || b is Blank {
        Gap::Joined
    } else if a_depth > 0 && a_depth == b_depth {
        Gap::Joined
    } else if (a is Paragraph && b is Paragraph) || same_code(a, b) {
        Gap::Joined
    } else if is_item(a) && is_item(b) {
        Gap::Item
    } else {
        Gap::Element
    }
}

/// Vertical space to leave between two consecutive lines.
///
/// One line is not one block: a wrapped paragraph, the lines of a fenced code block and the
/// items of a list are each several lines belonging together, and only get separated where one
/// element ends and the next begins.
pub fn block_gap(previous: &Block, current: &Block) -> (r: Gap)
    ensures
        r == gap_between(
            previous.kind,
            previous.quote_depth as nat,
            current.kind,
            current.quote_depth as nat,
        ),
{
    match (previous.kind, current.kind) {
        (BlockKind::Blank, _) => Gap::Joined,
        (_, BlockKind::Blank) => Gap::Joined,
        (a, b) => {
            if previous.quote_depth > 0 && previous.quote_depth == current.quote_depth {
                return Gap::Joined;
            }
            match (a, b) {
                (BlockKind::Paragraph, BlockKind::Paragraph) => Gap::Joined,
                (BlockKind::Code, BlockKind::Code) => Gap::Joined,
                (BlockKind::Fence { .. }, BlockKind::Code) => Gap::Joined,
                (BlockKind::Code, BlockKind::Fence { .. }) => Gap::Joined,
                (BlockKind::Bullet { .. }, BlockKind::Bullet { .. }) => Gap::Item,
                (BlockKind::Bullet { .. }, BlockKind::Numbered { .. }) => Gap::Item,
                (BlockKind::Numbered { .. }, BlockKind::Bullet { .. }) => Gap::Item,
                (BlockKind::Numbered { .. }, BlockKind::Numbered { .. }) => Gap::Item,
                _ => Gap::Element,
            }
        },
    }
}

/// The font of a line.
#[derive(Clone, Copy, PartialEq, Eq, Debug, Structural)]
pub struct LineFont {
    /// Size in tenths of a point.
    pub tenths: u32,
    pub monospace: bool,
}

/// The font of a line: headings are larger, the more so the higher they stand, and code is set
/// in a monospace face.
pub fn base_font(kind: &BlockKind) -> (r: LineFont)
    ensures
        r.tenths == match *kind {
            BlockKind::Heading(level) => if level == 1 {
                280
            } else if level == 2 {
                230
            } else if level == 3 {
                200
            } else if level == 4 {
                180
            } else if level == 5 {
                165
            } else if level == 6 {
                155
            } else {
                150int
            },
            _ => 150int,
        },
        r.monospace == (*kind is Code || *kind is Fence),
{
    let tenths: u32 = match kind {
        BlockKind::Heading(level) => {
            let level: u8 = *level;
            if level == 1 {
                280
            } else if level == 2 {
                230
            } else if level == 3 {
                200
            } else if level == 4 {
                180
            } else if level == 5 {
                165
            } else if level == 6 {
                155
            } else {
                150
            }
        },
        _ => 150,
    };
    let monospace = match kind {
        BlockKind::Code => true,
        BlockKind::Fence { .. } => true,
        _ => false,
    };
    LineFont { tenths, monospace }
}

/// What is drawn before a line in place of its hidden marker.
#[derive(Clone, Copy, PartialEq, Eq, Debug, Structural)]
pub enum Glyph {
    Empty,
    /// A checkbox, ticked or not.
    Checkbox(bool),
    Bullet,
    Number(u64),
}

/// What to draw before a line. In raw mode the marker text itself is shown instead, so no glyph
/// is drawn.
pub fn line_glyph(kind: &BlockKind, raw: bool) -> (r: Glyph)
    ensures
        r == if raw {
            Glyph::Empty
        } else {
            match (*kind, kind.checked_spec()) {
                (_, Some(done)) => Glyph::Checkbox(done),
                (BlockKind::Bullet { .. }, None) => Glyph::Bullet,
                (BlockKind::Numbered { number, .. }, None) => Glyph::Number(number),
                _ => Glyph::Empty,
            }
        },
{
    if raw {
        return Glyph::Empty;
    }
    match kind.checked() {
        Some(done) => Glyph::Checkbox(done),
        None => match kind {
            BlockKind::Bullet { .. } => Glyph::Bullet,
            BlockKind::Numbered { number, .. } => Glyph::Number(*number),
            _ => Glyph::Empty,
        },
    }
}

/// The colour of a span, by what it is.
#[derive(Clone, Copy, PartialEq, Eq, Debug, Structural)]
pub enum Tone {
    /// The colour of the line.
    Base,
    /// Stronger: there is no bold typeface, so bold is drawn the way emphasis is.
    Strong,
    /// Markdown punctuation, dimmed when revealed.
    Dim,
    /// A link.
    Link,
}

/// How a span is drawn.
#[derive(Clone, Copy, PartialEq, Eq, Debug, Structural)]
pub struct SpanLook {
    /// Monospace, a point smaller, on a faint wash.
    pub code: bool,
    pub italics: bool,
    pub strikethrough: bool,
    pub underline: bool,
    pub tone: Tone,
}

/// How a span is drawn. A link's colour goes before a marker's, and that before bold.
pub fn span_look(style: &Style, role: &SpanRole) -> (r: SpanLook)
    ensures
        r.code == style.code,
        r.italics == style.italic,
        r.strikethrough == style.strike,
        r.underline == (*role is Link || *role is Image),
        r.tone == if *role is Link || *role is Image {
            Tone::Link
        } else if *role is Marker {
            Tone::Dim
        } else if style.bold {
            Tone::Strong
        } else {
            Tone::Base
        },
{
    let link = match role {
        SpanRole::Link { .. } => true,
        SpanRole::Image { .. } => true,
        _ => false,
    };
    let punctuation = match role {
        SpanRole::Marker => true,
        _ => false,
    };
    SpanLook {
        code: style.code,
        italics: style.italic,
        strikethrough: style.strike,
        underline: link,
        tone: if link {
            Tone::Link
        } else if punctuation {
            Tone::Dim
        } else if style.bold {
            Tone::Strong
        } else {
            Tone::Base
        },
    }
}

// ---- clicks -----------------------------------------------------------------------

/// Where each char from `i` up to `end` starts.
pub open spec fn char_starts(b: Seq<u8>, i: int, end: int) -> Seq<int>
    decreases end - i,
{
    let next = next_boundary_of(b, i);
    if i >= end || next <= i {
        Seq::empty()
    } else if next >= end {
        seq![i]
    } else {
        seq![i] + char_starts(b, next, end)
    }
}

/// Where each char that the pieces show starts.
pub open spec fn shown_starts(b: Seq<u8>, p: Seq<Piece>) -> Seq<int>
    decreases p.len(),
{
    if p.len() == 0 {
        Seq::empty()
    } else {
        shown_starts(b, p.drop_last()) + if p.last().visible {
            char_starts(b, p.last().start, p.last().end)
        } else {
            Seq::empty()
        }
    }
}

/// Where each char that a block shows starts.
pub open spec fn row_starts(b: Seq<u8>, r: Row) -> Seq<int> {
    (if r.marker_visible {
        char_starts(b, r.marker_start, r.marker_end)
    } else {
        Seq::empty()
    }) + shown_starts(b, r.spans)
}

/// The source offset of each char position on a drawn line, and of its end. An empty line still
/// has one position to click at.
pub open spec fn row_map(b: Seq<u8>, r: Row) -> Seq<int> {
    let starts = row_starts(b, r);
    (if starts.len() == 0 {
        seq![r.start]
    } else {
        starts
    }).push(r.end)
}

/// Offsets as mathematics.
pub open spec fn offsets(v: Seq<usize>) -> Seq<int> {
    Seq::new(v.len(), |i: int| v[i] as int)
}

/// The first position whose offset is at or past the caret, or the last.
pub open spec fn first_at_or_past(map: Seq<int>, caret: int) -> int
    decreases map.len(),
{
    if map.len() <= 1 || map[0] >= caret {
        0
    } else {
        1 + first_at_or_past(map.drop_first(), caret)
    }
}

/// Append where each char from `start` up to `end` starts.
fn push_starts(map: &mut Vec<usize>, src: &str, start: usize, end: usize)
    requires
        is_boundary(src.spec_bytes(), start as int),
        is_boundary(src.spec_bytes(), end as int),
        start <= end,
    ensures
        offsets(final(map)@) == offsets(old(map)@) + char_starts(
            src.spec_bytes(),
            start as int,
            end as int,
        ),
{
    let ghost b = src.spec_bytes();
    let ghost target = offsets(map@) + char_starts(b, start as int, end as int);
    let mut i: usize = start;
    proof {
        crate::bytes::lemma_str_valid(src@);
    }
    while i < end
        invariant
            start <= i <= end,
            b == src.spec_bytes(),
            valid_utf8(b),
            is_boundary(b, i as int),
            is_boundary(b, end as int),
            target == offsets(map@) + char_starts(b, i as int, end as int),
        decreases end - i,
    {
        let ghost before = map@;
        proof {
            lemma_boundary_above(b, i + 1);
        }
        map.push(i);
        let next: usize = text::next_boundary(src, i);
        proof {
            assert(offsets(map@) =~= offsets(before) + seq![i as int]);
            assert(next >= end ==> char_starts(b, next as int, end as int) =~= Seq::<int>::empty());
            assert(char_starts(b, i as int, end as int) =~= seq![i as int] + char_starts(
                b,
                next as int,
                end as int,
            ));
            assert(offsets(before) + (seq![i as int] + char_starts(b, next as int, end as int))
                =~= offsets(map@) + char_starts(b, next as int, end as int));
        }
        i = next;
    }
    proof {
        assert(offsets(map@) + Seq::<int>::empty() =~= offsets(map@));
    }
}

/// The source offset of each char position on a drawn line, so a click can be mapped back onto
/// the document.
pub fn line_map(block: &Block, src: &str) -> (r: Vec<usize>)
    requires
        on_boundaries(src.spec_bytes(), block@.spans),
        is_boundary(src.spec_bytes(), block@.marker_start),
        is_boundary(src.spec_bytes(), block@.marker_end),
        block@.marker_start <= block@.marker_end,
    ensures
        offsets(r@) == row_map(src.spec_bytes(), block@),
{
    let ghost b = src.spec_bytes();
    let ghost p = block@.spans;
    let mut map: Vec<usize> = Vec::new();
    proof {
        assert(offsets(map@) =~= Seq::<int>::empty());
    }
    if block.marker_visible {
        push_starts(&mut map, src, block.marker.start, block.marker.end);
        proof {
            assert(offsets(map@) =~= char_starts(b, block@.marker_start, block@.marker_end));
        }
    }
    let ghost head = offsets(map@);
    let mut i: usize = 0;
    proof {
        assert(p.subrange(0, 0) =~= Seq::<Piece>::empty());
        assert(head + Seq::<int>::empty() =~= head);
    }
    while i < block.spans.len()
        invariant
            i <= block.spans@.len(),
            b == src.spec_bytes(),
            p == pieces(block.spans@),
            on_boundaries(b, p),
            offsets(map@) == head + shown_starts(b, p.subrange(0, i as int)),
        decreases block.spans@.len() - i,
    {
        let ghost done = offsets(map@);
        proof {
            assert(p.subrange(0, i + 1).drop_last() =~= p.subrange(0, i as int));
            assert(p.subrange(0, i + 1).last() == p[i as int]);
            assert(p[i as int] == block.spans@[i as int]@);
        }
        if block.spans[i].visible {
            push_starts(&mut map, src, block.spans[i].range.start, block.spans[i].range.end);
        }
        proof {
            assert(offsets(map@) =~= head + shown_starts(b, p.subrange(0, i + 1)));
        }
        i += 1;
    }
    proof {
        assert(p.subrange(0, p.len() as int) =~= p);
        assert(offsets(map@) == row_starts(b, block@));
    }
    if map.len() == 0 {
        map.push(block.range.start);
        proof {
            assert(offsets(map@) =~= seq![block@.start]);
        }
    }
    let ghost before = map@;
    map.push(block.range.end);
    proof {
        assert(offsets(map@) =~= offsets(before).push(block@.end));
    }
    map
}

/// The char position of the caret on a drawn line. None if it stands on another.
pub fn caret_position(block: &Block, map: &Vec<usize>, caret: usize) -> (r: Option<usize>)
    requires
        map@.len() > 0,
    ensures
        match r {
            Some(k) => {
                &&& block@.start <= caret <= block@.end
                &&& k == first_at_or_past(offsets(map@), caret as int)
            },
            None => !(block@.start <= caret <= block@.end),
        },
{
    if caret < block.range.start || caret > block.range.end {
        return None;
    }
    let ghost all = offsets(map@);
    let mut k: usize = 0;
    proof {
        assert(all.subrange(0, all.len() as int) =~= all);
    }
    while k < map.len() - 1 && map[k] < caret
        invariant
            k < map@.len(),
            all == offsets(map@),
            first_at_or_past(all, caret as int) == k + first_at_or_past(
                all.subrange(k as int, all.len() as int),
                caret as int,
            ),
        decreases map@.len() - k,
    {
        proof {
            let rest = all.subrange(k as int, all.len() as int);
            assert(rest.drop_first() =~= all.subrange(k + 1, all.len() as int));
            assert(rest[0] == map@[k as int]);
        }
        k += 1;
    }
    proof {
        let rest = all.subrange(k as int, all.len() as int);
        assert(rest[0] == map@[k as int]);
    }
    Some(k)
}

/// The source offset of a char position, taken no further than the last. None if there is no
/// position at all.
pub fn offset_at(map: &Vec<usize>, index: usize) -> (r: Option<usize>)
    ensures
        match r {
            Some(offset) => {
                &&& map@.len() > 0
                &&& offset == map@[if index < map@.len() {
                    index as int
                } else {
                    map@.len() - 1
                }]
            },
            None => map@.len() == 0,
        },
{
    if map.len() == 0 {
        return None;
    }
    let last: usize = map.len() - 1;
    Some(map[if index < last {
        index
    } else {
        last
    }])
}

impl Session {
    /// What a frame's clicks come to: a ticked box goes before a moved caret.
    pub open spec fn clicked(self, toggled: Option<nat>, offset: Option<int>) -> Session {
        match (toggled, offset) {
            (Some(line), _) => self.checkbox_toggled(line).0,
            (None, Some(at)) => self.caret_at(at),
            (None, None) => self,
        }
    }
}

/// Take in what was clicked: a checkbox on a line, or a place in the text.
pub fn apply_clicks(editor: &mut Editor, toggled: Option<usize>, offset: Option<usize>)
    requires
        old(editor)@.wf(),
    ensures
        final(editor)@ == old(editor)@.clicked(
            match toggled {
                Some(line) => Some(line as nat),
                None => None,
            },
            match offset {
                Some(at) => Some(at as int),
                None => None,
            },
        ),
        final(editor)@.wf(),
{
    match toggled {
        Some(line) => {
            editor.toggle_checkbox(line);
        },
        None => match offset {
            Some(at) => {
                editor.set_caret(at);
            },
            None => {},
        },
    }
}

// ---- what clicks can hit ------------------------------------------------------------

/// Chars start on boundaries, between where the text starts and where it ends.
proof fn lemma_char_starts(b: Seq<u8>, i: int, end: int, k: int)
    requires
        valid_utf8(b),
        is_boundary(b, i),
        is_boundary(b, end),
        0 <= k < char_starts(b, i, end).len(),
    ensures
        i <= char_starts(b, i, end)[k] < end,
        is_boundary(b, char_starts(b, i, end)[k]),
    decreases end - i,
{
    lemma_boundary_above(b, i + 1);
    let next = next_boundary_of(b, i);
    if k > 0 {
        if next <= end {
            lemma_char_starts(b, next, end, k - 1);
        }
    }
}

proof fn lemma_shown_starts(b: Seq<u8>, p: Seq<Piece>, from: int, to: int, k: int)
    requires
        valid_utf8(b),
        on_boundaries(b, p),
        forall|j: int| 0 <= j < p.len() ==> from <= (#[trigger] p[j]).start && p[j].end <= to,
        0 <= k < shown_starts(b, p).len(),
    ensures
        from <= shown_starts(b, p)[k] <= to,
        is_boundary(b, shown_starts(b, p)[k]),
    decreases p.len(),
{
    let before = shown_starts(b, p.drop_last());
    if k < before.len() {
        lemma_shown_starts(b, p.drop_last(), from, to, k);
    } else {
        lemma_char_starts(b, p.last().start, p.last().end, k - before.len());
    }
}

pub proof fn lemma_tiles_within(p: Seq<Piece>, from: int, to: int)
    requires
        tiles(p, from, to),
    ensures
        from <= to,
        forall|j: int| 0 <= j < p.len() ==> from <= (#[trigger] p[j]).start && p[j].end <= to,
    decreases p.len(),
{
    if p.len() > 0 {
        let rest = p.drop_first();
        lemma_tiles_within(rest, p[0].end, to);
        assert forall|j: int| 0 <= j < p.len() implies from <= (#[trigger] p[j]).start && p[j].end
            <= to by {
            if j > 0 {
                assert(rest[j - 1] == p[j]);
            }
        }
    }
}

/// Wherever a drawn line is clicked, the caret lands on that line, on a char boundary.
pub proof fn law_clicks_land_on_their_line(
    b: Seq<u8>,
    index: nat,
    start: int,
    end: int,
    inside: bool,
    reveal: bool,
    k: int,
)
    requires
        valid_utf8(b),
        is_boundary(b, start),
        is_boundary(b, end),
        start <= end,
        0 <= k < row_map(b, row_at(b, index, start, end, inside, reveal)).len(),
    ensures
        ({
            let at = row_map(b, row_at(b, index, start, end, inside, reveal))[k];
            start <= at <= end && is_boundary(b, at)
        }),
{
    let r = row_at(b, index, start, end, inside, reveal);
    law_row_tiles_its_line(b, index, start, end, inside, reveal);
    lemma_tiles_within(r.spans, r.marker_end, end);
    let starts = row_starts(b, r);
    let head = if r.marker_visible {
        char_starts(b, r.marker_start, r.marker_end)
    } else {
        Seq::empty()
    };
    if k < starts.len() {
        if k < head.len() {
            lemma_char_starts(b, r.marker_start, r.marker_end, k);
        } else {
            lemma_shown_starts(b, r.spans, r.marker_end, end, k - head.len());
        }
    }
}

/// The caret is drawn before the first char that starts at or past it, or at the end of the
/// line.
pub proof fn law_caret_is_drawn_where_it_stands(map: Seq<int>, caret: int)
    requires
        map.len() > 0,
    ensures
        ({
            let i = first_at_or_past(map, caret);
            &&& 0 <= i < map.len()
            &&& forall|j: int| 0 <= j < i ==> #[trigger] map[j] < caret
            &&& i == map.len() - 1 || map[i] >= caret
        }),
    decreases map.len(),
{
    if map.len() > 1 && map[0] < caret {
        let rest = map.drop_first();
        law_caret_is_drawn_where_it_stands(rest, caret);
        let i = first_at_or_past(rest, caret);
        assert forall|j: int| 0 <= j < i + 1 implies #[trigger] map[j] < caret by {
            if j > 0 {
                assert(rest[j - 1] == map[j]);
            }
        }
        assert(rest[i] == map[i + 1]);
    }
}

/// A window with no size yet is left alone. A window that was resized since the last look is
/// what counts, and its size is stored; one that was not takes on the stored size.
pub proof fn law_last_resize_counts(
    window: (i32, i32),
    stored: (i32, i32),
    last_seen: Option<(i32, i32)>,
)
    ensures
        window.0 <= 0 || window.1 <= 0 ==> size_step(window, stored, last_seen) == (
            SizeStep::Nothing,
            last_seen,
        ),
        window.0 > 0 && window.1 > 0 ==> {
            let (step, seen) = size_step(window, stored, last_seen);
            &&& seen == Some(window)
            &&& step is Nothing <==> stored == window
            &&& step is Adopt <==> stored != window && last_seen != Some(window)
            &&& step matches SizeStep::Adopt(w, h) ==> (w, h) == window
            &&& step matches SizeStep::Follow(w, h) ==> (w, h) == stored
        },
{
}

/// Which blocks stand close together: any two with a blank line for one of them, two at the same
/// depth of quoting, two paragraphs, and the parts of a code block. Two list items stand a
/// little apart, and all else further.
pub proof fn law_gaps(a: BlockKind, a_depth: nat, b: BlockKind, b_depth: nat)
    ensures
        ({
            let gap = gap_between(a, a_depth, b, b_depth);
            let quoted = a_depth > 0 && a_depth == b_depth;
            let items = (a is Bullet || a is Numbered) && (b is Bullet || b is Numbered);
            let code = (a is Code && b is Code) || (a is Fence && b is Code) || (a is Code
                && b is Fence);
            &&& gap is Joined <==> a is Blank || b is Blank || quoted || (a is Paragraph
                && b is Paragraph) || code
            &&& gap is Item <==> items && !quoted
        }),
{
}

/// A click on a task box ticks or unticks it, and any other puts the caret where it landed.
pub proof fn law_click(s: Session, line: nat, at: int)
    ensures
        s.clicked(Some(line), None) == s.checkbox_toggled(line).0,
        s.clicked(Some(line), Some(at)) == s.checkbox_toggled(line).0,
        s.clicked(None, None) == s,
        is_boundary(s.text, at) ==> {
            let t = s.clicked(None, Some(at));
            t.caret == at && t.anchor == at && t.text == s.text
        },
{
}

} // verus!
