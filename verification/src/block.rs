//! The line grammar: blockquote prefixes, list markers, headings and code fences.
//!
//! Markers are ASCII, so the grammar is stated over the bytes of a line.

use vstd::prelude::*;
use vstd::string::*;
use vstd::utf8::valid_utf8;

use crate::ascii::{
    BACKTICK, BRACKET_CLOSE, BRACKET_OPEN, DASH, DOT, GREATER, HASH, LOWER_X, NINE, PAREN_CLOSE,
    PLUS, SPACE, STAR, TILDE, UPPER_X, ZERO,
};
use crate::bytes::{is_boundary, lemma_slice_valid, lemma_str_valid};
use crate::decimal::{
    digit_run, digits_value, is_digit, lemma_digit_run, lemma_digit_run_is, lemma_nine_digits,
};
use crate::text::{
    indent_len, indent_width, is_blank, lemma_after_ascii, lemma_indent_len, lemma_indent_len_is,
    lemma_skip_forward, skip_forward, step_forward,
};

verus! {

/// What a line is.
#[derive(Clone, Copy, PartialEq, Eq, Debug, Structural)]
pub enum BlockKind {
    /// Nothing but white space.
    Blank,
    Paragraph,
    /// A heading of level one to six.
    Heading(u8),
    /// A bulleted item, `indent` bytes in, with a task box or without.
    Bullet { indent: usize, checked: Option<bool> },
    /// A numbered item, `indent` bytes in, with a task box or without.
    Numbered { indent: usize, number: u64, checked: Option<bool> },
    /// A line that opens or closes a code block.
    Fence { open: bool },
    /// A line inside a code block.
    Code,
}

impl BlockKind {
    /// How far a list item is indented; zero for anything else.
    pub open spec fn indent_spec(self) -> usize {
        match self {
            BlockKind::Bullet { indent, .. } => indent,
            BlockKind::Numbered { indent, .. } => indent,
            _ => 0,
        }
    }

    /// The state of a list item's task box, if it has one.
    pub open spec fn checked_spec(self) -> Option<bool> {
        match self {
            BlockKind::Bullet { checked, .. } => checked,
            BlockKind::Numbered { checked, .. } => checked,
            _ => None,
        }
    }

    /// How far a list item is indented; zero for anything else.
    pub fn indent(&self) -> (r: usize)
        ensures
            r == self.indent_spec(),
    {
        match self {
            BlockKind::Bullet { indent, .. } => *indent,
            BlockKind::Numbered { indent, .. } => *indent,
            _ => 0,
        }
    }

    /// The state of a list item's task box, if it has one.
    pub fn checked(&self) -> (r: Option<bool>)
        ensures
            r == self.checked_spec(),
    {
        match self {
            BlockKind::Bullet { checked, .. } => *checked,
            BlockKind::Numbered { checked, .. } => *checked,
            _ => None,
        }
    }
}

/// How many spaces `b` starts with.
pub open spec fn space_run(b: Seq<u8>) -> int
    decreases b.len(),
{
    if b.len() == 0 || b[0] != SPACE {
        0
    } else {
        1 + space_run(b.drop_first())
    }
}

/// The bytes of `b` from `i` on.
pub open spec fn tail(b: Seq<u8>, i: int) -> Seq<u8> {
    b.subrange(i, b.len() as int)
}

/// Length of one quote mark at the start of `b`: at most three spaces, a `>`, and the space
/// after it if there is one. Zero if there is none.
pub open spec fn quote_mark(b: Seq<u8>) -> int {
    let ws = space_run(b);
    if ws <= 3 && ws < b.len() && b[ws] == GREATER {
        if ws + 1 < b.len() && b[ws + 1] == SPACE {
            ws + 2
        } else {
            ws + 1
        }
    } else {
        0
    }
}

/// Length of the quote marks that `b` starts with.
pub open spec fn quote_len(b: Seq<u8>) -> int
    decreases b.len(),
{
    let k = quote_mark(b);
    if 0 < k <= b.len() {
        k + quote_len(tail(b, k))
    } else {
        0
    }
}

/// How many quote marks `b` starts with.
pub open spec fn quote_depth(b: Seq<u8>) -> nat
    decreases b.len(),
{
    let k = quote_mark(b);
    if 0 < k <= b.len() {
        1 + quote_depth(tail(b, k))
    } else {
        0
    }
}

/// The task box at offset `at`: `[ ] ` is open, `[x] ` and `[X] ` are ticked.
pub open spec fn box_at(b: Seq<u8>, at: int) -> Option<bool> {
    if at + 4 <= b.len() && b[at] == BRACKET_OPEN && b[at + 2] == BRACKET_CLOSE && b[at + 3] == SPACE {
        if b[at + 1] == SPACE {
            Some(false)
        } else if b[at + 1] == LOWER_X || b[at + 1] == UPPER_X {
            Some(true)
        } else {
            None
        }
    } else {
        None
    }
}

/// Offset past the task box at `at`, or `at` itself if there is none.
pub open spec fn past_box(b: Seq<u8>, at: int) -> int {
    if box_at(b, at) is Some {
        at + 4
    } else {
        at
    }
}

/// A bullet and its space stand at `at`.
pub open spec fn bullet_at(b: Seq<u8>, at: int) -> bool {
    at + 2 <= b.len() && (b[at] == DASH || b[at] == STAR || b[at] == PLUS) && b[at + 1] == SPACE
}

/// A number of one to nine digits, its `.` or `)`, and its space stand at `at`.
pub open spec fn ordinal_at(b: Seq<u8>, at: int) -> bool {
    let d = digit_run(tail(b, at));
    1 <= d <= 9 && at + d + 2 <= b.len() && (b[at + d] == DOT || b[at + d] == PAREN_CLOSE) && b[at + d
        + 1] == SPACE
}

/// The list marker `b` starts with: its length, indent and task box included, and what it
/// makes of the line.
pub open spec fn list_marker_of(b: Seq<u8>) -> Option<(int, BlockKind)> {
    let ws = indent_len(b);
    if bullet_at(b, ws) {
        Some(
            (
                past_box(b, ws + 2),
                BlockKind::Bullet { indent: ws as usize, checked: box_at(b, ws + 2) },
            ),
        )
    } else if ordinal_at(b, ws) {
        let d = digit_run(tail(b, ws));
        Some(
            (
                past_box(b, ws + d + 2),
                BlockKind::Numbered {
                    indent: ws as usize,
                    number: digits_value(b.subrange(ws, ws + d)) as u64,
                    checked: box_at(b, ws + d + 2),
                },
            ),
        )
    } else {
        None
    }
}

/// How many `#` `b` starts with.
pub open spec fn hash_run(b: Seq<u8>) -> int
    decreases b.len(),
{
    if b.len() == 0 || b[0] != HASH {
        0
    } else {
        1 + hash_run(b.drop_first())
    }
}

/// The heading marker `b` starts with: its length, and the heading's level. At most three
/// spaces, one to six `#`, one space.
pub open spec fn heading_of(b: Seq<u8>) -> Option<(int, u8)> {
    let ws = space_run(b);
    let hashes = hash_run(tail(b, ws));
    if ws <= 3 && 1 <= hashes <= 6 && ws + hashes < b.len() && b[ws + hashes] == SPACE {
        Some((ws + hashes + 1, hashes as u8))
    } else {
        None
    }
}

/// Where the first char that is not white space starts.
pub open spec fn first_ink(b: Seq<u8>) -> int {
    skip_forward(b, 0, true)
}

/// A code fence: three backticks or three tildes after any white space.
pub open spec fn fence_line(b: Seq<u8>) -> bool {
    let i = first_ink(b);
    i + 3 <= b.len() && (b[i] == BACKTICK || b[i] == TILDE) && b[i + 1] == b[i] && b[i + 2] == b[i]
}

// ---- facts about markers ----------------------------------------------------

/// A run of spaces is made of spaces and ends where they end.
pub proof fn lemma_space_run(b: Seq<u8>)
    ensures
        0 <= space_run(b) <= b.len(),
        forall|i: int| 0 <= i < space_run(b) ==> #[trigger] b[i] == SPACE,
        space_run(b) < b.len() ==> b[space_run(b)] != SPACE,
    decreases b.len(),
{
    if b.len() > 0 && b[0] == SPACE {
        let rest = b.drop_first();
        lemma_space_run(rest);
        assert forall|i: int| 0 <= i < space_run(b) implies #[trigger] b[i] == SPACE by {
            if i > 0 {
                assert(rest[i - 1] == b[i]);
            }
        }
        if space_run(b) < b.len() {
            assert(rest[space_run(rest)] == b[space_run(b)]);
        }
    }
}

/// A run of `#` is made of `#` and ends where they end.
pub proof fn lemma_hash_run(b: Seq<u8>)
    ensures
        0 <= hash_run(b) <= b.len(),
        forall|i: int| 0 <= i < hash_run(b) ==> #[trigger] b[i] == HASH,
        hash_run(b) < b.len() ==> b[hash_run(b)] != HASH,
    decreases b.len(),
{
    if b.len() > 0 && b[0] == HASH {
        let rest = b.drop_first();
        lemma_hash_run(rest);
        assert forall|i: int| 0 <= i < hash_run(b) implies #[trigger] b[i] == HASH by {
            if i > 0 {
                assert(rest[i - 1] == b[i]);
            }
        }
        if hash_run(b) < b.len() {
            assert(rest[hash_run(rest)] == b[hash_run(b)]);
        }
    }
}

/// A quote prefix lies inside the line, is made of spaces and `>`, and is empty exactly when
/// its depth is zero.
pub proof fn lemma_quote_len(b: Seq<u8>)
    ensures
        0 <= quote_len(b) <= b.len(),
        quote_depth(b) <= quote_len(b),
        quote_depth(b) == 0 <==> quote_len(b) == 0,
        forall|i: int| 0 <= i < quote_len(b) ==> #[trigger] b[i] == SPACE || b[i] == GREATER,
    decreases b.len(),
{
    let k = quote_mark(b);
    lemma_space_run(b);
    if 0 < k <= b.len() {
        let rest = tail(b, k);
        lemma_quote_len(rest);
        assert forall|i: int| 0 <= i < quote_len(b) implies #[trigger] b[i] == SPACE || b[i]
            == GREATER by {
            if i >= k {
                assert(rest[i - k] == b[i]);
            }
        }
    }
}

/// Cutting valid text just past ASCII bytes is safe.
pub proof fn lemma_ascii_prefix(b: Seq<u8>, n: int)
    requires
        valid_utf8(b),
        0 <= n <= b.len(),
        forall|i: int| 0 <= i < n ==> #[trigger] b[i] < 0x80,
    ensures
        forall|i: int| 0 <= i <= n ==> #[trigger] is_boundary(b, i),
{
    crate::bytes::lemma_start_is_boundary(b);
    assert forall|i: int| 0 <= i <= n implies #[trigger] is_boundary(b, i) by {
        if i > 0 {
            assert(b[i - 1] < 0x80);
            lemma_after_ascii(b, i - 1);
        }
    }
}

/// A list marker lies inside the line, is ASCII, and starts with the indent it reports.
pub proof fn lemma_list_marker(b: Seq<u8>)
    ensures
        match list_marker_of(b) {
            Some((len, kind)) => {
                &&& indent_len(b) + 2 <= len <= b.len()
                &&& forall|i: int| 0 <= i < len ==> #[trigger] b[i] < 0x80
                &&& b.len() <= usize::MAX ==> kind.indent_spec() == indent_len(b)
                &&& kind.checked_spec() is Some ==> {
                    &&& len >= indent_len(b) + 6
                    &&& box_at(b, len - 4) == kind.checked_spec()
                }
            },
            None => true,
        },
{
    let ws = indent_len(b);
    lemma_indent_len(b);
    let t = tail(b, ws);
    lemma_digit_run(t);
    assert forall|i: int| 0 <= i < digit_run(t) implies is_digit(#[trigger] b[ws + i]) by {
        assert(t[i] == b[ws + i]);
    }
    match list_marker_of(b) {
        Some((len, kind)) => {
            assert forall|i: int| 0 <= i < len implies #[trigger] b[i] < 0x80 by {
                if i < ws {
                    assert(is_blank(b[i]));
                } else if !bullet_at(b, ws) && i < ws + digit_run(t) {
                    assert(is_digit(b[ws + (i - ws)]));
                }
            }
        },
        None => {},
    }
}

/// A heading marker lies inside the line and is ASCII.
pub proof fn lemma_heading(b: Seq<u8>)
    ensures
        match heading_of(b) {
            Some((len, level)) => {
                &&& 2 <= len <= b.len()
                &&& 1 <= level <= 6
                &&& forall|i: int| 0 <= i < len ==> #[trigger] b[i] < 0x80
            },
            None => true,
        },
{
    lemma_space_run(b);
    let ws = space_run(b);
    let t = tail(b, ws);
    lemma_hash_run(t);
    match heading_of(b) {
        Some((len, level)) => {
            assert forall|i: int| 0 <= i < len implies #[trigger] b[i] < 0x80 by {
                if ws <= i < len - 1 {
                    assert(t[i - ws] == b[i]);
                }
            }
        },
        None => {},
    }
}

/// A text that starts with `n` spaces and then holds another byte has a run of `n`.
pub proof fn lemma_space_run_is(b: Seq<u8>, n: int)
    requires
        0 <= n <= b.len(),
        forall|i: int| 0 <= i < n ==> #[trigger] b[i] == SPACE,
        n < b.len() ==> b[n] != SPACE,
    ensures
        space_run(b) == n,
{
    lemma_space_run(b);
    let r = space_run(b);
    if r < n {
        assert(b[r] == SPACE);
    } else if r > n {
        assert(b[n] == SPACE);
    }
}

/// A line that starts with the same quote marks, and has none after them, has the same quote
/// prefix.
pub proof fn lemma_same_quote(b: Seq<u8>, c: Seq<u8>, q: int)
    requires
        q == quote_len(b),
        q < b.len(),
        q < c.len(),
        b.subrange(0, q) == c.subrange(0, q),
        q > 0 && b[q - 1] == GREATER ==> (b[q] == SPACE) == (c[q] == SPACE),
        quote_mark(tail(c, q)) == 0,
    ensures
        quote_len(c) == q,
    decreases b.len(),
{
    lemma_quote_len(b);
    let k = quote_mark(b);
    lemma_space_run(b);
    assert forall|i: int| 0 <= i < q implies b[i] == c[i] by {
        assert(b.subrange(0, q)[i] == b[i]);
        assert(c.subrange(0, q)[i] == c[i]);
    }
    if 0 < k <= b.len() {
        let ws = space_run(b);
        let rest = tail(b, k);
        lemma_quote_len(rest);
        assert forall|i: int| 0 <= i < ws implies #[trigger] c[i] == SPACE by {
            assert(b[i] == SPACE);
        }
        lemma_space_run_is(c, ws);
        assert(quote_mark(c) == k);
        let other = tail(c, k);
        assert(tail(other, q - k) =~= tail(c, q));
        assert(rest.subrange(0, q - k) =~= other.subrange(0, q - k));
        lemma_same_quote(rest, other, q - k);
    } else {
        assert(tail(c, 0) =~= c);
    }
}

/// A line that starts with a list marker has no quote marks before it.
pub proof fn lemma_item_has_no_quote(line: Seq<u8>)
    ensures
        list_marker_of(line) is Some ==> quote_mark(line) == 0 && quote_len(line) == 0 && tail(
            line,
            0,
        ) == line,
{
    if list_marker_of(line) is Some {
        let ws = indent_len(line);
        lemma_indent_len(line);
        lemma_space_run(line);
        lemma_digit_run(tail(line, ws));
        let n = space_run(line);
        assert(tail(line, ws)[0] == line[ws]);
        if n < ws {
            assert(is_blank(line[n]));
        } else if n > ws {
            assert(line[ws] == SPACE);
        }
        assert(quote_mark(line) == 0);
        assert(tail(line, 0) =~= line);
    }
}

/// Where the marker of a list item ends if its task box is left out.
pub open spec fn marker_base(b: Seq<u8>) -> int {
    let ws = indent_len(b);
    if bullet_at(b, ws) {
        ws + 2
    } else {
        ws + digit_run(tail(b, ws)) + 2
    }
}

/// Lines that agree up to the end of the bullet or number have the same marker, up to the task
/// box behind it.
pub proof fn lemma_marker_base(b: Seq<u8>, c: Seq<u8>)
    requires
        list_marker_of(b) is Some,
        marker_base(b) <= c.len(),
        forall|i: int| 0 <= i < marker_base(b) ==> #[trigger] b[i] == c[i],
    ensures
        0 <= marker_base(b) <= b.len(),
        (list_marker_of(b)->0).0 == past_box(b, marker_base(b)),
        (list_marker_of(b)->0).1.checked_spec() == box_at(b, marker_base(b)),
        list_marker_of(c) is Some,
        (list_marker_of(c)->0).0 == past_box(c, marker_base(b)),
        (list_marker_of(c)->0).1.checked_spec() == box_at(c, marker_base(b)),
        (list_marker_of(c)->0).1.indent_spec() == (list_marker_of(b)->0).1.indent_spec(),
        marker_base(c) == marker_base(b),
{
    let ws = indent_len(b);
    lemma_indent_len(b);
    let t = tail(b, ws);
    let u = tail(c, ws);
    lemma_digit_run(t);
    assert forall|i: int| 0 <= i < ws implies is_blank(#[trigger] c[i]) by {
        assert(is_blank(b[i]));
    }
    assert(b[ws] == c[ws]);
    lemma_indent_len_is(c, ws);
    if !bullet_at(b, ws) {
        let d = digit_run(t);
        assert forall|i: int| 0 <= i < d implies is_digit(#[trigger] u[i]) by {
            assert(t[i] == b[ws + i]);
            assert(u[i] == c[ws + i]);
        }
        assert(b[ws + d] == c[ws + d]);
        assert(t[d] == b[ws + d]);
        assert(u[d] == c[ws + d]);
        lemma_digit_run_is(u, d);
        assert(b[ws + d + 1] == c[ws + d + 1]);
        assert(t[0] == b[ws]);
        assert(is_digit(t[0]));
        assert(!bullet_at(c, ws));
    } else {
        assert(b[ws + 1] == c[ws + 1]);
    }
}

// ---- reading a line ---------------------------------------------------------

/// How many spaces a string holds from byte `from` on, up to the first other byte.
pub fn count_spaces(line: &str, from: usize) -> (n: usize)
    requires
        from <= line.spec_bytes().len(),
    ensures
        n == space_run(tail(line.spec_bytes(), from as int)),
        from + n <= line.spec_bytes().len(),
{
    let b = line.as_bytes();
    let mut i: usize = from;
    while i < b.len() && b[i] == SPACE
        invariant
            from <= i <= b.len(),
            b@ == line.spec_bytes(),
            space_run(tail(b@, from as int)) == (i - from) + space_run(tail(b@, i as int)),
        decreases b.len() - i,
    {
        proof {
            assert(tail(b@, i as int).drop_first() =~= tail(b@, i + 1));
        }
        i += 1;
    }
    i - from
}

/// Length and depth of the blockquote prefix of a line.
pub fn quote_prefix(line: &str) -> (r: (usize, usize))
    ensures
        r.0 == quote_len(line.spec_bytes()),
        r.1 == quote_depth(line.spec_bytes()),
        r.0 <= line.spec_bytes().len(),
        is_boundary(line.spec_bytes(), r.0 as int),
        valid_utf8(tail(line.spec_bytes(), r.0 as int)),
{
    let b = line.as_bytes();
    let n: usize = b.len();
    let mut i: usize = 0;
    let mut depth: usize = 0;
    proof {
        assert(tail(b@, 0) =~= b@);
    }
    loop
        invariant
            i <= n,
            depth <= i,
            n == b.len(),
            b@ == line.spec_bytes(),
            quote_len(b@) == i + quote_len(tail(b@, i as int)),
            quote_depth(b@) == depth + quote_depth(tail(b@, i as int)),
        ensures
            i <= n,
            quote_len(b@) == i,
            quote_depth(b@) == depth,
        decreases n - i,
    {
        let ws: usize = count_spaces(line, i);
        let j: usize = i + ws;
        let ghost t = tail(b@, i as int);
        if ws <= 3 && j < n && b[j] == GREATER {
            let k: usize = if j + 1 < n && b[j + 1] == SPACE {
                j + 2
            } else {
                j + 1
            };
            proof {
                assert(t[ws as int] == b[j as int]);
                if j + 1 < n {
                    assert(t[ws + 1] == b[j + 1]);
                }
                assert(quote_mark(t) == k - i);
                assert(tail(t, k - i) =~= tail(b@, k as int));
            }
            depth += 1;
            i = k;
        } else {
            proof {
                if ws <= 3 && j < n {
                    assert(t[ws as int] == b[j as int]);
                }
                assert(quote_mark(t) == 0);
            }
            break;
        }
    }
    proof {
        lemma_str_valid(line@);
        lemma_quote_len(b@);
        lemma_ascii_prefix(b@, i as int);
        lemma_slice_valid(b@, i as int, n as int);
    }
    (i, depth)
}

/// The task box at byte `at`, if one stands there.
fn task_box(line: &str, at: usize) -> (r: Option<bool>)
    requires
        at <= line.spec_bytes().len(),
    ensures
        r == box_at(line.spec_bytes(), at as int),
{
    let b = line.as_bytes();
    if b.len() - at >= 4 && b[at] == BRACKET_OPEN && b[at + 2] == BRACKET_CLOSE && b[at + 3] == SPACE {
        if b[at + 1] == SPACE {
            Some(false)
        } else if b[at + 1] == LOWER_X || b[at + 1] == UPPER_X {
            Some(true)
        } else {
            None
        }
    } else {
        None
    }
}

/// The list marker a line starts with: its length, and what it makes of the line.
pub fn list_marker(line: &str) -> (r: Option<(usize, BlockKind)>)
    ensures
        match (r, list_marker_of(line.spec_bytes())) {
            (Some((len, kind)), Some((l, k))) => len == l && kind == k && is_boundary(
                line.spec_bytes(),
                len as int,
            ),
            (None, None) => true,
            _ => false,
        },
{
    let b = line.as_bytes();
    let n: usize = b.len();
    let ws: usize = indent_width(line);
    let ghost t = tail(b@, ws as int);
    proof {
        lemma_str_valid(line@);
        lemma_indent_len(b@);
        lemma_list_marker(b@);
        lemma_digit_run(t);
        match list_marker_of(b@) {
            Some((len, kind)) => {
                lemma_ascii_prefix(b@, len);
            },
            None => {},
        }
    }
    if n - ws >= 2 && (b[ws] == DASH || b[ws] == STAR || b[ws] == PLUS) && b[ws + 1] == SPACE {
        let checked = task_box(line, ws + 2);
        let len: usize = if checked.is_some() {
            ws + 6
        } else {
            ws + 2
        };
        return Some((len, BlockKind::Bullet { indent: ws, checked }));
    }
    let mut d: usize = 0;
    let mut number: u64 = 0;
    proof {
        assert(b@.subrange(ws as int, ws as int) =~= Seq::<u8>::empty());
        assert(tail(b@, ws + 0) =~= t);
    }
    while ws + d < n && d <= 9 && b[ws + d] >= ZERO && b[ws + d] <= NINE
        invariant
            ws + d <= n,
            d <= 10,
            n == b.len(),
            t == tail(b@, ws as int),
            digit_run(t) == d + digit_run(tail(b@, ws + d)),
            d <= 9 ==> number == digits_value(b@.subrange(ws as int, ws + d)),
            d <= 9 ==> number < 1_000_000_000,
        decreases n - d,
    {
        proof {
            assert(tail(b@, ws + d).drop_first() =~= tail(b@, ws + d + 1));
            let longer = b@.subrange(ws as int, ws + d + 1);
            assert(longer.drop_last() =~= b@.subrange(ws as int, ws + d));
            assert(longer.last() == b[ws + d]);
            lemma_digit_run(t);
            lemma_digit_run(tail(b@, ws + d + 1));
            assert forall|i: int| 0 <= i < longer.len() implies is_digit(#[trigger] longer[i]) by {
                assert(longer[i] == t[i]);
            }
            lemma_nine_digits(longer);
        }
        if d < 9 {
            number = number * 10 + (b[ws + d] - ZERO) as u64;
        }
        d += 1;
    }
    proof {
        lemma_digit_run(tail(b@, ws + d));
    }
    if 1 <= d && d <= 9 && n - ws - d >= 2 && (b[ws + d] == DOT || b[ws + d] == PAREN_CLOSE) && b[ws + d
        + 1] == SPACE {
        let checked = task_box(line, ws + d + 2);
        let len: usize = if checked.is_some() {
            ws + d + 6
        } else {
            ws + d + 2
        };
        return Some((len, BlockKind::Numbered { indent: ws, number, checked }));
    }
    None
}

/// The heading marker a line starts with: its length and the heading's level.
pub fn heading_marker(line: &str) -> (r: Option<(usize, u8)>)
    ensures
        match (r, heading_of(line.spec_bytes())) {
            (Some((len, level)), Some((l, v))) => len == l && level == v && is_boundary(
                line.spec_bytes(),
                len as int,
            ),
            (None, None) => true,
            _ => false,
        },
{
    let b = line.as_bytes();
    let n: usize = b.len();
    proof {
        lemma_str_valid(line@);
        assert(tail(b@, 0) =~= b@);
        lemma_heading(b@);
        match heading_of(b@) {
            Some((len, level)) => {
                lemma_ascii_prefix(b@, len);
            },
            None => {},
        }
    }
    let ws: usize = count_spaces(line, 0);
    let mut i: usize = ws;
    while i < n && b[i] == HASH
        invariant
            ws <= i <= n,
            n == b.len(),
            hash_run(tail(b@, ws as int)) == (i - ws) + hash_run(tail(b@, i as int)),
        decreases n - i,
    {
        proof {
            assert(tail(b@, i as int).drop_first() =~= tail(b@, i + 1));
        }
        i += 1;
    }
    let hashes: usize = i - ws;
    if ws <= 3 && 1 <= hashes && hashes <= 6 && i < n && b[i] == SPACE {
        Some((i + 1, hashes as u8))
    } else {
        None
    }
}

/// Whether a line opens or closes a fenced code block.
pub fn is_fence(line: &str) -> (r: bool)
    ensures
        r == fence_line(line.spec_bytes()),
{
    let b = line.as_bytes();
    proof {
        lemma_str_valid(line@);
        lemma_skip_forward(b@, 0, true);
    }
    let i: usize = step_forward(line, 0, true);
    b.len() - i >= 3 && (b[i] == BACKTICK || b[i] == TILDE) && b[i + 1] == b[i] && b[i + 2] == b[i]
}

} // verus!
